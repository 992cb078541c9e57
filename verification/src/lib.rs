//! A local blockchain simulation: tokens, accounts with balances, constant-product
//! liquidity pools and a log of blocks built from submitted transactions.

pub mod token;
pub mod token_map;
pub mod pool;
pub mod chain;
