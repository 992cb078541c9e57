# services

A local blockchain simulation: seven tokens, accounts holding balances of each
token, one constant-product liquidity pool for every pair of distinct tokens, and a
log of blocks built once a second from the transactions submitted over HTTP.

- `src/` is the verified library.
  - `token.rs`: the tokens, their canonical names and order, and case-insensitive
    parsing.
  - `token_map.rs`: a map keyed by token.
  - `pool.rs`: pool keys, liquidity pools and the table of pools.
  - `chain.rs`: the chain state (accounts, pools, blocks, pending transactions),
    its genesis, the queue, block production, block queries, and the settling of
    sends and swaps. Amounts are a type parameter: the chain stores and moves them,
    the caller computes them.
- `app/` is the program: the command line, the HTTP server and client, the block
  producer loop, and the `f64` arithmetic of prices, debits and credits.
- `tests/` runs the library on concrete values.
