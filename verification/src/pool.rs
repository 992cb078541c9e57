//! Automated-market-maker liquidity pools and the keys that identify them.

use vstd::prelude::*;

use crate::token::{rank_of, Token};
use crate::token_map::TokenMap;

verus! {

/// The canonical key of the pool for a token pair: the two tokens in rank order.
pub open spec fn pool_key(a: Token, b: Token) -> (Token, Token) {
    if rank_of(a) < rank_of(b) {
        (a, b)
    } else {
        (b, a)
    }
}

/// Creates a canonical key for a token pair to uniquely identify a liquidity pool.
/// The tokens are ordered to ensure that (A, B) and (B, A) produce the same key.
pub fn get_pool_key(token_a: Token, token_b: Token) -> (key: (Token, Token))
    ensures
        key == pool_key(token_a, token_b),
{
    if token_a.rank() < token_b.rank() {
        (token_a, token_b)
    } else {
        (token_b, token_a)
    }
}

/// The key of a pair does not depend on the order in which the pair is given.
pub proof fn lemma_pool_key_symmetric(a: Token, b: Token)
    ensures
        pool_key(a, b) == pool_key(b, a),
{
}

/// The key of a pair holds exactly the two tokens of the pair, lower rank first.
pub proof fn lemma_pool_key_shape(a: Token, b: Token)
    ensures
        pool_key(a, b) == (a, b) || pool_key(a, b) == (b, a),
        rank_of(pool_key(a, b).0) <= rank_of(pool_key(a, b).1),
        a != b ==> rank_of(pool_key(a, b).0) < rank_of(pool_key(a, b).1),
{
}

/// Two pairs share a key exactly when they hold the same two tokens.
pub proof fn lemma_pool_key_identifies_pair(a: Token, b: Token, c: Token, d: Token)
    ensures
        pool_key(a, b) == pool_key(c, d) <==> ((a == c && b == d) || (a == d && b == c)),
{
}

/// Represents an Automated Market Maker (AMM) liquidity pool: the reserve of
/// each token that the pool trades.
#[derive(Debug, Clone, Copy)]
pub struct AmmPool<A> {
    reserves: TokenMap<A>,
}

impl<A> View for AmmPool<A> {
    type V = Map<Token, A>;

    closed spec fn view(&self) -> Map<Token, A> {
        self.reserves@
    }
}

impl<A: Copy> AmmPool<A> {
    /// Creates a new AMM pool with initial reserves for two tokens.
    pub fn new(token_a: Token, amount_a: A, token_b: Token, amount_b: A) -> (pool: Self)
        ensures
            pool@ == Map::<Token, A>::empty().insert(token_a, amount_a).insert(token_b, amount_b),
    {
        let mut reserves = TokenMap::empty();
        reserves.insert(token_a, amount_a);
        reserves.insert(token_b, amount_b);
        AmmPool { reserves }
    }

    /// The pool's reserve of token `t`, if it trades that token.
    pub fn reserve(&self, t: Token) -> (r: Option<A>)
        ensures
            r is Some <==> self@.contains_key(t),
            r matches Some(v) ==> v == self@[t],
    {
        self.reserves.get(t)
    }

    /// Sets the pool's reserve of token `t`.
    pub fn set_reserve(&mut self, t: Token, v: A)
        ensures
            final(self)@ == old(self)@.insert(t, v),
    {
        self.reserves.insert(t, v);
    }
}

/// The liquidity pools of the chain, each found under its key.
#[derive(Debug, Clone, Copy)]
pub struct Pools<A> {
    table: TokenMap<TokenMap<AmmPool<A>>>,
}

impl<A> View for Pools<A> {
    type V = Map<(Token, Token), Map<Token, A>>;

    closed spec fn view(&self) -> Map<(Token, Token), Map<Token, A>> {
        Map::new(
            |k: (Token, Token)| self.table@.contains_key(k.0) && self.table@[k.0]@.contains_key(k.1),
            |k: (Token, Token)| self.table@[k.0]@[k.1]@,
        )
    }
}

impl<A: Copy> Pools<A> {
    /// No pool at all.
    pub fn empty() -> (p: Self)
        ensures
            p@ == Map::<(Token, Token), Map<Token, A>>::empty(),
    {
        let p = Pools { table: TokenMap::empty() };
        assert(p@ =~= Map::<(Token, Token), Map<Token, A>>::empty());
        p
    }

    /// The pool stored under `key`, if any.
    pub fn get(&self, key: (Token, Token)) -> (r: Option<AmmPool<A>>)
        ensures
            r is Some <==> self@.contains_key(key),
            r matches Some(pool) ==> pool@ == self@[key],
    {
        match self.table.get(key.0) {
            Some(row) => row.get(key.1),
            None => None,
        }
    }

    /// Stores `pool` under `key`, replacing any pool that was there.
    pub fn put(&mut self, key: (Token, Token), pool: AmmPool<A>)
        ensures
            final(self)@ == old(self)@.insert(key, pool@),
    {
        let mut row = match self.table.get(key.0) {
            Some(row) => row,
            None => TokenMap::empty(),
        };
        row.insert(key.1, pool);
        self.table.insert(key.0, row);
        assert(self@ =~= old(self)@.insert(key, pool@));
    }
}

} // verus!
