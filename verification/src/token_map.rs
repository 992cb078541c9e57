//! A finite map keyed by `Token`, with one optional slot per token.

use vstd::prelude::*;

use crate::token::Token;

verus! {

/// A map from tokens to values. Each token has its own slot, which may be empty.
#[derive(Debug, Clone, Copy)]
pub struct TokenMap<T> {
    usdc: Option<T>,
    usdt: Option<T>,
    eth: Option<T>,
    btc: Option<T>,
    nex: Option<T>,
    doge: Option<T>,
    hype: Option<T>,
}

impl<T> TokenMap<T> {
    /// The slot that holds the value of token `t`.
    pub closed spec fn slot(self, t: Token) -> Option<T> {
        match t {
            Token::USDC => self.usdc,
            Token::USDT => self.usdt,
            Token::ETH => self.eth,
            Token::BTC => self.btc,
            Token::NEX => self.nex,
            Token::DOGE => self.doge,
            Token::HYPE => self.hype,
        }
    }
}

impl<T> View for TokenMap<T> {
    type V = Map<Token, T>;

    closed spec fn view(&self) -> Map<Token, T> {
        Map::new(|t: Token| self.slot(t) is Some, |t: Token| self.slot(t)->0)
    }
}

impl<T: Copy> TokenMap<T> {
    /// The map with no entry.
    pub fn empty() -> (m: Self)
        ensures
            m@ == Map::<Token, T>::empty(),
    {
        let m = TokenMap {
            usdc: None,
            usdt: None,
            eth: None,
            btc: None,
            nex: None,
            doge: None,
            hype: None,
        };
        assert(m@ =~= Map::<Token, T>::empty());
        m
    }

    /// The map that holds `v` for every token.
    pub fn filled(v: T) -> (m: Self)
        ensures
            m@ == Map::new(|t: Token| true, |t: Token| v),
    {
        let m = TokenMap {
            usdc: Some(v),
            usdt: Some(v),
            eth: Some(v),
            btc: Some(v),
            nex: Some(v),
            doge: Some(v),
            hype: Some(v),
        };
        assert(m@ =~= Map::new(|t: Token| true, |t: Token| v));
        m
    }

    /// The value held for token `t`, if any.
    pub fn get(&self, t: Token) -> (r: Option<T>)
        ensures
            r is Some <==> self@.contains_key(t),
            r matches Some(v) ==> v == self@[t],
    {
        match t {
            Token::USDC => self.usdc,
            Token::USDT => self.usdt,
            Token::ETH => self.eth,
            Token::BTC => self.btc,
            Token::NEX => self.nex,
            Token::DOGE => self.doge,
            Token::HYPE => self.hype,
        }
    }

    /// Sets the value held for token `t`, creating the entry if it is missing.
    pub fn insert(&mut self, t: Token, v: T)
        ensures
            final(self)@ == old(self)@.insert(t, v),
    {
        match t {
            Token::USDC => self.usdc = Some(v),
            Token::USDT => self.usdt = Some(v),
            Token::ETH => self.eth = Some(v),
            Token::BTC => self.btc = Some(v),
            Token::NEX => self.nex = Some(v),
            Token::DOGE => self.doge = Some(v),
            Token::HYPE => self.hype = Some(v),
        }
        assert(self@ =~= old(self)@.insert(t, v));
    }
}

} // verus!
