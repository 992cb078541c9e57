//! The tokens that circulate on the chain, their canonical names and their order.

use vstd::prelude::*;
use vstd::string::StrSliceExecFns;
use vstd::string::StringExecFns;
use vstd::utf8::is_ascii_chars;

verus! {

/// Represents the different types of tokens available in the chain.
///
/// Tokens are ordered by their declaration order, which is the order that
/// `rank` gives them.
#[derive(Debug, Clone, Copy, PartialEq, Eq, Structural, Hash, PartialOrd, Ord)]
pub enum Token {
    USDC,
    USDT,
    ETH,
    BTC,
    NEX,
    DOGE,
    HYPE,
}

/// The number of distinct tokens.
pub const TOKEN_COUNT: u8 = 7;

/// The position of a token in the declaration order.
pub open spec fn rank_of(t: Token) -> nat {
    match t {
        Token::USDC => 0,
        Token::USDT => 1,
        Token::ETH => 2,
        Token::BTC => 3,
        Token::NEX => 4,
        Token::DOGE => 5,
        Token::HYPE => 6,
    }
}

/// The token at a given position of the declaration order.
pub open spec fn token_at(i: nat) -> Token
    recommends
        i < 7,
{
    if i == 0 {
        Token::USDC
    } else if i == 1 {
        Token::USDT
    } else if i == 2 {
        Token::ETH
    } else if i == 3 {
        Token::BTC
    } else if i == 4 {
        Token::NEX
    } else if i == 5 {
        Token::DOGE
    } else {
        Token::HYPE
    }
}

/// The canonical (upper-case) name of a token.
pub open spec fn token_name(t: Token) -> Seq<char> {
    match t {
        Token::USDC => "USDC"@,
        Token::USDT => "USDT"@,
        Token::ETH => "ETH"@,
        Token::BTC => "BTC"@,
        Token::NEX => "NEX"@,
        Token::DOGE => "DOGE"@,
        Token::HYPE => "HYPE"@,
    }
}

/// The token whose canonical name is exactly `name`, if there is one.
pub open spec fn token_named(name: Seq<char>) -> Option<Token> {
    if name == "USDC"@ {
        Some(Token::USDC)
    } else if name == "USDT"@ {
        Some(Token::USDT)
    } else if name == "ETH"@ {
        Some(Token::ETH)
    } else if name == "BTC"@ {
        Some(Token::BTC)
    } else if name == "NEX"@ {
        Some(Token::NEX)
    } else if name == "DOGE"@ {
        Some(Token::DOGE)
    } else if name == "HYPE"@ {
        Some(Token::HYPE)
    } else {
        None
    }
}

/// The message with which a string that names no token is rejected.
pub open spec fn invalid_token_text(s: Seq<char>) -> Seq<char> {
    "'"@ + s + "' is not a valid token"@
}

/// The upper-case form of an ASCII character: `a` to `z` become `A` to `Z`, every
/// other character stays as it is.
pub open spec fn ascii_upper_char(c: char) -> char {
    if 97 <= (c as int) && (c as int) <= 122 {
        ((c as int) - 32) as char
    } else {
        c
    }
}

/// The upper-case form of a string, character by character, for ASCII text.
pub open spec fn ascii_uppercase(s: Seq<char>) -> Seq<char> {
    s.map_values(|c: char| ascii_upper_char(c))
}

/// What `str::to_uppercase` returns for a string, taken as a sequence of characters.
pub uninterp spec fn uppercase(s: Seq<char>) -> Seq<char>;

/// Calls `str::to_uppercase`. The contract claims that the result is a function of
/// the characters of `s` (the Unicode upper-case mapping, named `uppercase`), and
/// that on ASCII text this mapping turns `a` to `z` into `A` to `Z` and keeps every
/// other character. What it does to other characters is not stated.
#[verifier::external_body]
fn to_uppercase(s: &str) -> (r: String)
    ensures
        r@ == uppercase(s@),
        is_ascii_chars(s@) ==> r@ == ascii_uppercase(s@),
{
    s.to_uppercase()
}

/// Character-wise equality of two string slices.
fn same_text(a: &str, b: &str) -> (r: bool)
    ensures
        r == (a@ == b@),
{
    let n = a.unicode_len();
    if n != b.unicode_len() {
        return false;
    }
    let mut i: usize = 0;
    while i < n
        invariant
            n == a@.len(),
            n == b@.len(),
            i <= n,
            forall|j: int| 0 <= j < i ==> a@[j] == b@[j],
        decreases n - i,
    {
        if a.get_char(i) != b.get_char(i) {
            return false;
        }
        i = i + 1;
    }
    assert(a@ =~= b@);
    true
}

/// Builds the rejection message for a string that names no token.
fn invalid_token_message(s: &str) -> (m: String)
    ensures
        m@ == invalid_token_text(s@),
{
    let mut m = "'".to_owned();
    m.append(s);
    m.append("' is not a valid token");
    m
}

impl Token {
    /// The position of this token in the declaration order.
    pub fn rank(&self) -> (r: u8)
        ensures
            r == rank_of(*self),
            r < TOKEN_COUNT,
    {
        match self {
            Token::USDC => 0,
            Token::USDT => 1,
            Token::ETH => 2,
            Token::BTC => 3,
            Token::NEX => 4,
            Token::DOGE => 5,
            Token::HYPE => 6,
        }
    }

    /// The token at position `i` of the declaration order.
    pub fn at(i: u8) -> (t: Token)
        requires
            i < TOKEN_COUNT,
        ensures
            t == token_at(i as nat),
            rank_of(t) == i,
    {
        if i == 0 {
            Token::USDC
        } else if i == 1 {
            Token::USDT
        } else if i == 2 {
            Token::ETH
        } else if i == 3 {
            Token::BTC
        } else if i == 4 {
            Token::NEX
        } else if i == 5 {
            Token::DOGE
        } else {
            Token::HYPE
        }
    }

    /// Looks a token up by its exact canonical name (for instance `"NEX"`).
    pub fn from_name(name: &str) -> (r: Option<Token>)
        ensures
            r == token_named(name@),
            r matches Some(t) ==> name@ == token_name(t),
            forall|t: Token| name@ == token_name(t) ==> r == Some(t),
            name@ == "USDC"@ ==> r == Some(Token::USDC),
            name@ == "USDT"@ ==> r == Some(Token::USDT),
            name@ == "ETH"@ ==> r == Some(Token::ETH),
            name@ == "BTC"@ ==> r == Some(Token::BTC),
            name@ == "NEX"@ ==> r == Some(Token::NEX),
            name@ == "DOGE"@ ==> r == Some(Token::DOGE),
            name@ == "HYPE"@ ==> r == Some(Token::HYPE),
    {
        proof {
            lemma_name_round_trip(Token::USDC);
            lemma_name_round_trip(Token::USDT);
            lemma_name_round_trip(Token::ETH);
            lemma_name_round_trip(Token::BTC);
            lemma_name_round_trip(Token::NEX);
            lemma_name_round_trip(Token::DOGE);
            lemma_name_round_trip(Token::HYPE);
            lemma_named_only_canonical(name@);
            assert forall|t: Token| name@ == token_name(t) implies token_named(name@) == Some(t) by {
                lemma_name_round_trip(t);
            }
        }
        if same_text(name, "USDC") {
            Some(Token::USDC)
        } else if same_text(name, "USDT") {
            Some(Token::USDT)
        } else if same_text(name, "ETH") {
            Some(Token::ETH)
        } else if same_text(name, "BTC") {
            Some(Token::BTC)
        } else if same_text(name, "NEX") {
            Some(Token::NEX)
        } else if same_text(name, "DOGE") {
            Some(Token::DOGE)
        } else if same_text(name, "HYPE") {
            Some(Token::HYPE)
        } else {
            None
        }
    }

    /// Parses a string into a token. The comparison is case-insensitive: the
    /// string is upper-cased and then matched against the canonical names.
    pub fn from_str(s: &str) -> (r: Result<Token, String>)
        ensures
            token_named(uppercase(s@)) is Some <==> r is Ok,
            r matches Ok(t) ==> token_named(uppercase(s@)) == Some(t),
            r matches Err(m) ==> m@ == invalid_token_text(s@),
            r matches Err(m) ==> m@ == "'"@ + s@ + "' is not a valid token"@,
            r matches Ok(t) ==> uppercase(s@) == token_name(t),
            r is Err ==> forall|t: Token| uppercase(s@) != token_name(t),
            is_ascii_chars(s@) ==> (token_named(ascii_uppercase(s@)) is Some <==> r is Ok),
            is_ascii_chars(s@) ==> (r matches Ok(t) ==> token_named(ascii_uppercase(s@)) == Some(
                t,
            )),
    {
        proof {
            lemma_named_only_canonical(uppercase(s@));
            assert forall|t: Token| uppercase(s@) == token_name(t) implies token_named(
                uppercase(s@),
            ) == Some(t) by {
                lemma_name_round_trip(t);
            }
        }
        let upper = to_uppercase(s);
        match Token::from_name(upper.as_str()) {
            Some(t) => Ok(t),
            None => Err(invalid_token_message(s)),
        }
    }
}

impl std::str::FromStr for Token {
    type Err = String;

    fn from_str(s: &str) -> (r: Result<Token, String>)
        ensures
            token_named(uppercase(s@)) is Some <==> r is Ok,
            r matches Ok(t) ==> token_named(uppercase(s@)) == Some(t),
            r matches Err(m) ==> m@ == invalid_token_text(s@),
            r matches Err(m) ==> m@ == "'"@ + s@ + "' is not a valid token"@,
            r matches Ok(t) ==> uppercase(s@) == token_name(t),
            r is Err ==> forall|t: Token| uppercase(s@) != token_name(t),
            is_ascii_chars(s@) ==> (token_named(ascii_uppercase(s@)) is Some <==> r is Ok),
            is_ascii_chars(s@) ==> (r matches Ok(t) ==> token_named(ascii_uppercase(s@)) == Some(
                t,
            )),
    {
        Token::from_str(s)
    }
}

/// The rank is one-to-one: distinct tokens have distinct positions.
pub proof fn lemma_rank_injective(a: Token, b: Token)
    ensures
        rank_of(a) == rank_of(b) <==> a == b,
{
}

/// Every position below the number of tokens holds the token of that rank.
pub proof fn lemma_token_at_rank(t: Token)
    ensures
        token_at(rank_of(t)) == t,
        rank_of(t) < TOKEN_COUNT,
{
}

/// Each canonical name looks up exactly its own token.
pub proof fn lemma_name_round_trip(t: Token)
    ensures
        token_named(token_name(t)) == Some(t),
{
    reveal_strlit("USDC");
    reveal_strlit("USDT");
    reveal_strlit("ETH");
    reveal_strlit("BTC");
    reveal_strlit("NEX");
    reveal_strlit("DOGE");
    reveal_strlit("HYPE");
    assert("USDC"@[3] != "USDT"@[3]);
    assert("USDC"@[0] != "ETH"@[0] && "USDC"@[0] != "BTC"@[0] && "USDC"@[0] != "NEX"@[0]);
    assert("USDC"@[0] != "DOGE"@[0] && "USDC"@[0] != "HYPE"@[0]);
    assert("ETH"@[0] != "BTC"@[0] && "ETH"@[0] != "NEX"@[0] && "BTC"@[0] != "NEX"@[0]);
    assert("DOGE"@[0] != "HYPE"@[0] && "USDT"@[0] != "DOGE"@[0]);
}

/// Only the seven canonical names name a token, each its own: a name that is
/// looked up to a token is that token's canonical name.
pub proof fn lemma_named_only_canonical(name: Seq<char>)
    ensures
        token_named(name) matches Some(t) ==> name == token_name(t),
{
}

/// Parsing ignores letter case on ASCII text: a string whose upper-case form is a
/// token's canonical name names that token.
pub proof fn lemma_ascii_case_insensitive(t: Token, s: Seq<char>)
    requires
        ascii_uppercase(s) == token_name(t),
    ensures
        token_named(ascii_uppercase(s)) == Some(t),
{
    lemma_name_round_trip(t);
}

} // verus!
