use services::pool::get_pool_key;
use services::token::Token;
use std::str::FromStr;

const ALL: [Token; 7] = [
    Token::USDC,
    Token::USDT,
    Token::ETH,
    Token::BTC,
    Token::NEX,
    Token::DOGE,
    Token::HYPE,
];

#[test]
fn parses_every_canonical_name() {
    assert_eq!(Token::from_str("USDC"), Ok(Token::USDC));
    assert_eq!(Token::from_str("USDT"), Ok(Token::USDT));
    assert_eq!(Token::from_str("ETH"), Ok(Token::ETH));
    assert_eq!(Token::from_str("BTC"), Ok(Token::BTC));
    assert_eq!(Token::from_str("NEX"), Ok(Token::NEX));
    assert_eq!(Token::from_str("DOGE"), Ok(Token::DOGE));
    assert_eq!(Token::from_str("HYPE"), Ok(Token::HYPE));
}

#[test]
fn parsing_is_case_insensitive() {
    assert_eq!(Token::from_str("nex"), Ok(Token::NEX));
    assert_eq!(Token::from_str("Nex"), Ok(Token::NEX));
    assert_eq!(Token::from_str("dOgE"), Ok(Token::DOGE));
    assert_eq!(Token::from_str("usdt"), Ok(Token::USDT));
}

#[test]
fn parsing_goes_through_unicode_upper_case() {
    // The long s (U+017F) upper-cases to an ASCII 'S'.
    assert_eq!(Token::from_str("u\u{17f}dc"), Ok(Token::USDC));
}

#[test]
fn rejects_unknown_names_with_a_message() {
    assert_eq!(
        Token::from_str("SOL"),
        Err("'SOL' is not a valid token".to_string())
    );
    assert_eq!(Token::from_str(""), Err("'' is not a valid token".to_string()));
    assert_eq!(
        Token::from_str(" nex"),
        Err("' nex' is not a valid token".to_string())
    );
    assert_eq!(
        Token::from_str("NEXX"),
        Err("'NEXX' is not a valid token".to_string())
    );
}

#[test]
fn from_str_trait_matches_inherent_parse() {
    let t: Token = "eth".parse().unwrap();
    assert_eq!(t, Token::ETH);
    assert!("nope".parse::<Token>().is_err());
}

#[test]
fn from_name_is_exact() {
    assert_eq!(Token::from_name("NEX"), Some(Token::NEX));
    assert_eq!(Token::from_name("nex"), None);
    assert_eq!(Token::from_name("HYPE"), Some(Token::HYPE));
    assert_eq!(Token::from_name("HYP"), None);
}

#[test]
fn rank_follows_declaration_order() {
    for (i, t) in ALL.iter().enumerate() {
        assert_eq!(t.rank() as usize, i);
        assert_eq!(Token::at(i as u8), *t);
    }
}

#[test]
fn rank_order_agrees_with_derived_order() {
    for a in ALL {
        for b in ALL {
            assert_eq!(a.rank() < b.rank(), a < b);
        }
    }
}

#[test]
fn pool_key_is_symmetric() {
    for a in ALL {
        for b in ALL {
            assert_eq!(get_pool_key(a, b), get_pool_key(b, a));
        }
    }
}

#[test]
fn pool_key_puts_lower_token_first() {
    assert_eq!(get_pool_key(Token::NEX, Token::ETH), (Token::ETH, Token::NEX));
    assert_eq!(get_pool_key(Token::ETH, Token::NEX), (Token::ETH, Token::NEX));
    assert_eq!(get_pool_key(Token::HYPE, Token::USDC), (Token::USDC, Token::HYPE));
    assert_eq!(get_pool_key(Token::BTC, Token::BTC), (Token::BTC, Token::BTC));
    for a in ALL {
        for b in ALL {
            let (x, y) = get_pool_key(a, b);
            assert!(x <= y);
            assert!((x, y) == (a, b) || (x, y) == (b, a));
        }
    }
}
