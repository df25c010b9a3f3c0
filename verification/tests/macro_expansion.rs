use anre::anre::lexer::lex_from_str;
use anre::anre::macro_expander::expand;
use anre::anre::token::Token;

fn expanded(s: &str) -> Result<Vec<Token>, anre::error::AnreError> {
    let tokens = lex_from_str(s).unwrap();
    Ok(expand(tokens)?.into_iter().map(|t| t.token).collect())
}

#[test]
fn macro_body_replaces_later_uses() {
    assert_eq!(
        expanded("define A ('a') A, B, A").unwrap(),
        vec![
            Token::ParenthesisOpen,
            Token::Char('a'),
            Token::ParenthesisClose,
            Token::Identifier("B".to_owned()),
            Token::ParenthesisOpen,
            Token::Char('a'),
            Token::ParenthesisClose,
        ]
    );
}

#[test]
fn macro_bodies_use_earlier_macros() {
    assert_eq!(
        expanded("define A ('a') define B (A 'b') B").unwrap(),
        vec![
            Token::ParenthesisOpen,
            Token::ParenthesisOpen,
            Token::Char('a'),
            Token::ParenthesisClose,
            Token::Char('b'),
            Token::ParenthesisClose,
        ]
    );
}

#[test]
fn use_before_definition_stays_a_name() {
    assert_eq!(
        expanded("A define A ('a')").unwrap(),
        vec![Token::Identifier("A".to_owned())]
    );
}

#[test]
fn malformed_definitions_are_refused() {
    assert!(expanded("define A ('a') define A ('b') A").is_err());
    assert!(expanded("define").is_err());
    assert!(expanded("define 'a' ('b')").is_err());
    assert!(expanded("define A 'a'").is_err());
    assert!(expanded("define A (('a')").is_err());
}

#[test]
fn macro_errors_name_the_place() {
    let tokens = lex_from_str("define A ('a') define A ('b') A").unwrap();
    assert_eq!(
        expand(tokens),
        Err(anre::error::AnreError::MessageWithRange(
            "The macro \"A\" is already defined.".to_owned(),
            anre::position::Range::new(
                &anre::position::Position::new(22, 0, 22),
                &anre::position::Position::new(22, 0, 22)
            )
        ))
    );
    let tokens = lex_from_str("define A ('a'").unwrap();
    assert_eq!(
        expand(tokens),
        Err(anre::error::AnreError::UnexpectedEndOfDocument("Incomplete macro body.".to_owned()))
    );
}
