use anre::error::AnreError;
use anre::position::{Position, Range};

#[test]
fn anre_lexer_reports_the_first_refused_character() {
    assert_eq!(
        anre::anre::lexer::lex_from_str("'a' $"),
        Err(AnreError::MessageWithPosition(
            "Unexpected character '$'.".to_owned(),
            Position::new(4, 0, 4)
        ))
    );
    assert_eq!(
        anre::anre::lexer::lex_from_str("12a"),
        Err(AnreError::MessageWithPosition(
            "Invalid digit 'a' for decimal number.".to_owned(),
            Position::new(2, 0, 2)
        ))
    );
    assert_eq!(
        anre::anre::lexer::lex_from_str("\"ab"),
        Err(AnreError::UnexpectedEndOfDocument("Incomplete string literal.".to_owned()))
    );
    assert_eq!(
        anre::anre::lexer::lex_from_str("''"),
        Err(AnreError::MessageWithRange(
            "Empty character literal.".to_owned(),
            Range::new(&Position::new(0, 0, 0), &Position::new(1, 0, 1))
        ))
    );
    assert_eq!(
        anre::anre::lexer::lex_from_str("/* /* */"),
        Err(AnreError::UnexpectedEndOfDocument("Incomplete block comment.".to_owned()))
    );
    assert_eq!(
        anre::anre::lexer::lex_from_str("/* /* "),
        Err(AnreError::UnexpectedEndOfDocument("Incomplete nested block comment.".to_owned()))
    );
}

#[test]
fn traditional_lexer_reports_the_first_refused_place() {
    assert_eq!(
        anre::traditional::lexer::lex_from_str("a{3"),
        Err(AnreError::UnexpectedEndOfDocument("Expected character closing brace.".to_owned()))
    );
    assert_eq!(
        anre::traditional::lexer::lex_from_str("[a-\\d]"),
        Err(AnreError::MessageWithRange(
            "Expected a character for a range, for example \"a-z\".".to_owned(),
            Range::new(&Position::new(3, 0, 3), &Position::new(4, 0, 4))
        ))
    );
    assert_eq!(
        anre::traditional::lexer::lex_from_str("x\\0"),
        Err(AnreError::MessageWithRange(
            "Cannot back-reference group 0.".to_owned(),
            Range::new(&Position::new(1, 0, 1), &Position::new(2, 0, 2))
        ))
    );
}
