use anre::anre::lexer::lex_from_str;
use anre::anre::token::{Token, TokenWithRange};
use anre::position::{Position, Range};

#[test]
fn nested_block_comment_is_skipped_whole() {
    let tokens = lex_from_str("'a' /* x /* y */ */ 12_3").unwrap();
    assert_eq!(
        tokens,
        vec![
            TokenWithRange::new(
                Token::Char('a'),
                Range::new(&Position::new(0, 0, 0), &Position::new(2, 0, 2))
            ),
            TokenWithRange::new(
                Token::Number(123),
                Range::new(&Position::new(20, 0, 20), &Position::new(23, 0, 23))
            ),
        ]
    );
}

#[test]
fn line_comment_ends_at_line_feed() {
    let tokens = lex_from_str("// note\n\"b\\u{41}\"").unwrap();
    assert_eq!(
        tokens,
        vec![TokenWithRange::new(
            Token::String("bA".to_owned()),
            Range::new(&Position::new(8, 1, 0), &Position::new(16, 1, 8))
        )]
    );
}

#[test]
fn refused_texts() {
    // A number too large for a usize.
    assert!(lex_from_str("99999999999999999999999999").is_err());
    // An unclosed nested block comment.
    assert!(lex_from_str("/* /* */").is_err());
    // A character that cannot follow a number.
    assert!(lex_from_str("12a").is_err());
    // A lone `|`.
    assert!(lex_from_str("'a' | 'b'").is_err());
    // A Unicode escape of seven digits.
    assert!(lex_from_str("'\\u{1234567}'").is_err());
    // Nothing between the quotes.
    assert!(lex_from_str("''").is_err());
}

#[test]
fn keywords_and_names() {
    let tokens: Vec<Token> = lex_from_str("define as asx").unwrap().into_iter().map(|t| t.token).collect();
    assert_eq!(
        tokens,
        vec![
            Token::Keyword("define".to_owned()),
            Token::Keyword("as".to_owned()),
            Token::Identifier("asx".to_owned()),
        ]
    );
}
