use anre::anre::lexer::lex_from_str;
use anre::anre::token::{Token, TokenWithRange};
use anre::error::AnreError;
use anre::position::{Position, Range};

fn new_identifier(s: &str) -> Token {
    Token::Identifier(s.to_owned())
}

fn new_keyword(s: &str) -> Token {
    Token::Keyword(s.to_owned())
}

fn new_string(s: &str) -> Token {
    Token::String(s.to_owned())
}


fn lex_from_str_without_location(s: &str) -> Result<Vec<Token>, AnreError> {
    let tokens = lex_from_str(s)?
        .into_iter()
        .map(|e| e.token)
        .collect::<Vec<Token>>();
    Ok(tokens)
}

#[test]
fn test_lex_whitespaces() {
    assert_eq!(lex_from_str_without_location("  ").unwrap(), vec![]);

    assert_eq!(
        lex_from_str_without_location("()").unwrap(),
        vec![Token::ParenthesisOpen, Token::ParenthesisClose]
    );

    assert_eq!(
        lex_from_str_without_location("(  )").unwrap(),
        vec![Token::ParenthesisOpen, Token::ParenthesisClose]
    );

    assert_eq!(
        lex_from_str_without_location("( , )").unwrap(),
        vec![Token::ParenthesisOpen, Token::ParenthesisClose]
    );

    assert_eq!(
        lex_from_str_without_location("( , , ,, )").unwrap(),
        vec![Token::ParenthesisOpen, Token::ParenthesisClose]
    );

    assert_eq!(
        lex_from_str_without_location("(\t\r\n\n\n)").unwrap(),
        vec![Token::ParenthesisOpen, Token::ParenthesisClose,]
    );

    assert_eq!(
        lex_from_str_without_location("(\n,\n)").unwrap(),
        vec![Token::ParenthesisOpen, Token::ParenthesisClose]
    );

    // Test ranges.

    assert_eq!(lex_from_str("  ").unwrap(), vec![]);

    assert_eq!(
        lex_from_str("()").unwrap(),
        vec![
            TokenWithRange::new(Token::ParenthesisOpen, Range::from_detail(0, 0, 0, 1)),
            TokenWithRange::new(Token::ParenthesisClose, Range::from_detail(1, 0, 1, 1)),
        ]
    );

    assert_eq!(
        lex_from_str("(  )").unwrap(),
        vec![
            TokenWithRange::new(Token::ParenthesisOpen, Range::from_detail(0, 0, 0, 1)),
            TokenWithRange::new(Token::ParenthesisClose, Range::from_detail(3, 0, 3, 1)),
        ]
    );

    // "(\t\r\n\n\n)"
    //  _--____--__-
    //  0  2   4 5 6    // index
    //  0  0   1 2 3    // line
    //  0  2   0 0 1    // column
    //  1  2   1 1 1    // length

    assert_eq!(
        lex_from_str("(\t\r\n\n\n)").unwrap(),
        vec![
            TokenWithRange::new(Token::ParenthesisOpen, Range::from_detail(0, 0, 0, 1)),
            TokenWithRange::new(Token::ParenthesisClose, Range::from_detail(6, 3, 0, 1)),
        ]
    );
}

#[test]
fn test_lex_punctuations() {
    assert_eq!(
        lex_from_str_without_location("!...#^||[]()???++?**?{}").unwrap(),
        vec![
            Token::Not,
            Token::Range,
            Token::Dot,
            Token::Hash,
            Token::Caret,
            Token::LogicOr,
            Token::BracketOpen,
            Token::BracketClose,
            Token::ParenthesisOpen,
            Token::ParenthesisClose,
            Token::LazyOptional,
            Token::Optional,
            Token::OneOrMore,
            Token::LazyOneOrMore,
            Token::ZeroOrMore,
            Token::LazyZeroOrMore,
            Token::BraceOpen,
            Token::BraceClose
        ]
    );
}

#[test]
fn test_lex_identifier() {
    assert_eq!(
        lex_from_str_without_location("name").unwrap(),
        vec![new_identifier("name")]
    );

    assert_eq!(
        lex_from_str_without_location("(name)").unwrap(),
        vec![
            Token::ParenthesisOpen,
            new_identifier("name"),
            Token::ParenthesisClose,
        ]
    );

    assert_eq!(
        lex_from_str_without_location("( a )").unwrap(),
        vec![
            Token::ParenthesisOpen,
            new_identifier("a"),
            Token::ParenthesisClose,
        ]
    );

    assert_eq!(
        lex_from_str_without_location("a__b__c").unwrap(),
        vec![new_identifier("a__b__c")]
    );

    assert_eq!(
        lex_from_str_without_location("foo bar").unwrap(),
        vec![new_identifier("foo"), new_identifier("bar")]
    );

    assert_eq!(
        lex_from_str_without_location("αβγ 文字 🍞🥛").unwrap(),
        vec![
            new_identifier("αβγ"),
            new_identifier("文字"),
            new_identifier("🍞🥛"),
        ]
    );

    // Test ranges.

    assert_eq!(
        lex_from_str("hello ASON").unwrap(),
        vec![
            TokenWithRange::new(
                new_identifier("hello"),
                Range::from_position_and_length(&Position::new(0, 0, 0), 5)
            ),
            TokenWithRange::new(
                new_identifier("ASON"),
                Range::from_position_and_length(&Position::new(6, 0, 6), 4)
            )
        ]
    );

    // Error: invalid char
    assert!(matches!(
        lex_from_str("abc&xyz"),
        Err(AnreError::MessageWithPosition(
            _,
            Position {
                index: 3,
                line: 0,
                column: 3
            }
        ))
    ));
}

#[test]
fn test_lex_keyword() {
    assert_eq!(
        lex_from_str_without_location("define as").unwrap(),
        vec![new_keyword("define"), new_keyword("as")]
    );

    // Test ranges.

    // "[\n    define\n    as\n]"
    //  01 23456789012 3456789 0   // index
    //  00 11111111111 2222222 3   // line
    //  01 01234567890 0123456 0   // column
    //  1      6           2   1   // length

    assert_eq!(
        lex_from_str("[\n    define\n    as\n]").unwrap(),
        vec![
            TokenWithRange::new(
                Token::BracketOpen,
                Range::from_position_and_length(&Position::new(0, 0, 0), 1)
            ),
            TokenWithRange::new(
                new_keyword("define"),
                Range::from_position_and_length(&Position::new(6, 1, 4), 6)
            ),
            TokenWithRange::new(
                new_keyword("as"),
                Range::from_position_and_length(&Position::new(17, 2, 4), 2)
            ),
            TokenWithRange::new(
                Token::BracketClose,
                Range::from_position_and_length(&Position::new(20, 3, 0), 1)
            ),
        ]
    );
}

#[test]
fn test_lex_number() {
    assert_eq!(
        lex_from_str_without_location("223").unwrap(),
        vec![Token::Number(223),]
    );

    assert_eq!(
        lex_from_str_without_location("211").unwrap(),
        vec![Token::Number(211)]
    );

    assert_eq!(
        lex_from_str_without_location("223_211").unwrap(),
        vec![Token::Number(223_211)]
    );

    assert_eq!(
        lex_from_str_without_location("223 211").unwrap(),
        vec![Token::Number(223), Token::Number(211),]
    );

    // location

    assert_eq!(
        lex_from_str("223 211").unwrap(),
        vec![
            TokenWithRange::new(
                Token::Number(223),
                Range::from_position_and_length(&Position::new(0, 0, 0,), 3)
            ),
            TokenWithRange::new(
                Token::Number(211),
                Range::from_position_and_length(&Position::new(4, 0, 4,), 3)
            ),
        ]
    );

    // Error: invalid char for decimal number
    assert!(matches!(
        lex_from_str_without_location("12x34"),
        Err(AnreError::MessageWithPosition(
            _,
            Position {
                index: 2,
                line: 0,
                column: 2
            }
        ))
    ));

    // Error: unsupported hexadecimal number (starting with "0x")
    assert!(matches!(
        lex_from_str_without_location("0x1234"),
        Err(AnreError::MessageWithPosition(
            _,
            Position {
                index: 1,
                line: 0,
                column: 1
            }
        ))
    ));
}

#[test]
fn lexer_test_lex_char() {
    assert_eq!(
        lex_from_str_without_location("'a'").unwrap(),
        vec![Token::Char('a')]
    );

    assert_eq!(
        lex_from_str_without_location("('a')").unwrap(),
        vec![
            Token::ParenthesisOpen,
            Token::Char('a'),
            Token::ParenthesisClose
        ]
    );

    assert_eq!(
        lex_from_str_without_location("'a' 'z'").unwrap(),
        vec![Token::Char('a'), Token::Char('z')]
    );

    // CJK
    assert_eq!(
        lex_from_str_without_location("'文'").unwrap(),
        vec![Token::Char('文')]
    );

    // emoji
    assert_eq!(
        lex_from_str_without_location("'😊'").unwrap(),
        vec![Token::Char('😊')]
    );

    // escape char `\\`
    assert_eq!(
        lex_from_str_without_location("'\\\\'").unwrap(),
        vec![Token::Char('\\')]
    );

    // escape char `\'`
    assert_eq!(
        lex_from_str_without_location("'\\\''").unwrap(),
        vec![Token::Char('\'')]
    );

    // escape char `"`
    assert_eq!(
        lex_from_str_without_location("'\\\"'").unwrap(),
        vec![Token::Char('"')]
    );

    // escape char `\t`
    assert_eq!(
        lex_from_str_without_location("'\\t'").unwrap(),
        vec![Token::Char('\t')]
    );

    // escape char `\r`
    assert_eq!(
        lex_from_str_without_location("'\\r'").unwrap(),
        vec![Token::Char('\r')]
    );

    // escape char `\n`
    assert_eq!(
        lex_from_str_without_location("'\\n'").unwrap(),
        vec![Token::Char('\n')]
    );

    // escape char `\0`
    assert_eq!(
        lex_from_str_without_location("'\\0'").unwrap(),
        vec![Token::Char('\0')]
    );

// Unicode escape sequence.
    assert_eq!(
        lex_from_str_without_location("'\\u{2d}'").unwrap(),
        vec![Token::Char('-')]
    );

// Unicode escape sequence.
    assert_eq!(
        lex_from_str_without_location("'\\u{6587}'").unwrap(),
        vec![Token::Char('文')]
    );

    // Test ranges.

    assert_eq!(
        lex_from_str("'a' '文' '\\t' '\\u{6587}'").unwrap(),
        vec![
            TokenWithRange::new(
                Token::Char('a'),
                Range::from_position_and_length(&Position::new(0, 0, 0), 3)
            ),
            TokenWithRange::new(
                Token::Char('文'),
                Range::from_position_and_length(&Position::new(4, 0, 4), 3)
            ),
            TokenWithRange::new(
                Token::Char('\t'),
                Range::from_position_and_length(&Position::new(8, 0, 8), 4)
            ),
            TokenWithRange::new(
                Token::Char('文'),
                Range::from_position_and_length(&Position::new(13, 0, 13), 10)
            ),
        ]
    );

    // Error: empty char
    assert!(matches!(
        lex_from_str("''"),
        Err(AnreError::MessageWithRange(
            _,
            Range {
                start: Position {
                    index: 0,
                    line: 0,
                    column: 0
                },
                end_inclusive: Position {
                    index: 1,
                    line: 0,
                    column: 1
                }
            }
        ))
    ));

    // Error: empty char, missing the char
    assert!(matches!(
        lex_from_str("'"),
        Err(AnreError::UnexpectedEndOfDocument(_))
    ));

    // Error: incomplete char, missing the right quote, encountered EOF
    assert!(matches!(
        lex_from_str("'a"),
        Err(AnreError::UnexpectedEndOfDocument(_))
    ));

    // Error: invalid char, expect the right quote, encounter another char
    assert!(matches!(
        lex_from_str("'ab"),
        Err(AnreError::MessageWithPosition(
            _,
            Position {
                index: 2,
                line: 0,
                column: 2,
            }
        ))
    ));

    // Error: invalid char, expect the right quote, encounter another char
    assert!(matches!(
        lex_from_str("'ab'"),
        Err(AnreError::MessageWithPosition(
            _,
            Position {
                index: 2,
                line: 0,
                column: 2,
            }
        ))
    ));

    // Error: unsupported escape char \v
    assert!(matches!(
        lex_from_str(r#"'\v'"#),
        Err(AnreError::MessageWithRange(
            _,
            Range {
                start: Position {
                    index: 0,
                    line: 0,
                    column: 0
                },
                end_inclusive: Position {
                    index: 2,
                    line: 0,
                    column: 2
                }
            }
        ))
    ));

    // Error: unsupported hex escape "\x.."
    assert!(matches!(
        lex_from_str(r#"'\x33'"#),
        Err(AnreError::MessageWithRange(
            _,
            Range {
                start: Position {
                    index: 0,
                    line: 0,
                    column: 0
                },
                end_inclusive: Position {
                    index: 2,
                    line: 0,
                    column: 2
                }
            }
        ))
    ));

    // Error: empty unicode escape string
    // "'\\u{}'"
    //  01 2345     // index
    assert!(matches!(
        lex_from_str("'\\u{}'"),
        Err(AnreError::MessageWithRange(
            _,
            Range {
                start: Position {
                    index: 3,
                    line: 0,
                    column: 3
                },
                end_inclusive: Position {
                    index: 4,
                    line: 0,
                    column: 4
                }
            }
        ))
    ));

    // Error: invalid unicode code point, digits too much
    // "'\\u{10001111}'"
    //  01 234567890123     // index
    assert!(matches!(
        lex_from_str("'\\u{10001111}'"),
        Err(AnreError::MessageWithRange(
            _,
            Range {
                start: Position {
                    index: 3,
                    line: 0,
                    column: 3
                },
                end_inclusive: Position {
                    index: 10,
                    line: 0,
                    column: 10
                }
            }
        ))
    ));

    // Error: invalid unicode code point, code point out of range
    // "'\\u{123456}'"
    //  01 2345678901   // index
    assert!(matches!(
        lex_from_str("'\\u{123456}'"),
        Err(AnreError::MessageWithRange(
            _,
            Range {
                start: Position {
                    index: 3,
                    line: 0,
                    column: 3
                },
                end_inclusive: Position {
                    index: 10,
                    line: 0,
                    column: 10
                }
            }
        ))
    ));

    // Error: invalid char in the unicode escape sequence
    assert!(matches!(
        lex_from_str("'\\u{12mn}''"),
        Err(AnreError::MessageWithPosition(
            _,
            Position {
                index: 6,
                line: 0,
                column: 6,
            }
        ))
    ));

    // Error: missing the closing brace for unicode escape sequence
    assert!(matches!(
        lex_from_str("'\\u{1234'"),
        Err(AnreError::MessageWithPosition(
            _,
            Position {
                index: 8,
                line: 0,
                column: 8,
            }
        ))
    ));

    // Error: incomplete unicode escape sequence, encountered EOF
    assert!(matches!(
        lex_from_str("'\\u{1234"),
        Err(AnreError::UnexpectedEndOfDocument(_))
    ));

    // Error: missing left brace for unicode escape sequence
    assert!(matches!(
        lex_from_str("'\\u1234}'"),
        Err(AnreError::MessageWithPosition(
            _,
            Position {
                index: 2,
                line: 0,
                column: 2,
            }
        ))
    ));
}

#[test]
fn test_lex_string() {
    assert_eq!(
        lex_from_str_without_location(r#""abc""#).unwrap(),
        vec![new_string("abc")]
    );

    assert_eq!(
        lex_from_str_without_location(r#"("abc")"#).unwrap(),
        vec![
            Token::ParenthesisOpen,
            new_string("abc"),
            Token::ParenthesisClose,
        ]
    );

    assert_eq!(
        lex_from_str_without_location(r#""abc" "xyz""#).unwrap(),
        vec![new_string("abc"), new_string("xyz")]
    );

    assert_eq!(
        lex_from_str_without_location("\"abc\"\n\n\"xyz\"").unwrap(),
        vec![new_string("abc"), new_string("xyz"),]
    );

    // unicode
    assert_eq!(
        lex_from_str_without_location(
            r#"
            "abc文字😊"
            "#
        )
        .unwrap(),
        vec![new_string("abc文字😊"),]
    );

    // empty string
    assert_eq!(
        lex_from_str_without_location("\"\"").unwrap(),
        vec![new_string("")]
    );

    // escape chars
    assert_eq!(
        lex_from_str_without_location(
            r#"
            "\\\'\"\t\r\n\0\u{2d}\u{6587}"
            "#
        )
        .unwrap(),
        vec![new_string("\\\'\"\t\r\n\0-文"),]
    );

    // Test ranges.
    // "abc" "文字😊"
    // 01234567 8 9 0

    assert_eq!(
        lex_from_str(r#""abc" "文字😊""#).unwrap(),
        vec![
            TokenWithRange::new(
                new_string("abc"),
                Range::from_position_and_length(&Position::new(0, 0, 0), 5)
            ),
            TokenWithRange::new(
                new_string("文字😊"),
                Range::from_position_and_length(&Position::new(6, 0, 6), 5)
            ),
        ]
    );

    // Error: incomplete string, missing the closed quote
    assert!(matches!(
        lex_from_str("\"abc"),
        Err(AnreError::UnexpectedEndOfDocument(_))
    ));

    // Error: incomplete string, missing the closed quote, ends with \n
    assert!(matches!(
        lex_from_str("\"abc\n"),
        Err(AnreError::UnexpectedEndOfDocument(_))
    ));

    // Error: incomplete string, missing the closed quote, ends with whitespaces/other chars
    assert!(matches!(
        lex_from_str("\"abc\n   "),
        Err(AnreError::UnexpectedEndOfDocument(_))
    ));

    // Error: unsupported escape char \v
    assert!(matches!(
        lex_from_str(r#""abc\vxyz""#),
        Err(AnreError::MessageWithPosition(
            _,
            Position {
                index: 5,
                line: 0,
                column: 5,
            }
        ))
    ));

    // Error: unsupported hex escape "\x.."
    assert!(matches!(
        lex_from_str(r#""abc\x33xyz""#),
        Err(AnreError::MessageWithPosition(
            _,
            Position {
                index: 5,
                line: 0,
                column: 5,
            }
        ))
    ));

    // Error: empty unicode escape string
    // "abc\u{}"
    // 012345678    // index
    assert!(matches!(
        lex_from_str(r#""abc\u{}xyz""#),
        Err(AnreError::MessageWithRange(
            _,
            Range {
                start: Position {
                    index: 6,
                    line: 0,
                    column: 6
                },
                end_inclusive: Position {
                    index: 7,
                    line: 0,
                    column: 7
                }
            }
        ))
    ));

    // Error: invalid unicode code point, too many digits
    // "abc\u{1000111}xyz"
    // 0123456789023456789  // index
    assert!(matches!(
        lex_from_str(r#""abc\u{1000111}xyz""#),
        Err(AnreError::MessageWithRange(
            _,
            Range {
                start: Position {
                    index: 6,
                    line: 0,
                    column: 6
                },
                end_inclusive: Position {
                    index: 13,
                    line: 0,
                    column: 13
                }
            }
        ))
    ));

    // Error: invalid unicode code point, code point out of range
    // "abc\u{123456}xyz"
    // 012345678901234567   // index
    assert!(matches!(
        lex_from_str(r#""abc\u{123456}xyz""#),
        Err(AnreError::MessageWithRange(
            _,
            Range {
                start: Position {
                    index: 6,
                    line: 0,
                    column: 6
                },
                end_inclusive: Position {
                    index: 13,
                    line: 0,
                    column: 13
                }
            }
        ))
    ));

    // Error: invalid char in the unicode escape sequence
    assert!(matches!(
        lex_from_str(r#""abc\u{12mn}xyz""#),
        Err(AnreError::MessageWithPosition(
            _,
            Position {
                index: 9,
                line: 0,
                column: 9,
            }
        ))
    ));

    // Error: missing the closing brace for unicode escape sequence
    assert!(matches!(
        lex_from_str(r#""abc\u{1234""#),
        Err(AnreError::MessageWithPosition(
            _,
            Position {
                index: 11,
                line: 0,
                column: 11,
            }
        ))
    ));

    // Error: incomplete unicode escape sequence, encountered EOF
    assert!(matches!(
        lex_from_str(r#""abc\u{1234"#),
        Err(AnreError::UnexpectedEndOfDocument(_))
    ));

    // Error: missing left brace for unicode escape sequence
    assert!(matches!(
        lex_from_str(r#""abc\u1234}xyz""#),
        Err(AnreError::MessageWithPosition(
            _,
            Position {
                index: 5,
                line: 0,
                column: 5,
            }
        ))
    ));
}

#[test]
fn test_lex_line_comment() {
    assert_eq!(
        lex_from_str_without_location(
            r#"
            7 //11
            13 17// 19 23
            //  29
            31//    37
            "#
        )
        .unwrap(),
        vec![
            Token::Number(7),
            Token::Number(13),
            Token::Number(17),
            Token::Number(31),
        ]
    );

    // Test ranges.

    assert_eq!(
        lex_from_str("foo // bar").unwrap(),
        vec![TokenWithRange::new(
            Token::Identifier("foo".to_string()),
            Range::from_position_and_length(&Position::new(0, 0, 0), 3)
        ),]
    );

    assert_eq!(
        lex_from_str("abc // def\n// xyz\n").unwrap(),
        vec![TokenWithRange::new(
            Token::Identifier("abc".to_string()),
            Range::from_position_and_length(&Position::new(0, 0, 0), 3)
        ),]
    );
}

#[test]
fn test_lex_block_comment() {
    assert_eq!(
        lex_from_str_without_location(
            r#"
            7 /* 11 13 */ 17
            "#
        )
        .unwrap(),
        vec![Token::Number(7), Token::Number(17),]
    );

    // nested block comment
    assert_eq!(
        lex_from_str_without_location(
            r#"
            7 /* 11 /* 13 */ 17 */ 19
            "#
        )
        .unwrap(),
        vec![Token::Number(7), Token::Number(19),]
    );

    // line comment chars "//" within the block comment
    assert_eq!(
        lex_from_str_without_location(
            r#"
            7 /* 11 // 13 17 */ 19
            "#
        )
        .unwrap(),
        vec![Token::Number(7), Token::Number(19),]
    );

    // Test ranges.

    assert_eq!(
        lex_from_str("foo /* hello */ bar").unwrap(),
        vec![
            TokenWithRange::new(
                Token::Identifier("foo".to_string()),
                Range::from_position_and_length(&Position::new(0, 0, 0), 3)
            ),
            TokenWithRange::new(
                Token::Identifier("bar".to_string()),
                Range::from_position_and_length(&Position::new(16, 0, 16), 3)
            ),
        ]
    );

    assert_eq!(lex_from_str("/* abc\nxyz */ /* hello */").unwrap(), vec![]);

    // Error: incomplete, missing "*/"
    assert!(matches!(
        lex_from_str("7 /* 11"),
        Err(AnreError::UnexpectedEndOfDocument(_))
    ));

    // Error: incomplete, missing "*/", ends with \n
    assert!(matches!(
        lex_from_str("7 /* 11\n"),
        Err(AnreError::UnexpectedEndOfDocument(_))
    ));

    // Error: incomplete, unpaired, missing "*/"
    assert!(matches!(
        lex_from_str("a /* b /* c */"),
        Err(AnreError::UnexpectedEndOfDocument(_))
    ));

    // Error: incomplete, unpaired, missing "*/", ends with \n
    assert!(matches!(
        lex_from_str("a /* b /* c */\n"),
        Err(AnreError::UnexpectedEndOfDocument(_))
    ));
}

#[test]
fn test_lex_combined_line_comments_and_block_comments() {
    assert_eq!(
        lex_from_str_without_location(
            r#"11 // line comment 1
            // line comment 2
            13 /* block comment 1 */
            /*
            block comment 2
            */
            17
            "#
        )
        .unwrap(),
        vec![Token::Number(11), Token::Number(13), Token::Number(17),]
    );

    assert_eq!(
        lex_from_str(r#"11 /* foo */ 13"#).unwrap(),
        vec![
            TokenWithRange::new(
                Token::Number(11),
                Range::from_position_and_length(&Position::new(0, 0, 0), 2)
            ),
            TokenWithRange::new(
                Token::Number(13),
                Range::from_position_and_length(&Position::new(13, 0, 13), 2)
            ),
        ]
    );
}

#[test]
fn test_lex_combined_comments_and_whitespaces() {
    assert_eq!(
        lex_from_str_without_location(
            r#"
                [1,2,

                3

                ,4

                ,

                5
                ,
                // comment between commas
                ,
                6

                // comment between blank lines

                7
                8
                ]

                "#
        )
        .unwrap(),
        vec![
            Token::BracketOpen,
            Token::Number(1),
            Token::Number(2),
            Token::Number(3),
            Token::Number(4),
            Token::Number(5),
            Token::Number(6),
            Token::Number(7),
            Token::Number(8),
            Token::BracketClose,
        ]
    );

    // range

    // blanks -> blank
    assert_eq!(
        lex_from_str("11\n \n  \n13").unwrap(),
        vec![
            TokenWithRange::new(
                Token::Number(11),
                Range::from_position_and_length(&Position::new(0, 0, 0), 2)
            ),
            TokenWithRange::new(
                Token::Number(13),
                Range::from_position_and_length(&Position::new(8, 3, 0), 2)
            ),
        ]
    );

    // comma + blanks -> comma
    assert_eq!(
        lex_from_str(",\n\n\n11").unwrap(),
        vec![TokenWithRange::new(
            Token::Number(11),
            Range::from_position_and_length(&Position::new(4, 3, 0), 2)
        ),]
    );

    // blanks + comma -> comma
    assert_eq!(
        lex_from_str("11\n\n\n,").unwrap(),
        vec![TokenWithRange::new(
            Token::Number(11),
            Range::from_position_and_length(&Position::new(0, 0, 0), 2)
        ),]
    );

    // blanks + comma + blanks -> comma
    assert_eq!(
        lex_from_str("11\n\n,\n\n13").unwrap(),
        vec![
            TokenWithRange::new(
                Token::Number(11),
                Range::from_position_and_length(&Position::new(0, 0, 0), 2)
            ),
            TokenWithRange::new(
                Token::Number(13),
                Range::from_position_and_length(&Position::new(7, 4, 0), 2)
            ),
        ]
    );

    // comma + comment + comma -> comma + comma
    assert_eq!(lex_from_str(",//abc\n,").unwrap(), vec![]);

    // blanks + comment + blanks -> blank
    assert_eq!(
        lex_from_str("11\n\n//abc\n\n13").unwrap(),
        vec![
            TokenWithRange::new(
                Token::Number(11),
                Range::from_position_and_length(&Position::new(0, 0, 0), 2)
            ),
            TokenWithRange::new(
                Token::Number(13),
                Range::from_position_and_length(&Position::new(11, 4, 0), 2)
            ),
        ]
    );
}

#[test]
fn test_lex_multiple_tokens() {
    assert_eq!(
        lex_from_str_without_location(
            r#"
            one_or_more([
                'a'..'f'    // comment 1
                '0'..'9'    // comment 2
                '_'
            ])
            "#
        )
        .unwrap(),
        vec![
            new_identifier("one_or_more"),
            Token::ParenthesisOpen,
            Token::BracketOpen,
            Token::Char('a'),
            Token::Range,
            Token::Char('f'),
            Token::Char('0'),
            Token::Range,
            Token::Char('9'),
            Token::Char('_'),
            Token::BracketClose,
            Token::ParenthesisClose,
        ]
    );

    assert_eq!(
        lex_from_str_without_location(
            r#"
            ('a', "def", /* block comment */ "xyz".repeat(3)).one_or_more()
            "#
        )
        .unwrap(),
        vec![
            Token::ParenthesisOpen,
            Token::Char('a'),
            new_string("def"),
            new_string("xyz"),
            Token::Dot,
            new_identifier("repeat"),
            Token::ParenthesisOpen,
            Token::Number(3),
            Token::ParenthesisClose,
            Token::ParenthesisClose,
            Token::Dot,
            new_identifier("one_or_more"),
            Token::ParenthesisOpen,
            Token::ParenthesisClose,
        ]
    );

    assert_eq!(
        lex_from_str_without_location(
            r#"
            'a'?
            'b'+
            'c'*
            'd'{1..2}
            "#
        )
        .unwrap(),
        vec![
            Token::Char('a'),
            Token::Optional,
            Token::Char('b'),
            Token::OneOrMore,
            Token::Char('c'),
            Token::ZeroOrMore,
            Token::Char('d'),
            Token::BraceOpen,
            Token::Number(1),
            Token::Range,
            Token::Number(2),
            Token::BraceClose
        ]
    );
}

