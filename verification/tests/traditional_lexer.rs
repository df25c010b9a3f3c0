use anre::error::AnreError;
use anre::position::{Position, Range};
use anre::traditional::lexer::lex_from_str;
use anre::traditional::token::{Repetition, Token, TokenWithRange};

fn lex_from_str_without_location(s: &str) -> Result<Vec<Token>, AnreError> {
    let tokens = lex_from_str(s)?
        .into_iter()
        .map(|e| e.token)
        .collect::<Vec<Token>>();
    Ok(tokens)
}

#[test]
fn test_lex_char() {
    assert_eq!(
        lex_from_str_without_location("a").unwrap(),
        vec![Token::Char('a')]
    );

    assert_eq!(
        lex_from_str_without_location("(a)").unwrap(),
        vec![Token::GroupStart, Token::Char('a'), Token::GroupEnd]
    );

    assert_eq!(
        lex_from_str_without_location("az").unwrap(),
        vec![Token::Char('a'), Token::Char('z')]
    );

    // CJK
    assert_eq!(
        lex_from_str_without_location("文").unwrap(),
        vec![Token::Char('文')]
    );

    // emoji
    assert_eq!(
        lex_from_str_without_location("😊").unwrap(),
        vec![Token::Char('😊')]
    );

    // escape char `\\`
    assert_eq!(
        lex_from_str_without_location("\\\\").unwrap(),
        vec![Token::Char('\\')]
    );

    // escape char `\t`
    assert_eq!(
        lex_from_str_without_location("\\t").unwrap(),
        vec![Token::Char('\t')]
    );

    // escape char `\r`
    assert_eq!(
        lex_from_str_without_location("\\r").unwrap(),
        vec![Token::Char('\r')]
    );

    // escape char `\n`
    assert_eq!(
        lex_from_str_without_location("\\n").unwrap(),
        vec![Token::Char('\n')]
    );

// Unicode escape sequence.
    assert_eq!(
        lex_from_str_without_location("\\u{2d}").unwrap(),
        vec![Token::Char('-')]
    );

// Unicode escape sequence.
    assert_eq!(
        lex_from_str_without_location("\\u{6587}").unwrap(),
        vec![Token::Char('文')]
    );

    // escaped meta chars
    assert_eq!(
        lex_from_str_without_location(r#"\(\)\{\}\[\]\+\*\?\.\|\^\$"#).unwrap(),
        vec![
            Token::Char('('),
            Token::Char(')'),
            Token::Char('{'),
            Token::Char('}'),
            Token::Char('['),
            Token::Char(']'),
            Token::Char('+'),
            Token::Char('*'),
            Token::Char('?'),
            Token::Char('.'),
            Token::Char('|'),
            Token::Char('^'),
            Token::Char('$'),
        ]
    );

    // Test ranges.

    assert_eq!(
        lex_from_str(r#"a文😊\t\u{6587}"#).unwrap(),
        vec![
            TokenWithRange::new(Token::Char('a'), Range::from_detail(0, 0, 0, 1)),
            TokenWithRange::new(Token::Char('文'), Range::from_detail(1, 0, 1, 1)),
            TokenWithRange::new(Token::Char('😊'), Range::from_detail(2, 0, 2, 1)),
            TokenWithRange::new(Token::Char('\t'), Range::from_detail(3, 0, 3, 2)),
            TokenWithRange::new(Token::Char('文'), Range::from_detail(5, 0, 5, 8)),
        ]
    );

    // Error: unsupported escape char \v
    assert!(matches!(
        lex_from_str_without_location(r#"\v"#),
        Err(AnreError::MessageWithRange(
            _,
            Range {
                start: Position {
                    index: 0,
                    line: 0,
                    column: 0,
                },
                end_inclusive: Position {
                    index: 1,
                    line: 0,
                    column: 1,
                },
            }
        ))
    ));

    // Error: unsupported hex escape "\x.."
    assert!(matches!(
        lex_from_str_without_location(r#"\x33"#),
        Err(AnreError::MessageWithRange(
            _,
            Range {
                start: Position {
                    index: 0,
                    line: 0,
                    column: 0,
                },
                end_inclusive: Position {
                    index: 1,
                    line: 0,
                    column: 1,
                },
            }
        ))
    ));

    // Error: empty unicode escape string
    // "'\\u{}'"
    //  01 2345     // index
    assert!(matches!(
        lex_from_str_without_location("'\\u{}'"),
        Err(AnreError::MessageWithRange(
            _,
            Range {
                start: Position {
                    index: 3,
                    line: 0,
                    column: 3,
                },
                end_inclusive: Position {
                    index: 4,
                    line: 0,
                    column: 4,
                }
            }
        ))
    ));

    // Error: invalid unicode code point, digits too much
    // "'\\u{10001111}'"
    //  01 234567890123    // index
    assert!(matches!(
        lex_from_str_without_location("'\\u{10001111}'"),
        Err(AnreError::MessageWithRange(
            _,
            Range {
                start: Position {
                    index: 3,
                    line: 0,
                    column: 3,
                },
                end_inclusive: Position {
                    index: 10,
                    line: 0,
                    column: 10,
                }
            }
        ))
    ));

    // Error: invalid unicode code point, code point out of range
    // "'\\u{123456}'"
    //  01 2345678901
    assert!(matches!(
        lex_from_str_without_location("'\\u{123456}'"),
        Err(AnreError::MessageWithRange(
            _,
            Range {
                start: Position {
                    index: 3,
                    line: 0,
                    column: 3,
                },
                end_inclusive: Position {
                    index: 10,
                    line: 0,
                    column: 10,
                }
            }
        ))
    ));

    // Error: invalid char in the unicode escape sequence
    assert!(matches!(
        lex_from_str_without_location("'\\u{12mn}''"),
        Err(AnreError::MessageWithPosition(
            _,
            Position {
                index: 6,
                line: 0,
                column: 6,
            }
        ))
    ));

    // Error: missing the closed brace for unicode escape sequence
    assert!(matches!(
        lex_from_str_without_location("'\\u{1234'"),
        Err(AnreError::MessageWithPosition(
            _,
            Position {
                index: 8,
                line: 0,
                column: 8,
            }
        ))
    ));

    // Error: incomplete unicode escape sequence, encountered EOF
    assert!(matches!(
        lex_from_str_without_location("'\\u{1234"),
        Err(AnreError::UnexpectedEndOfDocument(_))
    ));

    // Error: missing left brace for unicode escape sequence
    assert!(matches!(
        lex_from_str_without_location("'\\u1234}'"),
        Err(AnreError::MessageWithPosition(
            _,
            Position {
                index: 2,
                line: 0,
                column: 2,
            }
        ))
    ));
}

#[test]
fn test_lex_preset_charset() {
    assert_eq!(
        lex_from_str_without_location(r#"\d\D\w\W\s\S"#).unwrap(),
        vec![
            Token::PresetCharSet('d'),
            Token::PresetCharSet('D'),
            Token::PresetCharSet('w'),
            Token::PresetCharSet('W'),
            Token::PresetCharSet('s'),
            Token::PresetCharSet('S'),
        ]
    );
}

#[test]
fn test_lex_charset() {
    assert_eq!(
        lex_from_str_without_location(r#"[a文😊]"#).unwrap(),
        vec![
            Token::CharSetStart,
            Token::Char('a'),
            Token::Char('文'),
            Token::Char('😊'),
            Token::CharSetEnd
        ]
    );

    assert_eq!(
        lex_from_str_without_location(r#"[^a]"#).unwrap(),
        vec![
            Token::CharSetStartNegative,
            Token::Char('a'),
            Token::CharSetEnd
        ]
    );

    // general escaped char
    assert_eq!(
        lex_from_str_without_location(r#"[\t\r\n\]\u{6587}]"#).unwrap(),
        vec![
            Token::CharSetStart,
            Token::Char('\t'),
            Token::Char('\r'),
            Token::Char('\n'),
            Token::Char(']'),
            Token::Char('文'),
            Token::CharSetEnd
        ]
    );

    // escaped meta chars
    // note: only ']' is necessary.
    assert_eq!(
        lex_from_str_without_location(r#"[\(\)\{\}\[\]\+\*\?\.\|\^\$\\]"#).unwrap(),
        vec![
            Token::CharSetStart,
            Token::Char('('),
            Token::Char(')'),
            Token::Char('{'),
            Token::Char('}'),
            Token::Char('['),
            Token::Char(']'),
            Token::Char('+'),
            Token::Char('*'),
            Token::Char('?'),
            Token::Char('.'),
            Token::Char('|'),
            Token::Char('^'),
            Token::Char('$'),
            Token::Char('\\'),
            Token::CharSetEnd
        ]
    );

    // meta chars in charset
    // note: only ']' and '\' are escaped
    assert_eq!(
        lex_from_str_without_location(r#"[(){}[\]+*?.|^$\\]"#).unwrap(),
        vec![
            Token::CharSetStart,
            Token::Char('('),
            Token::Char(')'),
            Token::Char('{'),
            Token::Char('}'),
            Token::Char('['),
            Token::Char(']'),
            Token::Char('+'),
            Token::Char('*'),
            Token::Char('?'),
            Token::Char('.'),
            Token::Char('|'),
            Token::Char('^'),
            Token::Char('$'),
            Token::Char('\\'),
            Token::CharSetEnd
        ]
    );

    // range
    assert_eq!(
        lex_from_str_without_location(r#"[-a-zA-Z0-9_-]"#).unwrap(),
        vec![
            Token::CharSetStart,
            Token::Char('-'),
            Token::CharRange('a', 'z'),
            Token::CharRange('A', 'Z'),
            Token::CharRange('0', '9'),
            Token::Char('_'),
            Token::Char('-'),
            Token::CharSetEnd
        ]
    );

    // preset charset
    assert_eq!(
        lex_from_str_without_location(r#"[\w\d\s]"#).unwrap(),
        vec![
            Token::CharSetStart,
            Token::PresetCharSet('w'),
            Token::PresetCharSet('d'),
            Token::PresetCharSet('s'),
            Token::CharSetEnd
        ]
    );

    // testing the ranges

    assert_eq!(
        lex_from_str(r#"[a文😊\t\u{5b57}0-9-]"#).unwrap(),
        //              012 3 456789012345678
        vec![
            TokenWithRange::new(Token::CharSetStart, Range::from_detail(0, 0, 0, 1)),
            TokenWithRange::new(Token::Char('a'), Range::from_detail(1, 0, 1, 1)),
            TokenWithRange::new(Token::Char('文'), Range::from_detail(2, 0, 2, 1)),
            TokenWithRange::new(Token::Char('😊'), Range::from_detail(3, 0, 3, 1)),
            TokenWithRange::new(Token::Char('\t'), Range::from_detail(4, 0, 4, 2)),
            TokenWithRange::new(Token::Char('字'), Range::from_detail(6, 0, 6, 8)),
            TokenWithRange::new(Token::CharRange('0', '9'), Range::from_detail(14, 0, 14, 3)),
            TokenWithRange::new(Token::Char('-'), Range::from_detail(17, 0, 17, 1)),
            TokenWithRange::new(Token::CharSetEnd, Range::from_detail(18, 0, 18, 1)),
        ]
    );

    // Error: missing ']'
    assert!(matches!(
        lex_from_str_without_location(r#"[abc"#),
        Err(AnreError::UnexpectedEndOfDocument(_))
    ));

    // Error: negative preset charset
    assert!(matches!(
        lex_from_str_without_location(r#"[ab\Wcd]"#),
        Err(AnreError::MessageWithRange(
            _,
            Range {
                start: Position {
                    index: 3,
                    line: 0,
                    column: 3,
                },
                end_inclusive: Position {
                    index: 4,
                    line: 0,
                    column: 4,
                },
            }
        ))
    ));

    // Error: does not support word boundary assertions within charset
    assert!(matches!(
        lex_from_str_without_location(r#"[\b]"#),
        Err(AnreError::MessageWithRange(
            _,
            Range {
                start: Position {
                    index: 1,
                    line: 0,
                    column: 1,
                },
                end_inclusive: Position {
                    index: 2,
                    line: 0,
                    column: 2,
                }
            }
        ))
    ));

    // Error: unsupported escape char
    assert!(matches!(
        lex_from_str_without_location(r#"[\v]"#),
        Err(AnreError::MessageWithRange(
            _,
            Range {
                start: Position {
                    index: 1,
                    line: 0,
                    column: 1,
                },
                end_inclusive: Position {
                    index: 2,
                    line: 0,
                    column: 2,
                }
            }
        ))
    ));

    // Error: unsupported back reference - number
    assert!(matches!(
        lex_from_str_without_location(r#"[\1]"#),
        Err(AnreError::MessageWithRange(
            _,
            Range {
                start: Position {
                    index: 1,
                    line: 0,
                    column: 1,
                },
                end_inclusive: Position {
                    index: 2,
                    line: 0,
                    column: 2,
                }
            }
        ))
    ));

    // Error: unsupported back reference - name
    assert!(matches!(
        lex_from_str_without_location(r#"[\k<name>]"#),
        Err(AnreError::MessageWithRange(
            _,
            Range {
                start: Position {
                    index: 1,
                    line: 0,
                    column: 1,
                },
                end_inclusive: Position {
                    index: 2,
                    line: 0,
                    column: 2,
                }
            }
        ))
    ));
}

#[test]
fn test_lex_notations() {
    assert_eq!(
        lex_from_str_without_location(r#"a?b??c+d+?e*f*?"#).unwrap(),
        vec![
            Token::Char('a'),
            Token::Optional,
            Token::Char('b'),
            Token::LazyOptional,
            Token::Char('c'),
            Token::OneOrMore,
            Token::Char('d'),
            Token::LazyOneOrMore,
            Token::Char('e'),
            Token::ZeroOrMore,
            Token::Char('f'),
            Token::LazyZeroOrMore,
        ]
    );

    // location
    assert_eq!(
        lex_from_str(r#"a+b+?"#).unwrap(),
        vec![
            TokenWithRange::new(Token::Char('a'), Range::from_detail(0, 0, 0, 1)),
            TokenWithRange::new(Token::OneOrMore, Range::from_detail(1, 0, 1, 1)),
            TokenWithRange::new(Token::Char('b'), Range::from_detail(2, 0, 2, 1)),
            TokenWithRange::new(Token::LazyOneOrMore, Range::from_detail(3, 0, 3, 2)),
        ]
    );
}

#[test]
fn test_lex_line_boundary_assertions() {
    assert_eq!(
        lex_from_str(r#"^a$"#).unwrap(),
        vec![
            TokenWithRange::new(Token::LineBoundaryAssertionStart, Range::from_detail(0, 0, 0, 1),),
            TokenWithRange::new(Token::Char('a'), Range::from_detail(1, 0, 1, 1),),
            TokenWithRange::new(Token::LineBoundaryAssertionEnd, Range::from_detail(2, 0, 2, 1),),
        ]
    );
}

#[test]
fn test_lex_word_boundary_assertions() {
    assert_eq!(
        lex_from_str(r#"\ba\B"#).unwrap(),
        vec![
            TokenWithRange::new(
                Token::WordBoundaryAssertion(false),
                Range::from_detail(0, 0, 0, 2)
            ),
            TokenWithRange::new(Token::Char('a'), Range::from_detail(2, 0, 2, 1)),
            TokenWithRange::new(
                Token::WordBoundaryAssertion(true),
                Range::from_detail(3, 0, 3, 2)
            ),
        ]
    );
}

#[test]
fn test_lex_repetition() {
    assert_eq!(
        lex_from_str(r#"{3}{5,}{7,13}"#).unwrap(),
        vec![
            TokenWithRange::new(
                Token::Repetition(Repetition::Repeat(3), false),
                Range::from_detail(0, 0, 0, 3)
            ),
            TokenWithRange::new(
                Token::Repetition(Repetition::RepeatFrom(5), false),
                Range::from_detail(3, 0, 3, 4)
            ),
            TokenWithRange::new(
                Token::Repetition(Repetition::RepeatRange(7, 13), false),
                Range::from_detail(7, 0, 7, 6)
            ),
        ]
    );

    assert_eq!(
        lex_from_str(r#"{3}?{5,}?{7,13}?"#).unwrap(),
        vec![
            TokenWithRange::new(
                Token::Repetition(Repetition::Repeat(3), true),
                Range::from_detail(0, 0, 0, 4)
            ),
            TokenWithRange::new(
                Token::Repetition(Repetition::RepeatFrom(5), true),
                Range::from_detail(4, 0, 4, 5)
            ),
            TokenWithRange::new(
                Token::Repetition(Repetition::RepeatRange(7, 13), true),
                Range::from_detail(9, 0, 9, 7)
            ),
        ]
    );

    // Error: missing number
    assert!(matches!(
        lex_from_str(r#"{}"#),
        Err(AnreError::MessageWithPosition(
            _,
            Position {
                index: 1,
                line: 0,
                column: 1,
            }
        ))
    ));

    // Error: expect a number
    assert!(matches!(
        lex_from_str(r#"{a}"#),
        Err(AnreError::MessageWithPosition(
            _,
            Position {
                index: 1,
                line: 0,
                column: 1,
            }
        ))
    ));

    // Error: incomplete
    assert!(matches!(
        lex_from_str(r#"{1"#),
        Err(AnreError::UnexpectedEndOfDocument(_,))
    ));

    // Error: expect a number
    assert!(matches!(
        lex_from_str(r#"{1,a}"#),
        Err(AnreError::MessageWithPosition(
            _,
            Position {
                index: 3,
                line: 0,
                column: 3,
            }
        ))
    ));

    // Error: incomplete
    assert!(matches!(
        lex_from_str(r#"{1,3"#),
        Err(AnreError::UnexpectedEndOfDocument(_))
    ));
}

#[test]
fn test_logic_or() {
    assert_eq!(
        lex_from_str(r#"a|b"#).unwrap(),
        vec![
            TokenWithRange::new(Token::Char('a'), Range::from_detail(0, 0, 0, 1)),
            TokenWithRange::new(Token::LogicOr, Range::from_detail(1, 0, 1, 1)),
            TokenWithRange::new(Token::Char('b'), Range::from_detail(2, 0, 2, 1)),
        ]
    );
}

#[test]
fn test_group() {
    assert_eq!(
        lex_from_str(r#"(a)(?:b)(?<c>d)"#).unwrap(),
        vec![
            TokenWithRange::new(Token::GroupStart, Range::from_detail(0, 0, 0, 1)),
            TokenWithRange::new(Token::Char('a'), Range::from_detail(1, 0, 1, 1)),
            TokenWithRange::new(Token::GroupEnd, Range::from_detail(2, 0, 2, 1)),
            // non-capturing group
            TokenWithRange::new(Token::NonCaptureGroupStart, Range::from_detail(3, 0, 3, 3)),
            TokenWithRange::new(Token::Char('b'), Range::from_detail(6, 0, 6, 1)),
            TokenWithRange::new(Token::GroupEnd, Range::from_detail(7, 0, 7, 1)),
            // named group
            TokenWithRange::new(
                Token::NamedCaptureGroupStart("c".to_string()),
                Range::from_detail(8, 0, 8, 5)
            ),
            TokenWithRange::new(Token::Char('d'), Range::from_detail(13, 0, 13, 1)),
            TokenWithRange::new(Token::GroupEnd, Range::from_detail(14, 0, 14, 1)),
        ]
    );

    // Error: invalid group syntax
    assert!(matches!(
        lex_from_str(r#"(?abc)"#),
        Err(AnreError::MessageWithRange(
            _,
            Range {
                start: Position {
                    index: 0,
                    line: 0,
                    column: 0,
                },
                end_inclusive: Position {
                    index: 2,
                    line: 0,
                    column: 2,
                }
            }
        ))
    ));

    // Error: missing identifier for named group
    assert!(matches!(
        lex_from_str(r#"(?<>abc)"#),
        Err(AnreError::MessageWithRange(
            _,
            Range {
                start: Position {
                    index: 2,
                    line: 0,
                    column: 2,
                },
                end_inclusive: Position {
                    index: 3,
                    line: 0,
                    column: 3,
                }
            }
        ))
    ));
}

#[test]
fn test_back_reference() {
    assert_eq!(
        lex_from_str(r#"\1\k<e>"#).unwrap(),
        vec![
            // back reference - number
            TokenWithRange::new(
                Token::BackReferenceNumber(1),
                Range::from_detail(0, 0, 0, 2)
            ),
            // back reference - name
            TokenWithRange::new(
                Token::BackReferenceName("e".to_string()),
                Range::from_detail(2, 0, 2, 5)
            ),
        ]
    );

    // Error: back reference to group 0
    assert!(matches!(
        lex_from_str(r#"(a)b\0"#),
        Err(AnreError::MessageWithRange(
            _,
            Range {
                start: Position {
                    index: 4,
                    line: 0,
                    column: 4,
                },
                end_inclusive: Position {
                    index: 5,
                    line: 0,
                    column: 5,
                }
            }
        ))
    ));

    // Error: missing identifier for named back reference
    assert!(matches!(
        lex_from_str(r#"\k<>)"#),
        Err(AnreError::MessageWithRange(
            _,
            Range {
                start: Position {
                    index: 2,
                    line: 0,
                    column: 2,
                },
                end_inclusive: Position {
                    index: 3,
                    line: 0,
                    column: 3,
                }
            }
        ))
    ));

    // Error: missing '>' for named back reference
    assert!(matches!(
        lex_from_str(r#"\k<abc"#),
        Err(AnreError::UnexpectedEndOfDocument(_))
    ));

    // Error: missing '<' for named back reference
    assert!(matches!(
        lex_from_str(r#"\kabc>"#),
        Err(AnreError::MessageWithRange(
            _,
            Range {
                start: Position {
                    index: 0,
                    line: 0,
                    column: 0,
                },
                end_inclusive: Position {
                    index: 2,
                    line: 0,
                    column: 2,
                }
            }
        ))
    ));
}

#[test]
fn test_look_around_assertions() {
    assert_eq!(
        lex_from_str(r#"(?=a)(?!b)(?<=c)(?<!d)"#).unwrap(),
        vec![
            // look-ahead
            TokenWithRange::new(Token::LookAheadGroupStart, Range::from_detail(0, 0, 0, 3)),
            TokenWithRange::new(Token::Char('a'), Range::from_detail(3, 0, 3, 1)),
            TokenWithRange::new(Token::GroupEnd, Range::from_detail(4, 0, 4, 1)),
            // look-ahead - negative
            TokenWithRange::new(
                Token::LookAheadNegativeGroupStart,
                Range::from_detail(5, 0, 5, 3)
            ),
            TokenWithRange::new(Token::Char('b'), Range::from_detail(8, 0, 8, 1)),
            TokenWithRange::new(Token::GroupEnd, Range::from_detail(9, 0, 9, 1)),
            // look-behind
            TokenWithRange::new(
                Token::LookBehindGroupStart,
                Range::from_detail(10, 0, 10, 4)
            ),
            TokenWithRange::new(Token::Char('c'), Range::from_detail(14, 0, 14, 1)),
            TokenWithRange::new(Token::GroupEnd, Range::from_detail(15, 0, 15, 1)),
            // look-behind - negative
            TokenWithRange::new(
                Token::LookBehindNegativeGroupStart,
                Range::from_detail(16, 0, 16, 4)
            ),
            TokenWithRange::new(Token::Char('d'), Range::from_detail(20, 0, 20, 1)),
            TokenWithRange::new(Token::GroupEnd, Range::from_detail(21, 0, 21, 1)),
        ]
    );
}
