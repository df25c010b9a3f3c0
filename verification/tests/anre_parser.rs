use anre::anre::parser::parse_from_str;
use anre::ast::{CharRange, CharSet, CharSetElement, Expression, Literal, PresetCharSetName, Program};
use anre::error::AnreError;
use anre::position::{Position, Range};

#[test]
fn test_parse_literal() {
    let program = parse_from_str(
        r#"
(char_any, 'a', "foo")
"#,
    )
    .unwrap();

    assert_eq!(
        program,
        Program {
            expression: Expression::Group(vec![
                Expression::Literal(Literal::AnyChar),
                Expression::Literal(Literal::Char('a')),
                Expression::Literal(Literal::String("foo".to_string())),
            ])
        }
    );

    assert_eq!(program.to_string(), r#"(char_any, 'a', "foo")"#);
}

#[test]
fn test_parse_literal_preset_charset() {
    let program = parse_from_str(
        r#"
(
char_word
char_not_word
char_digit
char_not_digit
char_space
char_not_space
)"#,
    )
    .unwrap();

    assert_eq!(
        program,
        Program {
            expression: Expression::Group(vec![
                Expression::Literal(Literal::PresetCharSet(PresetCharSetName::CharWord)),
                Expression::Literal(Literal::PresetCharSet(PresetCharSetName::CharNotWord)),
                Expression::Literal(Literal::PresetCharSet(PresetCharSetName::CharDigit)),
                Expression::Literal(Literal::PresetCharSet(PresetCharSetName::CharNotDigit)),
                Expression::Literal(Literal::PresetCharSet(PresetCharSetName::CharSpace)),
                Expression::Literal(Literal::PresetCharSet(PresetCharSetName::CharNotSpace)),
            ])
        }
    );

    assert_eq!(
        program.to_string(),
        r#"(char_word, char_not_word, char_digit, char_not_digit, char_space, char_not_space)"#
    );
}

#[test]
fn test_parse_literal_charset() {
    let program = parse_from_str(
        r#"
['a', '0'..'9', char_word]
"#,
    )
    .unwrap();

    assert_eq!(
        program,
        Program {
            expression: Expression::Literal(Literal::CharSet(CharSet {
                negative: false,
                elements: vec![
                    CharSetElement::Char('a'),
                    CharSetElement::CharRange(CharRange {
                        start: '0',
                        end_inclusive: '9'
                    }),
                    CharSetElement::PresetCharSet(PresetCharSetName::CharWord),
                ]
            }))
        }
    );

    assert_eq!(program.to_string(), r#"['a', '0'..'9', char_word]"#);

    // negative charset
    assert_eq!(
        parse_from_str(
            r#"
!['a'..'z', char_space]
"#,
        )
        .unwrap()
        .to_string(),
        r#"!['a'..'z', char_space]"#
    );

    // nested charset
    assert_eq!(
        parse_from_str(
            r#"
['-', ['a'..'f'], ['0'..'9']]
"#,
        )
        .unwrap()
        .to_string(),
        r#"['-', ['a'..'f'], ['0'..'9']]"#
    );
}

#[test]
fn test_parse_function_call() {
    assert_eq!(
        parse_from_str(
            r#"
(
optional('a')
one_or_more('b')
lazy_zero_or_more('c')
)
"#,
        )
        .unwrap()
        .to_string(),
        r#"(optional('a'), one_or_more('b'), lazy_zero_or_more('c'))"#
    );

    // multiple args
    assert_eq!(
        parse_from_str(
            r#"
is_after("bar", "foo")
            "#,
        )
        .unwrap()
        .to_string(),
        r#"is_after("bar", "foo")"#
    );

    // numeric args
    assert_eq!(
        parse_from_str(
            r#"
(
repeat('a' 3)
repeat_range('b', 5, 7)
repeat_from(
'c' 11)
)
"#,
        )
        .unwrap()
        .to_string(),
        r#"(repeat('a', 3), repeat_range('b', 5, 7), repeat_from('c', 11))"#
    );

    // nested
    assert_eq!(
        parse_from_str(r#"optional(one_or_more('a'))"#)
            .unwrap()
            .to_string(),
        r#"optional(one_or_more('a'))"#
    );
}

#[test]
fn test_parse_method_call() {
    assert_eq!(
        parse_from_str(
            r#"
(
'a'.optional()
'b'.one_or_more()
'c'.lazy_zero_or_more()
)
"#,
        )
        .unwrap()
        .to_string(),
        r#"(optional('a'), one_or_more('b'), lazy_zero_or_more('c'))"#
    );

    // multiple args
    assert_eq!(
        parse_from_str(
            r#"
"bar".is_after("foo")
"#,
        )
        .unwrap()
        .to_string(),
        r#"is_after("bar", "foo")"#
    );

    // numeric args
    assert_eq!(
        parse_from_str(
            r#"
(
'a'.repeat(3)
'b'.repeat_range(5, 7)
'c'.repeat_from(11)
)
"#,
        )
        .unwrap()
        .to_string(),
        r#"(repeat('a', 3), repeat_range('b', 5, 7), repeat_from('c', 11))"#
    );

    // chain method call
    assert_eq!(
        parse_from_str(
            r#"
'a'.one_or_more().optional()
"#
        )
        .unwrap()
        .to_string(),
        r#"optional(one_or_more('a'))"#
    );
}

#[test]
fn test_parse_quantifier() {
    assert_eq!(
        parse_from_str(
            r#"
(
'a'?
'b'+
'c'*
'x'??
'y'+?
'z'*?
)
"#,
        )
        .unwrap()
        .to_string(),
        r#"(optional('a'), one_or_more('b'), zero_or_more('c'), lazy_optional('x'), lazy_one_or_more('y'), lazy_zero_or_more('z'))"#
    );

    // Combines function call and quantifier
    assert_eq!(
        parse_from_str(
            r#"
repeat('a',3)?
"#,
        )
        .unwrap()
        .to_string(),
        r#"optional(repeat('a', 3))"#
    );

    // Combines method call and quantifier
    assert_eq!(
        parse_from_str(
            r#"
'a'.repeat(3)?
"#,
        )
        .unwrap()
        .to_string(),
        r#"optional(repeat('a', 3))"#
    );
}

#[test]
fn test_parse_repetition() {
    assert_eq!(
        parse_from_str(
            r#"
(
'a'{3}
'b'{5..7}
'c'{11..}
'x'{3}?
'y'{5..7}?
'z'{11..}?
)
"#,
        )
        .unwrap()
        .to_string(),
        r#"(repeat('a', 3), repeat_range('b', 5, 7), repeat_from('c', 11), lazy_repeat('x', 3), lazy_repeat_range('y', 5, 7), lazy_repeat_from('z', 11))"#
    );

    // Special case: zero repetition and range with the same start and end
    assert_eq!(
        parse_from_str(
            r#"
(
'a'{0}
'b'{3..3}
'c'{5..5}?
)
"#,
        )
        .unwrap()
        .to_string(),
        r#"(repeat('a', 0), repeat_range('b', 3, 3), lazy_repeat_range('c', 5, 5))"#
    );

    // Combines function call and repetition
    assert_eq!(
        parse_from_str(
            r#"
repeat('a', 3){5..7}
"#,
        )
        .unwrap()
        .to_string(),
        r#"repeat_range(repeat('a', 3), 5, 7)"#
    );

    // Combines method call and repetition
    assert_eq!(
        parse_from_str(
            r#"
'a'.repeat(3){5..7}
"#,
        )
        .unwrap()
        .to_string(),
        r#"repeat_range(repeat('a', 3), 5, 7)"#
    );

    // err: invalid repetition range, `{m..n}` is invalid if m > n
    assert!(matches!(
        parse_from_str(r#"'a'{5..3}"#),
        Err(AnreError::MessageWithRange(
            _,
            Range {
                start: Position {
                    index: 3,
                    line: 0,
                    column: 3
                },
                end_inclusive: Position {
                    index: 8,
                    line: 0,
                    column: 8
                }
            }
        ))
    ));
}

#[test]
fn test_parse_index_capture_and_backreference() {
    assert_eq!(
        parse_from_str(
            r#"
#'a'
"#,
        )
        .unwrap()
        .to_string(),
        r#"index('a')"#
    );

    assert_eq!(
        parse_from_str(
            r#"
#('a', char_digit)
"#,
        )
        .unwrap()
        .to_string(),
        r#"index(('a', char_digit))"#
    );

    assert_eq!(
        parse_from_str(
            r#"
(#char_digit+ '.' ^1)
"#,
        )
        .unwrap()
        .to_string(),
        r#"(index(one_or_more(char_digit)), '.', ^1)"#
    );

    // Operator `#` has lower precedence than method calls
    assert_eq!(
        parse_from_str(
            r#"
#'a'.one_or_more()
"#,
        )
        .unwrap()
        .to_string(),
        r#"index(one_or_more('a'))"#
    );

    // Operator `#` has lower precedence than notations
    assert_eq!(
        parse_from_str(
            r#"
#'a'?
"#,
        )
        .unwrap()
        .to_string(),
        r#"index(optional('a'))"#
    );

    // Operator `#` has lower precedence than method calls and notations
    assert_eq!(
        parse_from_str(
            r#"
#'a'.repeat(3)?
"#,
        )
        .unwrap()
        .to_string(),
        r#"index(optional(repeat('a', 3)))"#
    );

    // Function style indexed capturing
    assert_eq!(
        parse_from_str(
            r#"
index('a')
"#,
        )
        .unwrap()
        .to_string(),
        r#"index('a')"#
    );

    // Method-like indexed capturing
    assert_eq!(
        parse_from_str(
            r#"
char_digit.index()
"#,
        )
        .unwrap()
        .to_string(),
        r#"index(char_digit)"#
    );
}

#[test]
fn test_parse_name_capture_and_backreference() {
    assert_eq!(
        parse_from_str(
            r#"
'a' as x
"#,
        )
        .unwrap()
        .to_string(),
        r#"name('a', x)"#
    );

    assert_eq!(
        parse_from_str(
            r#"
('a', char_digit) as x
"#,
        )
        .unwrap()
        .to_string(),
        r#"name(('a', char_digit), x)"#
    );

    // named capturing implies indexed capturing
    assert_eq!(
        parse_from_str(
            r#"
#'a' as x
"#,
        )
        .unwrap()
        .to_string(),
        r#"name('a', x)"#
    );

    // named capturing implies indexed capturing, another case
    assert_eq!(
        parse_from_str(
            r#"
#('a' as x)
"#,
        )
        .unwrap()
        .to_string(),
        r#"name('a', x)"#
    );

    assert_eq!(
        parse_from_str(
            r#"
(char_digit as a, 'x', a)
"#,
        )
        .unwrap()
        .to_string(),
        r#"(name(char_digit, a), 'x', a)"#
    );

    // Function style named capturing
    assert_eq!(
        parse_from_str(
            r#"
name('a', x)
"#,
        )
        .unwrap()
        .to_string(),
        r#"name('a', x)"#
    );

    // Method-like named capturing
    assert_eq!(
        parse_from_str(
            r#"
char_digit.name(x)
"#,
        )
        .unwrap()
        .to_string(),
        r#"name(char_digit, x)"#
    );
}

#[test]
fn test_parse_logic_or() {
    {
        let program = parse_from_str(
            r#"
'a' || 'b'
"#,
        )
        .unwrap();

        assert_eq!(
            program,
            Program {
                expression: Expression::Or(
                    Box::new(Expression::Literal(Literal::Char('a'))),
                    Box::new(Expression::Literal(Literal::Char('b'))),
                )
            }
        );

        assert_eq!(program.to_string(), r#"'a' || 'b'"#);
    }

    // multiple operands
    {
        let program = parse_from_str(
            r#"
'a' || 'b' || 'c'
"#,
        )
        .unwrap();

        assert_eq!(
            program,
            Program {
                expression: Expression::Or(
                    Box::new(Expression::Literal(Literal::Char('a'))),
                    Box::new(Expression::Or(
                        Box::new(Expression::Literal(Literal::Char('b'))),
                        Box::new(Expression::Literal(Literal::Char('c'))),
                    )),
                )
            }
        );

        assert_eq!(program.to_string(), r#"'a' || ('b' || 'c')"#);
    }

    // expression as operand
    assert_eq!(
        parse_from_str(r#"char_digit+ || [char_word, '-']+"#,)
            .unwrap()
            .to_string(),
        r#"one_or_more(char_digit) || one_or_more([char_word, '-'])"#
    );

    // group + logic or
    assert_eq!(
        parse_from_str(
            r#"
('a' || 'b') || 'c'
"#,
        )
        .unwrap()
        .to_string(),
        r#"('a' || 'b') || 'c'"#
    );

    // group + logic or + group
    assert_eq!(
        parse_from_str(
            r#"
('a', char_word) || ('b', char_digit)
"#,
        )
        .unwrap()
        .to_string(),
        r#"('a', char_word) || ('b', char_digit)"#
    );

    // string + logic or
    assert_eq!(
        parse_from_str(
            r#"
"ab" || "cd"
"#,
        )
        .unwrap()
        .to_string(),
        r#""ab" || "cd""#
    );
}

#[test]
fn test_parse_group() {
    assert_eq!(
        parse_from_str(
            r#"
(
("foo", char_digit)
('b', ("bar", char_digit))
is_end()
)
"#,
        )
        .unwrap()
        .to_string(),
        r#"(("foo", char_digit), ('b', ("bar", char_digit)), is_end())"#
    );

    // nested groups
    assert_eq!(
        parse_from_str(
            r#"
(
repeat(("foo", char_digit), 3)
('b', repeat("bar", 5))
is_end()
)
"#,
        )
        .unwrap()
        .to_string(),
        r#"(repeat(("foo", char_digit), 3), ('b', repeat("bar", 5)), is_end())"#
    );

    // escape nested group
    assert_eq!(
        parse_from_str(
            r#"
(((('a', char_digit, 'b'))))
"#,
        )
        .unwrap()
        .to_string(),
        r#"('a', char_digit, 'b')"#
    );
}

#[test]
fn test_parse_operate_on_group() {
    // Quantifier (function style) on group
    assert_eq!(
        parse_from_str(
            r#"
(
'a'
('b').optional()
('x', char_digit).optional()
)
"#,
        )
        .unwrap()
        .to_string(),
        r#"('a', optional('b'), optional(('x', char_digit)))"#
    );

    // Quantifier (notation style) on group
    assert_eq!(
        parse_from_str(
            r#"
(
'a'
('b')?
('x', char_digit)?
)
"#,
        )
        .unwrap()
        .to_string(),
        r#"('a', optional('b'), optional(('x', char_digit)))"#
    );

    // Repetition on group
    assert_eq!(
        parse_from_str(
            r#"
(
'a'
('b'){3..5}
('x', char_digit){7..11}
)
"#,
        )
        .unwrap()
        .to_string(),
        r#"('a', repeat_range('b', 3, 5), repeat_range(('x', char_digit), 7, 11))"#
    );

    // Quantifier on indexed capturing group
    assert_eq!(
        parse_from_str(
            r#"
(
'a'
#('b')?
#('x', char_digit)?
)
"#,
        )
        .unwrap()
        .to_string(),
        r#"('a', index(optional('b')), index(optional(('x', char_digit))))"#
    );

    // Repetition on indexed capturing group
    assert_eq!(
        parse_from_str(
            r#"
(
'a'
#('b'){3..5}
#('x', char_digit){7..11}
)
"#,
        )
        .unwrap()
        .to_string(),
        r#"('a', index(repeat_range('b', 3, 5)), index(repeat_range(('x', char_digit), 7, 11)))"#
    );

    // Quantifier on name capturing group
    assert_eq!(
        parse_from_str(
            r#"
(
'a'
('b' as foo)?
(('x', char_digit) as bar)?
)
"#,
        )
        .unwrap()
        .to_string(),
        r#"('a', optional(name('b', foo)), optional(name(('x', char_digit), bar)))"#
    );

    // Repetition on name capturing group
    assert_eq!(
        parse_from_str(
            r#"
(
'a'
('b' as foo){3..5}
(('x', char_digit) as bar){7..11}
)
"#,
        )
        .unwrap()
        .to_string(),
        r#"('a', repeat_range(name('b', foo), 3, 5), repeat_range(name(('x', char_digit), bar), 7, 11))"#
    );

    // Precedence of group and quantifier
    assert_eq!(
        parse_from_str(
            r#"
(
(#'x')?
#'y'?
)
"#,
        )
        .unwrap()
        .to_string(),
        r#"(optional(index('x')), index(optional('y')))"#
    );
}

#[test]
fn test_parse_macro() {
    assert_eq!(
        parse_from_str(
            r#"
define A ("abc")

(is_start(), A, is_end())
"#,
        )
        .unwrap()
        .to_string(),
        r#"(is_start(), "abc", is_end())"#
    );

    assert_eq!(
        parse_from_str(
            r#"
define A ('a')
define B (A, 'b')
define C ([A, 'c'], optional(B), B.one_or_more())
define D (A || B || 'd')

(is_start(), A, B, C, D, is_end())
"#,
        )
        .unwrap()
        .to_string(),
        r#"(is_start(), 'a', ('a', 'b'), (['a', 'c'], optional(('a', 'b')), one_or_more(('a', 'b'))), 'a' || (('a', 'b') || 'd'), is_end())"#
    );
}

#[test]
fn test_parse_examples() {
    assert_eq!(
        parse_from_str(
            r#"
/**
 * Decimal Numbers Regular Expression
 *
 * Examples:
 *
 * - "0"
 * - "123"
 */

char_digit.one_or_more()
"#,
        )
        .unwrap()
        .to_string(),
        "one_or_more(char_digit)"
    );

    assert_eq!(
        parse_from_str(
            r#"
/**
 * Hex Numbers Regular Expression
 *
 * Examples:
 *
 * - "0x0"
 * - "0x123"
 * - "0xabc"
 * - "0xDEADBEEF"
 */

(
// The prefix "0x"
"0x"

// The hex digits
['0'..'9', 'a'..'f', 'A'..'F'].one_or_more()
)
"#,
        )
        .unwrap()
        .to_string(),
        "(\"0x\", one_or_more(['0'..'9', 'a'..'f', 'A'..'F']))"
    );

    assert_eq!(
        parse_from_str(
            r#"
/**
 * Email Address Validation Regular Expression
 *
 * Examples:
 *
 * - "abc@example.domain"
 * - "john-smith.new+mailbox-department@example.com"
 *
 * Ref:
 * https://en.wikipedia.org/wiki/Email_address
 */

(
// Asserts that the current is the first character
is_start()

// User name
[char_word, '.', '-'].one_or_more()

// Sub-address
('+', [char_word, '-'].one_or_more()).optional()

// The separator
'@'

// Domain name
(
    ['a'..'z', 'A'..'Z', '0'..'9', '-'].one_or_more()
    '.'
).one_or_more()

// Top-level domain
['a'..'z'].repeat_from(2)

// Asserts that the current is the last character
is_end()
)
"#,
        )
        .unwrap()
        .to_string(),
        "(is_start(), \
one_or_more([char_word, '.', '-']), \
optional(('+', one_or_more([char_word, '-']))), \
'@', \
one_or_more((one_or_more(['a'..'z', 'A'..'Z', '0'..'9', '-']), '.')), \
repeat_from(['a'..'z'], 2), \
is_end())"
    );

    let ipv4_regex = parse_from_str(
        r#"
/**
 * IPv4 Address Validation Regular Expression
 */

define num_25x ("25", ['0'..'5'])
define num_2xx ('2', ['0'..'4'], char_digit)
define num_1xx ('1', char_digit, char_digit)
define num_xx (['1'..'9'], char_digit)
define num_x (char_digit)
define part (num_25x || num_2xx || num_1xx || num_xx || num_x)

(is_start(), (part, '.').repeat(3), part, is_end())
"#,
    )
    .unwrap()
    .to_string();

    let part_str = r#"("25", ['0'..'5']) || (('2', ['0'..'4'], char_digit) || (('1', char_digit, char_digit) || ((['1'..'9'], char_digit) || char_digit)))"#;
    let expected_ipv4_regex = format!(
        "(is_start(), repeat(({}, '.'), 3), {}, is_end())",
        part_str, part_str
    );

    assert_eq!(ipv4_regex, expected_ipv4_regex);

    assert_eq!(
        parse_from_str(
            r#"
/**
 * Simple HTML Tag Regular Expression
 */

(
'<'                                         // opening tag
char_word+ as tag_name                      // tag name
(                                           // attributes
    char_space,
    char_word+,                             // key
    ('=', '"', char_word+, '"').optional()  // value
)*
'>'
char_any+?                                  // text content
'<', '/', tag_name, '>'                     // closing tag
)
"#,
        )
        .unwrap()
        .to_string(),
        "(\
'<', \
name(one_or_more(char_word), tag_name), \
zero_or_more((char_space, one_or_more(char_word), optional(('=', '\\\"', one_or_more(char_word), '\\\"')))), \
'>', \
lazy_one_or_more(char_any), \
'<', '/', tag_name, '>'\
)"
    );
}

#[test]
fn test_parse_expression_identifier_and_status() {
    // todo
}
