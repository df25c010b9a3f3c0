use anre::ast::{CharRange, CharSet, CharSetElement, Expression, Literal, PresetCharSetName, Program};
use anre::error::AnreError;
use anre::position::{Position, Range};
use anre::traditional::parser::parse_from_str;

#[test]
fn parser_test_parse_literal() {
    {
        let program = parse_from_str(r#"a"#).unwrap();

        assert_eq!(
            program,
            Program {
                expression: Expression::Literal(Literal::Char('a')),
            }
        );

        assert_eq!(program.to_string(), r#"'a'"#);
    }

    // Merge continuous chars.
    {
        let program = parse_from_str(r#".foo"#).unwrap();

        assert_eq!(
            program,
            Program {
                expression: Expression::Group(vec![
                    Expression::Literal(Literal::AnyChar),
                    Expression::Literal(Literal::String("foo".to_string())),
                ])
            }
        );

        assert_eq!(program.to_string(), r#"(char_any, "foo")"#);
    }
}

#[test]
fn parser_test_parse_literal_preset_charset() {
    let program = parse_from_str(r#"\w\W\d\D\s\S"#).unwrap();

    assert_eq!(
        program,
        Program {
            expression: Expression::Group(vec![
                Expression::Literal(Literal::PresetCharSet(PresetCharSetName::CharWord)),
                Expression::Literal(Literal::PresetCharSet(PresetCharSetName::CharNotWord)),
                Expression::Literal(Literal::PresetCharSet(PresetCharSetName::CharDigit)),
                Expression::Literal(Literal::PresetCharSet(PresetCharSetName::CharNotDigit)),
                Expression::Literal(Literal::PresetCharSet(PresetCharSetName::CharSpace)),
                Expression::Literal(Literal::PresetCharSet(PresetCharSetName::CharNotSpace)),
            ])
        }
    );

    assert_eq!(
        program.to_string(),
        r#"(char_word, char_not_word, char_digit, char_not_digit, char_space, char_not_space)"#
    );
}

#[test]
fn parser_test_parse_literal_charset() {
    let program = parse_from_str(r#"[a0-9\w]"#).unwrap();

    assert_eq!(
        program,
        Program {
            expression: Expression::Literal(Literal::CharSet(CharSet {
                negative: false,
                elements: vec![
                    CharSetElement::Char('a'),
                    CharSetElement::CharRange(CharRange {
                        start: '0',
                        end_inclusive: '9'
                    }),
                    CharSetElement::PresetCharSet(PresetCharSetName::CharWord),
                ]
            }))
        }
    );

    assert_eq!(program.to_string(), r#"['a', '0'..'9', char_word]"#);

    // negative charset
    assert_eq!(
        parse_from_str(r#"[^a-z\s]"#,).unwrap().to_string(),
        r#"!['a'..'z', char_space]"#
    );

    assert_eq!(
        parse_from_str(r#"[-a-f0-9]"#,).unwrap().to_string(),
        r#"['-', 'a'..'f', '0'..'9']"#
    );
}

#[test]
fn parser_test_parse_quantifier() {
    assert_eq!(
        parse_from_str(r#"a?b+c*x??y+?z*?"#,).unwrap().to_string(),
        r#"(optional('a'), one_or_more('b'), zero_or_more('c'), lazy_optional('x'), lazy_one_or_more('y'), lazy_zero_or_more('z'))"#
    );
}

#[test]
fn parser_test_parse_repetition() {
    assert_eq!(
        parse_from_str(r#"a{3}b{5,7}c{11,}x{3}?y{5,7}?z{11,}?"#,)
            .unwrap()
            .to_string(),
        r#"(repeat('a', 3), repeat_range('b', 5, 7), repeat_from('c', 11), lazy_repeat('x', 3), lazy_repeat_range('y', 5, 7), lazy_repeat_from('z', 11))"#
    );

    // Special case: zero repetition and range with the same start and end
    assert_eq!(
        parse_from_str(r#"a{0}b{3,3}c{5,5}?"#,).unwrap().to_string(),
        r#"(repeat('a', 0), repeat_range('b', 3, 3), lazy_repeat_range('c', 5, 5))"#
    );

    // err: invalid repetition range, `{m,n}` is invalid if m > n
    assert!(matches!(
        parse_from_str(r#"a{5,3}"#,),
        Err(AnreError::MessageWithRange(
            _,
            Range {
                start: Position {
                    index: 1,
                    line: 0,
                    column: 1
                },
                end_inclusive: Position {
                    index: 5,
                    line: 0,
                    column: 5
                }
            }
        ))
    ));
}

#[test]
fn test_parse_line_assertions() {
    assert_eq!(
        parse_from_str(r#"^a$"#,).unwrap().to_string(),
        r#"(is_start(), 'a', is_end())"#
    );
}

#[test]
fn test_parse_boundary_assertions() {
    assert_eq!(
        parse_from_str(r#"\ba\B"#,).unwrap().to_string(),
        r#"(is_bound(), 'a', is_not_bound())"#
    );
}

#[test]
fn parser_test_parse_index_capture_and_backreference() {
    assert_eq!(
        parse_from_str(r#"(a)"#,).unwrap().to_string(),
        r#"index('a')"#
    );

    assert_eq!(
        parse_from_str(r#"(a\d)"#,).unwrap().to_string(),
        r#"index(('a', char_digit))"#
    );

    assert_eq!(
        parse_from_str(r#"(\d+)\.\1"#,).unwrap().to_string(),
        r#"(index(one_or_more(char_digit)), '.', ^1)"#
    );
}

#[test]
fn parser_test_parse_name_capture_and_backreference() {
    assert_eq!(
        parse_from_str(r#"(?<x>a)"#,).unwrap().to_string(),
        r#"name('a', x)"#
    );

    assert_eq!(
        parse_from_str(r#"(?<x>a\d)"#,).unwrap().to_string(),
        r#"name(('a', char_digit), x)"#
    );

    assert_eq!(
        parse_from_str(r#"(?<a>\d)x\k<a>"#,).unwrap().to_string(),
        r#"(name(char_digit, a), 'x', a)"#
    );
}

#[test]
fn parser_test_parse_logic_or() {
    {
        let program = parse_from_str(r#"a|b"#).unwrap();

        assert_eq!(
            program,
            Program {
                expression: Expression::Or(
                    Box::new(Expression::Literal(Literal::Char('a'))),
                    Box::new(Expression::Literal(Literal::Char('b'))),
                )
            }
        );

        assert_eq!(program.to_string(), r#"'a' || 'b'"#);
    }

    // multiple operands
    {
        let program = parse_from_str(r#"a|b|c"#).unwrap();

        assert_eq!(
            program,
            Program {
                expression: Expression::Or(
                    Box::new(Expression::Literal(Literal::Char('a'))),
                    Box::new(Expression::Or(
                        Box::new(Expression::Literal(Literal::Char('b'))),
                        Box::new(Expression::Literal(Literal::Char('c'))),
                    )),
                )
            }
        );

        assert_eq!(program.to_string(), r#"'a' || ('b' || 'c')"#);
    }

    // expression as operand
    assert_eq!(
        parse_from_str(r#"\d+|[\w-]+"#,).unwrap().to_string(),
        r#"one_or_more(char_digit) || one_or_more([char_word, '-'])"#
    );

    // group + logic or
    assert_eq!(
        parse_from_str(r#"(a|b)|c"#,).unwrap().to_string(),
        r#"index('a' || 'b') || 'c'"#
    );

    // group + logic or + group
    assert_eq!(
        parse_from_str(r#"(a\w)|(b\d)"#,).unwrap().to_string(),
        r#"index(('a', char_word)) || index(('b', char_digit))"#
    );

    // string + logic or
    assert_eq!(
        parse_from_str(r#"ab|cd"#,).unwrap().to_string(),
        r#""ab" || "cd""#
    );
}

#[test]
fn parser_test_parse_group() {
    // groups are indexed capturing groups by default

    assert_eq!(
        parse_from_str(r#"(?:foo\d)(?:b(?:bar\d))$"#,)
            .unwrap()
            .to_string(),
        r#"(("foo", char_digit), ('b', ("bar", char_digit)), is_end())"#
    );

    // nested groups
    assert_eq!(
        parse_from_str(r#"(?:foo\d){3}(?:b(?:bar){5})$"#,)
            .unwrap()
            .to_string(),
        r#"(repeat(("foo", char_digit), 3), ('b', repeat("bar", 5)), is_end())"#
    );

    // escape nested groups
    assert_eq!(
        parse_from_str(r#"(?:(?:a\db))"#,).unwrap().to_string(),
        r#"('a', char_digit, 'b')"#
    );
}

#[test]
fn parser_test_parse_operate_on_group() {
    // Quantifier on group
    assert_eq!(
        parse_from_str(r#"a(?:b)?(?:x\d)?"#,).unwrap().to_string(),
        r#"('a', optional('b'), optional(('x', char_digit)))"#
    );

    // Repetition on group
    assert_eq!(
        parse_from_str(r#"a(?:b){3,5}(?:x\d){7,11}"#,)
            .unwrap()
            .to_string(),
        r#"('a', repeat_range('b', 3, 5), repeat_range(('x', char_digit), 7, 11))"#
    );

    // Quantifier on indexed capturing group
    assert_eq!(
        parse_from_str(r#"a(b?)((?:x\d)?)"#,).unwrap().to_string(),
        r#"('a', index(optional('b')), index(optional(('x', char_digit))))"#
    );

    // Repetition on indexed capturing group
    assert_eq!(
        parse_from_str(r#"a(b{3,5})((?:x\d){7,11})"#,)
            .unwrap()
            .to_string(),
        r#"('a', index(repeat_range('b', 3, 5)), index(repeat_range(('x', char_digit), 7, 11)))"#
    );

    // Quantifier on named capturing group
    assert_eq!(
        parse_from_str(r#"a(?<foo>b)?(?<bar>x\d)?"#,)
            .unwrap()
            .to_string(),
        r#"('a', optional(name('b', foo)), optional(name(('x', char_digit), bar)))"#
    );

    // Repetition on named capturing group
    assert_eq!(
        parse_from_str(r#"a(?<foo>b){3,5}(?<bar>x\d){7,11}"#,)
            .unwrap()
            .to_string(),
        r#"('a', repeat_range(name('b', foo), 3, 5), repeat_range(name(('x', char_digit), bar), 7, 11))"#
    );

    // Precedence of group and quantifier
    assert_eq!(
        parse_from_str(r#"(x)?(y?)"#,).unwrap().to_string(),
        r#"(optional(index('x')), index(optional('y')))"#
    );
}

#[test]
fn test_parse_lookaround_assertion() {
    assert_eq!(
        parse_from_str(r#"(?<=a)b"#,).unwrap().to_string(),
        r#"is_after('b', 'a')"#
    );

    assert_eq!(
        parse_from_str(r#"(?<!a)b"#,).unwrap().to_string(),
        r#"is_not_after('b', 'a')"#
    );

    assert_eq!(
        parse_from_str(r#"a(?=b)"#,).unwrap().to_string(),
        r#"is_before('a', 'b')"#
    );

    assert_eq!(
        parse_from_str(r#"a(?!b)"#,).unwrap().to_string(),
        r#"is_not_before('a', 'b')"#
    );
}

#[test]
fn parser_test_parse_examples() {
    assert_eq!(
        parse_from_str(r#"\d+"#,).unwrap().to_string(),
        "one_or_more(char_digit)"
    );

    assert_eq!(
        parse_from_str(r#"0x[0-9a-fA-F]+"#,).unwrap().to_string(),
        "(\"0x\", one_or_more(['0'..'9', 'a'..'f', 'A'..'F']))"
    );

    assert_eq!(
        parse_from_str(r#"^[\w.-]+(\+[\w-]+)?@([a-zA-Z0-9-]+\.)+[a-z]{2,}$"#,)
            .unwrap()
            .to_string(),
        "(is_start(), \
one_or_more([char_word, '.', '-']), \
optional(index(('+', one_or_more([char_word, '-'])))), \
'@', \
one_or_more(index((one_or_more(['a'..'z', 'A'..'Z', '0'..'9', '-']), '.'))), \
repeat_from(['a'..'z'], 2), \
is_end())"
    );

    let ipv4_regex = parse_from_str(
        r#"^((25[0-5]|2[0-4]\d|1\d\d|[1-9]\d|\d)\.){3}(25[0-5]|2[0-4]\d|1\d\d|[1-9]\d|\d)$"#,
    )
    .unwrap()
    .to_string();

    let expected_part_str = r#"index(("25", ['0'..'5']) || (('2', ['0'..'4'], char_digit) || (('1', char_digit, char_digit) || ((['1'..'9'], char_digit) || char_digit))))"#;
    let expected_str = format!(
        "(is_start(), repeat(index(({}, '.')), 3), {}, is_end())",
        expected_part_str, expected_part_str
    );

    assert_eq!(ipv4_regex, expected_str);

    assert_eq!(
        parse_from_str(r#"<(?<tag_name>\w+)(\s\w+(="\w+")?)*>.+?</\k<tag_name>>"#,)
            .unwrap()
            .to_string(),
        "(\
'<', \
name(one_or_more(char_word), tag_name), \
zero_or_more(index((char_space, one_or_more(char_word), optional(index((\"=\\\"\", one_or_more(char_word), '\\\"')))))), \
'>', \
lazy_one_or_more(char_any), \
\"</\", tag_name, '>'\
)"
    );
}
