use anre::ast::{Expression, Literal, PresetCharSetName, Program};

#[test]
fn test_display() {
    let program = Program {
        expression: Expression::Group(vec![
            Expression::Literal(Literal::Char('a')),
            Expression::Literal(Literal::String("foo".to_string())),
            Expression::Literal(Literal::PresetCharSet(PresetCharSetName::CharWord)),
        ]),
    };

    assert_eq!(program.to_string(), r#"('a', "foo", char_word)"#);
}
