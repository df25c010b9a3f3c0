use anre::error::AnreError;
use anre::position::{Position, Range};

fn located(e: &AnreError, text: &str) -> bool {
    let n = text.chars().count();
    match e {
        AnreError::MessageWithPosition(_, p) => p.index < n,
        AnreError::MessageWithRange(_, r) => r.start.index < n && r.end_inclusive.index < n,
        _ => true,
    }
}

#[test]
fn traditional_empty_text_is_refused_at_the_origin() {
    let r = anre::traditional::parser::parse_from_str("");
    assert_eq!(
        r,
        Err(AnreError::MessageWithRange(
            "Encountered an empty expression.".to_owned(),
            Range::new(&Position::new(0, 0, 0), &Position::new(0, 0, 0))
        ))
    );
}

#[test]
fn anre_empty_text_is_refused() {
    let r = anre::anre::parser::parse_from_str("");
    assert!(matches!(r, Err(AnreError::UnexpectedEndOfDocument(_))));
}

#[test]
fn traditional_errors_name_positions_in_the_text() {
    for text in ["a{5,3}", "a|", "(a", "[a", "ab)", "\\k<x", "a\nb{4,2}", "|a", "()"] {
        match anre::traditional::parser::parse_from_str(text) {
            Ok(_) => panic!("{} should be refused", text),
            Err(e) => assert!(located(&e, text), "{}: {:?}", text, e),
        }
    }
}

#[test]
fn anre_errors_name_positions_in_the_text() {
    for text in ["'a' 'b'", "'a'.foo()", "'a'{5..3}", "#", "('a'", "['a'", "'a' as", "char_word.repeat(", "'a'\n'b' 'c'"] {
        match anre::anre::parser::parse_from_str(text) {
            Ok(_) => panic!("{} should be refused", text),
            Err(e) => assert!(located(&e, text), "{}: {:?}", text, e),
        }
    }
}

#[test]
fn traditional_error_range_covers_the_bad_repetition() {
    let r = anre::traditional::parser::parse_from_str("x\ny{4,2}");
    assert_eq!(
        r,
        Err(AnreError::MessageWithRange(
            "Invalid repetition range: {4,2}. The start of the range must be less than or equal to the end."
                .to_owned(),
            Range::new(&Position::new(3, 1, 1), &Position::new(7, 1, 5))
        ))
    );
}

#[test]
fn anre_reversed_repetition_range_is_refused_with_its_numbers() {
    match anre::anre::parser::parse_from_str("'a'{12..3}") {
        Err(AnreError::MessageWithRange(m, _)) => assert_eq!(
            m,
            "Invalid repetition range {12,3}. The start of the range must be less than or equal to the end."
        ),
        other => panic!("unexpected result: {:?}", other),
    }
}

#[test]
fn captures_index_by_number_and_name() {
    let re = anre::regex::Regex::from_anre("('a' as x, #'b')").unwrap();
    let c = re.captures("zab").unwrap();
    assert_eq!(&c[0], "ab");
    assert_eq!(&c[1], "a");
    assert_eq!(&c[2], "b");
    assert_eq!(&c["x"], "a");
}
