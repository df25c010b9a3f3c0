use anre::anre::parser::parse_from_str;
use anre::compiler::fixed_length;
use anre::compiler::compile_from_anre;
use anre::transition::{
    CharSetTransition, CharTransition, LookAheadAssertionTransition, LookBehindAssertionTransition,
    RepetitionForwardTransition, RepetitionType, StringTransition, Transition,
};

#[test]
fn transition_texts() {
    assert_eq!(Transition::Char(CharTransition::new('\n')).to_string(), "Char '\\n'");
    assert_eq!(
        Transition::String(StringTransition::new("a\"b")).to_string(),
        "String \"a\\\"b\""
    );
    assert_eq!(
        Transition::CharSet(CharSetTransition::new_preset_charset_word()).to_string(),
        "Charset ['A'..'Z', 'a'..'z', '0'..'9', '_']"
    );
    assert_eq!(
        Transition::CharSet(CharSetTransition::new_preset_charset_not_space()).to_string(),
        "Charset ![' ', '\\t', '\\r', '\\n']"
    );
    assert_eq!(
        Transition::RepetitionForward(RepetitionForwardTransition::new(
            RepetitionType::RepeatRange(2, 15)
        ))
        .to_string(),
        "Repetition forward [2..15]"
    );
    assert_eq!(
        Transition::LookAheadAssertion(LookAheadAssertionTransition::new(3, true)).to_string(),
        "Look ahead negative $3"
    );
    assert_eq!(
        Transition::LookBehindAssertion(LookBehindAssertionTransition::new(1, false, 12)).to_string(),
        "Look behind $1, match length 12"
    );
}

#[test]
fn byte_lengths_of_char_and_string_transitions() {
    assert_eq!(CharTransition::new('a').byte_length, 1);
    assert_eq!(CharTransition::new('é').byte_length, 2);
    assert_eq!(CharTransition::new('文').byte_length, 3);
    assert_eq!(CharTransition::new('😋').byte_length, 4);
    let t = StringTransition::new("a文😋");
    assert_eq!(t.byte_length, 8);
    assert_eq!(t.codepoints, vec!['a' as u32, '文' as u32, '😋' as u32]);
}

#[test]
fn compiled_route_of_one_char() {
    let route = compile_from_anre("'a'").unwrap();
    assert_eq!(
        route.get_debug_text(),
        "\
- 0
  -> 1, Char 'a'
- 1
  -> 3, Capture end {0}
> 2
  -> 0, Capture start {0}
< 3
# {0}"
    );
}

#[test]
fn compiled_route_with_look_ahead_line() {
    let route = compile_from_anre("'a'.is_before('b')").unwrap();
    assert_eq!(
        route.get_debug_text(),
        "\
= $0
- 0
  -> 1, Char 'a'
- 1
  -> 2, Look ahead $1
- 2
  -> 4, Capture end {0}
> 3
  -> 0, Capture start {0}
< 4
= $1
> 0
  -> 1, Char 'b'
< 1
# {0}"
    );
}

#[test]
fn capture_groups_follow_the_order_they_open() {
    let route = compile_from_anre("is_after(name('x', left), name('y', right))").unwrap();
    let right = "right".to_owned();
    let left = "left".to_owned();
    assert_eq!(route.get_capture_group_names(), vec![None, Some(&right), Some(&left)]);

    let route = compile_from_anre("is_before(name('x', left), name('y', right))").unwrap();
    assert_eq!(route.get_capture_group_names(), vec![None, Some(&left), Some(&right)]);

    let route = compile_from_anre("(index('a' || name('b', inner)), name(index('c'), outer))").unwrap();
    let inner = "inner".to_owned();
    let outer = "outer".to_owned();
    assert_eq!(
        route.get_capture_group_names(),
        vec![None, None, Some(&inner), Some(&outer), None]
    );
    assert_eq!(route.get_number_of_capture_groups(), 5);
}

#[test]
fn fixed_lengths_of_patterns() {
    let len = |s: &str| fixed_length(&parse_from_str(s).unwrap().expression);
    assert_eq!(len("\"a文b\""), Some(3));
    assert_eq!(len("('a', char_digit, is_start(), \"xy\")"), Some(4));
    assert_eq!(len("'a' || 'b'"), Some(1));
    assert_eq!(len("'a' || \"bc\""), None);
    assert_eq!(len("repeat(\"ab\", 3)"), Some(6));
    assert_eq!(len("repeat_range('a', 2, 2)"), Some(2));
    assert_eq!(len("repeat_range('a', 2, 3)"), None);
    assert_eq!(len("optional('a')"), None);
    assert_eq!(len("name(('a', 'b'), x)"), Some(2));
    assert_eq!(len("('a', ^1)"), None);
}
