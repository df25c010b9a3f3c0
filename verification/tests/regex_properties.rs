use anre::anre::parser::parse_from_str as parse_anre;
use anre::compiler::{compile_from_anre, compile_from_regex};
use anre::error::AnreError;
use anre::regex::{Match, Regex};

fn both(anre: &str, regex: &str) -> [Regex; 2] {
    [Regex::from_anre(anre).unwrap(), Regex::new(regex).unwrap()]
}

#[test]
fn is_match_agrees_with_find_on_examples() {
    for re in both("('a', char_digit+)", "a\\d+") {
        for text in ["", "a", "a1", "xa12", "b2", "aa", "1a"] {
            assert_eq!(re.is_match(text), re.find(text).is_some(), "text {:?}", text);
        }
    }
}

#[test]
fn captures_start_with_find() {
    for re in both("(#'a'?, 'b')", "(a)?b") {
        for text in ["b", "ab", "xxab", "aab", "zzz"] {
            let found = re.find(text);
            let caps = re.captures(text);
            assert_eq!(found.is_some(), caps.is_some());
            if let (Some(m), Some(c)) = (found, caps) {
                assert_eq!(c.get(0), Some(&m));
                assert_eq!(c.len(), 2);
            }
        }
    }
}

#[test]
fn find_iter_starts_with_find() {
    for re in both("char_word+", "\\w+") {
        let text = "  ab cd";
        let mut it = re.find_iter(text);
        assert_eq!(it.next(), re.find(text));
    }
}

#[test]
fn find_returns_leftmost_match() {
    for re in both("(\"ab\" || 'b')", "ab|b") {
        // 'b' alone matches at 1, but "ab" matches earlier, at 0.
        assert_eq!(re.find("abb"), Some(Match::new(0, 2, None, "ab")));
        assert_eq!(re.find("xbab"), Some(Match::new(1, 2, None, "b")));
    }
}

#[test]
fn iteration_over_empty_matches_ends() {
    for re in both("'a'*", "a*") {
        let mut it = re.find_iter("baa");
        // An empty match at 0, then "aa" from 1; the search then goes on
        // from 3, the end of the text, where no match is tried.
        assert_eq!(it.next(), Some(Match::new(0, 0, None, "")));
        assert_eq!(it.next(), Some(Match::new(1, 3, None, "aa")));
        assert_eq!(it.next(), None);
        assert_eq!(it.next(), None);
    }
}

#[test]
fn empty_text_never_matches() {
    for re in both("'a'*", "a*") {
        assert!(!re.is_match(""));
        assert_eq!(re.find(""), None);
        assert!(re.captures("").is_none());
    }
}

#[test]
fn match_length_is_byte_length_of_its_text() {
    for re in both("\"文字\"", "文字") {
        let m = re.find("a文字b").unwrap();
        assert_eq!(m.start(), 1);
        assert_eq!(m.end(), 7);
        assert_eq!(m.len(), m.as_str().len());
        assert!(!m.is_empty());
        assert_eq!(m.range(), 1..7);
    }
}

#[test]
fn function_names_read_back_through_the_printer() {
    for text in [
        "optional('a')",
        "lazy_zero_or_more('a')",
        "repeat_range('a', 2, 5)",
        "is_not_after('a', 'b')",
        "(is_start(), char_not_space, is_not_bound())",
    ] {
        let printed = parse_anre(text).unwrap().to_string();
        assert_eq!(printed, text);
        assert_eq!(parse_anre(&printed).unwrap().to_string(), printed);
    }
}

#[test]
fn lazy_exact_repetition_has_no_name_to_read_back() {
    let printed = parse_anre("'x'{3}?").unwrap().to_string();
    assert_eq!(printed, "lazy_repeat('x', 3)");
    assert!(matches!(parse_anre(&printed), Err(AnreError::MessageWithRange(_, _))));
}

#[test]
fn repetition_counts() {
    for re in both("'a'{2..3}", "a{2,3}") {
        let mut it = re.find_iter("aaaaaaa");
        assert_eq!(it.next(), Some(Match::new(0, 3, None, "aaa")));
        assert_eq!(it.next(), Some(Match::new(3, 6, None, "aaa")));
        assert_eq!(it.next(), None);
    }
    for re in both("'a'{2..3}?", "a{2,3}?") {
        let mut it = re.find_iter("aaaaa");
        assert_eq!(it.next(), Some(Match::new(0, 2, None, "aa")));
        assert_eq!(it.next(), Some(Match::new(2, 4, None, "aa")));
        assert_eq!(it.next(), None);
    }
    for re in both("'a'{0}", "a{0}") {
        assert_eq!(re.find("a"), Some(Match::new(0, 0, None, "")));
    }
}

#[test]
fn named_group_lookup_and_index() {
    let re = Regex::new("(?<x>a)(?<y>b)(?<x>c)").unwrap();
    let c = re.captures("abc").unwrap();
    assert_eq!(c.name("x").unwrap().as_str(), "a");
    assert_eq!(&c["y"], "b");
    assert_eq!(&c[3], "c");
    assert!(c.name("z").is_none());
    assert!(c.get(4).is_none());
    assert!(!c.is_empty());
}

#[test]
fn compile_errors() {
    // The start of a repetition range exceeds its end.
    assert!(matches!(compile_from_anre("repeat_range('a', 3, 2)"), Err(AnreError::Message(_))));
    // A look-behind condition must have a fixed length.
    assert!(matches!(compile_from_regex("(?<=a+)b"), Err(AnreError::Message(_))));
    assert!(compile_from_regex("(?<=ab|cd)e").is_ok());
    assert!(matches!(compile_from_regex("(?<=ab|c)e"), Err(AnreError::Message(_))));
    // A back reference to a name that no capture group has.
    assert!(matches!(compile_from_regex("\\k<nope>"), Err(AnreError::Message(_))));
    // A back reference to a group index that does not exist yet.
    assert!(matches!(compile_from_anre("^3"), Err(AnreError::Message(_))));
    // Negative preset sets cannot stand in a character set.
    assert!(matches!(compile_from_anre("['a', char_not_word]"), Err(AnreError::Message(_))));
    // Wrong arguments for a function.
    assert!(matches!(compile_from_anre("optional()"), Err(AnreError::Message(_))));
    assert!(matches!(compile_from_anre("repeat('a')"), Err(AnreError::Message(_))));
}

#[test]
fn back_references_see_the_groups_opened_before_them() {
    // A capture group is open inside itself.
    assert!(compile_from_anre("name(('a', ^1), x)").is_ok());
    assert!(compile_from_regex("(?<x>a\\k<x>)").is_ok());
    // Group 1 opens before the reference, or does not exist.
    assert!(compile_from_anre("(index('a'), ^1)").is_ok());
    assert!(matches!(compile_from_anre("('a', ^1)"), Err(AnreError::Message(_))));
    assert!(matches!(compile_from_anre("(^1, index('a'))"), Err(AnreError::Message(_))));
    // A look-behind opens the groups of its condition before those of its expression.
    assert!(compile_from_anre("is_after(('b', ^1), index('a'))").is_ok());
    assert!(matches!(compile_from_anre("is_after(index('b'), ('a', ^2))"), Err(AnreError::Message(_))));
    // A disjunction's right side sees the groups of its left side.
    assert!(compile_from_anre("index('a') || ^1").is_ok());
    // A nested positive set may stand in a set, a negative one may not.
    assert!(compile_from_anre("['a', ['b', char_digit]]").is_ok());
    assert!(matches!(compile_from_anre("['a', !['b']]"), Err(AnreError::Message(_))));
}

#[test]
fn lexer_and_parser_errors() {
    // The lexer reports a position.
    assert!(matches!(
        anre::traditional::lexer::lex_from_str("\\u{12x}"),
        Err(AnreError::MessageWithPosition(_, _))
    ));
    // An escape that is no Unicode scalar value.
    assert!(matches!(
        anre::traditional::lexer::lex_from_str("\\u{d800}"),
        Err(AnreError::MessageWithRange(_, _))
    ));
    // The text ends inside a repetition.
    assert!(matches!(
        anre::traditional::lexer::lex_from_str("a{"),
        Err(AnreError::UnexpectedEndOfDocument(_))
    ));
    assert!(matches!(
        anre::traditional::lexer::lex_from_str("a{3,"),
        Err(AnreError::UnexpectedEndOfDocument(_))
    ));
    // `\k` at the end of the text.
    assert!(matches!(
        anre::traditional::lexer::lex_from_str("a\\k"),
        Err(AnreError::MessageWithRange(_, _))
    ));
    // Naming an indexed capture that has no argument.
    assert!(matches!(parse_anre("index() as x"), Err(AnreError::MessageWithRange(_, _))));
    // An empty alternative.
    assert!(matches!(
        anre::traditional::parser::parse_from_str("a|"),
        Err(AnreError::MessageWithRange(_, _))
    ));
}

#[test]
fn unicode_escape_reads_the_code_point() {
    let re = Regex::new("\\u{6587}\\u{2d}").unwrap();
    assert_eq!(re.find("中文-"), Some(Match::new(3, 7, None, "文-")));
}

#[test]
fn iteration_yields_at_most_one_match_per_char() {
    let re = Regex::new("a*").unwrap();
    let text = "baab";
    let mut it = re.find_iter(text);
    let mut ms: Vec<(usize, usize)> = Vec::new();
    while let Some(m) = it.next() {
        ms.push((m.start, m.end));
    }
    assert_eq!(ms, vec![(0, 0), (1, 3), (3, 3)]);
    assert!(ms.len() <= text.chars().count());
    for w in ms.windows(2) {
        assert!(w[0].1 <= w[1].0);
    }
}
