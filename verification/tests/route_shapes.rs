use anre::compiler::compile_from_str;

#[test]
fn route_shape_char_1() {
    let route = compile_from_str(r#"'a'"#).unwrap();
    assert_eq!(
        route.get_debug_text(),
        "\
- 0
  -> 1, Char 'a'
- 1
  -> 3, Capture end {0}
> 2
  -> 0, Capture start {0}
< 3
# {0}"
    );
}

#[test]
fn route_shape_char_2() {
    let route = compile_from_str(r#"('a', 'b', 'c')"#).unwrap();
    assert_eq!(
        route.get_debug_text(),
        "\
- 0
  -> 1, Char 'a'
- 1
  -> 2, Jump
- 2
  -> 3, Char 'b'
- 3
  -> 4, Jump
- 4
  -> 5, Char 'c'
- 5
  -> 7, Capture end {0}
> 6
  -> 0, Capture start {0}
< 7
# {0}"
    );
}

#[test]
fn route_shape_char_3() {
    let route = compile_from_str(r#"('a',('b','c'), 'd')"#).unwrap();
    assert_eq!(
        route.get_debug_text(),
        "\
- 0
  -> 1, Char 'a'
- 1
  -> 2, Jump
- 2
  -> 3, Char 'b'
- 3
  -> 4, Jump
- 4
  -> 5, Char 'c'
- 5
  -> 6, Jump
- 6
  -> 7, Char 'd'
- 7
  -> 9, Capture end {0}
> 8
  -> 0, Capture start {0}
< 9
# {0}"
    );
}

#[test]
fn route_shape_char_4() {
    let route = compile_from_str(r#"('a',('b', ('c', 'd'), 'e'), 'f')"#).unwrap();
    assert_eq!(
        route.get_debug_text(),
        "\
- 0
  -> 1, Char 'a'
- 1
  -> 2, Jump
- 2
  -> 3, Char 'b'
- 3
  -> 4, Jump
- 4
  -> 5, Char 'c'
- 5
  -> 6, Jump
- 6
  -> 7, Char 'd'
- 7
  -> 8, Jump
- 8
  -> 9, Char 'e'
- 9
  -> 10, Jump
- 10
  -> 11, Char 'f'
- 11
  -> 13, Capture end {0}
> 12
  -> 0, Capture start {0}
< 13
# {0}"
    );
}

#[test]
fn route_shape_logic_or_1() {
    let route = compile_from_str(r#"'a' || 'b'"#).unwrap();
    assert_eq!(
        route.get_debug_text(),
        "\
- 0
  -> 1, Char 'a'
- 1
  -> 5, Jump
- 2
  -> 3, Char 'b'
- 3
  -> 5, Jump
- 4
  -> 0, Jump
  -> 2, Jump
- 5
  -> 7, Capture end {0}
> 6
  -> 4, Capture start {0}
< 7
# {0}"
    );
}

#[test]
fn route_shape_logic_or_2() {
    let route = compile_from_str(r#"'a' || 'b' || 'c'"#).unwrap();
    assert_eq!(
        route.get_debug_text(),
        "\
- 0
  -> 1, Char 'a'
- 1
  -> 9, Jump
- 2
  -> 3, Char 'b'
- 3
  -> 7, Jump
- 4
  -> 5, Char 'c'
- 5
  -> 7, Jump
- 6
  -> 2, Jump
  -> 4, Jump
- 7
  -> 9, Jump
- 8
  -> 0, Jump
  -> 6, Jump
- 9
  -> 11, Capture end {0}
> 10
  -> 8, Capture start {0}
< 11
# {0}"
    );
}

#[test]
fn route_shape_logic_or_3() {
    let route = compile_from_str(r#"('a' || 'b') || 'c'"#).unwrap();
    assert_eq!(
        route.get_debug_text(),
        "\
- 0
  -> 1, Char 'a'
- 1
  -> 5, Jump
- 2
  -> 3, Char 'b'
- 3
  -> 5, Jump
- 4
  -> 0, Jump
  -> 2, Jump
- 5
  -> 9, Jump
- 6
  -> 7, Char 'c'
- 7
  -> 9, Jump
- 8
  -> 4, Jump
  -> 6, Jump
- 9
  -> 11, Capture end {0}
> 10
  -> 8, Capture start {0}
< 11
# {0}"
    );
}

#[test]
fn route_shape_logic_or_4() {
    let route = compile_from_str(r#"('a', 'b' || 'c', 'd')"#).unwrap();
    assert_eq!(
        route.get_debug_text(),
        "\
- 0
  -> 1, Char 'a'
- 1
  -> 6, Jump
- 2
  -> 3, Char 'b'
- 3
  -> 7, Jump
- 4
  -> 5, Char 'c'
- 5
  -> 7, Jump
- 6
  -> 2, Jump
  -> 4, Jump
- 7
  -> 8, Jump
- 8
  -> 9, Char 'd'
- 9
  -> 11, Capture end {0}
> 10
  -> 0, Capture start {0}
< 11
# {0}"
    );
}

#[test]
fn route_shape_logic_or_5() {
    let route = compile_from_str(r#"('a', 'b') || 'c'"#).unwrap();
    assert_eq!(
        route.get_debug_text(),
        "\
- 0
  -> 1, Char 'a'
- 1
  -> 2, Jump
- 2
  -> 3, Char 'b'
- 3
  -> 7, Jump
- 4
  -> 5, Char 'c'
- 5
  -> 7, Jump
- 6
  -> 0, Jump
  -> 4, Jump
- 7
  -> 9, Capture end {0}
> 8
  -> 6, Capture start {0}
< 9
# {0}"
    );
}

#[test]
fn route_shape_special_char_1() {
    let route = compile_from_str(r#"('a', char_any)"#).unwrap();
    assert_eq!(
        route.get_debug_text(),
        "\
- 0
  -> 1, Char 'a'
- 1
  -> 2, Jump
- 2
  -> 3, Any char
- 3
  -> 5, Capture end {0}
> 4
  -> 0, Capture start {0}
< 5
# {0}"
    );
}

#[test]
fn route_shape_charset_1() {
    let route = compile_from_str(r#"['a', '0'..'7']"#).unwrap();
    assert_eq!(
        route.get_debug_text(),
        "\
- 0
  -> 1, Charset ['a', '0'..'7']
- 1
  -> 3, Capture end {0}
> 2
  -> 0, Capture start {0}
< 3
# {0}"
    );
}

#[test]
fn route_shape_charset_2() {
    let route = compile_from_str(r#"!['a','0'..'7']"#).unwrap();
    assert_eq!(
        route.get_debug_text(),
        "\
- 0
  -> 1, Charset !['a', '0'..'7']
- 1
  -> 3, Capture end {0}
> 2
  -> 0, Capture start {0}
< 3
# {0}"
    );
}

#[test]
fn route_shape_capture_group_by_name_1() {
    let route = compile_from_str(r#"(name('a', foo), 'b'.name(bar))"#).unwrap();
    assert_eq!(
        route.get_debug_text(),
        "\
- 0
  -> 1, Char 'a'
- 1
  -> 3, Capture end {1}
- 2
  -> 0, Capture start {1}
- 3
  -> 6, Jump
- 4
  -> 5, Char 'b'
- 5
  -> 7, Capture end {2}
- 6
  -> 4, Capture start {2}
- 7
  -> 9, Capture end {0}
> 8
  -> 2, Capture start {0}
< 9
# {0}
# {1}, foo
# {2}, bar"
    );
}

#[test]
fn route_shape_capture_group_by_name_2() {
    let route = compile_from_str(r#"(name(('a', 'b'), foo), ('x' || 'y').name(bar))"#).unwrap();
    assert_eq!(
        route.get_debug_text(),
        "\
- 0
  -> 1, Char 'a'
- 1
  -> 2, Jump
- 2
  -> 3, Char 'b'
- 3
  -> 5, Capture end {1}
- 4
  -> 0, Capture start {1}
- 5
  -> 12, Jump
- 6
  -> 7, Char 'x'
- 7
  -> 11, Jump
- 8
  -> 9, Char 'y'
- 9
  -> 11, Jump
- 10
  -> 6, Jump
  -> 8, Jump
- 11
  -> 13, Capture end {2}
- 12
  -> 10, Capture start {2}
- 13
  -> 15, Capture end {0}
> 14
  -> 4, Capture start {0}
< 15
# {0}
# {1}, foo
# {2}, bar"
    );
}

#[test]
fn route_shape_capture_group_by_name_3() {
    let route = compile_from_str(r#"name(name('a', foo), bar)"#).unwrap();
    assert_eq!(
        route.get_debug_text(),
        "\
- 0
  -> 1, Char 'a'
- 1
  -> 3, Capture end {2}
- 2
  -> 0, Capture start {2}
- 3
  -> 5, Capture end {1}
- 4
  -> 2, Capture start {1}
- 5
  -> 7, Capture end {0}
> 6
  -> 4, Capture start {0}
< 7
# {0}
# {1}, bar
# {2}, foo"
    );
}

#[test]
fn route_shape_capture_group_by_name_4() {
    let route = compile_from_str(r#"'a'.name(foo).name(bar)"#).unwrap();
    assert_eq!(
        route.get_debug_text(),
        "\
- 0
  -> 1, Char 'a'
- 1
  -> 3, Capture end {2}
- 2
  -> 0, Capture start {2}
- 3
  -> 5, Capture end {1}
- 4
  -> 2, Capture start {1}
- 5
  -> 7, Capture end {0}
> 6
  -> 4, Capture start {0}
< 7
# {0}
# {1}, bar
# {2}, foo"
    );
}

#[test]
fn route_shape_capture_group_by_index_1() {
    let route = compile_from_str(r#"(index('a'), 'b'.index())"#).unwrap();
    assert_eq!(
        route.get_debug_text(),
        "\
- 0
  -> 1, Char 'a'
- 1
  -> 3, Capture end {1}
- 2
  -> 0, Capture start {1}
- 3
  -> 6, Jump
- 4
  -> 5, Char 'b'
- 5
  -> 7, Capture end {2}
- 6
  -> 4, Capture start {2}
- 7
  -> 9, Capture end {0}
> 8
  -> 2, Capture start {0}
< 9
# {0}
# {1}
# {2}"
    );
}

#[test]
fn route_shape_backreference_1() {
    let route = compile_from_str(r#"('a'.name(foo), 'b', foo)"#).unwrap();
    assert_eq!(
        route.get_debug_text(),
        "\
- 0
  -> 1, Char 'a'
- 1
  -> 3, Capture end {1}
- 2
  -> 0, Capture start {1}
- 3
  -> 4, Jump
- 4
  -> 5, Char 'b'
- 5
  -> 6, Jump
- 6
  -> 7, Back reference {1}
- 7
  -> 9, Capture end {0}
> 8
  -> 2, Capture start {0}
< 9
# {0}
# {1}, foo"
    );
}

#[test]
fn route_shape_notations_1() {
    let route = compile_from_str(r#"'a'?"#).unwrap();
    assert_eq!(
        route.get_debug_text(),
        "\
- 0
  -> 1, Char 'a'
- 1
  -> 3, Jump
- 2
  -> 0, Jump
  -> 3, Jump
- 3
  -> 5, Capture end {0}
> 4
  -> 2, Capture start {0}
< 5
# {0}"
    );
}

#[test]
fn route_shape_notations_2() {
    let route = compile_from_str(r#"'a'??"#).unwrap();
    assert_eq!(
        route.get_debug_text(),
        "\
- 0
  -> 1, Char 'a'
- 1
  -> 3, Jump
- 2
  -> 3, Jump
  -> 0, Jump
- 3
  -> 5, Capture end {0}
> 4
  -> 2, Capture start {0}
< 5
# {0}"
    );
}


#[test]
fn route_shape_repeat_greedy_and_lazy() {
    let route = compile_from_str(r#"'a'{2}"#).unwrap();
    assert_eq!(
        route.get_debug_text(),
        "\
- 0
  -> 1, Char 'a'
- 1
  -> 3, Counter increment
- 2
  -> 3, Counter reset
- 3
  -> 0, Repetition back [2]
  -> 4, Repetition forward [2]
- 4
  -> 6, Capture end {0}
> 5
  -> 2, Capture start {0}
< 6
# {0}"
    );
    let lazy = compile_from_str(r#"'a'{1..3}?"#).unwrap();
    assert_eq!(
        lazy.get_debug_text(),
        "\
- 0
  -> 1, Char 'a'
- 1
  -> 3, Counter increment
- 2
  -> 3, Counter reset
- 3
  -> 4, Repetition forward [1..3]
  -> 0, Repetition back [1..3]
- 4
  -> 6, Capture end {0}
> 5
  -> 2, Capture start {0}
< 6
# {0}"
    );
}

#[test]
fn route_shape_both_notations_agree() {
    let pairs = [
        ("'a'{1..3}", "a{1,3}"),
        ("('a', char_any+?, 'c')", "a.+?c"),
        ("('a' || 'b', 'c'*)", "(?:a|b)c*"),
        ("(#'x', [char_digit, 'a'..'f'])", "(x)[\\da-f]"),
    ];
    for (a, r) in pairs.iter() {
        let x = anre::compiler::compile_from_anre(a).unwrap().get_debug_text();
        let y = anre::compiler::compile_from_regex(r).unwrap().get_debug_text();
        assert_eq!(x, y, "{} / {}", a, r);
    }
}
