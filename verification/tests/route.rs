use anre::route::Route;
use anre::transition::{CharTransition, Transition};

#[test]
fn test_route_new_line() {
    let mut route = Route::new();

    // create a line
    {
        let line_index = route.new_line();
        let line = &mut route.lines[line_index];

        // create a node
        line.new_node();

        assert_eq!(
            line.get_debug_text(),
            "\
> 0"
        );

        // create other nodes
        let idx1 = line.new_node();
        let _idx2 = line.new_node();
        let idx3 = line.new_node();

        line.start_node_index = idx1;
        line.end_node_index = idx3;

        assert_eq!(
            line.get_debug_text(),
            "\
- 0
> 1
- 2
< 3"
        );
    }

    // create another line
    {
        let line_index = route.new_line();
        let line = &mut route.lines[line_index];

        // create a node
        line.new_node();

        assert_eq!(
            route.get_debug_text(),
            "\
= $0
- 0
> 1
- 2
< 3
= $1
> 0"
        );
    }
}

#[test]
fn test_route_new_capture_group() {
    let mut route = Route::new();
    let line_index = route.new_line();
    let line = &mut route.lines[line_index];

    line.new_node();
    line.new_node();

    route.new_capture_group(None);
    route.new_capture_group(Some("foo".to_owned()));
    route.new_capture_group(None);

    assert_eq!(
        route.get_debug_text(),
        "\
> 0
- 1
# {0}
# {1}, foo
# {2}"
    );

    assert_eq!(route.get_capture_group_index_by_name("foo"), Some(1));
    assert!(route.get_capture_group_index_by_name("bar").is_none());
}

/*
#[test]
fn test_route_new_counter() {
    let mut route = Route::new();
    assert_eq!(route.number_of_counters, 0);

    let idx0 = route.new_counter();

    assert_eq!(idx0, 0);
    assert_eq!(route.number_of_counters, 1);

    let idx1 = route.new_counter();
    let idx2 = route.new_counter();

    assert_eq!(idx1, 1);
    assert_eq!(idx2, 2);
}
*/

#[test]
fn test_line_append_transition() {
    let mut route = Route::new();
    let line_index = route.new_line();
    let line = &mut route.lines[line_index];

    let node_idx0 = line.new_node();
    let node_idx1 = line.new_node();
    let node_idx2 = line.new_node();
    let node_idx3 = line.new_node();

    let trans_idx0 = line.append_transition(
        node_idx0,
        node_idx1,
        Transition::Char(CharTransition::new('a')),
    );

    assert_eq!(
        line.get_debug_text(),
        "\
> 0
  -> 1, Char 'a'
- 1
- 2
- 3"
    );

    assert_eq!(trans_idx0, 0);

    let trans_idx1 = line.append_transition(
        node_idx0,
        node_idx2,
        Transition::Char(CharTransition::new('b')),
    );

    let trans_idx2 = line.append_transition(
        node_idx0,
        node_idx3,
        Transition::Char(CharTransition::new('c')),
    );

    assert_eq!(
        line.get_debug_text(),
        "\
> 0
  -> 1, Char 'a'
  -> 2, Char 'b'
  -> 3, Char 'c'
- 1
- 2
- 3"
    );

    assert_eq!(trans_idx1, 1);
    assert_eq!(trans_idx2, 2);

    let trans_idx3 = line.append_transition(
        node_idx1,
        node_idx2,
        Transition::Char(CharTransition::new('x')),
    );

    assert_eq!(
        line.get_debug_text(),
        "\
> 0
  -> 1, Char 'a'
  -> 2, Char 'b'
  -> 3, Char 'c'
- 1
  -> 2, Char 'x'
- 2
- 3"
    );

    assert_eq!(trans_idx3, 0);
}
