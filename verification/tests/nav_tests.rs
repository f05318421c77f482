use lct::nav::{App, Event};
use lct::parser::parse_coverage_text;
use lct::tree::EntryTree;

fn three_children_app() -> App {
    let mut t = EntryTree::new("commander");
    t.get_or_create_with_path("a/x", 1, 2);
    t.get_or_create_with_path("a/y", 1, 2);
    t.get_or_create_with_path("a/z", 1, 2);
    t.get_or_create_with_path("a/y/k", 1, 2);
    t.update_coverage_statistics();
    App::new_from_tree(t)
}

fn tip_index(app: &App) -> usize {
    app.get_with_index(-1).unwrap()
}

#[test]
fn new_session_points_at_first_child() {
    let app = three_children_app();
    assert_eq!(app.path.len(), 2);
    assert_eq!(app.path[0], "commander");
    assert_eq!(app.path[1], "a");
    assert_eq!(app.fullpath(-1), "commander/a");
    assert_eq!(app.fullpath(0), "commander");
    assert_eq!(app.fullpath(-2), "commander");
}

#[test]
fn new_session_on_bare_root_has_one_segment() {
    let app = App::new_from_tree(EntryTree::new("commander"));
    assert_eq!(app.path.len(), 1);
    assert_eq!(app.fullpath(-1), "commander");
}

#[test]
fn selection_down_clamps_at_last_child() {
    let mut app = three_children_app();
    let tip = tip_index(&app);
    assert_eq!(app.tree.nodes[tip].children.len(), 3);
    assert_eq!(app.tree.nodes[tip].index_selected, 0);
    for _ in 0..5 {
        app.down();
    }
    assert_eq!(app.tree.nodes[tip].index_selected, 2);
}

#[test]
fn selection_up_reaches_zero_and_stays() {
    let mut app = three_children_app();
    let tip = tip_index(&app);
    app.down();
    app.down();
    assert_eq!(app.tree.nodes[tip].index_selected, 2);
    app.up();
    assert_eq!(app.tree.nodes[tip].index_selected, 1);
    app.up();
    assert_eq!(app.tree.nodes[tip].index_selected, 0);
    app.up();
    assert_eq!(app.tree.nodes[tip].index_selected, 0);
}

#[test]
fn next_into_leaf_is_a_no_op() {
    let mut app = three_children_app();
    // Selection 0 addresses `x`, a leaf: drilling in backs out at once.
    app.next();
    assert_eq!(app.path.len(), 2);
    assert_eq!(app.fullpath(-1), "commander/a");
}

#[test]
fn next_descends_into_a_node_with_children() {
    let mut app = three_children_app();
    app.down();
    // Selection 1 addresses `y`, which has a child.
    app.next();
    assert_eq!(app.path.len(), 3);
    assert_eq!(app.fullpath(-1), "commander/a/y");
    let tip = tip_index(&app);
    assert_eq!(app.tree.nodes[tip].name, "y");
}

#[test]
fn previous_pops_but_never_empties() {
    let mut app = three_children_app();
    app.previous();
    assert_eq!(app.path.len(), 1);
    app.previous();
    assert_eq!(app.path.len(), 1);
    assert_eq!(app.fullpath(-1), "commander");
}

#[test]
fn get_with_index_walks_prefixes() {
    let mut app = three_children_app();
    app.down();
    app.next();
    let parent = app.get_with_index(-2).unwrap();
    assert_eq!(app.tree.nodes[parent].name, "a");
    let tip = app.get_with_index(-1).unwrap();
    assert_eq!(app.tree.nodes[tip].name, "y");
    let root = app.get_with_index(0).unwrap();
    assert_eq!(app.tree.nodes[root].name, "commander");
}

#[test]
fn session_from_text_is_ready_to_browse() {
    let input = "SF:a/b.cpp\nLH:5\nLF:10\nend_of_record\n";
    let app = App::new_from_content(input).unwrap();
    assert_eq!(app.fullpath(-1), "commander/a");
    let tip = tip_index(&app);
    assert_eq!(app.tree.nodes[tip].lines_covered, 5);
    assert_eq!(app.tree.nodes[tip].lines_instrumented, 10);
}

#[test]
fn bad_text_fails_to_open_a_session() {
    assert!(App::new_from_content("SF:a\nLH:oops\nLF:1\nend_of_record\n").is_err());
}

#[test]
fn events_carry_input_or_tick() {
    let e: Event<char> = Event::Input('q');
    let quit = match e {
        Event::Input(c) => c == 'q',
        Event::Tick => false,
    };
    assert!(quit);
    let t: Event<char> = Event::Tick;
    assert!(matches!(t, Event::Tick));
}
