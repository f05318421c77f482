use lct::tree::EntryTree;

fn child_names(t: &EntryTree, i: usize) -> Vec<String> {
    t.nodes[i].children.iter().map(|&c| t.nodes[c].name.clone()).collect()
}

#[test]
fn insertion_builds_segment_tree() {
    let mut t = EntryTree::new("commander");
    t.get_or_create_with_path("a/b/c", 1, 2);
    t.get_or_create_with_path("a/b/d", 3, 4);
    assert_eq!(child_names(&t, 0), vec!["a".to_string()]);
    let a = t.nodes[0].children[0];
    assert_eq!(child_names(&t, a), vec!["b".to_string()]);
    let b = t.nodes[a].children[0];
    assert_eq!(child_names(&t, b), vec!["c".to_string(), "d".to_string()]);
    let c = t.nodes[b].children[0];
    let d = t.nodes[b].children[1];
    assert!(t.nodes[c].children.is_empty());
    assert!(t.nodes[d].children.is_empty());
    assert_eq!(t.nodes[c].lines_covered, 1);
    assert_eq!(t.nodes[c].lines_instrumented, 2);
    assert_eq!(t.nodes[d].lines_covered, 3);
    assert_eq!(t.nodes[d].lines_instrumented, 4);
}

#[test]
fn duplicate_path_keeps_second_value() {
    let mut t = EntryTree::new("commander");
    let first = t.get_or_create_with_path("x/y", 1, 10);
    let len_after_first = t.nodes.len();
    let second = t.get_or_create_with_path("x/y", 7, 8);
    assert_eq!(first, second);
    assert_eq!(t.nodes.len(), len_after_first);
    assert_eq!(t.nodes[second].lines_covered, 7);
    assert_eq!(t.nodes[second].lines_instrumented, 8);
}

#[test]
fn aggregation_sums_leaves_into_root() {
    let mut t = EntryTree::new("commander");
    t.get_or_create_with_path("a/b.cpp", 5, 10);
    t.get_or_create_with_path("a/c.cpp", 10, 10);
    t.get_or_create_with_path("z.cpp", 2, 3);
    t.update_coverage_statistics();
    assert_eq!(t.nodes[0].lines_covered, 17);
    assert_eq!(t.nodes[0].lines_instrumented, 23);
    let a = t.nodes[0].children[0];
    assert_eq!(t.nodes[a].lines_covered, 15);
    assert_eq!(t.nodes[a].lines_instrumented, 20);
}

#[test]
fn aggregation_is_idempotent() {
    let mut t = EntryTree::new("commander");
    t.get_or_create_with_path("a/b", 4, 9);
    t.get_or_create_with_path("a/c", 6, 11);
    t.get_or_create_with_path("d", 1, 1);
    t.update_coverage_statistics();
    let once: Vec<(u32, u32)> =
        t.nodes.iter().map(|n| (n.lines_covered, n.lines_instrumented)).collect();
    t.update_coverage_statistics();
    let twice: Vec<(u32, u32)> =
        t.nodes.iter().map(|n| (n.lines_covered, n.lines_instrumented)).collect();
    assert_eq!(once, twice);
}

#[test]
fn aggregation_discards_stale_inner_counts() {
    let mut t = EntryTree::new("commander");
    t.get_or_create_with_path("a", 99, 99);
    t.get_or_create_with_path("a/b", 2, 5);
    t.update_coverage_statistics();
    let a = t.nodes[0].children[0];
    assert_eq!(t.nodes[a].lines_covered, 2);
    assert_eq!(t.nodes[a].lines_instrumented, 5);
}

#[test]
fn overflowing_totals_are_refused_and_tree_left_alone() {
    let mut t = EntryTree::new("commander");
    t.get_or_create_with_path("a", u32::MAX, u32::MAX);
    t.get_or_create_with_path("b", 1, 1);
    let ok = t.try_update_coverage_statistics();
    assert!(!ok);
    let a = t.nodes[0].children[0];
    assert_eq!(t.nodes[a].lines_covered, u32::MAX);
    assert_eq!(t.nodes[0].lines_covered, 0);
}

#[test]
fn get_or_create_finds_before_creating() {
    let mut t = EntryTree::new("commander");
    let a1 = t.get_or_create(0, "a");
    let a2 = t.get_or_create(0, "a");
    assert_eq!(a1, a2);
    assert_eq!(t.nodes.len(), 2);
    let same = t.get_or_create(0, "commander");
    assert_eq!(same, 0);
    assert_eq!(t.nodes.len(), 2);
}

#[test]
fn empty_path_inserts_nothing() {
    let mut t = EntryTree::new("commander");
    let idx = t.get_or_create_with_path("", 5, 6);
    assert_eq!(idx, 0);
    assert_eq!(t.nodes.len(), 1);
    assert_eq!(t.nodes[0].lines_covered, 0);
    assert_eq!(t.nodes[0].lines_instrumented, 0);
}

#[test]
fn get_with_path_resolves_and_rejects() {
    let mut t = EntryTree::new("commander");
    t.get_or_create_with_path("a/b", 1, 2);
    let a = t.get_with_path("a").unwrap();
    assert_eq!(t.nodes[a].name, "a");
    let b = t.get_with_path("commander/a/b").unwrap();
    assert_eq!(t.nodes[b].name, "b");
    assert!(t.get_with_path("a/zzz").is_none());
    assert!(t.get_with_path("commander/a/b/deeper").is_none());
}
