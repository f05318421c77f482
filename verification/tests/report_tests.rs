use lct::tree::EntryTree;

#[test]
fn depth_cutoff_is_inclusive() {
    let mut t = EntryTree::new("commander");
    t.get_or_create_with_path("a/b/c", 1, 2);
    t.update_coverage_statistics();
    let report = t.render_report(1);
    // Depth zero and one are shown, depth two and below are not.
    assert_eq!(report, "- commander  (50.0%) 1/2 \n   - a  (50.0%) 1/2 \n");
    let full = t.render_report(-1);
    assert_eq!(
        full,
        "- commander  (50.0%) 1/2 \n   - a  (50.0%) 1/2 \n      - b  (50.0%) 1/2 \n         - c  (50.0%) 1/2 \n",
    );
}

#[test]
fn non_positive_depth_means_unlimited() {
    let mut t = EntryTree::new("commander");
    t.get_or_create_with_path("a/b", 1, 1);
    assert_eq!(t.render_report(0), t.render_report(-1));
}

#[test]
fn zero_instrumented_reports_zero_percent() {
    let t = EntryTree::new("commander");
    assert_eq!(t.render_report(-1), "- commander  (0.0%) 0/0 \n");
}

#[test]
fn collapsed_node_is_marked_and_not_descended() {
    let mut t = EntryTree::new("commander");
    let a = t.get_or_create(0, "a");
    t.get_or_create(a, "leaf");
    t.nodes[a].expand = false;
    let report = t.render_report(-1);
    assert_eq!(report, "- commander  (0.0%) 0/0 \n   + a  (0.0%) 0/0 \n");
}

#[test]
fn percentage_is_rounded_to_tenths() {
    let mut t = EntryTree::new("commander");
    t.get_or_create_with_path("f", 1, 3);
    t.update_coverage_statistics();
    // 1/3 is 33.33...%, shown as 33.3%.
    assert_eq!(
        t.render_report(-1),
        "- commander  (33.3%) 1/3 \n   - f  (33.3%) 1/3 \n",
    );
}
