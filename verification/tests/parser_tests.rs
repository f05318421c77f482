use lct::parser::{parse_coverage_text, ParseError};

#[test]
fn end_to_end_two_records() {
    let input = "SF:a/b.cpp\nLH:5\nLF:10\nend_of_record\nSF:a/c.cpp\nLH:10\nLF:10\nend_of_record\n";
    let t = parse_coverage_text(input).unwrap();
    assert_eq!(t.nodes[0].name, "commander");
    assert_eq!(t.nodes[0].children.len(), 1);
    let a = t.nodes[0].children[0];
    assert_eq!(t.nodes[a].name, "a");
    assert_eq!(t.nodes[a].children.len(), 2);
    let b = t.nodes[a].children[0];
    let c = t.nodes[a].children[1];
    assert_eq!(t.nodes[b].name, "b.cpp");
    assert_eq!((t.nodes[b].lines_covered, t.nodes[b].lines_instrumented), (5, 10));
    assert_eq!(t.nodes[c].name, "c.cpp");
    assert_eq!((t.nodes[c].lines_covered, t.nodes[c].lines_instrumented), (10, 10));
    assert_eq!((t.nodes[a].lines_covered, t.nodes[a].lines_instrumented), (15, 20));
    assert_eq!((t.nodes[0].lines_covered, t.nodes[0].lines_instrumented), (15, 20));
    let report = t.render_report(-1);
    let expected = "- commander  (75.0%) 15/20 \n   - a  (75.0%) 15/20 \n      - b.cpp  (50.0%) 5/10 \n      - c.cpp  (100.0%) 10/10 \n";
    assert_eq!(report, expected);
}

#[test]
fn no_match_gives_bare_root() {
    let t = parse_coverage_text("nothing to see here").unwrap();
    assert_eq!(t.nodes.len(), 1);
    assert_eq!(t.nodes[0].name, "commander");
}

#[test]
fn intervening_lines_are_skipped_inside_a_block() {
    let input = "TN:test\nSF:src/x.c\nFN:3,main\nDA:1,1\nLH:2\nLF:4\nend_of_record\n";
    let t = parse_coverage_text(input).unwrap();
    let src = t.nodes[0].children[0];
    assert_eq!(t.nodes[src].name, "src");
    let x = t.nodes[src].children[0];
    assert_eq!(t.nodes[x].name, "x.c");
    assert_eq!((t.nodes[x].lines_covered, t.nodes[x].lines_instrumented), (2, 4));
}

#[test]
fn block_without_anchors_ends_the_scan() {
    // The first block has no LH/LF pair and no later block follows, so the
    // scan finds no complete record at all.
    let input = "SF:only/path\nend_of_record\n";
    let t = parse_coverage_text(input).unwrap();
    assert_eq!(t.nodes.len(), 1);
}

#[test]
fn lazy_scan_can_bridge_a_malformed_block() {
    // A block lacking its own counts borrows the next block's anchors: the
    // scan is lazy, not line-oriented, so the first path takes the later
    // counts and the second record is consumed.
    let input = "SF:bad\nend_of_record\nSF:good\nLH:1\nLF:2\nend_of_record\n";
    let t = parse_coverage_text(input).unwrap();
    assert_eq!(t.nodes.len(), 2);
    assert_eq!(t.nodes[1].name, "bad");
    assert_eq!((t.nodes[1].lines_covered, t.nodes[1].lines_instrumented), (1, 2));
}

#[test]
fn malformed_count_is_fatal() {
    let input = "SF:a\nLH:five\nLF:10\nend_of_record\n";
    assert!(matches!(parse_coverage_text(input), Err(ParseError::InvalidCount)));
}

#[test]
fn count_too_large_for_u32_is_fatal() {
    let input = "SF:a\nLH:4294967296\nLF:10\nend_of_record\n";
    assert!(matches!(parse_coverage_text(input), Err(ParseError::InvalidCount)));
}

#[test]
fn overflowing_totals_are_reported() {
    let input = "SF:a\nLH:4294967295\nLF:4294967295\nend_of_record\nSF:b\nLH:1\nLF:1\nend_of_record\n";
    assert!(matches!(parse_coverage_text(input), Err(ParseError::CountOverflow)));
}

#[test]
fn plus_signed_count_is_accepted() {
    let input = "SF:a\nLH:+5\nLF:10\nend_of_record\n";
    let t = parse_coverage_text(input).unwrap();
    let a = t.nodes[0].children[0];
    assert_eq!(t.nodes[a].lines_covered, 5);
}

#[test]
fn duplicate_path_last_record_wins() {
    let input = "SF:a/x\nLH:1\nLF:9\nend_of_record\nSF:a/x\nLH:2\nLF:3\nend_of_record\n";
    let t = parse_coverage_text(input).unwrap();
    let a = t.nodes[0].children[0];
    let x = t.nodes[a].children[0];
    assert_eq!((t.nodes[x].lines_covered, t.nodes[x].lines_instrumented), (2, 3));
}
