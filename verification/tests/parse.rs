use std::sync::Arc;
use syntax_map::buffer::BufferSnapshot;
use syntax_map::language::Grammar;
use syntax_map::parser::{text_between, ByteRange, TextRange};
use syntax_map::position::{Anchor, AnchorRange, Bias};
use syntax_map::region::ChangedRegion;
use syntax_map::parse::{parse_text, ranges_ascending, ready_to_parse, rebase_ranges};
use syntax_map::reparse::note_regions;

fn buffer(text: &str) -> BufferSnapshot {
    BufferSnapshot::new(0, text.as_bytes().to_vec())
}

fn grammar() -> Arc<Grammar> {
    Arc::new(Grammar { ts_language: tree_sitter_rust::language(), injection_config: None })
}

#[test]
fn ranges_are_told_from_the_start_of_the_first() {
    assert_eq!(rebase_ranges(&Vec::new()), Some(Vec::new()));
    let ranges = vec![
        TextRange::new(10, 14, 2, 4, 2, 8),
        TextRange::new(16, 30, 2, 10, 4, 3),
        TextRange::new(30, 31, 4, 3, 4, 4),
    ];
    assert_eq!(
        rebase_ranges(&ranges),
        Some(vec![
            TextRange::new(0, 4, 0, 0, 0, 4),
            TextRange::new(6, 20, 0, 6, 2, 3),
            TextRange::new(20, 21, 2, 3, 2, 4),
        ])
    );
}

#[test]
fn ranges_in_front_of_the_first_cannot_be_told_from_it() {
    let first = TextRange::new(10, 14, 2, 4, 2, 8);
    assert_eq!(rebase_ranges(&vec![first, TextRange::new(9, 30, 2, 10, 4, 3)]), None);
    assert_eq!(rebase_ranges(&vec![first, TextRange::new(16, 9, 2, 10, 4, 3)]), None);
    assert_eq!(rebase_ranges(&vec![first, TextRange::new(16, 30, 2, 3, 4, 3)]), None);
    assert_eq!(rebase_ranges(&vec![first, TextRange::new(16, 30, 1, 9, 4, 3)]), None);
    assert_eq!(rebase_ranges(&vec![first, TextRange::new(16, 30, 2, 10, 2, 3)]), None);
    assert_eq!(rebase_ranges(&vec![TextRange::new(10, 9, 2, 4, 2, 8)]), None);
}

#[test]
fn the_whole_text_is_parsed_where_there_are_no_ranges() {
    let tree = parse_text(&grammar(), &buffer("fn a() {}"), None, &Vec::new()).unwrap();
    assert_eq!(
        tree.root_node().to_sexp(),
        "(source_file (function_item name: (identifier) parameters: (parameters) body: (block)))"
    );
    assert_eq!(tree.root_node().byte_range(), 0..9);
}

#[test]
fn the_text_within_the_ranges_is_parsed_from_the_start_of_the_first() {
    let text = "m!(fn a() {})";
    let ranges = vec![TextRange::new(3, 12, 0, 3, 0, 12)];
    let tree = parse_text(&grammar(), &buffer(text), None, &ranges).unwrap();
    assert_eq!(
        tree.root_node().to_sexp(),
        "(source_file (function_item name: (identifier) parameters: (parameters) body: (block)))"
    );
    assert_eq!(tree.root_node().byte_range(), 0..9);

    // Text between two ranges is not seen.
    let text = "fn a() ?? {}";
    let ranges = vec![TextRange::new(0, 7, 0, 0, 0, 7), TextRange::new(10, 12, 0, 10, 0, 12)];
    let tree = parse_text(&grammar(), &buffer(text), None, &ranges).unwrap();
    assert_eq!(
        tree.root_node().to_sexp(),
        "(source_file (function_item name: (identifier) parameters: (parameters) body: (block)))"
    );
}

#[test]
fn an_old_tree_serves_as_the_starting_point() {
    let old = parse_text(&grammar(), &buffer("fn a() {}"), None, &Vec::new()).unwrap();
    let tree = parse_text(&grammar(), &buffer("fn a() {}"), Some(&old), &Vec::new()).unwrap();
    assert_eq!(tree.root_node().to_sexp(), old.root_node().to_sexp());
    assert_eq!(old.changed_ranges(&tree).count(), 0);
}

#[test]
fn ranges_that_do_not_ascend_or_lie_beyond_the_text_are_not_ready_to_parse() {
    let text = buffer("fn a() {} fn b() {}");
    let ready = |ranges: Vec<TextRange>| ready_to_parse(&grammar(), &text, &ranges);
    assert!(ready(Vec::new()));
    assert!(ready(vec![TextRange::new(0, 9, 0, 0, 0, 9), TextRange::new(10, 19, 0, 10, 0, 19)]));
    assert!(ready(vec![TextRange::new(0, 9, 0, 0, 0, 9), TextRange::new(9, 19, 0, 9, 0, 19)]));
    assert!(ready(vec![TextRange::new(19, 19, 0, 19, 0, 19)]));
    // Overlapping.
    assert!(!ready(vec![TextRange::new(0, 12, 0, 0, 0, 12), TextRange::new(10, 19, 0, 10, 0, 19)]));
    // Out of order.
    assert!(!ready(vec![TextRange::new(10, 19, 0, 10, 0, 19), TextRange::new(0, 9, 0, 0, 0, 9)]));
    // An end in front of its start.
    assert!(!ready(vec![TextRange::new(9, 0, 0, 9, 0, 0)]));
    // Beyond the text.
    assert!(!ready(vec![TextRange::new(20, 25, 0, 20, 0, 25)]));
}

#[test]
fn ranges_ascend_in_bytes_and_in_points() {
    assert!(ranges_ascending(&Vec::new()));
    assert!(ranges_ascending(&vec![TextRange::new(3, 3, 1, 0, 1, 0)]));
    assert!(ranges_ascending(&vec![
        TextRange::new(0, 4, 0, 0, 0, 4),
        TextRange::new(4, 9, 0, 4, 1, 2),
        TextRange::new(12, 13, 2, 0, 2, 1),
    ]));
    // The points of the second range lie in front of the end of the first.
    assert!(!ranges_ascending(&vec![
        TextRange::new(0, 4, 0, 0, 1, 4),
        TextRange::new(4, 9, 0, 4, 1, 2),
    ]));
    assert!(!ranges_ascending(&vec![TextRange::new(0, 4, 1, 0, 0, 4)]));
    assert!(!ranges_ascending(&vec![
        TextRange::new(0, 4, 0, 0, 0, 4),
        TextRange::new(3, 9, 0, 4, 1, 2),
    ]));
}

#[test]
fn a_grammar_knows_the_trees_that_it_has_built() {
    let grammar = grammar();
    assert!(grammar.is_taken_by_parser());
    let tree = parse_text(&grammar, &buffer("fn a() {}"), None, &Vec::new()).unwrap();
    assert!(grammar.has_built(&tree));
    let other = Grammar { ts_language: tree_sitter_rust::language(), injection_config: None };
    assert!(other.has_built(&tree));
}

#[test]
fn a_stretch_of_text_is_its_bytes_or_nothing() {
    let text = b"0123456789".to_vec();
    assert_eq!(text_between(&text, 2, 5), b"234");
    assert_eq!(text_between(&text, 0, 10), b"0123456789");
    assert_eq!(text_between(&text, 4, 4), b"");
    assert_eq!(text_between(&text, 5, 2), b"");
    assert_eq!(text_between(&text, 8, 11), b"");
}

#[test]
fn changed_bytes_are_noted_as_regions_of_the_depth() {
    let range = |start, end| AnchorRange {
        start: Anchor { offset: start, bias: Bias::Left },
        end: Anchor { offset: end, bias: Bias::Right },
    };
    let mut regions = vec![ChangedRegion { depth: 2, range: range(5, 6) }];
    let changed = vec![
        ByteRange { start: 7, end: 9 },
        ByteRange { start: 1, end: 3 },
        ByteRange { start: 7, end: 9 },
    ];
    note_regions(&mut regions, 2, &changed);
    assert_eq!(
        regions,
        vec![
            ChangedRegion { depth: 2, range: range(1, 3) },
            ChangedRegion { depth: 2, range: range(5, 6) },
            ChangedRegion { depth: 2, range: range(7, 9) },
        ]
    );
    note_regions(&mut regions, 1, &vec![ByteRange { start: 8, end: 8 }]);
    assert_eq!(regions[0], ChangedRegion { depth: 1, range: range(8, 8) });
    assert_eq!(regions.len(), 4);
}
