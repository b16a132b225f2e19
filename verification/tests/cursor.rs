use std::sync::Arc;
use syntax_map::buffer::BufferSnapshot;
use syntax_map::language::{Grammar, LanguageDef};
use syntax_map::layer::{Cursor, SyntaxLayer};
use syntax_map::position::{Anchor, AnchorRange, Bias};
use syntax_map::region::ChangedRegion;
use syntax_map::parse::parse_text;
use syntax_map::walk::advance;
use syntax_map::summary::{
    DepthAndMaxPosition, DepthAndRange, DepthAndRangeOrMaxPosition, SyntaxLayerSummary,
};

fn range(start: usize, end: usize) -> AnchorRange {
    AnchorRange {
        start: Anchor { offset: start, bias: Bias::Left },
        end: Anchor { offset: end, bias: Bias::Right },
    }
}

fn layers(extents: &[(usize, AnchorRange)]) -> Vec<SyntaxLayer> {
    let grammar = Arc::new(Grammar {
        ts_language: tree_sitter_rust::language(),
        injection_config: None,
    });
    let language = Arc::new(LanguageDef { name: "rust".to_string(), grammar: Some(grammar.clone()) });
    let buffer = BufferSnapshot::new(0, Vec::new());
    extents
        .iter()
        .map(|(depth, range)| SyntaxLayer {
            depth: *depth,
            range: *range,
            tree: parse_text(&grammar, &buffer, None, &Vec::new()).unwrap(),
            language: language.clone(),
        })
        .collect()
}

fn sample() -> Vec<SyntaxLayer> {
    layers(&[
        (0, AnchorRange::all()),
        (1, range(10, 20)),
        (1, range(30, 40)),
        (2, range(12, 14)),
        (2, range(32, 34)),
    ])
}

fn extents(layers: &[SyntaxLayer]) -> Vec<(usize, AnchorRange)> {
    layers.iter().map(|layer| (layer.depth, layer.range)).collect()
}

fn summary(max_depth: usize, hull: AnchorRange, last: AnchorRange) -> SyntaxLayerSummary {
    SyntaxLayerSummary { max_depth, range: hull, last_layer_range: last }
}

#[test]
fn a_layer_sums_up_to_its_depth_and_range() {
    let layers = sample();
    assert_eq!(layers[1].summary(), summary(1, range(10, 20), range(10, 20)));
    let copy = layers[1].clone();
    assert_eq!((copy.depth, copy.range), (1, range(10, 20)));
    assert!(Arc::ptr_eq(&copy.language, &layers[1].language));
    assert_eq!(copy.tree.root_node().to_sexp(), layers[1].tree.root_node().to_sexp());
}

#[test]
fn a_cursor_knows_the_summary_of_what_it_has_passed() {
    let layers = sample();
    let mut cursor = Cursor::new(&layers);
    assert_eq!(*cursor.start(), SyntaxLayerSummary::default());
    assert_eq!(cursor.end(), summary(0, AnchorRange::all(), AnchorRange::all()));
    assert_eq!(cursor.item().unwrap().depth, 0);

    cursor.next();
    assert_eq!(*cursor.start(), summary(0, AnchorRange::all(), AnchorRange::all()));
    assert_eq!(cursor.end(), summary(1, range(10, 20), range(10, 20)));
    assert_eq!(cursor.item().unwrap().range, range(10, 20));

    cursor.next();
    cursor.next();
    assert_eq!(*cursor.start(), summary(1, range(10, 40), range(30, 40)));
    assert_eq!(cursor.end(), summary(2, range(12, 14), range(12, 14)));

    cursor.next();
    cursor.next();
    assert!(cursor.item().is_none());
    assert_eq!(*cursor.start(), summary(2, range(12, 34), range(32, 34)));
    assert_eq!(cursor.end(), *cursor.start());
    cursor.next();
    assert!(cursor.item().is_none());
    assert_eq!(*cursor.start(), summary(2, range(12, 34), range(32, 34)));
}

#[test]
fn a_slice_takes_the_layers_in_front_of_the_target() {
    let layers = sample();
    let mut cursor = Cursor::new(&layers);
    let passed = cursor.slice(&DepthAndRange(1, range(30, 40)));
    assert_eq!(extents(&passed), vec![(0, AnchorRange::all()), (1, range(10, 20))]);
    assert_eq!(cursor.item().unwrap().range, range(30, 40));

    // The cursor is at the target: nothing more is passed.
    let passed = cursor.slice(&DepthAndRange(1, range(30, 40)));
    assert_eq!(extents(&passed), Vec::new());
    // A target behind the cursor passes nothing either.
    let passed = cursor.slice(&DepthAndRange(0, AnchorRange::all()));
    assert_eq!(extents(&passed), Vec::new());
    assert_eq!(cursor.item().unwrap().range, range(30, 40));

    // The first layer of depth 2.
    let passed = cursor.slice(&DepthAndRange(2, AnchorRange::all()));
    assert_eq!(extents(&passed), vec![(1, range(30, 40))]);
    assert_eq!(cursor.item().unwrap().range, range(12, 14));

    let passed = cursor.suffix();
    assert_eq!(extents(&passed), vec![(2, range(12, 14)), (2, range(32, 34))]);
    assert!(cursor.item().is_none());
    assert_eq!(extents(&cursor.suffix()), Vec::new());
}

#[test]
fn a_slice_to_a_position_takes_the_layers_that_end_in_front_of_it() {
    let layers = sample();
    let mut cursor = Cursor::new(&layers);
    cursor.next();
    let position = Anchor { offset: 25, bias: Bias::Left };
    let passed = cursor.slice(&DepthAndMaxPosition(1, position));
    assert_eq!(extents(&passed), vec![(1, range(10, 20))]);
    assert_eq!(cursor.item().unwrap().range, range(30, 40));

    let mut cursor = Cursor::new(&layers);
    let passed = cursor.slice(&DepthAndMaxPosition(1, Anchor { offset: 15, bias: Bias::Left }));
    assert_eq!(extents(&passed), vec![(0, AnchorRange::all())]);
}

#[test]
fn a_slice_to_a_range_or_position_goes_on_while_either_is_ahead() {
    let layers = sample();
    let position = |offset| Anchor { offset, bias: Bias::Left };

    let mut cursor = Cursor::new(&layers);
    let passed = cursor.slice(&DepthAndRangeOrMaxPosition(1, range(10, 20), position(5)));
    assert_eq!(extents(&passed), vec![(0, AnchorRange::all())]);

    // The range is reached at once, but the position lies behind the first
    // layer of the depth: the cursor goes on to the layer that reaches it.
    let mut cursor = Cursor::new(&layers);
    let passed = cursor.slice(&DepthAndRangeOrMaxPosition(1, range(10, 20), position(25)));
    assert_eq!(extents(&passed), vec![(0, AnchorRange::all()), (1, range(10, 20))]);

    // The position is reached at once, but the range lies further on.
    let mut cursor = Cursor::new(&layers);
    let passed = cursor.slice(&DepthAndRangeOrMaxPosition(1, range(30, 40), position(5)));
    assert_eq!(extents(&passed), vec![(0, AnchorRange::all()), (1, range(10, 20))]);

    // Neither is reached within the depth: the cursor stops at the next depth.
    let mut cursor = Cursor::new(&layers);
    let passed = cursor.slice(&DepthAndRangeOrMaxPosition(1, range(50, 60), Anchor::max()));
    assert_eq!(
        extents(&passed),
        vec![(0, AnchorRange::all()), (1, range(10, 20)), (1, range(30, 40))]
    );
    assert_eq!(cursor.item().unwrap().depth, 2);
}

#[test]
fn advancing_keeps_the_old_layers_in_front_of_the_target() {
    let old = sample();
    let mut cursor = Cursor::new(&old);
    cursor.next();
    let mut kept = Vec::new();
    let mut regions = vec![ChangedRegion { depth: 1, range: range(15, 16) }];

    advance(&mut cursor, &mut kept, &mut regions, 1, &range(30, 40));

    assert_eq!(extents(&kept), vec![(1, range(10, 20))]);
    assert_eq!(cursor.item().unwrap().range, range(30, 40));
    // The region ends in front of the target's start and is dropped.
    assert_eq!(regions, Vec::new());
}

#[test]
fn advancing_does_nothing_when_the_cursor_is_at_the_target() {
    let old = sample();
    let mut cursor = Cursor::new(&old);
    let mut kept = Vec::new();
    let mut regions = vec![ChangedRegion { depth: 0, range: range(0, 1) }];

    advance(&mut cursor, &mut kept, &mut regions, 0, &AnchorRange::all());

    assert_eq!(extents(&kept), Vec::new());
    assert_eq!(cursor.item().unwrap().depth, 0);
    assert_eq!(regions, vec![ChangedRegion { depth: 0, range: range(0, 1) }]);
}

#[test]
fn advancing_to_the_end_of_a_depth_leaves_deeper_layers_behind() {
    let old = sample();
    let mut cursor = Cursor::new(&old);
    cursor.next();
    cursor.next();
    let mut kept = Vec::new();
    let mut regions = vec![
        ChangedRegion { depth: 1, range: range(35, 50) },
        ChangedRegion { depth: 2, range: range(0, 5) },
    ];
    let end = AnchorRange { start: Anchor::max(), end: Anchor::max() };

    advance(&mut cursor, &mut kept, &mut regions, 1, &end);

    assert_eq!(extents(&kept), vec![(1, range(30, 40))]);
    assert_eq!(cursor.item().unwrap().range, range(12, 14));
    assert_eq!(regions, vec![ChangedRegion { depth: 2, range: range(0, 5) }]);
}
