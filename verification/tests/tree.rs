use std::cmp::Ordering;
use std::sync::Arc;
use syntax_map::buffer::BufferSnapshot;
use syntax_map::language::{Grammar, LanguageDef};
use syntax_map::layer::{Cursor, SyntaxLayer};
use syntax_map::position::{Anchor, AnchorRange, Bias, Order};
use syntax_map::parse::parse_text;
use syntax_map::summary::{
    DepthAndMaxPosition, DepthAndRange, DepthAndRangeOrMaxPosition, SeekTarget, SyntaxLayerSummary,
};
use zed_sum_tree::{ContextLessSummary, Item, SumTree};

#[derive(Clone)]
struct TreeLayer(SyntaxLayer);

#[derive(Clone, Debug)]
struct TreeSummary(SyntaxLayerSummary);

struct TreeTarget<T>(T);

impl ContextLessSummary for TreeSummary {
    fn zero() -> Self {
        TreeSummary(SyntaxLayerSummary::default())
    }

    fn add_summary(&mut self, summary: &Self) {
        self.0.add_summary(&summary.0);
    }
}

impl Item for TreeLayer {
    type Summary = TreeSummary;

    fn summary(&self, _: ()) -> TreeSummary {
        TreeSummary(self.0.summary())
    }
}

impl<'a, T: SeekTarget> zed_sum_tree::SeekTarget<'a, TreeSummary, TreeSummary> for TreeTarget<T> {
    fn cmp(&self, cursor_location: &TreeSummary, _: ()) -> Ordering {
        match self.0.compare(&cursor_location.0) {
            Order::Less => Ordering::Less,
            Order::Equal => Ordering::Equal,
            Order::Greater => Ordering::Greater,
        }
    }
}

fn left(offset: usize) -> Anchor {
    Anchor { offset, bias: Bias::Left }
}

fn range(start: usize, end: usize) -> AnchorRange {
    AnchorRange { start: left(start), end: Anchor { offset: end, bias: Bias::Right } }
}

/// One layer for everything, twenty of depth 1 and twenty of depth 2 inside
/// them, in the order of the index.
fn ordered_layers() -> Vec<SyntaxLayer> {
    let grammar = Arc::new(Grammar {
        ts_language: tree_sitter_rust::language(),
        injection_config: None,
    });
    let language = Arc::new(LanguageDef { name: "rust".to_string(), grammar: Some(grammar.clone()) });
    let tree = parse_text(&grammar, &BufferSnapshot::new(0, Vec::new()), None, &Vec::new()).unwrap();
    let layer = |depth, range| SyntaxLayer { depth, range, tree: tree.clone(), language: language.clone() };
    let mut layers = vec![layer(0, AnchorRange::all())];
    layers.extend((0..20).map(|k| layer(1, range(10 * k, 10 * k + 5))));
    layers.extend((0..20).map(|k| layer(2, range(10 * k + 1, 10 * k + 3))));
    layers
}

fn extents(layers: &[SyntaxLayer]) -> Vec<(usize, AnchorRange)> {
    layers.iter().map(|layer| (layer.depth, layer.range)).collect()
}

fn walk<T: SeekTarget>(layers: &Vec<SyntaxLayer>, target: &T) -> (Vec<(usize, AnchorRange)>, SyntaxLayerSummary) {
    let mut cursor = Cursor::new(layers);
    let passed = cursor.slice(target);
    (extents(&passed), *cursor.start())
}

fn seek<T: SeekTarget + Copy>(tree: &SumTree<TreeLayer>, target: &T) -> (Vec<(usize, AnchorRange)>, SyntaxLayerSummary) {
    let mut cursor = tree.cursor::<TreeSummary>(());
    let passed = cursor.slice(&TreeTarget(*target), zed_sum_tree::Bias::Left);
    let passed = passed.iter().map(|layer| (layer.0.depth, layer.0.range)).collect();
    (passed, cursor.start().0)
}

#[test]
fn the_walk_passes_what_a_search_tree_over_the_same_layers_passes() {
    let layers = ordered_layers();
    let tree = SumTree::from_iter(layers.iter().map(|layer| TreeLayer(layer.clone())), ());
    assert_eq!(tree.summary().0, {
        let mut cursor = Cursor::new(&layers);
        cursor.suffix();
        *cursor.start()
    });

    let mut compared = 0;
    for depth in 0..4 {
        for start in (0..230).step_by(5) {
            for width in [0, 2, 5, 7] {
                let target = DepthAndRange(depth, range(start, start + width));
                if target.compare(&SyntaxLayerSummary::default()) == Order::Less {
                    continue;
                }
                assert_eq!(walk(&layers, &target), seek(&tree, &target));
                let position = DepthAndMaxPosition(depth, left(start + width));
                assert_eq!(walk(&layers, &position), seek(&tree, &position));
                for change in [0, 42, 95, 150, 1000] {
                    let either = DepthAndRangeOrMaxPosition(depth, range(start, start + width), left(change));
                    assert_eq!(walk(&layers, &either), seek(&tree, &either));
                    compared += 1;
                }
            }
        }
    }
    assert_eq!(compared, 4 * 46 * 4 * 5);
}

#[test]
fn the_walk_and_the_search_tree_agree_on_where_a_layer_belongs() {
    let layers = ordered_layers();
    let tree = SumTree::from_iter(layers.iter().map(|layer| TreeLayer(layer.clone())), ());
    let target = DepthAndRange(1, range(70, 75));
    let (passed, start) = walk(&layers, &target);
    assert_eq!(passed.len(), 8);
    assert_eq!(passed[7], (1, range(60, 65)));
    assert_eq!(start.last_layer_range, range(60, 65));
    assert_eq!(start.range, range(0, 65));
    assert_eq!(seek(&tree, &target), (passed, start));
}
