use syntax_map::position::{Anchor, AnchorRange, Bias, Order};
use syntax_map::summary::{
    DepthAndMaxPosition, DepthAndRange, DepthAndRangeOrMaxPosition, SeekTarget, SyntaxLayerSummary,
};

fn left(offset: usize) -> Anchor {
    Anchor { offset, bias: Bias::Left }
}

fn right(offset: usize) -> Anchor {
    Anchor { offset, bias: Bias::Right }
}

fn range(start: usize, end: usize) -> AnchorRange {
    AnchorRange { start: left(start), end: right(end) }
}

fn summary(max_depth: usize, hull: AnchorRange, last: AnchorRange) -> SyntaxLayerSummary {
    SyntaxLayerSummary { max_depth, range: hull, last_layer_range: last }
}

#[test]
fn the_summary_of_nothing_has_an_empty_hull_and_an_all_covering_last_range() {
    let empty = SyntaxLayerSummary::default();
    assert_eq!(empty.max_depth, 0);
    assert_eq!(empty.range, AnchorRange { start: Anchor::max(), end: Anchor::min() });
    assert_eq!(empty.last_layer_range, AnchorRange { start: Anchor::min(), end: Anchor::max() });
    assert_eq!(AnchorRange::nothing(), empty.range);
    assert_eq!(AnchorRange::all(), empty.last_layer_range);
}

#[test]
fn adding_to_the_summary_of_nothing_gives_what_was_added() {
    let mut sum = SyntaxLayerSummary::default();
    let one = summary(0, range(3, 9), range(3, 9));
    sum.add_summary(&one);
    assert_eq!(sum, one);
}

#[test]
fn a_deeper_summary_replaces_the_one_before() {
    let mut sum = summary(1, range(0, 100), range(40, 100));
    let deeper = summary(2, range(5, 8), range(6, 8));
    sum.add_summary(&deeper);
    assert_eq!(sum, deeper);
}

#[test]
fn summaries_of_one_depth_join_their_hulls() {
    let mut sum = summary(1, range(10, 20), range(10, 20));
    sum.add_summary(&summary(1, range(30, 45), range(40, 45)));
    assert_eq!(sum, summary(1, range(10, 45), range(40, 45)));

    let mut sum = summary(1, range(10, 20), range(10, 20));
    sum.add_summary(&summary(1, range(5, 15), range(12, 15)));
    assert_eq!(sum, summary(1, range(5, 20), range(12, 15)));
}

#[test]
fn a_shallower_summary_joins_the_hull_but_not_the_depth() {
    let mut sum = summary(2, range(10, 20), range(10, 20));
    sum.add_summary(&summary(1, range(0, 50), range(0, 50)));
    assert_eq!(sum, summary(2, range(0, 50), range(0, 50)));
}

#[test]
fn joining_is_not_symmetric() {
    let a = summary(1, range(10, 20), range(10, 20));
    let b = summary(2, range(12, 14), range(12, 14));
    let mut ab = a;
    ab.add_summary(&b);
    let mut ba = b;
    ba.add_summary(&a);
    assert_eq!(ab, b);
    assert_eq!(ba, summary(2, range(10, 20), range(10, 20)));
}

#[test]
fn depth_and_range_orders_by_depth_then_start_then_end_reversed() {
    let at = summary(1, range(0, 90), range(40, 60));
    assert_eq!(DepthAndRange(0, range(70, 80)).compare(&at), Order::Less);
    assert_eq!(DepthAndRange(2, range(0, 1)).compare(&at), Order::Greater);
    assert_eq!(DepthAndRange(1, range(39, 99)).compare(&at), Order::Less);
    assert_eq!(DepthAndRange(1, range(41, 42)).compare(&at), Order::Greater);
    assert_eq!(DepthAndRange(1, range(40, 60)).compare(&at), Order::Equal);
    assert_eq!(DepthAndRange(1, range(40, 70)).compare(&at), Order::Less);
    assert_eq!(DepthAndRange(1, range(40, 50)).compare(&at), Order::Greater);
}

#[test]
fn the_first_seek_matches_the_summary_of_nothing() {
    let empty = SyntaxLayerSummary::default();
    assert_eq!(DepthAndRange(0, AnchorRange::all()).compare(&empty), Order::Equal);
    assert_eq!(DepthAndRange(0, range(0, 10)).compare(&empty), Order::Greater);
    assert_eq!(DepthAndRange(1, AnchorRange::all()).compare(&empty), Order::Greater);
}

#[test]
fn depth_and_max_position_orders_by_depth_then_by_the_end_of_the_hull() {
    let at = summary(1, range(0, 90), range(40, 60));
    assert_eq!(DepthAndMaxPosition(0, left(200)).compare(&at), Order::Less);
    assert_eq!(DepthAndMaxPosition(2, left(0)).compare(&at), Order::Greater);
    assert_eq!(DepthAndMaxPosition(1, left(90)).compare(&at), Order::Less);
    assert_eq!(DepthAndMaxPosition(1, right(90)).compare(&at), Order::Equal);
    assert_eq!(DepthAndMaxPosition(1, left(91)).compare(&at), Order::Greater);
}

#[test]
fn depth_and_range_or_max_position_goes_on_while_the_position_is_ahead() {
    let at = summary(1, range(0, 90), range(40, 60));
    let target = |d, r, p| DepthAndRangeOrMaxPosition(d, r, p).compare(&at);
    assert_eq!(target(0, range(70, 80), left(200)), Order::Less);
    assert_eq!(target(2, range(0, 1), left(0)), Order::Greater);
    // The position is beyond the hull: greater, whatever the range.
    assert_eq!(target(1, range(0, 1), left(91)), Order::Greater);
    assert_eq!(target(1, range(40, 60), Anchor::max()), Order::Greater);
    // The position is within the hull: the range decides.
    assert_eq!(target(1, range(40, 60), right(90)), Order::Equal);
    assert_eq!(target(1, range(40, 60), left(10)), Order::Equal);
    assert_eq!(target(1, range(39, 60), left(10)), Order::Less);
    assert_eq!(target(1, range(41, 60), left(10)), Order::Greater);
    assert_eq!(target(1, range(40, 61), left(10)), Order::Less);
    assert_eq!(target(1, range(40, 59), left(10)), Order::Greater);
}

#[test]
fn orders_say_whether_they_are_greater() {
    assert!(Order::Greater.is_gt());
    assert!(!Order::Equal.is_gt());
    assert!(!Order::Less.is_gt());
    assert!(!Order::Greater.is_le());
    assert!(Order::Equal.is_le());
    assert!(Order::Less.is_le());
}
