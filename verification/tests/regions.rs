use syntax_map::position::{Anchor, AnchorRange, Bias, Order};
use syntax_map::region::{
    first_change_start, insert_region, layer_is_changed, retain_live, ChangedRegion,
};

fn range(start: usize, end: usize) -> AnchorRange {
    AnchorRange {
        start: Anchor { offset: start, bias: Bias::Left },
        end: Anchor { offset: end, bias: Bias::Right },
    }
}

fn region(depth: usize, start: usize, end: usize) -> ChangedRegion {
    ChangedRegion { depth, range: range(start, end) }
}

#[test]
fn regions_order_by_depth_then_start_then_end_reversed() {
    assert_eq!(region(1, 50, 60).compare(&region(2, 0, 1)), Order::Less);
    assert_eq!(region(2, 0, 1).compare(&region(1, 50, 60)), Order::Greater);
    assert_eq!(region(1, 10, 20).compare(&region(1, 11, 12)), Order::Less);
    assert_eq!(region(1, 10, 30).compare(&region(1, 10, 20)), Order::Less);
    assert_eq!(region(1, 10, 20).compare(&region(1, 10, 30)), Order::Greater);
    assert_eq!(region(1, 10, 20).compare(&region(1, 10, 20)), Order::Equal);
}

#[test]
fn regions_are_kept_in_order_and_none_twice() {
    let mut regions = Vec::new();
    insert_region(&mut regions, region(2, 5, 9));
    insert_region(&mut regions, region(1, 30, 40));
    insert_region(&mut regions, region(1, 10, 20));
    insert_region(&mut regions, region(1, 10, 25));
    insert_region(&mut regions, region(1, 30, 40));
    insert_region(&mut regions, region(3, 0, 1));
    assert_eq!(
        regions,
        vec![
            region(1, 10, 25),
            region(1, 10, 20),
            region(1, 30, 40),
            region(2, 5, 9),
            region(3, 0, 1),
        ]
    );
}

#[test]
fn the_first_change_starts_at_the_greatest_anchor_when_nothing_changed() {
    let mut regions = Vec::new();
    assert_eq!(first_change_start(&regions), Anchor::max());
    insert_region(&mut regions, region(1, 30, 40));
    insert_region(&mut regions, region(1, 10, 20));
    assert_eq!(first_change_start(&regions), Anchor { offset: 10, bias: Bias::Left });
}

#[test]
fn regions_are_dropped_when_not_deeper_and_not_reaching_beyond_the_start() {
    let mut regions = vec![
        region(0, 0, 100),
        region(1, 10, 20),
        region(1, 10, 30),
        region(1, 40, 50),
        region(2, 0, 5),
    ];
    retain_live(&mut regions, 1, &Anchor { offset: 30, bias: Bias::Left });
    assert_eq!(regions, vec![region(0, 0, 100), region(1, 10, 30), region(1, 40, 50), region(2, 0, 5)]);

    retain_live(&mut regions, 1, &Anchor { offset: 30, bias: Bias::Right });
    assert_eq!(regions, vec![region(0, 0, 100), region(1, 40, 50), region(2, 0, 5)]);

    retain_live(&mut regions, 2, &Anchor::max());
    assert_eq!(regions, Vec::new());
}

#[test]
fn a_layer_is_changed_by_a_region_of_its_depth_that_overlaps_it() {
    let regions = vec![region(1, 10, 20), region(2, 0, 100)];
    assert!(layer_is_changed(1, &range(15, 30), &regions));
    assert!(layer_is_changed(1, &range(0, 11), &regions));
    assert!(layer_is_changed(1, &range(12, 13), &regions));
    assert!(layer_is_changed(2, &range(50, 60), &regions));
    // Other depths are not concerned.
    assert!(!layer_is_changed(0, &range(0, 100), &regions));
    assert!(!layer_is_changed(3, &range(0, 100), &regions));
    // Clear of the region.
    assert!(!layer_is_changed(1, &range(21, 30), &regions));
    assert!(!layer_is_changed(1, &range(0, 9), &regions));
    assert!(!layer_is_changed(1, &range(0, 5), &Vec::new()));
}

#[test]
fn touching_at_an_edge_counts_only_across_the_sides_of_the_anchors() {
    let regions = vec![region(1, 10, 20)];
    // The layer ends at 10 keeping right, the region starts at 10 keeping
    // left: the region starts in front of the layer's end.
    assert!(layer_is_changed(1, &range(0, 10), &regions));
    assert!(layer_is_changed(1, &range(20, 30), &regions));
    let tight = AnchorRange {
        start: Anchor { offset: 20, bias: Bias::Right },
        end: Anchor { offset: 30, bias: Bias::Right },
    };
    assert!(!layer_is_changed(1, &tight, &regions));
}
