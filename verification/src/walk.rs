//! The walk through the old layers of an index while a new one is built:
//! which of them are kept, and which changed regions are remembered.

use crate::layer::{
    depth_sorted, lemma_seek_end_bounds, lemma_summary_depth, seek_end, summary_of, Cursor,
    SyntaxLayer,
};
use crate::position::{Anchor, AnchorRange, Order};
use crate::region::{
    first_change_start, insert_region, layer_is_changed, lemma_with_region_sorted, regions_sorted,
    retain_live, with_region, ChangedRegion,
};
use crate::summary::{DepthAndRange, DepthAndRangeOrMaxPosition, SeekTarget};
use vstd::prelude::*;

verus! {

/// How far a reparse has come: how many of the old layers it has passed,
/// the layers of the new index so far, and the regions known to have
/// changed.
pub struct Walk {
    pub position: int,
    pub layers: Seq<SyntaxLayer>,
    pub regions: Seq<ChangedRegion>,
}

/// Whether one of `regions` concerns `layer`.
pub open spec fn layer_touched(layer: SyntaxLayer, regions: Seq<ChangedRegion>) -> bool {
    exists|k: int| 0 <= k < regions.len() && (#[trigger] regions[k]).touches(layer.depth, layer.range)
}

/// The regions once it is noted that `layer` has changed: its range is a
/// changed region for the layers one level deeper.
pub open spec fn child_region_noted(regions: Seq<ChangedRegion>, layer: SyntaxLayer) -> Seq<
    ChangedRegion,
> {
    if layer.depth < usize::MAX {
        with_region(regions, ChangedRegion { depth: (layer.depth + 1) as usize, range: layer.range })
    } else {
        regions
    }
}

/// The walk after it has gone, layer by layer, through the old layers that
/// lie in front of `target`: a layer that a changed region touches is left
/// out of the new index and noted as changed, any other is kept.
pub open spec fn walked(old: Seq<SyntaxLayer>, target: DepthAndRange, walk: Walk) -> Walk
    decreases old.len() - walk.position,
{
    if walk.position < 0 || walk.position >= old.len() || target.order(
        summary_of(old.take(walk.position + 1)),
    ) != Order::Greater {
        walk
    } else {
        let layer = old[walk.position];
        if layer_touched(layer, walk.regions) {
            walked(
                old,
                target,
                Walk {
                    position: walk.position + 1,
                    layers: walk.layers,
                    regions: child_region_noted(walk.regions, layer),
                },
            )
        } else {
            walked(
                old,
                target,
                Walk {
                    position: walk.position + 1,
                    layers: walk.layers.push(layer),
                    regions: walk.regions,
                },
            )
        }
    }
}

/// The walk after it has been brought up to the place of a layer of the
/// given depth and range. Nothing happens where the walk is there already.
/// Otherwise the cursor is sent to that place or to the first changed
/// region, whichever lies further on, and the old layers that it passes are
/// kept as they are; what is then left of the way to the place is gone
/// layer by layer; and the changed regions that are of no more use are
/// dropped.
pub open spec fn advanced(old: Seq<SyntaxLayer>, depth: usize, range: AnchorRange, walk: Walk) -> Walk {
    let target = DepthAndRange(depth, range);
    if target.order(summary_of(old.take(walk.position))) == Order::Greater {
        let change_start = if walk.regions.len() > 0 {
            walk.regions[0].range.start
        } else {
            Anchor::spec_max()
        };
        let to = seek_end(old, walk.position, DepthAndRangeOrMaxPosition(depth, range, change_start));
        let gone = walked(
            old,
            target,
            Walk {
                position: to,
                layers: walk.layers + old.subrange(walk.position, to),
                regions: walk.regions,
            },
        );
        Walk {
            position: gone.position,
            layers: gone.layers,
            regions: gone.regions.filter(|r: ChangedRegion| r.outlives(depth, range.start)),
        }
    } else {
        walk
    }
}

/// Where a cursor comes to rest that was sent to the place of a layer or to
/// the first changed region, whichever is further on, the place of the layer
/// is reached.
pub proof fn lemma_seek_reaches_target(
    old: Seq<SyntaxLayer>,
    from: int,
    depth: usize,
    range: AnchorRange,
    change_start: Anchor,
)
    requires
        0 <= from <= old.len(),
    ensures
        ({
            let to = seek_end(old, from, DepthAndRangeOrMaxPosition(depth, range, change_start));
            to < old.len() ==> DepthAndRange(depth, range).order(summary_of(old.take(to + 1)))
                != Order::Greater
        }),
    decreases old.len() - from,
{
    let seek = DepthAndRangeOrMaxPosition(depth, range, change_start);
    if from < old.len() && seek.order(summary_of(old.take(from + 1))) == Order::Greater {
        lemma_seek_end_bounds(old, from + 1, seek);
        lemma_seek_reaches_target(old, from + 1, depth, range, change_start);
    }
}

/// Bringing the walk up to the place of a layer keeps the old layers that
/// the cursor passes on its way to where it rests, and drops the changed
/// regions that are of no more use. The cursor rests where the place of the
/// layer is reached, so that nothing is left to go through layer by layer.
pub proof fn lemma_advanced_by_seek(old: Seq<SyntaxLayer>, depth: usize, range: AnchorRange, walk: Walk)
    requires
        0 <= walk.position <= old.len(),
        DepthAndRange(depth, range).order(summary_of(old.take(walk.position))) == Order::Greater,
    ensures
        ({
            let change_start = if walk.regions.len() > 0 {
                walk.regions[0].range.start
            } else {
                Anchor::spec_max()
            };
            let to = seek_end(
                old,
                walk.position,
                DepthAndRangeOrMaxPosition(depth, range, change_start),
            );
            advanced(old, depth, range, walk) == (Walk {
                position: to,
                layers: walk.layers + old.subrange(walk.position, to),
                regions: walk.regions.filter(|r: ChangedRegion| r.outlives(depth, range.start)),
            })
        }),
{
    let change_start = if walk.regions.len() > 0 {
        walk.regions[0].range.start
    } else {
        Anchor::spec_max()
    };
    let seek = DepthAndRangeOrMaxPosition(depth, range, change_start);
    lemma_seek_reaches_target(old, walk.position, depth, range, change_start);
    lemma_seek_end_bounds(old, walk.position, seek);
}

/// The walk stays within the old layers.
pub proof fn lemma_walked_bounds(old: Seq<SyntaxLayer>, target: DepthAndRange, walk: Walk)
    requires
        0 <= walk.position <= old.len(),
    ensures
        walk.position <= walked(old, target, walk).position <= old.len(),
    decreases old.len() - walk.position,
{
    if walk.position < old.len() && target.order(summary_of(old.take(walk.position + 1)))
        == Order::Greater {
        let layer = old[walk.position];
        if layer_touched(layer, walk.regions) {
            lemma_walked_bounds(
                old,
                target,
                Walk {
                    position: walk.position + 1,
                    layers: walk.layers,
                    regions: child_region_noted(walk.regions, layer),
                },
            );
        } else {
            lemma_walked_bounds(
                old,
                target,
                Walk {
                    position: walk.position + 1,
                    layers: walk.layers.push(layer),
                    regions: walk.regions,
                },
            );
        }
    }
}

/// Brings the cursor through the old layers up to the place of a layer of
/// the given depth and range, and adds to `layers` the old layers that are
/// kept on the way.
pub fn advance(
    cursor: &mut Cursor,
    layers: &mut Vec<SyntaxLayer>,
    regions: &mut Vec<ChangedRegion>,
    depth: usize,
    range: &AnchorRange,
)
    ensures
        final(cursor).layers() == old(cursor).layers(),
        0 <= old(cursor).position() <= final(cursor).position() <= old(cursor).layers().len(),
        (Walk {
            position: final(cursor).position(),
            layers: final(layers)@,
            regions: final(regions)@,
        }) == advanced(
            old(cursor).layers(),
            depth,
            *range,
            Walk { position: old(cursor).position(), layers: old(layers)@, regions: old(regions)@ },
        ),
{
    let ghost old_layers = cursor.layers();
    let target = DepthAndRange(depth, *range);
    let at_start = cursor.item();
    if !target.compare(cursor.start()).is_gt() {
        return ;
    }
    let seek = DepthAndRangeOrMaxPosition(depth, *range, first_change_start(regions));
    let mut passed = cursor.slice(&seek);
    layers.append(&mut passed);
    let ghost sliced = Walk { position: cursor.position(), layers: layers@, regions: regions@ };
    loop
        invariant
            cursor.layers() == old_layers,
            target == DepthAndRange(depth, *range),
            old(cursor).position() <= cursor.position() <= old_layers.len(),
            walked(
                old_layers,
                target,
                Walk { position: cursor.position(), layers: layers@, regions: regions@ },
            ) == walked(old_layers, target, sliced),
        ensures
            cursor.layers() == old_layers,
            old(cursor).position() <= cursor.position() <= old_layers.len(),
            (Walk { position: cursor.position(), layers: layers@, regions: regions@ }) == walked(
                old_layers,
                target,
                sliced,
            ),
        decreases old_layers.len() - cursor.position(),
    {
        let layer = match cursor.item() {
            Some(layer) => layer,
            None => {
                break ;
            },
        };
        if target.compare(&cursor.end()).is_le() {
            break ;
        }
        if layer_is_changed(layer.depth, &layer.range, regions) {
            if layer.depth < usize::MAX {
                insert_region(
                    regions,
                    ChangedRegion { depth: layer.depth + 1, range: layer.range },
                );
            }
        } else {
            layers.push(layer.clone());
        }
        cursor.next();
    }
    retain_live(regions, depth, &range.start);
}

/// A walk only adds to the layers that it has kept, and what it adds are
/// old layers.
pub proof fn lemma_walked_keeps(old: Seq<SyntaxLayer>, target: DepthAndRange, walk: Walk)
    requires
        0 <= walk.position <= old.len(),
    ensures
        walk.layers.is_prefix_of(walked(old, target, walk).layers),
        forall|l: SyntaxLayer| #[trigger]
            walked(old, target, walk).layers.contains(l) ==> walk.layers.contains(l)
                || old.contains(l),
    decreases old.len() - walk.position,
{
    if walk.position < old.len() && target.order(summary_of(old.take(walk.position + 1)))
        == Order::Greater {
        let layer = old[walk.position];
        if layer_touched(layer, walk.regions) {
            lemma_walked_keeps(
                old,
                target,
                Walk {
                    position: walk.position + 1,
                    layers: walk.layers,
                    regions: child_region_noted(walk.regions, layer),
                },
            );
        } else {
            let next = Walk {
                position: walk.position + 1,
                layers: walk.layers.push(layer),
                regions: walk.regions,
            };
            lemma_walked_keeps(old, target, next);
            assert forall|l: SyntaxLayer| #[trigger]
                walked(old, target, walk).layers.contains(l) implies walk.layers.contains(l)
                || old.contains(l) by {
                if next.layers.contains(l) {
                    let k = choose|k: int| 0 <= k < next.layers.len() && next.layers[k] == l;
                    if k < walk.layers.len() {
                        assert(walk.layers[k] == l);
                    } else {
                        assert(old[walk.position] == l);
                    }
                }
            }
        }
    }
}

/// Bringing the walk up to a place only adds to the layers that it has
/// kept, and what it adds are old layers.
pub proof fn lemma_advanced_keeps(old: Seq<SyntaxLayer>, depth: usize, range: AnchorRange, walk: Walk)
    requires
        0 <= walk.position <= old.len(),
    ensures
        walk.layers.is_prefix_of(advanced(old, depth, range, walk).layers),
        forall|l: SyntaxLayer| #[trigger]
            advanced(old, depth, range, walk).layers.contains(l) ==> walk.layers.contains(l)
                || old.contains(l),
        walk.position <= advanced(old, depth, range, walk).position <= old.len(),
{
    let target = DepthAndRange(depth, range);
    if target.order(summary_of(old.take(walk.position))) == Order::Greater {
        let change_start = if walk.regions.len() > 0 {
            walk.regions[0].range.start
        } else {
            Anchor::spec_max()
        };
        let seek = DepthAndRangeOrMaxPosition(depth, range, change_start);
        let to = seek_end(old, walk.position, seek);
        lemma_seek_end_bounds(old, walk.position, seek);
        let sliced = Walk {
            position: to,
            layers: walk.layers + old.subrange(walk.position, to),
            regions: walk.regions,
        };
        lemma_walked_keeps(old, target, sliced);
        lemma_walked_bounds(old, target, sliced);
        assert forall|l: SyntaxLayer| #[trigger]
            advanced(old, depth, range, walk).layers.contains(l) implies walk.layers.contains(l)
            || old.contains(l) by {
            if sliced.layers.contains(l) {
                let k = choose|k: int| 0 <= k < sliced.layers.len() && sliced.layers[k] == l;
                if k < walk.layers.len() {
                    assert(walk.layers[k] == l);
                } else {
                    assert(old[walk.position + (k - walk.layers.len())] == l);
                }
            }
        }
    }
}

/// A walk keeps the list of changed regions sorted.
pub proof fn lemma_walked_regions_sorted(old: Seq<SyntaxLayer>, target: DepthAndRange, walk: Walk)
    requires
        regions_sorted(walk.regions),
    ensures
        regions_sorted(walked(old, target, walk).regions),
    decreases old.len() - walk.position,
{
    if 0 <= walk.position < old.len() && target.order(summary_of(old.take(walk.position + 1)))
        == Order::Greater {
        let layer = old[walk.position];
        if layer_touched(layer, walk.regions) {
            if layer.depth < usize::MAX {
                lemma_with_region_sorted(
                    walk.regions,
                    ChangedRegion { depth: (layer.depth + 1) as usize, range: layer.range },
                );
            }
            lemma_walked_regions_sorted(
                old,
                target,
                Walk {
                    position: walk.position + 1,
                    layers: walk.layers,
                    regions: child_region_noted(walk.regions, layer),
                },
            );
        } else {
            lemma_walked_regions_sorted(
                old,
                target,
                Walk {
                    position: walk.position + 1,
                    layers: walk.layers.push(layer),
                    regions: walk.regions,
                },
            );
        }
    }
}

/// The layers that a cursor passes on its way to the place of a layer of
/// `depth`, or to the first changed region, are at most that deep. Where the
/// old layers are in order of depth, the layer at which the cursor rests
/// is at least that deep.
pub proof fn lemma_seek_by_depth(
    old: Seq<SyntaxLayer>,
    from: int,
    depth: usize,
    range: AnchorRange,
    change_start: Anchor,
)
    requires
        0 <= from <= old.len(),
    ensures
        ({
            let to = seek_end(old, from, DepthAndRangeOrMaxPosition(depth, range, change_start));
            &&& from <= to <= old.len()
            &&& forall|k: int| from <= k < to ==> (#[trigger] old[k]).depth <= depth
            &&& to < old.len() && depth_sorted(old) ==> old[to].depth >= depth
        }),
    decreases old.len() - from,
{
    let seek = DepthAndRangeOrMaxPosition(depth, range, change_start);
    if from < old.len() {
        let upto = old.take(from + 1);
        lemma_summary_depth(upto);
        assert(upto[from] == old[from]);
        if depth_sorted(old) {
            assert(depth_sorted(upto)) by {
                assert forall|i: int, j: int| 0 <= i <= j < upto.len() implies (
                #[trigger] upto[i]).depth <= (#[trigger] upto[j]).depth by {
                    assert(upto[i] == old[i]);
                    assert(upto[j] == old[j]);
                }
            }
        }
        if seek.order(summary_of(upto)) == Order::Greater {
            lemma_seek_by_depth(old, from + 1, depth, range, change_start);
        }
    }
}

/// Bringing the walk up to the place of a layer of `depth` keeps it in
/// order of depth.
pub proof fn lemma_advanced_by_depth(
    old: Seq<SyntaxLayer>,
    depth: usize,
    range: AnchorRange,
    walk: Walk,
    reached: usize,
)
    requires
        depth_sorted(old),
        reached <= depth,
        0 <= walk.position <= old.len(),
        depth_sorted(walk.layers),
        forall|k: int| 0 <= k < walk.layers.len() ==> (#[trigger] walk.layers[k]).depth <= reached,
        walk.position < old.len() ==> old[walk.position].depth >= reached,
    ensures
        ({
            let at = advanced(old, depth, range, walk);
            &&& walk.position <= at.position <= old.len()
            &&& depth_sorted(at.layers)
            &&& forall|k: int| 0 <= k < at.layers.len() ==> (#[trigger] at.layers[k]).depth <= depth
            &&& at.position < old.len() ==> old[at.position].depth >= depth
        }),
{
    let target = DepthAndRange(depth, range);
    let passed = old.take(walk.position);
    lemma_summary_depth(passed);
    if target.order(summary_of(passed)) == Order::Greater {
        lemma_advanced_by_seek(old, depth, range, walk);
        let change_start = if walk.regions.len() > 0 {
            walk.regions[0].range.start
        } else {
            Anchor::spec_max()
        };
        lemma_seek_by_depth(old, walk.position, depth, range, change_start);
        let to = seek_end(
            old,
            walk.position,
            DepthAndRangeOrMaxPosition(depth, range, change_start),
        );
        let layers = walk.layers + old.subrange(walk.position, to);
        assert forall|i: int, j: int| 0 <= i <= j < layers.len() implies (
        #[trigger] layers[i]).depth <= (#[trigger] layers[j]).depth by {
            let n = walk.layers.len();
            if j < n {
                assert(layers[i] == walk.layers[i]);
                assert(layers[j] == walk.layers[j]);
            } else if i < n {
                assert(layers[i] == walk.layers[i]);
                assert(layers[j] == old[walk.position + (j - n)]);
                assert(old[walk.position].depth <= old[walk.position + (j - n)].depth);
            } else {
                assert(layers[i] == old[walk.position + (i - n)]);
                assert(layers[j] == old[walk.position + (j - n)]);
            }
        }
        assert forall|k: int| 0 <= k < layers.len() implies (#[trigger] layers[k]).depth
            <= depth by {
            let n = walk.layers.len();
            if k < n {
                assert(layers[k] == walk.layers[k]);
            } else {
                assert(layers[k] == old[walk.position + (k - n)]);
            }
        }
    } else {
        if walk.position > 0 && walk.position < old.len() {
            assert(depth_sorted(passed)) by {
                assert forall|i: int, j: int| 0 <= i <= j < passed.len() implies (
                #[trigger] passed[i]).depth <= (#[trigger] passed[j]).depth by {
                    assert(passed[i] == old[i]);
                    assert(passed[j] == old[j]);
                }
            }
            assert(passed.last() == old[walk.position - 1]);
            assert(old[walk.position - 1].depth <= old[walk.position].depth);
        }
    }
}

} // verus!
