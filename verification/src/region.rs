//! The regions of the buffer that are known to have changed, by depth.

use crate::position::{compare_usize, order_of, Anchor, AnchorRange, Order};
use vstd::prelude::*;

verus! {

/// A stretch of the buffer whose content changed, for the layers of one
/// depth to take note of.
#[derive(Clone, Copy, Debug, PartialEq, Eq, Structural)]
pub struct ChangedRegion {
    pub depth: usize,
    pub range: AnchorRange,
}

impl ChangedRegion {
    /// The order of the list of regions: by depth, then by start, then by
    /// end, wider first.
    pub open spec fn order(self, other: ChangedRegion) -> Order {
        order_of(self.depth as int, other.depth as int).or(
            self.range.start.spec_compare(other.range.start),
        ).or(other.range.end.spec_compare(self.range.end))
    }

    /// Compares two regions in the order of the list of regions.
    pub fn compare(&self, other: &ChangedRegion) -> (r: Order)
        ensures
            r == self.order(*other),
    {
        match compare_usize(self.depth, other.depth) {
            Order::Equal => match self.range.start.compare(&other.range.start) {
                Order::Equal => other.range.end.compare(&self.range.end),
                by_start => by_start,
            },
            by_depth => by_depth,
        }
    }

    /// Whether the region concerns a layer of the given depth and range: it
    /// is of that depth, and the two overlap by more than an edge.
    pub open spec fn touches(self, depth: usize, range: AnchorRange) -> bool {
        self.depth == depth && range.start.lt(self.range.end) && self.range.start.lt(range.end)
    }

    /// Whether the region is still of use once the layers of `depth` in
    /// front of `start` are done with: it is deeper, or it reaches beyond
    /// `start`.
    pub open spec fn outlives(self, depth: usize, start: Anchor) -> bool {
        self.depth > depth || start.lt(self.range.end)
    }
}

/// Two regions compare as equal only if they are the same.
pub proof fn lemma_order_equal(a: ChangedRegion, b: ChangedRegion)
    ensures
        a.order(b) == Order::Equal <==> a == b,
{
}

/// The order of regions is transitive, and turns round with its arguments.
pub proof fn lemma_order_transitive(a: ChangedRegion, b: ChangedRegion, c: ChangedRegion)
    ensures
        a.order(b) == Order::Less && b.order(c) != Order::Greater ==> a.order(c) == Order::Less,
        a.order(b) != Order::Greater && b.order(c) == Order::Less ==> a.order(c) == Order::Less,
        a.order(b) == Order::Less <==> b.order(a) == Order::Greater,
{
}

/// Whether each region of the list comes strictly before those behind it.
pub open spec fn regions_sorted(regions: Seq<ChangedRegion>) -> bool {
    forall|i: int, j: int|
        0 <= i < j < regions.len() ==> (#[trigger] regions[i]).order(#[trigger] regions[j])
            == Order::Less
}

/// The number of regions at the head of the list that come strictly before
/// `region`.
pub open spec fn regions_before(regions: Seq<ChangedRegion>, region: ChangedRegion) -> int
    decreases regions.len(),
{
    if regions.len() == 0 || regions.first().order(region) != Order::Less {
        0
    } else {
        1 + regions_before(regions.drop_first(), region)
    }
}

/// The list with `region` put in at its place, unless it is there already.
pub open spec fn with_region(regions: Seq<ChangedRegion>, region: ChangedRegion) -> Seq<
    ChangedRegion,
> {
    let at = regions_before(regions, region);
    if at < regions.len() && regions[at] == region {
        regions
    } else {
        regions.insert(at, region)
    }
}

/// The number of leading regions in front of `region` lies within the list;
/// those regions come before `region`, and the one behind them does not.
pub proof fn lemma_regions_before(regions: Seq<ChangedRegion>, region: ChangedRegion)
    ensures
        0 <= regions_before(regions, region) <= regions.len(),
        forall|k: int|
            0 <= k < regions_before(regions, region) ==> (#[trigger] regions[k]).order(region)
                == Order::Less,
        regions_before(regions, region) < regions.len() ==> regions[regions_before(
            regions,
            region,
        )].order(region) != Order::Less,
    decreases regions.len(),
{
    if regions.len() > 0 && regions.first().order(region) == Order::Less {
        let rest = regions.drop_first();
        lemma_regions_before(rest, region);
        assert forall|k: int| 0 <= k < regions_before(regions, region) implies (
        #[trigger] regions[k]).order(region) == Order::Less by {
            if k > 0 {
                assert(regions[k] == rest[k - 1]);
            }
        }
        if regions_before(regions, region) < regions.len() {
            assert(regions[regions_before(regions, region)] == rest[regions_before(rest, region)]);
        }
    }
}

/// Putting a region into a sorted list leaves it sorted, and the list then
/// holds the region and what it held before, nothing else.
pub proof fn lemma_with_region_sorted(regions: Seq<ChangedRegion>, region: ChangedRegion)
    requires
        regions_sorted(regions),
    ensures
        regions_sorted(with_region(regions, region)),
        forall|r: ChangedRegion|
            with_region(regions, region).contains(r) <==> (regions.contains(r) || r == region),
{
    let at = regions_before(regions, region);
    let out = with_region(regions, region);
    lemma_regions_before(regions, region);
    if at < regions.len() && regions[at] == region {
        assert forall|r: ChangedRegion| out.contains(r) <==> (regions.contains(r) || r
            == region) by {
            if r == region {
                assert(regions[at] == r);
            }
        }
    } else {
        assert forall|i: int, j: int| 0 <= i < j < out.len() implies (#[trigger] out[i]).order(
            #[trigger] out[j],
        ) == Order::Less by {
            if j < at {
            } else if j == at {
                assert(out[i] == regions[i]);
            } else if i == at {
                assert(out[j] == regions[j - 1]);
                lemma_order_equal(regions[at], region);
                lemma_order_transitive(region, regions[at], regions[j - 1]);
                if j - 1 > at {
                    assert(regions[at].order(regions[j - 1]) == Order::Less);
                }
            } else if i < at {
                assert(out[i] == regions[i]);
                assert(out[j] == regions[j - 1]);
            } else {
                assert(out[i] == regions[i - 1]);
                assert(out[j] == regions[j - 1]);
            }
        }
        assert forall|r: ChangedRegion| out.contains(r) <==> (regions.contains(r) || r
            == region) by {
            if out.contains(r) {
                let k = choose|k: int| 0 <= k < out.len() && out[k] == r;
                if k < at {
                    assert(regions[k] == r);
                } else if k > at {
                    assert(regions[k - 1] == r);
                }
            }
            if regions.contains(r) {
                let k = choose|k: int| 0 <= k < regions.len() && regions[k] == r;
                if k < at {
                    assert(out[k] == r);
                } else {
                    assert(out[k + 1] == r);
                }
            }
            if r == region {
                assert(out[at] == r);
            }
        }
    }
}

/// Dropping regions from a sorted list leaves it sorted, and what stays was
/// there before.
pub proof fn lemma_filtered_sorted(regions: Seq<ChangedRegion>, keep: spec_fn(ChangedRegion) -> bool)
    requires
        regions_sorted(regions),
    ensures
        regions_sorted(regions.filter(keep)),
        forall|r: ChangedRegion| #[trigger] regions.filter(keep).contains(r) ==> regions.contains(r),
    decreases regions.len(),
{
    reveal(Seq::filter);
    if regions.len() > 0 {
        let earlier = regions.drop_last();
        let last = regions.last();
        assert forall|i: int, j: int| 0 <= i < j < earlier.len() implies (
        #[trigger] earlier[i]).order(#[trigger] earlier[j]) == Order::Less by {
            assert(earlier[i] == regions[i]);
            assert(earlier[j] == regions[j]);
        }
        lemma_filtered_sorted(earlier, keep);
        let kept = earlier.filter(keep);
        let out = regions.filter(keep);
        assert forall|r: ChangedRegion| #[trigger] out.contains(r) implies regions.contains(r) by {
            let k = choose|k: int| 0 <= k < out.len() && out[k] == r;
            if k < kept.len() {
                assert(kept[k] == r);
                assert(kept.contains(r));
                let m = choose|m: int| 0 <= m < earlier.len() && earlier[m] == r;
                assert(regions[m] == r);
            } else {
                assert(regions[regions.len() - 1] == r);
            }
        }
        if keep(last) {
            assert forall|i: int, j: int| 0 <= i < j < out.len() implies (#[trigger] out[i]).order(
                #[trigger] out[j],
            ) == Order::Less by {
                if j < kept.len() {
                    assert(out[i] == kept[i]);
                    assert(out[j] == kept[j]);
                } else {
                    assert(out[i] == kept[i]);
                    assert(kept.contains(kept[i]));
                    let m = choose|m: int| 0 <= m < earlier.len() && earlier[m] == kept[i];
                    assert(regions[m] == kept[i]);
                    assert(regions[regions.len() - 1] == last);
                }
            }
        }
    }
}

/// Puts `region` into the list at its place in the order, unless the list
/// holds it already.
pub fn insert_region(regions: &mut Vec<ChangedRegion>, region: ChangedRegion)
    ensures
        final(regions)@ == with_region(old(regions)@, region),
{
    let mut i: usize = 0;
    assert(regions@.skip(0) =~= regions@);
    while i < regions.len()
        invariant
            *regions == *old(regions),
            i <= regions.len(),
            regions_before(regions@, region) == i + regions_before(
                regions@.skip(i as int),
                region,
            ),
        ensures
            i <= regions.len(),
            *regions == *old(regions),
            regions_before(regions@, region) == i,
        decreases regions.len() - i,
    {
        assert(regions@.skip(i as int).first() == regions@[i as int]);
        assert(regions@.skip(i as int).drop_first() =~= regions@.skip(i + 1));
        if regions[i].compare(&region) != Order::Less {
            break;
        }
        i += 1;
    }
    assert(regions@.skip(regions.len() as int).len() == 0);
    if i < regions.len() && regions[i].compare(&region) == Order::Equal {
        proof {
            lemma_order_equal(regions@[i as int], region);
        }
        return;
    }
    proof {
        if i < regions.len() {
            lemma_order_equal(regions@[i as int], region);
        }
    }
    regions.insert(i, region);
}

/// The start of the first region of the list, or the greatest anchor where
/// the list is empty.
pub fn first_change_start(regions: &Vec<ChangedRegion>) -> (start: Anchor)
    ensures
        start == if regions.len() > 0 {
            regions[0].range.start
        } else {
            Anchor::spec_max()
        },
{
    if regions.len() > 0 {
        regions[0].range.start
    } else {
        Anchor::max()
    }
}

/// Drops the regions that are of no more use once the layers of `depth` in
/// front of `start` are done with.
pub fn retain_live(regions: &mut Vec<ChangedRegion>, depth: usize, start: &Anchor)
    ensures
        final(regions)@ == old(regions)@.filter(|r: ChangedRegion| r.outlives(depth, *start)),
{
    let ghost keep = |r: ChangedRegion| r.outlives(depth, *start);
    let mut kept: Vec<ChangedRegion> = Vec::new();
    let mut i: usize = 0;
    proof {
        reveal(Seq::filter);
        assert(regions@.take(0) =~= Seq::<ChangedRegion>::empty());
    }
    while i < regions.len()
        invariant
            *regions == *old(regions),
            i <= regions.len(),
            keep == |r: ChangedRegion| r.outlives(depth, *start),
            kept@ == regions@.take(i as int).filter(keep),
        decreases regions.len() - i,
    {
        let region = regions[i];
        proof {
            reveal(Seq::filter);
            assert(regions@.take(i + 1).drop_last() =~= regions@.take(i as int));
            assert(regions@.take(i + 1).last() == region);
        }
        if region.depth > depth || start.compare(&region.range.end) == Order::Less {
            kept.push(region);
        }
        i += 1;
    }
    assert(regions@.take(regions.len() as int) =~= regions@);
    *regions = kept;
}

/// Whether some region of the list concerns a layer of the given depth and
/// range.
pub fn layer_is_changed(depth: usize, range: &AnchorRange, regions: &Vec<ChangedRegion>) -> (changed:
    bool)
    ensures
        changed == exists|k: int|
            0 <= k < regions.len() && (#[trigger] regions[k]).touches(depth, *range),
{
    let mut i: usize = 0;
    while i < regions.len()
        invariant
            i <= regions.len(),
            forall|k: int| 0 <= k < i ==> !(#[trigger] regions[k]).touches(depth, *range),
        decreases regions.len() - i,
    {
        let region = &regions[i];
        if region.depth == depth && range.start.compare(&region.range.end) == Order::Less
            && region.range.start.compare(&range.end) == Order::Less {
            return true;
        }
        i += 1;
    }
    false
}

} // verus!
