//! The index itself: the layers in order, and what can be asked of them.

use crate::buffer::{point_of, BufferSnapshot};
use crate::language::Grammar;
use crate::layer::{depth_sorted, ranges_in_order, trees_built, SyntaxLayer};
use crate::position::{AnchorRange, Order, Point};
use vstd::prelude::*;

verus! {

/// The layers of a buffer at one moment, least deep first and, within one
/// depth, in the order of the text.
#[derive(Debug)]
pub struct SyntaxSnapshot {
    pub(crate) layers: Vec<SyntaxLayer>,
}

impl View for SyntaxSnapshot {
    type V = Seq<SyntaxLayer>;

    open(crate) spec fn view(&self) -> Seq<SyntaxLayer> {
        self.layers@
    }
}

/// Whether a layer is shown to those who ask for layers: its language has a
/// grammar.
pub open spec fn is_shown(layer: SyntaxLayer) -> bool {
    layer.language.grammar is Some
}

/// Whether a layer's range and the range from `start` to `end` have a
/// position in common, an edge included.
pub open spec fn is_within_reach(layer: SyntaxLayer, reach: AnchorRange) -> bool {
    reach.start.le(layer.range.end) && layer.range.start.le(reach.end)
}

/// Whether `entry` is what is shown of `layer` in `text`: the grammar of its
/// language, its tree, and where it starts.
pub open spec fn shows(
    entry: (&Grammar, &tree_sitter::Tree, (usize, Point)),
    layer: SyntaxLayer,
    buffer: BufferSnapshot,
) -> bool {
    &&& layer.language.grammar is Some
    &&& *entry.0 == *layer.language.grammar.unwrap()
    &&& *entry.1 == layer.tree
    &&& entry.2.0 == buffer.offset_of(layer.range.start)
    &&& entry.2.1 == point_of(buffer.text@, buffer.offset_of(layer.range.start) as int)
}

/// What is shown of layers in a buffer is fixed by the two: two lists of
/// entries that show the same layers one by one, as the answers to the same
/// question of the same index do, are the same list.
pub proof fn lemma_shown_is_determined(
    first: Seq<(&Grammar, &tree_sitter::Tree, (usize, Point))>,
    second: Seq<(&Grammar, &tree_sitter::Tree, (usize, Point))>,
    layers: Seq<SyntaxLayer>,
    buffer: BufferSnapshot,
)
    requires
        first.len() == layers.len(),
        second.len() == layers.len(),
        forall|i: int| 0 <= i < layers.len() ==> shows(#[trigger] first[i], layers[i], buffer),
        forall|i: int| 0 <= i < layers.len() ==> shows(#[trigger] second[i], layers[i], buffer),
    ensures
        first == second,
{
    assert forall|i: int| 0 <= i < layers.len() implies first[i] == second[i] by {
        assert(shows(first[i], layers[i], buffer));
        assert(shows(second[i], layers[i], buffer));
    }
    assert(first =~= second);
}

impl SyntaxSnapshot {
    /// Whether the index is as `reparse` and `interpolate` leave it: the
    /// layers are in order of depth, least deep first; the range of each
    /// runs from an anchor that keeps to the left to one, at or behind it,
    /// that keeps to the right; and the tree of each was built under the
    /// grammar of its language.
    pub open spec fn well_formed(&self) -> bool {
        depth_sorted(self@) && ranges_in_order(self@) && trees_built(self@)
    }

    /// An index without layers.
    pub fn new() -> (snapshot: SyntaxSnapshot)
        ensures
            snapshot@ == Seq::<SyntaxLayer>::empty(),
            snapshot.well_formed(),
    {
        SyntaxSnapshot { layers: Vec::new() }
    }

    /// The number of layers.
    pub fn layer_count(&self) -> (count: usize)
        ensures
            count == self@.len(),
    {
        self.layers.len()
    }

    /// The layer at `index`.
    pub fn layer(&self, index: usize) -> (layer: &SyntaxLayer)
        requires
            index < self@.len(),
        ensures
            *layer == self@[index as int],
    {
        &self.layers[index]
    }

    /// The depth and the byte range, in `buffer`, of the layer at `index`.
    pub fn layer_extent(&self, index: usize, buffer: &BufferSnapshot) -> (extent: (
        usize,
        usize,
        usize,
    ))
        requires
            index < self@.len(),
        ensures
            extent == (
                self@[index as int].depth,
                buffer.offset_of(self@[index as int].range.start),
                buffer.offset_of(self@[index as int].range.end),
            ),
    {
        let layer = &self.layers[index];
        (layer.depth, buffer.to_offset(&layer.range.start), buffer.to_offset(&layer.range.end))
    }

    /// All layers whose language has a grammar, in index order: for each its
    /// grammar, its tree, and the byte offset and the point at which it
    /// starts in `buffer`.
    pub fn layers<'a>(&'a self, buffer: &BufferSnapshot) -> (shown: Vec<
        (&'a Grammar, &'a tree_sitter::Tree, (usize, Point)),
    >)
        ensures
            shown@.len() == self@.filter(|l: SyntaxLayer| is_shown(l)).len(),
            forall|i: int|
                0 <= i < shown@.len() ==> shows(
                    #[trigger] shown@[i],
                    self@.filter(|l: SyntaxLayer| is_shown(l))[i],
                    *buffer,
                ),
    {
        let ghost wanted = |l: SyntaxLayer| is_shown(l);
        let mut shown: Vec<(&'a Grammar, &'a tree_sitter::Tree, (usize, Point))> = Vec::new();
        let mut i: usize = 0;
        proof {
            reveal(Seq::filter);
            assert(self.layers@.take(0) =~= Seq::<SyntaxLayer>::empty());
        }
        while i < self.layers.len()
            invariant
                i <= self.layers.len(),
                wanted == |l: SyntaxLayer| is_shown(l),
                shown@.len() == self.layers@.take(i as int).filter(wanted).len(),
                forall|k: int|
                    0 <= k < shown@.len() ==> shows(
                        #[trigger] shown@[k],
                        self.layers@.take(i as int).filter(wanted)[k],
                        *buffer,
                    ),
            decreases self.layers.len() - i,
        {
            let layer = &self.layers[i];
            proof {
                reveal(Seq::filter);
                assert(self.layers@.take(i + 1).drop_last() =~= self.layers@.take(i as int));
                assert(self.layers@.take(i + 1).last() == *layer);
            }
            if let Some(grammar) = &layer.language.grammar {
                let start = buffer.to_offset(&layer.range.start);
                shown.push((&**grammar, &layer.tree, (start, buffer.point_at(start))));
            }
            i += 1;
        }
        assert(self.layers@.take(self.layers.len() as int) =~= self.layers@);
        shown
    }

    /// The layers whose language has a grammar and whose range has a position
    /// in common with the bytes of `range` in `buffer`, in index
    /// order and whatever their depth: for each its grammar, its tree, and
    /// the byte offset and the point at which it starts.
    pub fn layers_for_range<'a>(
        &'a self,
        range: std::ops::Range<usize>,
        buffer: &BufferSnapshot,
    ) -> (shown: Vec<(&'a Grammar, &'a tree_sitter::Tree, (usize, Point))>)
        ensures
            shown@.len() == self@.filter(
                |l: SyntaxLayer|
                    is_shown(l) && is_within_reach(
                        l,
                        AnchorRange {
                            start: buffer.spec_anchor_before(range.start),
                            end: buffer.spec_anchor_after(range.end),
                        },
                    ),
            ).len(),
            forall|i: int|
                0 <= i < shown@.len() ==> shows(
                    #[trigger] shown@[i],
                    self@.filter(
                        |l: SyntaxLayer|
                            is_shown(l) && is_within_reach(
                                l,
                                AnchorRange {
                                    start: buffer.spec_anchor_before(range.start),
                                    end: buffer.spec_anchor_after(range.end),
                                },
                            ),
                    )[i],
                    *buffer,
                ),
    {
        let reach = AnchorRange {
            start: buffer.anchor_before(range.start),
            end: buffer.anchor_after(range.end),
        };
        let ghost wanted = |l: SyntaxLayer| is_shown(l) && is_within_reach(l, reach);
        assert(wanted == |l: SyntaxLayer|
            is_shown(l) && is_within_reach(
                l,
                AnchorRange {
                    start: buffer.spec_anchor_before(range.start),
                    end: buffer.spec_anchor_after(range.end),
                },
            ));
        let mut shown: Vec<(&'a Grammar, &'a tree_sitter::Tree, (usize, Point))> = Vec::new();
        let mut i: usize = 0;
        proof {
            reveal(Seq::filter);
            assert(self.layers@.take(0) =~= Seq::<SyntaxLayer>::empty());
        }
        while i < self.layers.len()
            invariant
                i <= self.layers.len(),
                wanted == |l: SyntaxLayer| is_shown(l) && is_within_reach(l, reach),
                shown@.len() == self.layers@.take(i as int).filter(wanted).len(),
                forall|k: int|
                    0 <= k < shown@.len() ==> shows(
                        #[trigger] shown@[k],
                        self.layers@.take(i as int).filter(wanted)[k],
                        *buffer,
                    ),
            decreases self.layers.len() - i,
        {
            let layer = &self.layers[i];
            proof {
                reveal(Seq::filter);
                assert(self.layers@.take(i + 1).drop_last() =~= self.layers@.take(i as int));
                assert(self.layers@.take(i + 1).last() == *layer);
            }
            let is_before_start = layer.range.end.compare(&reach.start) == Order::Less;
            let is_after_end = layer.range.start.compare(&reach.end) == Order::Greater;
            if !is_before_start && !is_after_end {
                if let Some(grammar) = &layer.language.grammar {
                    let at = buffer.to_offset(&layer.range.start);
                    shown.push((&**grammar, &layer.tree, (at, buffer.point_at(at))));
                }
            }
            i += 1;
        }
        assert(self.layers@.take(self.layers.len() as int) =~= self.layers@);
        shown
    }
}

impl Clone for SyntaxSnapshot {
    fn clone(&self) -> (copy: SyntaxSnapshot)
        ensures
            copy@ == self@,
    {
        let mut layers: Vec<SyntaxLayer> = Vec::new();
        let mut i: usize = 0;
        while i < self.layers.len()
            invariant
                i <= self.layers.len(),
                layers@ == self.layers@.take(i as int),
            decreases self.layers.len() - i,
        {
            layers.push(self.layers[i].clone());
            assert(self.layers@.take(i + 1) =~= self.layers@.take(i as int).push(self.layers@[i as int]));
            i += 1;
        }
        assert(self.layers@.take(self.layers.len() as int) =~= self.layers@);
        SyntaxSnapshot { layers }
    }
}

impl Default for SyntaxSnapshot {
    fn default() -> (snapshot: SyntaxSnapshot)
        ensures
            snapshot@ == Seq::<SyntaxLayer>::empty(),
    {
        SyntaxSnapshot { layers: Vec::new() }
    }
}

} // verus!
