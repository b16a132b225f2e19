//! The layers of the index and the walk through them.

use crate::language::{share, LanguageDef};
use crate::parser::{built_under, clone_tree};
use crate::position::{AnchorRange, Bias, Order};
use crate::summary::{SeekTarget, SyntaxLayerSummary};
use std::sync::Arc;
use vstd::prelude::*;

verus! {

/// One parsed region of the buffer.
#[derive(Debug)]
pub struct SyntaxLayer {
    /// 0 for the language of the whole buffer, one more for each nesting of
    /// one language in another.
    pub depth: usize,
    /// The stretch of the buffer that the layer covers.
    pub range: AnchorRange,
    /// The syntax tree of that stretch.
    pub tree: tree_sitter::Tree,
    /// The language that the tree was parsed with.
    pub language: Arc<LanguageDef>,
}

impl SyntaxLayer {
    /// The summary of this layer alone.
    pub open spec fn spec_summary(self) -> SyntaxLayerSummary {
        SyntaxLayerSummary {
            max_depth: self.depth,
            range: self.range,
            last_layer_range: self.range,
        }
    }

    /// Whether the layer's range runs from an anchor that keeps to the left
    /// to one, at or behind it, that keeps to the right.
    pub open spec fn range_in_order(self) -> bool {
        &&& self.range.start.bias == Bias::Left
        &&& self.range.end.bias == Bias::Right
        &&& self.range.start.le(self.range.end)
    }

    /// Whether the layer's language has a grammar and its tree was built
    /// under that grammar.
    pub open spec fn tree_is_built(self) -> bool {
        self.language.grammar is Some && built_under(
            self.tree,
            self.language.grammar.unwrap().ts_language,
        )
    }

    /// The summary of this layer alone.
    pub fn summary(&self) -> (summary: SyntaxLayerSummary)
        ensures
            summary == self.spec_summary(),
    {
        SyntaxLayerSummary {
            max_depth: self.depth,
            range: self.range,
            last_layer_range: self.range,
        }
    }
}

impl Clone for SyntaxLayer {
    fn clone(&self) -> (copy: SyntaxLayer)
        ensures
            copy == *self,
    {
        SyntaxLayer {
            depth: self.depth,
            range: self.range,
            tree: clone_tree(&self.tree),
            language: share(&self.language),
        }
    }
}

/// The summary of a run of layers: the summaries of its layers joined from
/// left to right, starting from the summary of no layers.
pub open spec fn summary_of(layers: Seq<SyntaxLayer>) -> SyntaxLayerSummary
    decreases layers.len(),
{
    if layers.len() == 0 {
        SyntaxLayerSummary::empty()
    } else {
        summary_of(layers.drop_last()).join(layers.last().spec_summary())
    }
}

/// Whether the layers are in order of depth, least deep first.
pub open spec fn depth_sorted(layers: Seq<SyntaxLayer>) -> bool {
    forall|i: int, j: int|
        0 <= i <= j < layers.len() ==> (#[trigger] layers[i]).depth <= (#[trigger] layers[j]).depth
}

/// Whether every layer's range is in order.
pub open spec fn ranges_in_order(layers: Seq<SyntaxLayer>) -> bool {
    forall|k: int| 0 <= k < layers.len() ==> (#[trigger] layers[k]).range_in_order()
}

/// Whether every layer's tree was built under the grammar of its language.
pub open spec fn trees_built(layers: Seq<SyntaxLayer>) -> bool {
    forall|k: int| 0 <= k < layers.len() ==> (#[trigger] layers[k]).tree_is_built()
}

/// The depth in the summary of a run of layers is at least that of each
/// layer of the run, and is that of the last layer where the run is in
/// order of depth.
pub proof fn lemma_summary_depth(layers: Seq<SyntaxLayer>)
    ensures
        forall|k: int|
            0 <= k < layers.len() ==> (#[trigger] layers[k]).depth <= summary_of(layers).max_depth,
        layers.len() == 0 ==> summary_of(layers).max_depth == 0,
        layers.len() > 0 && depth_sorted(layers) ==> summary_of(layers).max_depth
            == layers.last().depth,
    decreases layers.len(),
{
    if layers.len() > 0 {
        let earlier = layers.drop_last();
        lemma_summary_depth(earlier);
        assert forall|k: int| 0 <= k < layers.len() implies (#[trigger] layers[k]).depth
            <= summary_of(layers).max_depth by {
            if k < earlier.len() {
                assert(earlier[k] == layers[k]);
            }
        }
        if depth_sorted(layers) {
            assert(depth_sorted(earlier)) by {
                assert forall|i: int, j: int| 0 <= i <= j < earlier.len() implies (
                #[trigger] earlier[i]).depth <= (#[trigger] earlier[j]).depth by {
                    assert(earlier[i] == layers[i]);
                    assert(earlier[j] == layers[j]);
                }
            }
            if earlier.len() > 0 {
                assert(earlier.last() == layers[layers.len() - 2]);
            }
        }
    }
}

/// Where a walk that stands at `from` and is sent to `target` comes to rest:
/// at the first layer, from `from` on, up to and including which the index
/// is not below the target; behind the last layer if there is none.
pub open spec fn seek_end<T: SeekTarget>(layers: Seq<SyntaxLayer>, from: int, target: T) -> int
    decreases layers.len() - from,
{
    if from < 0 || from >= layers.len() {
        from
    } else if target.order(summary_of(layers.take(from + 1))) == Order::Greater {
        seek_end(layers, from + 1, target)
    } else {
        from
    }
}

/// A walk stays within the index, and never goes back.
pub proof fn lemma_seek_end_bounds<T: SeekTarget>(layers: Seq<SyntaxLayer>, from: int, target: T)
    requires
        0 <= from <= layers.len(),
    ensures
        from <= seek_end(layers, from, target) <= layers.len(),
    decreases layers.len() - from,
{
    if from < layers.len() && target.order(summary_of(layers.take(from + 1))) == Order::Greater {
        lemma_seek_end_bounds(layers, from + 1, target);
    }
}

/// A forward walk through a list of layers, which knows the summary of what
/// it has passed.
pub struct Cursor<'a> {
    layers: &'a Vec<SyntaxLayer>,
    index: usize,
    start: SyntaxLayerSummary,
}

impl<'a> Cursor<'a> {
    #[verifier::type_invariant]
    spec fn well_formed(self) -> bool {
        &&& self.index <= self.layers.len()
        &&& self.start == summary_of(self.layers@.take(self.index as int))
    }

    /// The layers that the cursor walks through.
    pub closed spec fn layers(self) -> Seq<SyntaxLayer> {
        self.layers@
    }

    /// The number of layers that the cursor has passed.
    pub closed spec fn position(self) -> int {
        self.index as int
    }

    /// A cursor in front of the first layer.
    pub fn new(layers: &'a Vec<SyntaxLayer>) -> (cursor: Cursor<'a>)
        ensures
            cursor.layers() == layers@,
            cursor.position() == 0,
    {
        assert(layers@.take(0) =~= Seq::<SyntaxLayer>::empty());
        Cursor { layers, index: 0, start: SyntaxLayerSummary::default() }
    }

    /// The layer that the cursor stands at, if it is not behind the last.
    pub fn item(&self) -> (item: Option<&'a SyntaxLayer>)
        ensures
            0 <= self.position() <= self.layers().len(),
            item == if self.position() < self.layers().len() {
                Some(&self.layers()[self.position()])
            } else {
                None
            },
    {
        proof {
            use_type_invariant(self);
        }
        if self.index < self.layers.len() {
            Some(&self.layers[self.index])
        } else {
            None
        }
    }

    /// The summary of the layers that the cursor has passed.
    pub fn start(&self) -> (summary: &SyntaxLayerSummary)
        ensures
            *summary == summary_of(self.layers().take(self.position())),
    {
        proof {
            use_type_invariant(self);
        }
        &self.start
    }

    /// The summary of the layers that the cursor has passed and the one it
    /// stands at.
    pub fn end(&self) -> (summary: SyntaxLayerSummary)
        ensures
            summary == if self.position() < self.layers().len() {
                summary_of(self.layers().take(self.position() + 1))
            } else {
                summary_of(self.layers().take(self.position()))
            },
    {
        proof {
            use_type_invariant(self);
        }
        let mut end = self.start;
        if self.index < self.layers.len() {
            end.add_summary(&self.layers[self.index].summary());
            assert(self.layers@.take(self.index + 1).drop_last() =~= self.layers@.take(
                self.index as int,
            ));
        }
        end
    }

    /// Moves on by one layer, unless the cursor is behind the last.
    pub fn next(&mut self)
        ensures
            final(self).layers() == old(self).layers(),
            final(self).position() == if old(self).position() < old(self).layers().len() {
                old(self).position() + 1
            } else {
                old(self).position()
            },
    {
        proof {
            use_type_invariant(&*self);
        }
        if self.index < self.layers.len() {
            let end = self.end();
            *self = Cursor { layers: self.layers, index: self.index + 1, start: end };
        }
    }

    /// Moves on to where `target` sends the cursor, and returns copies of the
    /// layers that it passes on the way.
    pub fn slice<T: SeekTarget>(&mut self, target: &T) -> (passed: Vec<SyntaxLayer>)
        ensures
            final(self).layers() == old(self).layers(),
            final(self).position() == seek_end(old(self).layers(), old(self).position(), *target),
            old(self).position() <= final(self).position() <= old(self).layers().len(),
            passed@ == old(self).layers().subrange(old(self).position(), final(self).position()),
    {
        proof {
            use_type_invariant(&*self);
        }
        let ghost first = self.index as int;
        let mut passed: Vec<SyntaxLayer> = Vec::new();
        while self.index < self.layers.len()
            invariant
                self.layers() == old(self).layers(),
                first <= self.index <= self.layers.len(),
                first == old(self).position(),
                seek_end(self.layers@, first, *target) == seek_end(
                    self.layers@,
                    self.index as int,
                    *target,
                ),
                passed@ == self.layers@.subrange(first, self.index as int),
            ensures
                seek_end(self.layers@, self.index as int, *target) == self.index,
            decreases self.layers.len() - self.index,
        {
            let end = self.end();
            if !target.compare(&end).is_gt() {
                break;
            }
            passed.push(self.layers[self.index].clone());
            assert(passed@ =~= self.layers@.subrange(first, self.index + 1));
            *self = Cursor { layers: self.layers, index: self.index + 1, start: end };
        }
        passed
    }

    /// Moves behind the last layer, and returns copies of the layers that the
    /// cursor passes on the way.
    pub fn suffix(&mut self) -> (passed: Vec<SyntaxLayer>)
        ensures
            final(self).layers() == old(self).layers(),
            final(self).position() == old(self).layers().len(),
            0 <= old(self).position() <= old(self).layers().len(),
            passed@ == old(self).layers().subrange(
                old(self).position(),
                old(self).layers().len() as int,
            ),
    {
        proof {
            use_type_invariant(&*self);
        }
        let ghost first = self.index as int;
        let mut passed: Vec<SyntaxLayer> = Vec::new();
        while self.index < self.layers.len()
            invariant
                self.layers() == old(self).layers(),
                first <= self.index <= self.layers.len(),
                first == old(self).position(),
                passed@ == self.layers@.subrange(first, self.index as int),
            decreases self.layers.len() - self.index,
        {
            let end = self.end();
            passed.push(self.layers[self.index].clone());
            assert(passed@ =~= self.layers@.subrange(first, self.index + 1));
            *self = Cursor { layers: self.layers, index: self.index + 1, start: end };
        }
        passed
    }
}

} // verus!
