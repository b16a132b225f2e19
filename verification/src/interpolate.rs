//! Carrying the layers over an edit of the buffer without parsing anew: the
//! ranges move with the text, and each tree is told of the edits that reach
//! into its layer.

use crate::buffer::{
    edit_fits, edits_fit, lemma_edits_ordered, lemma_moved_range_ordered, lemma_moved_ranges_apart,
    lemma_point_monotone, move_range, moved_range, point_of, BufferSnapshot, Edit,
};
use crate::layer::SyntaxLayer;
use crate::language::share;
use crate::parser::{built_under, clone_tree, edit_tree, edited, InputEdit};
use crate::position::Point;
use crate::snapshot::SyntaxSnapshot;
use vstd::prelude::*;

verus! {

/// Whether an edit reaches into the layer that lies at the bytes from `start`
/// to `end`: it starts at the layer's end or before, and ends behind its
/// start.
pub open spec fn edit_touches(edit: Edit, start: usize, end: usize) -> bool {
    edit.new_start.offset <= end && edit.new_end.offset > start
}

/// The edit as the tree of a layer sees it whose text starts at byte `start`
/// and point `start_point` of the buffer. An edit that starts within the
/// layer keeps its extent; one that starts in front of it is cut off at the
/// layer's start and only removes.
pub open spec fn tree_edit(edit: Edit, start: usize, start_point: Point) -> InputEdit {
    if edit.new_start.offset >= start {
        let from = edit.new_start.point.spec_minus(start_point);
        InputEdit {
            start_byte: (edit.new_start.offset - start) as usize,
            old_end_byte: (edit.new_start.offset - start + (edit.old_end.offset
                - edit.old_start.offset)) as usize,
            new_end_byte: (edit.new_end.offset - start) as usize,
            start_position: from,
            old_end_position: from.spec_plus(edit.old_end.point.spec_minus(edit.old_start.point)),
            new_end_position: edit.new_end.point.spec_minus(start_point),
        }
    } else {
        InputEdit {
            start_byte: 0,
            old_end_byte: (edit.new_end.offset - start) as usize,
            new_end_byte: 0,
            start_position: Point::spec_zero(),
            old_end_position: edit.new_end.point.spec_minus(start_point),
            new_end_position: Point::spec_zero(),
        }
    }
}

/// What the tree of a layer is told when `edits` are made: each edit that
/// reaches into the layer, the last one first.
pub open spec fn layer_edits(edits: Seq<Edit>, start: usize, start_point: Point, end: usize) -> Seq<
    InputEdit,
>
    decreases edits.len(),
{
    if edits.len() == 0 {
        Seq::empty()
    } else {
        let earlier = layer_edits(edits.drop_last(), start, start_point, end);
        if edit_touches(edits.last(), start, end) {
            seq![tree_edit(edits.last(), start, start_point)] + earlier
        } else {
            earlier
        }
    }
}

/// Where none of the edits reaches into the layer, its tree is told nothing.
pub proof fn lemma_no_layer_edits(edits: Seq<Edit>, start: usize, start_point: Point, end: usize)
    requires
        forall|k: int| 0 <= k < edits.len() ==> !edit_touches(#[trigger] edits[k], start, end),
    ensures
        layer_edits(edits, start, start_point, end) == Seq::<InputEdit>::empty(),
    decreases edits.len(),
{
    if edits.len() > 0 {
        let earlier = edits.drop_last();
        assert forall|k: int| 0 <= k < earlier.len() implies !edit_touches(
            #[trigger] earlier[k],
            start,
            end,
        ) by {
            assert(earlier[k] == edits[k]);
        }
        lemma_no_layer_edits(earlier, start, start_point, end);
    }
}

/// The tree after it has been told of each of `edits` in turn.
pub open spec fn apply_edits(tree: tree_sitter::Tree, edits: Seq<InputEdit>) -> tree_sitter::Tree
    decreases edits.len(),
{
    if edits.len() == 0 {
        tree
    } else {
        edited(apply_edits(tree, edits.drop_last()), edits.last())
    }
}

/// The layer as it is once `edits` have led to `buffer`: its range has moved
/// with the text, and its tree has been told of the edits that reach into
/// it. Depth and language stay.
pub open spec fn interpolated(layer: SyntaxLayer, edits: Seq<Edit>, buffer: BufferSnapshot) -> SyntaxLayer {
    let range = moved_range(layer.range, edits);
    let start = buffer.offset_of(range.start);
    let end = buffer.offset_of(range.end);
    SyntaxLayer {
        depth: layer.depth,
        range,
        tree: apply_edits(
            layer.tree,
            layer_edits(edits, start, point_of(buffer.text@, start as int), end),
        ),
        language: layer.language,
    }
}

/// Tells one edit that reaches into a layer in the layer's own coordinates.
fn edit_in_layer(edit: &Edit, start: usize, start_point: &Point, buffer: &BufferSnapshot) -> (told:
    InputEdit)
    requires
        edit_fits(*edit, buffer.text@),
        start <= buffer.text.len(),
        *start_point == point_of(buffer.text@, start as int),
        edit.new_end.offset > start,
    ensures
        told == tree_edit(*edit, start, *start_point),
{
    proof {
        if edit.new_start.offset >= start {
            lemma_point_monotone(buffer.text@, start as int, edit.new_start.offset as int);
        }
        lemma_point_monotone(buffer.text@, start as int, edit.new_end.offset as int);
    }
    if edit.new_start.offset >= start {
        let from = edit.new_start.point.minus(start_point);
        let extent = edit.old_end.point.minus(&edit.old_start.point);
        InputEdit {
            start_byte: edit.new_start.offset - start,
            old_end_byte: edit.new_start.offset - start + (edit.old_end.offset
                - edit.old_start.offset),
            new_end_byte: edit.new_end.offset - start,
            start_position: from,
            old_end_position: from.plus(&extent),
            new_end_position: edit.new_end.point.minus(start_point),
        }
    } else {
        InputEdit {
            start_byte: 0,
            old_end_byte: edit.new_end.offset - start,
            new_end_byte: 0,
            start_position: Point::zero(),
            old_end_position: edit.new_end.point.minus(start_point),
            new_end_position: Point::zero(),
        }
    }
}

/// What the edits tell the tree, split into what the last edits have told
/// it and what the first `n` tell it, stays so split when the last of those
/// `n` is moved over to what has been told.
proof fn lemma_layer_edits_step(
    edits: Seq<Edit>,
    n: int,
    told: Seq<InputEdit>,
    start: usize,
    start_point: Point,
    end: usize,
)
    requires
        0 < n <= edits.len(),
        layer_edits(edits, start, start_point, end) == told + layer_edits(
            edits.take(n),
            start,
            start_point,
            end,
        ),
    ensures
        layer_edits(edits, start, start_point, end) == if edit_touches(edits[n - 1], start, end) {
            told.push(tree_edit(edits[n - 1], start, start_point))
        } else {
            told
        } + layer_edits(edits.take(n - 1), start, start_point, end),
{
    assert(edits.take(n).last() == edits[n - 1]);
    assert(edits.take(n).drop_last() =~= edits.take(n - 1));
    let earlier = layer_edits(edits.take(n - 1), start, start_point, end);
    let one = tree_edit(edits[n - 1], start, start_point);
    assert(told + (seq![one] + earlier) =~= told.push(one) + earlier);
}

/// In a list of edits that fits, the edits in front of one that ends at the
/// layer's start or before do not reach into the layer.
proof fn lemma_layer_edits_end(
    edits: Seq<Edit>,
    text: Seq<u8>,
    n: int,
    told: Seq<InputEdit>,
    start: usize,
    start_point: Point,
    end: usize,
    reach: usize,
)
    requires
        edits_fit(edits, text),
        0 <= n < edits.len(),
        edits[n].new_start.offset <= reach <= start,
        layer_edits(edits, start, start_point, end) == told + layer_edits(
            edits.take(n),
            start,
            start_point,
            end,
        ),
    ensures
        layer_edits(edits, start, start_point, end) == told,
{
    let earlier = edits.take(n);
    assert forall|k: int| 0 <= k < earlier.len() implies !edit_touches(
        #[trigger] earlier[k],
        start,
        end,
    ) by {
        lemma_edits_ordered(edits, text, k, n);
    }
    lemma_no_layer_edits(earlier, start, start_point, end);
    assert(told + Seq::<InputEdit>::empty() =~= told);
}

/// Each edit of a list that fits a text fits it.
proof fn lemma_fits_at(edits: Seq<Edit>, text: Seq<u8>, k: int)
    requires
        edits_fit(edits, text),
        0 <= k < edits.len(),
    ensures
        edit_fits(edits[k], text),
        edits[k].new_start.offset <= edits[k].new_end.offset,
{
}

/// Lists what the tree of the layer at the bytes from `start` to `end` of
/// `buffer` is to be told when `edits` are made. The edits are gone through
/// from the last to the first: those that start behind the layer are passed
/// over, and the walk ends with the first that ends at the layer's start or
/// before, or that starts in front of it.
pub fn edits_for_layer(edits: &Vec<Edit>, start: usize, end: usize, buffer: &BufferSnapshot) -> (told:
    Vec<InputEdit>)
    requires
        edits_fit(edits@, buffer.text@),
        start <= buffer.text.len(),
    ensures
        told@ == layer_edits(edits@, start, point_of(buffer.text@, start as int), end),
{
    let start_point = buffer.point_at(start);
    let mut told: Vec<InputEdit> = Vec::new();
    let mut n: usize = edits.len();
    proof {
        assert(edits@.take(n as int) =~= edits@);
        assert(told@ + layer_edits(edits@, start, start_point, end) =~= layer_edits(
            edits@,
            start,
            start_point,
            end,
        ));
    }
    while n > 0
        invariant_except_break
            layer_edits(edits@, start, start_point, end) == told@ + layer_edits(
                edits@.take(n as int),
                start,
                start_point,
                end,
            ),
        invariant
            n <= edits.len(),
            edits_fit(edits@, buffer.text@),
            start <= buffer.text.len(),
            start_point == point_of(buffer.text@, start as int),
        ensures
            n == 0 ==> layer_edits(edits@, start, start_point, end) == told@ + layer_edits(
                edits@.take(n as int),
                start,
                start_point,
                end,
            ),
            n > 0 ==> layer_edits(edits@, start, start_point, end) == told@,
        decreases n,
    {
        let edit = edits[n - 1];
        let ghost before = told@;
        proof {
            lemma_fits_at(edits@, buffer.text@, n - 1);
            lemma_layer_edits_step(edits@, n as int, before, start, start_point, end);
        }
        // Ignore any edits that start after the end of this layer.
        if edit.new_start.offset > end {
            n -= 1;
            continue;
        }
        // Ignore edits that end before the start of this layer, and those
        // in front of them.
        if edit.new_end.offset <= start {
            proof {
                lemma_layer_edits_end(
                    edits@,
                    buffer.text@,
                    n - 1,
                    before,
                    start,
                    start_point,
                    end,
                    edit.new_end.offset,
                );
            }
            break;
        }
        told.push(edit_in_layer(&edit, start, &start_point, buffer));
        if edit.new_start.offset < start {
            proof {
                lemma_layer_edits_end(
                    edits@,
                    buffer.text@,
                    n - 1,
                    told@,
                    start,
                    start_point,
                    end,
                    edit.new_start.offset,
                );
            }
            break;
        }
        n -= 1;
    }
    proof {
        if n == 0 {
            assert(edits@.take(0).len() == 0);
            assert(told@ + Seq::<InputEdit>::empty() =~= told@);
        }
    }
    told
}

/// Carries one layer over the edits.
pub fn interpolate_layer(layer: &SyntaxLayer, edits: &Vec<Edit>, buffer: &BufferSnapshot) -> (carried:
    SyntaxLayer)
    requires
        edits_fit(edits@, buffer.text@),
    ensures
        carried == interpolated(*layer, edits@, *buffer),
        layer.tree_is_built() ==> carried.tree_is_built(),
{
    let range = move_range(&layer.range, edits);
    let start = buffer.to_offset(&range.start);
    let end = buffer.to_offset(&range.end);
    let told = edits_for_layer(edits, start, end, buffer);
    let mut tree = clone_tree(&layer.tree);
    let mut i: usize = 0;
    assert(told@.take(0) =~= Seq::<InputEdit>::empty());
    while i < told.len()
        invariant
            i <= told.len(),
            tree == apply_edits(layer.tree, told@.take(i as int)),
            forall|language: tree_sitter::Language|
                #[trigger] built_under(tree, language) == built_under(layer.tree, language),
        decreases told.len() - i,
    {
        assert(told@.take(i + 1).drop_last() =~= told@.take(i as int));
        edit_tree(&mut tree, &told[i]);
        i += 1;
    }
    assert(told@.take(told.len() as int) =~= told@);
    SyntaxLayer { depth: layer.depth, range, tree, language: share(&layer.language) }
}

/// Without edits a layer stays as it is.
pub proof fn lemma_interpolated_without_edits(layer: SyntaxLayer, buffer: BufferSnapshot)
    ensures
        interpolated(layer, Seq::<Edit>::empty(), buffer) == layer,
{
}

/// A layer that none of the edits reaches into, where it lies once the
/// edits are made, keeps its tree as it was.
pub proof fn lemma_interpolated_clear_of_edits(
    layer: SyntaxLayer,
    edits: Seq<Edit>,
    buffer: BufferSnapshot,
)
    requires
        forall|k: int|
            0 <= k < edits.len() ==> !edit_touches(
                #[trigger] edits[k],
                buffer.offset_of(moved_range(layer.range, edits).start),
                buffer.offset_of(moved_range(layer.range, edits).end),
            ),
    ensures
        interpolated(layer, edits, buffer).tree == layer.tree,
{
    let range = moved_range(layer.range, edits);
    let start = buffer.offset_of(range.start);
    lemma_no_layer_edits(
        edits,
        start,
        point_of(buffer.text@, start as int),
        buffer.offset_of(range.end),
    );
}

/// Two layers of which the first ends at least a byte in front of where the
/// second starts do not overlap, by bytes, once they are carried over the
/// edits. Two layers that abut can come to overlap: text that is put in
/// where they meet belongs to both.
pub proof fn lemma_interpolated_apart(
    first: SyntaxLayer,
    second: SyntaxLayer,
    edits: Seq<Edit>,
    buffer: BufferSnapshot,
)
    requires
        edits_fit(edits, buffer.text@),
        first.range_in_order(),
        second.range_in_order(),
        first.range.end.offset < second.range.start.offset,
    ensures
        buffer.offset_of(interpolated(first, edits, buffer).range.end) <= buffer.offset_of(
            interpolated(second, edits, buffer).range.start,
        ),
{
    lemma_moved_ranges_apart(first.range, second.range, edits, buffer);
}

/// A layer whose range is in order is carried over to one whose range is
/// in order.
pub proof fn lemma_interpolated_in_order(layer: SyntaxLayer, edits: Seq<Edit>, buffer: BufferSnapshot)
    requires
        edits_fit(edits, buffer.text@),
        layer.range_in_order(),
    ensures
        interpolated(layer, edits, buffer).range_in_order(),
{
    lemma_moved_range_ordered(layer.range, edits, buffer.text@);
}

impl SyntaxSnapshot {
    /// Carries every layer over the edits that have led to `buffer`, without
    /// running the parser: no layer is added or removed, the ranges move with
    /// the text, and each tree is told of the edits that reach into its
    /// layer, so that a layer whose range lies clear of every edit keeps its
    /// tree as it was. An index that is well formed stays so.
    pub fn interpolate(&mut self, edits: &Vec<Edit>, buffer: &BufferSnapshot)
        requires
            edits_fit(edits@, buffer.text@),
        ensures
            final(self)@.len() == old(self)@.len(),
            forall|i: int|
                0 <= i < old(self)@.len() ==> #[trigger] final(self)@[i] == interpolated(
                    old(self)@[i],
                    edits@,
                    *buffer,
                ),
            old(self).well_formed() ==> final(self).well_formed(),
    {
        if edits.len() == 0 {
            proof {
                assert(edits@ =~= Seq::<Edit>::empty());
                assert forall|i: int| 0 <= i < self@.len() implies #[trigger] self@[i]
                    == interpolated(self@[i], edits@, *buffer) by {
                    lemma_interpolated_without_edits(self@[i], *buffer);
                }
            }
            return;
        }
        let mut layers: Vec<SyntaxLayer> = Vec::new();
        let mut i: usize = 0;
        while i < self.layers.len()
            invariant
                *self == *old(self),
                edits_fit(edits@, buffer.text@),
                i <= self.layers.len(),
                layers@.len() == i,
                forall|k: int|
                    0 <= k < i ==> #[trigger] layers@[k] == interpolated(
                        self.layers@[k],
                        edits@,
                        *buffer,
                    ),
                forall|k: int|
                    0 <= k < i && self.layers@[k].tree_is_built() ==> (
                    #[trigger] layers@[k]).tree_is_built(),
            decreases self.layers.len() - i,
        {
            layers.push(interpolate_layer(&self.layers[i], edits, buffer));
            i += 1;
        }
        self.layers = layers;
        proof {
            if old(self).well_formed() {
                assert forall|k: int| 0 <= k < self@.len() implies (
                #[trigger] self@[k]).range_in_order() by {
                    assert(old(self)@[k].range_in_order());
                    lemma_interpolated_in_order(old(self)@[k], edits@, *buffer);
                }
                assert forall|i: int, j: int| 0 <= i <= j < self@.len() implies (
                #[trigger] self@[i]).depth <= (#[trigger] self@[j]).depth by {
                    assert(old(self)@[i].depth <= old(self)@[j].depth);
                }
                assert forall|k: int| 0 <= k < self@.len() implies (
                #[trigger] self@[k]).tree_is_built() by {
                    assert(old(self)@[k].tree_is_built());
                }
            }
        }
    }
}

} // verus!
