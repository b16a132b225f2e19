//! A snapshot of the text, the edits that lead from one snapshot to the
//! next, and how anchors move with them.

use crate::position::{Anchor, AnchorRange, Bias, Point};
use vstd::prelude::*;

verus! {

/// The text of a buffer at one moment.
#[derive(Debug)]
pub struct BufferSnapshot {
    /// Counts the states that the buffer has gone through.
    pub version: usize,
    pub text: Vec<u8>,
}

/// A place in a text, in bytes and in rows and columns.
#[derive(Clone, Copy, Debug, PartialEq, Eq, Structural)]
pub struct Position {
    pub offset: usize,
    pub point: Point,
}

/// One replacement of a stretch of text by another: where the stretch lay in
/// the text before, and where what replaced it lies in the text after.
#[derive(Clone, Copy, Debug, PartialEq, Eq, Structural)]
pub struct Edit {
    pub old_start: Position,
    pub old_end: Position,
    pub new_start: Position,
    pub new_end: Position,
}

/// The number of line breaks among the first `offset` bytes of `text`.
pub open spec fn row_of(text: Seq<u8>, offset: int) -> int
    decreases offset,
{
    if offset <= 0 || offset > text.len() {
        0
    } else if text[offset - 1] == 10u8 {
        row_of(text, offset - 1) + 1
    } else {
        row_of(text, offset - 1)
    }
}

/// The number of bytes between the last line break before `offset` and
/// `offset`.
pub open spec fn column_of(text: Seq<u8>, offset: int) -> int
    decreases offset,
{
    if offset <= 0 || offset > text.len() {
        0
    } else if text[offset - 1] == 10u8 {
        0
    } else {
        column_of(text, offset - 1) + 1
    }
}

/// The row and column of the byte offset `offset` in `text`.
pub open spec fn point_of(text: Seq<u8>, offset: int) -> Point {
    Point { row: row_of(text, offset) as usize, column: column_of(text, offset) as usize }
}

/// Rows and columns are no larger than the offset that they stand for.
pub proof fn lemma_point_bounds(text: Seq<u8>, offset: int)
    requires
        0 <= offset <= text.len(),
    ensures
        0 <= row_of(text, offset) <= offset,
        0 <= column_of(text, offset) <= offset,
    decreases offset,
{
    if offset > 0 {
        lemma_point_bounds(text, offset - 1);
    }
}

/// A later offset has a later point.
pub proof fn lemma_point_monotone(text: Seq<u8>, a: int, b: int)
    requires
        0 <= a <= b <= text.len(),
        text.len() <= usize::MAX,
    ensures
        point_of(text, a).le(point_of(text, b)),
    decreases b - a,
{
    lemma_point_bounds(text, a);
    lemma_point_bounds(text, b);
    if a < b {
        lemma_point_monotone(text, a, b - 1);
        lemma_point_bounds(text, b - 1);
    }
}

/// Where an anchor at `offset` with side `bias` lies once `edits` are made,
/// before the result is cut to the machine's integers. An anchor in front of
/// an edit stays; one behind it moves by as much as the text grew or shrank;
/// one inside what was replaced, or at its edge and on the side of it, comes
/// to lie behind what replaced it.
pub open spec fn moved_offset(offset: int, bias: Bias, edits: Seq<Edit>) -> int
    decreases edits.len(),
{
    if edits.len() == 0 {
        offset
    } else {
        let last = edits.last();
        if in_front_of(offset, bias, last) {
            moved_offset(offset, bias, edits.drop_last())
        } else if offset <= last.old_end.offset {
            last.new_end.offset as int
        } else {
            offset - last.old_end.offset + last.new_end.offset
        }
    }
}

/// The anchor that `anchor` becomes once `edits` are made.
pub open spec fn moved_anchor(anchor: Anchor, edits: Seq<Edit>) -> Anchor {
    let moved = moved_offset(anchor.offset as int, anchor.bias, edits);
    Anchor {
        offset: if moved > usize::MAX {
            usize::MAX
        } else {
            moved as usize
        },
        bias: anchor.bias,
    }
}

/// The range that `range` becomes once `edits` are made.
pub open spec fn moved_range(range: AnchorRange, edits: Seq<Edit>) -> AnchorRange {
    AnchorRange { start: moved_anchor(range.start, edits), end: moved_anchor(range.end, edits) }
}

/// What is asked of one edit that leads to `text`.
pub open spec fn edit_fits(edit: Edit, text: Seq<u8>) -> bool {
    let extent = edit.old_end.point.spec_minus(edit.old_start.point);
    &&& edit.old_start.offset <= edit.old_end.offset
    &&& edit.old_start.point.le(edit.old_end.point)
    &&& edit.new_start.offset <= edit.new_end.offset <= text.len()
    &&& edit.new_start.point == point_of(text, edit.new_start.offset as int)
    &&& edit.new_end.point == point_of(text, edit.new_end.offset as int)
    &&& edit.new_start.offset + (edit.old_end.offset - edit.old_start.offset) <= usize::MAX
    &&& edit.new_start.point.row + extent.row <= usize::MAX
    &&& edit.new_start.point.column + extent.column <= usize::MAX
}

/// What is asked of two edits of which `next` follows `edit` in a list: they
/// do not overlap, and the text between them is as long after as before.
pub open spec fn edit_follows(edit: Edit, next: Edit) -> bool {
    &&& edit.old_end.offset <= next.old_start.offset
    &&& edit.new_end.offset <= next.new_start.offset
    &&& next.old_start.offset - edit.old_end.offset == next.new_start.offset
        - edit.new_end.offset
}

/// Whether `edits` is a list of edits that leads to `text`: each edit fits
/// the text, the edits are in the order of the text and apart from each
/// other, and the text in front of the first is untouched.
pub open spec fn edits_fit(edits: Seq<Edit>, text: Seq<u8>) -> bool {
    &&& forall|i: int| 0 <= i < edits.len() ==> edit_fits(#[trigger] edits[i], text)
    &&& forall|i: int|
        0 <= i < edits.len() - 1 ==> edit_follows(#[trigger] edits[i], edits[i + 1])
    &&& edits.len() > 0 ==> edits[0].old_start.offset == edits[0].new_start.offset
}

/// In a list of edits that fits, an earlier edit ends, in the text after,
/// where a later one starts or before.
pub proof fn lemma_edits_ordered(edits: Seq<Edit>, text: Seq<u8>, i: int, j: int)
    requires
        edits_fit(edits, text),
        0 <= i < j < edits.len(),
    ensures
        edits[i].new_end.offset <= edits[j].new_start.offset,
        edits[i].old_end.offset <= edits[j].old_start.offset,
    decreases j - i,
{
    assert(edit_fits(edits[j], text));
    if i + 1 < j {
        lemma_edits_ordered(edits, text, i, j - 1);
        assert(edit_follows(edits[j - 1], edits[j]));
        assert(edit_fits(edits[j - 1], text));
    } else {
        assert(edit_follows(edits[i], edits[i + 1]));
    }
}

/// Whether an anchor at `offset` with side `bias` lies in front of `edit`
/// and is left alone by it.
pub open spec fn in_front_of(offset: int, bias: Bias, edit: Edit) -> bool {
    offset < edit.old_start.offset || (offset == edit.old_start.offset && bias == Bias::Left)
}

/// An anchor does not move to in front of the text.
pub proof fn lemma_moved_offset_within(edits: Seq<Edit>, offset: int, bias: Bias)
    requires
        0 <= offset,
    ensures
        0 <= moved_offset(offset, bias, edits),
    decreases edits.len(),
{
    if edits.len() > 0 && in_front_of(offset, bias, edits.last()) {
        lemma_moved_offset_within(edits.drop_last(), offset, bias);
    }
}

/// An anchor in front of the edit at index `n` does not move beyond the
/// place where that edit starts in the text after.
pub proof fn lemma_moved_offset_bound(
    edits: Seq<Edit>,
    text: Seq<u8>,
    n: int,
    offset: int,
    bias: Bias,
)
    requires
        edits_fit(edits, text),
        0 <= n < edits.len(),
        0 <= offset <= edits[n].old_start.offset,
    ensures
        moved_offset(offset, bias, edits.take(n)) <= edits[n].new_start.offset,
    decreases n,
{
    let earlier = edits.take(n);
    if n == 0 {
        assert(earlier.len() == 0);
    } else {
        let last = earlier.last();
        assert(last == edits[n - 1]);
        assert(earlier.drop_last() =~= edits.take(n - 1));
        assert(edit_follows(edits[n - 1], edits[n]));
        assert(edit_fits(edits[n - 1], text));
        assert(edit_fits(edits[n], text));
        if in_front_of(offset, bias, last) {
            lemma_moved_offset_bound(edits, text, n - 1, offset, bias);
        }
    }
}

/// An anchor that keeps to the left does not overtake one that starts out
/// at or behind it and keeps to the right.
pub proof fn lemma_moved_offset_ordered(edits: Seq<Edit>, text: Seq<u8>, n: int, a: int, b: int)
    requires
        edits_fit(edits, text),
        0 <= n <= edits.len(),
        0 <= a <= b,
    ensures
        moved_offset(a, Bias::Left, edits.take(n)) <= moved_offset(b, Bias::Right, edits.take(n)),
    decreases n,
{
    let upto = edits.take(n);
    if n == 0 {
        assert(upto.len() == 0);
    } else {
        let last = upto.last();
        assert(last == edits[n - 1]);
        assert(upto.drop_last() =~= edits.take(n - 1));
        assert(edit_fits(edits[n - 1], text));
        if in_front_of(b, Bias::Right, last) {
            lemma_moved_offset_ordered(edits, text, n - 1, a, b);
        } else if in_front_of(a, Bias::Left, last) {
            lemma_moved_offset_bound(edits, text, n - 1, a, Bias::Left);
        }
    }
}

/// An anchor that keeps to the right does not overtake, by bytes, one that
/// starts out behind it and keeps to the left. (Where the two start out at
/// one offset, text put in there comes to lie between them, and they change
/// places.)
pub proof fn lemma_moved_offset_apart(edits: Seq<Edit>, text: Seq<u8>, n: int, a: int, b: int)
    requires
        edits_fit(edits, text),
        0 <= n <= edits.len(),
        0 <= a < b,
    ensures
        moved_offset(a, Bias::Right, edits.take(n)) <= moved_offset(b, Bias::Left, edits.take(n)),
    decreases n,
{
    let upto = edits.take(n);
    if n == 0 {
        assert(upto.len() == 0);
    } else {
        let last = upto.last();
        assert(last == edits[n - 1]);
        assert(upto.drop_last() =~= edits.take(n - 1));
        assert(edit_fits(edits[n - 1], text));
        if in_front_of(b, Bias::Left, last) {
            lemma_moved_offset_apart(edits, text, n - 1, a, b);
        } else if in_front_of(a, Bias::Right, last) {
            lemma_moved_offset_bound(edits, text, n - 1, a, Bias::Right);
        }
    }
}

/// Of two ranges of which the first ends, keeping to the right, at least a
/// byte in front of where the second starts, keeping to the left, the first
/// still ends where the second starts or in front of it, by bytes, once the
/// edits are made.
pub proof fn lemma_moved_ranges_apart(
    first: AnchorRange,
    second: AnchorRange,
    edits: Seq<Edit>,
    buffer: BufferSnapshot,
)
    requires
        edits_fit(edits, buffer.text@),
        first.end.bias == Bias::Right,
        second.start.bias == Bias::Left,
        first.end.offset < second.start.offset,
    ensures
        buffer.offset_of(moved_range(first, edits).end) <= buffer.offset_of(
            moved_range(second, edits).start,
        ),
{
    assert(edits.take(edits.len() as int) =~= edits);
    lemma_moved_offset_within(edits, first.end.offset as int, Bias::Right);
    lemma_moved_offset_within(edits, second.start.offset as int, Bias::Left);
    lemma_moved_offset_apart(
        edits,
        buffer.text@,
        edits.len() as int,
        first.end.offset as int,
        second.start.offset as int,
    );
}

/// A range that starts with an anchor that keeps to the left, ends with one
/// that keeps to the right, and has its start at or in front of its end, is
/// still so once the edits are made.
pub proof fn lemma_moved_range_ordered(range: AnchorRange, edits: Seq<Edit>, text: Seq<u8>)
    requires
        edits_fit(edits, text),
        range.start.bias == Bias::Left,
        range.end.bias == Bias::Right,
        range.start.le(range.end),
    ensures
        moved_range(range, edits).start.bias == Bias::Left,
        moved_range(range, edits).end.bias == Bias::Right,
        moved_range(range, edits).start.le(moved_range(range, edits).end),
{
    assert(edits.take(edits.len() as int) =~= edits);
    lemma_moved_offset_within(edits, range.start.offset as int, Bias::Left);
    lemma_moved_offset_within(edits, range.end.offset as int, Bias::Right);
    lemma_moved_offset_ordered(
        edits,
        text,
        edits.len() as int,
        range.start.offset as int,
        range.end.offset as int,
    );
}

impl BufferSnapshot {
    /// The snapshot of the given version and text.
    pub fn new(version: usize, text: Vec<u8>) -> (buffer: BufferSnapshot)
        ensures
            buffer.version == version,
            buffer.text == text,
    {
        BufferSnapshot { version, text }
    }

    /// The length of the text in bytes.
    pub fn len(&self) -> (len: usize)
        ensures
            len == self.text.len(),
    {
        self.text.len()
    }

    /// The anchor at `offset` that keeps to the left.
    pub open spec fn spec_anchor_before(&self, offset: usize) -> Anchor {
        Anchor { offset, bias: Bias::Left }
    }

    /// The anchor at `offset` that keeps to the right.
    pub open spec fn spec_anchor_after(&self, offset: usize) -> Anchor {
        Anchor { offset, bias: Bias::Right }
    }

    /// The anchor at `offset` that stays in front of text inserted there.
    #[verifier::when_used_as_spec(spec_anchor_before)]
    pub fn anchor_before(&self, offset: usize) -> (anchor: Anchor)
        ensures
            anchor == (Anchor { offset, bias: Bias::Left }),
    {
        Anchor { offset, bias: Bias::Left }
    }

    /// The anchor at `offset` that stays behind text inserted there.
    #[verifier::when_used_as_spec(spec_anchor_after)]
    pub fn anchor_after(&self, offset: usize) -> (anchor: Anchor)
        ensures
            anchor == (Anchor { offset, bias: Bias::Right }),
    {
        Anchor { offset, bias: Bias::Right }
    }

    /// The byte offset that `anchor` stands for in this text.
    pub open spec fn offset_of(self, anchor: Anchor) -> usize {
        if anchor.offset <= self.text.len() {
            anchor.offset
        } else {
            self.text.len() as usize
        }
    }

    /// The byte offset that `anchor` stands for in this text: its own, or the
    /// end of the text where that is less.
    pub fn to_offset(&self, anchor: &Anchor) -> (offset: usize)
        ensures
            offset == self.offset_of(*anchor),
            offset <= self.text.len(),
    {
        if anchor.offset <= self.text.len() {
            anchor.offset
        } else {
            self.text.len()
        }
    }

    /// The row and column of the byte offset `offset`, for an offset within
    /// the text.
    pub fn point_at(&self, offset: usize) -> (point: Point)
        requires
            offset <= self.text.len(),
        ensures
            point == point_of(self.text@, offset as int),
    {
        let mut row: usize = 0;
        let mut column: usize = 0;
        let mut i: usize = 0;
        while i < offset
            invariant
                i <= offset <= self.text.len(),
                row == row_of(self.text@, i as int),
                column == column_of(self.text@, i as int),
            decreases offset - i,
        {
            proof {
                lemma_point_bounds(self.text@, i as int);
            }
            if self.text[i] == 10u8 {
                row += 1;
                column = 0;
            } else {
                column += 1;
            }
            i += 1;
        }
        Point { row, column }
    }

    /// The row and column that `anchor` stands for in this text.
    pub fn to_point(&self, anchor: &Anchor) -> (point: Point)
        ensures
            point == point_of(self.text@, self.offset_of(*anchor) as int),
    {
        self.point_at(self.to_offset(anchor))
    }

    /// Whether `edits` is a list of edits that leads to this text.
    pub fn accepts(&self, edits: &Vec<Edit>) -> (fit: bool)
        ensures
            fit == edits_fit(edits@, self.text@),
    {
        if edits.len() > 0 && edits[0].old_start.offset != edits[0].new_start.offset {
            return false;
        }
        let mut i: usize = 0;
        while i < edits.len()
            invariant
                i <= edits.len(),
                forall|k: int| 0 <= k < i ==> edit_fits(#[trigger] edits@[k], self.text@),
                forall|k: int|
                    0 <= k < i && k < edits.len() - 1 ==> edit_follows(
                        #[trigger] edits@[k],
                        edits@[k + 1],
                    ),
            decreases edits.len() - i,
        {
            let edit = edits[i];
            if !self.edit_is_fit(&edit) {
                return false;
            }
            if i + 1 < edits.len() {
                let next = edits[i + 1];
                let follows = edit.old_end.offset <= next.old_start.offset && edit.new_end.offset
                    <= next.new_start.offset && next.old_start.offset - edit.old_end.offset
                    == next.new_start.offset - edit.new_end.offset;
                if !follows {
                    return false;
                }
            }
            i += 1;
        }
        true
    }

    /// Whether one edit fits this text.
    fn edit_is_fit(&self, edit: &Edit) -> (fit: bool)
        ensures
            fit == edit_fits(*edit, self.text@),
    {
        if !(edit.old_start.offset <= edit.old_end.offset && edit.new_start.offset
            <= edit.new_end.offset && edit.new_end.offset <= self.text.len()) {
            return false;
        }
        let old_ordered = edit.old_start.point.row < edit.old_end.point.row || (
        edit.old_start.point.row == edit.old_end.point.row && edit.old_start.point.column
            <= edit.old_end.point.column);
        if !old_ordered {
            return false;
        }
        let start_point = self.point_at(edit.new_start.offset);
        let end_point = self.point_at(edit.new_end.offset);
        if !(edit.new_start.point.row == start_point.row && edit.new_start.point.column
            == start_point.column && edit.new_end.point.row == end_point.row
            && edit.new_end.point.column == end_point.column) {
            return false;
        }
        let extent = edit.old_end.point.minus(&edit.old_start.point);
        edit.old_end.offset - edit.old_start.offset <= usize::MAX - edit.new_start.offset
            && extent.row <= usize::MAX - edit.new_start.point.row && extent.column <= usize::MAX
            - edit.new_start.point.column
    }
}

/// The anchor that `anchor` becomes once `edits` are made.
pub fn move_anchor(anchor: &Anchor, edits: &Vec<Edit>) -> (moved: Anchor)
    ensures
        moved == moved_anchor(*anchor, edits@),
{
    let mut n: usize = edits.len();
    assert(edits@.take(n as int) =~= edits@);
    while n > 0
        invariant
            n <= edits.len(),
            moved_offset(anchor.offset as int, anchor.bias, edits@) == moved_offset(
                anchor.offset as int,
                anchor.bias,
                edits@.take(n as int),
            ),
        decreases n,
    {
        let last = edits[n - 1];
        assert(edits@.take(n as int).last() == last);
        assert(edits@.take(n as int).drop_last() =~= edits@.take(n - 1));
        let in_front = anchor.offset < last.old_start.offset || (anchor.offset
            == last.old_start.offset && anchor.bias == Bias::Left);
        if !in_front {
            let offset = if anchor.offset <= last.old_end.offset {
                last.new_end.offset
            } else {
                let behind = anchor.offset - last.old_end.offset;
                if behind > usize::MAX - last.new_end.offset {
                    usize::MAX
                } else {
                    behind + last.new_end.offset
                }
            };
            return Anchor { offset, bias: anchor.bias };
        }
        n -= 1;
    }
    assert(edits@.take(0).len() == 0);
    *anchor
}

/// The range that `range` becomes once `edits` are made.
pub fn move_range(range: &AnchorRange, edits: &Vec<Edit>) -> (moved: AnchorRange)
    ensures
        moved == moved_range(*range, edits@),
{
    AnchorRange { start: move_anchor(&range.start, edits), end: move_anchor(&range.end, edits) }
}

} // verus!
