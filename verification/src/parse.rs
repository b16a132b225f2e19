//! Handing stretches of the buffer to the parser.

use crate::buffer::BufferSnapshot;
use crate::language::Grammar;
use crate::parser::{built_under, parsed, run_parser, taken_by_parser, TextRange};
use crate::position::Point;
use vstd::prelude::*;

verus! {

/// Whether `range` lies at or behind the start of `base`, so that it can be
/// told relative to it.
pub open spec fn can_rebase(range: TextRange, base: TextRange) -> bool {
    &&& base.start_byte <= range.start_byte
    &&& base.start_byte <= range.end_byte
    &&& base.start_point.le(range.start_point)
    &&& base.start_point.le(range.end_point)
}

/// `range` relative to the start of `base`.
pub open spec fn rebased_range(range: TextRange, base: TextRange) -> TextRange {
    TextRange {
        start_byte: (range.start_byte - base.start_byte) as usize,
        end_byte: (range.end_byte - base.start_byte) as usize,
        start_point: range.start_point.spec_minus(base.start_point),
        end_point: range.end_point.spec_minus(base.start_point),
    }
}

/// The ranges relative to the start of the first of them, so that the first
/// starts at byte 0 and point (0, 0). `None` where one of them starts or
/// ends in front of the first.
pub open spec fn rebased(ranges: Seq<TextRange>) -> Option<Seq<TextRange>> {
    if forall|i: int| 0 <= i < ranges.len() ==> can_rebase(#[trigger] ranges[i], ranges[0]) {
        Some(Seq::new(ranges.len(), |i: int| rebased_range(ranges[i], ranges[0])))
    } else {
        None
    }
}

/// Whether the ranges are in the order of the text and apart from each
/// other, in bytes and in points: each ends at its start or behind it, and
/// starts where the one before it ends or behind that.
pub open spec fn ranges_ascend(ranges: Seq<TextRange>) -> bool {
    &&& forall|i: int|
        0 <= i < ranges.len() ==> (#[trigger] ranges[i]).start_byte <= ranges[i].end_byte
            && ranges[i].start_point.le(ranges[i].end_point)
    &&& forall|i: int|
        0 <= i < ranges.len() - 1 ==> (#[trigger] ranges[i]).end_byte <= ranges[i + 1].start_byte
            && ranges[i].end_point.le(ranges[i + 1].start_point)
}

/// Whether the stretches `ranges` of `text` can be parsed under `grammar`:
/// the ranges ascend, the first of them starts within the text, and the
/// parser takes the grammar.
pub open spec fn can_parse(grammar: Grammar, text: Seq<u8>, ranges: Seq<TextRange>) -> bool {
    &&& ranges_ascend(ranges)
    &&& ranges.len() > 0 ==> ranges[0].start_byte <= text.len()
    &&& taken_by_parser(grammar.ts_language)
}

/// The tree that the parser builds for the stretches `ranges` of `text`
/// under `grammar`, where they can be parsed: it is handed the text from the
/// start of the first range on, and the ranges relative to that start.
/// Without ranges it is handed all of the text. Where they cannot be parsed
/// there is no tree.
pub open spec fn text_parsed(
    grammar: Grammar,
    text: Seq<u8>,
    old_tree: Option<tree_sitter::Tree>,
    ranges: Seq<TextRange>,
) -> Option<tree_sitter::Tree> {
    let start = if ranges.len() > 0 {
        ranges[0].start_byte
    } else {
        0
    };
    if can_parse(grammar, text, ranges) {
        parsed(grammar.ts_language, text.skip(start as int), rebased(ranges).unwrap(), old_tree)
    } else {
        None
    }
}

/// Of ranges that ascend, each lies at or behind the start of the first, so
/// that all of them can be told relative to it.
pub proof fn lemma_ascending_ranges_rebase(ranges: Seq<TextRange>, k: int)
    requires
        ranges_ascend(ranges),
        0 <= k < ranges.len(),
    ensures
        can_rebase(ranges[k], ranges[0]),
    decreases k,
{
    if k > 0 {
        lemma_ascending_ranges_rebase(ranges, k - 1);
        assert(ranges[k - 1].end_byte <= ranges[k - 1 + 1].start_byte);
    }
}

/// Whether the ranges ascend.
pub fn ranges_ascending(ranges: &Vec<TextRange>) -> (ascending: bool)
    ensures
        ascending == ranges_ascend(ranges@),
{
    let mut i: usize = 0;
    while i < ranges.len()
        invariant
            i <= ranges.len(),
            forall|k: int|
                0 <= k < i ==> (#[trigger] ranges@[k]).start_byte <= ranges@[k].end_byte
                    && ranges@[k].start_point.le(ranges@[k].end_point),
            forall|k: int|
                0 <= k < i && k < ranges.len() - 1 ==> (#[trigger] ranges@[k]).end_byte
                    <= ranges@[k + 1].start_byte && ranges@[k].end_point.le(
                    ranges@[k + 1].start_point,
                ),
        decreases ranges.len() - i,
    {
        let range = &ranges[i];
        if !(range.start_byte <= range.end_byte && point_at_or_before(
            &range.start_point,
            &range.end_point,
        )) {
            return false;
        }
        if i + 1 < ranges.len() {
            let next = &ranges[i + 1];
            if !(range.end_byte <= next.start_byte && point_at_or_before(
                &range.end_point,
                &next.start_point,
            )) {
                return false;
            }
        }
        i += 1;
    }
    true
}

/// Whether `a` is at `b` or before it in reading order.
fn point_at_or_before(a: &Point, b: &Point) -> (before: bool)
    ensures
        before == a.le(*b),
{
    a.row < b.row || (a.row == b.row && a.column <= b.column)
}

/// Whether the stretches `ranges` of the buffer can be parsed under
/// `grammar`.
pub fn ready_to_parse(grammar: &Grammar, buffer: &BufferSnapshot, ranges: &Vec<TextRange>) -> (ready:
    bool)
    ensures
        ready == can_parse(*grammar, buffer.text@, ranges@),
{
    if !ranges_ascending(ranges) {
        return false;
    }
    if ranges.len() > 0 && ranges[0].start_byte > buffer.text.len() {
        return false;
    }
    grammar.is_taken_by_parser()
}

/// Tells `ranges` relative to the start of the first of them.
pub fn rebase_ranges(ranges: &Vec<TextRange>) -> (relative: Option<Vec<TextRange>>)
    ensures
        match rebased(ranges@) {
            Some(wanted) => relative is Some && relative.unwrap()@ == wanted,
            None => relative is None,
        },
{
    let mut relative: Vec<TextRange> = Vec::new();
    let mut i: usize = 0;
    while i < ranges.len()
        invariant
            i <= ranges.len(),
            relative@.len() == i,
            forall|k: int| 0 <= k < i ==> can_rebase(#[trigger] ranges@[k], ranges@[0]),
            forall|k: int|
                0 <= k < i ==> #[trigger] relative@[k] == rebased_range(ranges@[k], ranges@[0]),
        decreases ranges.len() - i,
    {
        let base = &ranges[0];
        let range = &ranges[i];
        let behind = base.start_byte <= range.start_byte && base.start_byte <= range.end_byte
            && (base.start_point.row < range.start_point.row || (base.start_point.row
            == range.start_point.row && base.start_point.column <= range.start_point.column))
            && (base.start_point.row < range.end_point.row || (base.start_point.row
            == range.end_point.row && base.start_point.column <= range.end_point.column));
        if !behind {
            return None;
        }
        relative.push(
            TextRange {
                start_byte: range.start_byte - base.start_byte,
                end_byte: range.end_byte - base.start_byte,
                start_point: range.start_point.minus(&base.start_point),
                end_point: range.end_point.minus(&base.start_point),
            },
        );
        i += 1;
    }
    assert(relative@ =~= rebased(ranges@).unwrap());
    Some(relative)
}

/// Parses the stretches `ranges` of the buffer under `grammar`, starting
/// from `old_tree` where one is given.
///
/// The ranges have to ascend and to start within the text, and the grammar
/// has to be one that the parser takes: ranges that overlap and a grammar of
/// the wrong version are errors of the one who wrote the grammar, and are
/// not parsed. An old tree has to be one that was built under `grammar`.
/// `ready_to_parse` and `Grammar::has_built` test for this.
pub fn parse_text(
    grammar: &Grammar,
    buffer: &BufferSnapshot,
    old_tree: Option<&tree_sitter::Tree>,
    ranges: &Vec<TextRange>,
) -> (tree: Option<tree_sitter::Tree>)
    requires
        can_parse(*grammar, buffer.text@, ranges@),
        old_tree is Some ==> built_under(*old_tree.unwrap(), grammar.ts_language),
    ensures
        tree == text_parsed(*grammar, buffer.text@, match old_tree {
            Some(t) => Some(*t),
            None => None,
        }, ranges@),
        tree is Some ==> built_under(tree.unwrap(), grammar.ts_language),
{
    let start: usize = if ranges.len() > 0 {
        ranges[0].start_byte
    } else {
        0
    };
    proof {
        assert forall|k: int| 0 <= k < ranges@.len() implies can_rebase(
            #[trigger] ranges@[k],
            ranges@[0],
        ) by {
            lemma_ascending_ranges_rebase(ranges@, k);
        }
    }
    let relative = rebase_ranges(ranges);
    run_parser(&grammar.ts_language, &buffer.text, start, relative.as_ref().unwrap(), old_tree)
}

} // verus!
