use syntax_map::buffer::{move_anchor, move_range, BufferSnapshot, Edit, Position};
use syntax_map::position::{Anchor, AnchorRange, Bias, Point};

fn buffer(text: &str) -> BufferSnapshot {
    BufferSnapshot::new(7, text.as_bytes().to_vec())
}

fn left(offset: usize) -> Anchor {
    Anchor { offset, bias: Bias::Left }
}

fn right(offset: usize) -> Anchor {
    Anchor { offset, bias: Bias::Right }
}

fn at(offset: usize, row: usize, column: usize) -> Position {
    Position { offset, point: Point { row, column } }
}

/// In "ab\ncdef\ng", "cd" (3..5) is replaced by "XYZ\n" (3..7).
fn sample_edit() -> Edit {
    Edit {
        old_start: at(3, 1, 0),
        old_end: at(5, 1, 2),
        new_start: at(3, 1, 0),
        new_end: at(7, 2, 0),
    }
}

const AFTER: &str = "ab\nXYZ\nef\ng";

#[test]
fn a_snapshot_keeps_its_version_and_text() {
    let buffer = buffer("ab\ncd");
    assert_eq!(buffer.version, 7);
    assert_eq!(buffer.text, b"ab\ncd".to_vec());
    assert_eq!(buffer.len(), 5);
}

#[test]
fn points_count_line_breaks_and_bytes_since_the_last() {
    let buffer = buffer("ab\ncdef\n\ng");
    assert_eq!(buffer.point_at(0), Point { row: 0, column: 0 });
    assert_eq!(buffer.point_at(2), Point { row: 0, column: 2 });
    assert_eq!(buffer.point_at(3), Point { row: 1, column: 0 });
    assert_eq!(buffer.point_at(7), Point { row: 1, column: 4 });
    assert_eq!(buffer.point_at(8), Point { row: 2, column: 0 });
    assert_eq!(buffer.point_at(9), Point { row: 3, column: 0 });
    assert_eq!(buffer.point_at(10), Point { row: 3, column: 1 });
}

#[test]
fn anchors_past_the_end_stand_for_the_end() {
    let buffer = buffer("ab\ncd");
    assert_eq!(buffer.to_offset(&left(4)), 4);
    assert_eq!(buffer.to_offset(&right(5)), 5);
    assert_eq!(buffer.to_offset(&right(6)), 5);
    assert_eq!(buffer.to_offset(&Anchor::max()), 5);
    assert_eq!(buffer.to_offset(&Anchor::min()), 0);
    assert_eq!(buffer.to_point(&Anchor::max()), Point { row: 1, column: 2 });
    assert_eq!(buffer.to_point(&left(2)), Point { row: 0, column: 2 });
    assert_eq!(buffer.anchor_before(3), left(3));
    assert_eq!(buffer.anchor_after(3), right(3));
}

#[test]
fn a_list_of_edits_that_fits_is_accepted() {
    let after = buffer(AFTER);
    assert!(after.accepts(&Vec::new()));
    assert!(after.accepts(&vec![sample_edit()]));
    // "ab\ncdef\ng" -> "ab\nXYZ\nef\ng" -> with "g" (8..9) replaced by "" as a second edit.
    let shorter = buffer("ab\nXYZ\nef\n");
    let second = Edit {
        old_start: at(8, 2, 0),
        old_end: at(9, 2, 1),
        new_start: at(10, 3, 0),
        new_end: at(10, 3, 0),
    };
    assert!(shorter.accepts(&vec![sample_edit(), second]));
}

#[test]
fn a_list_of_edits_that_does_not_fit_is_refused() {
    let after = buffer(AFTER);
    let with = |change: &dyn Fn(&mut Edit)| {
        let mut edit = sample_edit();
        change(&mut edit);
        after.accepts(&vec![edit])
    };
    // The first edit starts at one place in the text before and at another after.
    assert!(!with(&|e| e.old_start.offset = 2));
    // An end in front of its start.
    assert!(!with(&|e| e.old_end.offset = 2));
    assert!(!with(&|e| e.new_end.offset = 2));
    assert!(!with(&|e| e.old_end.point = Point { row: 0, column: 5 }));
    // Beyond the text.
    assert!(!with(&|e| e.new_end = at(12, 3, 2)));
    // Points that are not those of the offsets.
    assert!(!with(&|e| e.new_start.point = Point { row: 1, column: 1 }));
    assert!(!with(&|e| e.new_end.point = Point { row: 1, column: 4 }));

    // Two edits out of order, overlapping, or with the text between them of
    // another length after than before.
    let second = |old_start: usize, new_start: usize| Edit {
        old_start: at(old_start, 0, 0),
        old_end: at(old_start, 0, 0),
        new_start: Position { offset: new_start, point: after.point_at(new_start) },
        new_end: Position { offset: new_start, point: after.point_at(new_start) },
    };
    assert!(after.accepts(&vec![sample_edit(), second(6, 8)]));
    assert!(after.accepts(&vec![sample_edit(), second(5, 7)]));
    assert!(!after.accepts(&vec![sample_edit(), second(6, 9)]));
    assert!(!after.accepts(&vec![sample_edit(), second(4, 8)]));
    assert!(!after.accepts(&vec![sample_edit(), second(7, 6)]));
    assert!(!after.accepts(&vec![second(6, 8), sample_edit()]));

    // An edit whose old end, told from its new start, is beyond the
    // machine's integers.
    let mut far = second(6, 8);
    far.old_end.offset = usize::MAX;
    assert!(!after.accepts(&vec![sample_edit(), far]));
    let mut far = second(6, 8);
    far.old_end.point = Point { row: usize::MAX, column: 0 };
    assert!(!after.accepts(&vec![sample_edit(), far]));
    let mut far = second(6, 8);
    far.old_end.point = Point { row: 0, column: usize::MAX };
    assert!(!after.accepts(&vec![sample_edit(), far]));
}

#[test]
fn anchors_move_with_the_text() {
    let edits = vec![sample_edit()];
    // In front of the edit: stays.
    assert_eq!(move_anchor(&left(0), &edits), left(0));
    assert_eq!(move_anchor(&right(2), &edits), right(2));
    assert_eq!(move_anchor(&left(3), &edits), left(3));
    // At the start of what was replaced, on its side: behind what replaced it.
    assert_eq!(move_anchor(&right(3), &edits), right(7));
    // Inside what was replaced, and at its end: behind what replaced it.
    assert_eq!(move_anchor(&left(4), &edits), left(7));
    assert_eq!(move_anchor(&right(4), &edits), right(7));
    assert_eq!(move_anchor(&left(5), &edits), left(7));
    assert_eq!(move_anchor(&right(5), &edits), right(7));
    // Behind the edit: moves by as much as the text grew.
    assert_eq!(move_anchor(&left(6), &edits), left(8));
    assert_eq!(move_anchor(&right(9), &edits), right(11));
    // The least and the greatest anchor stay what they are.
    assert_eq!(move_anchor(&Anchor::min(), &edits), Anchor::min());
    assert_eq!(move_anchor(&Anchor::max(), &edits), Anchor::max());
    assert_eq!(move_anchor(&left(usize::MAX - 1), &edits), left(usize::MAX));
    // No edits, no move.
    assert_eq!(move_anchor(&right(4), &Vec::new()), right(4));
}

#[test]
fn text_put_in_at_an_anchor_goes_to_the_other_side_of_it() {
    // "abcd" -> "abXYcd"
    let insertion = Edit {
        old_start: at(2, 0, 2),
        old_end: at(2, 0, 2),
        new_start: at(2, 0, 2),
        new_end: at(4, 0, 4),
    };
    assert!(buffer("abXYcd").accepts(&vec![insertion]));
    let edits = vec![insertion];
    assert_eq!(move_anchor(&left(2), &edits), left(2));
    assert_eq!(move_anchor(&right(2), &edits), right(4));
    let range = AnchorRange { start: left(2), end: right(2) };
    assert_eq!(move_range(&range, &edits), AnchorRange { start: left(2), end: right(4) });
}

#[test]
fn with_several_edits_the_last_one_in_front_of_the_anchor_decides() {
    // "0123456789" -> "0AB2346789": "1" (1..2) becomes "AB" (1..3), "5" (5..6) goes (6..6).
    let first = Edit {
        old_start: at(1, 0, 1),
        old_end: at(2, 0, 2),
        new_start: at(1, 0, 1),
        new_end: at(3, 0, 3),
    };
    let second = Edit {
        old_start: at(5, 0, 5),
        old_end: at(6, 0, 6),
        new_start: at(6, 0, 6),
        new_end: at(6, 0, 6),
    };
    let edits = vec![first, second];
    assert!(buffer("0AB2346789").accepts(&edits));
    assert_eq!(move_anchor(&left(1), &edits), left(1));
    assert_eq!(move_anchor(&right(1), &edits), right(3));
    assert_eq!(move_anchor(&left(2), &edits), left(3));
    assert_eq!(move_anchor(&left(3), &edits), left(4));
    assert_eq!(move_anchor(&left(5), &edits), left(6));
    assert_eq!(move_anchor(&right(5), &edits), right(6));
    assert_eq!(move_anchor(&left(6), &edits), left(6));
    assert_eq!(move_anchor(&left(7), &edits), left(7));
    assert_eq!(move_anchor(&right(10), &edits), right(10));
}

#[test]
fn ranges_that_lie_apart_do_not_come_to_overlap_by_bytes() {
    // "0123456789" loses "4567".
    let removal = Edit {
        old_start: at(4, 0, 4),
        old_end: at(8, 0, 8),
        new_start: at(4, 0, 4),
        new_end: at(4, 0, 4),
    };
    let edits = vec![removal];
    assert!(buffer("012389").accepts(&edits));
    let first = AnchorRange { start: left(0), end: right(5) };
    let second = AnchorRange { start: left(7), end: right(9) };
    assert_eq!(move_range(&first, &edits), AnchorRange { start: left(0), end: right(4) });
    assert_eq!(move_range(&second, &edits), AnchorRange { start: left(4), end: right(5) });
}

#[test]
fn text_put_in_where_two_ranges_meet_belongs_to_both() {
    // "0123456789" gains "ab" at 5.
    let insertion = Edit {
        old_start: at(5, 0, 5),
        old_end: at(5, 0, 5),
        new_start: at(5, 0, 5),
        new_end: at(7, 0, 7),
    };
    let edits = vec![insertion];
    assert!(buffer("01234ab56789").accepts(&edits));
    let first = AnchorRange { start: left(0), end: right(5) };
    let second = AnchorRange { start: left(5), end: right(9) };
    assert_eq!(move_range(&first, &edits), AnchorRange { start: left(0), end: right(7) });
    assert_eq!(move_range(&second, &edits), AnchorRange { start: left(5), end: right(11) });
}
