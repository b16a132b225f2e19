//! Positions in a text: byte offsets that keep to one side of an insertion,
//! and row/column points.

use vstd::prelude::*;

verus! {

/// The outcome of comparing two values.
#[derive(Clone, Copy, Debug, PartialEq, Eq, Structural)]
pub enum Order {
    Less,
    Equal,
    Greater,
}

impl Order {
    /// Lexicographic composition: `self` decides unless it is `Equal`.
    pub open spec fn or(self, next: Order) -> Order {
        if self == Order::Equal {
            next
        } else {
            self
        }
    }

    /// Whether the first of the two compared is the greater.
    pub open spec fn spec_is_gt(self) -> bool {
        self == Order::Greater
    }

    /// Whether the first of the two compared is the lesser, or they are equal.
    pub open spec fn spec_is_le(self) -> bool {
        self != Order::Greater
    }

    #[verifier::when_used_as_spec(spec_is_gt)]
    pub fn is_gt(self) -> (b: bool)
        ensures
            b == self.spec_is_gt(),
    {
        match self {
            Order::Greater => true,
            _ => false,
        }
    }

    #[verifier::when_used_as_spec(spec_is_le)]
    pub fn is_le(self) -> (b: bool)
        ensures
            b == self.spec_is_le(),
    {
        match self {
            Order::Greater => false,
            _ => true,
        }
    }
}

/// How two integers compare.
pub open spec fn order_of(a: int, b: int) -> Order {
    if a < b {
        Order::Less
    } else if a == b {
        Order::Equal
    } else {
        Order::Greater
    }
}

/// Compares two integers.
pub fn compare_usize(a: usize, b: usize) -> (r: Order)
    ensures
        r == order_of(a as int, b as int),
{
    if a < b {
        Order::Less
    } else if a == b {
        Order::Equal
    } else {
        Order::Greater
    }
}

/// The side of a position that an anchor keeps to when text is inserted
/// exactly there.
#[derive(Clone, Copy, Debug, PartialEq, Eq, Structural)]
pub enum Bias {
    Left,
    Right,
}

/// A position in a buffer: a byte offset and the side it keeps to.
///
/// Anchors are ordered by offset, and at one offset `Left` comes before
/// `Right`. An offset past the end of the buffer stands for the end.
#[derive(Clone, Copy, Debug, PartialEq, Eq, Structural)]
pub struct Anchor {
    pub offset: usize,
    pub bias: Bias,
}

impl Anchor {
    /// The anchor below every other.
    pub open spec fn spec_min() -> Anchor {
        Anchor { offset: 0, bias: Bias::Left }
    }

    /// The anchor above every other.
    pub open spec fn spec_max() -> Anchor {
        Anchor { offset: usize::MAX, bias: Bias::Right }
    }

    #[verifier::when_used_as_spec(spec_min)]
    pub fn min() -> (a: Anchor)
        ensures
            a == Anchor::spec_min(),
    {
        Anchor { offset: 0, bias: Bias::Left }
    }

    #[verifier::when_used_as_spec(spec_max)]
    pub fn max() -> (a: Anchor)
        ensures
            a == Anchor::spec_max(),
    {
        Anchor { offset: usize::MAX, bias: Bias::Right }
    }

    /// The anchor's place in the total order, as one integer.
    pub open spec fn key(self) -> int {
        2 * self.offset + if self.bias == Bias::Right {
            1int
        } else {
            0int
        }
    }

    /// How `self` compares with `other`: by offset, and at one offset left
    /// before right.
    pub open spec fn spec_compare(self, other: Anchor) -> Order {
        order_of(self.key(), other.key())
    }

    /// Whether `self` is `other` or comes before it.
    pub open spec fn le(self, other: Anchor) -> bool {
        self.key() <= other.key()
    }

    /// Whether `self` comes before `other`.
    pub open spec fn lt(self, other: Anchor) -> bool {
        self.key() < other.key()
    }

    /// Compares two anchors.
    pub fn compare(&self, other: &Anchor) -> (r: Order)
        ensures
            r == self.spec_compare(*other),
    {
        if self.offset < other.offset {
            Order::Less
        } else if self.offset > other.offset {
            Order::Greater
        } else {
            match (self.bias, other.bias) {
                (Bias::Left, Bias::Right) => Order::Less,
                (Bias::Right, Bias::Left) => Order::Greater,
                _ => Order::Equal,
            }
        }
    }
}

/// The stretch of a buffer between two anchors.
#[derive(Clone, Copy, Debug, PartialEq, Eq, Structural)]
pub struct AnchorRange {
    pub start: Anchor,
    pub end: Anchor,
}

impl AnchorRange {
    /// The range that covers every buffer.
    pub open spec fn spec_all() -> AnchorRange {
        AnchorRange { start: Anchor::spec_min(), end: Anchor::spec_max() }
    }

    /// The range that holds nothing: its start is above its end, so that the
    /// hull of it and any range is that range.
    pub open spec fn spec_nothing() -> AnchorRange {
        AnchorRange { start: Anchor::spec_max(), end: Anchor::spec_min() }
    }

    #[verifier::when_used_as_spec(spec_all)]
    pub fn all() -> (r: AnchorRange)
        ensures
            r == AnchorRange::spec_all(),
    {
        AnchorRange { start: Anchor::min(), end: Anchor::max() }
    }

    #[verifier::when_used_as_spec(spec_nothing)]
    pub fn nothing() -> (r: AnchorRange)
        ensures
            r == AnchorRange::spec_nothing(),
    {
        AnchorRange { start: Anchor::max(), end: Anchor::min() }
    }

    /// The smallest start and the largest end of the two ranges.
    pub open spec fn hull(self, other: AnchorRange) -> AnchorRange {
        AnchorRange {
            start: if other.start.lt(self.start) {
                other.start
            } else {
                self.start
            },
            end: if self.end.lt(other.end) {
                other.end
            } else {
                self.end
            },
        }
    }

    /// Whether `self` lies within `outer`.
    pub open spec fn within(self, outer: AnchorRange) -> bool {
        outer.start.le(self.start) && self.end.le(outer.end)
    }
}

/// A row and a column in a text, both counted from zero; the column counts
/// bytes.
#[derive(Clone, Copy, Debug, PartialEq, Eq, Structural)]
pub struct Point {
    pub row: usize,
    pub column: usize,
}

impl Point {
    /// The start of a text.
    pub open spec fn spec_zero() -> Point {
        Point { row: 0, column: 0 }
    }

    #[verifier::when_used_as_spec(spec_zero)]
    pub fn zero() -> (p: Point)
        ensures
            p == Point::spec_zero(),
    {
        Point { row: 0, column: 0 }
    }

    /// Whether `self` is at or before `other` in reading order.
    pub open spec fn le(self, other: Point) -> bool {
        self.row < other.row || (self.row == other.row && self.column <= other.column)
    }

    /// The point reached from `self` by moving on by `other`: rows add, and
    /// the column starts over when `other` spans a line break.
    pub open spec fn spec_plus(self, other: Point) -> Point {
        if other.row == 0 {
            Point { row: self.row, column: (self.column + other.column) as usize }
        } else {
            Point { row: (self.row + other.row) as usize, column: other.column }
        }
    }

    /// The way from `other` to `self`, for `other` at or before `self`.
    pub open spec fn spec_minus(self, other: Point) -> Point {
        if self.row == other.row {
            Point { row: 0, column: (self.column - other.column) as usize }
        } else {
            Point { row: (self.row - other.row) as usize, column: self.column }
        }
    }

    /// Whether `self.spec_plus(other)` stays within the machine's integers.
    pub open spec fn can_add(self, other: Point) -> bool {
        if other.row == 0 {
            self.column + other.column <= usize::MAX
        } else {
            self.row + other.row <= usize::MAX
        }
    }

    /// The point reached from `self` by moving on by `other`.
    pub fn plus(&self, other: &Point) -> (p: Point)
        requires
            self.can_add(*other),
        ensures
            p == self.spec_plus(*other),
    {
        if other.row == 0 {
            Point { row: self.row, column: self.column + other.column }
        } else {
            Point { row: self.row + other.row, column: other.column }
        }
    }

    /// `plus` that gives `None` where the sum does not fit.
    pub fn checked_plus(&self, other: &Point) -> (p: Option<Point>)
        ensures
            p == if self.can_add(*other) {
                Some(self.spec_plus(*other))
            } else {
                None
            },
    {
        if other.row == 0 {
            if other.column > usize::MAX - self.column {
                None
            } else {
                Some(Point { row: self.row, column: self.column + other.column })
            }
        } else if other.row > usize::MAX - self.row {
            None
        } else {
            Some(Point { row: self.row + other.row, column: other.column })
        }
    }

    /// The way from `other` to `self`.
    pub fn minus(&self, other: &Point) -> (p: Point)
        requires
            other.le(*self),
        ensures
            p == self.spec_minus(*other),
    {
        if self.row == other.row {
            Point { row: 0, column: self.column - other.column }
        } else {
            Point { row: self.row - other.row, column: self.column }
        }
    }
}

} // verus!
