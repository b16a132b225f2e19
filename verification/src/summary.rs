//! What the index knows of a run of layers without looking at each, and the
//! targets that a walk through the index can be sent to.

use crate::position::{compare_usize, order_of, Anchor, AnchorRange, Order};
use vstd::prelude::*;

verus! {

/// The aggregate of a run of layers, taken in index order.
#[derive(Clone, Copy, Debug, PartialEq, Eq, Structural)]
pub struct SyntaxLayerSummary {
    /// The greatest depth in the run.
    pub max_depth: usize,
    /// The hull of the layers that count towards `max_depth`.
    pub range: AnchorRange,
    /// The range of the last layer of the run.
    pub last_layer_range: AnchorRange,
}

impl SyntaxLayerSummary {
    /// The summary of no layers: a hull that holds nothing, and a last range
    /// that covers everything, so that a first seek matches.
    pub open spec fn empty() -> SyntaxLayerSummary {
        SyntaxLayerSummary {
            max_depth: 0,
            range: AnchorRange::spec_nothing(),
            last_layer_range: AnchorRange::spec_all(),
        }
    }

    /// The summary of a run followed by another, from the summaries of the
    /// two. A deeper second run replaces the first; otherwise the hulls are
    /// joined and the last range is that of the second.
    pub open spec fn join(self, other: SyntaxLayerSummary) -> SyntaxLayerSummary {
        if other.max_depth > self.max_depth {
            other
        } else {
            SyntaxLayerSummary {
                max_depth: self.max_depth,
                range: self.range.hull(other.range),
                last_layer_range: other.last_layer_range,
            }
        }
    }

    /// Extends this summary by the run that `other` sums up.
    pub fn add_summary(&mut self, other: &SyntaxLayerSummary)
        ensures
            *final(self) == old(self).join(*other),
    {
        if other.max_depth > self.max_depth {
            *self = *other;
        } else {
            if other.range.start.compare(&self.range.start) == Order::Less {
                self.range.start = other.range.start;
            }
            if other.range.end.compare(&self.range.end) == Order::Greater {
                self.range.end = other.range.end;
            }
            self.last_layer_range = other.last_layer_range;
        }
    }
}

impl Default for SyntaxLayerSummary {
    fn default() -> (summary: SyntaxLayerSummary)
        ensures
            summary == SyntaxLayerSummary::empty(),
    {
        SyntaxLayerSummary {
            max_depth: 0,
            range: AnchorRange::nothing(),
            last_layer_range: AnchorRange::all(),
        }
    }
}

/// A place in the index to walk to, given by how it compares with the
/// summary of everything up to a point of the walk.
pub trait SeekTarget {
    /// `Greater` while the target lies beyond the run that `location` sums up.
    spec fn order(&self, location: SyntaxLayerSummary) -> Order;

    fn compare(&self, location: &SyntaxLayerSummary) -> (r: Order)
        ensures
            r == self.order(*location),
    ;
}

/// The place of a layer of the given depth and range: by depth, then by the
/// start of the range, then by its end, wider first.
#[derive(Clone, Copy, Debug)]
pub struct DepthAndRange(pub usize, pub AnchorRange);

/// The first layer of the given depth up to which the index reaches the
/// given position.
#[derive(Clone, Copy, Debug)]
pub struct DepthAndMaxPosition(pub usize, pub Anchor);

/// The place of a layer of the given depth and range, or the first layer of
/// that depth up to which the index reaches the given position, whichever
/// lies further on: the target is ahead as long as the position is.
#[derive(Clone, Copy, Debug)]
pub struct DepthAndRangeOrMaxPosition(pub usize, pub AnchorRange, pub Anchor);

impl SeekTarget for DepthAndRange {
    open spec fn order(&self, location: SyntaxLayerSummary) -> Order {
        order_of(self.0 as int, location.max_depth as int).or(
            self.1.start.spec_compare(location.last_layer_range.start),
        ).or(location.last_layer_range.end.spec_compare(self.1.end))
    }

    fn compare(&self, location: &SyntaxLayerSummary) -> (r: Order) {
        match compare_usize(self.0, location.max_depth) {
            Order::Equal => match self.1.start.compare(&location.last_layer_range.start) {
                Order::Equal => location.last_layer_range.end.compare(&self.1.end),
                by_start => by_start,
            },
            by_depth => by_depth,
        }
    }
}

impl SeekTarget for DepthAndMaxPosition {
    open spec fn order(&self, location: SyntaxLayerSummary) -> Order {
        order_of(self.0 as int, location.max_depth as int).or(
            self.1.spec_compare(location.range.end),
        )
    }

    fn compare(&self, location: &SyntaxLayerSummary) -> (r: Order) {
        match compare_usize(self.0, location.max_depth) {
            Order::Equal => self.1.compare(&location.range.end),
            by_depth => by_depth,
        }
    }
}

impl SeekTarget for DepthAndRangeOrMaxPosition {
    open spec fn order(&self, location: SyntaxLayerSummary) -> Order {
        let by_depth = order_of(self.0 as int, location.max_depth as int);
        if by_depth != Order::Equal {
            by_depth
        } else if self.2.spec_compare(location.range.end) == Order::Greater {
            Order::Greater
        } else {
            self.1.start.spec_compare(location.last_layer_range.start).or(
                location.last_layer_range.end.spec_compare(self.1.end),
            )
        }
    }

    fn compare(&self, location: &SyntaxLayerSummary) -> (r: Order) {
        match compare_usize(self.0, location.max_depth) {
            Order::Equal => {},
            by_depth => {
                return by_depth;
            },
        }
        if self.2.compare(&location.range.end).is_gt() {
            return Order::Greater;
        }
        match self.1.start.compare(&location.last_layer_range.start) {
            Order::Equal => location.last_layer_range.end.compare(&self.1.end),
            by_start => by_start,
        }
    }
}

} // verus!
