//! The parses that are still to do, and the order in which they are taken up.

use crate::language::LanguageDef;
use crate::parser::{ByteRange, TextRange};
use crate::position::{compare_usize, order_of, Anchor, AnchorRange, Bias, Order};
use crate::summary::{DepthAndRange, SeekTarget, SyntaxLayerSummary};
use std::sync::Arc;
use vstd::prelude::*;
use vstd::std_specs::cmp::PartialEqSpecImpl;

verus! {

/// One parse that is still to do.
#[derive(Debug)]
pub struct ReparseStep {
    pub depth: usize,
    pub language: Arc<LanguageDef>,
    /// The stretches of the buffer that make up the text to parse; all of
    /// the buffer where there are none.
    pub ranges: Vec<TextRange>,
    /// The range of the layer that the parse is for.
    pub range: AnchorRange,
}

/// A step as a value: its ranges as a sequence.
pub struct StepView {
    pub depth: usize,
    pub language: Arc<LanguageDef>,
    pub ranges: Seq<TextRange>,
    pub range: AnchorRange,
}

impl View for ReparseStep {
    type V = StepView;

    open spec fn view(&self) -> StepView {
        StepView {
            depth: self.depth,
            language: self.language,
            ranges: self.ranges@,
            range: self.range,
        }
    }
}

/// The bytes from the start of the first of `ranges` to the end of the last,
/// and `0..0` where there are none.
pub open spec fn hull_of(ranges: Seq<TextRange>) -> ByteRange {
    if ranges.len() == 0 {
        ByteRange { start: 0, end: 0 }
    } else {
        ByteRange { start: ranges.first().start_byte, end: ranges.last().end_byte }
    }
}

impl StepView {
    /// Whether the step's range is that of its ranges: from the start of the
    /// first, keeping to the left, to the end of the last, keeping to the
    /// right. A step without ranges is for the whole buffer.
    pub open spec fn is_tied(self) -> bool {
        self.range == if self.ranges.len() > 0 {
            AnchorRange {
                start: Anchor { offset: hull_of(self.ranges).start, bias: Bias::Left },
                end: Anchor { offset: hull_of(self.ranges).end, bias: Bias::Right },
            }
        } else {
            AnchorRange::spec_all()
        }
    }

    /// How urgent `self` is next to `other`: `Greater` where `self` is to be
    /// taken up first, which is so for the step of less depth, then for the
    /// one that starts earlier, then for the one that ends later.
    pub open spec fn order(self, other: StepView) -> Order {
        order_of(other.depth as int, self.depth as int).or(
            order_of(hull_of(other.ranges).start as int, hull_of(self.ranges).start as int),
        ).or(order_of(hull_of(self.ranges).end as int, hull_of(other.ranges).end as int))
    }
}

impl PartialEq for ReparseStep {
    /// No step is the same as another, whatever the two hold: steps are told
    /// apart by their urgency and by the order in which they were queued.
    fn eq(&self, _other: &ReparseStep) -> (same: bool) {
        false
    }
}

impl PartialEqSpecImpl for ReparseStep {
    open spec fn obeys_eq_spec() -> bool {
        true
    }

    open spec fn eq_spec(&self, _other: &ReparseStep) -> bool {
        false
    }
}

impl ReparseStep {
    /// The bytes that the step's ranges span.
    pub fn range(&self) -> (hull: ByteRange)
        ensures
            hull == hull_of(self.ranges@),
    {
        if self.ranges.len() == 0 {
            ByteRange { start: 0, end: 0 }
        } else {
            ByteRange {
                start: self.ranges[0].start_byte,
                end: self.ranges[self.ranges.len() - 1].end_byte,
            }
        }
    }

    /// How urgent `self` is next to `other`.
    pub fn compare(&self, other: &ReparseStep) -> (r: Order)
        ensures
            r == self@.order(other@),
    {
        let range_a = self.range();
        let range_b = other.range();
        match compare_usize(other.depth, self.depth) {
            Order::Equal => match compare_usize(range_b.start, range_a.start) {
                Order::Equal => compare_usize(range_a.end, range_b.end),
                by_start => by_start,
            },
            by_depth => by_depth,
        }
    }
}

/// Whether the place in the index of a layer of depth `depth` and range
/// `range` is that of a layer of depth `other_depth` and range
/// `other_range`, or in front of it: by depth, then by start, then by end,
/// wider first.
pub open spec fn place_at_or_before(
    depth: usize,
    range: AnchorRange,
    other_depth: usize,
    other_range: AnchorRange,
) -> bool {
    DepthAndRange(other_depth, other_range).order(
        SyntaxLayerSummary { max_depth: depth, range, last_layer_range: range },
    ) != Order::Less
}

impl StepView {
    /// Whether the step is as a reparse queues steps: the step for the whole
    /// buffer is of depth 0 and without ranges, any other is deeper and has
    /// ranges, and the range of each is that of its ranges.
    pub open spec fn is_placed(self) -> bool {
        &&& self.is_tied()
        &&& self.ranges.len() == 0 <==> self.depth == 0
    }
}

/// Of two steps as a reparse queues them, the one is at least as urgent as
/// the other just where the place of its layer in the index is that of the
/// other's or in front of it.
pub proof fn lemma_urgency_is_place(a: StepView, b: StepView)
    requires
        a.is_placed(),
        b.is_placed(),
    ensures
        (a.order(b) != Order::Less) == place_at_or_before(a.depth, a.range, b.depth, b.range),
{
}

/// Of two steps that are not for the whole buffer, and whose ranges are
/// those of their ranges, the more urgent is the one whose layer comes first
/// in the index: the order in which steps are taken up is the order in which
/// their layers are stored.
pub proof fn lemma_urgency_is_index_order(a: StepView, b: StepView)
    requires
        a.is_tied(),
        b.is_tied(),
        a.ranges.len() > 0,
        b.ranges.len() > 0,
    ensures
        a.order(b) == DepthAndRange(b.depth, b.range).order(
            SyntaxLayerSummary { max_depth: a.depth, range: a.range, last_layer_range: a.range },
        ),
{
}

/// The index of the step that is taken up next: the first among the most
/// urgent of `steps`, which is not empty.
pub open spec fn most_urgent(steps: Seq<StepView>) -> int
    decreases steps.len(),
{
    if steps.len() <= 1 {
        0
    } else {
        let best = most_urgent(steps.drop_last());
        if steps.last().order(steps[best]) == Order::Greater {
            steps.len() - 1
        } else {
            best
        }
    }
}

/// The most urgent step is one of the steps, and none is more urgent.
pub proof fn lemma_most_urgent(steps: Seq<StepView>)
    requires
        steps.len() > 0,
    ensures
        0 <= most_urgent(steps) < steps.len(),
        forall|k: int|
            0 <= k < steps.len() ==> (#[trigger] steps[k]).order(steps[most_urgent(steps)])
                != Order::Greater,
    decreases steps.len(),
{
    if steps.len() > 1 {
        let rest = steps.drop_last();
        lemma_most_urgent(rest);
        let best = most_urgent(rest);
        assert forall|k: int| 0 <= k < steps.len() implies (#[trigger] steps[k]).order(
            steps[most_urgent(steps)],
        ) != Order::Greater by {
            if k < steps.len() - 1 {
                assert(steps[k] == rest[k]);
                assert(rest[k].order(rest[best]) != Order::Greater);
            }
        }
    }
}

/// Of equally urgent steps the one queued first is taken up first: every
/// step in front of the one that is taken up next is less urgent than it.
pub proof fn lemma_most_urgent_is_first(steps: Seq<StepView>)
    requires
        steps.len() > 0,
    ensures
        forall|k: int|
            0 <= k < most_urgent(steps) ==> (#[trigger] steps[k]).order(steps[most_urgent(steps)])
                == Order::Less,
    decreases steps.len(),
{
    if steps.len() > 1 {
        let rest = steps.drop_last();
        lemma_most_urgent_is_first(rest);
        lemma_most_urgent(rest);
        let best = most_urgent(rest);
        assert forall|k: int| 0 <= k < most_urgent(steps) implies (#[trigger] steps[k]).order(
            steps[most_urgent(steps)],
        ) == Order::Less by {
            assert(steps[k] == rest[k]);
            assert(steps[best] == rest[best]);
            if most_urgent(steps) == steps.len() - 1 {
                assert(rest[k].order(rest[best]) != Order::Greater);
            }
        }
    }
}

/// The number of steps of the given depth.
pub open spec fn steps_at_depth(steps: Seq<StepView>, depth: usize) -> nat
    decreases steps.len(),
{
    if steps.len() == 0 {
        0
    } else {
        steps_at_depth(steps.drop_last(), depth) + if steps.last().depth == depth {
            1nat
        } else {
            0nat
        }
    }
}

/// Taking a step out of the list lowers the count of its depth by one, and
/// leaves the counts of other depths as they were.
pub proof fn lemma_steps_at_depth_remove(steps: Seq<StepView>, at: int, depth: usize)
    requires
        0 <= at < steps.len(),
    ensures
        steps_at_depth(steps, depth) == steps_at_depth(steps.remove(at), depth) + if steps[at].depth
            == depth {
            1nat
        } else {
            0nat
        },
    decreases steps.len(),
{
    if at == steps.len() - 1 {
        assert(steps.remove(at) =~= steps.drop_last());
    } else {
        lemma_steps_at_depth_remove(steps.drop_last(), at, depth);
        assert(steps.remove(at).drop_last() =~= steps.drop_last().remove(at));
        assert(steps.remove(at).last() == steps.last());
    }
}

/// Steps of another depth, added behind the list, leave the count of a depth
/// as it was.
pub proof fn lemma_steps_at_depth_grown(
    steps: Seq<StepView>,
    longer: Seq<StepView>,
    added: usize,
    depth: usize,
)
    requires
        steps.len() <= longer.len(),
        forall|k: int| 0 <= k < steps.len() ==> longer[k] == steps[k],
        forall|k: int| steps.len() <= k < longer.len() ==> (#[trigger] longer[k]).depth == added,
        added != depth,
    ensures
        steps_at_depth(longer, depth) == steps_at_depth(steps, depth),
    decreases longer.len(),
{
    if steps.len() < longer.len() {
        lemma_steps_at_depth_grown(steps, longer.drop_last(), added, depth);
    } else {
        assert(steps =~= longer);
    }
}

/// The steps that are still to do.
#[derive(Debug)]
pub struct ReparseQueue {
    pub steps: Vec<ReparseStep>,
}

impl View for ReparseQueue {
    type V = Seq<StepView>;

    open spec fn view(&self) -> Seq<StepView> {
        self.steps@.map_values(|step: ReparseStep| step@)
    }
}

impl ReparseQueue {
    /// A queue without steps.
    pub fn new() -> (queue: ReparseQueue)
        ensures
            queue@ == Seq::<StepView>::empty(),
    {
        let queue = ReparseQueue { steps: Vec::new() };
        assert(queue@ =~= Seq::<StepView>::empty());
        queue
    }

    /// Adds a step.
    pub fn push(&mut self, step: ReparseStep)
        ensures
            final(self)@ == old(self)@.push(step@),
    {
        self.steps.push(step);
        assert(self@ =~= old(self)@.push(step@));
    }

    /// Takes out the step to take up next: the least deep, among those the
    /// one that starts first, among those the one that ends last.
    pub fn pop(&mut self) -> (step: Option<ReparseStep>)
        ensures
            old(self)@.len() == 0 ==> step is None && final(self)@ == old(self)@,
            old(self)@.len() > 0 ==> step is Some && step.unwrap()@ == old(self)@[most_urgent(
                old(self)@,
            )] && final(self)@ == old(self)@.remove(most_urgent(old(self)@)),
    {
        if self.steps.len() == 0 {
            return None;
        }
        let mut best: usize = 0;
        let mut i: usize = 1;
        assert(self@.take(1).len() == 1);
        while i < self.steps.len()
            invariant
                *self == *old(self),
                1 <= i <= self.steps.len(),
                best < i,
                best == most_urgent(self@.take(i as int)),
            decreases self.steps.len() - i,
        {
            assert(self@.take(i + 1).drop_last() =~= self@.take(i as int));
            if self.steps[i].compare(&self.steps[best]) == Order::Greater {
                best = i;
            }
            i += 1;
        }
        assert(self@.take(self.steps.len() as int) =~= self@);
        let step = self.steps.remove(best);
        assert(self@ =~= old(self)@.remove(best as int));
        Some(step)
    }
}

} // verus!
