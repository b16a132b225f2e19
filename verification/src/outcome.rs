//! What holds of the outcome of a reparse, whatever the parser finds.

use crate::buffer::BufferSnapshot;
use crate::injection::{content_kept_within, lemma_injections_grow, lemma_injections_within, Found};
use crate::language::{held, Grammar, LanguageDef, LanguageRegistry};
use crate::layer::{
    depth_sorted, lemma_summary_depth, ranges_in_order, seek_end, summary_of, SyntaxLayer,
};
use crate::parse::{lemma_ascending_ranges_rebase, text_parsed};
use crate::parser::{built_under, changed_between, parsed, ByteRange, TextRange};
use crate::position::{Anchor, AnchorRange, Order};
use crate::queue::{
    lemma_most_urgent, lemma_urgency_is_place, most_urgent, place_at_or_before, StepView,
};
use crate::region::{lemma_filtered_sorted, lemma_with_region_sorted, regions_sorted, ChangedRegion};
use crate::reparse::{
    first_state, fresh_extent, lent_tree, region_of, regions_noted, reparsed_in, state_after,
    step_extent, step_taken, State,
};
use crate::summary::{DepthAndRange, DepthAndRangeOrMaxPosition, SeekTarget};
use crate::walk::{
    advanced, lemma_advanced_by_depth, lemma_advanced_by_seek, lemma_advanced_keeps,
    lemma_seek_by_depth, lemma_walked_regions_sorted, walked, Walk,
};
use std::sync::Arc;
use vstd::prelude::*;

verus! {

/// Noting changed regions keeps the list of regions sorted.
pub proof fn lemma_regions_noted_sorted(
    regions: Seq<ChangedRegion>,
    depth: usize,
    changed: Seq<ByteRange>,
)
    requires
        regions_sorted(regions),
    ensures
        regions_sorted(regions_noted(regions, depth, changed)),
    decreases changed.len(),
{
    if changed.len() > 0 {
        lemma_regions_noted_sorted(regions, depth, changed.drop_last());
        lemma_with_region_sorted(
            regions_noted(regions, depth, changed.drop_last()),
            region_of(depth, changed.last()),
        );
    }
}

/// At every step of a reparse the changed regions are in order: by depth,
/// then by start, then by end, wider first, and none twice. So the first of
/// them is the least.
pub proof fn lemma_state_regions_sorted(
    old: Seq<SyntaxLayer>,
    registry: Option<Arc<LanguageRegistry>>,
    language: Arc<LanguageDef>,
    buffer: BufferSnapshot,
    n: nat,
)
    ensures
        regions_sorted(state_after(old, registry, language, buffer, n).walk.regions),
    decreases n,
{
    if n > 0 {
        lemma_state_regions_sorted(old, registry, language, buffer, (n - 1) as nat);
        let before = state_after(old, registry, language, buffer, (n - 1) as nat);
        if before.queue.len() > 0 {
            let step = before.queue[most_urgent(before.queue)];
            let walk = before.walk;
            let target = DepthAndRange(step.depth, step.range);
            let at = advanced(old, step.depth, step.range, walk);
            if target.order(summary_of(old.take(walk.position))) == Order::Greater {
                let change_start = if walk.regions.len() > 0 {
                    walk.regions[0].range.start
                } else {
                    Anchor::spec_max()
                };
                let to = seek_end(
                    old,
                    walk.position,
                    DepthAndRangeOrMaxPosition(step.depth, step.range, change_start),
                );
                let sliced = Walk {
                    position: to,
                    layers: walk.layers + old.subrange(walk.position, to),
                    regions: walk.regions,
                };
                lemma_walked_regions_sorted(old, target, sliced);
                lemma_filtered_sorted(
                    walked(old, target, sliced).regions,
                    |r: ChangedRegion| r.outlives(step.depth, step.range.start),
                );
            }
            assert(regions_sorted(at.regions));
            if step.depth < usize::MAX {
                match step.language.grammar {
                    None => {},
                    Some(grammar) => {
                        let old_tree = lent_tree(
                            old,
                            at.position,
                            step.ranges,
                            buffer,
                            held(grammar),
                        );
                        match text_parsed(held(grammar), buffer.text@, old_tree, step.ranges) {
                            None => {},
                            Some(tree) => {
                                let changed = match old_tree {
                                    Some(old_tree) => changed_between(old_tree, tree),
                                    None => seq![
                                        fresh_extent(
                                            step_extent(step.ranges, buffer.text.len()),
                                        ),
                                    ],
                                };
                                lemma_regions_noted_sorted(
                                    at.regions,
                                    (step.depth + 1) as usize,
                                    changed,
                                );
                            },
                        }
                    },
                }
            }
        }
    }
}

/// Whether every step's range is that of its ranges.
pub open spec fn steps_tied(queue: Seq<StepView>) -> bool {
    forall|k: int| 0 <= k < queue.len() ==> (#[trigger] queue[k]).is_tied()
}

/// Taking up a step keeps the ranges of the layers in order, the walk
/// within the old layers, and the ranges of the steps those of their ranges.
pub proof fn lemma_step_taken_in_order(
    old: Seq<SyntaxLayer>,
    registry: Option<Arc<LanguageRegistry>>,
    buffer: BufferSnapshot,
    step: StepView,
    state: State,
)
    requires
        ranges_in_order(old),
        ranges_in_order(state.walk.layers),
        steps_tied(state.queue),
        step.is_tied(),
        0 <= state.walk.position <= old.len(),
    ensures
        ranges_in_order(step_taken(old, registry, buffer, step, state).walk.layers),
        steps_tied(step_taken(old, registry, buffer, step, state).queue),
        0 <= step_taken(old, registry, buffer, step, state).walk.position <= old.len(),
{
    let at = advanced(old, step.depth, step.range, state.walk);
    lemma_advanced_keeps(old, step.depth, step.range, state.walk);
    assert(ranges_in_order(at.layers)) by {
        assert forall|k: int| 0 <= k < at.layers.len() implies (
        #[trigger] at.layers[k]).range_in_order() by {
            let l = at.layers[k];
            assert(at.layers.contains(l));
            if state.walk.layers.contains(l) {
                let j = choose|j: int|
                    0 <= j < state.walk.layers.len() && state.walk.layers[j] == l;
                assert(state.walk.layers[j].range_in_order());
            } else {
                let j = choose|j: int| 0 <= j < old.len() && old[j] == l;
                assert(old[j].range_in_order());
            }
        }
    }
    let after = step_taken(old, registry, buffer, step, state);
    let extent = step_extent(step.ranges, buffer.text.len());
    match step.language.grammar {
        None => {},
        Some(grammar) => {
            let old_tree = lent_tree(old, at.position, step.ranges, buffer, held(grammar));
            match text_parsed(held(grammar), buffer.text@, old_tree, step.ranges) {
                None => {},
                Some(tree) => {
                    let layer = SyntaxLayer {
                        depth: step.depth,
                        range: step.range,
                        tree,
                        language: step.language,
                    };
                    assert(layer.range_in_order()) by {
                        if step.ranges.len() > 0 {
                            lemma_ascending_ranges_rebase(step.ranges, step.ranges.len() - 1);
                        }
                    }
                    assert(ranges_in_order(at.layers.push(layer)));
                    let changed = match old_tree {
                        Some(old_tree) => changed_between(old_tree, tree),
                        None => seq![fresh_extent(extent)],
                    };
                    let config = held(grammar).injection_config;
                    if config is Some && registry is Some && changed.len() > 0 && step.depth
                        < usize::MAX {
                        lemma_injections_grow(
                            config.unwrap(),
                            held(registry.unwrap()),
                            buffer.text@,
                            tree,
                            (step.depth + 1) as usize,
                            extent.0,
                            extent.1,
                            changed,
                            Found { queue: state.queue, last: None, any: false },
                        );
                    }
                },
            }
        },
    }
}

/// At every step of a reparse of layers whose ranges are in order, the
/// ranges of the layers kept and parsed so far are in order.
pub proof fn lemma_state_in_order(
    old: Seq<SyntaxLayer>,
    registry: Option<Arc<LanguageRegistry>>,
    language: Arc<LanguageDef>,
    buffer: BufferSnapshot,
    n: nat,
)
    requires
        ranges_in_order(old),
    ensures
        ranges_in_order(state_after(old, registry, language, buffer, n).walk.layers),
        steps_tied(state_after(old, registry, language, buffer, n).queue),
        0 <= state_after(old, registry, language, buffer, n).walk.position <= old.len(),
    decreases n,
{
    if n > 0 {
        lemma_state_in_order(old, registry, language, buffer, (n - 1) as nat);
        let before = state_after(old, registry, language, buffer, (n - 1) as nat);
        if before.queue.len() > 0 {
            let next = most_urgent(before.queue);
            lemma_most_urgent(before.queue);
            let rest = before.queue.remove(next);
            assert(steps_tied(rest)) by {
                assert forall|k: int| 0 <= k < rest.len() implies (#[trigger] rest[k]).is_tied() by {
                    if k < next {
                        assert(rest[k] == before.queue[k]);
                    } else {
                        assert(rest[k] == before.queue[k + 1]);
                    }
                }
            }
            lemma_step_taken_in_order(
                old,
                registry,
                buffer,
                before.queue[next],
                State { walk: before.walk, queue: rest },
            );
        }
    }
}

/// A reparse of layers whose ranges are in order gives layers whose ranges
/// are in order: each runs from an anchor that keeps to the left to one, at
/// or behind it, that keeps to the right.
pub proof fn lemma_reparse_keeps_ranges_in_order(
    old: Seq<SyntaxLayer>,
    registry: Option<Arc<LanguageRegistry>>,
    language: Arc<LanguageDef>,
    buffer: BufferSnapshot,
    n: nat,
    layers: Seq<SyntaxLayer>,
)
    requires
        ranges_in_order(old),
        reparsed_in(old, registry, language, buffer, n, layers),
    ensures
        ranges_in_order(layers),
{
    lemma_state_in_order(old, registry, language, buffer, n);
    let walk = state_after(old, registry, language, buffer, n).walk;
    let depth = summary_of(old.take(walk.position)).max_depth;
    let range = AnchorRange { start: Anchor::spec_max(), end: Anchor::spec_max() };
    lemma_advanced_keeps(old, depth, range, walk);
    assert forall|k: int| 0 <= k < layers.len() implies (#[trigger] layers[k]).range_in_order() by {
        let l = layers[k];
        assert(layers.contains(l));
        if walk.layers.contains(l) {
            let j = choose|j: int| 0 <= j < walk.layers.len() && walk.layers[j] == l;
            assert(walk.layers[j].range_in_order());
        } else {
            let j = choose|j: int| 0 <= j < old.len() && old[j] == l;
            assert(old[j].range_in_order());
        }
    }
}

/// Once no parse is left to do, further steps change nothing.
pub proof fn lemma_state_settles(
    old: Seq<SyntaxLayer>,
    registry: Option<Arc<LanguageRegistry>>,
    language: Arc<LanguageDef>,
    buffer: BufferSnapshot,
    n: nat,
    m: nat,
)
    requires
        state_after(old, registry, language, buffer, n).queue.len() == 0,
        n <= m,
    ensures
        state_after(old, registry, language, buffer, m) == state_after(
            old,
            registry,
            language,
            buffer,
            n,
        ),
    decreases m,
{
    if n < m {
        lemma_state_settles(old, registry, language, buffer, n, (m - 1) as nat);
    }
}

/// A reparse has one outcome: the old layers, the registry, the language
/// and the buffer fix the new index, whatever the number of steps at which
/// it is looked at.
pub proof fn lemma_reparse_determined(
    old: Seq<SyntaxLayer>,
    registry: Option<Arc<LanguageRegistry>>,
    language: Arc<LanguageDef>,
    buffer: BufferSnapshot,
    n: nat,
    first: Seq<SyntaxLayer>,
    m: nat,
    second: Seq<SyntaxLayer>,
)
    requires
        reparsed_in(old, registry, language, buffer, n, first),
        reparsed_in(old, registry, language, buffer, m, second),
    ensures
        first == second,
{
    if n <= m {
        lemma_state_settles(old, registry, language, buffer, n, m);
    } else {
        lemma_state_settles(old, registry, language, buffer, m, n);
    }
}

/// The tree that the parse of the whole buffer under `grammar` starts from:
/// that of the first old layer, if that layer spans the whole buffer and its
/// tree was built under the same grammar, and none otherwise.
pub open spec fn root_old_tree(old: Seq<SyntaxLayer>, buffer: BufferSnapshot, grammar: Grammar) -> Option<
    tree_sitter::Tree,
> {
    if old.len() > 0 && buffer.offset_of(old[0].range.start) == 0 && buffer.offset_of(
        old[0].range.end,
    ) == buffer.text.len() && built_under(old[0].tree, grammar.ts_language) {
        Some(old[0].tree)
    } else {
        None
    }
}

/// The first step of a reparse is the parse of the whole buffer in its own
/// language. An old layer that spans the whole buffer lends it its tree, if
/// that was built under the same grammar. The
/// layer that the parse gives, if the language has a grammar and the parser
/// gives a tree, is the first of the new index, with depth 0 and a range
/// that covers everything; without a grammar or a tree the step adds no
/// layer.
pub proof fn lemma_first_step(
    old: Seq<SyntaxLayer>,
    registry: Option<Arc<LanguageRegistry>>,
    language: Arc<LanguageDef>,
    buffer: BufferSnapshot,
)
    ensures
        state_after(old, registry, language, buffer, 1).walk.layers == match language.grammar {
            Some(grammar) => match text_parsed(
                *grammar,
                buffer.text@,
                root_old_tree(old, buffer, *grammar),
                Seq::empty(),
            ) {
                Some(tree) => seq![
                    SyntaxLayer { depth: 0, range: AnchorRange::spec_all(), tree, language },
                ],
                None => Seq::empty(),
            },
            None => Seq::empty(),
        },
        language.grammar is None ==> state_after(old, registry, language, buffer, 1).queue.len()
            == 0,
{
    let first = first_state(language);
    assert(state_after(old, registry, language, buffer, 0) == first);
    assert(most_urgent(first.queue) == 0);
    assert(first.queue.remove(0) =~= Seq::<StepView>::empty());
    assert(old.take(0) =~= Seq::<SyntaxLayer>::empty());
    let step = first.queue[0];
    let state = State { walk: first.walk, queue: Seq::<StepView>::empty() };
    assert(advanced(old, 0, AnchorRange::spec_all(), first.walk) == first.walk);
    assert(state_after(old, registry, language, buffer, 1) == step_taken(
        old,
        registry,
        buffer,
        step,
        state,
    ));
    match language.grammar {
        Some(grammar) => {
            assert(lent_tree(old, 0, Seq::<TextRange>::empty(), buffer, held(grammar))
                == root_old_tree(old, buffer, held(grammar)));
            match text_parsed(
                held(grammar),
                buffer.text@,
                root_old_tree(old, buffer, held(grammar)),
                Seq::empty(),
            ) {
                Some(tree) => {
                    assert(Seq::<SyntaxLayer>::empty().push(
                        SyntaxLayer { depth: 0, range: AnchorRange::spec_all(), tree, language },
                    ) =~= seq![
                        SyntaxLayer { depth: 0, range: AnchorRange::spec_all(), tree, language },
                    ]);
                },
                None => {},
            }
        },
        None => {},
    }
}

/// The depth of the step that a reparse has taken up last after `n` steps,
/// and 0 before the first.
pub open spec fn depth_reached(
    old: Seq<SyntaxLayer>,
    registry: Option<Arc<LanguageRegistry>>,
    language: Arc<LanguageDef>,
    buffer: BufferSnapshot,
    n: nat,
) -> usize
    decreases n,
{
    if n == 0 {
        0
    } else {
        let before = state_after(old, registry, language, buffer, (n - 1) as nat);
        if before.queue.len() == 0 {
            depth_reached(old, registry, language, buffer, (n - 1) as nat)
        } else {
            before.queue[most_urgent(before.queue)].depth
        }
    }
}

/// Whether a reparse that has reached `depth` is in order of depth: what it
/// has kept and parsed is in order of depth and no deeper than `depth`, what
/// it has not yet passed of the old layers is at least that deep, and so
/// are the steps still to do.
pub open spec fn state_by_depth(old: Seq<SyntaxLayer>, state: State, depth: usize) -> bool {
    &&& 0 <= state.walk.position <= old.len()
    &&& depth_sorted(state.walk.layers)
    &&& forall|k: int|
        0 <= k < state.walk.layers.len() ==> (#[trigger] state.walk.layers[k]).depth <= depth
    &&& state.walk.position < old.len() ==> old[state.walk.position].depth >= depth
    &&& forall|k: int| 0 <= k < state.queue.len() ==> (#[trigger] state.queue[k]).depth >= depth
}

/// Taking up a step that is no less deep than what the reparse has reached,
/// and no deeper than any other step, keeps the reparse in order of depth.
proof fn lemma_step_taken_by_depth(
    old: Seq<SyntaxLayer>,
    registry: Option<Arc<LanguageRegistry>>,
    buffer: BufferSnapshot,
    step: StepView,
    state: State,
    reached: usize,
)
    requires
        depth_sorted(old),
        state_by_depth(old, state, reached),
        reached <= step.depth,
        forall|k: int| 0 <= k < state.queue.len() ==> (#[trigger] state.queue[k]).depth >= step.depth,
    ensures
        state_by_depth(old, step_taken(old, registry, buffer, step, state), step.depth),
{
    let at = advanced(old, step.depth, step.range, state.walk);
    lemma_advanced_by_depth(old, step.depth, step.range, state.walk, reached);
    let extent = step_extent(step.ranges, buffer.text.len());
    let after = step_taken(old, registry, buffer, step, state);
    if at.position + 1 < old.len() {
        assert(old[at.position].depth <= old[at.position + 1].depth);
    }
    match step.language.grammar {
        None => {},
        Some(grammar) => {
            let old_tree = lent_tree(old, at.position, step.ranges, buffer, held(grammar));
            match text_parsed(held(grammar), buffer.text@, old_tree, step.ranges) {
                None => {},
                Some(tree) => {
                    let layer = SyntaxLayer {
                        depth: step.depth,
                        range: step.range,
                        tree,
                        language: step.language,
                    };
                    let layers = at.layers.push(layer);
                    assert(depth_sorted(layers)) by {
                        assert forall|i: int, j: int| 0 <= i <= j < layers.len() implies (
                        #[trigger] layers[i]).depth <= (#[trigger] layers[j]).depth by {
                            if j < at.layers.len() {
                                assert(layers[i] == at.layers[i]);
                                assert(layers[j] == at.layers[j]);
                            } else if i < at.layers.len() {
                                assert(layers[i] == at.layers[i]);
                            }
                        }
                    }
                    assert forall|k: int| 0 <= k < layers.len() implies (
                    #[trigger] layers[k]).depth <= step.depth by {
                        if k < at.layers.len() {
                            assert(layers[k] == at.layers[k]);
                        }
                    }
                    let changed = match old_tree {
                        Some(old_tree) => changed_between(old_tree, tree),
                        None => seq![fresh_extent(extent)],
                    };
                    let config = held(grammar).injection_config;
                    if config is Some && registry is Some && changed.len() > 0 && step.depth
                        < usize::MAX {
                        lemma_injections_grow(
                            config.unwrap(),
                            held(registry.unwrap()),
                            buffer.text@,
                            tree,
                            (step.depth + 1) as usize,
                            extent.0,
                            extent.1,
                            changed,
                            Found { queue: state.queue, last: None, any: false },
                        );
                        assert forall|k: int| 0 <= k < after.queue.len() implies (
                        #[trigger] after.queue[k]).depth >= step.depth by {
                            if k < state.queue.len() {
                                assert(after.queue[k] == state.queue[k]);
                            }
                        }
                    }
                },
            }
        },
    }
}

/// At every step of a reparse of layers that are in order of depth, the
/// reparse is in order of depth.
pub proof fn lemma_state_by_depth(
    old: Seq<SyntaxLayer>,
    registry: Option<Arc<LanguageRegistry>>,
    language: Arc<LanguageDef>,
    buffer: BufferSnapshot,
    n: nat,
)
    requires
        depth_sorted(old),
    ensures
        state_by_depth(
            old,
            state_after(old, registry, language, buffer, n),
            depth_reached(old, registry, language, buffer, n),
        ),
    decreases n,
{
    if n > 0 {
        lemma_state_by_depth(old, registry, language, buffer, (n - 1) as nat);
        let before = state_after(old, registry, language, buffer, (n - 1) as nat);
        let reached = depth_reached(old, registry, language, buffer, (n - 1) as nat);
        if before.queue.len() > 0 {
            let next = most_urgent(before.queue);
            lemma_most_urgent(before.queue);
            let step = before.queue[next];
            let rest = before.queue.remove(next);
            assert forall|k: int| 0 <= k < rest.len() implies (#[trigger] rest[k]).depth
                >= step.depth by {
                if k < next {
                    assert(rest[k] == before.queue[k]);
                    assert(before.queue[k].order(step) != Order::Greater);
                } else {
                    assert(rest[k] == before.queue[k + 1]);
                    assert(before.queue[k + 1].order(step) != Order::Greater);
                }
            }
            lemma_step_taken_by_depth(
                old,
                registry,
                buffer,
                step,
                State { walk: before.walk, queue: rest },
                reached,
            );
        }
    } else {
        let first = first_state(language);
        assert(first.walk.layers.len() == 0);
    }
}

/// A reparse of layers that are in order of depth gives layers that are in
/// order of depth, least deep first.
pub proof fn lemma_reparse_keeps_depth_order(
    old: Seq<SyntaxLayer>,
    registry: Option<Arc<LanguageRegistry>>,
    language: Arc<LanguageDef>,
    buffer: BufferSnapshot,
    n: nat,
    layers: Seq<SyntaxLayer>,
)
    requires
        depth_sorted(old),
        reparsed_in(old, registry, language, buffer, n, layers),
    ensures
        depth_sorted(layers),
{
    lemma_state_by_depth(old, registry, language, buffer, n);
    let state = state_after(old, registry, language, buffer, n);
    let reached = depth_reached(old, registry, language, buffer, n);
    let passed = old.take(state.walk.position);
    let depth = summary_of(passed).max_depth;
    lemma_summary_depth(passed);
    // What the walk has kept and parsed is no deeper than what it has
    // passed of the old layers, or the walk has passed nothing and kept
    // nothing deeper than it has reached.
    let range = AnchorRange { start: Anchor::spec_max(), end: Anchor::spec_max() };
    let target = DepthAndRange(depth, range);
    if target.order(summary_of(passed)) == Order::Greater {
        lemma_advanced_by_seek(old, depth, range, state.walk);
        let change_start = if state.walk.regions.len() > 0 {
            state.walk.regions[0].range.start
        } else {
            Anchor::spec_max()
        };
        lemma_seek_by_depth(old, state.walk.position, depth, range, change_start);
        let to = seek_end(
            old,
            state.walk.position,
            DepthAndRangeOrMaxPosition(depth, range, change_start),
        );
        assert(layers == state.walk.layers + old.subrange(state.walk.position, to));
        assert forall|i: int, j: int| 0 <= i <= j < layers.len() implies (
        #[trigger] layers[i]).depth <= (#[trigger] layers[j]).depth by {
            let m = state.walk.layers.len();
            if j < m {
                assert(layers[i] == state.walk.layers[i]);
                assert(layers[j] == state.walk.layers[j]);
            } else if i < m {
                assert(layers[i] == state.walk.layers[i]);
                assert(layers[j] == old[state.walk.position + (j - m)]);
                assert(old[state.walk.position].depth <= old[state.walk.position + (j - m)].depth);
            } else {
                assert(layers[i] == old[state.walk.position + (i - m)]);
                assert(layers[j] == old[state.walk.position + (j - m)]);
            }
        }
    }
}

/// The step that a reparse has taken up last within its first `n` steps, if
/// it has taken up any.
pub open spec fn last_step(
    old: Seq<SyntaxLayer>,
    registry: Option<Arc<LanguageRegistry>>,
    language: Arc<LanguageDef>,
    buffer: BufferSnapshot,
    n: nat,
) -> Option<StepView>
    decreases n,
{
    if n == 0 {
        None
    } else {
        let before = state_after(old, registry, language, buffer, (n - 1) as nat);
        if before.queue.len() == 0 {
            last_step(old, registry, language, buffer, (n - 1) as nat)
        } else {
            Some(before.queue[most_urgent(before.queue)])
        }
    }
}

/// Whether the layers that are not among the old ones stand in the order of
/// the index among themselves: by depth, then by start, then by end, wider
/// first.
pub open spec fn parsed_in_place(old: Seq<SyntaxLayer>, layers: Seq<SyntaxLayer>) -> bool {
    forall|i: int, j: int|
        0 <= i < j < layers.len() ==> old.contains(#[trigger] layers[i]) || old.contains(
            #[trigger] layers[j],
        ) || place_at_or_before(
            layers[i].depth,
            layers[i].range,
            layers[j].depth,
            layers[j].range,
        )
}

/// Whether a reparse whose last step was `last` is in place: what it has
/// parsed stands in the order of the index, at the place of `last` or in
/// front of it, and the steps still to do are for places at that of `last`
/// or behind it.
pub open spec fn state_placed(old: Seq<SyntaxLayer>, state: State, last: Option<StepView>) -> bool {
    &&& 0 <= state.walk.position <= old.len()
    &&& forall|k: int| 0 <= k < state.queue.len() ==> (#[trigger] state.queue[k]).is_placed()
    &&& last is Some ==> last.unwrap().is_placed()
    &&& forall|k: int|
        0 <= k < state.queue.len() && last is Some ==> place_at_or_before(
            last.unwrap().depth,
            last.unwrap().range,
            (#[trigger] state.queue[k]).depth,
            state.queue[k].range,
        )
    &&& forall|k: int|
        0 <= k < state.walk.layers.len() ==> old.contains(#[trigger] state.walk.layers[k]) || (last
            is Some && place_at_or_before(
            state.walk.layers[k].depth,
            state.walk.layers[k].range,
            last.unwrap().depth,
            last.unwrap().range,
        ))
    &&& parsed_in_place(old, state.walk.layers)
}

/// Bringing the walk up to a place adds old layers only, behind what the
/// walk has kept and parsed before.
proof fn lemma_advanced_adds_old(old: Seq<SyntaxLayer>, depth: usize, range: AnchorRange, walk: Walk)
    requires
        0 <= walk.position <= old.len(),
    ensures
        ({
            let at = advanced(old, depth, range, walk);
            &&& walk.position <= at.position <= old.len()
            &&& walk.layers.len() <= at.layers.len()
            &&& forall|k: int| 0 <= k < walk.layers.len() ==> at.layers[k] == walk.layers[k]
            &&& forall|k: int|
                walk.layers.len() <= k < at.layers.len() ==> old.contains(#[trigger] at.layers[k])
        }),
{
    lemma_advanced_keeps(old, depth, range, walk);
    if DepthAndRange(depth, range).order(summary_of(old.take(walk.position))) == Order::Greater {
        lemma_advanced_by_seek(old, depth, range, walk);
        let at = advanced(old, depth, range, walk);
        assert forall|k: int| walk.layers.len() <= k < at.layers.len() implies old.contains(
            #[trigger] at.layers[k],
        ) by {
            assert(at.layers[k] == old[walk.position + (k - walk.layers.len())]);
        }
    }
}

/// Layers in place stay in place when old layers are added behind them.
proof fn lemma_placed_with_old(
    old: Seq<SyntaxLayer>,
    layers: Seq<SyntaxLayer>,
    longer: Seq<SyntaxLayer>,
)
    requires
        parsed_in_place(old, layers),
        layers.len() <= longer.len(),
        forall|k: int| 0 <= k < layers.len() ==> longer[k] == layers[k],
        forall|k: int| layers.len() <= k < longer.len() ==> old.contains(#[trigger] longer[k]),
    ensures
        parsed_in_place(old, longer),
{
    assert forall|i: int, j: int| 0 <= i < j < longer.len() implies old.contains(
        #[trigger] longer[i],
    ) || old.contains(#[trigger] longer[j]) || place_at_or_before(
        longer[i].depth,
        longer[i].range,
        longer[j].depth,
        longer[j].range,
    ) by {
        if j < layers.len() {
            assert(longer[i] == layers[i]);
            assert(longer[j] == layers[j]);
        }
    }
}

/// Taking up a step whose place is at that of the last step or behind it,
/// and at those of the steps still to do or in front of them, keeps the
/// reparse in place.
proof fn lemma_step_taken_placed(
    old: Seq<SyntaxLayer>,
    registry: Option<Arc<LanguageRegistry>>,
    buffer: BufferSnapshot,
    step: StepView,
    state: State,
    last: Option<StepView>,
)
    requires
        state_placed(old, state, last),
        step.is_placed(),
        last is Some ==> place_at_or_before(
            last.unwrap().depth,
            last.unwrap().range,
            step.depth,
            step.range,
        ),
        forall|k: int|
            0 <= k < state.queue.len() ==> place_at_or_before(
                step.depth,
                step.range,
                (#[trigger] state.queue[k]).depth,
                state.queue[k].range,
            ),
    ensures
        state_placed(old, step_taken(old, registry, buffer, step, state), Some(step)),
{
    let at = advanced(old, step.depth, step.range, state.walk);
    lemma_advanced_adds_old(old, step.depth, step.range, state.walk);
    lemma_placed_with_old(old, state.walk.layers, at.layers);
    let after = step_taken(old, registry, buffer, step, state);
    let extent = step_extent(step.ranges, buffer.text.len());
    assert forall|k: int| 0 <= k < at.layers.len() implies old.contains(#[trigger] at.layers[k])
        || place_at_or_before(at.layers[k].depth, at.layers[k].range, step.depth, step.range) by {
        if k < state.walk.layers.len() {
            assert(at.layers[k] == state.walk.layers[k]);
        }
    }
    match step.language.grammar {
        None => {},
        Some(grammar) => {
            let old_tree = lent_tree(old, at.position, step.ranges, buffer, held(grammar));
            match text_parsed(held(grammar), buffer.text@, old_tree, step.ranges) {
                None => {},
                Some(tree) => {
                    let layer = SyntaxLayer {
                        depth: step.depth,
                        range: step.range,
                        tree,
                        language: step.language,
                    };
                    let layers = at.layers.push(layer);
                    assert(parsed_in_place(old, layers)) by {
                        assert forall|i: int, j: int| 0 <= i < j < layers.len() implies old.contains(
                            #[trigger] layers[i],
                        ) || old.contains(#[trigger] layers[j]) || place_at_or_before(
                            layers[i].depth,
                            layers[i].range,
                            layers[j].depth,
                            layers[j].range,
                        ) by {
                            assert(layers[i] == at.layers[i]);
                            if j < at.layers.len() {
                                assert(layers[j] == at.layers[j]);
                            }
                        }
                    }
                    assert forall|k: int| 0 <= k < layers.len() implies old.contains(
                        #[trigger] layers[k],
                    ) || place_at_or_before(
                        layers[k].depth,
                        layers[k].range,
                        step.depth,
                        step.range,
                    ) by {
                        if k < at.layers.len() {
                            assert(layers[k] == at.layers[k]);
                        }
                    }
                    let changed = match old_tree {
                        Some(old_tree) => changed_between(old_tree, tree),
                        None => seq![fresh_extent(extent)],
                    };
                    let config = held(grammar).injection_config;
                    if config is Some && registry is Some && changed.len() > 0 && step.depth
                        < usize::MAX {
                        lemma_injections_grow(
                            config.unwrap(),
                            held(registry.unwrap()),
                            buffer.text@,
                            tree,
                            (step.depth + 1) as usize,
                            extent.0,
                            extent.1,
                            changed,
                            Found { queue: state.queue, last: None, any: false },
                        );
                        assert forall|k: int| 0 <= k < after.queue.len() implies (
                        #[trigger] after.queue[k]).is_placed() && place_at_or_before(
                            step.depth,
                            step.range,
                            after.queue[k].depth,
                            after.queue[k].range,
                        ) by {
                            if k < state.queue.len() {
                                assert(after.queue[k] == state.queue[k]);
                            }
                        }
                    }
                },
            }
        },
    }
}

/// At every step of a reparse, the reparse is in place.
proof fn lemma_state_placed(
    old: Seq<SyntaxLayer>,
    registry: Option<Arc<LanguageRegistry>>,
    language: Arc<LanguageDef>,
    buffer: BufferSnapshot,
    n: nat,
)
    ensures
        state_placed(
            old,
            state_after(old, registry, language, buffer, n),
            last_step(old, registry, language, buffer, n),
        ),
    decreases n,
{
    if n > 0 {
        lemma_state_placed(old, registry, language, buffer, (n - 1) as nat);
        let before = state_after(old, registry, language, buffer, (n - 1) as nat);
        let last = last_step(old, registry, language, buffer, (n - 1) as nat);
        if before.queue.len() > 0 {
            let next = most_urgent(before.queue);
            lemma_most_urgent(before.queue);
            let step = before.queue[next];
            let rest = before.queue.remove(next);
            assert forall|k: int| 0 <= k < rest.len() implies (#[trigger] rest[k]).is_placed()
                && place_at_or_before(step.depth, step.range, rest[k].depth, rest[k].range) && (
            last is Some ==> place_at_or_before(
                last.unwrap().depth,
                last.unwrap().range,
                rest[k].depth,
                rest[k].range,
            )) by {
                let q = if k < next {
                    before.queue[k]
                } else {
                    before.queue[k + 1]
                };
                assert(rest[k] == q);
                assert(q.is_placed());
                assert(q.order(step) != Order::Greater);
                lemma_urgency_is_place(step, q);
            }
            lemma_step_taken_placed(
                old,
                registry,
                buffer,
                step,
                State { walk: before.walk, queue: rest },
                last,
            );
        }
    } else {
        let first = first_state(language);
        assert(first.queue[0].is_placed());
    }
}

/// The layers that a reparse has parsed itself, which are those of the new
/// index that are not among the old layers, stand in the order of the index
/// among themselves: by depth, then by start, then by end, wider first.
/// (Where among them the old layers are kept is for the walk to decide, and
/// the place of each of those is where the cursor passed it.)
pub proof fn lemma_reparse_places_its_layers(
    old: Seq<SyntaxLayer>,
    registry: Option<Arc<LanguageRegistry>>,
    language: Arc<LanguageDef>,
    buffer: BufferSnapshot,
    n: nat,
    layers: Seq<SyntaxLayer>,
)
    requires
        reparsed_in(old, registry, language, buffer, n, layers),
    ensures
        parsed_in_place(old, layers),
{
    lemma_state_placed(old, registry, language, buffer, n);
    let walk = state_after(old, registry, language, buffer, n).walk;
    let depth = summary_of(old.take(walk.position)).max_depth;
    let range = AnchorRange { start: Anchor::spec_max(), end: Anchor::spec_max() };
    lemma_advanced_adds_old(old, depth, range, walk);
    lemma_placed_with_old(old, walk.layers, layers);
}

/// Whether each layer is an old layer, or of depth 0, or has a layer one
/// level less deep in front of it.
pub open spec fn layers_rooted(old: Seq<SyntaxLayer>, layers: Seq<SyntaxLayer>) -> bool {
    forall|k: int|
        0 <= k < layers.len() ==> old.contains(#[trigger] layers[k]) || layers[k].depth == 0
            || exists|j: int| 0 <= j < k && (#[trigger] layers[j]).depth + 1 == layers[k].depth
}

/// Whether each step is of depth 0 or has a layer one level less deep among
/// `layers`.
pub open spec fn steps_rooted(layers: Seq<SyntaxLayer>, queue: Seq<StepView>) -> bool {
    forall|k: int|
        0 <= k < queue.len() ==> (#[trigger] queue[k]).depth == 0 || exists|j: int|
            0 <= j < layers.len() && (#[trigger] layers[j]).depth + 1 == queue[k].depth
}

/// Layers that are rooted stay so when old layers are added behind them.
proof fn lemma_rooted_with_old(
    old: Seq<SyntaxLayer>,
    layers: Seq<SyntaxLayer>,
    longer: Seq<SyntaxLayer>,
)
    requires
        layers_rooted(old, layers),
        layers.is_prefix_of(longer),
        forall|l: SyntaxLayer| #[trigger] longer.contains(l) ==> layers.contains(l) || old.contains(l),
    ensures
        layers_rooted(old, longer),
{
    assert forall|k: int| 0 <= k < longer.len() implies old.contains(#[trigger] longer[k])
        || longer[k].depth == 0 || exists|j: int|
        0 <= j < k && (#[trigger] longer[j]).depth + 1 == longer[k].depth by {
        if k < layers.len() {
            assert(longer[k] == layers[k]);
            if !old.contains(layers[k]) && layers[k].depth != 0 {
                let j = choose|j: int|
                    0 <= j < k && (#[trigger] layers[j]).depth + 1 == layers[k].depth;
                assert(longer[j] == layers[j]);
            }
        } else {
            assert(longer.contains(longer[k]));
            if layers.contains(longer[k]) {
                let i = choose|i: int| 0 <= i < layers.len() && layers[i] == longer[k];
                assert(longer[i] == layers[i]);
                if !old.contains(layers[i]) && layers[i].depth != 0 {
                    let j = choose|j: int|
                        0 <= j < i && (#[trigger] layers[j]).depth + 1 == layers[i].depth;
                    assert(longer[j] == layers[j]);
                }
            }
        }
    }
}

/// Steps that are rooted in layers are rooted in more layers.
proof fn lemma_steps_rooted_in_more(
    layers: Seq<SyntaxLayer>,
    longer: Seq<SyntaxLayer>,
    queue: Seq<StepView>,
)
    requires
        steps_rooted(layers, queue),
        layers.is_prefix_of(longer),
    ensures
        steps_rooted(longer, queue),
{
    assert forall|k: int| 0 <= k < queue.len() implies (#[trigger] queue[k]).depth == 0
        || exists|j: int|
        0 <= j < longer.len() && (#[trigger] longer[j]).depth + 1 == queue[k].depth by {
        if queue[k].depth != 0 {
            let j = choose|j: int|
                0 <= j < layers.len() && (#[trigger] layers[j]).depth + 1 == queue[k].depth;
            assert(longer[j] == layers[j]);
        }
    }
}

/// Taking up a step keeps the layers and the steps rooted.
proof fn lemma_step_taken_rooted(
    old: Seq<SyntaxLayer>,
    registry: Option<Arc<LanguageRegistry>>,
    buffer: BufferSnapshot,
    step: StepView,
    state: State,
)
    requires
        0 <= state.walk.position <= old.len(),
        layers_rooted(old, state.walk.layers),
        steps_rooted(state.walk.layers, state.queue),
        step.depth == 0 || exists|j: int|
            0 <= j < state.walk.layers.len() && (#[trigger] state.walk.layers[j]).depth + 1
                == step.depth,
    ensures
        layers_rooted(old, step_taken(old, registry, buffer, step, state).walk.layers),
        steps_rooted(
            step_taken(old, registry, buffer, step, state).walk.layers,
            step_taken(old, registry, buffer, step, state).queue,
        ),
{
    let at = advanced(old, step.depth, step.range, state.walk);
    lemma_advanced_keeps(old, step.depth, step.range, state.walk);
    lemma_rooted_with_old(old, state.walk.layers, at.layers);
    lemma_steps_rooted_in_more(state.walk.layers, at.layers, state.queue);
    let extent = step_extent(step.ranges, buffer.text.len());
    match step.language.grammar {
        None => {},
        Some(grammar) => {
            let old_tree = lent_tree(old, at.position, step.ranges, buffer, held(grammar));
            match text_parsed(held(grammar), buffer.text@, old_tree, step.ranges) {
                None => {},
                Some(tree) => {
                    let layer = SyntaxLayer {
                        depth: step.depth,
                        range: step.range,
                        tree,
                        language: step.language,
                    };
                    let layers = at.layers.push(layer);
                    assert(layers_rooted(old, layers)) by {
                        assert forall|k: int| 0 <= k < layers.len() implies old.contains(
                            #[trigger] layers[k],
                        ) || layers[k].depth == 0 || exists|j: int|
                            0 <= j < k && (#[trigger] layers[j]).depth + 1
                                == layers[k].depth by {
                            if k < at.layers.len() {
                                assert(layers[k] == at.layers[k]);
                                if !old.contains(at.layers[k]) && at.layers[k].depth != 0 {
                                    let j = choose|j: int|
                                        0 <= j < k && (#[trigger] at.layers[j]).depth + 1
                                            == at.layers[k].depth;
                                    assert(layers[j] == at.layers[j]);
                                }
                            } else if step.depth != 0 {
                                let j = choose|j: int|
                                    0 <= j < state.walk.layers.len() && (
                                    #[trigger] state.walk.layers[j]).depth + 1 == step.depth;
                                assert(at.layers[j] == state.walk.layers[j]);
                                assert(layers[j] == at.layers[j]);
                            }
                        }
                    }
                    lemma_steps_rooted_in_more(at.layers, layers, state.queue);
                    let changed = match old_tree {
                        Some(old_tree) => changed_between(old_tree, tree),
                        None => seq![fresh_extent(extent)],
                    };
                    let config = held(grammar).injection_config;
                    if config is Some && registry is Some && changed.len() > 0 && step.depth
                        < usize::MAX {
                        lemma_injections_grow(
                            config.unwrap(),
                            held(registry.unwrap()),
                            buffer.text@,
                            tree,
                            (step.depth + 1) as usize,
                            extent.0,
                            extent.1,
                            changed,
                            Found { queue: state.queue, last: None, any: false },
                        );
                        let after = step_taken(old, registry, buffer, step, state);
                        assert(steps_rooted(layers, after.queue)) by {
                            assert forall|k: int| 0 <= k < after.queue.len() implies (
                            #[trigger] after.queue[k]).depth == 0 || exists|j: int|
                                0 <= j < layers.len() && (#[trigger] layers[j]).depth + 1
                                    == after.queue[k].depth by {
                                if k < state.queue.len() {
                                    assert(after.queue[k] == state.queue[k]);
                                    if state.queue[k].depth != 0 {
                                        let j = choose|j: int|
                                            0 <= j < layers.len() && (
                                            #[trigger] layers[j]).depth + 1
                                                == state.queue[k].depth;
                                    }
                                } else {
                                    assert(layers[layers.len() - 1].depth + 1
                                        == after.queue[k].depth);
                                }
                            }
                        }
                    }
                },
            }
        },
    }
}

/// At every step of a reparse the layers and the steps are rooted.
proof fn lemma_state_rooted(
    old: Seq<SyntaxLayer>,
    registry: Option<Arc<LanguageRegistry>>,
    language: Arc<LanguageDef>,
    buffer: BufferSnapshot,
    n: nat,
)
    ensures
        layers_rooted(old, state_after(old, registry, language, buffer, n).walk.layers),
        steps_rooted(
            state_after(old, registry, language, buffer, n).walk.layers,
            state_after(old, registry, language, buffer, n).queue,
        ),
    decreases n,
{
    if n > 0 {
        lemma_state_rooted(old, registry, language, buffer, (n - 1) as nat);
        lemma_state_grows(old, registry, language, buffer, (n - 1) as nat, (n - 1) as nat);
        let before = state_after(old, registry, language, buffer, (n - 1) as nat);
        if before.queue.len() > 0 {
            let next = most_urgent(before.queue);
            lemma_most_urgent(before.queue);
            let rest = before.queue.remove(next);
            assert(steps_rooted(before.walk.layers, rest)) by {
                assert forall|k: int| 0 <= k < rest.len() implies (#[trigger] rest[k]).depth == 0
                    || exists|j: int|
                    0 <= j < before.walk.layers.len() && (
                    #[trigger] before.walk.layers[j]).depth + 1 == rest[k].depth by {
                    if k < next {
                        assert(rest[k] == before.queue[k]);
                    } else {
                        assert(rest[k] == before.queue[k + 1]);
                    }
                }
            }
            lemma_step_taken_rooted(
                old,
                registry,
                buffer,
                before.queue[next],
                State { walk: before.walk, queue: rest },
            );
        }
    }
}

/// In the index that a reparse gives, every layer of depth above 0 that
/// was not kept from the old index has a layer one level less deep in front
/// of it: the layer in whose tree the parse found it.
pub proof fn lemma_reparse_roots_its_layers(
    old: Seq<SyntaxLayer>,
    registry: Option<Arc<LanguageRegistry>>,
    language: Arc<LanguageDef>,
    buffer: BufferSnapshot,
    n: nat,
    layers: Seq<SyntaxLayer>,
)
    requires
        reparsed_in(old, registry, language, buffer, n, layers),
    ensures
        layers_rooted(old, layers),
{
    lemma_state_rooted(old, registry, language, buffer, n);
    lemma_state_grows(old, registry, language, buffer, n, n);
    let walk = state_after(old, registry, language, buffer, n).walk;
    let depth = summary_of(old.take(walk.position)).max_depth;
    let range = AnchorRange { start: Anchor::spec_max(), end: Anchor::spec_max() };
    lemma_advanced_keeps(old, depth, range, walk);
    lemma_rooted_with_old(old, walk.layers, layers);
}

/// Whether, when `step` is taken up from `state`, the nodes that the parser
/// reports as content of other languages lie within the text that it has
/// parsed for the step.
pub open spec fn step_keeps_within(
    old: Seq<SyntaxLayer>,
    buffer: BufferSnapshot,
    step: StepView,
    state: State,
) -> bool {
    let at = advanced(old, step.depth, step.range, state.walk);
    let extent = step_extent(step.ranges, buffer.text.len());
    match step.language.grammar {
        None => true,
        Some(grammar) => {
            let old_tree = lent_tree(old, at.position, step.ranges, buffer, *grammar);
            match text_parsed(*grammar, buffer.text@, old_tree, step.ranges) {
                None => true,
                Some(tree) => {
                    let changed = match old_tree {
                        Some(old_tree) => changed_between(old_tree, tree),
                        None => seq![fresh_extent(extent)],
                    };
                    grammar.injection_config is Some ==> content_kept_within(
                        grammar.injection_config.unwrap(),
                        tree,
                        buffer.text@,
                        changed,
                        fresh_extent(extent).end as int,
                    )
                },
            }
        },
    }
}

/// Whether, at each of the first `n` steps of a reparse, the nodes that the
/// parser reports as content lie within the text that it has parsed.
pub open spec fn parser_keeps_within(
    old: Seq<SyntaxLayer>,
    registry: Option<Arc<LanguageRegistry>>,
    language: Arc<LanguageDef>,
    buffer: BufferSnapshot,
    n: nat,
) -> bool
    decreases n,
{
    if n == 0 {
        true
    } else {
        let before = state_after(old, registry, language, buffer, (n - 1) as nat);
        parser_keeps_within(old, registry, language, buffer, (n - 1) as nat) && (before.queue.len()
            > 0 ==> step_keeps_within(
            old,
            buffer,
            before.queue[most_urgent(before.queue)],
            State { walk: before.walk, queue: before.queue.remove(most_urgent(before.queue)) },
        ))
    }
}

/// Whether each layer is an old layer, or of depth 0, or has in front of it
/// a layer one level less deep whose range holds its range.
pub open spec fn layers_nested(old: Seq<SyntaxLayer>, layers: Seq<SyntaxLayer>) -> bool {
    forall|k: int|
        0 <= k < layers.len() ==> old.contains(#[trigger] layers[k]) || layers[k].depth == 0
            || exists|j: int|
            0 <= j < k && (#[trigger] layers[j]).depth + 1 == layers[k].depth
                && layers[k].range.within(layers[j].range)
}

/// Whether each step is of depth 0 or has among `layers` a layer one level
/// less deep whose range holds its range.
pub open spec fn steps_nested(layers: Seq<SyntaxLayer>, queue: Seq<StepView>) -> bool {
    forall|k: int|
        0 <= k < queue.len() ==> (#[trigger] queue[k]).depth == 0 || exists|j: int|
            0 <= j < layers.len() && (#[trigger] layers[j]).depth + 1 == queue[k].depth
                && queue[k].range.within(layers[j].range)
}

/// Layers that are nested stay so when old layers are added behind them.
proof fn lemma_nested_with_old(
    old: Seq<SyntaxLayer>,
    layers: Seq<SyntaxLayer>,
    longer: Seq<SyntaxLayer>,
)
    requires
        layers_nested(old, layers),
        layers.len() <= longer.len(),
        forall|k: int| 0 <= k < layers.len() ==> longer[k] == layers[k],
        forall|k: int| layers.len() <= k < longer.len() ==> old.contains(#[trigger] longer[k]),
    ensures
        layers_nested(old, longer),
{
    assert forall|k: int| 0 <= k < longer.len() implies old.contains(#[trigger] longer[k])
        || longer[k].depth == 0 || exists|j: int|
        0 <= j < k && (#[trigger] longer[j]).depth + 1 == longer[k].depth
            && longer[k].range.within(longer[j].range) by {
        if k < layers.len() {
            assert(longer[k] == layers[k]);
            if !old.contains(layers[k]) && layers[k].depth != 0 {
                let j = choose|j: int|
                    0 <= j < k && (#[trigger] layers[j]).depth + 1 == layers[k].depth
                        && layers[k].range.within(layers[j].range);
                assert(longer[j] == layers[j]);
            }
        }
    }
}

/// Steps that are nested in layers are nested in more layers.
proof fn lemma_steps_nested_in_more(
    layers: Seq<SyntaxLayer>,
    longer: Seq<SyntaxLayer>,
    queue: Seq<StepView>,
)
    requires
        steps_nested(layers, queue),
        layers.len() <= longer.len(),
        forall|k: int| 0 <= k < layers.len() ==> longer[k] == layers[k],
    ensures
        steps_nested(longer, queue),
{
    assert forall|k: int| 0 <= k < queue.len() implies (#[trigger] queue[k]).depth == 0
        || exists|j: int|
        0 <= j < longer.len() && (#[trigger] longer[j]).depth + 1 == queue[k].depth
            && queue[k].range.within(longer[j].range) by {
        if queue[k].depth != 0 {
            let j = choose|j: int|
                0 <= j < layers.len() && (#[trigger] layers[j]).depth + 1 == queue[k].depth
                    && queue[k].range.within(layers[j].range);
            assert(longer[j] == layers[j]);
        }
    }
}

/// What taking up a step adds: at most one layer, of the depth and range of
/// the step, behind what the walk has kept; and steps one level deeper,
/// behind those that were queued, and only together with the layer.
proof fn lemma_step_taken_shape(
    old: Seq<SyntaxLayer>,
    registry: Option<Arc<LanguageRegistry>>,
    buffer: BufferSnapshot,
    step: StepView,
    state: State,
)
    ensures
        ({
            let at = advanced(old, step.depth, step.range, state.walk);
            let after = step_taken(old, registry, buffer, step, state);
            &&& at.layers.len() <= after.walk.layers.len() <= at.layers.len() + 1
            &&& forall|k: int| 0 <= k < at.layers.len() ==> after.walk.layers[k] == at.layers[k]
            &&& after.walk.layers.len() == at.layers.len() + 1 ==> after.walk.layers.last().depth
                == step.depth && after.walk.layers.last().range == step.range
            &&& state.queue.len() <= after.queue.len()
            &&& forall|k: int| 0 <= k < state.queue.len() ==> after.queue[k] == state.queue[k]
            &&& forall|k: int|
                state.queue.len() <= k < after.queue.len() ==> (#[trigger] after.queue[k]).depth
                    == step.depth + 1 && after.queue[k].is_tied() && after.walk.layers.len()
                    == at.layers.len() + 1
        }),
{
    let at = advanced(old, step.depth, step.range, state.walk);
    let extent = step_extent(step.ranges, buffer.text.len());
    match step.language.grammar {
        None => {},
        Some(grammar) => {
            let old_tree = lent_tree(old, at.position, step.ranges, buffer, held(grammar));
            match text_parsed(held(grammar), buffer.text@, old_tree, step.ranges) {
                None => {},
                Some(tree) => {
                    let changed = match old_tree {
                        Some(old_tree) => changed_between(old_tree, tree),
                        None => seq![fresh_extent(extent)],
                    };
                    let config = held(grammar).injection_config;
                    if config is Some && registry is Some && changed.len() > 0 && step.depth
                        < usize::MAX {
                        lemma_injections_grow(
                            config.unwrap(),
                            held(registry.unwrap()),
                            buffer.text@,
                            tree,
                            (step.depth + 1) as usize,
                            extent.0,
                            extent.1,
                            changed,
                            Found { queue: state.queue, last: None, any: false },
                        );
                    }
                },
            }
        },
    }
}

/// The steps that taking up a step adds lie within the range of the step,
/// where the parser keeps within the text that it has parsed.
proof fn lemma_step_taken_children(
    old: Seq<SyntaxLayer>,
    registry: Option<Arc<LanguageRegistry>>,
    buffer: BufferSnapshot,
    step: StepView,
    state: State,
)
    requires
        step.is_placed(),
        step_keeps_within(old, buffer, step, state),
    ensures
        forall|k: int|
            state.queue.len() <= k < step_taken(old, registry, buffer, step, state).queue.len() ==> (
            #[trigger] step_taken(old, registry, buffer, step, state).queue[k]).range.within(
                step.range,
            ),
{
    let at = advanced(old, step.depth, step.range, state.walk);
    let extent = step_extent(step.ranges, buffer.text.len());
    match step.language.grammar {
        None => {},
        Some(grammar) => {
            let old_tree = lent_tree(old, at.position, step.ranges, buffer, held(grammar));
            match text_parsed(held(grammar), buffer.text@, old_tree, step.ranges) {
                None => {},
                Some(tree) => {
                    let changed = match old_tree {
                        Some(old_tree) => changed_between(old_tree, tree),
                        None => seq![fresh_extent(extent)],
                    };
                    let config = held(grammar).injection_config;
                    if config is Some && registry is Some && changed.len() > 0 && step.depth
                        < usize::MAX {
                        let first = Found { queue: state.queue, last: None, any: false };
                        lemma_injections_grow(
                            config.unwrap(),
                            held(registry.unwrap()),
                            buffer.text@,
                            tree,
                            (step.depth + 1) as usize,
                            extent.0,
                            extent.1,
                            changed,
                            first,
                        );
                        lemma_injections_within(
                            config.unwrap(),
                            held(registry.unwrap()),
                            buffer.text@,
                            tree,
                            (step.depth + 1) as usize,
                            extent.0,
                            extent.1,
                            changed,
                            first,
                            fresh_extent(extent).end as int,
                        );
                        if step.ranges.len() > 0 {
                            lemma_ascending_ranges_rebase(step.ranges, step.ranges.len() - 1);
                        }
                    }
                },
            }
        },
    }
}

/// Taking up a step keeps the layers and the steps nested, where the parser
/// keeps within the text that it has parsed.
proof fn lemma_step_taken_nested(
    old: Seq<SyntaxLayer>,
    registry: Option<Arc<LanguageRegistry>>,
    buffer: BufferSnapshot,
    step: StepView,
    state: State,
)
    requires
        0 <= state.walk.position <= old.len(),
        layers_nested(old, state.walk.layers),
        steps_nested(state.walk.layers, state.queue),
        step.is_placed(),
        step.depth == 0 || exists|j: int|
            0 <= j < state.walk.layers.len() && (#[trigger] state.walk.layers[j]).depth + 1
                == step.depth && step.range.within(state.walk.layers[j].range),
        step_keeps_within(old, buffer, step, state),
    ensures
        layers_nested(old, step_taken(old, registry, buffer, step, state).walk.layers),
        steps_nested(
            step_taken(old, registry, buffer, step, state).walk.layers,
            step_taken(old, registry, buffer, step, state).queue,
        ),
{
    let at = advanced(old, step.depth, step.range, state.walk);
    let after = step_taken(old, registry, buffer, step, state);
    let layers = after.walk.layers;
    lemma_advanced_adds_old(old, step.depth, step.range, state.walk);
    lemma_nested_with_old(old, state.walk.layers, at.layers);
    lemma_steps_nested_in_more(state.walk.layers, at.layers, state.queue);
    lemma_step_taken_shape(old, registry, buffer, step, state);
    lemma_step_taken_children(old, registry, buffer, step, state);
    lemma_steps_nested_in_more(at.layers, layers, state.queue);
    assert(layers_nested(old, layers)) by {
        assert forall|k: int| 0 <= k < layers.len() implies old.contains(#[trigger] layers[k])
            || layers[k].depth == 0 || exists|j: int|
            0 <= j < k && (#[trigger] layers[j]).depth + 1 == layers[k].depth
                && layers[k].range.within(layers[j].range) by {
            if k < at.layers.len() {
                assert(layers[k] == at.layers[k]);
                if !old.contains(at.layers[k]) && at.layers[k].depth != 0 {
                    let j = choose|j: int|
                        0 <= j < k && (#[trigger] at.layers[j]).depth + 1 == at.layers[k].depth
                            && at.layers[k].range.within(at.layers[j].range);
                    assert(layers[j] == at.layers[j]);
                }
            } else if step.depth != 0 {
                let j = choose|j: int|
                    0 <= j < state.walk.layers.len() && (#[trigger] state.walk.layers[j]).depth
                        + 1 == step.depth && step.range.within(state.walk.layers[j].range);
                assert(at.layers[j] == state.walk.layers[j]);
                assert(layers[j] == at.layers[j]);
                assert(layers[k] == layers.last());
            } else {
                assert(layers[k] == layers.last());
            }
        }
    }
    assert(steps_nested(layers, after.queue)) by {
        assert forall|k: int| 0 <= k < after.queue.len() implies (#[trigger] after.queue[k]).depth
            == 0 || exists|j: int|
            0 <= j < layers.len() && (#[trigger] layers[j]).depth + 1 == after.queue[k].depth
                && after.queue[k].range.within(layers[j].range) by {
            if k < state.queue.len() {
                assert(after.queue[k] == state.queue[k]);
                if state.queue[k].depth != 0 {
                    let j = choose|j: int|
                        0 <= j < layers.len() && (#[trigger] layers[j]).depth + 1
                            == state.queue[k].depth && state.queue[k].range.within(
                            layers[j].range,
                        );
                }
            } else {
                let parent = layers[layers.len() - 1];
                assert(parent == layers.last());
                assert(parent.depth + 1 == after.queue[k].depth);
                assert(after.queue[k].range.within(parent.range));
            }
        }
    }
}

/// The step that a reparse takes up next is as a reparse queues steps, and
/// the walk is within the old layers.
proof fn lemma_next_step_placed(
    old: Seq<SyntaxLayer>,
    registry: Option<Arc<LanguageRegistry>>,
    language: Arc<LanguageDef>,
    buffer: BufferSnapshot,
    n: nat,
)
    requires
        state_after(old, registry, language, buffer, n).queue.len() > 0,
    ensures
        ({
            let state = state_after(old, registry, language, buffer, n);
            &&& 0 <= most_urgent(state.queue) < state.queue.len()
            &&& state.queue[most_urgent(state.queue)].is_placed()
            &&& 0 <= state.walk.position <= old.len()
        }),
{
    lemma_state_placed(old, registry, language, buffer, n);
    lemma_most_urgent(state_after(old, registry, language, buffer, n).queue);
}

/// Steps that are nested stay so when one of them is taken out, and the one
/// taken out has a layer that holds it.
proof fn lemma_rest_nested(layers: Seq<SyntaxLayer>, queue: Seq<StepView>, next: int)
    requires
        steps_nested(layers, queue),
        0 <= next < queue.len(),
    ensures
        steps_nested(layers, queue.remove(next)),
        queue[next].depth == 0 || exists|j: int|
            0 <= j < layers.len() && (#[trigger] layers[j]).depth + 1 == queue[next].depth
                && queue[next].range.within(layers[j].range),
{
    let rest = queue.remove(next);
    assert forall|k: int| 0 <= k < rest.len() implies (#[trigger] rest[k]).depth == 0
        || exists|j: int|
        0 <= j < layers.len() && (#[trigger] layers[j]).depth + 1 == rest[k].depth
            && rest[k].range.within(layers[j].range) by {
        if k < next {
            assert(rest[k] == queue[k]);
        } else {
            assert(rest[k] == queue[k + 1]);
        }
    }
}

/// At every step of a reparse in which the parser keeps within the text
/// that it has parsed, the layers and the steps are nested.
proof fn lemma_state_nested(
    old: Seq<SyntaxLayer>,
    registry: Option<Arc<LanguageRegistry>>,
    language: Arc<LanguageDef>,
    buffer: BufferSnapshot,
    n: nat,
)
    requires
        parser_keeps_within(old, registry, language, buffer, n),
    ensures
        layers_nested(old, state_after(old, registry, language, buffer, n).walk.layers),
        steps_nested(
            state_after(old, registry, language, buffer, n).walk.layers,
            state_after(old, registry, language, buffer, n).queue,
        ),
    decreases n,
{
    if n > 0 {
        lemma_state_nested(old, registry, language, buffer, (n - 1) as nat);
        let before = state_after(old, registry, language, buffer, (n - 1) as nat);
        if before.queue.len() > 0 {
            let next = most_urgent(before.queue);
            lemma_next_step_placed(old, registry, language, buffer, (n - 1) as nat);
            lemma_rest_nested(before.walk.layers, before.queue, next);
            let state = State { walk: before.walk, queue: before.queue.remove(next) };
            lemma_step_taken_nested(old, registry, buffer, before.queue[next], state);
            assert(state_after(old, registry, language, buffer, n) == step_taken(
                old,
                registry,
                buffer,
                before.queue[next],
                state,
            ));
        }
    } else {
        let first = first_state(language);
        assert(first.walk.layers.len() == 0);
        assert(first.queue[0].depth == 0);
    }
}

/// Where the nodes that the parser reports as content of other languages
/// lie within the text that it has parsed, every layer of depth above 0 in
/// the index that a reparse gives, unless it was kept from the old index,
/// has in front of it a layer one level less deep whose range holds its
/// range: the layer in whose tree the parse found it.
pub proof fn lemma_reparse_nests_its_layers(
    old: Seq<SyntaxLayer>,
    registry: Option<Arc<LanguageRegistry>>,
    language: Arc<LanguageDef>,
    buffer: BufferSnapshot,
    n: nat,
    layers: Seq<SyntaxLayer>,
)
    requires
        reparsed_in(old, registry, language, buffer, n, layers),
        parser_keeps_within(old, registry, language, buffer, n),
    ensures
        layers_nested(old, layers),
{
    lemma_state_nested(old, registry, language, buffer, n);
    lemma_state_placed(old, registry, language, buffer, n);
    let walk = state_after(old, registry, language, buffer, n).walk;
    let depth = summary_of(old.take(walk.position)).max_depth;
    let range = AnchorRange { start: Anchor::spec_max(), end: Anchor::spec_max() };
    lemma_advanced_adds_old(old, depth, range, walk);
    lemma_nested_with_old(old, walk.layers, layers);
}

/// The steps that a reparse has taken up within its first `n` steps, in the
/// order in which it has taken them up. Each layer that the reparse parses
/// has the depth and the range of the step that it was parsed for.
pub open spec fn steps_taken(
    old: Seq<SyntaxLayer>,
    registry: Option<Arc<LanguageRegistry>>,
    language: Arc<LanguageDef>,
    buffer: BufferSnapshot,
    n: nat,
) -> Seq<StepView>
    decreases n,
{
    if n == 0 {
        Seq::empty()
    } else {
        let before = state_after(old, registry, language, buffer, (n - 1) as nat);
        let earlier = steps_taken(old, registry, language, buffer, (n - 1) as nat);
        if before.queue.len() == 0 {
            earlier
        } else {
            earlier.push(before.queue[most_urgent(before.queue)])
        }
    }
}

/// Whether two steps are of different depths or their ranges do not overlap
/// by bytes.
pub open spec fn lie_apart(a: StepView, b: StepView) -> bool {
    a.depth != b.depth || a.range.end.offset <= b.range.start.offset || b.range.end.offset
        <= a.range.start.offset
}

/// Whether the steps that are queued when `step` is taken up from `state`
/// lie apart from each other: whether the stretches of other languages that
/// the parser finds in one tree do not overlap.
pub open spec fn step_finds_apart(
    old: Seq<SyntaxLayer>,
    registry: Option<Arc<LanguageRegistry>>,
    buffer: BufferSnapshot,
    step: StepView,
    state: State,
) -> bool {
    let after = step_taken(old, registry, buffer, step, state);
    forall|k: int, l: int|
        state.queue.len() <= k < l < after.queue.len() ==> lie_apart(
            #[trigger] after.queue[k],
            #[trigger] after.queue[l],
        )
}

/// Whether, at each of the first `n` steps of a reparse, the stretches of
/// other languages that the parser finds in one tree do not overlap.
pub open spec fn parser_finds_apart(
    old: Seq<SyntaxLayer>,
    registry: Option<Arc<LanguageRegistry>>,
    language: Arc<LanguageDef>,
    buffer: BufferSnapshot,
    n: nat,
) -> bool
    decreases n,
{
    if n == 0 {
        true
    } else {
        let before = state_after(old, registry, language, buffer, (n - 1) as nat);
        parser_finds_apart(old, registry, language, buffer, (n - 1) as nat) && (before.queue.len()
            > 0 ==> step_finds_apart(
            old,
            registry,
            buffer,
            before.queue[most_urgent(before.queue)],
            State { walk: before.walk, queue: before.queue.remove(most_urgent(before.queue)) },
        ))
    }
}

/// Whether the steps that were taken up and those that are queued lie
/// apart, each queued step above depth 0 lies within a step one level less
/// deep that was taken up, and the steps taken up are no deeper, the queued
/// ones no less deep, than `reached`.
pub open spec fn steps_apart(taken: Seq<StepView>, queue: Seq<StepView>, reached: usize) -> bool {
    &&& forall|i: int, j: int|
        0 <= i < j < taken.len() ==> lie_apart(#[trigger] taken[i], #[trigger] taken[j])
    &&& forall|i: int, k: int|
        0 <= i < taken.len() && 0 <= k < queue.len() ==> lie_apart(
            #[trigger] taken[i],
            #[trigger] queue[k],
        )
    &&& forall|k: int, l: int|
        0 <= k < l < queue.len() ==> lie_apart(#[trigger] queue[k], #[trigger] queue[l])
    &&& forall|k: int|
        0 <= k < queue.len() ==> (#[trigger] queue[k]).depth == 0 || exists|i: int|
            0 <= i < taken.len() && (#[trigger] taken[i]).depth + 1 == queue[k].depth
                && queue[k].range.within(taken[i].range)
    &&& forall|i: int| 0 <= i < taken.len() ==> (#[trigger] taken[i]).depth <= reached
    &&& forall|k: int| 0 <= k < queue.len() ==> (#[trigger] queue[k]).depth >= reached
}

/// Steps that lie apart stay so when the most urgent of those queued is
/// taken up and what it finds is queued, where that lies within it and
/// apart from each other.
proof fn lemma_steps_apart_step(
    taken: Seq<StepView>,
    queue: Seq<StepView>,
    next: int,
    longer: Seq<StepView>,
    reached: usize,
)
    requires
        steps_apart(taken, queue, reached),
        0 <= next < queue.len(),
        forall|k: int| 0 <= k < queue.len() ==> (#[trigger] queue[k]).depth >= queue[next].depth,
        queue.len() - 1 <= longer.len(),
        forall|k: int| 0 <= k < queue.len() - 1 ==> longer[k] == queue.remove(next)[k],
        forall|k: int|
            queue.len() - 1 <= k < longer.len() ==> (#[trigger] longer[k]).depth
                == queue[next].depth + 1 && longer[k].range.within(queue[next].range),
        forall|k: int, l: int|
            queue.len() - 1 <= k < l < longer.len() ==> lie_apart(
                #[trigger] longer[k],
                #[trigger] longer[l],
            ),
    ensures
        steps_apart(taken.push(queue[next]), longer, queue[next].depth),
{
    let step = queue[next];
    let rest = queue.remove(next);
    let more = taken.push(step);
    let old_len = queue.len() - 1;
    assert forall|k: int| 0 <= k < old_len implies #[trigger] longer[k] == queue[if k < next {
        k
    } else {
        k + 1
    }] by {
        assert(longer[k] == rest[k]);
    }
    assert forall|i: int, j: int| 0 <= i < j < more.len() implies lie_apart(
        #[trigger] more[i],
        #[trigger] more[j],
    ) by {
        if j < taken.len() {
            assert(more[i] == taken[i] && more[j] == taken[j]);
        } else {
            assert(more[i] == taken[i]);
            assert(lie_apart(taken[i], queue[next]));
        }
    }
    assert forall|i: int, k: int| 0 <= i < more.len() && 0 <= k < longer.len() implies lie_apart(
        #[trigger] more[i],
        #[trigger] longer[k],
    ) by {
        let from = if k < next {
            k
        } else {
            k + 1
        };
        if i < taken.len() {
            assert(more[i] == taken[i]);
            if k < old_len {
                assert(lie_apart(taken[i], queue[from]));
            }
        } else if k < old_len {
            if from < next {
                assert(lie_apart(queue[from], queue[next]));
            } else {
                assert(lie_apart(queue[next], queue[from]));
            }
        }
    }
    assert forall|k: int| 0 <= k < longer.len() implies (#[trigger] longer[k]).depth == 0
        || exists|i: int|
        0 <= i < more.len() && (#[trigger] more[i]).depth + 1 == longer[k].depth
            && longer[k].range.within(more[i].range) by {
        if k < old_len {
            let from = if k < next {
                k
            } else {
                k + 1
            };
            if queue[from].depth != 0 {
                let i = choose|i: int|
                    0 <= i < taken.len() && (#[trigger] taken[i]).depth + 1 == queue[from].depth
                        && queue[from].range.within(taken[i].range);
                assert(more[i] == taken[i]);
            }
        } else {
            assert(more[taken.len() as int] == step);
        }
    }
    assert forall|k: int, l: int| 0 <= k < l < longer.len() implies lie_apart(
        #[trigger] longer[k],
        #[trigger] longer[l],
    ) by {
        if l < old_len {
            let a = if k < next {
                k
            } else {
                k + 1
            };
            let b = if l < next {
                l
            } else {
                l + 1
            };
            assert(lie_apart(queue[a], queue[b]));
        } else if k < old_len {
            let a = if k < next {
                k
            } else {
                k + 1
            };
            if queue[a].depth == longer[l].depth {
                let i = choose|i: int|
                    0 <= i < taken.len() && (#[trigger] taken[i]).depth + 1 == queue[a].depth
                        && queue[a].range.within(taken[i].range);
                assert(lie_apart(taken[i], queue[next]));
            }
        }
    }
    assert forall|i: int| 0 <= i < more.len() implies (#[trigger] more[i]).depth <= step.depth by {
        if i < taken.len() {
            assert(more[i] == taken[i]);
        }
    }
}

/// At every step of a reparse in which the parser keeps within the text
/// that it has parsed and finds stretches that do not overlap, the steps
/// taken up and the steps queued lie apart.
proof fn lemma_state_apart(
    old: Seq<SyntaxLayer>,
    registry: Option<Arc<LanguageRegistry>>,
    language: Arc<LanguageDef>,
    buffer: BufferSnapshot,
    n: nat,
)
    requires
        parser_keeps_within(old, registry, language, buffer, n),
        parser_finds_apart(old, registry, language, buffer, n),
    ensures
        steps_apart(
            steps_taken(old, registry, language, buffer, n),
            state_after(old, registry, language, buffer, n).queue,
            depth_reached(old, registry, language, buffer, n),
        ),
    decreases n,
{
    if n > 0 {
        lemma_state_apart(old, registry, language, buffer, (n - 1) as nat);
        let before = state_after(old, registry, language, buffer, (n - 1) as nat);
        if before.queue.len() > 0 {
            let next = most_urgent(before.queue);
            lemma_next_step_placed(old, registry, language, buffer, (n - 1) as nat);
            lemma_most_urgent(before.queue);
            let step = before.queue[next];
            let state = State { walk: before.walk, queue: before.queue.remove(next) };
            let after = step_taken(old, registry, buffer, step, state);
            assert(state_after(old, registry, language, buffer, n) == after);
            lemma_step_taken_shape(old, registry, buffer, step, state);
            lemma_step_taken_children(old, registry, buffer, step, state);
            assert forall|k: int| 0 <= k < before.queue.len() implies (
            #[trigger] before.queue[k]).depth >= step.depth by {
                assert(before.queue[k].order(step) != Order::Greater);
            }
            lemma_steps_apart_step(
                steps_taken(old, registry, language, buffer, (n - 1) as nat),
                before.queue,
                next,
                after.queue,
                depth_reached(old, registry, language, buffer, (n - 1) as nat),
            );
        }
    } else {
        let first = first_state(language);
        assert(first.queue[0].depth == 0);
    }
}

/// Where the nodes that the parser reports as content of other languages
/// lie within the text that it has parsed, and those that it finds in one
/// tree do not overlap, the steps that a reparse takes up at one depth, and
/// so the layers of one depth that it parses, do not overlap by bytes.
pub proof fn lemma_reparse_parses_apart(
    old: Seq<SyntaxLayer>,
    registry: Option<Arc<LanguageRegistry>>,
    language: Arc<LanguageDef>,
    buffer: BufferSnapshot,
    n: nat,
)
    requires
        parser_keeps_within(old, registry, language, buffer, n),
        parser_finds_apart(old, registry, language, buffer, n),
    ensures
        forall|i: int, j: int|
            0 <= i < j < steps_taken(old, registry, language, buffer, n).len() ==> lie_apart(
                #[trigger] steps_taken(old, registry, language, buffer, n)[i],
                #[trigger] steps_taken(old, registry, language, buffer, n)[j],
            ),
{
    lemma_state_apart(old, registry, language, buffer, n);
}

/// Whether the layer has the depth and the range of the step.
pub open spec fn parsed_for(layer: SyntaxLayer, step: StepView) -> bool {
    layer.depth == step.depth && layer.range == step.range
}

/// Whether each layer that is not among the old ones was parsed for one of
/// the steps, and any two of them for two steps, in the order of the layers.
pub open spec fn layers_from_steps(
    old: Seq<SyntaxLayer>,
    layers: Seq<SyntaxLayer>,
    taken: Seq<StepView>,
) -> bool {
    &&& forall|k: int|
        0 <= k < layers.len() ==> old.contains(#[trigger] layers[k]) || exists|i: int|
            0 <= i < taken.len() && parsed_for(layers[k], #[trigger] taken[i])
    &&& forall|k: int, l: int|
        0 <= k < l < layers.len() ==> old.contains(#[trigger] layers[k]) || old.contains(
            #[trigger] layers[l],
        ) || exists|i: int, j: int|
            0 <= i < j < taken.len() && parsed_for(layers[k], #[trigger] taken[i]) && parsed_for(
                layers[l],
                #[trigger] taken[j],
            )
}

/// Layers that were parsed for steps stay so when old layers are added
/// behind them, then a step is taken up, and then, or not, a layer that was
/// parsed for that step is added.
proof fn lemma_layers_from_steps_step(
    old: Seq<SyntaxLayer>,
    layers: Seq<SyntaxLayer>,
    taken: Seq<StepView>,
    kept: Seq<SyntaxLayer>,
    longer: Seq<SyntaxLayer>,
    step: StepView,
)
    requires
        layers_from_steps(old, layers, taken),
        layers.len() <= kept.len() <= longer.len() <= kept.len() + 1,
        forall|k: int| 0 <= k < layers.len() ==> kept[k] == layers[k],
        forall|k: int| layers.len() <= k < kept.len() ==> old.contains(#[trigger] kept[k]),
        forall|k: int| 0 <= k < kept.len() ==> longer[k] == kept[k],
        longer.len() == kept.len() + 1 ==> parsed_for(longer.last(), step),
    ensures
        layers_from_steps(old, longer, taken.push(step)),
{
    let more = taken.push(step);
    assert forall|k: int| 0 <= k < longer.len() implies old.contains(#[trigger] longer[k])
        || exists|i: int| 0 <= i < more.len() && parsed_for(longer[k], #[trigger] more[i]) by {
        if k < layers.len() {
            assert(longer[k] == layers[k]);
            if !old.contains(layers[k]) {
                let i = choose|i: int|
                    0 <= i < taken.len() && parsed_for(layers[k], #[trigger] taken[i]);
                assert(more[i] == taken[i]);
            }
        } else if k < kept.len() {
            assert(longer[k] == kept[k]);
        } else {
            assert(longer[k] == longer.last());
            assert(more[taken.len() as int] == step);
        }
    }
    assert forall|k: int, l: int| 0 <= k < l < longer.len() implies old.contains(
        #[trigger] longer[k],
    ) || old.contains(#[trigger] longer[l]) || exists|i: int, j: int|
        0 <= i < j < more.len() && parsed_for(longer[k], #[trigger] more[i]) && parsed_for(
            longer[l],
            #[trigger] more[j],
        ) by {
        if l < layers.len() {
            assert(longer[k] == layers[k] && longer[l] == layers[l]);
            if !old.contains(layers[k]) && !old.contains(layers[l]) {
                let (i, j) = choose|i: int, j: int|
                    0 <= i < j < taken.len() && parsed_for(layers[k], #[trigger] taken[i])
                        && parsed_for(layers[l], #[trigger] taken[j]);
                assert(more[i] == taken[i] && more[j] == taken[j]);
            }
        } else if l < kept.len() {
            assert(longer[l] == kept[l]);
        } else if k < layers.len() {
            assert(longer[k] == layers[k]);
            assert(longer[l] == longer.last());
            if !old.contains(layers[k]) {
                let i = choose|i: int|
                    0 <= i < taken.len() && parsed_for(layers[k], #[trigger] taken[i]);
                assert(more[i] == taken[i]);
                assert(more[taken.len() as int] == step);
            }
        } else {
            assert(longer[k] == kept[k]);
        }
    }
}

/// At every step of a reparse, the layers that are not among the old ones
/// were parsed for the steps taken up so far.
proof fn lemma_state_layers_from_steps(
    old: Seq<SyntaxLayer>,
    registry: Option<Arc<LanguageRegistry>>,
    language: Arc<LanguageDef>,
    buffer: BufferSnapshot,
    n: nat,
)
    ensures
        layers_from_steps(
            old,
            state_after(old, registry, language, buffer, n).walk.layers,
            steps_taken(old, registry, language, buffer, n),
        ),
    decreases n,
{
    if n > 0 {
        lemma_state_layers_from_steps(old, registry, language, buffer, (n - 1) as nat);
        let before = state_after(old, registry, language, buffer, (n - 1) as nat);
        if before.queue.len() > 0 {
            let next = most_urgent(before.queue);
            lemma_next_step_placed(old, registry, language, buffer, (n - 1) as nat);
            let step = before.queue[next];
            let state = State { walk: before.walk, queue: before.queue.remove(next) };
            let after = step_taken(old, registry, buffer, step, state);
            assert(state_after(old, registry, language, buffer, n) == after);
            lemma_step_taken_shape(old, registry, buffer, step, state);
            lemma_advanced_adds_old(old, step.depth, step.range, before.walk);
            lemma_layers_from_steps_step(
                old,
                before.walk.layers,
                steps_taken(old, registry, language, buffer, (n - 1) as nat),
                advanced(old, step.depth, step.range, before.walk).layers,
                after.walk.layers,
                step,
            );
        }
    } else {
        let first = first_state(language);
        assert(first.walk.layers.len() == 0);
    }
}

/// Where the nodes that the parser reports as content of other languages
/// lie within the text that it has parsed, and those that it finds in one
/// tree do not overlap, the layers of one depth in the index that a reparse
/// gives do not overlap by bytes, as far as the reparse has parsed them
/// itself. (A layer that was kept from the old index is not held against
/// the others: the walk keeps what the cursor passes.)
pub proof fn lemma_reparse_parses_layers_apart(
    old: Seq<SyntaxLayer>,
    registry: Option<Arc<LanguageRegistry>>,
    language: Arc<LanguageDef>,
    buffer: BufferSnapshot,
    n: nat,
    layers: Seq<SyntaxLayer>,
)
    requires
        reparsed_in(old, registry, language, buffer, n, layers),
        parser_keeps_within(old, registry, language, buffer, n),
        parser_finds_apart(old, registry, language, buffer, n),
    ensures
        forall|k: int, l: int|
            0 <= k < l < layers.len() ==> old.contains(#[trigger] layers[k]) || old.contains(
                #[trigger] layers[l],
            ) || layers[k].depth != layers[l].depth || layers[k].range.end.offset
                <= layers[l].range.start.offset || layers[l].range.end.offset
                <= layers[k].range.start.offset,
{
    lemma_state_layers_from_steps(old, registry, language, buffer, n);
    lemma_reparse_parses_apart(old, registry, language, buffer, n);
    lemma_state_grows(old, registry, language, buffer, n, n);
    let walk = state_after(old, registry, language, buffer, n).walk;
    let taken = steps_taken(old, registry, language, buffer, n);
    let depth = summary_of(old.take(walk.position)).max_depth;
    let range = AnchorRange { start: Anchor::spec_max(), end: Anchor::spec_max() };
    lemma_advanced_adds_old(old, depth, range, walk);
    assert forall|k: int, l: int| 0 <= k < l < layers.len() implies old.contains(
        #[trigger] layers[k],
    ) || old.contains(#[trigger] layers[l]) || layers[k].depth != layers[l].depth
        || layers[k].range.end.offset <= layers[l].range.start.offset
        || layers[l].range.end.offset <= layers[k].range.start.offset by {
        if l < walk.layers.len() {
            assert(layers[k] == walk.layers[k] && layers[l] == walk.layers[l]);
            if !old.contains(walk.layers[k]) && !old.contains(walk.layers[l]) {
                let (i, j) = choose|i: int, j: int|
                    0 <= i < j < taken.len() && parsed_for(walk.layers[k], #[trigger] taken[i])
                        && parsed_for(walk.layers[l], #[trigger] taken[j]);
                assert(lie_apart(taken[i], taken[j]));
            }
        }
    }
}

/// Taking up a step only adds to the layers kept and parsed so far, and
/// leaves the walk within the old layers.
pub proof fn lemma_step_taken_grows(
    old: Seq<SyntaxLayer>,
    registry: Option<Arc<LanguageRegistry>>,
    buffer: BufferSnapshot,
    step: StepView,
    state: State,
)
    requires
        0 <= state.walk.position <= old.len(),
    ensures
        state.walk.layers.is_prefix_of(step_taken(old, registry, buffer, step, state).walk.layers),
        0 <= step_taken(old, registry, buffer, step, state).walk.position <= old.len(),
{
    lemma_advanced_keeps(old, step.depth, step.range, state.walk);
}

/// From one step of a reparse to a later one, the layers kept and parsed so
/// far only grow.
pub proof fn lemma_state_grows(
    old: Seq<SyntaxLayer>,
    registry: Option<Arc<LanguageRegistry>>,
    language: Arc<LanguageDef>,
    buffer: BufferSnapshot,
    n: nat,
    m: nat,
)
    requires
        n <= m,
    ensures
        state_after(old, registry, language, buffer, n).walk.layers.is_prefix_of(
            state_after(old, registry, language, buffer, m).walk.layers,
        ),
        0 <= state_after(old, registry, language, buffer, m).walk.position <= old.len(),
    decreases m,
{
    if m > 0 {
        let before = state_after(old, registry, language, buffer, (m - 1) as nat);
        if n < m {
            lemma_state_grows(old, registry, language, buffer, n, (m - 1) as nat);
        } else {
            lemma_state_grows(old, registry, language, buffer, (m - 1) as nat, (m - 1) as nat);
        }
        if before.queue.len() > 0 {
            let next = most_urgent(before.queue);
            lemma_step_taken_grows(
                old,
                registry,
                buffer,
                before.queue[next],
                State { walk: before.walk, queue: before.queue.remove(next) },
            );
        }
    }
}

/// Where the language of the buffer has a grammar and the parser gives a
/// tree for the whole buffer, the new index starts with the layer of that
/// tree. That layer spans the whole buffer, so that the next reparse of
/// this buffer in the same language starts out from its tree, the tree
/// being built under the grammar of that language.
pub proof fn lemma_reparse_starts_with_root(
    old: Seq<SyntaxLayer>,
    registry: Option<Arc<LanguageRegistry>>,
    language: Arc<LanguageDef>,
    buffer: BufferSnapshot,
    n: nat,
    layers: Seq<SyntaxLayer>,
)
    requires
        reparsed_in(old, registry, language, buffer, n, layers),
        language.grammar is Some,
        text_parsed(
            *language.grammar.unwrap(),
            buffer.text@,
            root_old_tree(old, buffer, *language.grammar.unwrap()),
            Seq::empty(),
        ) is Some,
    ensures
        layers.len() > 0,
        layers[0] == (SyntaxLayer {
            depth: 0,
            range: AnchorRange::spec_all(),
            tree: text_parsed(
                *language.grammar.unwrap(),
                buffer.text@,
                root_old_tree(old, buffer, *language.grammar.unwrap()),
                Seq::empty(),
            ).unwrap(),
            language,
        }),
        built_under(layers[0].tree, language.grammar.unwrap().ts_language) ==> root_old_tree(
            layers,
            buffer,
            *language.grammar.unwrap(),
        ) == Some(layers[0].tree),
{
    lemma_first_step(old, registry, language, buffer);
    lemma_state_grows(old, registry, language, buffer, 1, n);
    let walk = state_after(old, registry, language, buffer, n).walk;
    lemma_advanced_keeps(
        old,
        summary_of(old.take(walk.position)).max_depth,
        AnchorRange { start: Anchor::spec_max(), end: Anchor::spec_max() },
        walk,
    );
    let first = state_after(old, registry, language, buffer, 1).walk.layers;
    assert(first.len() == 1);
    assert(walk.layers[0] == first[0]);
    assert(layers[0] == walk.layers[0]);
}

} // verus!
