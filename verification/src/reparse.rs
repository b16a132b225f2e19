//! Bringing the index up to date with the buffer: walking the old layers and
//! the queue of parses side by side, keeping what is untouched, parsing what
//! has changed, and following the languages embedded in what was parsed.

use crate::buffer::BufferSnapshot;
use crate::injection::{get_injections, injections, lemma_injections_grow, Found};
use crate::language::{held, share, Grammar, LanguageDef, LanguageRegistry};
use crate::layer::{summary_of, trees_built, Cursor, SyntaxLayer};
use crate::outcome::{lemma_reparse_keeps_depth_order, lemma_reparse_keeps_ranges_in_order};
use crate::parse::{parse_text, ready_to_parse, text_parsed};
use crate::parser::{
    built_under, changed_between, changed_ranges, clone_tree, is_built_under, parsed, ByteRange,
    TextRange,
};
use crate::position::{Anchor, AnchorRange, Bias, Order, Point};
use crate::queue::{
    lemma_most_urgent, lemma_steps_at_depth_grown, lemma_steps_at_depth_remove, most_urgent,
    steps_at_depth, ReparseQueue, ReparseStep, StepView,
};
use crate::region::{insert_region, with_region, ChangedRegion};
use crate::snapshot::SyntaxSnapshot;
use crate::walk::{advance, advanced, lemma_advanced_keeps, Walk};
use std::sync::Arc;
use vstd::prelude::*;

verus! {

/// Where the text of a step starts, in bytes and as a point, and where it
/// ends: at the start of the first and the end of the last of its ranges,
/// and from 0 to the length of the buffer where it has none.
pub open spec fn step_extent(ranges: Seq<TextRange>, len: usize) -> (usize, Point, usize) {
    if ranges.len() > 0 {
        (ranges.first().start_byte, ranges.first().start_point, ranges.last().end_byte)
    } else {
        (0, Point::spec_zero(), len)
    }
}

/// Whether the old layer at `position` gives way to the layer that the parse
/// of `ranges` is for: there is one, and it lies at the very bytes of the
/// buffer that the parse is for.
pub open spec fn reused(
    old: Seq<SyntaxLayer>,
    position: int,
    ranges: Seq<TextRange>,
    buffer: BufferSnapshot,
) -> bool {
    let extent = step_extent(ranges, buffer.text.len());
    &&& 0 <= position < old.len()
    &&& buffer.offset_of(old[position].range.start) == extent.0
    &&& buffer.offset_of(old[position].range.end) == extent.2
}

/// The tree that the old layer at `position` lends to the parse of `ranges`
/// under `grammar`: its own, if the layer lies at the very bytes that the
/// parse is for and its tree was built under the same grammar.
pub open spec fn lent_tree(
    old: Seq<SyntaxLayer>,
    position: int,
    ranges: Seq<TextRange>,
    buffer: BufferSnapshot,
    grammar: Grammar,
) -> Option<tree_sitter::Tree> {
    if reused(old, position, ranges, buffer) && built_under(
        old[position].tree,
        grammar.ts_language,
    ) {
        Some(old[position].tree)
    } else {
        None
    }
}

/// The region of `depth` that stands for the bytes of `range`.
pub open spec fn region_of(depth: usize, range: ByteRange) -> ChangedRegion {
    ChangedRegion {
        depth,
        range: AnchorRange {
            start: Anchor { offset: range.start, bias: Bias::Left },
            end: Anchor { offset: range.end, bias: Bias::Right },
        },
    }
}

/// The regions once each of `changed` is noted as a changed region of
/// `depth`.
pub open spec fn regions_noted(regions: Seq<ChangedRegion>, depth: usize, changed: Seq<ByteRange>) -> Seq<
    ChangedRegion,
>
    decreases changed.len(),
{
    if changed.len() == 0 {
        regions
    } else {
        with_region(
            regions_noted(regions, depth, changed.drop_last()),
            region_of(depth, changed.last()),
        )
    }
}

/// Notes each of `changed` as a changed region of `depth`.
pub fn note_regions(regions: &mut Vec<ChangedRegion>, depth: usize, changed: &Vec<ByteRange>)
    ensures
        final(regions)@ == regions_noted(old(regions)@, depth, changed@),
{
    let mut i: usize = 0;
    assert(changed@.take(0) =~= Seq::<ByteRange>::empty());
    while i < changed.len()
        invariant
            i <= changed.len(),
            regions@ == regions_noted(old(regions)@, depth, changed@.take(i as int)),
        decreases changed.len() - i,
    {
        assert(changed@.take(i + 1).drop_last() =~= changed@.take(i as int));
        assert(changed@.take(i + 1).last() == changed@[i as int]);
        let range = changed[i];
        insert_region(
            regions,
            ChangedRegion {
                depth,
                range: AnchorRange {
                    start: Anchor { offset: range.start, bias: Bias::Left },
                    end: Anchor { offset: range.end, bias: Bias::Right },
                },
            },
        );
        i += 1;
    }
    assert(changed@.take(changed.len() as int) =~= changed@);
}

/// A reparse under way: the walk through the old layers, and the parses
/// still to do.
pub struct State {
    pub walk: Walk,
    pub queue: Seq<StepView>,
}

/// The start of a reparse: nothing passed, nothing kept, nothing changed,
/// and one parse to do, that of the whole buffer in its own language.
pub open spec fn first_state(language: Arc<LanguageDef>) -> State {
    State {
        walk: Walk { position: 0, layers: Seq::empty(), regions: Seq::empty() },
        queue: seq![
            StepView {
                depth: 0,
                language,
                ranges: Seq::empty(),
                range: AnchorRange::spec_all(),
            },
        ],
    }
}

/// The bytes that a parse without an old tree reports as changed: all of
/// its text.
pub open spec fn fresh_extent(extent: (usize, Point, usize)) -> ByteRange {
    ByteRange {
        start: 0,
        end: if extent.2 >= extent.0 {
            (extent.2 - extent.0) as usize
        } else {
            0
        },
    }
}

/// The reparse after it has taken up `step`, which has left the queue.
///
/// The walk is brought up to the place of the step's layer. The old layer
/// there, if it lies at the bytes that the step is for, is passed, and lends
/// its tree to the parser if the tree was built under the step's grammar.
/// A step whose language has no grammar, whose ranges cannot be parsed (they
/// do not ascend, or lie beyond the text, or the parser does not take the
/// grammar), or for which the parser gives no tree, adds nothing. Otherwise
/// the new layer joins the index. Where the grammar knows of embedded languages, a
/// registry is at hand and something has changed (all of the text for a
/// parse without an old tree), the changes are noted as changed regions one
/// level deeper, and the embedded text within them is queued.
pub open spec fn step_taken(
    old: Seq<SyntaxLayer>,
    registry: Option<Arc<LanguageRegistry>>,
    buffer: BufferSnapshot,
    step: StepView,
    state: State,
) -> State {
    let at = advanced(old, step.depth, step.range, state.walk);
    let extent = step_extent(step.ranges, buffer.text.len());
    let reuse = reused(old, at.position, step.ranges, buffer);
    let position = if reuse {
        at.position + 1
    } else {
        at.position
    };
    let nothing_added = State {
        walk: Walk { position, layers: at.layers, regions: at.regions },
        queue: state.queue,
    };
    match step.language.grammar {
        None => nothing_added,
        Some(grammar) => {
            let old_tree = lent_tree(old, at.position, step.ranges, buffer, *grammar);
            match text_parsed(*grammar, buffer.text@, old_tree, step.ranges) {
                None => nothing_added,
                Some(tree) => {
                    let changed = match old_tree {
                        Some(old_tree) => changed_between(old_tree, tree),
                        None => seq![fresh_extent(extent)],
                    };
                    let layers = at.layers.push(
                        SyntaxLayer {
                            depth: step.depth,
                            range: step.range,
                            tree,
                            language: step.language,
                        },
                    );
                    if grammar.injection_config is Some && registry is Some && changed.len() > 0
                        && step.depth < usize::MAX {
                        let depth = (step.depth + 1) as usize;
                        State {
                            walk: Walk {
                                position,
                                layers,
                                regions: regions_noted(at.regions, depth, changed),
                            },
                            queue: injections(
                                grammar.injection_config.unwrap(),
                                *registry.unwrap(),
                                buffer.text@,
                                tree,
                                depth,
                                extent.0,
                                extent.1,
                                changed,
                                state.queue,
                            ).queue,
                        }
                    } else {
                        State {
                            walk: Walk { position, layers, regions: at.regions },
                            queue: state.queue,
                        }
                    }
                },
            }
        },
    }
}

/// The reparse after `n` steps, each the most urgent of its moment.
pub open spec fn state_after(
    old: Seq<SyntaxLayer>,
    registry: Option<Arc<LanguageRegistry>>,
    language: Arc<LanguageDef>,
    buffer: BufferSnapshot,
    n: nat,
) -> State
    decreases n,
{
    if n == 0 {
        first_state(language)
    } else {
        let before = state_after(old, registry, language, buffer, (n - 1) as nat);
        if before.queue.len() == 0 {
            before
        } else {
            let next = most_urgent(before.queue);
            step_taken(
                old,
                registry,
                buffer,
                before.queue[next],
                State { walk: before.walk, queue: before.queue.remove(next) },
            )
        }
    }
}

/// The layers of the new index once no parse is left to do: the walk is
/// brought to the end of the depth that it has reached, and what it has
/// kept is the index. Old layers deeper than that are dropped.
pub open spec fn finished(old: Seq<SyntaxLayer>, walk: Walk) -> Seq<SyntaxLayer> {
    advanced(
        old,
        summary_of(old.take(walk.position)).max_depth,
        AnchorRange { start: Anchor::spec_max(), end: Anchor::spec_max() },
        walk,
    ).layers
}

/// Whether `layers` is the index that a reparse of `old` arrives at after
/// `n` steps, with no parse left to do.
pub open spec fn reparsed_in(
    old: Seq<SyntaxLayer>,
    registry: Option<Arc<LanguageRegistry>>,
    language: Arc<LanguageDef>,
    buffer: BufferSnapshot,
    n: nat,
    layers: Seq<SyntaxLayer>,
) -> bool {
    let state = state_after(old, registry, language, buffer, n);
    state.queue.len() == 0 && layers == finished(old, state.walk)
}

impl SyntaxSnapshot {
    /// Rebuilds the index for `buffer`, from the layers as `interpolate` has
    /// left them for this very text.
    ///
    /// The parse of the whole buffer in `language` is taken up first, then,
    /// level by level and in the order of the text, the parses of the text
    /// in other languages that the parses before have found in what has
    /// changed. In front of each parse the walk through the old layers is
    /// brought up to the place of the layer that the parse is for, and the
    /// old layers that it passes are kept; an old layer that lies at that
    /// very place gives way to the new one, and lends its tree to the parse
    /// if it was built under the same grammar. A step is tested before it
    /// is parsed: where its ranges do not ascend or lie beyond the text, or
    /// the parser does not take its grammar, it is passed over.
    /// The new index is what the walk has kept and parsed once no parse is
    /// left to do. An index that is well formed stays so.
    pub fn reparse(
        &mut self,
        registry: Option<Arc<LanguageRegistry>>,
        language: Arc<LanguageDef>,
        buffer: &BufferSnapshot,
    )
        ensures
            exists|n: nat| #[trigger]
                reparsed_in(old(self)@, registry, language, *buffer, n, final(self)@),
            old(self).well_formed() ==> final(self).well_formed(),
    {
        let ghost old_seq = self@;
        let mut old_layers: Vec<SyntaxLayer> = Vec::new();
        std::mem::swap(&mut old_layers, &mut self.layers);
        let mut cursor = Cursor::new(&old_layers);
        let mut layers: Vec<SyntaxLayer> = Vec::new();
        let mut changed_regions: Vec<ChangedRegion> = Vec::new();
        let mut queue = ReparseQueue::new();
        queue.push(
            ReparseStep {
                depth: 0,
                language: share(&language),
                ranges: Vec::new(),
                range: AnchorRange::all(),
            },
        );
        let mut reached: usize = 0;
        let ghost mut n: nat = 0;
        assert(queue@ =~= first_state(language).queue);
        loop
            invariant_except_break
                cursor.position() == state_after(old_seq, registry, language, *buffer, n).walk.position,
                layers@ == state_after(old_seq, registry, language, *buffer, n).walk.layers,
                changed_regions@ == state_after(
                    old_seq,
                    registry,
                    language,
                    *buffer,
                    n,
                ).walk.regions,
                queue@ == state_after(old_seq, registry, language, *buffer, n).queue,
                forall|k: int| 0 <= k < queue@.len() ==> (#[trigger] queue@[k]).depth >= reached,
            invariant
                cursor.layers() == old_seq,
                trees_built(old_seq) ==> trees_built(layers@),
            ensures
                reparsed_in(old_seq, registry, language, *buffer, n, layers@),
            decreases usize::MAX - reached, steps_at_depth(queue@, reached),
        {
            let ghost waiting = queue@;
            let step = queue.pop();
            let (depth, range) = match &step {
                Some(step) => (step.depth, step.range),
                None => (
                    cursor.start().max_depth,
                    AnchorRange { start: Anchor::max(), end: Anchor::max() },
                ),
            };
            let ghost kept = Walk {
                position: cursor.position(),
                layers: layers@,
                regions: changed_regions@,
            };
            advance(&mut cursor, &mut layers, &mut changed_regions, depth, &range);
            proof {
                if trees_built(old_seq) {
                    lemma_advanced_keeps(old_seq, depth, range, kept);
                    assert forall|k: int| 0 <= k < layers@.len() implies (
                    #[trigger] layers@[k]).tree_is_built() by {
                        let l = layers@[k];
                        assert(layers@.contains(l));
                        if kept.layers.contains(l) {
                            let j = choose|j: int| 0 <= j < kept.layers.len() && kept.layers[j] == l;
                            assert(kept.layers[j].tree_is_built());
                        } else {
                            let j = choose|j: int| 0 <= j < old_seq.len() && old_seq[j] == l;
                            assert(old_seq[j].tree_is_built());
                        }
                    }
                }
            }
            let step = match step {
                Some(step) => step,
                None => {
                    break ;
                },
            };
            proof {
                lemma_most_urgent(waiting);
                lemma_steps_at_depth_remove(waiting, most_urgent(waiting), reached);
                assert forall|k: int| 0 <= k < queue@.len() implies (#[trigger] queue@[k]).depth
                    >= depth by {
                    let at = most_urgent(waiting);
                    if k < at {
                        assert(queue@[k] == waiting[k]);
                        assert(waiting[k].order(waiting[at]) != Order::Greater);
                    } else {
                        assert(queue@[k] == waiting[k + 1]);
                        assert(waiting[k + 1].order(waiting[at]) != Order::Greater);
                    }
                }
                n = n + 1;
            }
            let ghost left = queue@;
            let ghost at = Walk {
                position: cursor.position(),
                layers: layers@,
                regions: changed_regions@,
            };
            reached = depth;

            let start_byte: usize;
            let start_point: Point;
            let end_byte: usize;
            if step.ranges.len() > 0 {
                start_byte = step.ranges[0].start_byte;
                start_point = step.ranges[0].start_point;
                end_byte = step.ranges[step.ranges.len() - 1].end_byte;
            } else {
                start_byte = 0;
                start_point = Point::zero();
                end_byte = buffer.len();
            }

            let mut old_layer: Option<&SyntaxLayer> = None;
            if let Some(layer) = cursor.item() {
                if buffer.to_offset(&layer.range.start) == start_byte && buffer.to_offset(
                    &layer.range.end,
                ) == end_byte {
                    old_layer = Some(layer);
                    cursor.next();
                }
            }
            assert(old_layer is Some <==> reused(old_seq, at.position, step@.ranges, *buffer));

            let grammar = match &step.language.grammar {
                Some(grammar) => grammar,
                None => {
                    continue ;
                },
            };
            let old_tree = match old_layer {
                Some(layer) => if is_built_under(&layer.tree, &grammar.ts_language) {
                    Some(&layer.tree)
                } else {
                    None
                },
                None => None,
            };
            if !ready_to_parse(grammar, buffer, &step.ranges) {
                continue ;
            }
            let tree = match parse_text(grammar, buffer, old_tree, &step.ranges) {
                Some(tree) => tree,
                None => {
                    continue ;
                },
            };
            let changed = match old_tree {
                Some(old_tree) => changed_ranges(old_tree, &tree),
                None => {
                    let all = ByteRange {
                        start: 0,
                        end: if end_byte >= start_byte {
                            end_byte - start_byte
                        } else {
                            0
                        },
                    };
                    let mut changed: Vec<ByteRange> = Vec::new();
                    changed.push(all);
                    assert(changed@ =~= seq![all]);
                    changed
                },
            };
            layers.push(
                SyntaxLayer {
                    depth,
                    range,
                    tree: clone_tree(&tree),
                    language: share(&step.language),
                },
            );
            if let Some(config) = &grammar.injection_config {
                if let Some(registry) = &registry {
                    if changed.len() > 0 && depth < usize::MAX {
                        let depth = depth + 1;
                        let ghost config_value = *config;
                        let ghost registry_value = held(*registry);
                        note_regions(&mut changed_regions, depth, &changed);
                        get_injections(
                            config,
                            buffer,
                            &tree,
                            registry,
                            depth,
                            start_byte,
                            start_point,
                            &changed,
                            &mut queue,
                        );
                        proof {
                            lemma_injections_grow(
                                config_value,
                                registry_value,
                                buffer.text@,
                                tree,
                                depth,
                                start_byte,
                                start_point,
                                changed@,
                                Found { queue: left, last: None, any: false },
                            );
                            lemma_steps_at_depth_grown(left, queue@, depth, reached);
                        }
                    }
                }
            }
        }
        self.layers = layers;
        assert(reparsed_in(old_seq, registry, language, *buffer, n, self@));
        proof {
            if old(self).well_formed() {
                lemma_reparse_keeps_depth_order(old_seq, registry, language, *buffer, n, self@);
                lemma_reparse_keeps_ranges_in_order(old_seq, registry, language, *buffer, n, self@);
                assert(trees_built(self@));
            }
        }
    }
}

} // verus!
