//! Finding, in a freshly parsed tree, the stretches of text that belong to
//! another language, and queueing a parse for each.

use crate::buffer::BufferSnapshot;
use crate::language::{injection_language_name, InjectionConfig, LanguageRegistry};
use crate::parser::{matches_within, run_query, ByteRange, Capture, QueryMatch, TextRange};
use crate::position::{Anchor, AnchorRange, Bias, Point};
use crate::queue::{hull_of, ReparseQueue, ReparseStep, StepView};
use vstd::prelude::*;

verus! {

/// The range moved on by `start_byte` bytes and by `start_point`: from the
/// coordinates of a tree to those of the buffer. `None` where the result is
/// beyond the machine's integers.
pub open spec fn shifted_range(range: TextRange, start_byte: usize, start_point: Point) -> Option<
    TextRange,
> {
    if start_byte + range.start_byte <= usize::MAX && start_byte + range.end_byte <= usize::MAX
        && start_point.can_add(range.start_point) && start_point.can_add(range.end_point) {
        Some(
            TextRange {
                start_byte: (start_byte + range.start_byte) as usize,
                end_byte: (start_byte + range.end_byte) as usize,
                start_point: start_point.spec_plus(range.start_point),
                end_point: start_point.spec_plus(range.end_point),
            },
        )
    } else {
        None
    }
}

/// The places, in the buffer, of the nodes among `captures` that were
/// captured under the index `content_ix`, in the order of the captures.
/// `None` where one of them is beyond the machine's integers.
pub open spec fn content_ranges(
    captures: Seq<Capture>,
    content_ix: u32,
    start_byte: usize,
    start_point: Point,
) -> Option<Seq<TextRange>>
    decreases captures.len(),
{
    if captures.len() == 0 {
        Some(Seq::empty())
    } else {
        let last = captures.last();
        match content_ranges(captures.drop_last(), content_ix, start_byte, start_point) {
            None => None,
            Some(earlier) => if last.index != content_ix {
                Some(earlier)
            } else {
                match shifted_range(last.range, start_byte, start_point) {
                    Some(range) => Some(earlier.push(range)),
                    None => None,
                }
            },
        }
    }
}

/// The bytes, in the buffer, of the first node among `captures` from index
/// `from` on that was captured under the index `language_ix`, if there is
/// one and it is within the machine's integers.
pub open spec fn language_node(
    captures: Seq<Capture>,
    language_ix: Option<u32>,
    start_byte: usize,
    from: int,
) -> Option<(usize, usize)>
    decreases captures.len() - from,
{
    if language_ix is None || from < 0 || from >= captures.len() {
        None
    } else if captures[from].index == language_ix.unwrap() {
        if start_byte + captures[from].range.start_byte <= usize::MAX && start_byte
            + captures[from].range.end_byte <= usize::MAX {
            Some(
                (
                    (start_byte + captures[from].range.start_byte) as usize,
                    (start_byte + captures[from].range.end_byte) as usize,
                ),
            )
        } else {
            None
        }
    } else {
        language_node(captures, language_ix, start_byte, from + 1)
    }
}

/// What a search for embedded languages has come to: the queue with the
/// parses that it has added, the pattern and the bytes of the last match
/// that counted, and whether any parse was added.
pub struct Found {
    pub queue: Seq<StepView>,
    pub last: Option<(usize, ByteRange)>,
    pub any: bool,
}

/// The search after one more match. A match without content counts for
/// nothing, and so do one whose content lies beyond the machine's integers
/// and one of the same pattern and the same bytes as the last that counted.
/// Of the others, each whose language is known adds a parse of its content,
/// at `depth`, to the queue.
pub open spec fn match_taken(
    config: InjectionConfig,
    registry: LanguageRegistry,
    text: Seq<u8>,
    depth: usize,
    start_byte: usize,
    start_point: Point,
    found: QueryMatch,
    so_far: Found,
) -> Found {
    match content_ranges(found.captures@, config.content_capture_ix, start_byte, start_point) {
        None => so_far,
        Some(ranges) => {
            let hull = hull_of(ranges);
            if ranges.len() == 0 || so_far.last == Some((found.pattern_index, hull)) {
                so_far
            } else {
                let node = language_node(
                    found.captures@,
                    config.language_capture_ix,
                    start_byte,
                    0,
                );
                let language = match injection_language_name(
                    config,
                    found.pattern_index,
                    node,
                    text,
                ) {
                    Some(name) => registry.lookup(name),
                    None => None,
                };
                match language {
                    Some(language) => Found {
                        queue: so_far.queue.push(
                            StepView {
                                depth,
                                language,
                                ranges,
                                range: AnchorRange {
                                    start: Anchor { offset: hull.start, bias: Bias::Left },
                                    end: Anchor { offset: hull.end, bias: Bias::Right },
                                },
                            },
                        ),
                        last: Some((found.pattern_index, hull)),
                        any: true,
                    },
                    None => Found {
                        queue: so_far.queue,
                        last: Some((found.pattern_index, hull)),
                        any: so_far.any,
                    },
                }
            }
        },
    }
}

/// The search after each of `matches` in turn.
pub open spec fn matches_taken(
    config: InjectionConfig,
    registry: LanguageRegistry,
    text: Seq<u8>,
    depth: usize,
    start_byte: usize,
    start_point: Point,
    matches: Seq<QueryMatch>,
    so_far: Found,
) -> Found
    decreases matches.len(),
{
    if matches.len() == 0 {
        so_far
    } else {
        match_taken(
            config,
            registry,
            text,
            depth,
            start_byte,
            start_point,
            matches.last(),
            matches_taken(
                config,
                registry,
                text,
                depth,
                start_byte,
                start_point,
                matches.drop_last(),
                so_far,
            ),
        )
    }
}

/// The search after the matches that the query of `config` has in `tree`
/// within each of `ranges` in turn.
pub open spec fn ranges_searched(
    config: InjectionConfig,
    registry: LanguageRegistry,
    text: Seq<u8>,
    tree: tree_sitter::Tree,
    depth: usize,
    start_byte: usize,
    start_point: Point,
    ranges: Seq<ByteRange>,
    so_far: Found,
) -> Found
    decreases ranges.len(),
{
    if ranges.len() == 0 {
        so_far
    } else {
        matches_taken(
            config,
            registry,
            text,
            depth,
            start_byte,
            start_point,
            matches_within(config.query, tree, text, ranges.last().start, ranges.last().end),
            ranges_searched(
                config,
                registry,
                text,
                tree,
                depth,
                start_byte,
                start_point,
                ranges.drop_last(),
                so_far,
            ),
        )
    }
}

/// What a search of `tree` within each of `ranges` comes to that starts with
/// `queue` and nothing found.
pub open spec fn injections(
    config: InjectionConfig,
    registry: LanguageRegistry,
    text: Seq<u8>,
    tree: tree_sitter::Tree,
    depth: usize,
    start_byte: usize,
    start_point: Point,
    ranges: Seq<ByteRange>,
    queue: Seq<StepView>,
) -> Found {
    ranges_searched(
        config,
        registry,
        text,
        tree,
        depth,
        start_byte,
        start_point,
        ranges,
        Found { queue, last: None, any: false },
    )
}

/// Whether `longer` is `queue` with steps of `depth` added behind it, each
/// with ranges and with the range of its ranges.
pub open spec fn grown_by_depth(queue: Seq<StepView>, longer: Seq<StepView>, depth: usize) -> bool {
    &&& queue.len() <= longer.len()
    &&& forall|k: int| 0 <= k < queue.len() ==> longer[k] == queue[k]
    &&& forall|k: int|
        queue.len() <= k < longer.len() ==> (#[trigger] longer[k]).depth == depth
            && longer[k].is_tied() && longer[k].ranges.len() > 0
}

/// Taking matches into account only adds steps of the given depth to the
/// queue.
pub proof fn lemma_matches_taken_grow(
    config: InjectionConfig,
    registry: LanguageRegistry,
    text: Seq<u8>,
    depth: usize,
    start_byte: usize,
    start_point: Point,
    matches: Seq<QueryMatch>,
    so_far: Found,
)
    ensures
        grown_by_depth(
            so_far.queue,
            matches_taken(
                config,
                registry,
                text,
                depth,
                start_byte,
                start_point,
                matches,
                so_far,
            ).queue,
            depth,
        ),
    decreases matches.len(),
{
    if matches.len() > 0 {
        lemma_matches_taken_grow(
            config,
            registry,
            text,
            depth,
            start_byte,
            start_point,
            matches.drop_last(),
            so_far,
        );
    }
}

/// A search for embedded languages only adds steps of the given depth to
/// the queue.
pub proof fn lemma_injections_grow(
    config: InjectionConfig,
    registry: LanguageRegistry,
    text: Seq<u8>,
    tree: tree_sitter::Tree,
    depth: usize,
    start_byte: usize,
    start_point: Point,
    ranges: Seq<ByteRange>,
    so_far: Found,
)
    ensures
        grown_by_depth(
            so_far.queue,
            ranges_searched(
                config,
                registry,
                text,
                tree,
                depth,
                start_byte,
                start_point,
                ranges,
                so_far,
            ).queue,
            depth,
        ),
    decreases ranges.len(),
{
    if ranges.len() > 0 {
        lemma_injections_grow(
            config,
            registry,
            text,
            tree,
            depth,
            start_byte,
            start_point,
            ranges.drop_last(),
            so_far,
        );
        lemma_matches_taken_grow(
            config,
            registry,
            text,
            depth,
            start_byte,
            start_point,
            matches_within(config.query, tree, text, ranges.last().start, ranges.last().end),
            ranges_searched(
                config,
                registry,
                text,
                tree,
                depth,
                start_byte,
                start_point,
                ranges.drop_last(),
                so_far,
            ),
        );
    }
}

/// Whether every node that the match captured as content lies within the
/// first `len` bytes of the text of its tree.
pub open spec fn content_within(found: QueryMatch, content_ix: u32, len: int) -> bool {
    forall|c: int|
        0 <= c < found.captures@.len() && (#[trigger] found.captures@[c]).index == content_ix
            ==> found.captures@[c].range.start_byte <= found.captures@[c].range.end_byte <= len
}

/// Whether `longer` is `queue` with steps added behind it whose ranges lie
/// within the `len` bytes of the buffer from `start_byte` on.
pub open spec fn grown_within(
    queue: Seq<StepView>,
    longer: Seq<StepView>,
    start_byte: usize,
    len: int,
) -> bool {
    &&& queue.len() <= longer.len()
    &&& forall|k: int| 0 <= k < queue.len() ==> longer[k] == queue[k]
    &&& forall|k: int|
        queue.len() <= k < longer.len() ==> start_byte <= (#[trigger] longer[k]).range.start.offset
            && longer[k].range.end.offset <= start_byte + len
}

/// The content of a match whose nodes lie within the first `len` bytes of
/// the text of its tree lies, in the buffer, within the `len` bytes from
/// `start_byte` on.
pub proof fn lemma_content_ranges_within(
    captures: Seq<Capture>,
    content_ix: u32,
    start_byte: usize,
    start_point: Point,
    len: int,
)
    requires
        forall|c: int|
            0 <= c < captures.len() && (#[trigger] captures[c]).index == content_ix
                ==> captures[c].range.start_byte <= captures[c].range.end_byte <= len,
    ensures
        content_ranges(captures, content_ix, start_byte, start_point) is Some ==> forall|k: int|
            0 <= k < content_ranges(captures, content_ix, start_byte, start_point).unwrap().len()
                ==> start_byte <= (#[trigger] content_ranges(
                captures,
                content_ix,
                start_byte,
                start_point,
            ).unwrap()[k]).start_byte <= content_ranges(
                captures,
                content_ix,
                start_byte,
                start_point,
            ).unwrap()[k].end_byte <= start_byte + len,
    decreases captures.len(),
{
    if captures.len() > 0 {
        let earlier = captures.drop_last();
        assert forall|c: int| 0 <= c < earlier.len() && (#[trigger] earlier[c]).index
            == content_ix implies earlier[c].range.start_byte <= earlier[c].range.end_byte
            <= len by {
            assert(earlier[c] == captures[c]);
        }
        lemma_content_ranges_within(earlier, content_ix, start_byte, start_point, len);
        assert(captures.last() == captures[captures.len() - 1]);
    }
}

/// Taking matches into account whose content lies within the first `len`
/// bytes of the text of their tree only adds steps whose ranges lie within
/// the `len` bytes of the buffer from `start_byte` on.
pub proof fn lemma_matches_taken_within(
    config: InjectionConfig,
    registry: LanguageRegistry,
    text: Seq<u8>,
    depth: usize,
    start_byte: usize,
    start_point: Point,
    matches: Seq<QueryMatch>,
    so_far: Found,
    len: int,
)
    requires
        forall|m: int|
            0 <= m < matches.len() ==> content_within(
                #[trigger] matches[m],
                config.content_capture_ix,
                len,
            ),
    ensures
        grown_within(
            so_far.queue,
            matches_taken(
                config,
                registry,
                text,
                depth,
                start_byte,
                start_point,
                matches,
                so_far,
            ).queue,
            start_byte,
            len,
        ),
    decreases matches.len(),
{
    if matches.len() > 0 {
        let earlier = matches.drop_last();
        assert forall|m: int| 0 <= m < earlier.len() implies content_within(
            #[trigger] earlier[m],
            config.content_capture_ix,
            len,
        ) by {
            assert(earlier[m] == matches[m]);
        }
        lemma_matches_taken_within(
            config,
            registry,
            text,
            depth,
            start_byte,
            start_point,
            earlier,
            so_far,
            len,
        );
        let found = matches.last();
        assert(content_within(matches[matches.len() - 1], config.content_capture_ix, len));
        lemma_content_ranges_within(
            found.captures@,
            config.content_capture_ix,
            start_byte,
            start_point,
            len,
        );
    }
}

/// Whether every node that the query of `config` reports as content, in
/// `tree` within each of `ranges`, lies within the first `len` bytes of the
/// text of the tree.
pub open spec fn content_kept_within(
    config: InjectionConfig,
    tree: tree_sitter::Tree,
    text: Seq<u8>,
    ranges: Seq<ByteRange>,
    len: int,
) -> bool {
    forall|r: int, m: int|
        0 <= r < ranges.len() && 0 <= m < matches_within(
            config.query,
            tree,
            text,
            ranges[r].start,
            ranges[r].end,
        ).len() ==> content_within(
            #[trigger] matches_within(config.query, tree, text, ranges[r].start, ranges[r].end)[m],
            config.content_capture_ix,
            len,
        )
}

/// What a search for embedded languages queues lies within the stretch of
/// the layer in whose tree it was found, where the nodes that the parser
/// reports as content lie within the text of that tree: the steps added
/// have their ranges within the `len` bytes of the buffer from `start_byte`
/// on.
pub proof fn lemma_injections_within(
    config: InjectionConfig,
    registry: LanguageRegistry,
    text: Seq<u8>,
    tree: tree_sitter::Tree,
    depth: usize,
    start_byte: usize,
    start_point: Point,
    ranges: Seq<ByteRange>,
    so_far: Found,
    len: int,
)
    requires
        content_kept_within(config, tree, text, ranges, len),
    ensures
        grown_within(
            so_far.queue,
            ranges_searched(
                config,
                registry,
                text,
                tree,
                depth,
                start_byte,
                start_point,
                ranges,
                so_far,
            ).queue,
            start_byte,
            len,
        ),
    decreases ranges.len(),
{
    if ranges.len() > 0 {
        let earlier = ranges.drop_last();
        assert(content_kept_within(config, tree, text, earlier, len)) by {
            assert forall|r: int, m: int|
                0 <= r < earlier.len() && 0 <= m < matches_within(
                    config.query,
                    tree,
                    text,
                    earlier[r].start,
                    earlier[r].end,
                ).len() implies content_within(
                #[trigger] matches_within(
                    config.query,
                    tree,
                    text,
                    earlier[r].start,
                    earlier[r].end,
                )[m],
                config.content_capture_ix,
                len,
            ) by {
                assert(earlier[r] == ranges[r]);
            }
        }
        lemma_injections_within(
            config,
            registry,
            text,
            tree,
            depth,
            start_byte,
            start_point,
            earlier,
            so_far,
            len,
        );
        let last = ranges[ranges.len() - 1];
        assert(ranges.last() == last);
        lemma_matches_taken_within(
            config,
            registry,
            text,
            depth,
            start_byte,
            start_point,
            matches_within(config.query, tree, text, last.start, last.end),
            ranges_searched(
                config,
                registry,
                text,
                tree,
                depth,
                start_byte,
                start_point,
                earlier,
                so_far,
            ),
            len,
        );
    }
}

/// Moves a range from the coordinates of a tree to those of the buffer.
pub fn shift_range(range: &TextRange, start_byte: usize, start_point: &Point) -> (shifted: Option<
    TextRange,
>)
    ensures
        shifted == shifted_range(*range, start_byte, *start_point),
{
    if range.start_byte > usize::MAX - start_byte || range.end_byte > usize::MAX - start_byte {
        return None;
    }
    match (start_point.checked_plus(&range.start_point), start_point.checked_plus(&range.end_point)) {
        (Some(from), Some(to)) => Some(
            TextRange {
                start_byte: start_byte + range.start_byte,
                end_byte: start_byte + range.end_byte,
                start_point: from,
                end_point: to,
            },
        ),
        _ => None,
    }
}

/// Lists, in the coordinates of the buffer, the nodes that a match captured
/// as content.
pub fn content_of(captures: &Vec<Capture>, content_ix: u32, start_byte: usize, start_point: &Point) -> (
    ranges: Option<Vec<TextRange>>)
    ensures
        match content_ranges(captures@, content_ix, start_byte, *start_point) {
            Some(wanted) => ranges is Some && ranges.unwrap()@ == wanted,
            None => ranges is None,
        },
{
    let mut ranges: Vec<TextRange> = Vec::new();
    let mut i: usize = 0;
    assert(captures@.take(0) =~= Seq::<Capture>::empty());
    while i < captures.len()
        invariant
            i <= captures.len(),
            content_ranges(captures@.take(i as int), content_ix, start_byte, *start_point) == Some(
                ranges@,
            ),
        decreases captures.len() - i,
    {
        assert(captures@.take(i + 1).drop_last() =~= captures@.take(i as int));
        assert(captures@.take(i + 1).last() == captures@[i as int]);
        if captures[i].index == content_ix {
            match shift_range(&captures[i].range, start_byte, start_point) {
                Some(range) => {
                    ranges.push(range);
                },
                None => {
                    proof {
                        lemma_content_ranges_none(
                            captures@,
                            i + 1,
                            content_ix,
                            start_byte,
                            *start_point,
                        );
                        assert(captures@.take(captures.len() as int) =~= captures@);
                    }
                    return None;
                },
            }
        }
        i += 1;
    }
    assert(captures@.take(captures.len() as int) =~= captures@);
    Some(ranges)
}

/// Once a node is beyond the machine's integers, more captures do not mend
/// it.
proof fn lemma_content_ranges_none(
    captures: Seq<Capture>,
    n: int,
    content_ix: u32,
    start_byte: usize,
    start_point: Point,
)
    requires
        0 <= n <= captures.len(),
        content_ranges(captures.take(n), content_ix, start_byte, start_point) is None,
    ensures
        content_ranges(captures, content_ix, start_byte, start_point) is None,
    decreases captures.len() - n,
{
    if n < captures.len() {
        assert(captures.take(n + 1).drop_last() =~= captures.take(n));
        lemma_content_ranges_none(captures, n + 1, content_ix, start_byte, start_point);
    } else {
        assert(captures.take(n) =~= captures);
    }
}

/// Finds, in the coordinates of the buffer, the node that a match captured
/// as the name of its language.
pub fn language_node_of(captures: &Vec<Capture>, language_ix: Option<u32>, start_byte: usize) -> (node:
    Option<(usize, usize)>)
    ensures
        node == language_node(captures@, language_ix, start_byte, 0),
{
    let ix = match language_ix {
        Some(ix) => ix,
        None => {
            return None;
        },
    };
    let mut i: usize = 0;
    while i < captures.len()
        invariant
            i <= captures.len(),
            language_ix == Some(ix),
            language_node(captures@, language_ix, start_byte, 0) == language_node(
                captures@,
                language_ix,
                start_byte,
                i as int,
            ),
        decreases captures.len() - i,
    {
        if captures[i].index == ix {
            let range = &captures[i].range;
            if range.start_byte > usize::MAX - start_byte || range.end_byte > usize::MAX
                - start_byte {
                return None;
            }
            return Some((start_byte + range.start_byte, start_byte + range.end_byte));
        }
        i += 1;
    }
    None
}

/// Takes one match into account: queues a parse of its content, unless the
/// match has none, repeats the one before, or asks for a language that the
/// registry does not know.
pub fn take_match(
    config: &InjectionConfig,
    registry: &LanguageRegistry,
    buffer: &BufferSnapshot,
    depth: usize,
    start_byte: usize,
    start_point: &Point,
    found: &QueryMatch,
    queue: &mut ReparseQueue,
    last: &mut Option<(usize, ByteRange)>,
    any: &mut bool,
)
    ensures
        (Found { queue: final(queue)@, last: *final(last), any: *final(any) }) == match_taken(
            *config,
            *registry,
            buffer.text@,
            depth,
            start_byte,
            *start_point,
            *found,
            Found { queue: old(queue)@, last: *old(last), any: *old(any) },
        ),
{
    let ranges = match content_of(
        &found.captures,
        config.content_capture_ix,
        start_byte,
        start_point,
    ) {
        Some(ranges) => ranges,
        None => {
            return ;
        },
    };
    if ranges.len() == 0 {
        return ;
    }
    // Avoid duplicate matches if two changed ranges intersect the same
    // injection.
    let hull = ByteRange { start: ranges[0].start_byte, end: ranges[ranges.len() - 1].end_byte };
    if let Some((last_pattern, last_hull)) = last {
        if found.pattern_index == *last_pattern && hull.start == last_hull.start && hull.end
            == last_hull.end {
            return ;
        }
    }
    *last = Some((found.pattern_index, hull));
    let node = language_node_of(&found.captures, config.language_capture_ix, start_byte);
    if let Some(language) = config.language_for_match(
        found.pattern_index,
        node,
        &buffer.text,
        registry,
    ) {
        *any = true;
        queue.push(
            ReparseStep {
                depth,
                language,
                ranges,
                range: AnchorRange {
                    start: buffer.anchor_before(hull.start),
                    end: buffer.anchor_after(hull.end),
                },
            },
        );
    }
}

/// Searches `tree`, within each of `query_ranges`, for text in other
/// languages, and queues a parse at `depth` for each stretch found whose
/// language the registry knows. The tree's text starts at `start_byte` and
/// `start_point` of the buffer. Returns whether any parse was queued.
pub fn get_injections(
    config: &InjectionConfig,
    buffer: &BufferSnapshot,
    tree: &tree_sitter::Tree,
    registry: &LanguageRegistry,
    depth: usize,
    start_byte: usize,
    start_point: Point,
    query_ranges: &Vec<ByteRange>,
    queue: &mut ReparseQueue,
) -> (any: bool)
    ensures
        final(queue)@ == injections(
            *config,
            *registry,
            buffer.text@,
            *tree,
            depth,
            start_byte,
            start_point,
            query_ranges@,
            old(queue)@,
        ).queue,
        any == injections(
            *config,
            *registry,
            buffer.text@,
            *tree,
            depth,
            start_byte,
            start_point,
            query_ranges@,
            old(queue)@,
        ).any,
{
    let mut any = false;
    let mut last: Option<(usize, ByteRange)> = None;
    let ghost first = Found { queue: queue@, last: None, any: false };
    let mut r: usize = 0;
    assert(query_ranges@.take(0) =~= Seq::<ByteRange>::empty());
    while r < query_ranges.len()
        invariant
            r <= query_ranges.len(),
            first == (Found { queue: old(queue)@, last: None, any: false }),
            (Found { queue: queue@, last, any }) == ranges_searched(
                *config,
                *registry,
                buffer.text@,
                *tree,
                depth,
                start_byte,
                start_point,
                query_ranges@.take(r as int),
                first,
            ),
        decreases query_ranges.len() - r,
    {
        let query_range = query_ranges[r];
        let matches = run_query(
            &config.query,
            tree,
            &buffer.text,
            query_range.start,
            query_range.end,
        );
        let ghost before = Found { queue: queue@, last, any };
        let mut m: usize = 0;
        assert(matches@.take(0) =~= Seq::<QueryMatch>::empty());
        while m < matches.len()
            invariant
                m <= matches.len(),
                (Found { queue: queue@, last, any }) == matches_taken(
                    *config,
                    *registry,
                    buffer.text@,
                    depth,
                    start_byte,
                    start_point,
                    matches@.take(m as int),
                    before,
                ),
            decreases matches.len() - m,
        {
            assert(matches@.take(m + 1).drop_last() =~= matches@.take(m as int));
            assert(matches@.take(m + 1).last() == matches@[m as int]);
            take_match(
                config,
                registry,
                buffer,
                depth,
                start_byte,
                &start_point,
                &matches[m],
                queue,
                &mut last,
                &mut any,
            );
            m += 1;
        }
        assert(matches@.take(matches.len() as int) =~= matches@);
        assert(query_ranges@.take(r + 1).drop_last() =~= query_ranges@.take(r as int));
        assert(query_ranges@.take(r + 1).last() == query_range);
        r += 1;
    }
    assert(query_ranges@.take(query_ranges.len() as int) =~= query_ranges@);
    any
}

} // verus!
