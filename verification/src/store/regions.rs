//! Cuts a source file into bounded regions that keep declarations whole where
//! they fit, and prepares what is indexed for each region.

use crate::text;
use crate::unicode;
use vstd::prelude::*;
use vstd::string::StringExecFns;
use vstd::utf8;

verus! {

/// No region is larger than this.
pub const REGION_BYTES: usize = 4096;

/// A declaration found in a source file: its name, its kind and the bytes it spans.
#[derive(Clone, Debug)]
pub struct Definition {
    pub name: String,
    pub kind: String,
    pub start: usize,
    pub end: usize,
    pub container: Option<String>,
}

/// One region of a source file and the declaration that owns it.
#[derive(Clone, Copy, Debug, PartialEq, Eq)]
pub struct RegionSpan {
    pub start: usize,
    pub end: usize,
    pub definition: Option<usize>,
}

/// The bytes of one declaration, with its place in the list of declarations.
#[derive(Clone, Copy, Debug)]
pub struct DefinitionSpan {
    pub definition: usize,
    pub start: usize,
    pub end: usize,
}

/// Whether no character of `source` continues across `offset`.
pub open spec fn char_start(source: Seq<u8>, offset: int) -> bool {
    offset == 0 || offset == source.len() || !utf8::is_continuation_byte(source[offset])
}

/// Whether a declaration spans at least one byte of `source`, on character boundaries.
pub open spec fn usable(source: Seq<u8>, definition: Definition) -> bool {
    &&& definition.start < definition.end <= source.len()
    &&& char_start(source, definition.start as int)
    &&& char_start(source, definition.end as int)
}

pub open spec fn same_bounds(definition: Definition, span: DefinitionSpan) -> bool {
    definition.start == span.start && definition.end == span.end
}

/// Spans are listed by start; of two with one start the longer comes first.
pub open spec fn listed_before(a: DefinitionSpan, b: DefinitionSpan) -> bool {
    a.start < b.start || (a.start == b.start && a.end > b.end)
}

/// A span stands for the first usable declaration with its bounds.
pub open spec fn stands_for(
    source: Seq<u8>,
    definitions: Seq<Definition>,
    span: DefinitionSpan,
) -> bool {
    &&& span.definition < definitions.len()
    &&& usable(source, definitions[span.definition as int])
    &&& same_bounds(definitions[span.definition as int], span)
    &&& forall|d: int| 0 <= d < span.definition ==> !same_bounds(#[trigger] definitions[d], span)
}

/// Whether one of the spans has the bounds of a declaration.
pub open spec fn has_span(spans: Seq<DefinitionSpan>, definition: Definition) -> bool {
    exists|i: int| 0 <= i < spans.len() && same_bounds(definition, #[trigger] spans[i])
}

/// The usable declarations of a source as spans: listed in order, each pair of
/// bounds once.
pub open spec fn spans_of(
    source: Seq<u8>,
    definitions: Seq<Definition>,
    spans: Seq<DefinitionSpan>,
) -> bool {
    &&& forall|i: int, j: int|
        0 <= i < j < spans.len() ==> listed_before(#[trigger] spans[i], #[trigger] spans[j])
    &&& forall|i: int|
        0 <= i < spans.len() ==> stands_for(source, definitions, #[trigger] spans[i])
    &&& forall|d: int|
        0 <= d < definitions.len() && usable(source, definitions[d]) ==> #[trigger] has_span(
            spans,
            definitions[d],
        )
}

/// Whether a span fits in one region.
pub open spec fn fits(span: DefinitionSpan) -> bool {
    span.end - span.start <= REGION_BYTES
}

/// Whether a span lies inside every one of the listed spans that reaches past its start.
pub open spec fn nests(spans: Seq<DefinitionSpan>, kept: Seq<int>, i: int) -> bool {
    forall|k: int|
        0 <= k < kept.len() && spans[#[trigger] kept[k]].end > spans[i].start
            ==> spans[kept[k]].end >= spans[i].end
}

/// The indices, among the first `n` spans, of those that form a declaration tree: a
/// span that crosses one kept before it is left out.
pub open spec fn tree_indices(spans: Seq<DefinitionSpan>, n: nat) -> Seq<int>
    decreases n,
{
    if n == 0 {
        Seq::empty()
    } else {
        let kept = tree_indices(spans, (n - 1) as nat);
        if nests(spans, kept, n - 1) {
            kept.push(n - 1)
        } else {
            kept
        }
    }
}

/// Whether span `i` fits in a region and no kept span around it does.
pub open spec fn outermost_fit(spans: Seq<DefinitionSpan>, kept: Seq<int>, i: int) -> bool {
    &&& nests(spans, kept, i)
    &&& fits(spans[i])
    &&& forall|k: int|
        0 <= k < kept.len() && spans[#[trigger] kept[k]].end > spans[i].start
            ==> !fits(spans[kept[k]])
}

/// The spans, among the first `n`, that are kept in one piece: the outermost nodes of
/// the declaration tree that fit in a region.
pub open spec fn whole_spans(spans: Seq<DefinitionSpan>, n: nat) -> Seq<DefinitionSpan>
    decreases n,
{
    if n == 0 {
        Seq::empty()
    } else {
        let before = whole_spans(spans, (n - 1) as nat);
        if outermost_fit(spans, tree_indices(spans, (n - 1) as nat), n - 1) {
            before.push(spans[n - 1])
        } else {
            before
        }
    }
}

/// The place after the last newline in `source[start..n]`, or `limit` without one.
pub open spec fn after_newline(source: Seq<u8>, start: int, limit: int, n: int) -> int
    decreases n - start,
{
    if n <= start {
        limit
    } else if source[n - 1] == 10 {
        n
    } else {
        after_newline(source, start, limit, n - 1)
    }
}

/// The last character boundary at or before `n`, but not before `start`.
pub open spec fn char_floor(source: Seq<u8>, start: int, n: int) -> int
    decreases n - start,
{
    if n <= start || char_start(source, n) {
        n
    } else {
        char_floor(source, start, n - 1)
    }
}

/// Where text without declarations is cut: after the last newline before `limit`, else
/// at `limit`, and never inside a character.
pub open spec fn text_cut(source: Seq<u8>, start: int, limit: int) -> int {
    char_floor(source, start, after_newline(source, start, limit, limit))
}

/// The furthest place at which a region that starts at `cursor` may end.
pub open spec fn region_limit(source: Seq<u8>, cursor: int) -> int {
    if cursor + REGION_BYTES <= source.len() {
        cursor + REGION_BYTES
    } else {
        source.len() as int
    }
}

/// Of the whole spans, those from `first` start at or after `cursor`, and those before
/// `next` end within the region limit.
pub open spec fn packs(
    source: Seq<u8>,
    whole: Seq<DefinitionSpan>,
    cursor: int,
    first: int,
    next: int,
) -> bool {
    let limit = region_limit(source, cursor);
    &&& 0 <= first <= next <= whole.len()
    &&& forall|k: int| 0 <= k < first ==> (#[trigger] whole[k]).start < cursor
    &&& forall|k: int| first <= k < whole.len() ==> (#[trigger] whole[k]).start >= cursor
    &&& forall|k: int| first <= k < next ==> (#[trigger] whole[k]).end <= limit
    &&& next < whole.len() ==> whole[next].end > limit
}

/// Where the region from `cursor` ends once whole spans `first..next` are packed into
/// it: before the next whole span if that begins within the limit, else at a text cut.
/// A text cut that would leave the region empty gives way to the limit.
pub open spec fn packed_end(
    source: Seq<u8>,
    whole: Seq<DefinitionSpan>,
    cursor: int,
    first: int,
    next: int,
) -> int {
    let limit = region_limit(source, cursor);
    let packed = if next > first {
        whole[next - 1].end as int
    } else {
        cursor
    };
    let end = if next < whole.len() && whole[next].start < limit {
        whole[next].start as int
    } else {
        text_cut(source, packed, limit)
    };
    if end <= cursor {
        limit
    } else {
        end
    }
}

/// Whether a region that starts at `cursor` ends at `end`.
pub open spec fn region_ends(
    source: Seq<u8>,
    whole: Seq<DefinitionSpan>,
    cursor: int,
    end: int,
) -> bool {
    exists|first: int, next: int|
        #[trigger] packs(source, whole, cursor, first, next) && end == packed_end(
            source,
            whole,
            cursor,
            first,
            next,
        )
}

pub open spec fn covers(span: DefinitionSpan, start: int, end: int) -> bool {
    span.start <= start && end <= span.end
}

/// Of two spans the smaller is nearer; of two of one size the earlier declaration is.
pub open spec fn nearer(a: DefinitionSpan, b: DefinitionSpan) -> bool {
    a.end - a.start < b.end - b.start || (a.end - a.start == b.end - b.start && a.definition
        <= b.definition)
}

/// The owner of a piece of source: the nearest declaration that covers it, if any does.
pub open spec fn owned_by(
    spans: Seq<DefinitionSpan>,
    start: int,
    end: int,
    owner: Option<usize>,
) -> bool {
    match owner {
        None => forall|i: int| 0 <= i < spans.len() ==> !covers(#[trigger] spans[i], start, end),
        Some(definition) => exists|i: int|
            {
                &&& 0 <= i < spans.len()
                &&& covers(#[trigger] spans[i], start, end)
                &&& spans[i].definition == definition
                &&& forall|j: int|
                    0 <= j < spans.len() && covers(#[trigger] spans[j], start, end) ==> nearer(
                        spans[i],
                        spans[j],
                    )
            },
    }
}

/// Where region `i` of `regions` starts.
pub open spec fn region_start(regions: Seq<RegionSpan>, i: int) -> int {
    if i == 0 {
        0
    } else {
        regions[i - 1].end as int
    }
}

/// Whether region `i` starts where the one before it ends, and ends and is owned as the
/// spans say.
pub open spec fn region_at(
    source: Seq<u8>,
    spans: Seq<DefinitionSpan>,
    regions: Seq<RegionSpan>,
    i: int,
) -> bool {
    &&& regions[i].start == region_start(regions, i)
    &&& regions[i].start < source.len()
    &&& region_ends(
        source,
        whole_spans(spans, spans.len()),
        regions[i].start as int,
        regions[i].end as int,
    )
    &&& owned_by(spans, regions[i].start as int, regions[i].end as int, regions[i].definition)
}

/// Whether `regions` cut the first bytes of a source, up to the end of the last one.
pub open spec fn regions_cut(
    source: Seq<u8>,
    spans: Seq<DefinitionSpan>,
    regions: Seq<RegionSpan>,
) -> bool {
    forall|i: int| 0 <= i < regions.len() ==> #[trigger] region_at(source, spans, regions, i)
}

/// Whether `regions` are the regions of `source` with the given declarations.
pub open spec fn partitions(
    source: Seq<u8>,
    definitions: Seq<Definition>,
    regions: Seq<RegionSpan>,
) -> bool {
    exists|spans: Seq<DefinitionSpan>|
        {
            &&& #[trigger] spans_of(source, definitions, spans)
            &&& regions_cut(source, spans, regions)
            &&& region_start(regions, regions.len() as int) == source.len()
        }
}

/// Whether no character of `source` continues across `offset`.
pub fn is_utf8_boundary(source: &[u8], offset: usize) -> (boundary: bool)
    requires
        offset <= source.len(),
    ensures
        boundary == char_start(source@, offset as int),
{
    if offset == 0 || offset == source.len() {
        return true;
    }
    let byte: u8 = source[offset];
    assert((byte & 0xc0 == 0x80) == (0x80 <= byte && byte <= 0xbf)) by (bit_vector);
    byte & 0xc0 != 0x80
}

/// The spans of the usable declarations, listed by start and then by falling end, each
/// pair of bounds once.
pub fn valid_definition_spans(source: &[u8], definitions: &[Definition]) -> (spans: Vec<
    DefinitionSpan,
>)
    ensures
        spans_of(source@, definitions@, spans@),
{
    let mut spans: Vec<DefinitionSpan> = Vec::new();
    let mut d: usize = 0;
    while d < definitions.len()
        invariant
            d <= definitions.len(),
            spans_of(source@, definitions@.take(d as int), spans@),
        decreases definitions.len() - d,
    {
        let start: usize = definitions[d].start;
        let end: usize = definitions[d].end;
        let ghost seen = definitions@.take(d as int);
        let ghost next = definitions@.take(d + 1);
        let ghost before = spans@;
        assert(next == seen.push(definitions@[d as int]));
        if start < end && end <= source.len() && is_utf8_boundary(source, start)
            && is_utf8_boundary(source, end) {
            let span = DefinitionSpan { definition: d, start, end };
            let mut at: usize = spans.len();
            while at > 0 && (start < spans[at - 1].start || (start == spans[at - 1].start && end
                > spans[at - 1].end))
                invariant
                    at <= spans.len(),
                    span.start == start,
                    span.end == end,
                    forall|k: int| at <= k < spans.len() ==> listed_before(span, #[trigger] spans[k]),
                decreases at,
            {
                at -= 1;
            }
            if at > 0 && spans[at - 1].start == start && spans[at - 1].end == end {
                proof {
                    assert(same_bounds(definitions@[d as int], spans@[at - 1]));
                    lemma_spans_grow(source@, seen, definitions@[d as int], before);
                }
            } else {
                spans.insert(at, span);
                proof {
                    lemma_span_inserted(source@, seen, definitions@[d as int], before, at as int, span);
                }
            }
        } else {
            proof {
                lemma_spans_grow(source@, seen, definitions@[d as int], before);
            }
        }
        d += 1;
    }
    assert(definitions@.take(d as int) == definitions@);
    spans
}

proof fn lemma_spans_grow(
    source: Seq<u8>,
    seen: Seq<Definition>,
    definition: Definition,
    spans: Seq<DefinitionSpan>,
)
    requires
        spans_of(source, seen, spans),
        usable(source, definition) ==> has_span(spans, definition),
    ensures
        spans_of(source, seen.push(definition), spans),
{
    let more = seen.push(definition);
    assert forall|i: int| 0 <= i < spans.len() implies stands_for(
        source,
        more,
        #[trigger] spans[i],
    ) by {
        assert(stands_for(source, seen, spans[i]));
        assert forall|d: int| 0 <= d < spans[i].definition implies !same_bounds(
            #[trigger] more[d],
            spans[i],
        ) by {
            assert(more[d] == seen[d]);
        }
    }
    assert forall|d: int| 0 <= d < more.len() && usable(source, more[d]) implies #[trigger] has_span(
        spans,
        more[d],
    ) by {
        if d < seen.len() {
            assert(has_span(spans, seen[d]));
        }
    }
}

/// Inserting a span at its place keeps the list in order.
proof fn lemma_insert_listed(spans: Seq<DefinitionSpan>, at: int, span: DefinitionSpan)
    requires
        0 <= at <= spans.len(),
        forall|i: int, j: int|
            0 <= i < j < spans.len() ==> listed_before(#[trigger] spans[i], #[trigger] spans[j]),
        forall|k: int| at <= k < spans.len() ==> listed_before(span, #[trigger] spans[k]),
        at > 0 ==> listed_before(spans[at - 1], span),
    ensures
        forall|i: int, j: int|
            0 <= i < j < spans.len() + 1 ==> listed_before(
                #[trigger] spans.insert(at, span)[i],
                #[trigger] spans.insert(at, span)[j],
            ),
        forall|k: int| 0 <= k < at ==> listed_before(#[trigger] spans[k], span),
{
    let grown = spans.insert(at, span);
    assert forall|k: int| 0 <= k < at implies listed_before(#[trigger] spans[k], span) by {
        if k < at - 1 {
            assert(listed_before(spans[k], spans[at - 1]));
        }
    }
    assert forall|i: int, j: int| 0 <= i < j < spans.len() + 1 implies listed_before(
        #[trigger] grown[i],
        #[trigger] grown[j],
    ) by {
        let a = if i < at { i } else { i - 1 };
        let b = if j < at { j } else { j - 1 };
        if i != at && j != at {
            assert(listed_before(spans[a], spans[b]));
        }
    }
}

proof fn lemma_span_inserted(
    source: Seq<u8>,
    seen: Seq<Definition>,
    definition: Definition,
    spans: Seq<DefinitionSpan>,
    at: int,
    span: DefinitionSpan,
)
    requires
        spans_of(source, seen, spans),
        0 <= at <= spans.len(),
        usable(source, definition),
        same_bounds(definition, span),
        span.definition == seen.len(),
        forall|k: int| at <= k < spans.len() ==> listed_before(span, #[trigger] spans[k]),
        at > 0 ==> !listed_before(span, spans[at - 1]) && !same_bounds(definition, spans[at - 1]),
    ensures
        spans_of(source, seen.push(definition), spans.insert(at, span)),
{
    let more = seen.push(definition);
    let grown = spans.insert(at, span);
    lemma_insert_listed(spans, at, span);
    assert forall|d: int| 0 <= d < seen.len() implies !same_bounds(#[trigger] more[d], span) by {
        if same_bounds(more[d], span) {
            assert(more[d] == seen[d]);
            assert(has_span(spans, seen[d]));
            let i = choose|i: int| 0 <= i < spans.len() && same_bounds(seen[d], #[trigger] spans[i]);
            assert(spans[i].start == span.start && spans[i].end == span.end);
            assert(!listed_before(spans[i], span) && !listed_before(span, spans[i]));
        }
    }
    assert forall|i: int| 0 <= i < grown.len() implies stands_for(
        source,
        more,
        #[trigger] grown[i],
    ) by {
        if i != at {
            let k = if i < at { i } else { i - 1 };
            assert(grown[i] == spans[k]);
            assert(stands_for(source, seen, spans[k]));
            assert forall|d: int| 0 <= d < spans[k].definition implies !same_bounds(
                #[trigger] more[d],
                spans[k],
            ) by {
                assert(more[d] == seen[d]);
            }
        }
    }
    assert forall|d: int| 0 <= d < more.len() && usable(source, more[d]) implies #[trigger] has_span(
        grown,
        more[d],
    ) by {
        if d < seen.len() {
            assert(has_span(spans, seen[d]));
            let k = choose|k: int| 0 <= k < spans.len() && same_bounds(seen[d], #[trigger] spans[k]);
            let i = if k < at { k } else { k + 1 };
            assert(grown[i] == spans[k]);
            assert(same_bounds(more[d], grown[i]));
        } else {
            assert(same_bounds(more[d], grown[at]));
        }
    }
}

/// What holds of the open spans while the tree is built: they are the kept spans that
/// reach past the last start, each inside the one below it.
spec fn stack_holds(
    spans: Seq<DefinitionSpan>,
    kept: Seq<int>,
    stack: Seq<usize>,
    floor: int,
) -> bool {
    &&& forall|a: int| 0 <= a < stack.len() ==> kept.contains(#[trigger] stack[a] as int)
    &&& forall|a: int, b: int|
        0 <= a < b < stack.len() ==> #[trigger] stack[a] < #[trigger] stack[b]
            && spans[stack[a] as int].end >= spans[stack[b] as int].end
    &&& forall|k: int|
        0 <= k < kept.len() && spans[#[trigger] kept[k]].end > floor ==> stack.contains(
            kept[k] as usize,
        )
}

proof fn lemma_tree_indices(spans: Seq<DefinitionSpan>, n: nat)
    ensures
        forall|k: int|
            0 <= k < tree_indices(spans, n).len() ==> 0 <= #[trigger] tree_indices(spans, n)[k] < n,
    decreases n,
{
    if n > 0 {
        lemma_tree_indices(spans, (n - 1) as nat);
        let kept = tree_indices(spans, (n - 1) as nat);
        assert forall|k: int| 0 <= k < tree_indices(spans, n).len() implies 0
            <= #[trigger] tree_indices(spans, n)[k] < n by {
            if k < kept.len() {
                assert(tree_indices(spans, n)[k] == kept[k]);
            }
        }
    }
}

/// The spans to keep in one piece: the outermost nodes of the declaration tree that fit
/// in a region, by rising start.
pub fn preferred_spans(spans: &[DefinitionSpan]) -> (preferred: Vec<DefinitionSpan>)
    requires
        forall|i: int, j: int|
            0 <= i < j < spans.len() ==> listed_before(#[trigger] spans@[i], #[trigger] spans@[j]),
        forall|i: int| 0 <= i < spans.len() ==> (#[trigger] spans@[i]).start < spans@[i].end,
    ensures
        preferred@ == whole_spans(spans@, spans@.len()),
{
    let mut preferred: Vec<DefinitionSpan> = Vec::new();
    let mut stack: Vec<usize> = Vec::new();
    let mut i: usize = 0;
    while i < spans.len()
        invariant
            i <= spans.len(),
            forall|i: int, j: int|
                0 <= i < j < spans.len() ==> listed_before(#[trigger] spans@[i], #[trigger] spans@[j]),
            forall|i: int| 0 <= i < spans.len() ==> (#[trigger] spans@[i]).start < spans@[i].end,
            preferred@ == whole_spans(spans@, i as nat),
            stack_holds(
                spans@,
                tree_indices(spans@, i as nat),
                stack@,
                if i == 0 { 0int } else { spans@[i - 1].start as int },
            ),
        decreases spans.len() - i,
    {
        let ghost kept = tree_indices(spans@, i as nat);
        let start: usize = spans[i].start;
        let end: usize = spans[i].end;
        proof {
            lemma_tree_indices(spans@, i as nat);
            if i > 0 {
                assert(listed_before(spans@[i - 1], spans@[i as int]));
            }
        }
        assert(stack_holds(spans@, kept, stack@, start as int));
        while stack.len() > 0 && start >= spans[stack[stack.len() - 1]].end
            invariant
                i < spans.len(),
                start == spans@[i as int].start,
                stack_holds(spans@, kept, stack@, start as int),
                forall|k: int| 0 <= k < kept.len() ==> 0 <= #[trigger] kept[k] < i,
            decreases stack.len(),
        {
            let ghost whole = stack@;
            let popped = stack.pop();
            proof {
                assert(whole == stack@.push(whole.last()));
                assert forall|k: int| 0 <= k < kept.len() && spans@[#[trigger] kept[k]].end > start
                    implies stack@.contains(kept[k] as usize) by {
                    assert(whole.contains(kept[k] as usize));
                    let a = choose|a: int| 0 <= a < whole.len() && whole[a] == kept[k] as usize;
                    assert(a < stack@.len());
                    assert(stack@[a] == kept[k] as usize);
                }
                assert forall|a: int| 0 <= a < stack@.len() implies kept.contains(
                    #[trigger] stack@[a] as int,
                ) by {
                    assert(stack@[a] == whole[a]);
                }
                assert forall|a: int, b: int| 0 <= a < b < stack@.len() implies #[trigger] stack@[a]
                    < #[trigger] stack@[b] && spans@[stack@[a] as int].end
                    >= spans@[stack@[b] as int].end by {
                    assert(stack@[a] == whole[a] && stack@[b] == whole[b]);
                }
            }
        }
        proof {
            lemma_stack_decides(spans@, kept, stack@, i as int);
        }
        let crosses = stack.len() > 0 && end > spans[stack[stack.len() - 1]].end;
        if !crosses {
            let inside = stack.len() > 0 && spans[stack[stack.len() - 1]].end
                - spans[stack[stack.len() - 1]].start <= REGION_BYTES;
            if end - start <= REGION_BYTES && !inside {
                preferred.push(spans[i]);
            }
            let ghost below = stack@;
            stack.push(i);
            proof {
                let grown = kept.push(i as int);
                assert(tree_indices(spans@, (i + 1) as nat) == grown);
                assert forall|a: int| 0 <= a < stack@.len() implies grown.contains(
                    #[trigger] stack@[a] as int,
                ) by {
                    if a < below.len() {
                        assert(stack@[a] == below[a]);
                        let k = choose|k: int| 0 <= k < kept.len() && kept[k] == below[a] as int;
                        assert(grown[k] == stack@[a]);
                    } else {
                        assert(grown[kept.len() as int] == stack@[a]);
                    }
                }
                assert forall|a: int, b: int| 0 <= a < b < stack@.len() implies #[trigger] stack@[a]
                    < #[trigger] stack@[b] && spans@[stack@[a] as int].end
                    >= spans@[stack@[b] as int].end by {
                    assert(stack@[a] == below[a]);
                    assert(kept.contains(below[a] as int));
                    if b < below.len() {
                        assert(stack@[b] == below[b]);
                    } else {
                        assert(below.len() > 0);
                        let top = below.len() - 1;
                        assert(a == top || below[a] < below[top]);
                    }
                }
                assert forall|k: int|
                    0 <= k < grown.len() && spans@[#[trigger] grown[k]].end > start implies stack@.contains(
                    grown[k] as usize,
                ) by {
                    if k < kept.len() {
                        assert(grown[k] == kept[k]);
                        let a = choose|a: int| 0 <= a < below.len() && below[a] == kept[k] as usize;
                        assert(stack@[a] == grown[k]);
                    } else {
                        assert(stack@[below.len() as int] == i);
                    }
                }
            }
        }
        i += 1;
    }
    preferred
}

/// The topmost open span alone decides whether the next one nests and whether an open
/// span fits in a region.
proof fn lemma_stack_decides(
    spans: Seq<DefinitionSpan>,
    kept: Seq<int>,
    stack: Seq<usize>,
    i: int,
)
    requires
        0 <= i < spans.len(),
        forall|i: int, j: int|
            0 <= i < j < spans.len() ==> listed_before(#[trigger] spans[i], #[trigger] spans[j]),
        forall|k: int| 0 <= k < kept.len() ==> 0 <= #[trigger] kept[k] < i,
        stack_holds(spans, kept, stack, spans[i].start as int),
        stack.len() > 0 ==> spans[stack.last() as int].end > spans[i].start,
        i <= usize::MAX,
    ensures
        nests(spans, kept, i) == !(stack.len() > 0 && spans[i].end > spans[stack.last() as int].end),
        nests(spans, kept, i) ==> (outermost_fit(spans, kept, i) == (fits(spans[i]) && !(stack.len()
            > 0 && fits(spans[stack.last() as int])))),
{
    if stack.len() > 0 {
        let top = stack.len() - 1;
        assert(kept.contains(stack[top] as int));
        let t = choose|t: int| 0 <= t < kept.len() && kept[t] == stack[top] as int;
        assert(spans[kept[t]].end > spans[i].start);
        assert forall|k: int| 0 <= k < kept.len() && spans[#[trigger] kept[k]].end > spans[i].start
            implies spans[kept[k]].end >= spans[stack[top] as int].end && (fits(spans[kept[k]])
            ==> fits(spans[stack[top] as int])) by {
            assert(stack.contains(kept[k] as usize));
            let a = choose|a: int| 0 <= a < stack.len() && stack[a] == kept[k] as usize;
            if a < top {
                assert(stack[a] < stack[top]);
                assert(listed_before(spans[kept[k]], spans[stack[top] as int]));
            }
        }
    } else {
        assert forall|k: int| 0 <= k < kept.len() implies spans[#[trigger] kept[k]].end
            <= spans[i].start by {
            if spans[kept[k]].end > spans[i].start {
                assert(stack.contains(kept[k] as usize));
            }
        }
    }
}

/// Where text without declarations is cut between `start` and `limit`.
pub fn split_boundary(source: &[u8], start: usize, limit: usize) -> (cut: usize)
    requires
        start <= limit <= source.len(),
    ensures
        cut == text_cut(source@, start as int, limit as int),
        start <= cut <= limit,
{
    let mut n: usize = limit;
    while n > start && source[n - 1] != 10
        invariant
            start <= n <= limit <= source.len(),
            after_newline(source@, start as int, limit as int, limit as int) == after_newline(
                source@,
                start as int,
                limit as int,
                n as int,
            ),
        decreases n,
    {
        n -= 1;
    }
    let boundary: usize = if n > start { n } else { limit };
    let mut candidate: usize = boundary;
    while candidate > start && !is_utf8_boundary(source, candidate)
        invariant
            start <= candidate <= boundary <= limit <= source.len(),
            char_floor(source@, start as int, boundary as int) == char_floor(
                source@,
                start as int,
                candidate as int,
            ),
        decreases candidate,
    {
        candidate -= 1;
    }
    candidate
}

/// The nearest declaration that covers `start..end`.
pub fn containing_definition(start: usize, end: usize, spans: &[DefinitionSpan]) -> (owner: Option<
    usize,
>)
    requires
        forall|i: int| 0 <= i < spans.len() ==> (#[trigger] spans@[i]).start <= spans@[i].end,
    ensures
        owned_by(spans@, start as int, end as int, owner),
{
    let mut best: Option<usize> = None;
    let mut i: usize = 0;
    while i < spans.len()
        invariant
            i <= spans.len(),
            forall|i: int| 0 <= i < spans.len() ==> (#[trigger] spans@[i]).start <= spans@[i].end,
            match best {
                None => forall|j: int|
                    0 <= j < i ==> !covers(#[trigger] spans@[j], start as int, end as int),
                Some(b) => {
                    &&& b < i
                    &&& covers(spans@[b as int], start as int, end as int)
                    &&& forall|j: int|
                        0 <= j < i && covers(#[trigger] spans@[j], start as int, end as int)
                            ==> nearer(spans@[b as int], spans@[j])
                },
            },
        decreases spans.len() - i,
    {
        let span = spans[i];
        if span.start <= start && end <= span.end {
            match best {
                None => {
                    best = Some(i);
                },
                Some(b) => {
                    let size: usize = span.end - span.start;
                    let held: usize = spans[b].end - spans[b].start;
                    if size < held || (size == held && span.definition < spans[b].definition) {
                        best = Some(i);
                    }
                },
            }
        }
        i += 1;
    }
    match best {
        None => None,
        Some(b) => Some(spans[b].definition),
    }
}

/// Whole spans do not overlap and come by rising start.
pub proof fn lemma_whole_spans_apart(source: Seq<u8>, spans: Seq<DefinitionSpan>, n: nat)
    requires
        n <= spans.len(),
        forall|i: int, j: int|
            0 <= i < j < spans.len() ==> listed_before(#[trigger] spans[i], #[trigger] spans[j]),
        forall|i: int|
            0 <= i < spans.len() ==> (#[trigger] spans[i]).start < spans[i].end <= source.len(),
    ensures
        forall|a: int, b: int|
            0 <= a < b < whole_spans(spans, n).len() ==> (#[trigger] whole_spans(spans, n)[a]).end
                <= (#[trigger] whole_spans(spans, n)[b]).start,
        forall|a: int|
            0 <= a < whole_spans(spans, n).len() ==> {
                &&& fits(#[trigger] whole_spans(spans, n)[a])
                &&& whole_spans(spans, n)[a].start < whole_spans(spans, n)[a].end <= source.len()
                &&& exists|k: int|
                    0 <= k < tree_indices(spans, n).len() && spans[#[trigger] tree_indices(
                        spans,
                        n,
                    )[k]] == whole_spans(spans, n)[a]
            },
    decreases n,
{
    if n > 0 {
        let m = (n - 1) as nat;
        lemma_whole_spans_apart(source, spans, m);
        lemma_tree_indices(spans, m);
        let before = whole_spans(spans, m);
        let after = whole_spans(spans, n);
        let kept = tree_indices(spans, m);
        let grown = tree_indices(spans, n);
        assert forall|k: int| 0 <= k < kept.len() implies #[trigger] grown[k] == kept[k] by {}
        assert forall|a: int| 0 <= a < after.len() implies {
            &&& fits(#[trigger] after[a])
            &&& after[a].start < after[a].end <= source.len()
            &&& exists|k: int|
                0 <= k < grown.len() && spans[#[trigger] grown[k]] == after[a]
        } by {
            if a < before.len() {
                assert(after[a] == before[a]);
                let k = choose|k: int| 0 <= k < kept.len() && spans[#[trigger] kept[k]] == before[a];
                assert(spans[grown[k]] == after[a]);
            } else {
                assert(spans[grown[kept.len() as int]] == after[a]);
            }
        }
        assert forall|a: int, b: int| 0 <= a < b < after.len() implies (#[trigger] after[a]).end
            <= (#[trigger] after[b]).start by {
            assert(after[a] == before[a]);
            if b < before.len() {
                assert(after[b] == before[b]);
            } else {
                assert(fits(before[a]));
                let k = choose|k: int| 0 <= k < kept.len() && spans[#[trigger] kept[k]] == before[a];
                assert(spans[kept[k]].end > spans[n - 1].start ==> !fits(spans[kept[k]]));
            }
        }
    }
}

/// Whole spans that lie apart from each other, by rising start, each within a region's
/// size and within the source.
pub open spec fn apart(source: Seq<u8>, whole: Seq<DefinitionSpan>) -> bool {
    &&& forall|a: int, b: int|
        0 <= a < b < whole.len() ==> (#[trigger] whole[a]).end <= (#[trigger] whole[b]).start
    &&& forall|a: int|
        0 <= a < whole.len() ==> fits(#[trigger] whole[a]) && whole[a].start < whole[a].end
            <= source.len()
}

/// Whether exactly the spans from `first` start at or after `cursor`.
pub open spec fn first_from(whole: Seq<DefinitionSpan>, cursor: int, first: int) -> bool {
    &&& 0 <= first <= whole.len()
    &&& forall|k: int| 0 <= k < first ==> (#[trigger] whole[k]).start < cursor
    &&& forall|k: int| first <= k < whole.len() ==> (#[trigger] whole[k]).start >= cursor
}

/// Where the region from `cursor` ends, and the first whole span behind it.
fn close_region(
    source: &[u8],
    whole: &[DefinitionSpan],
    cursor: usize,
    first: usize,
) -> (closed: (usize, usize))
    requires
        cursor < source.len(),
        apart(source@, whole@),
        first_from(whole@, cursor as int, first as int),
    ensures
        cursor < closed.0 <= source.len(),
        region_ends(source@, whole@, cursor as int, closed.0 as int),
        first_from(whole@, closed.0 as int, closed.1 as int),
{
    let limit: usize = if source.len() - cursor >= REGION_BYTES {
        cursor + REGION_BYTES
    } else {
        source.len()
    };
    let mut end: usize = cursor;
    let mut next: usize = first;
    while next < whole.len() && whole[next].end <= limit
        invariant
            first <= next <= whole.len(),
            cursor <= end <= limit,
            apart(source@, whole@),
            first_from(whole@, cursor as int, first as int),
            forall|k: int| first <= k < next ==> (#[trigger] whole@[k]).end <= limit,
            end == if next > first {
                whole@[next - 1].end as int
            } else {
                cursor as int
            },
        decreases whole.len() - next,
    {
        end = whole[next].end;
        next += 1;
    }
    let cut: usize = if next < whole.len() && whole[next].start < limit {
        whole[next].start
    } else {
        split_boundary(source, end, limit)
    };
    let close: usize = if cut <= cursor {
        limit
    } else {
        cut
    };
    proof {
        assert(packs(source@, whole@, cursor as int, first as int, next as int));
        assert(close == packed_end(source@, whole@, cursor as int, first as int, next as int));
        assert forall|k: int| next <= k < whole@.len() implies (#[trigger] whole@[k]).start
            >= close by {
            assert(fits(whole@[next as int]));
            if k > next {
                assert(whole@[next as int].end <= whole@[k].start);
            }
        }
        assert forall|k: int| 0 <= k < next implies (#[trigger] whole@[k]).start < close by {
            if first <= k < next - 1 {
                assert(whole@[k].end <= whole@[next - 1].start);
            }
        }
    }
    (close, next)
}

/// The regions of `source`: contiguous pieces of at most [`REGION_BYTES`] bytes that
/// keep declarations whole where they fit.
pub fn partition_source(source: &[u8], definitions: &[Definition]) -> (regions: Vec<RegionSpan>)
    ensures
        partitions(source@, definitions@, regions@),
{
    let spans = valid_definition_spans(source, definitions);
    proof {
        assert forall|i: int| 0 <= i < spans@.len() implies (#[trigger] spans@[i]).start
            < spans@[i].end <= source.len() by {
            assert(stands_for(source@, definitions@, spans@[i]));
        }
    }
    let preferred = preferred_spans(spans.as_slice());
    proof {
        lemma_whole_spans_apart(source@, spans@, spans@.len());
    }
    assert(apart(source@, preferred@));
    let mut regions: Vec<RegionSpan> = Vec::new();
    let mut cursor: usize = 0;
    let mut first: usize = 0;
    while cursor < source.len()
        invariant
            cursor <= source.len(),
            cursor == region_start(regions@, regions@.len() as int),
            preferred@ == whole_spans(spans@, spans@.len()),
            apart(source@, preferred@),
            first_from(preferred@, cursor as int, first as int),
            forall|i: int| 0 <= i < spans@.len() ==> (#[trigger] spans@[i]).start <= spans@[i].end,
            regions_cut(source@, spans@, regions@),
        decreases source.len() - cursor,
    {
        let (close, next) = close_region(source, preferred.as_slice(), cursor, first);
        let definition = containing_definition(cursor, close, spans.as_slice());
        let region = RegionSpan { start: cursor, end: close, definition };
        proof {
            lemma_region_added(source@, spans@, regions@, region);
        }
        regions.push(region);
        first = next;
        cursor = close;
    }
    regions
}

proof fn lemma_region_added(
    source: Seq<u8>,
    spans: Seq<DefinitionSpan>,
    regions: Seq<RegionSpan>,
    region: RegionSpan,
)
    requires
        regions_cut(source, spans, regions),
        region.start == region_start(regions, regions.len() as int),
        region.start < source.len(),
        region_ends(
            source,
            whole_spans(spans, spans.len()),
            region.start as int,
            region.end as int,
        ),
        owned_by(spans, region.start as int, region.end as int, region.definition),
    ensures
        regions_cut(source, spans, regions.push(region)),
{
    let more = regions.push(region);
    assert forall|i: int| 0 <= i < more.len() implies #[trigger] region_at(
        source,
        spans,
        more,
        i,
    ) by {
        assert(region_start(more, i) == region_start(regions, i));
        if i < regions.len() {
            assert(region_at(source, spans, regions, i));
        }
    }
}

/// The character before place `i`; before the first one a space counts.
pub open spec fn char_before(text: Seq<char>, i: int) -> char {
    if i == 0 {
        ' '
    } else {
        text[i - 1]
    }
}

/// Whether a word begins inside an identifier at place `i`: an uppercase letter behind a
/// lowercase letter or an ASCII digit, or the last of several uppercase letters that
/// runs into lowercase ones.
pub open spec fn word_begins(text: Seq<char>, i: int) -> bool {
    let previous = char_before(text, i);
    &&& unicode::uppercase(text[i])
    &&& {
        ||| unicode::lowercase(previous)
        ||| '0' <= previous <= '9'
        ||| unicode::uppercase(previous) && i + 1 < text.len() && unicode::lowercase(text[i + 1])
    }
}

/// What place `i` of a text contributes to its expansion: a space for what is no letter
/// or number, else the lowercase letter, behind a space where a word begins.
pub open spec fn expansion_at(text: Seq<char>, i: int) -> Seq<char> {
    if text[i] == '_' || !unicode::alphanumeric(text[i]) {
        seq![' ']
    } else if word_begins(text, i) {
        seq![' '] + unicode::lowered(text[i])
    } else {
        unicode::lowered(text[i])
    }
}

/// The expansion of the first `n` characters of a text.
pub open spec fn expansion(text: Seq<char>, n: int) -> Seq<char>
    decreases n,
{
    if n <= 0 {
        Seq::empty()
    } else {
        expansion(text, n - 1) + expansion_at(text, n - 1)
    }
}

/// The words of `source` in lowercase, with compound identifiers taken apart.
pub fn expand_identifiers(source: &str) -> (expanded: String)
    ensures
        expanded@ == expansion(source@, source@.len() as int),
{
    let chars = text::chars_of(source);
    let mut expanded: Vec<char> = Vec::new();
    let mut previous: char = ' ';
    let mut i: usize = 0;
    while i < chars.len()
        invariant
            i <= chars.len(),
            chars@ == source@,
            previous == char_before(source@, i as int),
            expanded@ == expansion(source@, i as int),
        decreases chars.len() - i,
    {
        let current: char = chars[i];
        if current == '_' || !current.is_alphanumeric() {
            expanded.push(' ');
        } else {
            if current.is_uppercase() && (previous.is_lowercase() || ('0' <= previous && previous
                <= '9') || (previous.is_uppercase() && i + 1 < chars.len()
                && chars[i + 1].is_lowercase())) {
                expanded.push(' ');
            }
            let mut lowered = unicode::to_lowercase(current);
            expanded.append(&mut lowered);
        }
        assert(expanded@ =~= expansion(source@, i as int) + expansion_at(source@, i as int));
        previous = current;
        i += 1;
    }
    text::text_of(expanded.as_slice())
}

/// What is stored and searched for one region.
#[derive(Clone, Debug)]
pub struct RegionRow {
    pub start: usize,
    pub end: usize,
    pub name: String,
    pub kind: String,
    pub body: String,
    pub expanded: String,
}

/// The name under which a region is found: that of the declaration that owns it, or the
/// path of the file.
pub open spec fn region_name(
    path: Seq<char>,
    definitions: Seq<Definition>,
    region: RegionSpan,
) -> Seq<char> {
    match region.definition {
        Some(d) => definitions[d as int].name@,
        None => path,
    }
}

/// The kind of a region: that of the declaration that owns it, or `file`.
pub open spec fn region_kind(definitions: Seq<Definition>, region: RegionSpan) -> Seq<char> {
    match region.definition {
        Some(d) => definitions[d as int].kind@,
        None => "file"@,
    }
}

/// Whether a row describes a region of the file at `path`.
pub open spec fn describes(
    path: Seq<char>,
    source: Seq<u8>,
    definitions: Seq<Definition>,
    region: RegionSpan,
    row: RegionRow,
) -> bool {
    let name = region_name(path, definitions, region);
    let body = unicode::lossy(source.subrange(region.start as int, region.end as int));
    let words = name + " "@ + body;
    &&& row.start == region.start
    &&& row.end == region.end
    &&& row.name@ == name
    &&& row.kind@ == region_kind(definitions, region)
    &&& row.body@ == body
    &&& row.expanded@ == expansion(words, words.len() as int)
}

/// Whether rows describe the regions of the file at `path`, one for each in order.
pub open spec fn rows_describe(
    path: Seq<char>,
    source: Seq<u8>,
    definitions: Seq<Definition>,
    rows: Seq<RegionRow>,
) -> bool {
    exists|regions: Seq<RegionSpan>|
        {
            &&& #[trigger] partitions(source, definitions, regions)
            &&& rows.len() == regions.len()
            &&& forall|i: int|
                0 <= i < rows.len() ==> describes(
                    path,
                    source,
                    definitions,
                    regions[i],
                    #[trigger] rows[i],
                )
        }
}

/// The rows to store for the file at `path`, one for each of its regions in order.
pub fn region_rows(path: &str, source: &[u8], definitions: &[Definition]) -> (rows: Vec<RegionRow>)
    ensures
        rows_describe(path@, source@, definitions@, rows@),
{
    let regions = partition_source(source, definitions);
    proof {
        crate::store::region_laws::law_regions_tile_the_source(source@, definitions@, regions@);
        crate::store::region_laws::lemma_regions_in_source(source@, definitions@, regions@);
    }
    let mut rows: Vec<RegionRow> = Vec::new();
    let mut i: usize = 0;
    while i < regions.len()
        invariant
            i <= regions.len(),
            rows.len() == i,
            forall|k: int|
                0 <= k < regions.len() ==> (#[trigger] regions@[k]).start <= regions@[k].end
                    <= source.len(),
            forall|k: int|
                0 <= k < regions.len() ==> ((#[trigger] regions@[k]).definition matches Some(d)
                    ==> d < definitions.len()),
            forall|k: int|
                0 <= k < i ==> describes(
                    path@,
                    source@,
                    definitions@,
                    regions@[k],
                    #[trigger] rows@[k],
                ),
        decreases regions.len() - i,
    {
        let region = regions[i];
        let (name, kind) = match region.definition {
            Some(d) => (definitions[d].name.clone(), definitions[d].kind.clone()),
            None => (path.to_owned(), "file".to_owned()),
        };
        let body = unicode::lossy_text(&source[region.start..region.end]);
        let mut words = name.clone();
        words.append(" ");
        words.append(body.as_str());
        let expanded = expand_identifiers(words.as_str());
        rows.push(RegionRow { start: region.start, end: region.end, name, kind, body, expanded });
        i += 1;
    }
    rows
}

} // verus!
