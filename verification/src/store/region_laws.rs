//! What holds of the regions of every source.

use crate::store::expansion_laws;
use crate::store::regions;
use crate::store::regions::{Definition, DefinitionSpan, RegionRow, RegionSpan, REGION_BYTES};
use vstd::prelude::*;
use vstd::utf8;

verus! {

proof fn lemma_text_cut(source: Seq<u8>, start: int, limit: int)
    requires
        0 <= start <= limit <= source.len(),
    ensures
        start <= regions::text_cut(source, start, limit) <= limit,
        regions::text_cut(source, start, limit) == start || regions::char_start(
            source,
            regions::text_cut(source, start, limit),
        ),
{
    lemma_after_newline(source, start, limit, limit);
    lemma_char_floor(source, start, regions::after_newline(source, start, limit, limit));
}

proof fn lemma_after_newline(source: Seq<u8>, start: int, limit: int, n: int)
    requires
        0 <= start <= n <= limit <= source.len(),
    ensures
        start <= regions::after_newline(source, start, limit, n) <= limit,
        start < limit ==> start < regions::after_newline(source, start, limit, n),
        regions::after_newline(source, start, limit, n) == limit || source[regions::after_newline(
            source,
            start,
            limit,
            n,
        ) - 1] == 10,
    decreases n - start,
{
    if n > start && source[n - 1] != 10 {
        lemma_after_newline(source, start, limit, n - 1);
    }
}

proof fn lemma_char_floor(source: Seq<u8>, start: int, n: int)
    requires
        0 <= start <= n <= source.len(),
    ensures
        start <= regions::char_floor(source, start, n) <= n,
        regions::char_floor(source, start, n) == start || regions::char_start(source, regions::char_floor(source, start, n)),
        forall|k: int|
            regions::char_floor(source, start, n) < k <= n ==> !#[trigger] regions::char_start(source, k),
    decreases n - start,
{
    if n > start && !regions::char_start(source, n) {
        lemma_char_floor(source, start, n - 1);
    }
}

proof fn lemma_region_end_bounds(
    source: Seq<u8>,
    whole: Seq<DefinitionSpan>,
    cursor: int,
    end: int,
)
    requires
        0 <= cursor < source.len(),
        regions::region_ends(source, whole, cursor, end),
    ensures
        cursor < end <= regions::region_limit(source, cursor),
{
    let (first, next) = choose|first: int, next: int|
        #[trigger] regions::packs(source, whole, cursor, first, next) && end == regions::packed_end(
            source,
            whole,
            cursor,
            first,
            next,
        );
    let limit = regions::region_limit(source, cursor);
    if next > first {
        assert(whole[next - 1].start >= cursor);
        assert(whole[next - 1].end <= limit);
        if 0 <= whole[next - 1].end <= limit {
            lemma_text_cut(source, whole[next - 1].end as int, limit);
        }
    } else {
        lemma_text_cut(source, cursor, limit);
    }
}

/// The regions of a source cover it from its first byte to its last without a gap or an
/// overlap; none is empty and none is larger than [`REGION_BYTES`]. An empty source has
/// no region.
pub proof fn law_regions_tile_the_source(
    source: Seq<u8>,
    definitions: Seq<Definition>,
    regions: Seq<RegionSpan>,
)
    requires
        regions::partitions(source, definitions, regions),
    ensures
        regions.len() == 0 <==> source.len() == 0,
        regions.len() > 0 ==> regions[0].start == 0 && regions.last().end == source.len(),
        forall|i: int|
            0 <= i < regions.len() ==> (#[trigger] regions[i]).start < regions[i].end
                <= regions[i].start + REGION_BYTES,
        forall|i: int, j: int|
            0 <= i < regions.len() && j == i + 1 && j < regions.len() ==> (
            #[trigger] regions[i]).end == (#[trigger] regions[j]).start,
{
    let spans = choose|spans: Seq<DefinitionSpan>|
        {
            &&& #[trigger] regions::spans_of(source, definitions, spans)
            &&& regions::regions_cut(source, spans, regions)
            &&& regions::region_start(regions, regions.len() as int) == source.len()
        };
    if regions.len() > 0 {
        assert(regions::region_at(source, spans, regions, 0));
    }
    assert forall|i: int| 0 <= i < regions.len() implies (#[trigger] regions[i]).start
        < regions[i].end <= regions[i].start + REGION_BYTES by {
        assert(regions::region_at(source, spans, regions, i));
        lemma_region_end_bounds(
            source,
            regions::whole_spans(spans, spans.len()),
            regions[i].start as int,
            regions[i].end as int,
        );
    }
    assert forall|i: int, j: int|
        0 <= i < regions.len() && j == i + 1 && j < regions.len() implies (
    #[trigger] regions[i]).end == (#[trigger] regions[j]).start by {
        assert(regions::region_at(source, spans, regions, j));
    }
}

/// Regions lie in the source, and their owners are declarations of it.
pub proof fn lemma_regions_in_source(
    source: Seq<u8>,
    definitions: Seq<Definition>,
    regions: Seq<RegionSpan>,
)
    requires
        regions::partitions(source, definitions, regions),
    ensures
        forall|i: int|
            0 <= i < regions.len() ==> (#[trigger] regions[i]).start <= regions[i].end
                <= source.len(),
        forall|i: int|
            0 <= i < regions.len() ==> ((#[trigger] regions[i]).definition matches Some(d) ==> d
                < definitions.len()),
{
    let spans = choose|spans: Seq<DefinitionSpan>|
        {
            &&& #[trigger] regions::spans_of(source, definitions, spans)
            &&& regions::regions_cut(source, spans, regions)
            &&& regions::region_start(regions, regions.len() as int) == source.len()
        };
    assert forall|i: int| 0 <= i < regions.len() implies (#[trigger] regions[i]).start
        <= regions[i].end <= source.len() by {
        assert(regions::region_at(source, spans, regions, i));
        lemma_region_end_bounds(
            source,
            regions::whole_spans(spans, spans.len()),
            regions[i].start as int,
            regions[i].end as int,
        );
    }
    assert forall|i: int| 0 <= i < regions.len() implies ((
    #[trigger] regions[i]).definition matches Some(d) ==> d < definitions.len()) by {
        assert(regions::region_at(source, spans, regions, i));
        if let Some(d) = regions[i].definition {
            let k = choose|k: int|
                0 <= k < spans.len() && #[trigger] spans[k].definition == d;
            assert(regions::stands_for(source, definitions, spans[k]));
        }
    }
}

/// In valid UTF-8 the next character begins within four bytes.
proof fn lemma_next_char(source: Seq<u8>, at: int)
    requires
        utf8::valid_utf8(source),
        0 <= at < source.len(),
        regions::char_start(source, at),
    ensures
        exists|k: int| at < k <= at + 4 && k <= source.len() && #[trigger] regions::char_start(source, k),
{
    if at > 0 {
        utf8::is_char_boundary_iff_not_is_continuation_byte(source, at);
    }
    let rest = source.subrange(at, source.len() as int);
    utf8::valid_utf8_split(source, at);
    assert(rest.len() > 0);
    let width = utf8::length_of_first_scalar(rest);
    assert(0 < width <= 4 && width <= rest.len());
    let k = at + width;
    if k < source.len() {
        assert(utf8::is_char_boundary(rest, width)) by {
            reveal_with_fuel(utf8::is_char_boundary, 2);
        }
        utf8::is_char_boundary_iff_not_is_continuation_byte(rest, width);
        assert(rest[width] == source[k]);
    }
    assert(regions::char_start(source, k));
}

/// A region that starts at a character of valid text ends at one too.
proof fn lemma_region_end_on_char(
    source: Seq<u8>,
    whole: Seq<DefinitionSpan>,
    cursor: int,
    end: int,
)
    requires
        utf8::valid_utf8(source),
        0 <= cursor < source.len(),
        regions::char_start(source, cursor),
        regions::region_ends(source, whole, cursor, end),
        forall|k: int|
            0 <= k < whole.len() ==> regions::char_start(source, (#[trigger] whole[k]).start as int)
                && regions::char_start(source, whole[k].end as int) && regions::fits(whole[k]) && whole[k].start
                < whole[k].end <= source.len(),
    ensures
        regions::char_start(source, end),
{
    let (first, next) = choose|first: int, next: int|
        #[trigger] regions::packs(source, whole, cursor, first, next) && end == regions::packed_end(
            source,
            whole,
            cursor,
            first,
            next,
        );
    let limit = regions::region_limit(source, cursor);
    let packed = if next > first {
        whole[next - 1].end as int
    } else {
        cursor
    };
    if next < whole.len() && whole[next].start < limit {
        assert(regions::char_start(source, whole[next].start as int));
        assert(whole[next].start >= cursor);
    }
    assert(0 <= packed <= limit && regions::char_start(source, packed)) by {
        if next > first {
            assert(whole[next - 1].end <= limit);
        }
    }
    lemma_text_cut(source, packed, limit);
    let cut = regions::text_cut(source, packed, limit);
    if next < whole.len() && whole[next].start < limit {
        assert(regions::fits(whole[next]));
        assert(whole[next].start > cursor);
    } else if cut <= cursor {
        // No character begins between the start of the region and its text cut, which
        // four bytes of valid text rule out.
        assert(packed == cursor && cut == cursor);
        lemma_next_char(source, cursor);
        let k = choose|k: int|
            cursor < k <= cursor + 4 && k <= source.len() && #[trigger] regions::char_start(source, k);
        lemma_after_newline(source, packed, limit, limit);
        let brk = regions::after_newline(source, packed, limit, limit);
        lemma_char_floor(source, packed, brk);
        assert(cursor < brk);
        if brk < limit {
            lemma_after_ascii(source, brk - 1);
            assert(false);
        }
        assert(k <= brk);
        assert(false);
    }
}

/// A character begins behind each ASCII byte of valid text.
proof fn lemma_after_ascii(source: Seq<u8>, at: int)
    requires
        utf8::valid_utf8(source),
        0 <= at < source.len(),
        source[at] < 0x80,
    ensures
        regions::char_start(source, at + 1),
{
    utf8::is_char_boundary_iff_not_is_continuation_byte(source, at);
    let rest = source.subrange(at, source.len() as int);
    utf8::valid_utf8_split(source, at);
    assert(rest[0] == source[at]);
    assert(utf8::length_of_first_scalar(rest) == 1);
    if at + 1 < source.len() {
        assert(utf8::is_char_boundary(rest, 1)) by {
            reveal_with_fuel(utf8::is_char_boundary, 2);
        }
        utf8::is_char_boundary_iff_not_is_continuation_byte(rest, 1);
        assert(rest[1] == source[at + 1]);
    }
}

/// Every whole span is one of the spans.
proof fn lemma_whole_spans_listed(spans: Seq<DefinitionSpan>, n: nat)
    requires
        n <= spans.len(),
    ensures
        forall|a: int|
            0 <= a < regions::whole_spans(spans, n).len() ==> regions::fits(#[trigger] regions::whole_spans(spans, n)[a])
                && spans.contains(regions::whole_spans(spans, n)[a]),
    decreases n,
{
    if n > 0 {
        lemma_whole_spans_listed(spans, (n - 1) as nat);
        let before = regions::whole_spans(spans, (n - 1) as nat);
        assert forall|a: int| 0 <= a < regions::whole_spans(spans, n).len() implies regions::fits(
            #[trigger] regions::whole_spans(spans, n)[a],
        ) && spans.contains(regions::whole_spans(spans, n)[a]) by {
            if a < before.len() {
                assert(regions::whole_spans(spans, n)[a] == before[a]);
            } else {
                assert(spans[n - 1] == regions::whole_spans(spans, n)[a]);
            }
        }
    }
}

/// Text is never cut inside a character: when the source is valid UTF-8, every region
/// starts and ends on a character boundary.
pub proof fn law_regions_keep_characters_whole(
    source: Seq<u8>,
    definitions: Seq<Definition>,
    regions: Seq<RegionSpan>,
)
    requires
        regions::partitions(source, definitions, regions),
        utf8::valid_utf8(source),
    ensures
        forall|i: int|
            0 <= i < regions.len() ==> utf8::is_char_boundary(
                source,
                (#[trigger] regions[i]).start as int,
            ) && utf8::is_char_boundary(source, regions[i].end as int),
{
    let spans = choose|spans: Seq<DefinitionSpan>|
        {
            &&& #[trigger] regions::spans_of(source, definitions, spans)
            &&& regions::regions_cut(source, spans, regions)
            &&& regions::region_start(regions, regions.len() as int) == source.len()
        };
    let whole = regions::whole_spans(spans, spans.len());
    lemma_whole_spans_listed(spans, spans.len());
    assert forall|k: int| 0 <= k < whole.len() implies regions::char_start(
        source,
        (#[trigger] whole[k]).start as int,
    ) && regions::char_start(source, whole[k].end as int) && regions::fits(whole[k]) && whole[k].start
        < whole[k].end <= source.len() by {
        let i = choose|i: int| 0 <= i < spans.len() && spans[i] == whole[k];
        assert(regions::stands_for(source, definitions, spans[i]));
    }
    law_regions_tile_the_source(source, definitions, regions);
    assert forall|i: int| 0 <= i < regions.len() implies utf8::is_char_boundary(
        source,
        (#[trigger] regions[i]).start as int,
    ) && utf8::is_char_boundary(source, regions[i].end as int) by {
        lemma_region_on_chars(source, spans, regions, i);
        assert(regions::region_at(source, spans, regions, i));
        lemma_boundary(source, regions[i].start as int);
        lemma_region_end_bounds(source, whole, regions[i].start as int, regions[i].end as int);
        lemma_boundary(source, regions[i].end as int);
    }
}

proof fn lemma_boundary(source: Seq<u8>, at: int)
    requires
        utf8::valid_utf8(source),
        0 <= at <= source.len(),
        regions::char_start(source, at),
    ensures
        utf8::is_char_boundary(source, at),
{
    utf8::is_char_boundary_start_end_of_seq(source);
    if 0 < at < source.len() {
        utf8::is_char_boundary_iff_not_is_continuation_byte(source, at);
    }
}

proof fn lemma_region_on_chars(
    source: Seq<u8>,
    spans: Seq<DefinitionSpan>,
    regions: Seq<RegionSpan>,
    i: int,
)
    requires
        utf8::valid_utf8(source),
        regions::regions_cut(source, spans, regions),
        0 <= i < regions.len(),
        forall|k: int|
            0 <= k < regions::whole_spans(spans, spans.len()).len() ==> regions::char_start(
                source,
                (#[trigger] regions::whole_spans(spans, spans.len())[k]).start as int,
            ) && regions::char_start(source, regions::whole_spans(spans, spans.len())[k].end as int) && regions::fits(
                regions::whole_spans(spans, spans.len())[k],
            ) && regions::whole_spans(spans, spans.len())[k].start < regions::whole_spans(
                spans,
                spans.len(),
            )[k].end <= source.len(),
    ensures
        regions::char_start(source, regions[i].start as int),
        regions::char_start(source, regions[i].end as int),
    decreases i,
{
    assert(regions::region_at(source, spans, regions, i));
    if i > 0 {
        lemma_region_on_chars(source, spans, regions, i - 1);
    }
    lemma_region_end_on_char(
        source,
        regions::whole_spans(spans, spans.len()),
        regions[i].start as int,
        regions[i].end as int,
    );
}

/// A declaration that is kept in one piece is never cut: the region that holds its first
/// byte holds all of it.
pub proof fn law_whole_spans_are_not_cut(
    source: Seq<u8>,
    definitions: Seq<Definition>,
    spans: Seq<DefinitionSpan>,
    regions: Seq<RegionSpan>,
    a: int,
    i: int,
)
    requires
        regions::spans_of(source, definitions, spans),
        regions::regions_cut(source, spans, regions),
        0 <= a < regions::whole_spans(spans, spans.len()).len(),
        0 <= i < regions.len(),
        regions[i].start <= regions::whole_spans(spans, spans.len())[a].start < regions[i].end,
    ensures
        regions::whole_spans(spans, spans.len())[a].end <= regions[i].end,
{
    let whole = regions::whole_spans(spans, spans.len());
    assert(regions::region_at(source, spans, regions, i));
    let cursor = regions[i].start as int;
    let end = regions[i].end as int;
    assert forall|i: int| 0 <= i < spans.len() implies (#[trigger] spans[i]).start < spans[i].end
        <= source.len() by {
        assert(regions::stands_for(source, definitions, spans[i]));
    }
    regions::lemma_whole_spans_apart(source, spans, spans.len());
    let (first, next) = choose|first: int, next: int|
        #[trigger] regions::packs(source, whole, cursor, first, next) && end == regions::packed_end(
            source,
            whole,
            cursor,
            first,
            next,
        );
    let limit = regions::region_limit(source, cursor);
    assert(regions::fits(whole[a]));
    assert(first <= a);
    if next > first {
        assert(whole[next - 1].end <= limit);
        lemma_text_cut(source, whole[next - 1].end as int, limit);
    } else {
        lemma_text_cut(source, cursor, limit);
    }
    if next < whole.len() {
        assert(regions::fits(whole[next]));
    }
    if a < next {
        if a < next - 1 {
            assert(whole[a].end <= whole[next - 1].start);
        }
        if next < whole.len() {
            assert(whole[next - 1].end <= whole[next].start);
        }
    } else if a > next {
        assert(whole[next].end <= whole[a].start);
    }
}

/// The spans of a source are determined by it and its declarations.
proof fn lemma_spans_determined(
    source: Seq<u8>,
    definitions: Seq<Definition>,
    a: Seq<DefinitionSpan>,
    b: Seq<DefinitionSpan>,
    n: int,
)
    requires
        regions::spans_of(source, definitions, a),
        regions::spans_of(source, definitions, b),
        0 <= n <= a.len(),
    ensures
        n <= b.len(),
        a.take(n) == b.take(n),
    decreases n,
{
    if n > 0 {
        let m = n - 1;
        lemma_spans_determined(source, definitions, a, b, m);
        assert forall|k: int| 0 <= k < m implies #[trigger] a[k] == b[k] by {
            assert(a.take(m)[k] == b.take(m)[k]);
        }
        assert(regions::stands_for(source, definitions, a[m]));
        assert(regions::has_span(b, definitions[a[m].definition as int]));
        let k = choose|k: int|
            0 <= k < b.len() && regions::same_bounds(definitions[a[m].definition as int], #[trigger] b[k]);
        if k < m {
            assert(a[k] == b[k]);
            assert(regions::listed_before(a[k], a[m]));
        }
        assert(regions::stands_for(source, definitions, b[m]));
        assert(regions::has_span(a, definitions[b[m].definition as int]));
        let j = choose|j: int|
            0 <= j < a.len() && regions::same_bounds(definitions[b[m].definition as int], #[trigger] a[j]);
        if j < m {
            assert(a[j] == b[j]);
            assert(regions::listed_before(b[j], b[m]));
        }
        if k > m {
            assert(regions::listed_before(b[m], b[k]));
            if j > m {
                assert(regions::listed_before(a[m], a[j]));
            }
        }
        assert(a[m].start == b[m].start && a[m].end == b[m].end);
        assert(a[m].definition == b[m].definition) by {
            let x = a[m].definition as int;
            let y = b[m].definition as int;
            assert(regions::same_bounds(definitions[x], b[m]));
            assert(regions::same_bounds(definitions[y], a[m]));
        }
        assert(a.take(n) =~= b.take(n));
    }
}

proof fn lemma_region_end_determined(
    source: Seq<u8>,
    whole: Seq<DefinitionSpan>,
    cursor: int,
    x: int,
    y: int,
)
    requires
        regions::region_ends(source, whole, cursor, x),
        regions::region_ends(source, whole, cursor, y),
    ensures
        x == y,
{
    let (f1, n1) = choose|first: int, next: int|
        #[trigger] regions::packs(source, whole, cursor, first, next) && x == regions::packed_end(
            source,
            whole,
            cursor,
            first,
            next,
        );
    let (f2, n2) = choose|first: int, next: int|
        #[trigger] regions::packs(source, whole, cursor, first, next) && y == regions::packed_end(
            source,
            whole,
            cursor,
            first,
            next,
        );
    if f1 < f2 {
        assert(whole[f1].start < cursor);
    } else if f2 < f1 {
        assert(whole[f2].start < cursor);
    }
    if n1 < n2 {
        assert(whole[n1].end <= regions::region_limit(source, cursor));
    } else if n2 < n1 {
        assert(whole[n2].end <= regions::region_limit(source, cursor));
    }
}

proof fn lemma_owner_determined(
    spans: Seq<DefinitionSpan>,
    start: int,
    end: int,
    x: Option<usize>,
    y: Option<usize>,
)
    requires
        regions::owned_by(spans, start, end, x),
        regions::owned_by(spans, start, end, y),
    ensures
        x == y,
{
}

/// The regions of a source are determined by it and its declarations: what
/// [`partitions`](crate::store::regions::partitions) says admits one list of regions.
pub proof fn law_partition_is_determined(
    source: Seq<u8>,
    definitions: Seq<Definition>,
    a: Seq<RegionSpan>,
    b: Seq<RegionSpan>,
)
    requires
        regions::partitions(source, definitions, a),
        regions::partitions(source, definitions, b),
    ensures
        a == b,
{
    let sa = choose|spans: Seq<DefinitionSpan>|
        {
            &&& #[trigger] regions::spans_of(source, definitions, spans)
            &&& regions::regions_cut(source, spans, a)
            &&& regions::region_start(a, a.len() as int) == source.len()
        };
    let sb = choose|spans: Seq<DefinitionSpan>|
        {
            &&& #[trigger] regions::spans_of(source, definitions, spans)
            &&& regions::regions_cut(source, spans, b)
            &&& regions::region_start(b, b.len() as int) == source.len()
        };
    lemma_spans_determined(source, definitions, sa, sb, sa.len() as int);
    lemma_spans_determined(source, definitions, sb, sa, sb.len() as int);
    assert(sa.take(sa.len() as int) == sa);
    assert(sb.take(sb.len() as int) == sb);
    assert(sa == sb);
    lemma_regions_agree(source, sa, a, b, a.len() as int);
    lemma_regions_agree(source, sa, b, a, b.len() as int);
    assert(a.take(a.len() as int) == a);
    assert(b.take(b.len() as int) == b);
}

proof fn lemma_regions_agree(
    source: Seq<u8>,
    spans: Seq<DefinitionSpan>,
    a: Seq<RegionSpan>,
    b: Seq<RegionSpan>,
    n: int,
)
    requires
        regions::regions_cut(source, spans, a),
        regions::regions_cut(source, spans, b),
        regions::region_start(b, b.len() as int) == source.len(),
        0 <= n <= a.len(),
    ensures
        n <= b.len(),
        a.take(n) == b.take(n),
    decreases n,
{
    if n > 0 {
        let m = n - 1;
        lemma_regions_agree(source, spans, a, b, m);
        assert(regions::region_start(a, m) == regions::region_start(b, m)) by {
            if m > 0 {
                assert(a.take(m)[m - 1] == b.take(m)[m - 1]);
            }
        }
        assert(regions::region_at(source, spans, a, m));
        assert(regions::region_at(source, spans, b, m));
        lemma_region_end_determined(
            source,
            regions::whole_spans(spans, spans.len()),
            a[m].start as int,
            a[m].end as int,
            b[m].end as int,
        );
        lemma_owner_determined(
            spans,
            a[m].start as int,
            a[m].end as int,
            a[m].definition,
            b[m].definition,
        );
        assert forall|k: int| 0 <= k < n implies #[trigger] a[k] == b[k] by {
            if k < m {
                assert(a.take(m)[k] == b.take(m)[k]);
            }
        }
        assert(a.take(n) =~= b.take(n));
    }
}

/// Whether no character of a source continues across a place: it is an end of the source, or the
/// byte there does not continue a character.
pub open spec fn between_characters(source: Seq<u8>, at: int) -> bool {
    at == 0 || at == source.len() || source[at] < 0x80 || source[at] > 0xbf
}

/// Whether a declaration is some text of a source.
pub open spec fn declares_text(source: Seq<u8>, definition: Definition) -> bool {
    &&& definition.start < definition.end <= source.len()
    &&& between_characters(source, definition.start as int)
    &&& between_characters(source, definition.end as int)
}

/// Whether a declaration begins before another one and ends inside of it.
pub open spec fn runs_into(earlier: Definition, later: Definition) -> bool {
    earlier.start < later.start < earlier.end < later.end
}

/// Whether a declaration is some text of a source that no earlier declaration runs into.
pub open spec fn stands_apart(source: Seq<u8>, definitions: Seq<Definition>, d: int) -> bool {
    &&& 0 <= d < definitions.len()
    &&& declares_text(source, definitions[d])
    &&& forall|e: int|
        0 <= e < definitions.len() && declares_text(source, #[trigger] definitions[e])
            ==> !runs_into(definitions[e], definitions[d])
}

/// The place of a kept span among the spans that are kept.
proof fn lemma_kept_later(spans: Seq<DefinitionSpan>, m: nat, n: nat, i: int)
    requires
        m <= n,
        regions::tree_indices(spans, m).contains(i),
    ensures
        regions::tree_indices(spans, n).contains(i),
    decreases n - m,
{
    if m < n {
        let kept = regions::tree_indices(spans, m);
        let k = choose|k: int| 0 <= k < kept.len() && kept[k] == i;
        assert(regions::tree_indices(spans, m + 1)[k] == i);
        lemma_kept_later(spans, m + 1, n, i);
    }
}

proof fn lemma_whole_later(spans: Seq<DefinitionSpan>, m: nat, n: nat, span: DefinitionSpan)
    requires
        m <= n,
        regions::whole_spans(spans, m).contains(span),
    ensures
        regions::whole_spans(spans, n).contains(span),
    decreases n - m,
{
    if m < n {
        let whole = regions::whole_spans(spans, m);
        let k = choose|k: int| 0 <= k < whole.len() && whole[k] == span;
        assert(regions::whole_spans(spans, m + 1)[k] == span);
        lemma_whole_later(spans, m + 1, n, span);
    }
}

proof fn lemma_kept_in_range(spans: Seq<DefinitionSpan>, n: nat)
    ensures
        forall|k: int|
            0 <= k < regions::tree_indices(spans, n).len() ==> 0
                <= #[trigger] regions::tree_indices(spans, n)[k] < n && regions::nests(
                spans,
                regions::tree_indices(spans, regions::tree_indices(spans, n)[k] as nat),
                regions::tree_indices(spans, n)[k],
            ),
    decreases n,
{
    if n > 0 {
        lemma_kept_in_range(spans, (n - 1) as nat);
        let kept = regions::tree_indices(spans, (n - 1) as nat);
        let grown = regions::tree_indices(spans, n);
        assert forall|k: int| 0 <= k < grown.len() implies 0 <= #[trigger] grown[k] < n
            && regions::nests(spans, regions::tree_indices(spans, grown[k] as nat), grown[k]) by {
            if k < kept.len() {
                assert(grown[k] == kept[k]);
            }
        }
    }
}

/// A small span that is in the tree lies inside of a span that is kept in one piece.
proof fn lemma_small_spans_are_kept(spans: Seq<DefinitionSpan>, i: int) -> (outer: DefinitionSpan)
    requires
        0 <= i < spans.len(),
        forall|a: int, b: int|
            0 <= a < b < spans.len() ==> regions::listed_before(
                #[trigger] spans[a],
                #[trigger] spans[b],
            ),
        regions::nests(spans, regions::tree_indices(spans, i as nat), i),
        spans[i].end - spans[i].start <= 4096,
    ensures
        regions::whole_spans(spans, spans.len()).contains(outer),
        outer.start <= spans[i].start,
        spans[i].end <= outer.end,
    decreases i,
{
    let kept = regions::tree_indices(spans, i as nat);
    lemma_kept_in_range(spans, i as nat);
    if regions::outermost_fit(spans, kept, i) {
        let whole = regions::whole_spans(spans, (i + 1) as nat);
        assert(whole.last() == spans[i]);
        assert(whole[whole.len() - 1] == spans[i]);
        lemma_whole_later(spans, (i + 1) as nat, spans.len(), spans[i]);
        spans[i]
    } else {
        let k = choose|k: int|
            0 <= k < kept.len() && spans[#[trigger] kept[k]].end > spans[i].start && regions::fits(
                spans[kept[k]],
            );
        let j = kept[k];
        assert(regions::listed_before(spans[j], spans[i]));
        lemma_small_spans_are_kept(spans, j)
    }
}

/// The region that holds a byte.
proof fn lemma_region_around(
    source: Seq<u8>,
    definitions: Seq<Definition>,
    regions: Seq<RegionSpan>,
    at: int,
    n: int,
) -> (r: int)
    requires
        regions::partitions(source, definitions, regions),
        0 <= n <= regions.len(),
        0 <= at < regions::region_start(regions, n),
    ensures
        0 <= r < n,
        regions[r].start <= at < regions[r].end,
    decreases n,
{
    law_regions_tile_the_source(source, definitions, regions);
    let r = n - 1;
    if regions[r].start <= at {
        r
    } else {
        if r > 0 {
            assert(regions[r - 1].end == regions[r].start);
        }
        lemma_region_around(source, definitions, regions, at, r)
    }
}

/// A declaration of at most 4096 bytes is never cut, unless an earlier declaration runs into
/// it: it lies inside of one region.
pub proof fn law_small_declarations_are_not_cut(
    source: Seq<u8>,
    definitions: Seq<Definition>,
    regions: Seq<RegionSpan>,
    d: int,
)
    requires
        regions::partitions(source, definitions, regions),
        stands_apart(source, definitions, d),
        definitions[d].end - definitions[d].start <= 4096,
    ensures
        exists|r: int|
            0 <= r < regions.len() && (#[trigger] regions[r]).start <= definitions[d].start
                && definitions[d].end <= regions[r].end,
{
    let spans = choose|spans: Seq<DefinitionSpan>|
        {
            &&& #[trigger] regions::spans_of(source, definitions, spans)
            &&& regions::regions_cut(source, spans, regions)
            &&& regions::region_start(regions, regions.len() as int) == source.len()
        };
    assert(regions::has_span(spans, definitions[d]));
    let i = choose|i: int|
        0 <= i < spans.len() && regions::same_bounds(definitions[d], #[trigger] spans[i]);
    let kept = regions::tree_indices(spans, i as nat);
    lemma_kept_in_range(spans, i as nat);
    assert forall|k: int| 0 <= k < kept.len() && spans[#[trigger] kept[k]].end > spans[i].start
        implies spans[kept[k]].end >= spans[i].end by {
        let j = kept[k];
        assert(regions::stands_for(source, definitions, spans[j]));
        assert(regions::listed_before(spans[j], spans[i]));
        let e = spans[j].definition as int;
        assert(declares_text(source, definitions[e]));
        assert(!runs_into(definitions[e], definitions[d]));
    }
    assert(regions::nests(spans, kept, i));
    let outer = lemma_small_spans_are_kept(spans, i);
    let whole = regions::whole_spans(spans, spans.len());
    let a = choose|a: int| 0 <= a < whole.len() && whole[a] == outer;
    assert forall|k: int| 0 <= k < spans.len() implies (#[trigger] spans[k]).start < spans[k].end
        <= source.len() by {
        assert(regions::stands_for(source, definitions, spans[k]));
    }
    regions::lemma_whole_spans_apart(source, spans, spans.len());
    assert(whole[a].start < whole[a].end <= source.len());
    let r = lemma_region_around(
        source,
        definitions,
        regions,
        outer.start as int,
        regions.len() as int,
    );
    law_whole_spans_are_not_cut(source, definitions, spans, regions, a, r);
}

/// A region belongs to the smallest declaration around it, and of several of one size to the
/// first; it belongs to none only where none is around it.
pub proof fn law_regions_belong_to_the_smallest_declaration(
    source: Seq<u8>,
    definitions: Seq<Definition>,
    regions: Seq<RegionSpan>,
    r: int,
    e: int,
)
    requires
        regions::partitions(source, definitions, regions),
        0 <= r < regions.len(),
        0 <= e < definitions.len(),
        declares_text(source, definitions[e]),
        definitions[e].start <= regions[r].start,
        regions[r].end <= definitions[e].end,
    ensures
        regions[r].definition matches Some(d) && {
            let size = definitions[d as int].end - definitions[d as int].start;
            &&& d < definitions.len()
            &&& definitions[d as int].start <= regions[r].start
            &&& regions[r].end <= definitions[d as int].end
            &&& size < definitions[e].end - definitions[e].start || (size == definitions[e].end
                - definitions[e].start && d <= e)
        },
{
    let spans = choose|spans: Seq<DefinitionSpan>|
        {
            &&& #[trigger] regions::spans_of(source, definitions, spans)
            &&& regions::regions_cut(source, spans, regions)
            &&& regions::region_start(regions, regions.len() as int) == source.len()
        };
    assert(regions::region_at(source, spans, regions, r));
    assert(regions::has_span(spans, definitions[e]));
    let k = choose|k: int|
        0 <= k < spans.len() && regions::same_bounds(definitions[e], #[trigger] spans[k]);
    let (start, end) = (regions[r].start as int, regions[r].end as int);
    assert(regions::covers(spans[k], start, end));
    assert(regions::stands_for(source, definitions, spans[k]));
    assert(spans[k].definition <= e);
    let d = regions[r].definition->0;
    let i = choose|i: int|
        {
            &&& 0 <= i < spans.len()
            &&& regions::covers(#[trigger] spans[i], start, end)
            &&& spans[i].definition == d
            &&& forall|j: int|
                0 <= j < spans.len() && regions::covers(#[trigger] spans[j], start, end)
                    ==> regions::nearer(spans[i], spans[j])
        };
    assert(regions::stands_for(source, definitions, spans[i]));
    assert(regions::nearer(spans[i], spans[k]));
}

/// A declaration that a region belongs to is around it, and is some text of the source.
pub proof fn law_owners_are_around_their_regions(
    source: Seq<u8>,
    definitions: Seq<Definition>,
    regions: Seq<RegionSpan>,
    r: int,
)
    requires
        regions::partitions(source, definitions, regions),
        0 <= r < regions.len(),
        regions[r].definition is Some,
    ensures
        ({
            let d = regions[r].definition->0;
            &&& d < definitions.len()
            &&& declares_text(source, definitions[d as int])
            &&& definitions[d as int].start <= regions[r].start
            &&& regions[r].end <= definitions[d as int].end
        }),
{
    let spans = choose|spans: Seq<DefinitionSpan>|
        {
            &&& #[trigger] regions::spans_of(source, definitions, spans)
            &&& regions::regions_cut(source, spans, regions)
            &&& regions::region_start(regions, regions.len() as int) == source.len()
        };
    assert(regions::region_at(source, spans, regions, r));
    let d = regions[r].definition->0;
    let i = choose|i: int|
        {
            &&& 0 <= i < spans.len()
            &&& regions::covers(#[trigger] spans[i], regions[r].start as int, regions[r].end as int)
            &&& spans[i].definition == d
        };
    assert(regions::stands_for(source, definitions, spans[i]));
}

/// How far a region that starts at a place can reach: 4096 bytes, or to the end of the source.
pub open spec fn reach(source: Seq<u8>, start: int) -> int {
    if start + 4096 <= source.len() {
        start + 4096
    } else {
        source.len() as int
    }
}

/// Whether a piece of a source has no newline.
pub open spec fn one_line(source: Seq<u8>, from: int, to: int) -> bool {
    forall|i: int| from <= i < to ==> #[trigger] source[i] != 10
}

/// Whether a region may begin to be filled with text at a place: at its start, or behind a
/// declaration in it.
pub open spec fn text_begins(
    source: Seq<u8>,
    definitions: Seq<Definition>,
    start: int,
    at: int,
) -> bool {
    at == start || exists|d: int|
        {
            &&& 0 <= d < definitions.len()
            &&& declares_text(source, #[trigger] definitions[d])
            &&& start <= definitions[d].start
            &&& definitions[d].end == at
        }
}

/// Whether a region ends before a small declaration that does not fit into it any more.
pub open spec fn makes_room(
    source: Seq<u8>,
    definitions: Seq<Definition>,
    start: int,
    end: int,
) -> bool {
    exists|d: int|
        {
            &&& 0 <= d < definitions.len()
            &&& declares_text(source, #[trigger] definitions[d])
            &&& definitions[d].end - definitions[d].start <= 4096
            &&& definitions[d].start == end
            &&& definitions[d].end > start + 4096
        }
}

/// Whether a region is filled as far as it can reach: up to the last newline behind the place
/// `at`, and without one up to the last character.
pub open spec fn fills_up(source: Seq<u8>, start: int, at: int, end: int) -> bool {
    let limit = reach(source, start);
    &&& start <= at <= end <= limit
    &&& one_line(source, end, limit)
    &&& (at < end && source[end - 1] == 10) || (limit - end < 4 && one_line(source, at, limit))
}

proof fn lemma_last_newline(source: Seq<u8>, start: int, limit: int, n: int)
    requires
        0 <= start <= n <= limit <= source.len(),
        one_line(source, n, limit),
    ensures
        ({
            let cut = regions::after_newline(source, start, limit, n);
            ||| start < cut <= n && source[cut - 1] == 10 && one_line(source, cut, limit)
            ||| cut == limit && one_line(source, start, limit)
        }),
    decreases n - start,
{
    if n > start && source[n - 1] != 10 {
        lemma_last_newline(source, start, limit, n - 1);
    }
}

/// A region of valid text ends before a small declaration that does not fit into it any more, or
/// is filled as far as it can reach, counted from its start or from a declaration in it.
pub proof fn law_regions_are_filled(
    source: Seq<u8>,
    definitions: Seq<Definition>,
    regions: Seq<RegionSpan>,
    r: int,
)
    requires
        regions::partitions(source, definitions, regions),
        utf8::valid_utf8(source),
        0 <= r < regions.len(),
    ensures
        makes_room(source, definitions, regions[r].start as int, regions[r].end as int) || exists|
            at: int,
        |
            #[trigger] text_begins(source, definitions, regions[r].start as int, at) && fills_up(
                source,
                regions[r].start as int,
                at,
                regions[r].end as int,
            ),
{
    let spans = choose|spans: Seq<DefinitionSpan>|
        {
            &&& #[trigger] regions::spans_of(source, definitions, spans)
            &&& regions::regions_cut(source, spans, regions)
            &&& regions::region_start(regions, regions.len() as int) == source.len()
        };
    let whole = regions::whole_spans(spans, spans.len());
    lemma_whole_spans_listed(spans, spans.len());
    assert forall|k: int| 0 <= k < whole.len() implies {
        let d = (#[trigger] whole[k]).definition as int;
        &&& 0 <= d < definitions.len()
        &&& declares_text(source, definitions[d])
        &&& regions::same_bounds(definitions[d], whole[k])
        &&& whole[k].end - whole[k].start <= 4096
    } by {
        let i = choose|i: int| 0 <= i < spans.len() && spans[i] == whole[k];
        assert(regions::stands_for(source, definitions, spans[i]));
    }
    law_regions_keep_characters_whole(source, definitions, regions);
    law_regions_tile_the_source(source, definitions, regions);
    assert(regions::region_at(source, spans, regions, r));
    let cursor = regions[r].start as int;
    let end = regions[r].end as int;
    let (first, next) = choose|first: int, next: int|
        #[trigger] regions::packs(source, whole, cursor, first, next) && end == regions::packed_end(
            source,
            whole,
            cursor,
            first,
            next,
        );
    let limit = regions::region_limit(source, cursor);
    assert(limit == reach(source, cursor));
    let packed = if next > first {
        whole[next - 1].end as int
    } else {
        cursor
    };
    if next > first {
        assert(whole[next - 1].start >= cursor);
        assert(whole[next - 1].end <= limit);
        let d = whole[next - 1].definition as int;
        assert(declares_text(source, definitions[d]));
    }
    assert(text_begins(source, definitions, cursor, packed));
    if next < whole.len() && whole[next].start < limit {
        assert(whole[next].end > limit);
        let d = whole[next].definition as int;
        assert(declares_text(source, definitions[d]));
        assert(whole[next].start > cursor);
        assert(makes_room(source, definitions, cursor, end));
    } else {
        lemma_last_newline(source, packed, limit, limit);
        let cut = regions::after_newline(source, packed, limit, limit);
        lemma_char_floor(source, packed, cut);
        let floor = regions::char_floor(source, packed, cut);
        assert(regions::char_start(source, packed)) by {
            if packed == cursor {
                if 0 < cursor < source.len() {
                    utf8::is_char_boundary_iff_not_is_continuation_byte(source, cursor);
                }
            } else {
                let d = whole[next - 1].definition as int;
                assert(between_characters(source, definitions[d].end as int));
            }
        }
        if packed < cut && source[cut - 1] == 10 {
            lemma_after_ascii(source, cut - 1);
            assert(floor == cut);
            assert(end == cut);
            assert(fills_up(source, cursor, packed, end));
        } else {
            assert(one_line(source, packed, limit));
            assert(cut == limit);
            if floor < source.len() {
                lemma_next_char(source, floor);
                let k = choose|k: int|
                    floor < k <= floor + 4 && k <= source.len() && #[trigger] regions::char_start(
                        source,
                        k,
                    );
                assert(k > limit || limit == floor);
            }
            assert(limit - floor < 4);
            assert(fills_up(source, cursor, packed, end));
        }
    }
}

/// The rows of a file cover it from its first byte to its last, without a gap or an overlap, each
/// with the text of its bytes.
pub proof fn law_rows_hold_the_source(
    path: Seq<char>,
    source: Seq<u8>,
    definitions: Seq<Definition>,
    rows: Seq<RegionRow>,
)
    requires
        regions::rows_describe(path, source, definitions, rows),
    ensures
        rows.len() == 0 <==> source.len() == 0,
        rows.len() > 0 ==> rows[0].start == 0 && rows.last().end == source.len(),
        forall|i: int|
            0 <= i < rows.len() ==> (#[trigger] rows[i]).start < rows[i].end <= rows[i].start + 4096
                && rows[i].end <= source.len(),
        forall|i: int, j: int|
            0 <= i < rows.len() && j == i + 1 && j < rows.len() ==> (#[trigger] rows[i]).end == (
            #[trigger] rows[j]).start,
        forall|i: int|
            0 <= i < rows.len() && utf8::valid_utf8(source) ==> (#[trigger] rows[i]).body@
                == utf8::decode_utf8(source.subrange(rows[i].start as int, rows[i].end as int)),
{
    let spans = choose|spans: Seq<RegionSpan>|
        {
            &&& #[trigger] regions::partitions(source, definitions, spans)
            &&& rows.len() == spans.len()
            &&& forall|i: int|
                0 <= i < rows.len() ==> regions::describes(
                    path,
                    source,
                    definitions,
                    spans[i],
                    #[trigger] rows[i],
                )
        };
    law_regions_tile_the_source(source, definitions, spans);
    lemma_regions_in_source(source, definitions, spans);
    assert forall|i: int| 0 <= i < rows.len() implies (#[trigger] rows[i]).start == spans[i].start
        && rows[i].end == spans[i].end by {
        assert(regions::describes(path, source, definitions, spans[i], rows[i]));
    }
    assert forall|i: int, j: int|
        0 <= i < rows.len() && j == i + 1 && j < rows.len() implies (#[trigger] rows[i]).end == (
    #[trigger] rows[j]).start by {
        assert(spans[i].end == spans[j].start);
    }
    assert forall|i: int| 0 <= i < rows.len() && utf8::valid_utf8(source) implies (
    #[trigger] rows[i]).body@ == utf8::decode_utf8(
        source.subrange(rows[i].start as int, rows[i].end as int),
    ) by {
        law_regions_keep_characters_whole(source, definitions, spans);
        let (start, end) = (spans[i].start as int, spans[i].end as int);
        assert(utf8::is_char_boundary(source, start) && utf8::is_char_boundary(source, end));
        lemma_valid_piece(source, start, end);
    }
}

/// A piece of valid text between two characters is valid text.
proof fn lemma_valid_piece(source: Seq<u8>, start: int, end: int)
    requires
        utf8::valid_utf8(source),
        0 <= start <= end <= source.len(),
        utf8::is_char_boundary(source, start),
        utf8::is_char_boundary(source, end),
    ensures
        utf8::valid_utf8(source.subrange(start, end)),
{
    utf8::valid_utf8_split(source, start);
    let rest = source.subrange(start, source.len() as int);
    if end < source.len() {
        utf8::is_char_boundary_iff_not_is_continuation_byte(source, end);
        if end > start {
            assert(rest[end - start] == source[end]);
            utf8::is_char_boundary_iff_not_is_continuation_byte(rest, end - start);
        } else {
            utf8::is_char_boundary_start_end_of_seq(rest);
        }
    } else {
        utf8::is_char_boundary_start_end_of_seq(rest);
    }
    utf8::valid_utf8_split(rest, end - start);
    assert(rest.subrange(0, end - start) =~= source.subrange(start, end));
}

/// A row has the name and the kind of the smallest declaration around it, and of several of one
/// size those of the first; without one it has the path of the file, and the kind `file`. It is
/// found by the words of its name and by those of its text.
pub proof fn law_rows_are_named_by_their_declarations(
    path: Seq<char>,
    source: Seq<u8>,
    definitions: Seq<Definition>,
    rows: Seq<RegionRow>,
    r: int,
)
    requires
        regions::rows_describe(path, source, definitions, rows),
        0 <= r < rows.len(),
    ensures
        (exists|e: int|
            0 <= e < definitions.len() && declares_text(source, #[trigger] definitions[e])
                && definitions[e].start <= rows[r].start && rows[r].end <= definitions[e].end)
            ==> exists|d: int|
            {
                &&& 0 <= d < definitions.len()
                &&& (#[trigger] definitions[d]).start <= rows[r].start
                &&& rows[r].end <= definitions[d].end
                &&& rows[r].name@ == definitions[d].name@
                &&& rows[r].kind@ == definitions[d].kind@
                &&& forall|e: int|
                    {
                        &&& 0 <= e < definitions.len()
                        &&& declares_text(source, #[trigger] definitions[e])
                        &&& definitions[e].start <= rows[r].start
                        &&& rows[r].end <= definitions[e].end
                    } ==> {
                        let size = definitions[d].end - definitions[d].start;
                        let other = definitions[e].end - definitions[e].start;
                        size < other || (size == other && d <= e)
                    }
            },
        !(exists|e: int|
            0 <= e < definitions.len() && declares_text(source, #[trigger] definitions[e])
                && definitions[e].start <= rows[r].start && rows[r].end <= definitions[e].end)
            ==> rows[r].name@ == path && rows[r].kind@ == "file"@,
        rows[r].expanded@ == expansion_laws::expanded(rows[r].name@) + seq![' ']
            + expansion_laws::expanded(rows[r].body@),
{
    let spans = choose|spans: Seq<RegionSpan>|
        {
            &&& #[trigger] regions::partitions(source, definitions, spans)
            &&& rows.len() == spans.len()
            &&& forall|i: int|
                0 <= i < rows.len() ==> regions::describes(
                    path,
                    source,
                    definitions,
                    spans[i],
                    #[trigger] rows[i],
                )
        };
    assert(regions::describes(path, source, definitions, spans[r], rows[r]));
    reveal_strlit(" ");
    assert(" "@ =~= seq![' ']);
    expansion_laws::law_separators_part_words(rows[r].name@, ' ', rows[r].body@);
    if spans[r].definition is Some {
        law_owners_are_around_their_regions(source, definitions, spans, r);
        let d = spans[r].definition->0 as int;
        assert(declares_text(source, definitions[d]));
        assert forall|e: int|
            {
                &&& 0 <= e < definitions.len()
                &&& declares_text(source, #[trigger] definitions[e])
                &&& definitions[e].start <= rows[r].start
                &&& rows[r].end <= definitions[e].end
            } implies {
            let size = definitions[d].end - definitions[d].start;
            let other = definitions[e].end - definitions[e].start;
            size < other || (size == other && d <= e)
        } by {
            law_regions_belong_to_the_smallest_declaration(source, definitions, spans, r, e);
        }
    } else {
        assert forall|e: int|
            0 <= e < definitions.len() && declares_text(
                source,
                #[trigger] definitions[e],
            ) implies !(definitions[e].start <= rows[r].start && rows[r].end
            <= definitions[e].end) by {
            if definitions[e].start <= rows[r].start && rows[r].end <= definitions[e].end {
                law_regions_belong_to_the_smallest_declaration(source, definitions, spans, r, e);
            }
        }
    }
}

} // verus!
