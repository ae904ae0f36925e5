//! How much of a source is shown at once.

use crate::source;
use crate::source::acquisition::AcquiredSource;
use crate::source::lines::Row;
use crate::text;
use crate::text::Failure;
use vstd::prelude::*;
use vstd::string::StringExecFns;

verus! {

/// No more lines are shown at once.
pub const MAX_ROWS: usize = 200;

/// The lines of some bytes, each with its line feed.
pub open spec fn split_lines(bytes: Seq<u8>) -> Seq<Seq<u8>>
    decreases bytes.len(),
{
    if bytes.len() == 0 {
        Seq::empty()
    } else {
        let before = split_lines(bytes.drop_last());
        if before.len() == 0 || before.last().last() == 10 {
            before.push(seq![bytes.last()])
        } else {
            before.drop_last().push(before.last().push(bytes.last()))
        }
    }
}

/// The length of the first lines.
pub open spec fn lengths(lines: Seq<Seq<u8>>, n: int) -> int
    decreases n,
{
    if n <= 0 {
        0
    } else {
        lengths(lines, n - 1) + lines[n - 1].len()
    }
}

/// The lines in the span of a source.
pub open spec fn source_lines(source: AcquiredSource) -> Seq<Seq<u8>> {
    split_lines(source.bytes@.subrange(source.span.start as int, source.span.end as int))
}

/// How many lines can be shown at once.
pub open spec fn shown_most(source: AcquiredSource) -> int {
    if source_lines(source).len() < MAX_ROWS {
        source_lines(source).len() as int
    } else {
        MAX_ROWS as int
    }
}

/// Where the first lines of the span end.
pub open spec fn shown_end(source: AcquiredSource, n: int) -> int {
    source.span.start + lengths(source_lines(source), n)
}

/// Whether `row` is a line of a source.
pub open spec fn is_row(source: AcquiredSource, i: int, row: Row) -> bool {
    &&& row.line == source::line_of(source.bytes@, source.span.start as int) + i
    &&& row.start == shown_end(source, i)
    &&& row.end == shown_end(source, i + 1)
    &&& (row.text@, row.encoding@) == source::display_of(source_lines(source)[i])
}

/// Where the reading goes on, as a target.
pub open spec fn cursor(source: AcquiredSource, offset: int) -> Seq<char> {
    "read:"@ + source.handle@ + (match source.side {
        Some(side) => ":"@ + side.name(),
        None => Seq::empty(),
    }) + "@"@ + text::decimal(offset as nat)
}

/// What is shown at once: some lines, and where the reading goes on.
#[derive(Debug)]
pub struct Page {
    pub rows: Vec<Row>,
    pub truncated: bool,
    pub next: Option<String>,
}

/// Whether a page shows the first lines of the span of a source.
pub open spec fn is_page(source: AcquiredSource, n: int, page: Page) -> bool {
    let end = shown_end(source, n);
    &&& page.rows.len() == n
    &&& forall|i: int| 0 <= i < n ==> is_row(source, i, #[trigger] page.rows@[i])
    &&& page.truncated == (end < source.span.end)
    &&& match page.next {
        Some(next) => page.truncated && next@ == cursor(source, end),
        None => !page.truncated,
    }
}

/// Whether the first lines of the span do not fit.
pub open spec fn rejected<F: Fn(&Page) -> bool>(source: AcquiredSource, fits: F, n: int) -> bool {
    exists|page: Page| #[trigger]
        is_page(source, n, page) && call_ensures(fits, (&page,), false)
}

/// Whether every page with more than `n` lines does not fit.
pub open spec fn longer_rejected<F: Fn(&Page) -> bool>(
    source: AcquiredSource,
    fits: F,
    n: int,
) -> bool {
    forall|m: int| n < m <= shown_most(source) ==> #[trigger] rejected(source, fits, m)
}

/// Whether a page may be judged where every longer one does not fit.
pub open spec fn may_judge<F: Fn(&Page) -> bool>(source: AcquiredSource, fits: F) -> bool {
    forall|n: int, page: Page| #[trigger]
        is_page(source, n, page) && 0 <= n <= shown_most(source) && longer_rejected(
            source,
            fits,
            n,
        ) ==> call_requires(fits, (&page,))
}

/// Whether `result` is the page with the most lines that fits. One line must fit, unless the
/// span is empty.
pub open spec fn fitted<F: Fn(&Page) -> bool>(
    source: AcquiredSource,
    fits: F,
    result: Result<Page, Failure>,
) -> bool {
    let empty = source.span.start == source.span.end;
    match result {
        Ok(page) => {
            let n = page.rows.len() as int;
            &&& is_page(source, n, page)
            &&& n <= shown_most(source)
            &&& call_ensures(fits, (&page,), true)
            &&& n > 0 || empty
            &&& forall|m: int| n < m <= shown_most(source) ==> #[trigger] rejected(source, fits, m)
        },
        Err(failure) => {
            &&& text::plain(
                failure,
                "budget_too_small: source line and response envelope do not fit"@,
            )
            &&& forall|m: int|
                0 <= m <= shown_most(source) && (m > 0 || empty) ==> #[trigger] rejected(
                    source,
                    fits,
                    m,
                )
        },
    }
}

/// Whether a response about a source has a key of its own.
pub open spec fn response_key(source: AcquiredSource, key: Seq<char>) -> bool {
    ||| key == "path"@
    ||| key == "revision"@
    ||| key == "verified"@
    ||| key == "start"@
    ||| key == "end"@
    ||| key == "lines"@
    ||| key == "truncated"@
    ||| key == "next"@
    ||| key == "tokenizer"@
    ||| (key == "historical"@ && source.historical is Some)
    ||| (key == "source"@ && !source.verified && source.historical is None)
    ||| ((key == "definitions"@ || key == "also"@) && source.definitions is Some)
}

fn is_response_key(source: &AcquiredSource, key: &str) -> (yes: bool)
    ensures
        yes == response_key(*source, key@),
{
    text::same_text(key, "path") || text::same_text(key, "revision") || text::same_text(
        key,
        "verified",
    ) || text::same_text(key, "start") || text::same_text(key, "end") || text::same_text(
        key,
        "lines",
    ) || text::same_text(key, "truncated") || text::same_text(key, "next") || text::same_text(
        key,
        "tokenizer",
    ) || (text::same_text(key, "historical") && source.historical.is_some()) || (text::same_text(
        key,
        "source",
    ) && !source.verified && source.historical.is_none()) || ((text::same_text(key, "definitions")
        || text::same_text(key, "also")) && source.definitions.is_some())
}

/// Whether one of some keys is among those of the response.
pub open spec fn collides(source: AcquiredSource, keys: Seq<String>) -> bool {
    exists|i: int| 0 <= i < keys.len() && response_key(source, (#[trigger] keys[i])@)
}

/// Why metadata cannot be added to a response: it is no object, or would replace what the
/// response says itself.
pub open spec fn metadata_fault(
    source: AcquiredSource,
    keys: Option<Seq<String>>,
) -> Option<Seq<char>> {
    match keys {
        None => Some("invalid_metadata: source metadata must be an object"@),
        Some(keys) => if collides(source, keys) {
            Some("invalid_metadata: source metadata collides with response identity"@)
        } else {
            None
        },
    }
}

fn check_metadata(source: &AcquiredSource, keys: Option<&Vec<String>>) -> (result: Result<
    (),
    Failure,
>)
    ensures
        match metadata_fault(
            *source,
            match keys {
                Some(keys) => Some(keys@),
                None => None,
            },
        ) {
            Some(fault) => result is Err && text::plain(result->Err_0, fault),
            None => result is Ok,
        },
{
    let list = match keys {
        Some(list) => list,
        None => {
            return Err(Failure::new("invalid_metadata: source metadata must be an object"));
        },
    };
    let mut i: usize = 0;
    while i < list.len()
        invariant
            i <= list.len(),
            keys == Some(list),
            forall|k: int| 0 <= k < i ==> !response_key(*source, (#[trigger] list@[k])@),
        decreases list.len() - i,
    {
        if is_response_key(source, list[i].as_str()) {
            assert(collides(*source, list@)) by {
                assert(response_key(*source, list@[i as int]@));
            }
            return Err(
                Failure::new(
                    "invalid_metadata: source metadata collides with response identity",
                ),
            );
        }
        i += 1;
    }
    Ok(())
}

proof fn lemma_lines(bytes: Seq<u8>)
    ensures
        lengths(split_lines(bytes), split_lines(bytes).len() as int) == bytes.len(),
        forall|i: int| 0 <= i < split_lines(bytes).len() ==> (#[trigger] split_lines(bytes)[i]).len()
            > 0,
        bytes.len() > 0 ==> split_lines(bytes).len() > 0,
    decreases bytes.len(),
{
    if bytes.len() > 0 {
        let before = split_lines(bytes.drop_last());
        let after = split_lines(bytes);
        lemma_lines(bytes.drop_last());
        if before.len() == 0 || before.last().last() == 10 {
            lemma_same_lengths(before, after, before.len() as int);
        } else {
            lemma_same_lengths(before, after, before.len() - 1);
            assert forall|i: int| 0 <= i < after.len() implies (#[trigger] after[i]).len() > 0 by {
                if i < before.len() - 1 {
                    assert(after[i] == before[i]);
                }
            }
        }
    }
}

proof fn lemma_same_lengths(a: Seq<Seq<u8>>, b: Seq<Seq<u8>>, n: int)
    requires
        0 <= n <= a.len(),
        n <= b.len(),
        forall|i: int| 0 <= i < n ==> a[i] == b[i],
    ensures
        lengths(a, n) == lengths(b, n),
    decreases n,
{
    if n > 0 {
        lemma_same_lengths(a, b, n - 1);
    }
}

proof fn lemma_lengths_rise(lines: Seq<Seq<u8>>, m: int, n: int)
    requires
        0 <= m <= n <= lines.len(),
    ensures
        0 <= lengths(lines, m) <= lengths(lines, n),
    decreases n,
{
    if m < n {
        lemma_lengths_rise(lines, m, n - 1);
    } else if m > 0 {
        lemma_lengths_rise(lines, m - 1, n - 1);
    }
}

/// The first lines are made of the first bytes.
proof fn lemma_lines_cover(bytes: Seq<u8>, i: int)
    requires
        0 <= i < split_lines(bytes).len(),
    ensures
        split_lines(bytes)[i] == bytes.subrange(
            lengths(split_lines(bytes), i),
            lengths(split_lines(bytes), i + 1),
        ),
        0 <= lengths(split_lines(bytes), i) <= lengths(split_lines(bytes), i + 1) <= bytes.len(),
    decreases bytes.len(),
{
    let after = split_lines(bytes);
    lemma_lines(bytes);
    lemma_lengths_rise(after, i, i + 1);
    lemma_lengths_rise(after, i + 1, after.len() as int);
    if bytes.len() > 0 {
        let shorter = bytes.drop_last();
        let before = split_lines(shorter);
        lemma_lines(shorter);
        if before.len() == 0 || before.last().last() == 10 {
            if i < before.len() {
                lemma_lines_cover(shorter, i);
                lemma_same_lengths(before, after, i);
                lemma_same_lengths(before, after, i + 1);
                assert(shorter.subrange(lengths(before, i), lengths(before, i + 1))
                    =~= bytes.subrange(lengths(after, i), lengths(after, i + 1)));
            } else {
                lemma_same_lengths(before, after, i);
                assert(lengths(after, i) == shorter.len());
                assert(bytes.subrange(shorter.len() as int, bytes.len() as int) =~= seq![
                    bytes.last(),
                ]);
            }
        } else {
            lemma_lines_cover(shorter, i);
            lemma_same_lengths(before, after, i);
            if i < before.len() - 1 {
                lemma_same_lengths(before, after, i + 1);
                assert(shorter.subrange(lengths(before, i), lengths(before, i + 1))
                    =~= bytes.subrange(lengths(after, i), lengths(after, i + 1)));
            } else {
                assert(lengths(before, i + 1) == shorter.len());
                assert(lengths(after, i + 1) == bytes.len());
                assert(before[i].push(bytes.last()) =~= bytes.subrange(
                    lengths(after, i),
                    lengths(after, i + 1),
                ));
            }
        }
    }
}

/// Where the line that starts at `at` ends.
fn next_line(bytes: &Vec<u8>, at: usize, end: usize) -> (stop: usize)
    requires
        at < end <= bytes.len(),
    ensures
        at < stop <= end,
        stop == end || bytes@[stop - 1] == 10,
        forall|k: int| at <= k < stop - 1 ==> bytes@[k] != 10,
{
    let mut stop: usize = at + 1;
    while stop < end && bytes[stop - 1] != 10
        invariant
            at < stop <= end <= bytes.len(),
            forall|k: int| at <= k < stop - 1 ==> bytes@[k] != 10,
        decreases end - stop,
    {
        stop += 1;
    }
    stop
}

/// Lines up to a line feed, and one more line behind them.
proof fn lemma_split_on(bytes: Seq<u8>, at: int, stop: int)
    requires
        0 <= at < stop <= bytes.len(),
        at == 0 || bytes[at - 1] == 10,
        forall|k: int| at <= k < stop - 1 ==> bytes[k] != 10,
    ensures
        split_lines(bytes.take(stop)) == split_lines(bytes.take(at)).push(
            bytes.subrange(at, stop),
        ),
    decreases stop,
{
    let all = bytes.take(stop);
    assert(all.drop_last() =~= bytes.take(stop - 1));
    if stop == at + 1 {
        lemma_last_byte(bytes.take(at));
        assert(bytes.subrange(at, stop) =~= seq![bytes[at]]);
    } else {
        lemma_split_on(bytes, at, stop - 1);
        let before = split_lines(bytes.take(stop - 1));
        let line = bytes.subrange(at, stop - 1);
        assert(before.last() == line);
        assert(line.last() == bytes[stop - 2]);
        assert(line.push(bytes[stop - 1]) =~= bytes.subrange(at, stop));
        assert(before.drop_last() =~= split_lines(bytes.take(at)));
    }
}

/// The last line ends with the last byte.
proof fn lemma_last_byte(bytes: Seq<u8>)
    ensures
        bytes.len() > 0 ==> split_lines(bytes).len() > 0 && split_lines(bytes).last().len() > 0
            && split_lines(bytes).last().last() == bytes.last(),
        bytes.len() == 0 ==> split_lines(bytes).len() == 0,
{
    lemma_lines(bytes);
}

/// The lines of more bytes begin with the lines up to a line feed.
proof fn lemma_lines_begin(bytes: Seq<u8>, at: int)
    requires
        0 <= at <= bytes.len(),
        at == 0 || at == bytes.len() || bytes[at - 1] == 10,
    ensures
        split_lines(bytes.take(at)).len() <= split_lines(bytes).len(),
        forall|i: int|
            0 <= i < split_lines(bytes.take(at)).len() ==> split_lines(bytes)[i]
                == #[trigger] split_lines(bytes.take(at))[i],
    decreases bytes.len(),
{
    if at == bytes.len() {
        assert(bytes.take(at) =~= bytes);
    } else {
        let shorter = bytes.drop_last();
        assert(shorter.take(at) =~= bytes.take(at));
        lemma_lines_begin(shorter, at);
        let front = split_lines(bytes.take(at));
        let before = split_lines(shorter);
        let after = split_lines(bytes);
        lemma_last_byte(bytes.take(at));
        if before.len() == front.len() && front.len() > 0 {
            lemma_lines(bytes.take(at));
            lemma_lines(shorter);
            lemma_same_lengths(front, before, front.len() as int);
            assert(shorter.len() == at);
            assert(before.last() == front.last());
            assert(before.last().last() == 10);
        }
    }
}

/// Adds the lines of a source, in order, as many as can be shown at once.
fn collect_rows(source: &AcquiredSource) -> (rows: Vec<Row>)
    requires
        source.well_formed(),
    ensures
        rows.len() == shown_most(*source),
        forall|i: int| 0 <= i < rows.len() ==> is_row(*source, i, #[trigger] rows@[i]),
{
    let start: usize = source.span.start;
    let end: usize = source.span.end;
    let first: usize = source::line_at(source.bytes.as_slice(), start);
    let ghost inner = source.bytes@.subrange(start as int, end as int);
    let ghost all = split_lines(inner);
    let mut rows: Vec<Row> = Vec::new();
    let mut at: usize = start;
    proof {
        assert(inner.take(0) =~= Seq::<u8>::empty());
        source::lemma_line_bound(source.bytes@, start as int);
    }
    while at < end && rows.len() < MAX_ROWS
        invariant
            source.well_formed(),
            start == source.span.start,
            end == source.span.end,
            start <= at <= end <= source.bytes.len(),
            inner == source.bytes@.subrange(start as int, end as int),
            all == split_lines(inner),
            first == source::line_of(source.bytes@, start as int),
            first <= start + 1,
            rows.len() <= MAX_ROWS,
            rows.len() <= at - start,
            at == start || at == end || source.bytes@[at - 1] == 10,
            rows.len() == split_lines(inner.take(at - start)).len(),
            lengths(split_lines(inner.take(at - start)), rows.len() as int) == at - start,
            forall|i: int| 0 <= i < rows.len() ==> is_row(*source, i, #[trigger] rows@[i]),
        decreases end - at,
    {
        let stop: usize = next_line(&source.bytes, at, end);
        let line = &source.bytes.as_slice()[at..stop];
        let (text, encoding) = source::display_bytes(line);
        let number: u64 = first as u64 + rows.len() as u64;
        let ghost n = rows.len() as int;
        proof {
            let i = at - start;
            let j = stop - start;
            lemma_split_on(inner, i, j);
            assert(inner.subrange(i, j) =~= line@);
            let front = split_lines(inner.take(i));
            let more = split_lines(inner.take(j));
            lemma_same_lengths(front, more, n);
            assert(lengths(more, n + 1) == lengths(more, n) + more[n].len());
            if j == inner.len() {
                assert(inner.take(j) =~= inner);
            } else {
                assert(inner[j - 1] == source.bytes@[stop - 1]);
            }
            lemma_lines_begin(inner, j);
            assert(all[n] == line@);
            lemma_lines_begin(inner, i);
            lemma_same_lengths(front, all, n);
            assert(shown_end(*source, n) == at);
            assert(shown_end(*source, n + 1) == stop);
        }
        rows.push(
            Row {
                line: number,
                start: at as u64,
                end: stop as u64,
                text,
                encoding: encoding.to_owned(),
            },
        );
        at = stop;
    }
    proof {
        let i = at - start;
        if at == end {
            assert(inner.take(i) =~= inner);
        } else if at > start {
            assert(inner[i - 1] == source.bytes@[at - 1]);
        }
        lemma_lines_begin(inner, i);
    }
    rows
}

fn cursor_text(source: &AcquiredSource, offset: u64) -> (next: String)
    ensures
        next@ == cursor(*source, offset as int),
{
    let mut next = "read:".to_owned();
    next.append(source.handle.as_str());
    match source.side {
        Some(side) => {
            let ghost before = next@;
            next.append(":");
            next.append(side.as_str());
            assert(next@ =~= before + (":"@ + side.name()));
        },
        None => {
            assert(next@ + Seq::<char>::empty() =~= next@);
        },
    }
    next.append("@");
    next.append(text::decimal_text(offset).as_str());
    next
}

/// What is shown of a source at once: as many lines of its span as fit, as `fits` judges them.
/// `keys` are those of the metadata that is added to the response, where it is an object.
pub fn render_owned<F: Fn(&Page) -> bool>(
    source: &AcquiredSource,
    keys: Option<&Vec<String>>,
    fits: F,
) -> (result: Result<Page, Failure>)
    requires
        source.well_formed(),
        metadata_fault(
            *source,
            match keys {
                Some(keys) => Some(keys@),
                None => None,
            },
        ) is None ==> may_judge(*source, fits),
    ensures
        match metadata_fault(
            *source,
            match keys {
                Some(keys) => Some(keys@),
                None => None,
            },
        ) {
            Some(fault) => result is Err && text::plain(result->Err_0, fault),
            None => fitted(*source, fits, result),
        },
{
    match check_metadata(source, keys) {
        Err(failure) => {
            return Err(failure);
        },
        Ok(_) => {},
    }
    let empty = source.span.start == source.span.end;
    let mut rows = collect_rows(source);
    proof {
        let inner = source.bytes@.subrange(source.span.start as int, source.span.end as int);
        lemma_lines(inner);
        lemma_lengths_rise(
            source_lines(*source),
            shown_most(*source),
            source_lines(*source).len() as int,
        );
    }
    loop
        invariant
            source.well_formed(),
            metadata_fault(
                *source,
                match keys {
                    Some(keys) => Some(keys@),
                    None => None,
                },
            ) is None,
            empty == (source.span.start == source.span.end),
            may_judge(*source, fits),
            rows.len() <= shown_most(*source),
            forall|i: int| 0 <= i < rows.len() ==> is_row(*source, i, #[trigger] rows@[i]),
            forall|m: int|
                rows.len() < m <= shown_most(*source) ==> #[trigger] rejected(*source, fits, m),
        decreases rows.len(),
    {
        let ghost n = rows.len() as int;
        let end: u64 = if rows.len() == 0 {
            source.span.start as u64
        } else {
            rows[rows.len() - 1].end
        };
        assert(end == shown_end(*source, n)) by {
            if n > 0 {
                assert(is_row(*source, n - 1, rows@[n - 1]));
            }
        }
        let truncated = end < source.span.end as u64;
        let next = if truncated {
            Some(cursor_text(source, end))
        } else {
            None
        };
        let page = Page { rows, truncated, next };
        assert(is_page(*source, n, page));
        assert(longer_rejected(*source, fits, n));
        let accepted = fits(&page);
        if accepted && (page.rows.len() > 0 || empty) {
            return Ok(page);
        }
        let ghost shown = page;
        rows = page.rows;
        if rows.len() == 0 {
            proof {
                if empty {
                    assert(rejected(*source, fits, 0)) by {
                        assert(is_page(*source, 0, shown));
                    }
                }
            }
            return Err(
                Failure::new("budget_too_small: source line and response envelope do not fit"),
            );
        }
        assert(rejected(*source, fits, n)) by {
            assert(is_page(*source, n, shown));
        }
        let dropped = rows.pop();
    }
}

/// A line of the span has no line feed but at its end, and all but the last one end with one.
pub proof fn lemma_rows_are_lines(source: AcquiredSource, i: int)
    requires
        source.well_formed(),
        0 <= i < source_lines(source).len(),
    ensures
        source.span.start <= shown_end(source, i) < shown_end(source, i + 1) <= source.span.end,
        forall|k: int|
            shown_end(source, i) <= k < shown_end(source, i + 1) - 1 ==> #[trigger] source.bytes@[k]
                != 10,
        source.bytes@[shown_end(source, i + 1) - 1] == 10 || shown_end(source, i + 1)
            == source.span.end,
        i + 1 < source_lines(source).len() ==> source.bytes@[shown_end(source, i + 1) - 1] == 10,
{
    let inner = source.bytes@.subrange(source.span.start as int, source.span.end as int);
    let lines = split_lines(inner);
    lemma_lines_cover(inner, i);
    lemma_lines(inner);
    lemma_line_shape(inner);
    let at = lengths(lines, i);
    let line = lines[i];
    assert(line =~= inner.subrange(at, lengths(lines, i + 1)));
    assert forall|k: int|
        shown_end(source, i) <= k < shown_end(source, i + 1) - 1 implies #[trigger] source.bytes@[k]
        != 10 by {
        let j = k - source.span.start - at;
        assert(line[j] == source.bytes@[k]);
    }
    assert(line[line.len() - 1] == source.bytes@[shown_end(source, i + 1) - 1]);
}

/// How lines are made up.
proof fn lemma_line_shape(bytes: Seq<u8>)
    ensures
        forall|i: int, j: int|
            0 <= i < split_lines(bytes).len() && 0 <= j < split_lines(bytes)[i].len() - 1
                ==> #[trigger] split_lines(bytes)[i][j] != 10,
        forall|i: int|
            0 <= i < split_lines(bytes).len() ==> (#[trigger] split_lines(bytes)[i]).len() > 0,
        forall|i: int|
            0 <= i < split_lines(bytes).len() - 1 ==> (#[trigger] split_lines(bytes)[i]).last()
                == 10,
    decreases bytes.len(),
{
    if bytes.len() > 0 {
        let before = split_lines(bytes.drop_last());
        let after = split_lines(bytes);
        lemma_line_shape(bytes.drop_last());
        assert forall|i: int, j: int|
            0 <= i < after.len() && 0 <= j < after[i].len() - 1 implies #[trigger] after[i][j]
            != 10 by {
            if i < after.len() - 1 {
                assert(after[i] == before[i]);
            } else if after.len() == before.len() {
                let last = before.last();
                if j < last.len() - 1 {
                    assert(before[i][j] != 10);
                } else {
                    assert(after[i][j] == last.last());
                }
            }
        }
        assert forall|i: int| 0 <= i < after.len() implies (#[trigger] after[i]).len() > 0 by {
            if i < after.len() - 1 {
                assert(after[i] == before[i]);
            }
        }
        assert forall|i: int| 0 <= i < after.len() - 1 implies (#[trigger] after[i]).last()
            == 10 by {
            assert(after[i] == before[i]);
        }
    }
}

/// The lines of a page are the bytes of the span up to where the reading goes on, without a gap:
/// each row is at its place, and shows these bytes.
pub proof fn law_pages_go_on_where_they_end(source: AcquiredSource, n: int, page: Page, i: int)
    requires
        source.well_formed(),
        is_page(source, n, page),
        0 <= i < n <= shown_most(source),
    ensures
        source.span.start <= page.rows@[i].start <= page.rows@[i].end <= source.span.end,
        i == 0 ==> page.rows@[i].start == source.span.start,
        i + 1 < n ==> page.rows@[i].end == page.rows@[i + 1].start,
        (page.rows@[i].text@, page.rows@[i].encoding@) == source::display_of(
            source.bytes@.subrange(page.rows@[i].start as int, page.rows@[i].end as int),
        ),
        page.next matches Some(next) ==> next@ == cursor(source, page.rows@[n - 1].end as int),
        page.next is None ==> page.rows@[n - 1].end == source.span.end,
{
    let inner = source.bytes@.subrange(source.span.start as int, source.span.end as int);
    lemma_lines_cover(inner, i);
    lemma_lines_cover(inner, n - 1);
    assert(is_row(source, i, page.rows@[i]));
    assert(is_row(source, n - 1, page.rows@[n - 1]));
    if i + 1 < n {
        assert(is_row(source, i + 1, page.rows@[i + 1]));
    }
    assert(inner.subrange(lengths(split_lines(inner), i), lengths(split_lines(inner), i + 1))
        =~= source.bytes@.subrange(page.rows@[i].start as int, page.rows@[i].end as int));
}

} // verus!
