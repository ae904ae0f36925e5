//! What holds of the sources that are found, and of what is shown of them.

use crate::digest;
use crate::source;
use crate::source::acquisition;
use crate::source::acquisition::{AcquiredSource, HistoricalSource, Hit, SourceSide, Target};
use crate::source::render;
use crate::source::render::Page;
use crate::store::paths as store_paths;
use crate::text;
use crate::text::Failure;
use vstd::prelude::*;
use vstd::utf8;

verus! {

/// A source of the index is shown only where no side was asked for, and it has the revision that
/// was recorded: these are the bytes that were read under its path. A hit of the kind `file` shows
/// the whole file, whatever span it records; any other hit shows its own span.
pub proof fn law_live_sources_show_what_was_found<
    R: FnOnce(Vec<u8>) -> Result<Vec<u8>, Failure>,
>(
    handle: Seq<char>,
    hit: Hit,
    side: Option<SourceSide>,
    read: R,
    found: AcquiredSource,
)
    requires
        acquisition::live_acquired(handle, hit, side, read, Ok(found)),
    ensures
        side is None,
        hit.revision is Some,
        hit.revision->0@ == digest::hex(digest::blake3_digest(found.bytes@)),
        found.revision@ == hit.revision->0@,
        found.path@ == hit.path@,
        found.handle@ == handle,
        found.verified,
        found.side is None,
        found.historical is None,
        found.definitions is None,
        exists|relative: Vec<u8>, bytes: Vec<u8>|
            {
                &&& store_paths::path_of(utf8::encode_utf8(hit.path@)) == Ok::<
                    Seq<u8>,
                    Seq<char>,
                >(relative@)
                &&& #[trigger] call_ensures(read, (relative,), Ok::<Vec<u8>, Failure>(bytes))
                &&& bytes@ == found.bytes@
            },
        hit.kind@ == "file"@ ==> found.span.start == 0 && found.span.end == found.bytes.len(),
        hit.kind@ != "file"@ ==> found.span.start == hit.start && found.span.end == hit.end,
        found.span.start <= found.span.end <= found.bytes.len(),
{
    let path = store_paths::path_of(utf8::encode_utf8(hit.path@))->Ok_0;
    let (relative, outcome) = choose|relative: Vec<u8>, outcome: Result<Vec<u8>, Failure>|
        relative@ == path && #[trigger] call_ensures(read, (relative,), outcome)
            && acquisition::verified_live(handle, hit, outcome, Ok(found));
    match outcome {
        Ok(bytes) => {
            assert(call_ensures(read, (relative,), Ok::<Vec<u8>, Failure>(bytes)));
        },
        Err(_) => {},
    }
}

/// A source of the index is refused only where a side was asked for, it has no revision, its path
/// cannot be read, reading fails, its bytes have another revision than was recorded, or it shows
/// its own span and that is none of the bytes.
pub proof fn law_live_sources_are_refused_for_a_reason<
    R: FnOnce(Vec<u8>) -> Result<Vec<u8>, Failure>,
>(
    handle: Seq<char>,
    hit: Hit,
    side: Option<SourceSide>,
    read: R,
    failure: Failure,
)
    requires
        acquisition::live_acquired(handle, hit, side, read, Err(failure)),
        side is None,
        hit.revision is Some,
        store_paths::path_of(utf8::encode_utf8(hit.path@)) is Ok,
    ensures
        exists|relative: Vec<u8>, outcome: Result<Vec<u8>, Failure>|
            {
                &&& Ok::<Seq<u8>, Seq<char>>(relative@) == store_paths::path_of(
                    utf8::encode_utf8(hit.path@),
                )
                &&& #[trigger] call_ensures(read, (relative,), outcome)
                &&& match outcome {
                    Err(fault) => fault == failure,
                    Ok(bytes) => digest::hex(digest::blake3_digest(bytes@)) != hit.revision->0@ || (
                    hit.kind@ != "file"@ && (hit.start > hit.end || hit.end > bytes.len())),
                }
            },
{
    let path = store_paths::path_of(utf8::encode_utf8(hit.path@))->Ok_0;
    let (relative, outcome) = choose|relative: Vec<u8>, outcome: Result<Vec<u8>, Failure>|
        relative@ == path && #[trigger] call_ensures(read, (relative,), outcome)
            && acquisition::verified_live(handle, hit, outcome, Err(failure));
    assert(call_ensures(read, (relative,), outcome));
}

/// A source as it was at a commit is shown only with the bytes of the recorded revision, and
/// shows the recorded span of them; it is refused where the revision is another, or the span is
/// none of the bytes.
pub proof fn law_past_sources_show_what_was_recorded(
    handle: Seq<char>,
    side: SourceSide,
    identity: HistoricalSource,
    bytes: Seq<u8>,
    result: Result<AcquiredSource, Failure>,
)
    requires
        acquisition::verified_blob(handle, side, identity, bytes, result),
    ensures
        result is Ok <==> {
            &&& digest::hex(digest::blake3_digest(bytes)) == identity.revision@
            &&& identity.span.start <= identity.span.end <= bytes.len()
        },
        result matches Ok(found) ==> {
            &&& found.bytes@ == bytes
            &&& found.path@ == identity.path@
            &&& found.revision@ == identity.revision@
            &&& found.span.start == identity.span.start
            &&& found.span.end == identity.span.end
            &&& found.handle@ == handle
            &&& found.side == Some(side)
            &&& found.verified
        },
{
}

/// A change shows the side that was asked for: none without one, and none where the change has no
/// source on that side.
pub proof fn law_changes_show_the_side_that_was_asked_for(
    before: Option<HistoricalSource>,
    after: Option<HistoricalSource>,
    side: Option<SourceSide>,
    result: Result<(SourceSide, HistoricalSource), Failure>,
)
    requires
        acquisition::side_chosen(before, after, side, result),
    ensures
        side is None ==> result is Err,
        side == Some(SourceSide::Before) ==> match before {
            Some(source) => result == Ok::<(SourceSide, HistoricalSource), Failure>(
                (SourceSide::Before, source),
            ),
            None => result is Err,
        },
        side == Some(SourceSide::After) ==> match after {
            Some(source) => result == Ok::<(SourceSide, HistoricalSource), Failure>(
                (SourceSide::After, source),
            ),
            None => result is Err,
        },
{
}

/// How many line feeds there are.
pub open spec fn feeds(bytes: Seq<u8>) -> nat {
    bytes.filter(|byte: u8| byte == 10).len()
}

proof fn lemma_feeds(bytes: Seq<u8>)
    ensures
        source::line_feeds(bytes) == feeds(bytes),
    decreases bytes.len(),
{
    reveal(Seq::filter);
    if bytes.len() > 0 {
        lemma_feeds(bytes.drop_last());
    }
}

/// The line of a byte is one more than there are line feeds before it.
pub proof fn law_lines_count_line_feeds(bytes: Seq<u8>, offset: int)
    requires
        0 <= offset <= bytes.len(),
    ensures
        source::line_of(bytes, offset) == 1 + feeds(bytes.take(offset)),
{
    lemma_feeds(bytes.take(offset));
}

proof fn lemma_feed_place(bytes: Seq<u8>, n: int)
    ensures
        source::line_feed_place(bytes, n) matches Some(place) ==> {
            &&& 0 <= place < bytes.len()
            &&& bytes[place] == 10
            &&& feeds(bytes.take(place)) == n - 1
            &&& n >= 1
        },
        source::line_feed_place(bytes, n) is None ==> n < 1 || feeds(bytes) < n,
    decreases bytes.len(),
{
    reveal(Seq::filter);
    lemma_feeds(bytes);
    if bytes.len() > 0 {
        let less = bytes.drop_last();
        lemma_feed_place(less, n);
        lemma_feeds(less);
        if bytes.last() == 10 && source::line_feeds(bytes) == n {
            assert(bytes.take(bytes.len() - 1) =~= less);
        } else if source::line_feed_place(bytes, n) is Some {
            let place = source::line_feed_place(bytes, n)->0;
            assert(bytes.take(place) =~= less.take(place));
        }
    }
}

/// Lines that are asked for are found where there are so many: from behind the line feed before
/// the first of them, up to and with the one that ends the last, or to the end of the bytes.
pub proof fn law_lines_are_found_by_number(bytes: Seq<u8>, first: int, last: int)
    requires
        1 <= first <= last,
    ensures
        source::span_fault(bytes, first, last) is None <==> feeds(bytes) >= first - 1,
        source::span_fault(bytes, first, last) is None ==> {
            let start = source::line_start(bytes, first)->0;
            let end = source::line_end(bytes, last);
            &&& 0 <= start <= bytes.len()
            &&& 0 <= end <= bytes.len()
            &&& feeds(bytes.take(start)) == first - 1
            &&& start == 0 || bytes[start - 1] == 10
            &&& end == bytes.len() && feeds(bytes) < last || (end > 0 && bytes[end - 1] == 10
                && feeds(bytes.take(end)) == last)
        },
{
    lemma_feed_place(bytes, first - 1);
    lemma_feed_place(bytes, last);
    lemma_feeds(bytes);
    if first == 1 {
        assert(bytes.take(0) =~= Seq::<u8>::empty());
        lemma_feeds(bytes.take(0));
    }
    if source::line_feed_place(bytes, first - 1) is Some {
        let place = source::line_feed_place(bytes, first - 1)->0;
        lemma_one_more(bytes, place);
        lemma_fewer_feeds(bytes, place + 1);
    }
    if source::line_feed_place(bytes, last) is Some {
        lemma_one_more(bytes, source::line_feed_place(bytes, last)->0);
    }
}

proof fn lemma_one_more(bytes: Seq<u8>, place: int)
    requires
        0 <= place < bytes.len(),
        bytes[place] == 10,
    ensures
        feeds(bytes.take(place + 1)) == feeds(bytes.take(place)) + 1,
{
    reveal(Seq::filter);
    assert(bytes.take(place + 1).drop_last() =~= bytes.take(place));
}

proof fn lemma_fewer_feeds(bytes: Seq<u8>, n: int)
    requires
        0 <= n <= bytes.len(),
    ensures
        feeds(bytes.take(n)) <= feeds(bytes),
    decreases bytes.len() - n,
{
    reveal(Seq::filter);
    if n < bytes.len() {
        lemma_fewer_feeds(bytes, n + 1);
        assert(bytes.take(n + 1).drop_last() =~= bytes.take(n));
    } else {
        assert(bytes.take(n) =~= bytes);
    }
}

/// The digits of a number.
proof fn lemma_decimal(n: nat)
    ensures
        text::decimal(n).len() > 0,
        forall|i: int|
            0 <= i < text::decimal(n).len() ==> '0' <= #[trigger] text::decimal(n)[i] <= '9',
        forall|max: nat| n <= max ==> #[trigger] text::digits_read(text::decimal(n), max) == Ok::<
            nat,
            Seq<char>,
        >(n),
    decreases n,
{
    if n >= 10 {
        lemma_decimal(n / 10);
        let front = text::decimal(n / 10);
        assert(text::decimal(n) =~= front.push(text::digit(n % 10)));
        assert(text::decimal(n).drop_last() =~= front);
        assert forall|max: nat| n <= max implies #[trigger] text::digits_read(
            text::decimal(n),
            max,
        ) == Ok::<nat, Seq<char>>(n) by {
            assert(text::digits_read(front, max) == Ok::<nat, Seq<char>>(n / 10));
        }
    } else {
        assert(text::decimal(n) =~= seq![text::digit(n)]);
        assert(text::decimal(n).drop_last() =~= Seq::<char>::empty());
        assert forall|max: nat| n <= max implies #[trigger] text::digits_read(
            text::decimal(n),
            max,
        ) == Ok::<nat, Seq<char>>(n) by {
            assert(text::digits_read(Seq::empty(), max) == Ok::<nat, Seq<char>>(0));
        }
    }
}

/// A number is read back from its digits.
pub proof fn law_numbers_are_read_back(n: nat, max: nat)
    requires
        n <= max,
    ensures
        text::number_read(text::decimal(n), max) == Ok::<nat, Seq<char>>(n),
{
    lemma_decimal(n);
    assert(text::digits_read(text::decimal(n), max) == Ok::<nat, Seq<char>>(n));
    assert('0' <= text::decimal(n)[0] <= '9');
}

/// The last place of a character is behind all that comes without it.
proof fn lemma_last_place(front: Seq<char>, c: char, back: Seq<char>)
    requires
        forall|i: int| 0 <= i < back.len() ==> #[trigger] back[i] != c,
    ensures
        acquisition::last_place(front + seq![c] + back, c) == front.len(),
        acquisition::split_last(front + seq![c] + back, c) == Some((front, back)),
    decreases back.len(),
{
    let whole = front + seq![c] + back;
    if back.len() > 0 {
        let less = back.drop_last();
        assert forall|i: int| 0 <= i < less.len() implies #[trigger] less[i] != c by {
            assert(less[i] == back[i]);
        }
        lemma_last_place(front, c, less);
        assert(whole.drop_last() =~= front + seq![c] + less);
        assert(whole.last() == back[back.len() - 1]);
    } else {
        assert(whole.last() == c);
    }
    assert(whole.take(front.len() as int) =~= front);
    assert(whole.skip(front.len() as int + 1) =~= back);
}

/// Whether a text ends with the name of a side.
pub open spec fn names_side(handle: Seq<char>) -> bool {
    exists|front: Seq<char>|
        handle == #[trigger] (front + ":before"@) || handle == front + ":after"@
}

/// A text begins with what it is put behind, and with nothing that begins otherwise.
proof fn lemma_begins(prefix: Seq<char>, rest: Seq<char>)
    ensures
        text::begins_with(prefix + rest, prefix),
        (prefix + rest).skip(prefix.len() as int) == rest,
        forall|other: Seq<char>|
            prefix.len() > 0 && other.len() > 0 && other[0] != prefix[0] ==> !(
            #[trigger] text::begins_with(prefix + rest, other)),
{
    let whole = prefix + rest;
    assert(whole.subrange(0, prefix.len() as int) =~= prefix);
    assert(whole.skip(prefix.len() as int) =~= rest);
    assert forall|other: Seq<char>|
        prefix.len() > 0 && other.len() > 0 && other[0] != prefix[0] implies !(
    #[trigger] text::begins_with(whole, other)) by {
        if text::begins_with(whole, other) {
            assert(whole.subrange(0, other.len() as int)[0] == other[0]);
            assert(whole[0] == prefix[0]);
        }
    }
}

/// The handle and the side are read back from how a cursor names them.
proof fn lemma_identity_is_read_back(handle: Seq<char>, side: Option<SourceSide>)
    requires
        side is None ==> !names_side(handle),
    ensures
        acquisition::cursor_identity(
            handle + match side {
                Some(side) => ":"@ + side.name(),
                None => Seq::empty(),
            },
        ) == (handle, side),
{
    reveal_strlit(":");
    reveal_strlit("before");
    reveal_strlit("after");
    reveal_strlit(":before");
    reveal_strlit(":after");
    assert("before"@.len() != "after"@.len());
    assert(":"@ =~= seq![':']);
    match side {
        Some(side) => {
            let name = side.name();
            assert(handle + (":"@ + name) =~= handle + seq![':'] + name);
            assert forall|i: int| 0 <= i < name.len() implies #[trigger] name[i] != ':' by {}
            lemma_last_place(handle, ':', name);
        },
        None => {
            assert(handle + Seq::<char>::empty() =~= handle);
            lemma_split_last(handle, ':');
            match acquisition::split_last(handle, ':') {
                Some((front, value)) => {
                    if value == "before"@ {
                        assert(seq![':'] + "before"@ =~= ":before"@);
                        assert(front + seq![':'] + value =~= front + ":before"@);
                        assert(names_side(handle));
                    }
                    if value == "after"@ {
                        assert(seq![':'] + "after"@ =~= ":after"@);
                        assert(front + seq![':'] + value =~= front + ":after"@);
                        let other = front + ":before"@;
                        assert(names_side(handle));
                    }
                },
                None => {},
            }
        },
    }
}

/// Where a page says that the reading goes on is read back: it names the same handle, the same
/// side and the same byte, unless another side is asked for.
pub proof fn law_cursors_are_read_back(
    found: AcquiredSource,
    offset: nat,
    side: Option<SourceSide>,
    entry: bool,
    result: Result<Target, Failure>,
)
    requires
        acquisition::target_read(render::cursor(found, offset as int), side, entry, result),
        side is None || side == found.side,
        offset <= usize::MAX,
        found.side is None ==> !names_side(found.handle@),
    ensures
        result matches Ok(Target::Cursor { handle, side: kept, offset: at }) && {
            &&& handle@ == found.handle@
            &&& kept == found.side
            &&& text::number_read(at@, usize::MAX as nat) == Ok::<nat, Seq<char>>(offset)
        },
{
    let digits = text::decimal(offset);
    lemma_decimal(offset);
    law_numbers_are_read_back(offset, usize::MAX as nat);
    let named = match found.side {
        Some(side) => ":"@ + side.name(),
        None => Seq::empty(),
    };
    let identity = found.handle@ + named;
    let rest = identity + seq!['@'] + digits;
    assert(render::cursor(found, offset as int) =~= "read:"@ + rest) by {
        reveal_strlit("@");
        assert("@"@ =~= seq!['@']);
    }
    lemma_begins("read:"@, rest);
    assert("read:"@.len() == 5) by {
        reveal_strlit("read:");
    }
    assert forall|i: int| 0 <= i < digits.len() implies #[trigger] digits[i] != '@' by {
        assert('0' <= digits[i] <= '9');
    }
    lemma_last_place(identity, '@', digits);
    lemma_identity_is_read_back(found.handle@, found.side);
}

proof fn lemma_split_last(s: Seq<char>, c: char)
    ensures
        acquisition::last_place(s, c) < s.len(),
        acquisition::last_place(s, c) >= 0 ==> s[acquisition::last_place(s, c)] == c,
        acquisition::split_last(s, c) matches Some((front, back)) ==> s == front + seq![c] + back,
    decreases s.len(),
{
    if s.len() > 0 && s.last() != c {
        lemma_split_last(s.drop_last(), c);
    }
    if acquisition::last_place(s, c) >= 0 {
        let at = acquisition::last_place(s, c);
        assert(s =~= s.take(at) + seq![c] + s.skip(at + 1));
    }
}

/// Reading goes on from a byte of the span, and shows the rest of it; from no other place.
pub proof fn law_reading_goes_on_inside_the_span(
    found: AcquiredSource,
    offset: nat,
    result: Result<AcquiredSource, Failure>,
)
    requires
        offset <= usize::MAX,
        acquisition::continued(found, text::decimal(offset), result),
    ensures
        result is Ok <==> found.span.start <= offset <= found.span.end,
        result matches Ok(rest) ==> {
            &&& rest.span.start == offset
            &&& rest.span.end == found.span.end
            &&& rest.bytes == found.bytes
            &&& rest.handle == found.handle
            &&& rest.side == found.side
            &&& rest.revision == found.revision
        },
{
    law_numbers_are_read_back(offset, usize::MAX as nat);
}

/// A target that ends in two line numbers names these lines of a file.
pub proof fn law_paths_with_lines_name_these_lines(
    path: Seq<char>,
    first: nat,
    last: nat,
    result: Result<Target, Failure>,
)
    requires
        first <= usize::MAX,
        last <= usize::MAX,
        acquisition::target_read(
            "path:"@ + path + ":"@ + text::decimal(first) + "-"@ + text::decimal(last),
            None,
            false,
            result,
        ),
    ensures
        result matches Ok(Target::Path { path: named, first: a, last: b }) && named@ == path && a
            == first && b == last,
{
    lemma_decimal(first);
    lemma_decimal(last);
    law_numbers_are_read_back(first, usize::MAX as nat);
    law_numbers_are_read_back(last, usize::MAX as nat);
    let (a, b) = (text::decimal(first), text::decimal(last));
    let range = a + seq!['-'] + b;
    let target = path + seq![':'] + range;
    assert("path:"@ + path + ":"@ + a + "-"@ + b =~= "path:"@ + target) by {
        reveal_strlit(":");
        reveal_strlit("-");
        assert(":"@ =~= seq![':']);
        assert("-"@ =~= seq!['-']);
    }
    lemma_begins("path:"@, target);
    assert("path:"@.len() == 5 && "path:"@[0] == 'p' && "read:"@.len() == 5 && "read:"@[0]
        == 'r') by {
        reveal_strlit("path:");
        reveal_strlit("read:");
    }
    assert(!text::begins_with("path:"@ + target, "read:"@));
    assert forall|i: int| 0 <= i < range.len() implies #[trigger] range[i] != ':' by {
        if i < a.len() {
            assert(range[i] == a[i]);
        } else if i > a.len() {
            assert(range[i] == b[i - a.len() - 1]);
        }
    }
    lemma_last_place(path, ':', range);
    lemma_first_place(a, '-', b);
    assert(range.take(a.len() as int) =~= a);
    assert(range.skip(a.len() as int + 1) =~= b);
}

proof fn lemma_first_place(front: Seq<char>, c: char, back: Seq<char>)
    requires
        forall|i: int| 0 <= i < front.len() ==> #[trigger] front[i] != c,
    ensures
        crate::store::module_config::first_place(front + seq![c] + back, c) == front.len(),
    decreases back.len(),
{
    let whole = front + seq![c] + back;
    if back.len() > 0 {
        lemma_first_place(front, c, back.drop_last());
        assert(whole.drop_last() =~= front + seq![c] + back.drop_last());
    } else {
        assert(whole.drop_last() =~= front);
        lemma_nowhere(front, c);
        assert(whole.last() == c);
    }
}

proof fn lemma_nowhere(s: Seq<char>, c: char)
    requires
        forall|i: int| 0 <= i < s.len() ==> #[trigger] s[i] != c,
    ensures
        crate::store::module_config::first_place(s, c) == -1,
    decreases s.len(),
{
    if s.len() > 0 {
        let less = s.drop_last();
        assert forall|i: int| 0 <= i < less.len() implies #[trigger] less[i] != c by {
            assert(less[i] == s[i]);
        }
        lemma_nowhere(less, c);
        assert(s.last() == s[s.len() - 1]);
    }
}

/// A row of a page is one line of the source: it has no line feed but at its end, ends with one
/// unless the span ends there, and is numbered by the line feeds before it. A page has at most
/// 200 rows.
pub proof fn law_rows_are_lines(found: AcquiredSource, n: int, page: Page, i: int)
    requires
        found.well_formed(),
        render::is_page(found, n, page),
        0 <= i < n <= render::shown_most(found),
    ensures
        ({
            let row = page.rows@[i];
            &&& page.rows@.len() <= 200
            &&& row.start < row.end
            &&& forall|k: int|
                row.start <= k < row.end - 1 ==> #[trigger] found.bytes@[k] != 10
            &&& found.bytes@[row.end - 1] == 10 || row.end == found.span.end
            &&& row.line == 1 + feeds(found.bytes@.take(row.start as int))
        }),
{
    render::lemma_rows_are_lines(found, i);
    render::law_pages_go_on_where_they_end(found, n, page, i);
    assert(render::is_row(found, i, page.rows@[i]));
    law_lines_count_line_feeds(found.bytes@, found.span.start as int);
    lemma_feeds_between(found, i);
}

proof fn lemma_feeds_between(found: AcquiredSource, i: int)
    requires
        found.well_formed(),
        0 <= i < render::source_lines(found).len(),
    ensures
        0 <= render::shown_end(found, i) <= found.bytes.len(),
        feeds(found.bytes@.take(render::shown_end(found, i))) == feeds(
            found.bytes@.take(found.span.start as int),
        ) + i,
    decreases i,
{
    if i > 0 {
        lemma_feeds_between(found, i - 1);
        render::lemma_rows_are_lines(found, i - 1);
        let (start, end) = (render::shown_end(found, i - 1), render::shown_end(found, i));
        lemma_no_feeds(found.bytes@, start, end - 1);
        lemma_one_more(found.bytes@, end - 1);
    }
}

proof fn lemma_no_feeds(bytes: Seq<u8>, start: int, end: int)
    requires
        0 <= start <= end <= bytes.len(),
        forall|k: int| start <= k < end ==> #[trigger] bytes[k] != 10,
    ensures
        feeds(bytes.take(end)) == feeds(bytes.take(start)),
    decreases end - start,
{
    reveal(Seq::filter);
    if start < end {
        lemma_no_feeds(bytes, start, end - 1);
        assert(bytes.take(end).drop_last() =~= bytes.take(end - 1));
    }
}

} // verus!
