//! Reading and showing sources. A read stays inside of its root, and one buffer serves both to
//! verify the revision and to show it.

pub mod acquisition;
pub mod acquisition_laws;
pub mod lines;
pub mod render;
pub mod shown_laws;
pub mod source_laws;

use crate::paths;
use crate::text;
use crate::text::Failure;
use crate::unicode;
use vstd::prelude::*;
use vstd::utf8;

verus! {

/// A source that is larger is not shown.
pub const MAX_READ_BYTES: usize = 16_777_216;

/// The names that a read goes through, below its root.
pub fn contained_parts(path: &[u8]) -> (result: Result<Vec<Vec<u8>>, Failure>)
    ensures
        if paths::plain_path(path@) {
            result is Ok && paths::byte_views(result->Ok_0@) == paths::solid(paths::pieces(path@))
        } else {
            result is Err && text::plain(
                result->Err_0,
                "invalid_path: use a root-relative path without parent components"@,
            )
        },
{
    match paths::plain_names(path) {
        Some(names) => Ok(names),
        None => Err(
            Failure::new("invalid_path: use a root-relative path without parent components"),
        ),
    }
}

/// Whether what a path led to may be read: a file that is not too large.
pub fn check_readable(is_file: bool, length: u64, limit: usize) -> (result: Result<(), Failure>)
    ensures
        match result {
            Ok(_) => is_file && length <= limit,
            Err(failure) => if !is_file {
                text::plain(failure, "source_unavailable: source is not a regular file"@)
            } else {
                length > limit && text::plain(
                    failure,
                    "source_excluded: file exceeds read limit"@,
                )
            },
        },
{
    if !is_file {
        return Err(Failure::new("source_unavailable: source is not a regular file"));
    }
    if length > limit as u64 {
        return Err(Failure::new("source_excluded: file exceeds read limit"));
    }
    Ok(())
}

/// What was read, unless the file grew meanwhile.
pub fn check_read(bytes: Vec<u8>, limit: usize) -> (result: Result<Vec<u8>, Failure>)
    ensures
        if bytes.len() > limit {
            result is Err && text::plain(
                result->Err_0,
                "source_excluded: file grew beyond read limit"@,
            )
        } else {
            result == Ok::<Vec<u8>, Failure>(bytes)
        },
{
    if bytes.len() > limit {
        return Err(Failure::new("source_excluded: file grew beyond read limit"));
    }
    Ok(bytes)
}

/// What was found where a path leads: whether it is a file, and how long it is.
#[derive(Clone, Copy, Debug, PartialEq, Eq, Structural)]
pub struct Found {
    pub is_file: bool,
    pub length: u64,
}

/// Whether `result` is what reading comes to once the path was opened: what is no file, or too
/// large, is not read.
pub open spec fn read_opened<R: FnOnce() -> Result<Vec<u8>, Failure>>(
    opened: Result<Found, Failure>,
    limit: usize,
    read: R,
    result: Result<Vec<u8>, Failure>,
) -> bool {
    match opened {
        Err(failure) => result == Err::<Vec<u8>, Failure>(failure),
        Ok(found) => if !found.is_file {
            result is Err && text::plain(
                result->Err_0,
                "source_unavailable: source is not a regular file"@,
            )
        } else if found.length > limit {
            result is Err && text::plain(
                result->Err_0,
                "source_excluded: file exceeds read limit"@,
            )
        } else {
            exists|bytes: Result<Vec<u8>, Failure>| #[trigger]
                call_ensures(read, (), bytes) && match bytes {
                    Err(failure) => result == Err::<Vec<u8>, Failure>(failure),
                    Ok(bytes) => if bytes.len() > limit {
                        result is Err && text::plain(
                            result->Err_0,
                            "source_excluded: file grew beyond read limit"@,
                        )
                    } else {
                        result == Ok::<Vec<u8>, Failure>(bytes)
                    },
                }
        },
    }
}

/// Whether the names of a path below the root may be opened, one after the other, and what they
/// lead to may be read where it is a file that is not too large.
pub open spec fn may_read_contained<
    O: FnOnce(Vec<Vec<u8>>) -> Result<Found, Failure>,
    R: FnOnce() -> Result<Vec<u8>, Failure>,
>(path: Seq<u8>, limit: usize, open: O, read: R) -> bool {
    forall|names: Vec<Vec<u8>>|
        paths::plain_path(path) && paths::byte_views(names@) == paths::solid(paths::pieces(path))
            ==> {
            &&& #[trigger] call_requires(open, (names,))
            &&& forall|found: Found|
                #[trigger] call_ensures(open, (names,), Ok::<Found, Failure>(found))
                    && found.is_file && found.length <= limit ==> call_requires(read, ())
        }
}

/// The bytes of a file below a root: `open` opens the names that lead to it, one after the
/// other, without following links, and `read` reads what they led to, up to the limit and one
/// byte more.
pub fn read_contained<
    O: FnOnce(Vec<Vec<u8>>) -> Result<Found, Failure>,
    R: FnOnce() -> Result<Vec<u8>, Failure>,
>(path: &[u8], limit: usize, open: O, read: R) -> (result: Result<Vec<u8>, Failure>)
    requires
        may_read_contained(path@, limit, open, read),
    ensures
        if paths::plain_path(path@) {
            exists|names: Vec<Vec<u8>>, opened: Result<Found, Failure>|
                {
                    &&& paths::byte_views(names@) == paths::solid(paths::pieces(path@))
                    &&& #[trigger] call_ensures(open, (names,), opened)
                    &&& read_opened(opened, limit, read, result)
                }
        } else {
            result is Err && text::plain(
                result->Err_0,
                "invalid_path: use a root-relative path without parent components"@,
            )
        },
{
    let names = match contained_parts(path) {
        Err(failure) => {
            return Err(failure);
        },
        Ok(names) => names,
    };
    let ghost asked = names;
    assert(call_requires(open, (asked,)));
    let opened = open(names);
    let ghost answered = opened;
    assert(call_ensures(open, (asked,), answered));
    let found = match opened {
        Err(failure) => {
            return Err(failure);
        },
        Ok(found) => found,
    };
    assert(call_ensures(open, (asked,), Ok::<Found, Failure>(found)));
    match check_readable(found.is_file, found.length, limit) {
        Err(failure) => {
            return Err(failure);
        },
        Ok(_) => {},
    }
    let bytes = read();
    let ghost given = bytes;
    assert(call_ensures(read, (), given));
    match bytes {
        Err(failure) => Err(failure),
        Ok(bytes) => check_read(bytes, limit),
    }
}

/// How many line feeds bytes hold.
pub open spec fn line_feeds(bytes: Seq<u8>) -> int
    decreases bytes.len(),
{
    if bytes.len() == 0 {
        0
    } else {
        line_feeds(bytes.drop_last()) + if bytes.last() == 10 {
            1int
        } else {
            0int
        }
    }
}

proof fn lemma_line_feeds(bytes: Seq<u8>)
    ensures
        0 <= line_feeds(bytes) <= bytes.len(),
    decreases bytes.len(),
{
    if bytes.len() > 0 {
        lemma_line_feeds(bytes.drop_last());
    }
}

/// The line that a byte is on, counted from one. A byte behind the end is where the end is.
pub open spec fn line_of(bytes: Seq<u8>, offset: int) -> int {
    1 + line_feeds(
        bytes.take(
            if offset < bytes.len() {
                offset
            } else {
                bytes.len() as int
            },
        ),
    )
}

/// The line that a byte is on, counted from one.
pub fn line_at(bytes: &[u8], offset: usize) -> (line: usize)
    requires
        bytes.len() < usize::MAX,
    ensures
        line == line_of(bytes@, offset as int),
{
    let end: usize = if offset < bytes.len() {
        offset
    } else {
        bytes.len()
    };
    let mut line: usize = 1;
    let mut i: usize = 0;
    while i < end
        invariant
            i <= end <= bytes.len() < usize::MAX,
            line == 1 + line_feeds(bytes@.take(i as int)),
        decreases end - i,
    {
        proof {
            assert(bytes@.take(i + 1).drop_last() =~= bytes@.take(i as int));
            lemma_line_feeds(bytes@.take(i as int));
        }
        if bytes[i] == 10 {
            line += 1;
        }
        i += 1;
    }
    line
}

/// A byte is on no later line than it has bytes before it.
pub proof fn lemma_line_bound(bytes: Seq<u8>, offset: int)
    requires
        0 <= offset <= bytes.len(),
    ensures
        1 <= line_of(bytes, offset) <= offset + 1,
{
    lemma_line_feeds(bytes.take(offset));
    lemma_line_feeds(bytes.take(bytes.len() as int));
}

/// The first and the last line of a span. An empty one is on the line where it starts.
pub fn line_span(bytes: &[u8], start: usize, end: usize) -> (lines: (usize, usize))
    requires
        bytes.len() < usize::MAX,
    ensures
        lines.0 == line_of(bytes@, start as int),
        lines.1 == line_of(
            bytes@,
            if end > start {
                end - 1
            } else {
                start as int
            },
        ),
{
    (
        line_at(bytes, start),
        line_at(
            bytes,
            if end > start {
                end - 1
            } else {
                start
            },
        ),
    )
}

/// Where the line feed with a number is, counted from one.
pub open spec fn line_feed_place(bytes: Seq<u8>, n: int) -> Option<int>
    decreases bytes.len(),
{
    if bytes.len() == 0 {
        None
    } else if bytes.last() == 10 && line_feeds(bytes) == n {
        Some(bytes.len() - 1)
    } else {
        line_feed_place(bytes.drop_last(), n)
    }
}

/// Where a line starts; nowhere if the bytes have fewer lines.
pub open spec fn line_start(bytes: Seq<u8>, line: int) -> Option<int> {
    if line == 1 {
        Some(0)
    } else {
        match line_feed_place(bytes, line - 1) {
            Some(place) => Some(place + 1),
            None => None,
        }
    }
}

/// Where a line ends, with its line feed.
pub open spec fn line_end(bytes: Seq<u8>, line: int) -> int {
    match line_feed_place(bytes, line) {
        Some(place) => place + 1,
        None => bytes.len() as int,
    }
}

/// A place that was found stays found, and is the only one.
proof fn lemma_place_stays(bytes: Seq<u8>, n: int, k: int)
    requires
        0 <= k <= bytes.len(),
        line_feed_place(bytes.take(k), n) is Some,
    ensures
        line_feed_place(bytes, n) == line_feed_place(bytes.take(k), n),
    decreases bytes.len() - k,
{
    if k < bytes.len() {
        let longer = bytes.take(k + 1);
        assert(longer.drop_last() =~= bytes.take(k));
        lemma_counted(bytes.take(k), n);
        lemma_place_stays(bytes, n, k + 1);
    } else {
        assert(bytes.take(k) =~= bytes);
    }
}

/// A line feed with a number is there just where there are so many.
proof fn lemma_counted(bytes: Seq<u8>, n: int)
    ensures
        line_feed_place(bytes, n) is Some <==> 1 <= n <= line_feeds(bytes),
        line_feed_place(bytes, n) matches Some(place) ==> 0 <= place < bytes.len(),
    decreases bytes.len(),
{
    lemma_line_feeds(bytes);
    if bytes.len() > 0 {
        lemma_line_feeds(bytes.drop_last());
        lemma_counted(bytes.drop_last(), n);
    }
}

/// Why lines are not a span of some bytes.
pub open spec fn span_fault(bytes: Seq<u8>, first: int, last: int) -> Option<Seq<char>> {
    if first == 0 || last < first {
        Some("invalid_range: lines must be one-based and inclusive"@)
    } else if line_start(bytes, first) is None {
        Some("invalid_range: first line is beyond end of file"@)
    } else {
        None
    }
}

/// Where some lines start and end.
pub fn current_span(bytes: &[u8], first: usize, last: usize) -> (result: Result<
    (usize, usize),
    Failure,
>)
    requires
        bytes.len() < usize::MAX,
    ensures
        match span_fault(bytes@, first as int, last as int) {
            Some(fault) => result is Err && text::plain(result->Err_0, fault),
            None => {
                &&& result is Ok
                &&& Some(result->Ok_0.0 as int) == line_start(bytes@, first as int)
                &&& result->Ok_0.1 == line_end(bytes@, last as int)
                &&& result->Ok_0.0 <= result->Ok_0.1 <= bytes.len()
            },
        },
{
    if first == 0 || last < first {
        return Err(Failure::new("invalid_range: lines must be one-based and inclusive"));
    }
    let mut line: usize = 1;
    let mut start: Option<usize> = if first == 1 {
        Some(0)
    } else {
        None
    };
    let mut i: usize = 0;
    proof {
        lemma_line_feeds(bytes@.take(0));
    }
    while i < bytes.len()
        invariant
            i <= bytes.len() < usize::MAX,
            1 <= first <= last,
            line == 1 + line_feeds(bytes@.take(i as int)),
            line <= last,
            line_feed_place(bytes@.take(i as int), last as int) is None,
            match start {
                Some(start) => line_start(bytes@.take(i as int), first as int) == Some(
                    start as int,
                ) && start <= i,
                None => line_start(bytes@.take(i as int), first as int) is None,
            },
            first <= line ==> start is Some,
        decreases bytes.len() - i,
    {
        proof {
            assert(bytes@.take(i + 1).drop_last() =~= bytes@.take(i as int));
            lemma_line_feeds(bytes@.take(i as int));
            lemma_counted(bytes@.take(i as int), first as int - 1);
            lemma_counted(bytes@.take(i + 1), first as int - 1);
            lemma_counted(bytes@.take(i + 1), last as int);
        }
        if bytes[i] == 10 {
            if line == last {
                proof {
                    lemma_place_stays(bytes@, last as int, i + 1);
                    if first > 1 {
                        lemma_place_stays(bytes@, first as int - 1, i as int);
                    }
                }
                return match start {
                    Some(start) => Ok((start, i + 1)),
                    None => Err(Failure::new("invalid_range: first line is beyond end of file")),
                };
            }
            line += 1;
            if line == first {
                start = Some(i + 1);
            }
        }
        i += 1;
    }
    assert(bytes@.take(i as int) =~= bytes@);
    match start {
        Some(start) => Ok((start, bytes.len())),
        None => Err(Failure::new("invalid_range: first line is beyond end of file")),
    }
}

/// A byte of a line that is not UTF-8, as text.
pub open spec fn shown_byte(byte: u8) -> Seq<char> {
    if 0x20 <= byte <= 0x7e && byte != 92 {
        seq![byte as char]
    } else {
        seq![
            '\\',
            'x',
            crate::digest::hex_digit(byte as int / 16),
            crate::digest::hex_digit(byte as int % 16),
        ]
    }
}

/// The bytes of a line that is not UTF-8, as text.
pub open spec fn shown_bytes(bytes: Seq<u8>) -> Seq<char>
    decreases bytes.len(),
{
    if bytes.len() == 0 {
        Seq::empty()
    } else {
        shown_bytes(bytes.drop_last()) + shown_byte(bytes.last())
    }
}

/// The text of a line, and how it is written: as it is, where it is UTF-8, else byte by byte.
pub open spec fn display_of(bytes: Seq<u8>) -> (Seq<char>, Seq<char>) {
    if utf8::valid_utf8(bytes) {
        (utf8::decode_utf8(bytes), "utf8"@)
    } else {
        (shown_bytes(bytes), "byte-escaped"@)
    }
}

/// The text of a line, and how it is written.
pub fn display_bytes(bytes: &[u8]) -> (display: (String, &'static str))
    ensures
        (display.0@, display.1@) == display_of(bytes@),
{
    match unicode::strict_text(bytes) {
        Ok(text) => (text, "utf8"),
        Err(_) => {
            let mut text = String::new();
            let mut i: usize = 0;
            while i < bytes.len()
                invariant
                    i <= bytes.len(),
                    text@ == shown_bytes(bytes@.take(i as int)),
                decreases bytes.len() - i,
            {
                let byte: u8 = bytes[i];
                let ghost before = text@;
                assert(bytes@.take(i + 1).drop_last() =~= bytes@.take(i as int));
                if 0x20 <= byte && byte <= 0x7e && byte != 92 {
                    text.push(byte as char);
                } else {
                    text.push('\\');
                    text.push('x');
                    text.push(crate::digest::hex_char(byte / 16));
                    text.push(crate::digest::hex_char(byte % 16));
                }
                assert(text@ =~= before + shown_byte(byte));
                i += 1;
            }
            assert(bytes@.take(i as int) =~= bytes@);
            (text, "byte-escaped")
        },
    }
}

/// Lines read back: the span of the line that a byte of it is on, is that line.
pub proof fn law_lines_and_spans_agree(bytes: Seq<u8>, line: int)
    requires
        line >= 1,
        line_start(bytes, line) is Some,
    ensures
        line_of(bytes, line_start(bytes, line)->0) == line,
{
    if line == 1 {
        assert(bytes.take(0) =~= Seq::<u8>::empty());
    } else {
        lemma_counted(bytes, line - 1);
        lemma_feeds_up_to(bytes, line - 1);
    }
}

/// Up to a line feed with a number there are so many.
proof fn lemma_feeds_up_to(bytes: Seq<u8>, n: int)
    requires
        line_feed_place(bytes, n) is Some,
    ensures
        line_feeds(bytes.take(line_feed_place(bytes, n)->0 + 1)) == n,
        0 <= line_feed_place(bytes, n)->0 < bytes.len(),
    decreases bytes.len(),
{
    if bytes.last() == 10 && line_feeds(bytes) == n {
        assert(bytes.take(bytes.len() as int) =~= bytes);
    } else {
        lemma_feeds_up_to(bytes.drop_last(), n);
        let place = line_feed_place(bytes, n)->0;
        assert(bytes.drop_last().take(place + 1) =~= bytes.take(place + 1));
    }
}

} // verus!
