//! Finding and verifying a source before any of it is shown.

use crate::digest;
use crate::paths;
use crate::source;
use crate::store::paths as store_paths;
use crate::text;
use crate::text::Failure;
use crate::unicode;
use vstd::prelude::*;
use vstd::string::StringExecFns;
use vstd::utf8;

verus! {

/// A side of a change.
#[derive(Clone, Copy, Debug, Eq, PartialEq, Structural)]
pub enum SourceSide {
    Before,
    After,
}

impl SourceSide {
    pub open spec fn name(self) -> Seq<char> {
        match self {
            SourceSide::Before => "before"@,
            SourceSide::After => "after"@,
        }
    }

    pub fn as_str(self) -> (name: &'static str)
        ensures
            name@ == self.name(),
    {
        match self {
            SourceSide::Before => "before",
            SourceSide::After => "after",
        }
    }

    pub fn parse(value: &str) -> (result: Result<Self, Failure>)
        ensures
            match result {
                Ok(side) => value@ == side.name(),
                Err(failure) => value@ != SourceSide::Before.name() && value@
                    != SourceSide::After.name() && text::plain(
                    failure,
                    "invalid_side: expected before or after"@,
                ),
            },
    {
        if text::same_text(value, "before") {
            Ok(SourceSide::Before)
        } else if text::same_text(value, "after") {
            Ok(SourceSide::After)
        } else {
            Err(Failure::new("invalid_side: expected before or after"))
        }
    }
}

/// The two sides have different names, so that a side is read back from its name.
pub proof fn law_sides_round_trip(side: SourceSide, other: SourceSide)
    requires
        side.name() == other.name(),
    ensures
        side == other,
{
    reveal_strlit("before");
    reveal_strlit("after");
    assert("before"@.len() != "after"@.len());
}

/// A span of bytes.
#[derive(Clone, Copy, Debug, PartialEq, Eq, Structural)]
pub struct ByteSpan {
    pub start: usize,
    pub end: usize,
}

/// Why a span is not one of a source with a length.
pub open spec fn span_fault(start: int, end: int, length: int) -> Option<Seq<char>> {
    if start > end {
        Some("invalid_span: start is after end"@)
    } else if end > length {
        Some("invalid_span: end is beyond the source"@)
    } else {
        None
    }
}

impl ByteSpan {
    /// The span between two places of a source with a length.
    pub fn within(start: usize, end: usize, length: usize) -> (result: Result<Self, Failure>)
        ensures
            match span_fault(start as int, end as int, length as int) {
                Some(fault) => result is Err && text::plain(result->Err_0, fault),
                None => result == Ok::<Self, Failure>(ByteSpan { start, end }),
            },
    {
        if start > end {
            return Err(Failure::new("invalid_span: start is after end"));
        }
        if end > length {
            return Err(Failure::new("invalid_span: end is beyond the source"));
        }
        Ok(ByteSpan { start, end })
    }
}

/// A source as it was at a commit.
#[derive(Debug)]
pub struct HistoricalSource {
    pub repository: String,
    pub commit: String,
    pub blob: String,
    pub revision: String,
    pub path: String,
    pub span: ByteSpan,
}

/// A source that was found: its bytes, their revision, and the span of them that is shown.
#[derive(Debug)]
pub struct AcquiredSource {
    pub bytes: Vec<u8>,
    pub path: String,
    pub revision: String,
    pub span: ByteSpan,
    pub verified: bool,
    pub handle: String,
    pub side: Option<SourceSide>,
    pub historical: Option<HistoricalSource>,
    /// How many declarations were found, and where else they are.
    pub definitions: Option<(u64, Vec<String>)>,
}

impl AcquiredSource {
    pub open spec fn well_formed(&self) -> bool {
        &&& self.span.start <= self.span.end <= self.bytes.len()
        &&& self.bytes.len() <= source::MAX_READ_BYTES
    }
}

/// The revision of some bytes.
pub open spec fn revision_of(bytes: Seq<u8>) -> Seq<char> {
    digest::hex(digest::blake3_digest(bytes))
}

/// What is known of a source in an index.
#[derive(Debug)]
pub struct Hit {
    pub path: String,
    pub revision: Option<String>,
    pub start: usize,
    pub end: usize,
    pub start_line: usize,
    pub end_line: usize,
    pub name: String,
    pub kind: String,
    pub provenance: Option<String>,
}

/// Whether a text is a UUID for the `uuid` crate.
pub uninterp spec fn uuid_text(text: Seq<char>) -> bool;

/// `uuid::Uuid::parse_str` accepts a text or not, by the text alone.
#[verifier::external_body]
pub(crate) fn is_uuid(text: &str) -> (yes: bool)
    ensures
        yes == uuid_text(text@),
{
    uuid::Uuid::parse_str(text).is_ok()
}

/// The last place of a character, or -1.
pub open spec fn last_place(s: Seq<char>, c: char) -> int
    decreases s.len(),
{
    if s.len() == 0 {
        -1
    } else if s.last() == c {
        s.len() - 1
    } else {
        last_place(s.drop_last(), c)
    }
}

fn find_last(s: &[char], c: char) -> (at: Option<usize>)
    ensures
        match at {
            Some(at) => last_place(s@, c) == at && at < s.len(),
            None => last_place(s@, c) == -1,
        },
{
    let mut n: usize = s.len();
    assert(s@.take(n as int) =~= s@);
    while n > 0
        invariant
            n <= s.len(),
            last_place(s@, c) == last_place(s@.take(n as int), c),
        decreases n,
    {
        if s[n - 1] == c {
            return Some(n - 1);
        }
        assert(s@.take(n as int).drop_last() =~= s@.take(n - 1));
        n -= 1;
    }
    None
}

/// What comes before the last place of a character, and what comes behind it.
pub open spec fn split_last(s: Seq<char>, c: char) -> Option<(Seq<char>, Seq<char>)> {
    let at = last_place(s, c);
    if at < 0 {
        None
    } else {
        Some((s.take(at), s.skip(at + 1)))
    }
}

/// A pair of texts, as it is seen.
pub open spec fn pair_view(pair: Option<(Vec<char>, Vec<char>)>) -> Option<(Seq<char>, Seq<char>)> {
    match pair {
        Some((a, b)) => Some((a@, b@)),
        None => None,
    }
}

fn rsplit_once(s: &[char], c: char) -> (pair: Option<(Vec<char>, Vec<char>)>)
    ensures
        pair_view(pair) == split_last(s@, c),
{
    match find_last(s, c) {
        Some(at) => {
            let head = vstd::slice::slice_to_vec(&s[0..at]);
            let tail = vstd::slice::slice_to_vec(&s[at + 1..s.len()]);
            assert(head@ =~= s@.take(at as int));
            assert(tail@ =~= s@.skip(at + 1));
            Some((head, tail))
        },
        None => None,
    }
}

/// What a target names.
#[derive(Debug)]
pub enum Target {
    /// The rest of a source, from an offset.
    Cursor { handle: String, side: Option<SourceSide>, offset: String },
    /// An entry of a result.
    Handle { handle: String, side: Option<SourceSide> },
    /// Lines of a file.
    Path { path: String, first: usize, last: usize },
}

/// The handle and the side in a cursor.
pub open spec fn cursor_identity(identity: Seq<char>) -> (Seq<char>, Option<SourceSide>) {
    match split_last(identity, ':') {
        Some((handle, value)) => if value == "before"@ {
            (handle, Some(SourceSide::Before))
        } else if value == "after"@ {
            (handle, Some(SourceSide::After))
        } else {
            (identity, None)
        },
        None => (identity, None),
    }
}

/// Whether `result` is what a cursor names.
pub open spec fn is_cursor(
    rest: Seq<char>,
    side: Option<SourceSide>,
    result: Result<Target, Failure>,
) -> bool {
    match split_last(rest, '@') {
        None => result is Err && text::plain(
            result->Err_0,
            "invalid_cursor: expected read:HANDLE@BYTE_OFFSET"@,
        ),
        Some((identity, offset)) => {
            let (handle, recorded) = cursor_identity(identity);
            if side is Some && side != recorded {
                result is Err && text::plain(
                    result->Err_0,
                    "invalid_side: continuation side cannot change"@,
                )
            } else {
                result matches Ok(Target::Cursor { handle: named, side: kept, offset: at })
                    && named@ == handle && kept == recorded && at@ == offset
            }
        },
    }
}

/// Whether `result` is the file and the lines that a target names.
pub open spec fn is_path_target(rest: Seq<char>, result: Result<Target, Failure>) -> bool {
    let target = if text::begins_with(rest, "path:"@) {
        rest.skip(5)
    } else {
        rest
    };
    match split_last(target, ':') {
        Some((path, range)) => {
            let dash = crate::store::module_config::first_place(range, '-');
            if dash >= 0 {
                match text::number_read(range.take(dash), usize::MAX as nat) {
                    Err(fault) => result is Err && text::plain(result->Err_0, fault),
                    Ok(first) => match text::number_read(
                        range.skip(dash + 1),
                        usize::MAX as nat,
                    ) {
                        Err(fault) => result is Err && text::plain(result->Err_0, fault),
                        Ok(last) => result matches Ok(Target::Path { path: named, first: a, last: b })
                            && named@ == path && a == first && b == last,
                    },
                }
            } else {
                result matches Ok(Target::Path { path: named, first, last }) && named@ == target
                    && first == 1 && last == usize::MAX
            }
        },
        None => result matches Ok(Target::Path { path: named, first, last }) && named@ == target
            && first == 1 && last == usize::MAX,
    }
}

/// Whether a target is an entry of a result: a handle of its own, or a UUID and something
/// behind a colon.
pub open spec fn names_entry(target: Seq<char>, is_handle: bool) -> bool {
    is_handle || (split_last(target, ':') matches Some((id, _)) && uuid_text(id))
}

/// Whether `result` is what a target names; `entry` tells whether it names a saved entry.
pub open spec fn target_read(
    target: Seq<char>,
    side: Option<SourceSide>,
    entry: bool,
    result: Result<Target, Failure>,
) -> bool {
    if text::begins_with(target, "read:"@) {
        is_cursor(target.skip(5), side, result)
    } else if entry {
        result matches Ok(Target::Handle { handle, side: kept }) && handle@ == target && kept
            == side
    } else if side is Some {
        result is Err && text::plain(
            result->Err_0,
            "invalid_side: side requires a historical change handle"@,
        )
    } else {
        is_path_target(target, result)
    }
}

fn parse_cursor(rest: &[char], side: Option<SourceSide>) -> (result: Result<Target, Failure>)
    ensures
        is_cursor(rest@, side, result),
{
    let (identity, offset) = match rsplit_once(rest, '@') {
        Some(pair) => pair,
        None => {
            return Err(Failure::new("invalid_cursor: expected read:HANDLE@BYTE_OFFSET"));
        },
    };
    let mut handle = text::text_of(identity.as_slice());
    let mut recorded: Option<SourceSide> = None;
    match rsplit_once(identity.as_slice(), ':') {
        Some((head, value)) => {
            let value = text::text_of(value.as_slice());
            if text::same_text(value.as_str(), "before") {
                handle = text::text_of(head.as_slice());
                recorded = Some(SourceSide::Before);
            } else if text::same_text(value.as_str(), "after") {
                handle = text::text_of(head.as_slice());
                recorded = Some(SourceSide::After);
            }
        },
        None => {},
    }
    proof {
        reveal_strlit("before");
        reveal_strlit("after");
        assert("before"@.len() != "after"@.len());
    }
    let changed = match side {
        Some(side) => match recorded {
            Some(recorded) => side != recorded,
            None => true,
        },
        None => false,
    };
    if changed {
        return Err(Failure::new("invalid_side: continuation side cannot change"));
    }
    Ok(Target::Cursor { handle, side: recorded, offset: text::text_of(offset.as_slice()) })
}

fn parse_path(rest: &[char]) -> (result: Result<Target, Failure>)
    ensures
        is_path_target(rest@, result),
{
    let prefix = text::chars_of("path:");
    proof {
        reveal_strlit("path:");
    }
    let target = if rest.len() >= 5 && text::text_at(rest, prefix.as_slice(), 0) {
        let target = &rest[5..rest.len()];
        assert(target@ =~= rest@.skip(5));
        target
    } else {
        rest
    };
    let whole = Target::Path { path: text::text_of(target), first: 1, last: usize::MAX };
    match rsplit_once(target, ':') {
        None => Ok(whole),
        Some((path, range)) => match crate::store::module_config::find(range.as_slice(), '-') {
            None => Ok(whole),
            Some(dash) => {
                let head = &range.as_slice()[0..dash];
                let tail = &range.as_slice()[dash + 1..range.len()];
                assert(head@ =~= range@.take(dash as int));
                assert(tail@ =~= range@.skip(dash + 1));
                let first = match text::read_number(head, usize::MAX as u64) {
                    Ok(first) => first,
                    Err(failure) => {
                        return Err(failure);
                    },
                };
                match text::read_number(tail, usize::MAX as u64) {
                    Ok(last) => Ok(
                        Target::Path {
                            path: text::text_of(path.as_slice()),
                            first: first as usize,
                            last: last as usize,
                        },
                    ),
                    Err(failure) => Err(failure),
                }
            },
        },
    }
}

/// What a target names; `entry` tells whether it names a saved entry.
pub fn target_of(target: &str, side: Option<SourceSide>, entry: bool) -> (result: Result<
    Target,
    Failure,
>)
    ensures
        target_read(target@, side, entry, result),
{
    let chars = text::chars_of(target);
    let prefix = text::chars_of("read:");
    proof {
        reveal_strlit("read:");
    }
    if chars.len() >= 5 && text::text_at(chars.as_slice(), prefix.as_slice(), 0) {
        let rest = &chars.as_slice()[5..chars.len()];
        assert(rest@ =~= target@.skip(5));
        return parse_cursor(rest, side);
    }
    if entry {
        return Ok(Target::Handle { handle: target.to_owned(), side });
    }
    if side.is_some() {
        return Err(Failure::new("invalid_side: side requires a historical change handle"));
    }
    parse_path(chars.as_slice())
}

/// What a target names; `is_handle` tells whether the whole of it is a handle.
pub fn parse_target(target: &str, side: Option<SourceSide>, is_handle: bool) -> (result: Result<
    Target,
    Failure,
>)
    ensures
        target_read(target@, side, names_entry(target@, is_handle), result),
{
    let chars = text::chars_of(target);
    let entry = is_handle || match rsplit_once(chars.as_slice(), ':') {
        Some((id, _)) => is_uuid(text::text_of(id.as_slice()).as_str()),
        None => false,
    };
    target_of(target, side, entry)
}

/// Whether `result` is a source from an offset on.
pub open spec fn continued(
    found: AcquiredSource,
    offset: Seq<char>,
    result: Result<AcquiredSource, Failure>,
) -> bool {
    match text::number_read(offset, usize::MAX as nat) {
        Err(fault) => result is Err && text::under(
            result->Err_0,
            "invalid_cursor: invalid byte offset"@,
            fault,
            false,
        ),
        Ok(offset) => if found.span.start <= offset <= found.span.end {
            result == Ok::<AcquiredSource, Failure>(
                AcquiredSource {
                    span: ByteSpan { start: offset as usize, end: found.span.end },
                    ..found
                },
            )
        } else {
            result is Err && text::plain(
                result->Err_0,
                "invalid_cursor: offset outside original source range"@,
            )
        },
    }
}

/// A source from an offset on, which must be inside of its span.
pub fn continue_at(found: AcquiredSource, offset: &str) -> (result: Result<AcquiredSource, Failure>)
    ensures
        continued(found, offset@, result),
{
    let chars = text::chars_of(offset);
    match text::read_number(chars.as_slice(), usize::MAX as u64) {
        Err(failure) => {
            Err(
                Failure::caused(
                    "invalid_cursor: invalid byte offset".to_owned(),
                    failure.message.as_str(),
                    false,
                ),
            )
        },
        Ok(offset) => {
            let offset: usize = offset as usize;
            if offset < found.span.start || offset > found.span.end {
                return Err(
                    Failure::new("invalid_cursor: offset outside original source range"),
                );
            }
            let end = found.span.end;
            let mut found = found;
            found.span = ByteSpan { start: offset, end };
            Ok(found)
        },
    }
}

/// Whether `result` is a source of the index, verified against its revision, once it was read.
pub open spec fn verified_live(
    handle: Seq<char>,
    hit: Hit,
    read: Result<Vec<u8>, Failure>,
    result: Result<AcquiredSource, Failure>,
) -> bool {
    match read {
        Err(failure) => result == Err::<AcquiredSource, Failure>(failure),
        Ok(bytes) => {
            let start = if hit.kind@ == "file"@ {
                0
            } else {
                hit.start as int
            };
            let end = if hit.kind@ == "file"@ {
                bytes.len() as int
            } else {
                hit.end as int
            };
            if revision_of(bytes@) != hit.revision->0@ {
                result is Err && text::plain(
                    result->Err_0,
                    "stale_source: source revision changed; search again or use explicit current path coordinates"@,
                )
            } else {
                match span_fault(start, end, bytes.len() as int) {
                    Some(fault) => result is Err && text::plain(result->Err_0, fault),
                    None => result matches Ok(found) && {
                        &&& found.bytes@ == bytes@
                        &&& found.path@ == hit.path@
                        &&& found.revision@ == revision_of(bytes@)
                        &&& found.span == ByteSpan { start: start as usize, end: end as usize }
                        &&& found.verified
                        &&& found.handle@ == handle
                        &&& found.side is None
                        &&& found.historical is None
                        &&& found.definitions is None
                    },
                }
            }
        },
    }
}

/// Whether the file that an entry of a result names may be read: only where it names a file
/// below the root, and no side is asked for.
pub open spec fn may_read_live<R: FnOnce(Vec<u8>) -> Result<Vec<u8>, Failure>>(
    hit: Hit,
    side: Option<SourceSide>,
    read: R,
) -> bool {
    forall|path: Vec<u8>|
        side is None && hit.revision is Some && store_paths::path_of(
            utf8::encode_utf8(hit.path@),
        ) == Ok::<Seq<u8>, Seq<char>>(path@) ==> #[trigger] call_requires(read, (path,))
}

/// Whether `result` is a source of the index that an entry of a result names.
pub open spec fn live_acquired<R: FnOnce(Vec<u8>) -> Result<Vec<u8>, Failure>>(
    handle: Seq<char>,
    hit: Hit,
    side: Option<SourceSide>,
    read: R,
    result: Result<AcquiredSource, Failure>,
) -> bool {
    if side is Some {
        result is Err && text::plain(
            result->Err_0,
            "invalid_side: live sources have no historical side"@,
        )
    } else if hit.revision is None {
        result is Err && text::plain(
            result->Err_0,
            "source_excluded: no indexed source revision"@,
        )
    } else {
        match store_paths::path_of(utf8::encode_utf8(hit.path@)) {
            Err(fault) => result is Err && text::plain(result->Err_0, fault),
            Ok(path) => exists|relative: Vec<u8>, outcome: Result<Vec<u8>, Failure>|
                relative@ == path && #[trigger] call_ensures(read, (relative,), outcome)
                    && verified_live(handle, hit, outcome, result),
        }
    }
}

/// The source of the index that an entry of a result names; `read` gets the bytes of a file
/// below the root.
pub fn acquire_live<R: FnOnce(Vec<u8>) -> Result<Vec<u8>, Failure>>(
    handle: &str,
    hit: Hit,
    side: Option<SourceSide>,
    read: R,
) -> (result: Result<AcquiredSource, Failure>)
    requires
        may_read_live(hit, side, read),
    ensures
        live_acquired(handle@, hit, side, read, result),
{
    if side.is_some() {
        return Err(Failure::new("invalid_side: live sources have no historical side"));
    }
    if hit.revision.is_none() {
        return Err(Failure::new("source_excluded: no indexed source revision"));
    }
    let relative = match store_paths::decode_path(hit.path.as_str()) {
        Ok(relative) => relative,
        Err(failure) => {
            return Err(failure);
        },
    };
    let ghost named = relative;
    let outcome = read(relative);
    let ghost given = outcome;
    assert(call_ensures(read, (named,), given));
    let bytes = match outcome {
        Ok(bytes) => bytes,
        Err(failure) => {
            return Err(failure);
        },
    };
    let revision = digest::blake3_hex(bytes.as_slice());
    let same = match &hit.revision {
        Some(expected) => text::same_text(revision.as_str(), expected.as_str()),
        None => false,
    };
    if !same {
        return Err(
            Failure::new(
                "stale_source: source revision changed; search again or use explicit current path coordinates",
            ),
        );
    }
    let file = text::same_text(hit.kind.as_str(), "file");
    let start: usize = if file {
        0
    } else {
        hit.start
    };
    let end: usize = if file {
        bytes.len()
    } else {
        hit.end
    };
    match ByteSpan::within(start, end, bytes.len()) {
        Err(failure) => Err(failure),
        Ok(span) => Ok(
            AcquiredSource {
                bytes,
                path: hit.path,
                revision,
                span,
                verified: true,
                handle: handle.to_owned(),
                side: None,
                historical: None,
                definitions: None,
            },
        ),
    }
}

/// Whether `result` is the side of a change that was asked for.
pub open spec fn side_chosen(
    before: Option<HistoricalSource>,
    after: Option<HistoricalSource>,
    side: Option<SourceSide>,
    result: Result<(SourceSide, HistoricalSource), Failure>,
) -> bool {
    match side {
        None => result is Err && text::plain(
            result->Err_0,
            "side_required: show a change with --side before or after"@,
        ),
        Some(side) => match if side == SourceSide::Before {
            before
        } else {
            after
        } {
            None => result is Err && text::plain(
                result->Err_0,
                "source_unavailable: change has no source on the requested side"@,
            ),
            Some(identity) => result == Ok::<(SourceSide, HistoricalSource), Failure>(
                (side, identity),
            ),
        },
    }
}

/// The side of a change that was asked for.
fn choose_side(
    before: Option<HistoricalSource>,
    after: Option<HistoricalSource>,
    side: Option<SourceSide>,
) -> (result: Result<(SourceSide, HistoricalSource), Failure>)
    ensures
        side_chosen(before, after, side, result),
{
    let side = match side {
        Some(side) => side,
        None => {
            return Err(
                Failure::new("side_required: show a change with --side before or after"),
            );
        },
    };
    let identity = match side {
        SourceSide::Before => before,
        SourceSide::After => after,
    };
    match identity {
        Some(identity) => Ok((side, identity)),
        None => Err(
            Failure::new("source_unavailable: change has no source on the requested side"),
        ),
    }
}

/// Whether `result` is the path of a source as it was at a commit, in this repository and below
/// its root.
pub open spec fn historical_path_read(
    identity: HistoricalSource,
    common_dir: Seq<u8>,
    result: Result<Vec<u8>, Failure>,
) -> bool {
    match store_paths::path_of(utf8::encode_utf8(identity.repository@)) {
        Err(fault) => result is Err && text::plain(result->Err_0, fault),
        Ok(repository) => if !paths::same_components(repository, common_dir) {
            result is Err && text::plain(
                result->Err_0,
                "scope_boundary: historical source belongs to another repository"@,
            )
        } else {
            match store_paths::path_of(utf8::encode_utf8(identity.path@)) {
                Err(fault) => result is Err && text::plain(result->Err_0, fault),
                Ok(path) => if paths::plain_path(path) {
                    result is Ok && result->Ok_0@ == path
                } else {
                    result is Err && text::plain(
                        result->Err_0,
                        "scope_boundary: historical path is outside configured root"@,
                    )
                },
            }
        },
    }
}

/// The path of a source as it was at a commit. `common_dir` is the directory of this
/// repository.
fn historical_path(identity: &HistoricalSource, common_dir: &[u8]) -> (result: Result<
    Vec<u8>,
    Failure,
>)
    ensures
        historical_path_read(*identity, common_dir@, result),
{
    let repository = match store_paths::decode_path(identity.repository.as_str()) {
        Ok(repository) => repository,
        Err(failure) => {
            return Err(failure);
        },
    };
    if !paths::same_path(repository.as_slice(), common_dir) {
        return Err(
            Failure::new("scope_boundary: historical source belongs to another repository"),
        );
    }
    let path = match store_paths::decode_path(identity.path.as_str()) {
        Ok(path) => path,
        Err(failure) => {
            return Err(failure);
        },
    };
    match paths::plain_names(path.as_slice()) {
        Some(_) => Ok(path),
        None => Err(
            Failure::new("scope_boundary: historical path is outside configured root"),
        ),
    }
}

/// What comes before the first tab.
pub open spec fn before_tab(entry: Seq<u8>) -> Seq<u8>
    decreases entry.len(),
{
    if entry.len() == 0 || entry[0] == 9 {
        Seq::empty()
    } else {
        seq![entry[0]] + before_tab(entry.skip(1))
    }
}

fn take_header(entry: &[u8]) -> (header: Vec<u8>)
    ensures
        header@ == before_tab(entry@),
{
    let mut header: Vec<u8> = Vec::new();
    let mut i: usize = 0;
    assert(entry@.skip(0) =~= entry@);
    assert(Seq::<u8>::empty() + before_tab(entry@) =~= before_tab(entry@));
    while i < entry.len() && entry[i] != 9
        invariant
            i <= entry.len(),
            before_tab(entry@) == header@ + before_tab(entry@.skip(i as int)),
        decreases entry.len() - i,
    {
        let ghost rest = entry@.skip(i as int);
        let ghost before = header@;
        header.push(entry[i]);
        proof {
            assert(rest.skip(1) =~= entry@.skip(i + 1));
            assert(before + (seq![rest[0]] + before_tab(rest.skip(1))) =~= header@ + before_tab(
                rest.skip(1),
            ));
        }
        i += 1;
    }
    assert(header@ + Seq::<u8>::empty() =~= header@);
    header
}

/// Whether an entry of a tree is a regular file with the blob that was recorded, or why not.
pub open spec fn tree_fault(entry: Seq<u8>, blob: Seq<char>) -> Option<Seq<char>> {
    let header = before_tab(entry);
    let fields = text::words(utf8::decode_utf8(header));
    if !utf8::valid_utf8(header) {
        Some(unicode::decoding_fault(header))
    } else if !(fields.len() > 0 && (fields[0] == "100644"@ || fields[0] == "100755"@)) {
        Some("source_unavailable: historical path missing or not a regular file"@)
    } else if !(fields.len() > 2 && fields[1] == "blob"@ && fields[2] == blob) {
        Some("source_unavailable: historical path does not identify recorded blob"@)
    } else {
        None
    }
}

/// Checks that an entry of a tree is a regular file with the blob that was recorded.
fn check_tree_entry(entry: &[u8], blob: &str) -> (result: Result<(), Failure>)
    ensures
        match tree_fault(entry@, blob@) {
            Some(fault) => result is Err && text::plain(result->Err_0, fault),
            None => result is Ok,
        },
{
    let header = take_header(entry);
    let line = match unicode::strict_text(header.as_slice()) {
        Ok(line) => line,
        Err(fault) => return Err(Failure::new(fault.as_str())),
    };
    let chars = text::chars_of(line.as_str());
    let fields = text::words_of(chars.as_slice());
    let ghost all = text::views(fields@);
    assert(all == text::words(utf8::decode_utf8(header@)));
    let regular = fields.len() > 0 && {
        assert(all[0] == fields@[0]@);
        let mode = text::text_of(fields[0].as_slice());
        text::same_text(mode.as_str(), "100644") || text::same_text(mode.as_str(), "100755")
    };
    if !regular {
        return Err(
            Failure::new("source_unavailable: historical path missing or not a regular file"),
        );
    }
    let recorded = fields.len() > 2 && {
        assert(all[1] == fields@[1]@);
        assert(all[2] == fields@[2]@);
        let kind = text::text_of(fields[1].as_slice());
        let found = text::text_of(fields[2].as_slice());
        text::same_text(kind.as_str(), "blob") && text::same_text(found.as_str(), blob)
    };
    if !recorded {
        return Err(
            Failure::new("source_unavailable: historical path does not identify recorded blob"),
        );
    }
    Ok(())
}

/// Whether `result` is a source as it was at a commit, verified against its revision, given the
/// bytes of its blob.
pub open spec fn verified_blob(
    handle: Seq<char>,
    side: SourceSide,
    identity: HistoricalSource,
    bytes: Seq<u8>,
    result: Result<AcquiredSource, Failure>,
) -> bool {
    if revision_of(bytes) != identity.revision@ {
        result is Err && text::plain(
            result->Err_0,
            "source_unavailable: historical content revision does not match recorded identity"@,
        )
    } else {
        match span_fault(
            identity.span.start as int,
            identity.span.end as int,
            bytes.len() as int,
        ) {
            Some(fault) => result is Err && text::plain(result->Err_0, fault),
            None => result matches Ok(found) && {
                &&& found.bytes@ == bytes
                &&& found.path@ == identity.path@
                &&& found.revision@ == identity.revision@
                &&& found.span == identity.span
                &&& found.verified
                &&& found.handle@ == handle
                &&& found.side == Some(side)
                &&& found.historical == Some(identity)
                &&& found.definitions is None
            },
        }
    }
}

/// A source as it was at a commit, verified against its revision, given the bytes of its blob.
pub fn verify_blob(
    handle: &str,
    side: SourceSide,
    identity: HistoricalSource,
    bytes: Vec<u8>,
) -> (result: Result<AcquiredSource, Failure>)
    ensures
        verified_blob(handle@, side, identity, bytes@, result),
{
    let revision = digest::blake3_hex(bytes.as_slice());
    if !text::same_text(revision.as_str(), identity.revision.as_str()) {
        return Err(
            Failure::new(
                "source_unavailable: historical content revision does not match recorded identity",
            ),
        );
    }
    match ByteSpan::within(identity.span.start, identity.span.end, bytes.len()) {
        Err(failure) => Err(failure),
        Ok(span) => Ok(
            AcquiredSource {
                bytes,
                path: identity.path.clone(),
                revision,
                span,
                verified: true,
                handle: handle.to_owned(),
                side: Some(side),
                historical: Some(identity),
                definitions: None,
            },
        ),
    }
}

/// Whether `result` is what the blob of a source comes to.
pub open spec fn blob_read(
    handle: Seq<char>,
    side: SourceSide,
    identity: HistoricalSource,
    blob: Result<Vec<u8>, Failure>,
    result: Result<AcquiredSource, Failure>,
) -> bool {
    match blob {
        Err(failure) => {
            &&& result is Err
            &&& text::under(
                result->Err_0,
                "source_unavailable: historical blob is unavailable"@,
                failure.message@,
                failure.transport,
            )
        },
        Ok(bytes) => verified_blob(handle, side, identity, bytes@, result),
    }
}

/// Whether `result` is a source as it was at a commit: in this repository, below its root, a
/// regular file with the blob that was recorded, and with the revision that was recorded.
pub open spec fn historical_acquired<
    T: FnOnce(Vec<u8>) -> Result<Vec<u8>, Failure>,
    B: FnOnce() -> Result<Vec<u8>, Failure>,
>(
    handle: Seq<char>,
    side: SourceSide,
    identity: HistoricalSource,
    common_dir: Seq<u8>,
    tree: T,
    blob: B,
    result: Result<AcquiredSource, Failure>,
) -> bool {
    exists|path: Result<Vec<u8>, Failure>| #[trigger]
        historical_path_read(identity, common_dir, path) && match path {
            Err(failure) => result == Err::<AcquiredSource, Failure>(failure),
            Ok(path) => exists|entry: Result<Vec<u8>, Failure>| #[trigger]
                call_ensures(tree, (path,), entry) && match entry {
                    Err(failure) => result == Err::<AcquiredSource, Failure>(failure),
                    Ok(entry) => match tree_fault(entry@, identity.blob@) {
                        Some(fault) => result is Err && text::plain(result->Err_0, fault),
                        None => exists|bytes: Result<Vec<u8>, Failure>| #[trigger]
                            call_ensures(blob, (), bytes) && blob_read(
                                handle,
                                side,
                                identity,
                                bytes,
                                result,
                            ),
                    },
                },
        }
}

/// Whether the entry of a path at a commit may be read, and its blob where that is the one that
/// was recorded.
pub open spec fn may_read_at<
    T: FnOnce(Vec<u8>) -> Result<Vec<u8>, Failure>,
    B: FnOnce() -> Result<Vec<u8>, Failure>,
>(identity: HistoricalSource, path: Vec<u8>, tree: T, blob: B) -> bool {
    &&& call_requires(tree, (path,))
    &&& forall|entry: Vec<u8>|
        #[trigger] call_ensures(tree, (path,), Ok::<Vec<u8>, Failure>(entry)) && tree_fault(
            entry@,
            identity.blob@,
        ) is None ==> call_requires(blob, ())
}

/// A source as it was at a commit. `common_dir` is the directory of this repository; `tree`
/// gives the entry of a path at that commit, and `blob` the bytes of the recorded blob.
pub fn acquire_historical<
    T: FnOnce(Vec<u8>) -> Result<Vec<u8>, Failure>,
    B: FnOnce() -> Result<Vec<u8>, Failure>,
>(
    handle: &str,
    side: SourceSide,
    identity: HistoricalSource,
    common_dir: &[u8],
    tree: T,
    blob: B,
) -> (result: Result<AcquiredSource, Failure>)
    requires
        forall|path: Vec<u8>| #[trigger]
            historical_path_read(identity, common_dir@, Ok(path)) ==> may_read_at(
                identity,
                path,
                tree,
                blob,
            ),
    ensures
        historical_acquired(handle@, side, identity, common_dir@, tree, blob, result),
{
    let path = historical_path(&identity, common_dir);
    let ghost read = path;
    assert(historical_path_read(identity, common_dir@, read));
    let path = match path {
        Ok(path) => path,
        Err(failure) => {
            return Err(failure);
        },
    };
    let ghost named = path;
    let entry = tree(path);
    let ghost found = entry;
    assert(call_ensures(tree, (named,), found));
    let entry = match entry {
        Ok(entry) => entry,
        Err(failure) => {
            return Err(failure);
        },
    };
    match check_tree_entry(entry.as_slice(), identity.blob.as_str()) {
        Ok(_) => {},
        Err(failure) => {
            return Err(failure);
        },
    }
    let bytes = blob();
    let ghost given = bytes;
    assert(call_ensures(blob, (), given));
    match bytes {
        Ok(bytes) => verify_blob(handle, side, identity, bytes),
        Err(failure) => Err(
            Failure::caused(
                "source_unavailable: historical blob is unavailable".to_owned(),
                failure.message.as_str(),
                failure.transport,
            ),
        ),
    }
}

/// An entry of a result.
#[derive(Debug)]
pub enum ResultEntry {
    LiveSource(Hit),
    Change { before: Option<HistoricalSource>, after: Option<HistoricalSource> },
    Commit,
}

/// Whether `result` is the source that an entry of a result names.
pub open spec fn entry_acquired<
    R: FnOnce(Vec<u8>) -> Result<Vec<u8>, Failure>,
    H: FnOnce(SourceSide, HistoricalSource) -> Result<AcquiredSource, Failure>,
>(
    handle: Seq<char>,
    entry: ResultEntry,
    side: Option<SourceSide>,
    read: R,
    historical: H,
    result: Result<AcquiredSource, Failure>,
) -> bool {
    match entry {
        ResultEntry::LiveSource(hit) => live_acquired(handle, hit, side, read, result),
        ResultEntry::Change { before, after } => exists|
            chosen: Result<(SourceSide, HistoricalSource), Failure>,
        | #[trigger]
            side_chosen(before, after, side, chosen) && match chosen {
                Err(failure) => result == Err::<AcquiredSource, Failure>(failure),
                Ok((side, identity)) => call_ensures(historical, (side, identity), result),
            },
        ResultEntry::Commit => result is Err && text::plain(
            result->Err_0,
            "source_unavailable: commit entries contain metadata; select a change source"@,
        ),
    }
}

/// Whether the source that an entry of a result names may be read, below the root or as it was
/// at a commit.
pub open spec fn may_acquire<
    R: FnOnce(Vec<u8>) -> Result<Vec<u8>, Failure>,
    H: FnOnce(SourceSide, HistoricalSource) -> Result<AcquiredSource, Failure>,
>(entry: ResultEntry, side: Option<SourceSide>, read: R, historical: H) -> bool {
    match entry {
        ResultEntry::LiveSource(hit) => may_read_live(hit, side, read),
        ResultEntry::Change { before, after } => forall|
            chosen: SourceSide,
            identity: HistoricalSource,
        | #[trigger]
            side_chosen(before, after, side, Ok((chosen, identity))) ==> call_requires(
                historical,
                (chosen, identity),
            ),
        ResultEntry::Commit => true,
    }
}

/// The source that an entry of a result names; `read` gets the bytes of a file below the root,
/// and `historical` finds a source as it was at a commit.
pub fn acquire_entry<
    R: FnOnce(Vec<u8>) -> Result<Vec<u8>, Failure>,
    H: FnOnce(SourceSide, HistoricalSource) -> Result<AcquiredSource, Failure>,
>(
    handle: &str,
    entry: ResultEntry,
    side: Option<SourceSide>,
    read: R,
    historical: H,
) -> (result: Result<AcquiredSource, Failure>)
    requires
        may_acquire(entry, side, read, historical),
    ensures
        entry_acquired(handle@, entry, side, read, historical, result),
{
    match entry {
        ResultEntry::LiveSource(hit) => acquire_live(handle, hit, side, read),
        ResultEntry::Change { before, after } => {
            let chosen = choose_side(before, after, side);
            let ghost given = chosen;
            assert(side_chosen(before, after, side, given));
            match chosen {
                Err(failure) => Err(failure),
                Ok((side, identity)) => historical(side, identity),
            }
        },
        ResultEntry::Commit => Err(
            Failure::new(
                "source_unavailable: commit entries contain metadata; select a change source",
            ),
        ),
    }
}

/// Whether a hit records the lines of a file that were read.
pub open spec fn records_read(path: Seq<char>, bytes: Seq<u8>, start: int, end: int, hit: Hit) -> bool {
    &&& hit.path@ == path
    &&& hit.revision is Some
    &&& hit.revision->0@ == revision_of(bytes)
    &&& hit.start == start
    &&& hit.end == end
    &&& hit.start_line == source::line_of(bytes, start)
    &&& hit.end_line == source::line_of(
        bytes,
        if end > start {
            end - 1
        } else {
            start
        },
    )
    &&& hit.name@ == path
    &&& hit.kind@ == "source_read"@
    &&& hit.provenance is Some
    &&& hit.provenance->0@ == "explicit_path_read"@
}

/// Whether `result` are lines of a file, once what was read is recorded.
pub open spec fn path_acquired<S: FnOnce(&Hit) -> Result<String, Failure>>(
    path: Seq<char>,
    first: int,
    last: int,
    bytes: Seq<u8>,
    save: S,
    result: Result<AcquiredSource, Failure>,
) -> bool {
    match source::span_fault(bytes, first, last) {
        Some(fault) => result is Err && text::plain(result->Err_0, fault),
        None => {
            let start = source::line_start(bytes, first)->0;
            let end = source::line_end(bytes, last);
            exists|hit: Hit, saved: Result<String, Failure>|
                records_read(path, bytes, start, end, hit) && #[trigger] call_ensures(
                    save,
                    (&hit,),
                    saved,
                ) && match saved {
                    Err(failure) => result == Err::<AcquiredSource, Failure>(failure),
                    Ok(set) => result matches Ok(found) && {
                        &&& found.bytes@ == bytes
                        &&& found.path@ == path
                        &&& found.revision@ == revision_of(bytes)
                        &&& found.span == ByteSpan { start: start as usize, end: end as usize }
                        &&& !found.verified
                        &&& found.handle@ == set@ + ":1"@
                        &&& found.side is None
                        &&& found.historical is None
                        &&& found.definitions is None
                    },
                }
        },
    }
}

/// Lines of a file as it is now; `save` records what was read, and gives the name of that
/// record.
pub fn acquire_path<S: FnOnce(&Hit) -> Result<String, Failure>>(
    path: String,
    first: usize,
    last: usize,
    bytes: Vec<u8>,
    save: S,
) -> (result: Result<AcquiredSource, Failure>)
    requires
        bytes.len() < usize::MAX,
        source::span_fault(bytes@, first as int, last as int) is None ==> forall|hit: Hit|
            #[trigger] records_read(
                path@,
                bytes@,
                source::line_start(bytes@, first as int)->0,
                source::line_end(bytes@, last as int),
                hit,
            ) ==> call_requires(save, (&hit,)),
    ensures
        path_acquired(path@, first as int, last as int, bytes@, save, result),
{
    let (start, end) = match source::current_span(bytes.as_slice(), first, last) {
        Ok(span) => span,
        Err(failure) => {
            return Err(failure);
        },
    };
    let revision = digest::blake3_hex(bytes.as_slice());
    let (start_line, end_line) = source::line_span(bytes.as_slice(), start, end);
    let hit = Hit {
        path: path.clone(),
        revision: Some(revision.clone()),
        start,
        end,
        start_line,
        end_line,
        name: path.clone(),
        kind: "source_read".to_owned(),
        provenance: Some("explicit_path_read".to_owned()),
    };
    assert(records_read(
        path@,
        bytes@,
        source::line_start(bytes@, first as int)->0,
        source::line_end(bytes@, last as int),
        hit,
    ));
    let saved = save(&hit);
    let ghost given = saved;
    assert(call_ensures(save, (&hit,), given));
    match saved {
        Err(failure) => Err(failure),
        Ok(set) => {
            let mut handle = set;
            handle.append(":1");
            Ok(
                AcquiredSource {
                    bytes,
                    path,
                    revision,
                    span: ByteSpan { start, end },
                    verified: false,
                    handle,
                    side: None,
                    historical: None,
                    definitions: None,
                },
            )
        },
    }
}

} // verus!
