//! What holds of what a target names, and of where sources are taken from.

use crate::digest;
use crate::paths;
use crate::source;
use crate::source::acquisition;
use crate::source::acquisition::AcquiredSource;
use crate::source::acquisition::HistoricalSource;
use crate::source::acquisition::Hit;
use crate::source::acquisition::SourceSide;
use crate::source::acquisition::Target;
use crate::store::paths as store_paths;
use crate::text;
use crate::text::Failure;
use crate::text_laws;
use crate::unicode;
use vstd::prelude::*;
use vstd::utf8;

verus! {

proof fn lemma_no_last_place(s: Seq<char>, c: char)
    requires
        text_laws::is_free_of(s, c),
    ensures
        acquisition::last_place(s, c) == -1,
    decreases s.len(),
{
    if s.len() > 0 {
        let less = s.drop_last();
        assert forall|i: int| 0 <= i < less.len() implies #[trigger] less[i] != c by {
            assert(less[i] == s[i]);
        }
        lemma_no_last_place(less, c);
        assert(s.last() == s[s.len() - 1]);
    }
}

proof fn lemma_last_place_between(front: Seq<char>, c: char, back: Seq<char>)
    requires
        text_laws::is_free_of(back, c),
    ensures
        acquisition::last_place(front + seq![c] + back, c) == front.len(),
    decreases back.len(),
{
    let whole = front + seq![c] + back;
    if back.len() == 0 {
        assert(whole.last() == c);
    } else {
        let less = back.drop_last();
        assert forall|i: int| 0 <= i < less.len() implies #[trigger] less[i] != c by {
            assert(less[i] == back[i]);
        }
        lemma_last_place_between(front, c, less);
        assert(whole.drop_last() =~= front + seq![c] + less);
        assert(whole.last() == back[back.len() - 1]);
    }
}

/// A target without a colon names a whole file, and so does one with `path:` before it.
pub proof fn law_paths_without_lines_name_whole_files(
    path: Seq<char>,
    result: Result<Target, Failure>,
)
    requires
        text_laws::is_free_of(path, ':'),
        acquisition::target_read(path, None, false, result) || acquisition::target_read(
            "path:"@ + path,
            None,
            false,
            result,
        ),
    ensures
        result is Ok,
        result->Ok_0 is Path,
        result->Ok_0->path@ == path,
        result->Ok_0->first == 1,
        result->Ok_0->last == usize::MAX,
{
    reveal_strlit("path:");
    reveal_strlit("read:");
    let front = "path:"@;
    let other = "read:"@;
    assert(front[0] == 'p' && front[4] == ':' && front.len() == 5);
    assert(other[0] == 'r' && other[4] == ':' && other.len() == 5);
    lemma_no_last_place(path, ':');
    if text::begins_with(path, front) {
        assert(path.subrange(0, 5)[4] == path[4]);
    }
    if text::begins_with(path, other) {
        assert(path.subrange(0, 5)[4] == path[4]);
    }
    let whole = front + path;
    assert(whole.subrange(0, 5) =~= front);
    assert(whole.skip(5) =~= path);
    if text::begins_with(whole, other) {
        assert(whole.subrange(0, 5)[0] == 'p');
    }
}

/// An entry of a result is named by its handle, with the side that was asked for; it is an entry
/// where the whole is a handle, or a UUID stands before its last colon.
pub proof fn law_entries_are_named_by_their_handle(
    id: Seq<char>,
    rest: Seq<char>,
    side: Option<SourceSide>,
    result: Result<Target, Failure>,
)
    requires
        acquisition::uuid_text(id),
        text_laws::is_free_of(rest, ':'),
        !text::begins_with(id + seq![':'] + rest, "read:"@),
        acquisition::target_read(
            id + seq![':'] + rest,
            side,
            acquisition::names_entry(id + seq![':'] + rest, false),
            result,
        ),
    ensures
        result is Ok,
        result->Ok_0 is Handle,
        result->Ok_0->Handle_handle@ == id + seq![':'] + rest,
        result->Ok_0->Handle_side == side,
        acquisition::names_entry(rest, true),
{
    let target = id + seq![':'] + rest;
    lemma_last_place_between(id, ':', rest);
    assert(target.take(id.len() as int) =~= id);
}

/// Lines of a file have no side: to ask for one is refused.
pub proof fn law_files_have_no_side(
    target: Seq<char>,
    side: SourceSide,
    result: Result<Target, Failure>,
)
    requires
        !text::begins_with(target, "read:"@),
        acquisition::target_read(target, Some(side), false, result),
    ensures
        result is Err,
{
}

proof fn lemma_before_tab(header: Seq<u8>, rest: Seq<u8>)
    requires
        forall|i: int| 0 <= i < header.len() ==> #[trigger] header[i] != 9,
    ensures
        acquisition::before_tab(header + seq![9u8] + rest) == header,
    decreases header.len(),
{
    let entry = header + seq![9u8] + rest;
    if header.len() > 0 {
        let less = header.skip(1);
        assert forall|i: int| 0 <= i < less.len() implies #[trigger] less[i] != 9 by {
            assert(less[i] == header[i + 1]);
        }
        lemma_before_tab(less, rest);
        assert(entry[0] == header[0]);
        assert(entry.skip(1) =~= less + seq![9u8] + rest);
        assert(seq![header[0]] + less =~= header);
    } else {
        assert(entry[0] == 9);
        assert(header =~= Seq::<u8>::empty());
    }
}

/// Whether a word says that an entry of a tree is a regular file: one that can be run, or not.
pub open spec fn is_regular(mode: Seq<char>) -> bool {
    mode == "100644"@ || mode == "100755"@
}

/// An entry of a tree is good just where it is a regular file, and its blob is the recorded one.
pub proof fn law_recorded_files_are_found_in_trees(
    mode: Seq<char>,
    kind: Seq<char>,
    id: Seq<char>,
    rest: Seq<u8>,
    blob: Seq<char>,
)
    requires
        text_laws::is_word(mode),
        text_laws::is_word(kind),
        text_laws::is_word(id),
        forall|i: int|
            0 <= i < utf8::encode_utf8(mode + seq![' '] + (kind + seq![' '] + id)).len()
                ==> #[trigger] utf8::encode_utf8(mode + seq![' '] + (kind + seq![' '] + id))[i]
                != 9,
    ensures
        acquisition::tree_fault(
            utf8::encode_utf8(mode + seq![' '] + (kind + seq![' '] + id)) + seq![9u8] + rest,
            blob,
        ) is None <==> is_regular(mode) && kind == "blob"@ && id == blob,
{
    let line = mode + seq![' '] + (kind + seq![' '] + id);
    let header = utf8::encode_utf8(line);
    lemma_before_tab(header, rest);
    utf8::encode_utf8_valid_utf8(line);
    utf8::encode_utf8_decode_utf8(line);
    assert(unicode::whitespace(' '));
    text_laws::law_words_are_parted_by_whitespace(mode, ' ', kind + seq![' '] + id);
    text_laws::law_words_are_parted_by_whitespace(kind, ' ', id);
    text_laws::law_texts_without_whitespace_are_one_word(mode);
    text_laws::law_texts_without_whitespace_are_one_word(kind);
    text_laws::law_texts_without_whitespace_are_one_word(id);
    let fields = text::words(line);
    assert(fields =~= seq![mode, kind, id]);
}

/// A source as it was at a commit is looked for just where it is of this repository, and its path
/// goes through names below the root.
pub proof fn law_past_sources_are_of_this_repository(
    identity: HistoricalSource,
    common_dir: Seq<u8>,
    result: Result<Vec<u8>, Failure>,
    repository: Seq<u8>,
    path: Seq<u8>,
)
    requires
        acquisition::historical_path_read(identity, common_dir, result),
        store_paths::path_of(utf8::encode_utf8(identity.repository@)) == Ok::<
            Seq<u8>,
            Seq<char>,
        >(repository),
        store_paths::path_of(utf8::encode_utf8(identity.path@)) == Ok::<Seq<u8>, Seq<char>>(path),
    ensures
        result is Ok <==> paths::components(repository) == paths::components(common_dir)
            && paths::plain_path(path),
        result matches Ok(found) ==> found@ == path,
{
}

/// Lines of a file are shown with the bytes that it has now, under what was recorded of them:
/// their path, their revision and their span; they are not verified.
pub proof fn law_lines_are_recorded_as_they_are_shown<S: FnOnce(&Hit) -> Result<String, Failure>>(
    path: Seq<char>,
    first: int,
    last: int,
    bytes: Seq<u8>,
    save: S,
    found: AcquiredSource,
) -> (recorded: (Hit, String))
    requires
        acquisition::path_acquired(path, first, last, bytes, save, Ok(found)),
        source::line_start(bytes, first) matches Some(start) ==> 0 <= start <= usize::MAX,
        0 <= source::line_end(bytes, last) <= usize::MAX,
    ensures
        call_ensures(save, (&recorded.0,), Ok::<String, Failure>(recorded.1)),
        found.handle@ == recorded.1@ + ":1"@,
        found.bytes@ == bytes,
        found.path@ == path,
        !found.verified,
        found.revision@ == digest::hex(digest::blake3_digest(bytes)),
        source::line_start(bytes, first) == Some(found.span.start as int),
        found.span.end == source::line_end(bytes, last),
        recorded.0.path@ == path,
        recorded.0.revision is Some,
        recorded.0.revision->0@ == found.revision@,
        recorded.0.start == found.span.start,
        recorded.0.end == found.span.end,
        recorded.0.kind@ == "source_read"@,
        recorded.0.start_line == source::line_of(bytes, found.span.start as int),
{
    let start = source::line_start(bytes, first)->0;
    let end = source::line_end(bytes, last);
    let (hit, saved) = choose|hit: Hit, saved: Result<String, Failure>|
        acquisition::records_read(path, bytes, start, end, hit) && #[trigger] call_ensures(
            save,
            (&hit,),
            saved,
        ) && match saved {
            Err(failure) => false,
            Ok(set) => {
                &&& found.bytes@ == bytes
                &&& found.path@ == path
                &&& found.revision@ == acquisition::revision_of(bytes)
                &&& found.span.start == start as usize
                &&& found.span.end == end as usize
                &&& !found.verified
                &&& found.handle@ == set@ + ":1"@
            },
        };
    (hit, saved->Ok_0)
}

/// A source as it was at a commit has the bytes of its blob, and these have the revision that was
/// recorded. It is shown with the path and the span that were recorded, and nothing else is.
pub proof fn law_past_sources_are_as_recorded<
    T: FnOnce(Vec<u8>) -> Result<Vec<u8>, Failure>,
    B: FnOnce() -> Result<Vec<u8>, Failure>,
>(
    handle: Seq<char>,
    side: SourceSide,
    identity: HistoricalSource,
    common_dir: Seq<u8>,
    tree: T,
    blob: B,
    found: AcquiredSource,
) -> (given: (Vec<u8>, Vec<u8>, Vec<u8>))
    requires
        acquisition::historical_acquired(
            handle,
            side,
            identity,
            common_dir,
            tree,
            blob,
            Ok(found),
        ),
    ensures
        acquisition::historical_path_read(identity, common_dir, Ok(given.0)),
        call_ensures(tree, (given.0,), Ok::<Vec<u8>, Failure>(given.1)),
        acquisition::tree_fault(given.1@, identity.blob@) is None,
        call_ensures(blob, (), Ok::<Vec<u8>, Failure>(given.2)),
        found.bytes@ == given.2@,
        digest::hex(digest::blake3_digest(found.bytes@)) == identity.revision@,
        found.revision@ == identity.revision@,
        found.path@ == identity.path@,
        found.span == identity.span,
        found.span.start <= found.span.end <= found.bytes@.len(),
        found.handle@ == handle,
        found.side == Some(side),
        found.verified,
{
    let path = choose|path: Result<Vec<u8>, Failure>| #[trigger]
        acquisition::historical_path_read(identity, common_dir, path) && match path {
            Err(failure) => false,
            Ok(path) => exists|entry: Result<Vec<u8>, Failure>| #[trigger]
                call_ensures(tree, (path,), entry) && match entry {
                    Err(failure) => false,
                    Ok(entry) => match acquisition::tree_fault(entry@, identity.blob@) {
                        Some(fault) => false,
                        None => exists|bytes: Result<Vec<u8>, Failure>| #[trigger]
                            call_ensures(blob, (), bytes) && acquisition::blob_read(
                                handle,
                                side,
                                identity,
                                bytes,
                                Ok(found),
                            ),
                    },
                },
        };
    let entry = choose|entry: Result<Vec<u8>, Failure>| #[trigger]
        call_ensures(tree, (path->Ok_0,), entry) && match entry {
            Err(failure) => false,
            Ok(entry) => match acquisition::tree_fault(entry@, identity.blob@) {
                Some(fault) => false,
                None => exists|bytes: Result<Vec<u8>, Failure>| #[trigger]
                    call_ensures(blob, (), bytes) && acquisition::blob_read(
                        handle,
                        side,
                        identity,
                        bytes,
                        Ok(found),
                    ),
            },
        };
    let bytes = choose|bytes: Result<Vec<u8>, Failure>| #[trigger]
        call_ensures(blob, (), bytes) && acquisition::blob_read(
            handle,
            side,
            identity,
            bytes,
            Ok(found),
        );
    (path->Ok_0, entry->Ok_0, bytes->Ok_0)
}

} // verus!
