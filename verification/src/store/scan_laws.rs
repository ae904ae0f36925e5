//! What holds of what a walk reads, and of how it is counted and stored.

use crate::digest;
use crate::paths;
use crate::store::json;
use crate::store::module_config;
use crate::store::paths as store_paths;
use crate::store::scan;
use crate::store::scan::Coverage;
use crate::store::scan::Extraction;
use crate::store::scan::FileRow;
use crate::store::scan::SourceReading;
use crate::store::scan::WalkEntry;
use crate::text;
use crate::text::Failure;
use crate::text_laws;
use vstd::prelude::*;
use vstd::utf8;

verus! {

/// A walk never goes into the cache, nor to `.git`, nor into the directories that builds and
/// package managers fill; a file may have their names.
pub proof fn law_walks_pass_over_what_is_made(
    path: Seq<u8>,
    name: Seq<u8>,
    is_dir: bool,
    cache: Seq<u8>,
    below: Seq<Seq<u8>>,
)
    ensures
        paths::components(path) == paths::components(cache) + below ==> !scan::walked(
            path,
            name,
            is_dir,
            cache,
        ),
        !scan::walked(path, utf8::encode_utf8(".git"@), is_dir, cache),
        !scan::walked(path, utf8::encode_utf8("target"@), true, cache),
        !scan::walked(path, utf8::encode_utf8("node_modules"@), true, cache),
        !scan::walked(path, utf8::encode_utf8(".trufflepig"@), true, cache),
{
    if paths::components(path) == paths::components(cache) + below {
        assert(paths::components(path).take(paths::components(cache).len() as int)
            =~= paths::components(cache));
    }
}

/// A walk goes everywhere else.
pub proof fn law_walks_go_everywhere_else(
    path: Seq<u8>,
    name: Seq<u8>,
    is_dir: bool,
    cache: Seq<u8>,
)
    requires
        forall|below: Seq<Seq<u8>>|
            paths::components(path) != #[trigger] (paths::components(cache) + below),
        name != utf8::encode_utf8(".git"@),
        is_dir ==> name != utf8::encode_utf8("target"@) && name != utf8::encode_utf8(
            "node_modules"@,
        ) && name != utf8::encode_utf8(".trufflepig"@),
    ensures
        scan::walked(path, name, is_dir, cache),
{
    if paths::below(path, cache) {
        let outer = paths::components(cache);
        let inner = paths::components(path);
        assert(inner =~= outer + inner.skip(outer.len() as int));
    }
}

/// The bytes of a source are kept as they were read, unless one of them is zero; a source that
/// cannot be read is left out, and one that is too large for its reader is told from others.
pub proof fn law_sources_are_kept_or_left_out(
    length: u64,
    read: Result<Vec<u8>, Failure>,
    reading: SourceReading,
)
    requires
        scan::judged(length, read, reading),
    ensures
        reading is Read <==> read is Ok && forall|i: int|
            0 <= i < read->Ok_0@.len() ==> #[trigger] read->Ok_0@[i] != 0,
        reading matches SourceReading::Read(source) ==> read == Ok::<Vec<u8>, Failure>(source),
        reading matches SourceReading::Unread { status, length: measured } ==> match read {
            Ok(source) => status@ == "binary_excluded"@ && measured == source@.len(),
            Err(failure) => measured == length && status@ == if exists|rest: Seq<char>|
                failure.headline@ == #[trigger] ("source_excluded"@ + rest) {
                "resource_excluded"@
            } else {
                "read_error"@
            },
        },
{
    if read is Ok {
        let source = read->Ok_0;
        if scan::binary(source@) {
            let i = choose|i: int| 0 <= i < source@.len() && #[trigger] source@[i] == 0;
            assert(read->Ok_0@[i] == 0);
        } else {
            assert forall|i: int| 0 <= i < read->Ok_0@.len() implies #[trigger] read->Ok_0@[i]
                != 0 by {
                assert(source@[i] != 0);
            }
        }
    }
    if read is Err {
        let headline = read->Err_0.headline@;
        let front = "source_excluded"@;
        if text::begins_with(headline, front) {
            assert(headline =~= front + headline.skip(front.len() as int));
        }
        if exists|rest: Seq<char>| headline == #[trigger] (front + rest) {
            let rest = choose|rest: Seq<char>| headline == #[trigger] (front + rest);
            assert(headline.subrange(0, front.len() as int) =~= front);
        }
    }
}

/// All facts of a source are kept, unless there are more than 50000: then none is, and the status
/// says so.
pub proof fn law_too_many_facts_are_not_kept(all: Extraction, kept: Extraction)
    requires
        scan::bounded(all, kept),
    ensures
        all.definitions@.len() + all.occurrences@.len() + all.relationships@.len() <= 50000
            ==> kept == all,
        all.definitions@.len() + all.occurrences@.len() + all.relationships@.len() > 50000 ==> {
            &&& kept.definitions@.len() == 0
            &&& kept.occurrences@.len() == 0
            &&& kept.relationships@.len() == 0
            &&& kept.status@ == "fact_limit"@
            &&& kept.language@ == all.language@
        },
{
}

/// The grammar of a source is what follows its last dot; a path without a dot is its own.
pub proof fn law_grammars_follow_the_last_dot(front: Seq<char>, last: Seq<char>)
    requires
        text_laws::is_free_of(last, '.'),
    ensures
        scan::grammar_of(front + seq!['.'] + last) == last,
        scan::grammar_of(last) == last,
{
    text_laws::law_parts_follow_each_other(front, last, '.');
    text_laws::law_texts_without_separator_are_one_part(last, '.');
    let all = text::parts(front + seq!['.'] + last, '.');
    assert(all[all.len() - 1] == last);
}

/// Places are turned into rows one by one, in order; a place without a row is passed over.
pub proof fn law_places_become_rows(ids: Seq<i64>, a: Seq<usize>, b: Seq<usize>, place: usize)
    ensures
        scan::rows_of(ids, a + b) == scan::rows_of(ids, a) + scan::rows_of(ids, b),
        scan::rows_of(ids, seq![place]) == if place < ids.len() {
            seq![ids[place as int]]
        } else {
            Seq::empty()
        },
    decreases b.len(),
{
    assert(seq![place].drop_last() =~= Seq::<usize>::empty());
    assert(scan::rows_of(ids, Seq::<usize>::empty()) =~= Seq::<i64>::empty());
    assert(Seq::<i64>::empty().push(ids[place as int]) =~= seq![ids[place as int]]);
    if b.len() == 0 {
        assert(a + b =~= a);
        assert(scan::rows_of(ids, a) + scan::rows_of(ids, b) =~= scan::rows_of(ids, a));
    } else {
        law_places_become_rows(ids, a, b.drop_last(), place);
        assert((a + b).drop_last() =~= a + b.drop_last());
        assert((a + b).last() == b.last());
        assert(scan::rows_of(ids, a + b) =~= scan::rows_of(ids, a) + scan::rows_of(ids, b));
    }
}

/// Of a list, so many items from its start are kept.
pub proof fn law_first_items_are_kept(ids: Seq<i64>, n: int)
    requires
        0 <= n,
    ensures
        module_config::at_most(ids, n).len() == if ids.len() <= n {
            ids.len() as int
        } else {
            n
        },
        forall|i: int|
            0 <= i < module_config::at_most(ids, n).len() ==> #[trigger] module_config::at_most(
                ids,
                n,
            )[i] == ids[i],
{
}

/// A list of numbers is written in brackets, with a comma between two numbers.
pub proof fn law_lists_of_numbers_are_written(ids: Seq<i64>, id: i64)
    ensures
        json::id_list(Seq::empty()) == seq!['[', ']'],
        json::id_list(seq![id]) == seq!['['] + text::signed_decimal(id as int) + seq![']'],
        ids.len() > 0 ==> json::id_list(ids.push(id)) == json::id_list(ids).drop_last() + seq![
            ',',
        ] + text::signed_decimal(id as int) + seq![']'],
{
    assert(json::id_list(Seq::empty()) =~= seq!['[', ']']);
    let only = seq![id];
    assert(only[0] == id);
    if ids.len() > 0 {
        let more = ids.push(id);
        assert(more.drop_last() =~= ids);
        assert(more.last() == id);
        assert(json::id_list(more) =~= json::id_list(ids).drop_last() + seq![',']
            + text::signed_decimal(id as int) + seq![']']);
    }
}

/// Whether an entry is a file that was read, but with a status that says that it was not parsed.
pub open spec fn fails_to_parse(entry: WalkEntry) -> bool {
    entry matches WalkEntry::Read { extraction, .. } && extraction.status@ != "ok"@
        && extraction.status@ != "parsed"@ && extraction.status@ != "complete"@
        && extraction.status@ != "lexical_only"@ && extraction.status@ != "recovered"@
}

/// Whether an entry is a file of which too many facts were found.
pub open spec fn is_truncated(entry: WalkEntry) -> bool {
    match entry {
        WalkEntry::Read { extraction, .. } => extraction.status@ == "fact_limit"@,
        WalkEntry::Unread { status, .. } => status@ == "fact_limit"@,
        _ => false,
    }
}

/// How many bytes were read.
pub open spec fn bytes_read(entries: Seq<WalkEntry>) -> nat
    decreases entries.len(),
{
    if entries.len() == 0 {
        0
    } else {
        bytes_read(entries.drop_last()) + match entries.last() {
            WalkEntry::Read { source, .. } => source@.len(),
            _ => 0nat,
        }
    }
}

/// What could not be parsed, what had too many facts and what was read are counted entry by
/// entry.
pub proof fn law_coverage_counts_what_was_read(entries: Seq<WalkEntry>)
    requires
        entries.len() <= usize::MAX,
        bytes_read(entries) <= u64::MAX,
    ensures
        scan::all_covered(Coverage::none(), entries).parse_failures == scan::tally(
            entries,
            |entry: WalkEntry| fails_to_parse(entry),
        ),
        scan::all_covered(Coverage::none(), entries).truncated_files == scan::tally(
            entries,
            |entry: WalkEntry| is_truncated(entry),
        ),
        scan::all_covered(Coverage::none(), entries).indexed_bytes == bytes_read(entries),
        scan::all_covered(Coverage::none(), entries).semantic_files == 0,
        scan::tally(entries, |entry: WalkEntry| fails_to_parse(entry)) <= entries.len(),
        scan::tally(entries, |entry: WalkEntry| is_truncated(entry)) <= entries.len(),
    decreases entries.len(),
{
    if entries.len() > 0 {
        law_coverage_counts_what_was_read(entries.drop_last());
    }
}

/// A file is stored under a text that its path is read back from. One that was read is stored
/// with the digest and the length of its bytes, and what was found in it; it is a module unless
/// it is plain text. One that was not read has no digest and is no module.
pub proof fn law_files_are_stored_as_they_were_found(entry: WalkEntry, row: Option<FileRow>)
    requires
        scan::stored(entry, row),
    ensures
        row is Some <==> entry is Read || entry is Unread,
        entry matches WalkEntry::Read { path, source, extraction } ==> {
            &&& !path@.contains(0u8) ==> store_paths::path_of(utf8::encode_utf8(row->0.path@))
                == Ok::<Seq<u8>, Seq<char>>(path@)
            &&& row->0.revision matches Some(revision) && revision@ == digest::hex(
                digest::blake3_digest(source@),
            )
            &&& row->0.bytes == source@.len()
            &&& row->0.language@ == extraction.language@
            &&& row->0.status@ == extraction.status@
            &&& row->0.module <==> extraction.language@ != "text"@
        },
        entry matches WalkEntry::Unread { path, status, length, language } ==> {
            &&& !path@.contains(0u8) ==> store_paths::path_of(utf8::encode_utf8(row->0.path@))
                == Ok::<Seq<u8>, Seq<char>>(path@)
            &&& row->0.revision is None
            &&& row->0.bytes == length
            &&& row->0.language@ == language@
            &&& row->0.status@ == status@
            &&& !row->0.module
        },
{
    match entry {
        WalkEntry::Read { path, .. } => {
            if !path@.contains(0u8) {
                store_paths::law_paths_round_trip(path@);
            }
        },
        WalkEntry::Unread { path, .. } => {
            if !path@.contains(0u8) {
                store_paths::law_paths_round_trip(path@);
            }
        },
        _ => {},
    }
}

} // verus!
