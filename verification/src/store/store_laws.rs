//! What holds of opening an index, and of filling it from another one.

use crate::paths;
use crate::semantic::embedding::Embedding;
use crate::semantic::session;
use crate::semantic::session::DatabaseFault;
use crate::semantic::session::Lookup;
use crate::semantic::session::SemanticSession;
use crate::store;
use crate::store::paths as store_paths;
use crate::store::seed;
use crate::store::seed::SeedSizes;
use crate::store::SavedIndex;
use crate::text::Failure;
use vstd::prelude::*;
use vstd::utf8;

verus! {

/// An index is opened just where its root is a directory that is not in the cache, and the cache
/// is new or was made for that root.
pub proof fn law_indexes_are_opened_for_their_root(
    root: Seq<u8>,
    is_directory: bool,
    cache: Seq<u8>,
    saved: SavedIndex,
    below: Seq<Seq<u8>>,
)
    requires
        !root.contains(0u8),
    ensures
        paths::components(root) == paths::components(cache) + below ==> store::open_fault(
            root,
            is_directory,
            cache,
            saved,
        ) is Some,
        !is_directory ==> store::open_fault(root, is_directory, cache, saved) is Some,
        saved.root is Some && store_paths::path_of(utf8::encode_utf8(saved.root->0@)) != Ok::<
            Seq<u8>,
            Seq<char>,
        >(root) ==> store::open_fault(root, is_directory, cache, saved) is Some,
        is_directory && !paths::below(root, cache) && (saved.root is None || saved.root->0@
            == store_paths::as_chars(store_paths::escaped(root))) ==> store::open_fault(
            root,
            is_directory,
            cache,
            saved,
        ) is None,
{
    store_paths::law_paths_round_trip(root);
    if paths::components(root) == paths::components(cache) + below {
        assert(paths::components(root).take(paths::components(cache).len() as int)
            =~= paths::components(cache));
        assert(paths::below(root, cache));
    }
}

/// An index is copied just where its size is known and within the limit, and there is known to be
/// room for twice as much.
pub proof fn law_indexes_are_copied_where_there_is_room(sizes: SeedSizes, limit: u64)
    requires
        limit <= u64::MAX / 2,
    ensures
        seed::objection(sizes, limit) is None <==> {
            &&& sizes.index_bytes is Ok
            &&& sizes.wal_bytes is Ok
            &&& sizes.available is Ok
            &&& sizes.index_bytes->Ok_0 + sizes.wal_bytes->Ok_0 <= limit
            &&& 2 * (sizes.index_bytes->Ok_0 + sizes.wal_bytes->Ok_0) <= sizes.available->Ok_0
        },
{
}

/// The files that are made while an index is copied have names of their own.
pub proof fn law_half_made_files_have_their_names(name: Seq<char>)
    ensures
        seed::partial_files().contains(name) <==> name == "index.sqlite3.seed"@ || name
            == "index.sqlite3.seed-journal"@ || name == "embeddings.sqlite.seed"@ || name
            == "embeddings.sqlite.seed-journal"@,
{
    reveal_strlit("index.sqlite3");
    reveal_strlit("embeddings.sqlite");
    reveal_strlit(".seed");
    reveal_strlit("-journal");
    reveal_strlit("index.sqlite3.seed");
    reveal_strlit("index.sqlite3.seed-journal");
    reveal_strlit("embeddings.sqlite.seed");
    reveal_strlit("embeddings.sqlite.seed-journal");
    let all = seed::partial_files();
    assert(all[0] =~= "index.sqlite3.seed-journal"@);
    assert(all[1] =~= "index.sqlite3.seed"@);
    assert(all[2] =~= "embeddings.sqlite.seed-journal"@);
    assert(all[3] =~= "embeddings.sqlite.seed"@);
}

/// A query whose vector is kept is answered with it, and the worker is not asked. Without a worker
/// no other query is answered; with one it is asked, and what it gives is kept.
pub proof fn law_kept_vectors_answer_queries<
    W: FnOnce() -> Result<Embedding, Failure>,
    S: FnOnce(&Embedding),
>(
    session: SemanticSession,
    lookup: Lookup,
    ask: W,
    keep: S,
    result: Result<Embedding, Failure>,
)
    requires
        session.queried(lookup, ask, keep, result),
    ensures
        lookup matches Lookup::Found(vector) ==> result == Ok::<Embedding, Failure>(vector),
        !(lookup is Found) && session.no_daemon ==> result is Err,
        !(lookup is Found) && !session.no_daemon ==> call_ensures(ask, (), result),
        !(lookup is Found) && !session.no_daemon && result is Ok ==> call_ensures(
            keep,
            (&result->Ok_0,),
            (),
        ),
{
}

/// A database is in use where one of the causes of a failure says that it is busy or locked.
pub proof fn law_databases_in_use_are_told(causes: Seq<DatabaseFault>, i: int)
    requires
        0 <= i < causes.len(),
    ensures
        causes[i] == DatabaseFault::Busy || causes[i] == DatabaseFault::Locked
            ==> session::in_use(causes),
        session::in_use(causes) ==> exists|k: int|
            0 <= k < causes.len() && (#[trigger] causes[k] == DatabaseFault::Busy || causes[k]
                == DatabaseFault::Locked),
{
}

} // verus!
