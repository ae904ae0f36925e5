//! Starting the index of a linked worktree from what its member already extracted.

use crate::tables::KeyTable;
use crate::text;
use crate::text::Failure;
use vstd::prelude::*;
use vstd::string::StringExecFns;

verus! {

/// A larger index is not worth copying while a request waits.
pub const MAX_SEED_SOURCE_BYTES: u64 = 2_147_483_648;

/// What seeding came to; where it was skipped, why.
#[derive(Clone, Debug, PartialEq, Eq)]
pub enum SeedOutcome {
    Present,
    Seeded { extraction_rows: u64, embeddings: bool },
    Skipped(&'static str),
}

/// What is known of the two caches at first.
#[derive(Debug)]
pub struct SeedSurvey {
    /// Whether the directory of the worktree's cache could be made.
    pub prepared: Result<(), Failure>,
    /// Whether the member has an index.
    pub source_present: bool,
}

/// What there is to copy, and how much room.
#[derive(Debug)]
pub struct SeedSizes {
    /// The size of the member's index.
    pub index_bytes: Result<u64, Failure>,
    /// The size of what the member has written ahead of its index.
    pub wal_bytes: Result<u64, Failure>,
    /// The free space of the worktree's cache.
    pub available: Result<u64, Failure>,
}

/// The name of an index.
pub const INDEX_NAME: &'static str = "index.sqlite3";

/// The name of the embeddings beside it.
pub const EMBEDDINGS_NAME: &'static str = "embeddings.sqlite";

/// The name of a file while it is being copied.
pub open spec fn staged(name: Seq<char>) -> Seq<char> {
    name + ".seed"@
}

/// The name of the journal beside a file.
pub open spec fn journal_of(name: Seq<char>) -> Seq<char> {
    name + "-journal"@
}

/// The files that a seeding which failed may leave half-made.
pub open spec fn partial_files() -> Seq<Seq<char>> {
    seq![
        journal_of(staged(INDEX_NAME@)),
        staged(INDEX_NAME@),
        journal_of(staged(EMBEDDINGS_NAME@)),
        staged(EMBEDDINGS_NAME@),
    ]
}

/// Whether files were removed.
pub open spec fn cleaned<D: FnOnce(Vec<String>)>(remove: D, files: Seq<Seq<char>>) -> bool {
    exists|names: Vec<String>|
        text::texts(names@) == files && #[trigger] call_ensures(remove, (names,), ())
}

/// Whether files may be removed.
pub open spec fn may_clean<D: FnOnce(Vec<String>)>(remove: D, files: Seq<Seq<char>>) -> bool {
    forall|names: Vec<String>|
        text::texts(names@) == files ==> #[trigger] call_requires(remove, (names,))
}

/// Twice a size, as far as that can be counted.
pub open spec fn doubled(bytes: int) -> int {
    if 2 * bytes > u64::MAX {
        u64::MAX as int
    } else {
        2 * bytes
    }
}

/// Whether a skip has this reason.
pub open spec fn skipped(outcome: SeedOutcome, reason: Seq<char>) -> bool {
    outcome matches SeedOutcome::Skipped(said) && said@ == reason
}

/// Why nothing is copied, where sizes speak against it.
pub open spec fn objection(sizes: SeedSizes, max_source_bytes: u64) -> Option<Seq<char>> {
    if sizes.index_bytes is Err || sizes.wal_bytes is Err {
        Some("seed failed"@)
    } else if sizes.index_bytes->Ok_0 + sizes.wal_bytes->Ok_0 > max_source_bytes {
        Some("source index exceeds seed limit"@)
    } else if sizes.available is Err {
        Some("seed failed"@)
    } else if sizes.available->Ok_0 < doubled(sizes.index_bytes->Ok_0 + sizes.wal_bytes->Ok_0) {
        Some("insufficient free space"@)
    } else {
        None
    }
}

fn size_objection(sizes: &SeedSizes, max_source_bytes: u64) -> (reason: Option<&'static str>)
    ensures
        match reason {
            Some(reason) => objection(*sizes, max_source_bytes) == Some(reason@),
            None => objection(*sizes, max_source_bytes) is None,
        },
{
    let index_bytes: u128 = match &sizes.index_bytes {
        Err(_) => return Some("seed failed"),
        Ok(bytes) => *bytes as u128,
    };
    let wal_bytes: u128 = match &sizes.wal_bytes {
        Err(_) => return Some("seed failed"),
        Ok(bytes) => *bytes as u128,
    };
    let source_bytes: u128 = index_bytes + wal_bytes;
    if source_bytes > max_source_bytes as u128 {
        return Some("source index exceeds seed limit");
    }
    match &sizes.available {
        Err(_) => Some("seed failed"),
        Ok(available) => {
            let needed: u128 = if 2 * source_bytes > u64::MAX as u128 {
                u64::MAX as u128
            } else {
                2 * source_bytes
            };
            if (*available as u128) < needed {
                Some("insufficient free space")
            } else {
                None
            }
        },
    }
}

/// Files once one of them was copied: it is in place, and what stood in for it is gone.
pub open spec fn placed(files: Set<Seq<char>>, name: Seq<char>) -> Set<Seq<char>> {
    files.remove(journal_of(staged(name))).remove(staged(name)).insert(name)
}

/// Whether a seeding failed, and left nothing half-made.
pub open spec fn failed<D: FnOnce(Vec<String>)>(
    remove: D,
    before: Set<Seq<char>>,
    outcome: SeedOutcome,
    after: Set<Seq<char>>,
) -> bool {
    &&& skipped(outcome, "seed failed"@)
    &&& cleaned(remove, partial_files())
    &&& after == before.difference(partial_files().to_set())
}

/// Whether `outcome` is what copying comes to, with the files `after`. Embeddings that cannot
/// be copied do not count against it.
pub open spec fn copied<C, E, D>(
    before: Set<Seq<char>>,
    facts: C,
    vectors: E,
    remove: D,
    outcome: SeedOutcome,
    after: Set<Seq<char>>,
) -> bool where
    C: FnOnce() -> Result<u64, Failure>,
    E: FnOnce() -> Result<bool, Failure>,
    D: FnOnce(Vec<String>),
 {
    exists|rows: Result<u64, Failure>| #[trigger]
        call_ensures(facts, (), rows) && match rows {
            Err(_) => failed(remove, before, outcome, after),
            Ok(rows) => exists|embeddings: Result<bool, Failure>| #[trigger]
                call_ensures(vectors, (), embeddings) && outcome == (SeedOutcome::Seeded {
                    extraction_rows: rows,
                    embeddings: embeddings == Ok::<bool, Failure>(true),
                }) && match embeddings {
                    Ok(true) => after == placed(placed(before, INDEX_NAME@), EMBEDDINGS_NAME@),
                    Ok(false) => after == placed(before, INDEX_NAME@),
                    Err(_) => {
                        &&& cleaned(remove, seq![staged(EMBEDDINGS_NAME@)])
                        &&& after == placed(before, INDEX_NAME@).remove(staged(EMBEDDINGS_NAME@))
                    },
                },
        }
}

/// Whether `outcome` is what seeding comes to once the writer's lock is held, with the files
/// `after`: the index may have come meanwhile, or sizes may speak against copying.
pub open spec fn seeded_locked<M, C, E, D>(
    before: Set<Seq<char>>,
    max_source_bytes: u64,
    measure: M,
    facts: C,
    vectors: E,
    remove: D,
    outcome: SeedOutcome,
    after: Set<Seq<char>>,
) -> bool where
    M: FnOnce() -> SeedSizes,
    C: FnOnce() -> Result<u64, Failure>,
    E: FnOnce() -> Result<bool, Failure>,
    D: FnOnce(Vec<String>),
 {
    if before.contains(INDEX_NAME@) {
        outcome == SeedOutcome::Present && after == before
    } else {
        exists|sizes: SeedSizes| #[trigger]
            call_ensures(measure, (), sizes) && match objection(sizes, max_source_bytes) {
                Some(reason) => if reason == "seed failed"@ {
                    failed(remove, before, outcome, after)
                } else {
                    skipped(outcome, reason) && after == before
                },
                None => copied(before, facts, vectors, remove, outcome, after),
            }
    }
}

/// Whether `outcome` is what seeding comes to, where the worktree's cache has the files
/// `before`, and leaves it with the files `after`.
pub open spec fn seeded<L, M, C, E, D>(
    survey: SeedSurvey,
    before: Set<Seq<char>>,
    max_source_bytes: u64,
    lock: L,
    measure: M,
    facts: C,
    vectors: E,
    remove: D,
    outcome: SeedOutcome,
    after: Set<Seq<char>>,
) -> bool where
    L: FnOnce() -> Result<KeyTable<()>, Failure>,
    M: FnOnce() -> SeedSizes,
    C: FnOnce() -> Result<u64, Failure>,
    E: FnOnce() -> Result<bool, Failure>,
    D: FnOnce(Vec<String>),
 {
    if survey.prepared is Err {
        failed(remove, before, outcome, after)
    } else if before.contains(INDEX_NAME@) {
        outcome == SeedOutcome::Present && after == before
    } else if !survey.source_present {
        skipped(outcome, "member cache has no index"@) && after == before
    } else {
        exists|found: Result<KeyTable<()>, Failure>| #[trigger]
            call_ensures(lock, (), found) && seeded_once_found(
                found,
                before,
                max_source_bytes,
                measure,
                facts,
                vectors,
                remove,
                outcome,
                after,
            )
    }
}

/// Whether `outcome` is what seeding comes to with what was found under the writer's lock.
pub open spec fn seeded_once_found<M, C, E, D>(
    found: Result<KeyTable<()>, Failure>,
    before: Set<Seq<char>>,
    max_source_bytes: u64,
    measure: M,
    facts: C,
    vectors: E,
    remove: D,
    outcome: SeedOutcome,
    after: Set<Seq<char>>,
) -> bool where
    M: FnOnce() -> SeedSizes,
    C: FnOnce() -> Result<u64, Failure>,
    E: FnOnce() -> Result<bool, Failure>,
    D: FnOnce(Vec<String>),
 {
    match found {
        Err(_) => failed(remove, before, outcome, after),
        Ok(found) => seeded_locked(
            found@.dom(),
            max_source_bytes,
            measure,
            facts,
            vectors,
            remove,
            outcome,
            after,
        ),
    }
}

/// Whether a seeding may copy what was extracted, after that the embeddings, and remove what it
/// leaves half-made.
pub open spec fn may_copy<C, E, D>(facts: C, vectors: E, remove: D) -> bool where
    C: FnOnce() -> Result<u64, Failure>,
    E: FnOnce() -> Result<bool, Failure>,
    D: FnOnce(Vec<String>),
 {
    &&& call_requires(facts, ())
    &&& forall|failure: Failure| #[trigger]
        call_ensures(facts, (), Err::<u64, Failure>(failure)) ==> may_clean(remove, partial_files())
    &&& forall|rows: u64| #[trigger]
        call_ensures(facts, (), Ok::<u64, Failure>(rows)) ==> {
            &&& call_requires(vectors, ())
            &&& forall|failure: Failure| #[trigger]
                call_ensures(vectors, (), Err::<bool, Failure>(failure)) ==> may_clean(
                    remove,
                    seq![staged(EMBEDDINGS_NAME@)],
                )
        }
}

/// Whether a seeding may take each of its steps where it comes to it: lock the worktree's cache
/// and list its files, measure, copy, and remove.
pub open spec fn may_seed<L, M, C, E, D>(
    survey: SeedSurvey,
    before: Set<Seq<char>>,
    max_source_bytes: u64,
    lock: L,
    measure: M,
    facts: C,
    vectors: E,
    remove: D,
) -> bool where
    L: FnOnce() -> Result<KeyTable<()>, Failure>,
    M: FnOnce() -> SeedSizes,
    C: FnOnce() -> Result<u64, Failure>,
    E: FnOnce() -> Result<bool, Failure>,
    D: FnOnce(Vec<String>),
 {
    if survey.prepared is Err {
        may_clean(remove, partial_files())
    } else if before.contains(INDEX_NAME@) || !survey.source_present {
        true
    } else {
        &&& call_requires(lock, ())
        &&& forall|failure: Failure| #[trigger]
            call_ensures(lock, (), Err::<KeyTable<()>, Failure>(failure)) ==> may_clean(
                remove,
                partial_files(),
            )
        &&& forall|found: KeyTable<()>| #[trigger]
            call_ensures(lock, (), Ok::<KeyTable<()>, Failure>(found)) ==> {
                &&& found.well_formed()
                &&& !found@.contains_key(INDEX_NAME@) ==> {
                    &&& call_requires(measure, ())
                    &&& forall|sizes: SeedSizes| #[trigger]
                        call_ensures(measure, (), sizes) ==> match objection(
                            sizes,
                            max_source_bytes,
                        ) {
                            Some(reason) => reason == "seed failed"@ ==> may_clean(
                                remove,
                                partial_files(),
                            ),
                            None => may_copy(facts, vectors, remove),
                        }
                }
            }
    }
}

/// Seeds the cache of a worktree, which has some files, from that of its member, unless an
/// index is there, or the member's is too large. `lock` takes the lock of the index's writer
/// and lists the files again, `measure` tells the sizes, `copy_facts` copies what was extracted,
/// `copy_vectors` copies embeddings, and `remove` removes files of the worktree's cache. It
/// never fails; what failed is skipped, and what it left half-made is removed.
pub fn ensure_seeded<L, M, C, E, D>(
    survey: &SeedSurvey,
    files: &mut KeyTable<()>,
    lock: L,
    measure: M,
    copy_facts: C,
    copy_vectors: E,
    remove: D,
) -> (outcome: SeedOutcome) where
    L: FnOnce() -> Result<KeyTable<()>, Failure>,
    M: FnOnce() -> SeedSizes,
    C: FnOnce() -> Result<u64, Failure>,
    E: FnOnce() -> Result<bool, Failure>,
    D: FnOnce(Vec<String>),

    requires
        old(files).well_formed(),
        may_seed(
            *survey,
            old(files)@.dom(),
            MAX_SEED_SOURCE_BYTES,
            lock,
            measure,
            copy_facts,
            copy_vectors,
            remove,
        ),
    ensures
        final(files).well_formed(),
        seeded(
            *survey,
            old(files)@.dom(),
            MAX_SEED_SOURCE_BYTES,
            lock,
            measure,
            copy_facts,
            copy_vectors,
            remove,
            outcome,
            final(files)@.dom(),
        ),
{
    ensure_seeded_with_limit(
        survey,
        files,
        MAX_SEED_SOURCE_BYTES,
        lock,
        measure,
        copy_facts,
        copy_vectors,
        remove,
    )
}

/// [`ensure_seeded`] with another limit.
pub fn ensure_seeded_with_limit<L, M, C, E, D>(
    survey: &SeedSurvey,
    files: &mut KeyTable<()>,
    max_source_bytes: u64,
    lock: L,
    measure: M,
    copy_facts: C,
    copy_vectors: E,
    remove: D,
) -> (outcome: SeedOutcome) where
    L: FnOnce() -> Result<KeyTable<()>, Failure>,
    M: FnOnce() -> SeedSizes,
    C: FnOnce() -> Result<u64, Failure>,
    E: FnOnce() -> Result<bool, Failure>,
    D: FnOnce(Vec<String>),

    requires
        old(files).well_formed(),
        may_seed(
            *survey,
            old(files)@.dom(),
            max_source_bytes,
            lock,
            measure,
            copy_facts,
            copy_vectors,
            remove,
        ),
    ensures
        final(files).well_formed(),
        seeded(
            *survey,
            old(files)@.dom(),
            max_source_bytes,
            lock,
            measure,
            copy_facts,
            copy_vectors,
            remove,
            outcome,
            final(files)@.dom(),
        ),
{
    if survey.prepared.is_err() {
        return give_up(files, remove);
    }
    if files.get(INDEX_NAME).is_some() {
        return SeedOutcome::Present;
    }
    if !survey.source_present {
        return SeedOutcome::Skipped("member cache has no index");
    }
    let locked = lock();
    let ghost told = locked;
    assert(call_ensures(lock, (), told));
    match locked {
        Err(failure) => {
            assert(call_ensures(lock, (), Err::<KeyTable<()>, Failure>(failure)));
            return give_up(files, remove);
        },
        Ok(found) => {
            assert(call_ensures(lock, (), Ok::<KeyTable<()>, Failure>(found)));
            *files = found;
        },
    }
    if files.get(INDEX_NAME).is_some() {
        return SeedOutcome::Present;
    }
    let sizes = measure();
    assert(call_ensures(measure, (), sizes));
    match size_objection(&sizes, max_source_bytes) {
        Some(reason) => {
            if text::same_text(reason, "seed failed") {
                give_up(files, remove)
            } else {
                SeedOutcome::Skipped(reason)
            }
        },
        None => copy_all(files, copy_facts, copy_vectors, remove),
    }
}

/// Copies what was extracted, and the embeddings.
fn copy_all<C, E, D>(files: &mut KeyTable<()>, copy_facts: C, copy_vectors: E, remove: D) -> (outcome:
    SeedOutcome) where
    C: FnOnce() -> Result<u64, Failure>,
    E: FnOnce() -> Result<bool, Failure>,
    D: FnOnce(Vec<String>),

    requires
        old(files).well_formed(),
        may_copy(copy_facts, copy_vectors, remove),
    ensures
        final(files).well_formed(),
        copied(
            old(files)@.dom(),
            copy_facts,
            copy_vectors,
            remove,
            outcome,
            final(files)@.dom(),
        ),
{
    let rows = copy_facts();
    let ghost given = rows;
    assert(call_ensures(copy_facts, (), given));
    let extraction_rows: u64 = match rows {
        Err(failure) => {
            assert(call_ensures(copy_facts, (), Err::<u64, Failure>(failure)));
            return give_up(files, remove);
        },
        Ok(rows) => rows,
    };
    put_in_place(files, INDEX_NAME);
    let vectors = copy_vectors();
    let ghost answered = vectors;
    assert(call_ensures(copy_vectors, (), answered));
    let embeddings = match vectors {
        Ok(copied) => {
            if copied {
                put_in_place(files, EMBEDDINGS_NAME);
            }
            copied
        },
        Err(failure) => {
            assert(call_ensures(copy_vectors, (), Err::<bool, Failure>(failure)));
            let half_made = seed_name(EMBEDDINGS_NAME);
            let ghost so_far = files@;
            files.remove(half_made.as_str());
            assert(files@.dom() =~= so_far.dom().remove(staged(EMBEDDINGS_NAME@)));
            let mut names: Vec<String> = Vec::new();
            names.push(half_made);
            assert(text::texts(names@) =~= seq![staged(EMBEDDINGS_NAME@)]);
            remove(names);
            false
        },
    };
    SeedOutcome::Seeded { extraction_rows, embeddings }
}

/// Notes that a file was copied.
fn put_in_place(files: &mut KeyTable<()>, name: &str)
    requires
        old(files).well_formed(),
    ensures
        final(files).well_formed(),
        final(files)@.dom() == placed(old(files)@.dom(), name@),
{
    let mut journal = seed_name(name);
    journal.append("-journal");
    files.remove(journal.as_str());
    let seed = seed_name(name);
    files.remove(seed.as_str());
    files.set(name.to_owned(), ());
    assert(files@.dom() =~= placed(old(files)@.dom(), name@));
}

/// Removes what a seeding left half-made.
fn give_up<D: FnOnce(Vec<String>)>(files: &mut KeyTable<()>, remove: D) -> (outcome: SeedOutcome)
    requires
        old(files).well_formed(),
        may_clean(remove, partial_files()),
    ensures
        final(files).well_formed(),
        failed(remove, old(files)@.dom(), outcome, final(files)@.dom()),
{
    let names = partial_names();
    let mut i: usize = 0;
    while i < names.len()
        invariant
            i <= names.len(),
            text::texts(names@) == partial_files(),
            files.well_formed(),
            files@.dom() == old(files)@.dom().difference(partial_files().take(i as int).to_set()),
        decreases names.len() - i,
    {
        let ghost so_far = files@.dom();
        files.remove(names[i].as_str());
        proof {
            let gone = partial_files();
            assert(text::texts(names@)[i as int] == names@[i as int]@);
            assert(gone.take(i + 1) =~= gone.take(i as int).push(gone[i as int]));
            assert(files@.dom() =~= so_far.remove(gone[i as int]));
            assert forall|name: Seq<char>| gone.take(i + 1).to_set().contains(name) <==> (
            gone.take(i as int).to_set().contains(name) || name == gone[i as int]) by {
                let fewer = gone.take(i as int);
                let more = gone.take(i + 1);
                if more.contains(name) {
                    let k = choose|k: int| 0 <= k < more.len() && more[k] == name;
                    if k < i {
                        assert(fewer[k] == name);
                    }
                }
                if fewer.contains(name) {
                    let k = choose|k: int| 0 <= k < fewer.len() && fewer[k] == name;
                    assert(more[k] == name);
                }
                assert(more[i as int] == gone[i as int]);
            }
            assert(files@.dom() =~= old(files)@.dom().difference(gone.take(i + 1).to_set()));
        }
        i += 1;
    }
    assert(partial_files().take(i as int) =~= partial_files());
    remove(names);
    SeedOutcome::Skipped("seed failed")
}

/// The files that a seeding which failed may leave half-made.
fn partial_names() -> (names: Vec<String>)
    ensures
        text::texts(names@) == partial_files(),
{
    let mut names: Vec<String> = Vec::new();
    let mut journal = seed_name(INDEX_NAME);
    journal.append("-journal");
    names.push(journal);
    names.push(seed_name(INDEX_NAME));
    let mut journal = seed_name(EMBEDDINGS_NAME);
    journal.append("-journal");
    names.push(journal);
    names.push(seed_name(EMBEDDINGS_NAME));
    assert(text::texts(names@) =~= partial_files());
    names
}

/// The name of a file while it is being copied.
pub fn seed_name(name: &str) -> (seed: String)
    ensures
        seed@ == staged(name@),
{
    let mut seed = name.to_owned();
    seed.append(".seed");
    seed
}

/// Whether a seeding goes by these files of a cache: those that were there before, or, where
/// others change them too, those that were found once the lock was held.
pub open spec fn goes_by<L: FnOnce() -> Result<KeyTable<()>, Failure>>(
    lock: L,
    before: Set<Seq<char>>,
    files: Set<Seq<char>>,
) -> bool {
    files == before || exists|found: KeyTable<()>| #[trigger]
        call_ensures(lock, (), Ok::<KeyTable<()>, Failure>(found)) && found@.dom() == files
}

/// Whether a seeding with an outcome has left the files `after` of what were `files`. They are as
/// they were where the index is found present, and it was there then. Where they were seeded,
/// there is an index. A seeding that is skipped makes no index, and one that failed leaves
/// nothing half-made. No seeding makes any file but an index and embeddings.
pub open spec fn in_order(
    files: Set<Seq<char>>,
    outcome: SeedOutcome,
    after: Set<Seq<char>>,
) -> bool {
    &&& match outcome {
        SeedOutcome::Present => files.contains(INDEX_NAME@) && after == files,
        SeedOutcome::Seeded { embeddings, .. } => {
            &&& !files.contains(INDEX_NAME@)
            &&& after.contains(INDEX_NAME@)
            &&& embeddings ==> after.contains(EMBEDDINGS_NAME@)
        },
        SeedOutcome::Skipped(reason) => {
            &&& after.contains(INDEX_NAME@) == files.contains(INDEX_NAME@)
            &&& reason@ == "seed failed"@ ==> forall|i: int|
                0 <= i < partial_files().len() ==> !after.contains(#[trigger] partial_files()[i])
            &&& reason@ != "seed failed"@ ==> after == files
        },
    }
    &&& forall|name: Seq<char>|
        name != INDEX_NAME@ && name != EMBEDDINGS_NAME@ && #[trigger] after.contains(name)
            ==> files.contains(name)
}

/// The names of an index and of embeddings are not those of files that are half-made.
pub proof fn lemma_names_differ()
    ensures
        !partial_files().contains(INDEX_NAME@),
        !partial_files().contains(EMBEDDINGS_NAME@),
        INDEX_NAME@ != EMBEDDINGS_NAME@,
{
    reveal_strlit("index.sqlite3");
    reveal_strlit("embeddings.sqlite");
    reveal_strlit(".seed");
    reveal_strlit("-journal");
    assert(INDEX_NAME@.len() != EMBEDDINGS_NAME@.len());
    assert(staged(INDEX_NAME@).len() == INDEX_NAME@.len() + 5);
    assert(staged(EMBEDDINGS_NAME@).len() == EMBEDDINGS_NAME@.len() + 5);
    assert(journal_of(staged(INDEX_NAME@)).len() == INDEX_NAME@.len() + 13);
    assert(journal_of(staged(EMBEDDINGS_NAME@)).len() == EMBEDDINGS_NAME@.len() + 13);
    assert forall|i: int| 0 <= i < partial_files().len() implies partial_files()[i]
        != INDEX_NAME@ && partial_files()[i] != EMBEDDINGS_NAME@ by {
        assert(i == 0 || i == 1 || i == 2 || i == 3);
    }
}

/// A seeding leaves a cache in order, of the files that it went by: those that were there before,
/// unless others change them too.
pub proof fn law_seedings_leave_caches_in_order<L, M, C, E, D>(
    survey: SeedSurvey,
    before: Set<Seq<char>>,
    max_source_bytes: u64,
    lock: L,
    measure: M,
    facts: C,
    vectors: E,
    remove: D,
    outcome: SeedOutcome,
    after: Set<Seq<char>>,
) where
    L: FnOnce() -> Result<KeyTable<()>, Failure>,
    M: FnOnce() -> SeedSizes,
    C: FnOnce() -> Result<u64, Failure>,
    E: FnOnce() -> Result<bool, Failure>,
    D: FnOnce(Vec<String>),

    requires
        seeded(
            survey,
            before,
            max_source_bytes,
            lock,
            measure,
            facts,
            vectors,
            remove,
            outcome,
            after,
        ),
    ensures
        exists|files: Set<Seq<char>>| #[trigger]
            goes_by(lock, before, files) && in_order(files, outcome, after),
{
    lemma_names_differ();
    lemma_staged_are_partial();
    reveal_strlit("seed failed");
    reveal_strlit("member cache has no index");
    reveal_strlit("source index exceeds seed limit");
    reveal_strlit("insufficient free space");
    assert("member cache has no index"@.len() != "seed failed"@.len());
    assert forall|i: int| 0 <= i < partial_files().len() implies partial_files().to_set().contains(
        #[trigger] partial_files()[i],
    ) by {}
    assert(goes_by(lock, before, before));
    if survey.prepared is Ok && !before.contains(INDEX_NAME@) && survey.source_present {
        let found = choose|found: Result<KeyTable<()>, Failure>| #[trigger]
            call_ensures(lock, (), found) && seeded_once_found(
                found,
                before,
                max_source_bytes,
                measure,
                facts,
                vectors,
                remove,
                outcome,
                after,
            );
        match found {
            Ok(files) => {
                assert(call_ensures(lock, (), Ok::<KeyTable<()>, Failure>(files)));
                assert(goes_by(lock, before, files@.dom()));
                assert(in_order(files@.dom(), outcome, after));
            },
            Err(_) => {
                assert(in_order(before, outcome, after));
            },
        }
    } else {
        assert(in_order(before, outcome, after));
    }
}

/// What stands in for an index or embeddings is half-made.
proof fn lemma_staged_are_partial()
    ensures
        partial_files().contains(staged(INDEX_NAME@)),
        partial_files().contains(journal_of(staged(INDEX_NAME@))),
        partial_files().contains(staged(EMBEDDINGS_NAME@)),
        partial_files().contains(journal_of(staged(EMBEDDINGS_NAME@))),
{
    let all = partial_files();
    assert(all[0] == journal_of(staged(INDEX_NAME@)));
    assert(all[1] == staged(INDEX_NAME@));
    assert(all[2] == journal_of(staged(EMBEDDINGS_NAME@)));
    assert(all[3] == staged(EMBEDDINGS_NAME@));
}

/// Preparation is never copied: a seeding makes no file of its name, so that there is one only
/// where another has made it.
pub proof fn law_preparation_is_never_seeded<L, M, C, E, D>(
    survey: SeedSurvey,
    before: Set<Seq<char>>,
    max_source_bytes: u64,
    lock: L,
    measure: M,
    facts: C,
    vectors: E,
    remove: D,
    outcome: SeedOutcome,
    after: Set<Seq<char>>,
) where
    L: FnOnce() -> Result<KeyTable<()>, Failure>,
    M: FnOnce() -> SeedSizes,
    C: FnOnce() -> Result<u64, Failure>,
    E: FnOnce() -> Result<bool, Failure>,
    D: FnOnce(Vec<String>),

    requires
        seeded(
            survey,
            before,
            max_source_bytes,
            lock,
            measure,
            facts,
            vectors,
            remove,
            outcome,
            after,
        ),
        forall|files: Set<Seq<char>>| #[trigger]
            goes_by(lock, before, files) ==> !files.contains("preparation.sqlite3"@),
    ensures
        !after.contains("preparation.sqlite3"@),
{
    reveal_strlit("preparation.sqlite3");
    reveal_strlit("index.sqlite3");
    reveal_strlit("embeddings.sqlite");
    assert("preparation.sqlite3"@.len() != INDEX_NAME@.len());
    assert("preparation.sqlite3"@.len() != EMBEDDINGS_NAME@.len());
    law_seedings_leave_caches_in_order(
        survey,
        before,
        max_source_bytes,
        lock,
        measure,
        facts,
        vectors,
        remove,
        outcome,
        after,
    );
    let files = choose|files: Set<Seq<char>>| #[trigger]
        goes_by(lock, before, files) && in_order(files, outcome, after);
    assert(!files.contains("preparation.sqlite3"@));
}

/// After a cache was seeded, the next seeding of it finds its index present and changes
/// nothing, whatever it could copy.
pub proof fn law_seeding_twice_is_seeding_once<L, M, C, E, D, L2, M2, C2, E2, D2>(
    survey: SeedSurvey,
    before: Set<Seq<char>>,
    max_source_bytes: u64,
    lock: L,
    measure: M,
    facts: C,
    vectors: E,
    remove: D,
    outcome: SeedOutcome,
    between: Set<Seq<char>>,
    survey2: SeedSurvey,
    max_source_bytes2: u64,
    lock2: L2,
    measure2: M2,
    facts2: C2,
    vectors2: E2,
    remove2: D2,
    outcome2: SeedOutcome,
    after: Set<Seq<char>>,
) where
    L: FnOnce() -> Result<KeyTable<()>, Failure>,
    M: FnOnce() -> SeedSizes,
    C: FnOnce() -> Result<u64, Failure>,
    E: FnOnce() -> Result<bool, Failure>,
    D: FnOnce(Vec<String>),
    L2: FnOnce() -> Result<KeyTable<()>, Failure>,
    M2: FnOnce() -> SeedSizes,
    C2: FnOnce() -> Result<u64, Failure>,
    E2: FnOnce() -> Result<bool, Failure>,
    D2: FnOnce(Vec<String>),

    requires
        seeded(
            survey,
            before,
            max_source_bytes,
            lock,
            measure,
            facts,
            vectors,
            remove,
            outcome,
            between,
        ),
        outcome is Seeded,
        survey2.prepared is Ok,
        seeded(
            survey2,
            between,
            max_source_bytes2,
            lock2,
            measure2,
            facts2,
            vectors2,
            remove2,
            outcome2,
            after,
        ),
    ensures
        outcome2 == SeedOutcome::Present,
        after == between,
{
    lemma_names_differ();
    lemma_staged_are_partial();
}

} // verus!
