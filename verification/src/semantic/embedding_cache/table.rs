//! The cache of vectors by content: bounded, with the oldest writes evicted first.

use crate::semantic::embedding::Embedding;
use crate::semantic::embedding_cache::cache_format;
use crate::semantic::embedding_cache::cache_format::{CacheStatus, Provenance, Reading};
use crate::semantic::pins::ModelPins;
use crate::tables::KeyTable;
use crate::text;
use crate::text::Failure;
use vstd::prelude::*;

verus! {

/// The size of a database page.
pub const PAGE_SIZE: u64 = 4096;

/// The least size that a cache may be limited to.
pub const MIN_LIMIT: u64 = 65_536;

/// The most entries that one call reads or writes.
pub const MAX_BATCH_ENTRIES: usize = 4096;

/// The version of the layout of the database.
pub const SCHEMA_VERSION: i64 = 2;

/// How many pages a cache with a limit may have.
pub fn limit_pages(limit: u64) -> (result: Result<i64, Failure>)
    ensures
        if limit < MIN_LIMIT {
            result is Err && text::plain(
                result->Err_0,
                "embedding cache limit must be at least 64 KiB"@,
            )
        } else {
            result == Ok::<i64, Failure>((limit / PAGE_SIZE) as i64)
        },
{
    if limit < MIN_LIMIT {
        return Err(Failure::new("embedding cache limit must be at least 64 KiB"));
    }
    Ok((limit / PAGE_SIZE) as i64)
}

/// How many entries fit into so many pages: a vector takes a page, and so do its provenance
/// and its place in the index; eight pages are spare. One entry always fits.
pub open spec fn entries_in(max_pages: i64) -> u64 {
    if max_pages / 2 - 8 > 1 {
        (max_pages / 2 - 8) as u64
    } else {
        1
    }
}

/// How many entries fit into so many pages.
pub fn max_entries(max_pages: i64) -> (entries: u64)
    ensures
        entries == entries_in(max_pages),
        entries >= 1,
{
    let pages: u64 = if max_pages > 0 {
        max_pages as u64
    } else {
        0
    };
    let entries: u64 = (pages / 2).saturating_sub(8);
    if entries > 1 {
        entries
    } else {
        1
    }
}

/// Whether a list of texts holds one.
pub open spec fn lists(texts: Seq<String>, text: Seq<char>) -> bool {
    exists|i: int| 0 <= i < texts.len() && (#[trigger] texts[i])@ == text
}

fn has(texts: &Vec<String>, wanted: &str) -> (found: bool)
    ensures
        found == lists(texts@, wanted@),
{
    let mut i: usize = 0;
    while i < texts.len()
        invariant
            i <= texts.len(),
            forall|k: int| 0 <= k < i ==> (#[trigger] texts@[k])@ != wanted@,
        decreases texts.len() - i,
    {
        if text::same_text(texts[i].as_str(), wanted) {
            return true;
        }
        i += 1;
    }
    false
}

/// Whether a database has the tables of the cache, and the provenance table its columns.
pub open spec fn current_schema(tables: Seq<String>, columns: Seq<String>) -> bool {
    &&& lists(tables, "embeddings"@)
    &&& lists(tables, "embedding_provenance"@)
    &&& lists(tables, "cache_clock"@)
    &&& lists(columns, "key"@)
    &&& lists(columns, "model_revision"@)
    &&& lists(columns, "input_version"@)
    &&& lists(columns, "dimensions"@)
    &&& lists(columns, "normalization"@)
    &&& lists(columns, "manifest_digest"@)
}

/// Whether a database has the tables of the cache, and the provenance table its columns.
pub fn has_current_schema(tables: &Vec<String>, columns: &Vec<String>) -> (current: bool)
    ensures
        current == current_schema(tables@, columns@),
{
    has(tables, "embeddings") && has(tables, "embedding_provenance") && has(tables, "cache_clock")
        && has(columns, "key") && has(columns, "model_revision") && has(columns, "input_version")
        && has(columns, "dimensions") && has(columns, "normalization") && has(
        columns,
        "manifest_digest",
    )
}

/// What a database is opened for.
#[derive(Clone, Copy, Debug, PartialEq, Eq, Structural)]
pub enum Opening {
    /// By its owner, who may replace its layout.
    Owner,
    /// To read a query's vector: nothing is changed.
    Query,
    /// To keep a query's vector: an empty database is laid out, another is not changed.
    QueryWriter,
}

/// What is done to the layout of a database.
#[derive(Clone, Copy, Debug, PartialEq, Eq, Structural)]
pub enum SchemaAction {
    Keep,
    /// Everything is dropped and laid out anew: the cache is disposable.
    Reset,
    /// The empty database is laid out.
    Create,
}

/// What is done to the layout of a database, by its version, whether it has the tables of the
/// cache, and whether it has any.
pub fn schema_action(opening: Opening, version: i64, current: bool, empty: bool) -> (result: Result<
    SchemaAction,
    Failure,
>)
    ensures
        if version == SCHEMA_VERSION && current {
            result == Ok::<SchemaAction, Failure>(SchemaAction::Keep)
        } else if opening == Opening::Owner {
            result == Ok::<SchemaAction, Failure>(SchemaAction::Reset)
        } else if opening == Opening::QueryWriter && version == 0 && empty {
            result == Ok::<SchemaAction, Failure>(SchemaAction::Create)
        } else {
            result is Err && text::plain(
                result->Err_0,
                "semantic_cache_unavailable: cache schema is not ready"@,
            )
        },
{
    if version == SCHEMA_VERSION && current {
        return Ok(SchemaAction::Keep);
    }
    match opening {
        Opening::Owner => Ok(SchemaAction::Reset),
        Opening::QueryWriter => {
            if version == 0 && empty {
                Ok(SchemaAction::Create)
            } else {
                Err(Failure::new("semantic_cache_unavailable: cache schema is not ready"))
            }
        },
        Opening::Query => Err(
            Failure::new("semantic_cache_unavailable: cache schema is not ready"),
        ),
    }
}

/// One entry to be written: its key, and its vector at unit length, or why it has none.
#[derive(Debug)]
pub struct CacheEntry {
    pub key: String,
    pub vector: Result<Embedding, Failure>,
}

/// One entry whose vector can be written.
#[derive(Debug)]
pub struct CacheWrite {
    pub key: String,
    pub vector: Embedding,
}

/// Whether the vectors of entries, where they have one, are well-formed.
pub open spec fn entries_well_formed(entries: Seq<CacheEntry>) -> bool {
    forall|i: int|
        0 <= i < entries.len() && (#[trigger] entries[i]).vector is Ok
            ==> entries[i].vector->Ok_0.well_formed()
}

/// Whether the first `n` entries have a vector.
pub open spec fn all_given(entries: Seq<CacheEntry>, n: int) -> bool {
    forall|i: int| 0 <= i < n ==> (#[trigger] entries[i]).vector is Ok
}

/// What is written for entries that all have a vector.
pub open spec fn writes_of(entries: Seq<CacheEntry>) -> Seq<CacheWrite> {
    Seq::new(
        entries.len(),
        |i: int| CacheWrite { key: entries[i].key, vector: entries[i].vector->Ok_0 },
    )
}

/// Whether entries are refused for a reason: that of the first one without a vector, unless a
/// whole batch comes before it and there are too many.
pub open spec fn entries_refused(entries: Seq<CacheEntry>, failure: Failure) -> bool {
    ||| exists|n: int|
        {
            &&& 0 <= n < entries.len() && n < MAX_BATCH_ENTRIES
            &&& all_given(entries, n)
            &&& (#[trigger] entries[n]).vector == Err::<Embedding, Failure>(failure)
        }
    ||| {
        &&& entries.len() > MAX_BATCH_ENTRIES
        &&& all_given(entries, MAX_BATCH_ENTRIES as int)
        &&& text::plain(failure, "embedding cache batch exceeds 4096 entries"@)
    }
}

/// Whether some write has a key.
pub open spec fn writes_key(writes: Seq<CacheWrite>, key: Seq<char>) -> bool {
    exists|i: int| 0 <= i < writes.len() && (#[trigger] writes[i]).key@ == key
}

/// The last write of each key, in order.
pub open spec fn latest(writes: Seq<CacheWrite>) -> Seq<CacheWrite>
    decreases writes.len(),
{
    if writes.len() == 0 {
        Seq::empty()
    } else {
        let rest = writes.skip(1);
        if writes_key(rest, writes[0].key@) {
            latest(rest)
        } else {
            seq![writes[0]] + latest(rest)
        }
    }
}

/// Whether each key is written once.
pub open spec fn writes_differ(writes: Seq<CacheWrite>) -> bool {
    forall|i: int, j: int|
        0 <= i < j < writes.len() ==> (#[trigger] writes[i]).key@ != (#[trigger] writes[j]).key@
}

/// Whether the vectors of writes are well-formed.
pub open spec fn vectors_well_formed(writes: Seq<CacheWrite>) -> bool {
    forall|i: int| 0 <= i < writes.len() ==> (#[trigger] writes[i]).vector.well_formed()
}

/// The last writes have the keys of all, each once.
proof fn lemma_latest(writes: Seq<CacheWrite>)
    ensures
        vectors_well_formed(writes) ==> vectors_well_formed(latest(writes)),
        latest(writes).len() <= writes.len(),
        writes.len() > 0 ==> latest(writes).len() > 0,
        writes_differ(latest(writes)),
        forall|key: Seq<char>|
            #[trigger] writes_key(latest(writes), key) <==> writes_key(writes, key),
    decreases writes.len(),
{
    if writes.len() > 0 {
        let rest = writes.skip(1);
        lemma_latest(rest);
        let kept = latest(writes);
        if vectors_well_formed(writes) {
            assert(vectors_well_formed(rest)) by {
                assert forall|i: int| 0 <= i < rest.len() implies (
                #[trigger] rest[i]).vector.well_formed() by {
                    assert(rest[i] == writes[i + 1]);
                }
            }
            assert forall|i: int| 0 <= i < kept.len() implies (
            #[trigger] kept[i]).vector.well_formed() by {
                if !writes_key(rest, writes[0].key@) {
                    if i > 0 {
                        assert(kept[i] == latest(rest)[i - 1]);
                    }
                }
            }
        }
        assert forall|key: Seq<char>|
            #[trigger] writes_key(kept, key) == writes_key(writes, key) by {
            if writes_key(writes, key) {
                let i = choose|i: int| 0 <= i < writes.len() && (#[trigger] writes[i]).key@ == key;
                if i > 0 {
                    assert(rest[i - 1].key@ == key);
                    assert(writes_key(rest, key));
                }
            }
            if writes_key(rest, key) {
                let i = choose|i: int| 0 <= i < rest.len() && (#[trigger] rest[i]).key@ == key;
                assert(writes[i + 1].key@ == key);
                assert(writes_key(latest(rest), key));
            }
            if writes_key(rest, writes[0].key@) {
                if key == writes[0].key@ {
                    assert(writes_key(latest(rest), key));
                }
            } else {
                if writes_key(latest(rest), key) {
                    let i = choose|i: int|
                        0 <= i < latest(rest).len() && (#[trigger] latest(rest)[i]).key@ == key;
                    assert(kept[i + 1].key@ == key);
                }
                if key == writes[0].key@ {
                    assert(kept[0].key@ == key);
                }
                if writes_key(kept, key) {
                    let i = choose|i: int| 0 <= i < kept.len() && (#[trigger] kept[i]).key@ == key;
                    if i > 0 {
                        assert(latest(rest)[i - 1].key@ == key);
                        assert(writes_key(latest(rest), key));
                    } else {
                        assert(writes[0].key@ == key);
                    }
                }
            }
        }
        assert forall|i: int, j: int| 0 <= i < j < kept.len() implies (#[trigger] kept[i]).key@ != (
        #[trigger] kept[j]).key@ by {
            if !writes_key(rest, writes[0].key@) {
                assert(kept[j] == latest(rest)[j - 1]);
                if i == 0 {
                    if kept[i].key@ == kept[j].key@ {
                        assert(writes_key(latest(rest), writes[0].key@));
                    }
                } else {
                    assert(kept[i] == latest(rest)[i - 1]);
                }
            }
        }
    }
}

fn has_write(writes: &Vec<CacheWrite>, key: &str) -> (found: bool)
    ensures
        found == writes_key(writes@, key@),
{
    let mut i: usize = 0;
    while i < writes.len()
        invariant
            i <= writes.len(),
            forall|k: int| 0 <= k < i ==> (#[trigger] writes@[k]).key@ != key@,
        decreases writes.len() - i,
    {
        if text::same_text(writes[i].key.as_str(), key) {
            return true;
        }
        i += 1;
    }
    false
}

/// Keeps the last write of each key, in order.
fn deduplicate_latest(writes: Vec<CacheWrite>) -> (unique: Vec<CacheWrite>)
    ensures
        unique@ == latest(writes@),
{
    let ghost all = writes@;
    let mut writes = writes;
    let mut backwards: Vec<CacheWrite> = Vec::new();
    assert(all.skip(all.len() as int) =~= Seq::<CacheWrite>::empty());
    assert(backwards@.reverse() =~= Seq::<CacheWrite>::empty());
    while writes.len() > 0
        invariant
            writes.len() <= all.len(),
            writes@ == all.take(writes.len() as int),
            backwards@.reverse() == latest(all.skip(writes.len() as int)),
        decreases writes.len(),
    {
        let ghost n = writes.len() as int;
        let ghost before = backwards@;
        match writes.pop() {
            None => {},
            Some(write) => {
                proof {
                    lemma_latest(all.skip(n));
                    assert(all.skip(n - 1).skip(1) =~= all.skip(n));
                    assert(all.skip(n - 1)[0] == write);
                    assert(writes@ =~= all.take(n - 1));
                    assert(writes_key(before, write.key@) == writes_key(
                        before.reverse(),
                        write.key@,
                    )) by {
                        if writes_key(before, write.key@) {
                            let i = choose|i: int|
                                0 <= i < before.len() && (#[trigger] before[i]).key@ == write.key@;
                            assert(before.reverse()[before.len() - 1 - i].key@ == write.key@);
                        }
                        if writes_key(before.reverse(), write.key@) {
                            let i = choose|i: int|
                                0 <= i < before.len() && (#[trigger] before.reverse()[i]).key@
                                    == write.key@;
                            assert(before[before.len() - 1 - i].key@ == write.key@);
                        }
                    }
                    assert(before.push(write).reverse() =~= seq![write] + before.reverse());
                }
                if !has_write(&backwards, write.key.as_str()) {
                    backwards.push(write);
                }
            },
        }
    }
    assert(all.skip(0) =~= all);
    let ghost reversed = backwards@.reverse();
    let mut unique: Vec<CacheWrite> = Vec::new();
    while backwards.len() > 0
        invariant
            backwards.len() + unique.len() == reversed.len(),
            unique@ == reversed.take(unique.len() as int),
            backwards@.reverse() == reversed.skip(unique.len() as int),
        decreases backwards.len(),
    {
        let ghost before = backwards@;
        let ghost done = unique.len() as int;
        match backwards.pop() {
            None => {},
            Some(write) => {
                assert(write == before.reverse()[0]);
                assert(write == reversed[done]);
                unique.push(write);
                assert(unique@ =~= reversed.take(done + 1));
                assert(backwards@.reverse() =~= before.reverse().skip(1));
                assert(before.reverse().skip(1) =~= reversed.skip(done + 1));
            },
        }
    }
    assert(unique@ =~= reversed);
    unique
}

/// A stored vector: its bytes, whether the numbers in them have unit length, when it was
/// written, and what it was made with.
#[derive(Debug)]
pub struct CacheRow {
    pub bytes: Vec<u8>,
    pub unit: bool,
    pub touched: i64,
    pub provenance: Provenance,
}

/// The cache: its rows by key, the clock that counts writes, and how many rows it may have.
pub struct EmbeddingCache {
    pub rows: KeyTable<CacheRow>,
    pub tick: i64,
    pub max_entries: u64,
    pub manifest_digest: String,
}

/// Whether rows were written at different times, none after the clock.
pub open spec fn rows_in_time(rows: Map<Seq<char>, CacheRow>, tick: i64) -> bool {
    &&& forall|key: Seq<char>| #[trigger] rows.contains_key(key) ==> rows[key].touched <= tick
    &&& forall|a: Seq<char>, b: Seq<char>|
        rows.contains_key(a) && rows.contains_key(b) && a != b ==> (#[trigger] rows[a]).touched != (
        #[trigger] rows[b]).touched
}

/// Whether a row is older than another one: it was written earlier, or at the same time and
/// its key comes first.
pub open spec fn older(rows: Map<Seq<char>, CacheRow>, a: Seq<char>, b: Seq<char>) -> bool {
    rows[a].touched < rows[b].touched || (rows[a].touched == rows[b].touched
        && text::comes_before(a, b))
}

/// Whether `kept` are the newest of some rows.
pub open spec fn newest_kept(
    rows: Map<Seq<char>, CacheRow>,
    kept: Map<Seq<char>, CacheRow>,
) -> bool {
    &&& forall|key: Seq<char>| #[trigger]
        kept.contains_key(key) ==> rows.contains_key(key) && kept[key] == rows[key]
    &&& forall|a: Seq<char>, b: Seq<char>| #[trigger]
        kept.contains_key(a) && #[trigger] rows.contains_key(b) && !kept.contains_key(b)
            ==> older(rows, b, a)
}

/// Of two rows one is older.
proof fn lemma_older(rows: Map<Seq<char>, CacheRow>, a: Seq<char>, b: Seq<char>)
    ensures
        a != b ==> older(rows, a, b) || older(rows, b, a),
        !(older(rows, a, b) && older(rows, b, a)),
{
    text::lemma_before_is_total(a, b);
}

/// What is older than an older row is older.
proof fn lemma_older_still(
    rows: Map<Seq<char>, CacheRow>,
    a: Seq<char>,
    b: Seq<char>,
    c: Seq<char>,
)
    requires
        older(rows, a, b),
        older(rows, b, c),
    ensures
        older(rows, a, c),
{
    if text::comes_before(a, b) && text::comes_before(b, c) {
        text::lemma_before_goes_on(a, b, c);
    }
}

/// The place of the oldest row.
fn oldest_place(rows: &KeyTable<CacheRow>) -> (oldest: usize)
    requires
        rows.well_formed(),
        rows.keys().len() > 0,
    ensures
        oldest < rows.keys().len(),
        forall|key: Seq<char>| #[trigger]
            rows@.contains_key(key) && key != rows.keys()[oldest as int] ==> older(
                rows@,
                rows.keys()[oldest as int],
                key,
            ),
{
    let mut oldest: usize = 0;
    let mut i: usize = 1;
    proof {
        rows.lemma_keys();
    }
    while i < rows.len()
        invariant
            rows.well_formed(),
            rows.keys().no_duplicates(),
            oldest < i <= rows.keys().len(),
            forall|k: int|
                0 <= k < i && k != oldest ==> older(
                    rows@,
                    rows.keys()[oldest as int],
                    #[trigger] rows.keys()[k],
                ),
        decreases rows.keys().len() - i,
    {
        let (key, row) = rows.at(i);
        let (oldest_key, oldest_row) = rows.at(oldest);
        let earlier = row.touched < oldest_row.touched || (row.touched == oldest_row.touched
            && text::rank(key.as_str(), oldest_key.as_str()) == text::Rank::Before);
        proof {
            lemma_older(rows@, key@, oldest_key@);
            if earlier {
                assert forall|k: int| 0 <= k < i + 1 && k != i implies older(
                    rows@,
                    rows.keys()[i as int],
                    #[trigger] rows.keys()[k],
                ) by {
                    if k != oldest {
                        lemma_older_still(rows@, key@, oldest_key@, rows.keys()[k]);
                    }
                }
            }
        }
        if earlier {
            oldest = i;
        }
        i += 1;
    }
    oldest
}

/// Removes the oldest rows.
fn evict(rows: &mut KeyTable<CacheRow>, count: usize)
    requires
        old(rows).well_formed(),
        count <= old(rows).keys().len(),
    ensures
        final(rows).well_formed(),
        newest_kept(old(rows)@, final(rows)@),
        final(rows).keys().len() == old(rows).keys().len() - count,
{
    let ghost all = rows@;
    let ghost size = rows.keys().len();
    let mut removed: usize = 0;
    while removed < count
        invariant
            removed <= count <= size,
            rows.well_formed(),
            newest_kept(all, rows@),
            rows.keys().len() == size - removed,
        decreases count - removed,
    {
        let oldest = oldest_place(&*rows);
        let (key, row) = rows.at(oldest);
        let gone = key.clone();
        let ghost before = rows@;
        rows.remove(gone.as_str());
        removed += 1;
        proof {
            assert forall|a: Seq<char>, b: Seq<char>| #[trigger]
                rows@.contains_key(a) && #[trigger] all.contains_key(b) && !rows@.contains_key(
                    b,
                ) implies older(all, b, a) by {
                assert(before.contains_key(a));
                if b == gone@ {
                    assert(older(before, gone@, a));
                    assert(before[a] == all[a]);
                    assert(before[gone@] == all[gone@]);
                } else {
                    assert(!before.contains_key(b));
                }
            }
        }
    }
}

/// The number of different keys of writes that a table has is no more than it has keys.
fn remove_keys(rows: &mut KeyTable<CacheRow>, writes: &Vec<CacheWrite>)
    requires
        old(rows).well_formed(),
    ensures
        final(rows).well_formed(),
        final(rows)@ == old(rows)@.remove_keys(written_keys(writes@)),
        final(rows).keys().len() <= old(rows).keys().len(),
{
    let ghost before = rows@;
    let mut i: usize = 0;
    assert(written_keys(writes@.take(0)) =~= Set::<Seq<char>>::empty());
    assert(before.remove_keys(written_keys(writes@.take(0))) =~= before);
    while i < writes.len()
        invariant
            i <= writes.len(),
            rows.well_formed(),
            rows@ == before.remove_keys(written_keys(writes@.take(i as int))),
            rows.keys().len() <= old(rows).keys().len(),
        decreases writes.len() - i,
    {
        rows.remove(writes[i].key.as_str());
        proof {
            let shorter = writes@.take(i as int);
            let longer = writes@.take(i + 1);
            assert forall|key: Seq<char>| #[trigger]
                writes_key(longer, key) == (writes_key(shorter, key) || key
                    == writes@[i as int].key@) by {
                if writes_key(longer, key) {
                    let k = choose|k: int|
                        0 <= k < longer.len() && (#[trigger] longer[k]).key@ == key;
                    if k < i {
                        assert(shorter[k].key@ == key);
                    }
                }
                if writes_key(shorter, key) {
                    let k = choose|k: int|
                        0 <= k < shorter.len() && (#[trigger] shorter[k]).key@ == key;
                    assert(longer[k].key@ == key);
                }
                if key == writes@[i as int].key@ {
                    assert(longer[i as int].key@ == key);
                }
            }
            assert(written_keys(longer) =~= written_keys(shorter).insert(
                writes@[i as int].key@,
            ));
            assert(rows@ =~= before.remove_keys(written_keys(longer)));
        }
        i += 1;
    }
    assert(writes@.take(i as int) =~= writes@);
}

/// The keys of writes.
pub open spec fn written_keys(writes: Seq<CacheWrite>) -> Set<Seq<char>> {
    Set::new(|key: Seq<char>| writes_key(writes, key))
}

/// The writes that a batch comes to: the last of each key, of these as many of the last as
/// the cache may have rows.
pub open spec fn batch(writes: Seq<CacheWrite>, max_entries: u64) -> Seq<CacheWrite> {
    let unique = latest(writes);
    if unique.len() > max_entries {
        unique.skip(unique.len() - max_entries)
    } else {
        unique
    }
}

/// Whether `rows` hold a write: the bytes of its vector, this build's provenance, and the time of the write.
pub open spec fn holds_write(
    rows: Map<Seq<char>, CacheRow>,
    write: CacheWrite,
    touched: int,
    pins: ModelPins,
    manifest_digest: Seq<char>,
) -> bool {
    &&& rows.contains_key(write.key@)
    &&& rows[write.key@].bytes@ == cache_format::encoded(write.vector@)
    &&& rows[write.key@].unit
    &&& rows[write.key@].touched == touched
    &&& rows[write.key@].provenance.current(pins, manifest_digest)
}

/// Whether `after` is `before` once a batch was written: each write has its row, written in
/// order at the next ticks; of the other rows the newest are kept, as many as there is room
/// for.
pub open spec fn put(
    before: EmbeddingCache,
    pins: ModelPins,
    writes: Seq<CacheWrite>,
    after: EmbeddingCache,
) -> bool {
    let written = batch(writes, before.max_entries);
    let others = before.rows@.remove_keys(written_keys(written));
    &&& after.max_entries == before.max_entries
    &&& after.manifest_digest@ == before.manifest_digest@
    &&& after.tick == before.tick + written.len()
    &&& forall|i: int|
        0 <= i < written.len() ==> holds_write(
            after.rows@,
            #[trigger] written[i],
            before.tick + i + 1,
            pins,
            before.manifest_digest@,
        )
    &&& newest_kept(others, after.rows@.remove_keys(written_keys(written)))
    &&& after.rows@.dom().finite()
    &&& others.dom().finite()
    &&& after.rows@.dom().len() == if others.dom().len() + written.len() > before.max_entries {
        before.max_entries as nat
    } else {
        others.dom().len() + written.len()
    }
}

/// Whether `result` is what writing entries comes to, and `after` is the cache then: a batch
/// that is refused, or empty, leaves it as it was.
pub open spec fn put_or_refused(
    before: EmbeddingCache,
    pins: ModelPins,
    entries: Seq<CacheEntry>,
    result: Result<(), Failure>,
    after: EmbeddingCache,
) -> bool {
    match result {
        Ok(_) => {
            &&& entries.len() <= MAX_BATCH_ENTRIES
            &&& all_given(entries, entries.len() as int)
            &&& if entries.len() == 0 {
                after == before
            } else {
                put(before, pins, writes_of(entries), after)
            }
        },
        Err(failure) => entries_refused(entries, failure) && after == before,
    }
}

/// A table has as many names as its list.
proof fn lemma_table_size(rows: KeyTable<CacheRow>)
    requires
        rows.well_formed(),
    ensures
        rows@.dom().finite(),
        rows@.dom().len() == rows.keys().len(),
{
    rows.lemma_keys();
    assert(rows@.dom() =~= rows.keys().to_set());
    rows.keys().unique_seq_to_set();
}

impl EmbeddingCache {
    pub open spec fn well_formed(&self) -> bool {
        &&& self.rows.well_formed()
        &&& self.max_entries >= 1
    }

    /// Whether rows were written at different times, none after the clock.
    pub open spec fn in_time(&self) -> bool {
        rows_in_time(self.rows@, self.tick)
    }

    /// An empty cache with room for so many rows.
    pub fn new(max_entries: u64, manifest: &[u8]) -> (cache: Self)
        requires
            max_entries >= 1,
        ensures
            cache.well_formed(),
            cache.in_time(),
            cache.rows@ == Map::<Seq<char>, CacheRow>::empty(),
            cache.tick == 0,
            cache.max_entries == max_entries,
            cache.manifest_digest@ == crate::digest::hex(crate::digest::sha256(manifest@)),
    {
        EmbeddingCache {
            rows: KeyTable::new(),
            tick: 0,
            max_entries,
            manifest_digest: cache_format::manifest_digest(manifest),
        }
    }

    /// Writes one bounded batch, or nothing where a vector is missing. A cache that has more
    /// rows than it may have is trimmed.
    pub fn put_many(&mut self, pins: &ModelPins, entries: Vec<CacheEntry>) -> (result: Result<
        (),
        Failure,
    >)
        requires
            old(self).well_formed(),
            entries_well_formed(entries@),
            old(self).tick + entries.len() <= i64::MAX,
        ensures
            final(self).well_formed(),
            old(self).in_time() ==> final(self).in_time(),
            put_or_refused(*old(self), *pins, entries@, result, *final(self)),
    {
        let total: usize = entries.len();
        let ghost offered = entries@;
        let mut writes: Vec<CacheWrite> = Vec::new();
        for entry in it: entries
            invariant
                it.seq() == offered,
                total == offered.len(),
                entries_well_formed(offered),
                *self == *old(self),
                self.well_formed(),
                writes.len() == it.index(),
                writes.len() <= MAX_BATCH_ENTRIES,
                all_given(offered, it.index() as int),
                writes@ =~= writes_of(offered).take(it.index() as int),
        {
            let ghost n = writes.len() as int;
            assert(entry == offered[n]);
            if writes.len() == MAX_BATCH_ENTRIES {
                return Err(Failure::new("embedding cache batch exceeds 4096 entries"));
            }
            let CacheEntry { key, vector } = entry;
            match vector {
                Err(failure) => {
                    assert(offered[n].vector == Err::<Embedding, Failure>(failure));
                    return Err(failure);
                },
                Ok(vector) => {
                    writes.push(CacheWrite { key, vector });
                },
            }
        }
        assert(writes@ =~= writes_of(offered));
        if total == 0 {
            return Ok(());
        }
        self.write_all(pins, writes);
        Ok(())
    }

    /// Writes a batch that is not empty.
    fn write_all(&mut self, pins: &ModelPins, writes: Vec<CacheWrite>)
        requires
            old(self).well_formed(),
            0 < writes.len() <= MAX_BATCH_ENTRIES,
            vectors_well_formed(writes@),
            old(self).tick + writes.len() <= i64::MAX,
        ensures
            final(self).well_formed(),
            old(self).in_time() ==> final(self).in_time(),
            put(*old(self), *pins, writes@, *final(self)),
    {
        let ghost given = writes@;
        let ghost before = *self;
        let mut written = deduplicate_latest(writes);
        proof {
            lemma_latest(given);
        }
        if written.len() as u64 > self.max_entries {
            let surplus: usize = written.len() - self.max_entries as usize;
            written = written.split_off(surplus);
            assert(written@ =~= batch(given, before.max_entries));
        }
        assert(written@ == batch(given, before.max_entries));
        proof {
            lemma_batch_differs(given, before.max_entries);
        }
        assert(vectors_well_formed(written@)) by {
            let unique = latest(given);
            assert forall|i: int| 0 <= i < written.len() implies (
            #[trigger] written@[i]).vector.well_formed() by {
                assert(written@[i] == unique[i + unique.len() - written@.len()]);
            }
        }
        let ghost all = written@;
        remove_keys(&mut self.rows, &written);
        let ghost others = self.rows@;
        proof {
            lemma_table_size(self.rows);
        }
        let room: u64 = self.max_entries - written.len() as u64;
        let count: u64 = self.rows.len() as u64;
        if count > room {
            let surplus: u64 = count - room;
            evict(&mut self.rows, surplus as usize);
        }
        let ghost kept = self.rows@;
        proof {
            lemma_table_size(self.rows);
        }
        let base: i64 = self.tick;
        let total: usize = written.len();
        self.tick = base + total as i64;
        let mut index: usize = 0;
        assert(kept.remove_keys(written_keys(all)) =~= kept);
        assert(all.take(0) =~= Seq::<CacheWrite>::empty());
        for write in it: written
            invariant
                index == it.index(),
                it.seq() == all,
                index <= all.len(),
                total == all.len(),
                total <= MAX_BATCH_ENTRIES,
                writes_differ(all),
                vectors_well_formed(all),
                base + total <= i64::MAX,
                self.tick == base + total,
                self.max_entries == before.max_entries,
                self.manifest_digest@ == before.manifest_digest@,
                self.rows.well_formed(),
                newest_kept(others, kept),
                others == before.rows@.remove_keys(written_keys(all)),
                self.rows.keys().len() + all.len() - index <= before.max_entries,
                self.rows.keys().len() == kept.dom().len() + index,
                self.rows@.remove_keys(written_keys(all)) == kept,
                forall|key: Seq<char>| #[trigger]
                    self.rows@.contains_key(key) ==> kept.contains_key(key) || writes_key(
                        all.take(index as int),
                        key,
                    ),
                forall|i: int|
                    0 <= i < index ==> holds_write(
                        self.rows@,
                        #[trigger] all[i],
                        base + i + 1,
                        *pins,
                        before.manifest_digest@,
                    ),
        {
            let ghost i = index as int;
            assert(write == all[i]);
            let ghost prior = self.rows@;
            assert(writes_key(all, write.key@));
            assert(!prior.contains_key(write.key@)) by {
                if prior.contains_key(write.key@) {
                    assert(!kept.contains_key(write.key@));
                    let k = choose|k: int|
                        0 <= k < all.take(i).len() && (#[trigger] all.take(i)[k]).key@
                            == write.key@;
                    assert(all[k].key@ != all[i].key@);
                }
            }
            let CacheWrite { key, vector } = write;
            let row = CacheRow {
                bytes: cache_format::encode(&vector),
                unit: true,
                touched: base + 1 + index as i64,
                provenance: Provenance::of_build(pins, self.manifest_digest.as_str()),
            };
            self.rows.set(key, row);
            index += 1;
            proof {
                assert(self.rows@.remove_keys(written_keys(all)) =~= kept);
                assert forall|key: Seq<char>| #[trigger]
                    self.rows@.contains_key(key) implies kept.contains_key(key) || writes_key(
                    all.take(i + 1),
                    key,
                ) by {
                    if key == write.key@ {
                        assert(all.take(i + 1)[i].key@ == key);
                    } else {
                        assert(prior.contains_key(key));
                        if writes_key(all.take(i), key) {
                            let k = choose|k: int|
                                0 <= k < all.take(i).len() && (#[trigger] all.take(i)[k]).key@
                                    == key;
                            assert(all.take(i + 1)[k].key@ == key);
                        }
                    }
                }
                assert forall|j: int| 0 <= j < i + 1 implies holds_write(
                    self.rows@,
                    #[trigger] all[j],
                    base + j + 1,
                    *pins,
                    before.manifest_digest@,
                ) by {
                    if j < i {
                        assert(all[j].key@ != all[i].key@);
                    }
                }
            }
        }
        proof {
            lemma_table_size(self.rows);
            assert(all.take(index as int) =~= all);
            if before.in_time() {
                self.lemma_in_time(before, *pins, all, kept, others);
            }
            assert(self.rows@.remove_keys(written_keys(all)) == kept);
            assert(put(before, *pins, given, *self));
        }
    }

    /// Rows that are kept, and rows that are written after them, are in time.
    proof fn lemma_in_time(
        &self,
        before: EmbeddingCache,
        pins: ModelPins,
        all: Seq<CacheWrite>,
        kept: Map<Seq<char>, CacheRow>,
        others: Map<Seq<char>, CacheRow>,
    )
        requires
            rows_in_time(before.rows@, before.tick),
            self.tick == before.tick + all.len(),
            others == before.rows@.remove_keys(written_keys(all)),
            newest_kept(others, kept),
            self.rows@.remove_keys(written_keys(all)) == kept,
            forall|key: Seq<char>| #[trigger]
                self.rows@.contains_key(key) ==> kept.contains_key(key) || writes_key(all, key),
            forall|i: int|
                0 <= i < all.len() ==> holds_write(
                    self.rows@,
                    #[trigger] all[i],
                    before.tick + i + 1,
                    pins,
                    before.manifest_digest@,
                ),
        ensures
            rows_in_time(self.rows@, self.tick),
    {
        let rows = self.rows@;
        assert forall|key: Seq<char>| #[trigger] rows.contains_key(key) implies rows[key].touched
            <= self.tick && (writes_key(all, key) ==> rows[key].touched > before.tick) && (
        !writes_key(all, key) ==> rows[key].touched <= before.tick && before.rows@.contains_key(key)
            && before.rows@[key] == rows[key]) by {
            if writes_key(all, key) {
                let i = choose|i: int| 0 <= i < all.len() && (#[trigger] all[i]).key@ == key;
                assert(holds_write(rows, all[i], before.tick + i + 1, pins, before.manifest_digest@));
            } else {
                assert(kept.contains_key(key));
                assert(others.contains_key(key));
                assert(before.rows@.contains_key(key));
                assert(kept[key] == rows[key]);
            }
        }
        assert forall|a: Seq<char>, b: Seq<char>|
            rows.contains_key(a) && rows.contains_key(b) && a != b implies (
        #[trigger] rows[a]).touched != (#[trigger] rows[b]).touched by {
            if writes_key(all, a) && writes_key(all, b) {
                let i = choose|i: int| 0 <= i < all.len() && (#[trigger] all[i]).key@ == a;
                let j = choose|j: int| 0 <= j < all.len() && (#[trigger] all[j]).key@ == b;
                assert(holds_write(rows, all[i], before.tick + i + 1, pins, before.manifest_digest@));
                assert(holds_write(rows, all[j], before.tick + j + 1, pins, before.manifest_digest@));
            } else if !writes_key(all, a) && !writes_key(all, b) {
                assert(before.rows@[a].touched != before.rows@[b].touched);
            }
        }
    }

    /// Writes one vector at unit length, or fails with why there is none.
    pub fn put(
        &mut self,
        pins: &ModelPins,
        key: &str,
        vector: Result<Embedding, Failure>,
    ) -> (result: Result<(), Failure>)
        requires
            old(self).well_formed(),
            vector matches Ok(vector) ==> vector.well_formed(),
            old(self).tick < i64::MAX,
        ensures
            final(self).well_formed(),
            old(self).in_time() ==> final(self).in_time(),
            match vector {
                Err(failure) => result == Err::<(), Failure>(failure) && *final(self)
                    == *old(self),
                Ok(vector) => result is Ok && exists|writes: Seq<CacheWrite>|
                    {
                        &&& writes.len() == 1
                        &&& writes[0].key@ == key@
                        &&& writes[0].vector == vector
                        &&& #[trigger] put(*old(self), *pins, writes, *final(self))
                    },
            },
    {
        let mut entries: Vec<CacheEntry> = Vec::new();
        entries.push(CacheEntry { key: key.to_owned(), vector });
        let ghost given = entries@;
        let result = self.put_many(pins, entries);
        proof {
            assert(given[0].vector == vector);
            if result is Ok {
                assert(put(*old(self), *pins, writes_of(given), *self));
            }
        }
        result
    }

    /// What the cache gives for a key.
    pub open spec fn read(&self, pins: ModelPins, key: Seq<char>) -> Option<Reading> {
        if self.rows@.contains_key(key) {
            let row = self.rows@[key];
            Some(
                cache_format::reading(
                    row.bytes@,
                    row.unit,
                    row.provenance,
                    pins,
                    self.manifest_digest@,
                ),
            )
        } else {
            None
        }
    }

    /// The vector with a key, where there is one that can be used.
    pub fn get(&self, pins: &ModelPins, key: &str, status: &mut CacheStatus) -> (found: Option<
        Embedding,
    >)
        requires
            self.well_formed(),
        ensures
            gives(self.read(*pins, key@), found),
            found matches Some(vector) ==> vector.well_formed(),
            *final(status) == noted(*old(status), self.read(*pins, key@)),
    {
        match self.rows.get(key) {
            None => None,
            Some(row) => cache_format::decode(
                row.bytes.as_slice(),
                row.unit,
                &row.provenance,
                pins,
                self.manifest_digest.as_str(),
                status,
            ),
        }
    }

    /// The vectors with some keys, in the order of the keys. A row is read once, so that it is
    /// counted once.
    pub fn get_many(&self, pins: &ModelPins, keys: &Vec<String>, status: &mut CacheStatus) -> (result:
        Result<Vec<Option<Embedding>>, Failure>)
        requires
            self.well_formed(),
        ensures
            if keys.len() > MAX_BATCH_ENTRIES {
                &&& result is Err
                &&& text::plain(result->Err_0, "embedding cache batch exceeds 4096 entries"@)
                &&& *final(status) == *old(status)
            } else {
                &&& result is Ok
                &&& result->Ok_0.len() == keys.len()
                &&& forall|i: int|
                    0 <= i < keys.len() ==> gives(
                        self.read(*pins, keys@[i]@),
                        #[trigger] result->Ok_0@[i],
                    )
                &&& *final(status) == all_noted(*old(status), *self, *pins, keys@)
            },
    {
        if keys.len() > MAX_BATCH_ENTRIES {
            return Err(Failure::new("embedding cache batch exceeds 4096 entries"));
        }
        let mut found: Vec<Option<Embedding>> = Vec::new();
        let mut i: usize = 0;
        while i < keys.len()
            invariant
                self.well_formed(),
                i <= keys.len(),
                found.len() == i,
                forall|k: int|
                    0 <= k < i ==> gives(self.read(*pins, keys@[k]@), #[trigger] found@[k]),
                *status == all_noted(*old(status), *self, *pins, keys@.take(i as int)),
            decreases keys.len() - i,
        {
            let mut earlier: usize = 0;
            while earlier < i && !text::same_text(keys[earlier].as_str(), keys[i].as_str())
                invariant
                    earlier <= i < keys.len(),
                    forall|k: int| 0 <= k < earlier ==> (#[trigger] keys@[k])@ != keys@[i as int]@,
                decreases i - earlier,
            {
                earlier += 1;
            }
            proof {
                assert(keys@.take(i + 1).drop_last() =~= keys@.take(i as int));
                if earlier < i {
                    assert(keys@.take(i as int)[earlier as int]@ == keys@[i as int]@);
                }
                assert(lists(keys@.take(i as int), keys@[i as int]@) == (earlier < i)) by {
                    if lists(keys@.take(i as int), keys@[i as int]@) {
                        let k = choose|k: int|
                            0 <= k < i && (#[trigger] keys@.take(i as int)[k])@
                                == keys@[i as int]@;
                        assert(keys@[k]@ == keys@[i as int]@);
                    }
                }
            }
            if earlier < i {
                let again = copy_found(&found[earlier]);
                assert(gives(self.read(*pins, keys@[earlier as int]@), found@[earlier as int]));
                found.push(again);
            } else {
                let vector = self.get(pins, keys[i].as_str(), status);
                found.push(vector);
            }
            i += 1;
        }
        assert(keys@.take(i as int) =~= keys@);
        Ok(found)
    }
}

fn copy_found(found: &Option<Embedding>) -> (again: Option<Embedding>)
    ensures
        match (*found, again) {
            (Some(a), Some(b)) => a@ == b@,
            (None, None) => true,
            _ => false,
        },
{
    match found {
        Some(vector) => Some(Embedding(vector.0.clone())),
        None => None,
    }
}

/// Whether `found` is the vector that was read.
pub open spec fn gives(read: Option<Reading>, found: Option<Embedding>) -> bool {
    match read {
        Some(reading) => cache_format::found_in(reading, found),
        None => found is None,
    }
}

/// The counts after a reading; a key without a row counts for nothing.
pub open spec fn noted(status: CacheStatus, read: Option<Reading>) -> CacheStatus {
    match read {
        Some(reading) => cache_format::counted(status, reading),
        None => status,
    }
}

/// The counts after the keys of a list were read, each once.
pub open spec fn all_noted(
    status: CacheStatus,
    cache: EmbeddingCache,
    pins: ModelPins,
    keys: Seq<String>,
) -> CacheStatus
    decreases keys.len(),
{
    if keys.len() == 0 {
        status
    } else {
        let before = all_noted(status, cache, pins, keys.drop_last());
        if lists(keys.drop_last(), keys.last()@) {
            before
        } else {
            noted(before, cache.read(pins, keys.last()@))
        }
    }
}

/// Whether a vector is one that can be read back: as every vector at unit length, it is
/// well-formed and its numbers are finite.
pub open spec fn vector_readable(vector: Embedding) -> bool {
    &&& vector.well_formed()
    &&& forall|k: int| 0 <= k < vector@.len() ==> cache_format::finite(#[trigger] vector@[k])
}

/// A vector that was written is read back, by a build with the same pins.
pub proof fn law_writes_are_read_back(
    before: EmbeddingCache,
    pins: ModelPins,
    writes: Seq<CacheWrite>,
    after: EmbeddingCache,
    i: int,
)
    requires
        put(before, pins, writes, after),
        0 <= i < batch(writes, before.max_entries).len(),
        vector_readable(batch(writes, before.max_entries)[i].vector),
    ensures
        after.read(pins, batch(writes, before.max_entries)[i].key@) == Some(
            Reading::Vector(batch(writes, before.max_entries)[i].vector@),
        ),
{
    let vector = batch(writes, before.max_entries)[i].vector@;
    let write = batch(writes, before.max_entries)[i];
    assert(holds_write(after.rows@, write, before.tick + i + 1, pins, before.manifest_digest@));
    cache_format::law_vectors_round_trip(vector);
}

/// A batch that fits writes every key that was given, with the vector that was given last.
pub proof fn law_last_write_wins(writes: Seq<CacheWrite>, max_entries: u64, i: int)
    requires
        latest(writes).len() <= max_entries,
        0 <= i < writes.len(),
        !writes_key(writes.skip(i + 1), writes[i].key@),
    ensures
        batch(writes, max_entries).contains(writes[i]),
{
    lemma_last_is_kept(writes, i);
}

proof fn lemma_last_is_kept(writes: Seq<CacheWrite>, i: int)
    requires
        0 <= i < writes.len(),
        !writes_key(writes.skip(i + 1), writes[i].key@),
    ensures
        latest(writes).contains(writes[i]),
    decreases writes.len(),
{
    let rest = writes.skip(1);
    if i == 0 {
        assert(latest(writes)[0] == writes[0]);
    } else {
        assert(rest.skip(i) =~= writes.skip(i + 1));
        lemma_last_is_kept(rest, i - 1);
        let k = choose|k: int| 0 <= k < latest(rest).len() && latest(rest)[k] == rest[i - 1];
        if !writes_key(rest, writes[0].key@) {
            assert(latest(writes)[k + 1] == writes[i]);
        } else {
            assert(latest(writes)[k] == writes[i]);
        }
    }
}

/// A cache never has more rows than it may have once something was written, however many it
/// had.
pub proof fn law_writing_bounds_the_cache(
    before: EmbeddingCache,
    pins: ModelPins,
    writes: Seq<CacheWrite>,
    after: EmbeddingCache,
)
    requires
        put(before, pins, writes, after),
        before.max_entries >= 1,
    ensures
        after.rows@.dom().finite(),
        after.rows@.dom().len() <= before.max_entries,
{
}

/// Where a batch has no more keys than the cache may have rows, each of its keys is read back as
/// the vector that was given last for it.
pub proof fn law_last_vectors_are_read_back(
    before: EmbeddingCache,
    pins: ModelPins,
    writes: Seq<CacheWrite>,
    after: EmbeddingCache,
    i: int,
)
    requires
        put(before, pins, writes, after),
        latest(writes).len() <= before.max_entries,
        0 <= i < writes.len(),
        !writes_key(writes.skip(i + 1), writes[i].key@),
        vector_readable(writes[i].vector),
    ensures
        after.read(pins, writes[i].key@) == Some(Reading::Vector(writes[i].vector@)),
{
    law_last_write_wins(writes, before.max_entries, i);
    let written = batch(writes, before.max_entries);
    let k = choose|k: int| 0 <= k < written.len() && written[k] == writes[i];
    law_writes_are_read_back(before, pins, writes, after, k);
}

/// The keys of a batch are as many as its writes.
proof fn lemma_written_keys(written: Seq<CacheWrite>)
    requires
        writes_differ(written),
    ensures
        written_keys(written).finite(),
        written_keys(written).len() == written.len(),
{
    let keys = Seq::new(written.len(), |i: int| written[i].key@);
    assert(keys.no_duplicates());
    assert forall|key: Seq<char>| #[trigger] written_keys(written).contains(key)
        == keys.to_set().contains(key) by {
        if writes_key(written, key) {
            let i = choose|i: int| 0 <= i < written.len() && (#[trigger] written[i]).key@ == key;
            assert(keys[i] == key);
        }
        if keys.to_set().contains(key) {
            let i = choose|i: int| 0 <= i < keys.len() && keys[i] == key;
            assert(written[i].key@ == key);
        }
    }
    assert(written_keys(written) =~= keys.to_set());
    keys.unique_seq_to_set();
}

/// Whether the last writes of a batch have different keys.
proof fn lemma_batch_differs(writes: Seq<CacheWrite>, max_entries: u64)
    ensures
        writes_differ(batch(writes, max_entries)),
{
    lemma_latest(writes);
    let unique = latest(writes);
    let written = batch(writes, max_entries);
    let gap = unique.len() - written.len();
    assert forall|i: int, j: int| 0 <= i < j < written.len() implies (
    #[trigger] written[i]).key@ != (#[trigger] written[j]).key@ by {
        assert(written[i] == unique[i + gap]);
        assert(written[j] == unique[j + gap]);
    }
}

/// After a batch there are its rows, and those of other keys that are kept.
proof fn lemma_rows_left(
    before: EmbeddingCache,
    pins: ModelPins,
    writes: Seq<CacheWrite>,
    after: EmbeddingCache,
)
    requires
        put(before, pins, writes, after),
    ensures
        ({
            let written = batch(writes, before.max_entries);
            let new = written_keys(written);
            let kept = after.rows@.remove_keys(new).dom();
            &&& kept.finite()
            &&& kept.len() + written.len() == after.rows@.dom().len()
        }),
{
    let written = batch(writes, before.max_entries);
    let new = written_keys(written);
    let kept = after.rows@.remove_keys(new);
    lemma_batch_differs(writes, before.max_entries);
    lemma_written_keys(written);
    assert forall|name: Seq<char>| new.contains(name) implies #[trigger] after.rows@.dom().contains(
        name,
    ) by {
        let i = choose|i: int| 0 <= i < written.len() && (#[trigger] written[i]).key@ == name;
        assert(holds_write(
            after.rows@,
            written[i],
            before.tick + i + 1,
            pins,
            before.manifest_digest@,
        ));
    }
    assert(kept.dom() =~= after.rows@.dom().difference(new));
    vstd::set_lib::lemma_set_disjoint_lens(kept.dom(), new);
    assert(kept.dom() + new =~= after.rows@.dom());
}

/// Nothing is dropped while there is room: where the rows of other keys and the keys of a batch
/// are together no more than the cache may have, every other row stays as it was.
pub proof fn law_rows_stay_while_there_is_room(
    before: EmbeddingCache,
    pins: ModelPins,
    writes: Seq<CacheWrite>,
    after: EmbeddingCache,
    key: Seq<char>,
)
    requires
        put(before, pins, writes, after),
        ({
            let written = batch(writes, before.max_entries);
            before.rows@.remove_keys(written_keys(written)).dom().len() + written.len()
                <= before.max_entries
        }),
        before.rows@.contains_key(key),
        !writes_key(batch(writes, before.max_entries), key),
    ensures
        after.rows@.contains_key(key),
        after.rows@[key] == before.rows@[key],
{
    let written = batch(writes, before.max_entries);
    let new = written_keys(written);
    let others = before.rows@.remove_keys(new);
    let kept = after.rows@.remove_keys(new);
    lemma_rows_left(before, pins, writes, after);
    assert(kept.dom().len() == others.dom().len());
    assert(kept.dom().subset_of(others.dom())) by {
        assert forall|name: Seq<char>| kept.dom().contains(name) implies #[trigger] others.dom().contains(
            name,
        ) by {
            assert(kept.contains_key(name));
        }
    }
    vstd::set_lib::lemma_subset_equality(kept.dom(), others.dom());
    assert(others.contains_key(key));
    assert(kept.contains_key(key));
}

/// What is dropped to make room is older than every other row that stays.
pub proof fn law_oldest_rows_go_first(
    before: EmbeddingCache,
    pins: ModelPins,
    writes: Seq<CacheWrite>,
    after: EmbeddingCache,
    dropped: Seq<char>,
    stays: Seq<char>,
)
    requires
        put(before, pins, writes, after),
        before.rows@.contains_key(dropped),
        !after.rows@.contains_key(dropped),
        after.rows@.contains_key(stays),
        !writes_key(batch(writes, before.max_entries), stays),
    ensures
        before.rows@.contains_key(stays),
        older(before.rows@, dropped, stays),
{
    let written = batch(writes, before.max_entries);
    let new = written_keys(written);
    let others = before.rows@.remove_keys(new);
    let kept = after.rows@.remove_keys(new);
    assert(!writes_key(written, dropped)) by {
        if writes_key(written, dropped) {
            let i = choose|i: int|
                0 <= i < written.len() && (#[trigger] written[i]).key@ == dropped;
            assert(holds_write(
                after.rows@,
                written[i],
                before.tick + i + 1,
                pins,
                before.manifest_digest@,
            ));
        }
    }
    assert(kept.contains_key(stays));
    assert(others.contains_key(dropped));
    assert(!kept.contains_key(dropped));
    assert(older(others, dropped, stays));
}

/// A write of a batch either does nothing, where it is refused or has nothing to write, or
/// leaves no more rows than the cache may have; each key is then read back as the vector that
/// was given last for it, where the cache has room for all of them; and of the other rows only
/// as many are dropped as there is no room for, the oldest first. A batch of too many entries is
/// always refused.
pub proof fn law_batches_are_written_whole_or_not_at_all(
    before: EmbeddingCache,
    pins: ModelPins,
    entries: Seq<CacheEntry>,
    result: Result<(), Failure>,
    after: EmbeddingCache,
)
    requires
        before.well_formed(),
        put_or_refused(before, pins, entries, result, after),
    ensures
        result is Err ==> after == before,
        entries.len() > MAX_BATCH_ENTRIES ==> result is Err,
        entries.len() == 0 ==> result is Ok && after == before,
        result is Ok && entries.len() > 0 ==> {
            let writes = writes_of(entries);
            let written = batch(writes, before.max_entries);
            let others = before.rows@.remove_keys(written_keys(written));
            let kept = after.rows@.remove_keys(written_keys(written));
            &&& after.rows@.dom().len() <= before.max_entries
            &&& latest(writes).len() <= before.max_entries ==> forall|i: int|
                0 <= i < writes.len() && !writes_key(writes.skip(i + 1), writes[i].key@)
                    && vector_readable((#[trigger] writes[i]).vector) ==> after.read(
                    pins,
                    writes[i].key@,
                ) == Some(Reading::Vector(writes[i].vector@))
            &&& others.dom().len() + written.len() <= before.max_entries ==> kept == others
            &&& others.dom().len() + written.len() > before.max_entries ==> kept.dom().len()
                == before.max_entries - written.len()
            &&& forall|dropped: Seq<char>, stays: Seq<char>|
                #![trigger others.contains_key(dropped), kept.contains_key(stays)]
                others.contains_key(dropped) && !kept.contains_key(dropped) && kept.contains_key(
                    stays,
                ) ==> others.contains_key(stays) && older(before.rows@, dropped, stays)
        },
{
    if result is Ok && entries.len() > 0 {
        let writes = writes_of(entries);
        let written = batch(writes, before.max_entries);
        let new = written_keys(written);
        let others = before.rows@.remove_keys(new);
        let kept = after.rows@.remove_keys(new);
        law_writing_bounds_the_cache(before, pins, writes, after);
        lemma_rows_left(before, pins, writes, after);
        assert forall|i: int|
            0 <= i < writes.len() && !writes_key(writes.skip(i + 1), writes[i].key@)
                && vector_readable((#[trigger] writes[i]).vector) && latest(writes).len()
                <= before.max_entries implies after.read(pins, writes[i].key@) == Some(
            Reading::Vector(writes[i].vector@),
        ) by {
            law_last_vectors_are_read_back(before, pins, writes, after, i);
        }
        if others.dom().len() + written.len() <= before.max_entries {
            assert forall|key: Seq<char>| others.contains_key(key) implies #[trigger] kept.contains_key(
                key,
            ) && kept[key] == others[key] by {
                law_rows_stay_while_there_is_room(before, pins, writes, after, key);
            }
            assert forall|key: Seq<char>| #[trigger] kept.contains_key(key) implies others.contains_key(
                key,
            ) by {}
            assert(kept =~= others);
        }
        assert forall|dropped: Seq<char>, stays: Seq<char>|
            #![trigger others.contains_key(dropped), kept.contains_key(stays)]
            others.contains_key(dropped) && !kept.contains_key(dropped) && kept.contains_key(
                stays,
            ) implies others.contains_key(stays) && older(before.rows@, dropped, stays) by {
            assert(older(others, dropped, stays));
        }
    }
}

} // verus!
