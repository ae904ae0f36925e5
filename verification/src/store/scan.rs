//! Reading a tree of sources into an index that is not published yet.

use crate::digest;
use crate::paths;
use crate::store::json;
use crate::store::module_config;
use crate::store::paths as store_paths;
use crate::store::regions::Definition;
use crate::text;
use crate::text::Failure;
use vstd::bytes;
use vstd::prelude::*;
use vstd::utf8;

verus! {

/// A source that is larger is not read.
pub const MAX_SOURCE_BYTES: u64 = 2_097_152;

/// A source with more facts keeps none.
pub const MAX_FACTS: usize = 50_000;

/// A place has no more candidates.
pub const MAX_CANDIDATES: usize = 64;

/// How much of a tree is in the index.
#[derive(Clone, Copy, Debug, PartialEq, Eq, Structural)]
pub struct Coverage {
    pub total_files: usize,
    pub indexed_files: usize,
    pub excluded_files: usize,
    pub parse_failures: usize,
    pub semantic_files: usize,
    pub walk_failures: usize,
    pub truncated_files: usize,
    pub indexed_bytes: u64,
}

impl Coverage {
    /// Nothing is in the index.
    pub open spec fn none() -> Coverage {
        Coverage {
            total_files: 0,
            indexed_files: 0,
            excluded_files: 0,
            parse_failures: 0,
            semantic_files: 0,
            walk_failures: 0,
            truncated_files: 0,
            indexed_bytes: 0,
        }
    }

    /// Every file is either indexed or excluded, and only an indexed one can fail to parse.
    pub open spec fn adds_up(self) -> bool {
        &&& self.total_files == self.indexed_files + self.excluded_files
        &&& self.parse_failures <= self.indexed_files
        &&& self.truncated_files <= self.total_files
        &&& self.semantic_files == 0
    }
}

impl Default for Coverage {
    fn default() -> (coverage: Self)
        ensures
            coverage == Coverage::none(),
    {
        Coverage {
            total_files: 0,
            indexed_files: 0,
            excluded_files: 0,
            parse_failures: 0,
            semantic_files: 0,
            walk_failures: 0,
            truncated_files: 0,
            indexed_bytes: 0,
        }
    }
}

/// Whether a walk goes to an entry: never to the cache; never to what version control, builds
/// and package managers keep. A file can stand for the version control of a linked tree.
pub open spec fn walked(path: Seq<u8>, name: Seq<u8>, is_dir: bool, cache: Seq<u8>) -> bool {
    &&& !paths::below(path, cache)
    &&& name != utf8::encode_utf8(".git"@)
    &&& is_dir ==> name != utf8::encode_utf8("target"@) && name != utf8::encode_utf8(
        "node_modules"@,
    ) && name != utf8::encode_utf8(".trufflepig"@)
}

/// Whether a walk goes to an entry.
pub fn walks_to(path: &[u8], name: &[u8], is_dir: bool, cache: &[u8]) -> (yes: bool)
    ensures
        yes == walked(path@, name@, is_dir, cache@),
{
    !paths::starts_with(path, cache) && !text::same_bytes(name, ".git".as_bytes()) && !(is_dir && (
    text::same_bytes(name, "target".as_bytes()) || text::same_bytes(name, "node_modules".as_bytes())
        || text::same_bytes(name, ".trufflepig".as_bytes())))
}

/// What reading a source came to.
#[derive(Debug)]
pub enum SourceReading {
    Read(Vec<u8>),
    Unread { status: String, length: u64 },
}

/// Whether a source has a zero byte.
pub open spec fn binary(source: Seq<u8>) -> bool {
    exists|i: int| 0 <= i < source.len() && #[trigger] source[i] == 0
}

fn is_binary(source: &Vec<u8>) -> (yes: bool)
    ensures
        yes == binary(source@),
{
    let mut i: usize = 0;
    while i < source.len()
        invariant
            i <= source.len(),
            forall|k: int| 0 <= k < i ==> #[trigger] source@[k] != 0,
        decreases source.len() - i,
    {
        if source[i] == 0 {
            return true;
        }
        i += 1;
    }
    false
}

/// Whether `reading` is that of a source that is not read.
pub open spec fn left_out(reading: SourceReading, status: Seq<char>, length: int) -> bool {
    reading matches SourceReading::Unread { status: said, length: measured } && said@ == status
        && measured == length
}

/// Whether `reading` is what reading a source comes to, once its bytes were asked for.
pub open spec fn judged(
    length: u64,
    read: Result<Vec<u8>, Failure>,
    reading: SourceReading,
) -> bool {
    match read {
        Err(failure) => left_out(
            reading,
            if text::begins_with(failure.headline@, "source_excluded"@) {
                "resource_excluded"@
            } else {
                "read_error"@
            },
            length as int,
        ),
        Ok(source) => if binary(source@) {
            left_out(reading, "binary_excluded"@, source.len() as int)
        } else {
            reading == SourceReading::Read(source)
        },
    }
}

fn begins(message: &str, prefix: &str) -> (yes: bool)
    ensures
        yes == text::begins_with(message@, prefix@),
{
    let all = text::chars_of(message);
    let front = text::chars_of(prefix);
    if all.len() < front.len() {
        return false;
    }
    text::text_at(all.as_slice(), front.as_slice(), 0)
}

/// What reading a source comes to: `length` is its size, where it could be measured, and
/// `read` gets its bytes. It is not called for a source that is too large.
pub fn read_source<R: FnOnce() -> Result<Vec<u8>, Failure>>(length: Option<u64>, read: R) -> (reading:
    SourceReading)
    requires
        length matches Some(length) ==> length <= MAX_SOURCE_BYTES ==> call_requires(read, ()),
    ensures
        match length {
            None => left_out(reading, "metadata_error"@, 0),
            Some(length) => if length > MAX_SOURCE_BYTES {
                left_out(reading, "resource_excluded"@, length as int)
            } else {
                exists|outcome: Result<Vec<u8>, Failure>| #[trigger]
                    call_ensures(read, (), outcome) && judged(length, outcome, reading)
            },
        },
{
    let length: u64 = match length {
        None => {
            return SourceReading::Unread { status: "metadata_error".to_owned(), length: 0 };
        },
        Some(length) => length,
    };
    if length > MAX_SOURCE_BYTES {
        return SourceReading::Unread { status: "resource_excluded".to_owned(), length };
    }
    let outcome = read();
    let ghost given = outcome;
    assert(call_ensures(read, (), given));
    match outcome {
        Err(failure) => {
            let status = if begins(failure.headline.as_str(), "source_excluded") {
                "resource_excluded".to_owned()
            } else {
                "read_error".to_owned()
            };
            SourceReading::Unread { status, length }
        },
        Ok(source) => {
            if is_binary(&source) {
                SourceReading::Unread {
                    status: "binary_excluded".to_owned(),
                    length: source.len() as u64,
                }
            } else {
                SourceReading::Read(source)
            }
        },
    }
}

/// A name in a source, and the declarations that it may mean, by their places in the list of
/// declarations.
#[derive(Debug)]
pub struct Occurrence {
    pub name: String,
    pub start: usize,
    pub end: usize,
    pub role: String,
    pub target: Option<usize>,
    pub candidates: Vec<usize>,
    pub provenance: String,
}

/// What one declaration is to another.
#[derive(Debug)]
pub struct Relationship {
    pub source: usize,
    pub target: Option<usize>,
    pub kind: String,
    pub evidence_start: usize,
    pub evidence_end: usize,
    pub provenance: String,
}

/// The facts in a source.
#[derive(Debug)]
pub struct Extraction {
    pub language: String,
    pub status: String,
    pub definitions: Vec<Definition>,
    pub occurrences: Vec<Occurrence>,
    pub relationships: Vec<Relationship>,
}

impl Extraction {
    /// How many facts there are.
    pub open spec fn facts(self) -> int {
        self.definitions.len() + self.occurrences.len() + self.relationships.len()
    }
}

/// Whether `kept` is what is kept of facts: all of them, or none where there are too many.
pub open spec fn bounded(all: Extraction, kept: Extraction) -> bool {
    if all.facts() > MAX_FACTS {
        &&& kept.language@ == all.language@
        &&& kept.status@ == "fact_limit"@
        &&& kept.facts() == 0
    } else {
        kept == all
    }
}

/// Whether a reused extraction still counts: one that was given up does not.
pub open spec fn reusable(cached: Option<Extraction>) -> bool {
    cached is Some && cached->0.status@ != "cancelled"@
}

/// The facts in a source, and whether to remember them: `cached` are those that are remembered
/// of the same bytes; where there are none, or they were given up, `extract` finds them.
pub fn cached_extraction<X: FnOnce() -> Extraction>(cached: Option<Extraction>, extract: X) -> (result:
    (Extraction, bool))
    requires
        !reusable(cached) ==> call_requires(extract, ()),
    ensures
        if reusable(cached) {
            bounded(cached->0, result.0)
        } else {
            exists|fresh: Extraction| #[trigger]
                call_ensures(extract, (), fresh) && bounded(fresh, result.0)
        },
        result.1 == (result.0.status@ != "cancelled"@),
{
    let extraction = match cached {
        Some(cached) => {
            if text::same_text(cached.status.as_str(), "cancelled") {
                extract()
            } else {
                cached
            }
        },
        None => extract(),
    };
    let total: u128 = extraction.definitions.len() as u128 + extraction.occurrences.len() as u128
        + extraction.relationships.len() as u128;
    let kept = if total > MAX_FACTS as u128 {
        Extraction {
            language: extraction.language,
            status: "fact_limit".to_owned(),
            definitions: Vec::new(),
            occurrences: Vec::new(),
            relationships: Vec::new(),
        }
    } else {
        extraction
    };
    let remember = !text::same_text(kept.status.as_str(), "cancelled");
    (kept, remember)
}

/// The grammar of a source: what follows the last dot of its path, or its whole path.
pub open spec fn grammar_of(path: Seq<char>) -> Seq<char> {
    text::parts(path, '.').last()
}

/// The grammar of a source.
pub fn grammar(path: &str) -> (grammar: String)
    ensures
        grammar@ == grammar_of(path@),
{
    let chars = text::chars_of(path);
    let parts = text::split_on(chars.as_slice(), '.');
    assert(text::views(parts@).last() == parts@[parts.len() - 1]@);
    text::text_of(parts[parts.len() - 1].as_slice())
}

/// The row of a declaration, by its place in the list.
pub open spec fn row_of(ids: Seq<i64>, place: Option<usize>) -> Option<i64> {
    match place {
        Some(place) => if place < ids.len() {
            Some(ids[place as int])
        } else {
            None
        },
        None => None,
    }
}

fn row_at(ids: &[i64], place: Option<usize>) -> (row: Option<i64>)
    ensures
        row == row_of(ids@, place),
{
    match place {
        Some(place) => {
            if place < ids.len() {
                Some(ids[place])
            } else {
                None
            }
        },
        None => None,
    }
}

/// The rows of declarations, by their places; a place without a row is passed over.
pub open spec fn rows_of(ids: Seq<i64>, places: Seq<usize>) -> Seq<i64>
    decreases places.len(),
{
    if places.len() == 0 {
        Seq::empty()
    } else if places.last() < ids.len() {
        rows_of(ids, places.drop_last()).push(ids[places.last() as int])
    } else {
        rows_of(ids, places.drop_last())
    }
}

proof fn lemma_rows_grow(ids: Seq<i64>, places: Seq<usize>, n: int)
    requires
        0 <= n <= places.len(),
    ensures
        rows_of(ids, places.take(n)).len() <= rows_of(ids, places).len(),
        rows_of(ids, places).take(rows_of(ids, places.take(n)).len() as int) == rows_of(
            ids,
            places.take(n),
        ),
        n == places.len() ==> rows_of(ids, places.take(n)) == rows_of(ids, places),
    decreases places.len() - n,
{
    if n < places.len() {
        lemma_rows_grow(ids, places, n + 1);
        assert(places.take(n + 1).drop_last() =~= places.take(n));
        let shorter = rows_of(ids, places.take(n));
        let longer = rows_of(ids, places.take(n + 1));
        assert(longer.take(shorter.len() as int) =~= shorter);
        assert(rows_of(ids, places).take(shorter.len() as int) =~= rows_of(ids, places).take(
            longer.len() as int,
        ).take(shorter.len() as int));
    } else {
        assert(places.take(n) =~= places);
        assert(rows_of(ids, places).take(rows_of(ids, places).len() as int) =~= rows_of(
            ids,
            places,
        ));
    }
}

/// The rows that a name in a source may mean: the one that it must mean, and the first of
/// the others, as they are stored.
pub fn occurrence_rows(occurrence: &Occurrence, ids: &[i64]) -> (rows: (Option<i64>, String))
    ensures
        rows.0 == row_of(ids@, occurrence.target),
        rows.1@ == json::id_list(
            module_config::at_most(
                rows_of(ids@, occurrence.candidates@),
                MAX_CANDIDATES as int,
            ),
        ),
{
    let target = row_at(ids, occurrence.target);
    let ghost all = occurrence.candidates@;
    let mut candidates: Vec<i64> = Vec::new();
    let mut i: usize = 0;
    while i < occurrence.candidates.len() && candidates.len() < MAX_CANDIDATES
        invariant
            i <= all.len(),
            all == occurrence.candidates@,
            candidates.len() <= MAX_CANDIDATES,
            candidates@ == rows_of(ids@, all.take(i as int)),
        decreases all.len() - i,
    {
        assert(all.take(i + 1).drop_last() =~= all.take(i as int));
        let place: usize = occurrence.candidates[i];
        if place < ids.len() {
            candidates.push(ids[place]);
        }
        i += 1;
    }
    proof {
        lemma_rows_grow(ids@, all, i as int);
    }
    assert(candidates@ =~= module_config::at_most(rows_of(ids@, all), MAX_CANDIDATES as int));
    (target, json::candidates_json(&candidates))
}

/// The rows that a relationship is between; there is none where its source has no row.
pub fn relationship_rows(relationship: &Relationship, ids: &[i64]) -> (rows: Option<
    (i64, Option<i64>),
>)
    ensures
        rows == if relationship.source < ids.len() {
            Some((ids@[relationship.source as int], row_of(ids@, relationship.target)))
        } else {
            None
        },
{
    if relationship.source < ids.len() {
        Some((ids[relationship.source], row_at(ids, relationship.target)))
    } else {
        None
    }
}

/// What a build of the extractor is known by: the first eight bytes of a digest of what it is
/// built from.
pub open spec fn build_bytes(lock: Seq<u8>) -> Seq<u8> {
    digest::blake3_digest(lock).take(8)
}

/// What a build of the extractor is known by, as a number.
pub fn cache_version(lock: &[u8]) -> (version: i64)
    ensures
        version == bytes::spec_u64_from_le_bytes(build_bytes(lock@)) as i64,
{
    let hash = digest::blake3_hash(lock);
    assert(hash@.subrange(0, 8) =~= build_bytes(lock@));
    let number: u64 = bytes::u64_from_le_bytes(&hash.as_slice()[0..8]);
    number as i64
}

/// What a walk found.
#[derive(Debug)]
pub enum WalkEntry {
    /// An entry that could not be looked at.
    Failed,
    /// Something that is no file.
    Other,
    /// A file with its path below the root, and the facts in it.
    Read { path: Vec<u8>, source: Vec<u8>, extraction: Extraction },
    /// A file that was not read.
    Unread { path: Vec<u8>, status: String, length: u64, language: String },
}

/// A file as it is stored.
#[derive(Debug)]
pub struct FileRow {
    pub path: String,
    pub revision: Option<String>,
    pub language: String,
    pub status: String,
    pub bytes: u64,
    /// Whether the file is a module of its own.
    pub module: bool,
}

/// Whether a status says that a source was parsed.
pub open spec fn parsed(status: Seq<char>) -> bool {
    status == "ok"@ || status == "parsed"@ || status == "complete"@ || status == "lexical_only"@
        || status == "recovered"@
}

fn is_parsed(status: &str) -> (yes: bool)
    ensures
        yes == parsed(status@),
{
    text::same_text(status, "ok") || text::same_text(status, "parsed") || text::same_text(
        status,
        "complete",
    ) || text::same_text(status, "lexical_only") || text::same_text(status, "recovered")
}

/// The encoded path of a file, byte for byte.
pub open spec fn path_bytes(path: Seq<u8>) -> Seq<u8> {
    utf8::encode_utf8(store_paths::as_chars(store_paths::escaped(path)))
}

/// What an entry adds to what the state of a tree is the digest of.
pub open spec fn trace(entry: WalkEntry) -> Seq<u8> {
    match entry {
        WalkEntry::Failed | WalkEntry::Other => Seq::empty(),
        WalkEntry::Read { path, source, extraction } => bytes::spec_u64_to_le_bytes(
            path_bytes(path@).len() as u64,
        ) + path_bytes(path@) + utf8::encode_utf8("read"@) + bytes::spec_u64_to_le_bytes(
            source.len() as u64,
        ) + utf8::encode_utf8(digest::hex(digest::blake3_digest(source@))) + utf8::encode_utf8(
            extraction.status@,
        ),
        WalkEntry::Unread { path, status, length, .. } => bytes::spec_u64_to_le_bytes(
            path_bytes(path@).len() as u64,
        ) + path_bytes(path@) + utf8::encode_utf8(status@) + bytes::spec_u64_to_le_bytes(length)
            + utf8::encode_utf8(status@),
    }
}

/// How an entry counts.
pub open spec fn covered(coverage: Coverage, entry: WalkEntry) -> Coverage {
    match entry {
        WalkEntry::Failed => Coverage {
            walk_failures: (coverage.walk_failures + 1) as usize,
            ..coverage
        },
        WalkEntry::Other => coverage,
        WalkEntry::Read { source, extraction, .. } => Coverage {
            total_files: (coverage.total_files + 1) as usize,
            indexed_files: (coverage.indexed_files + 1) as usize,
            parse_failures: if parsed(extraction.status@) {
                coverage.parse_failures
            } else {
                (coverage.parse_failures + 1) as usize
            },
            truncated_files: if extraction.status@ == "fact_limit"@ {
                (coverage.truncated_files + 1) as usize
            } else {
                coverage.truncated_files
            },
            indexed_bytes: (coverage.indexed_bytes + source.len()) as u64,
            ..coverage
        },
        WalkEntry::Unread { status, .. } => Coverage {
            total_files: (coverage.total_files + 1) as usize,
            excluded_files: (coverage.excluded_files + 1) as usize,
            truncated_files: if status@ == "fact_limit"@ {
                (coverage.truncated_files + 1) as usize
            } else {
                coverage.truncated_files
            },
            ..coverage
        },
    }
}

/// Whether `row` is how an entry is stored.
pub open spec fn stored(entry: WalkEntry, row: Option<FileRow>) -> bool {
    match entry {
        WalkEntry::Failed | WalkEntry::Other => row is None,
        WalkEntry::Read { path, source, extraction } => row matches Some(row) && {
            &&& row.path@ == store_paths::as_chars(store_paths::escaped(path@))
            &&& row.revision is Some
            &&& row.revision->0@ == digest::hex(digest::blake3_digest(source@))
            &&& row.language@ == extraction.language@
            &&& row.status@ == extraction.status@
            &&& row.bytes == source.len()
            &&& row.module == (extraction.language@ != "text"@)
        },
        WalkEntry::Unread { path, status, length, language } => row matches Some(row) && {
            &&& row.path@ == store_paths::as_chars(store_paths::escaped(path@))
            &&& row.revision is None
            &&& row.language@ == language@
            &&& row.status@ == status@
            &&& row.bytes == length
            &&& !row.module
        },
    }
}

/// A tree that is being read: how much of it is in the index, and what its state is the
/// digest of.
pub struct Stage {
    pub coverage: Coverage,
    pub input: Vec<u8>,
}

/// How the state of a tree begins, for a build of the extractor.
pub open spec fn preamble(lock: Seq<u8>) -> Seq<u8> {
    utf8::encode_utf8("trufflepig-schema-1-extraction-1"@) + build_bytes(lock)
}

/// What the entries of a walk add to that, one after the other.
pub open spec fn traces(entries: Seq<WalkEntry>) -> Seq<u8>
    decreases entries.len(),
{
    if entries.len() == 0 {
        Seq::empty()
    } else {
        traces(entries.drop_last()) + trace(entries.last())
    }
}

/// What the state of a tree is the digest of, after a walk.
pub open spec fn tree_state(lock: Seq<u8>, entries: Seq<WalkEntry>) -> Seq<u8> {
    preamble(lock) + traces(entries) + bytes::spec_u64_to_le_bytes(
        all_covered(Coverage::none(), entries).walk_failures as u64,
    )
}

/// The digest of the state of a tree.
pub open spec fn fingerprint_of(lock: Seq<u8>, entries: Seq<WalkEntry>) -> Seq<char> {
    digest::hex(digest::blake3_digest(tree_state(lock, entries)))
}

impl Stage {
    pub open spec fn well_formed(&self) -> bool {
        self.coverage.adds_up()
    }

    /// Whether the stage has taken in the entries of a walk, and nothing else.
    pub open spec fn took(&self, lock: Seq<u8>, entries: Seq<WalkEntry>) -> bool {
        &&& self.coverage == all_covered(Coverage::none(), entries)
        &&& self.input@ == preamble(lock) + traces(entries)
    }

    /// Whether there is room to count an entry.
    pub open spec fn has_room(&self, entry: WalkEntry) -> bool {
        &&& self.coverage.total_files < usize::MAX
        &&& self.coverage.walk_failures < usize::MAX
        &&& entry matches WalkEntry::Read { source, .. } ==> self.coverage.indexed_bytes
            + source.len() <= u64::MAX
    }

    pub fn new(lock: &[u8]) -> (stage: Self)
        ensures
            stage.well_formed(),
            stage.coverage == Coverage::none(),
            stage.input@ == preamble(lock@),
            stage.took(lock@, Seq::empty()),
    {
        let hash = digest::blake3_hash(lock);
        let mut input = vstd::slice::slice_to_vec("trufflepig-schema-1-extraction-1".as_bytes());
        input.extend_from_slice(&hash.as_slice()[0..8]);
        assert(input@ =~= preamble(lock@));
        assert(preamble(lock@) + traces(Seq::empty()) =~= preamble(lock@));
        Stage { coverage: Coverage::default(), input }
    }

    fn note(&mut self, path: &str, status: &str, length: u64)
        ensures
            final(self).coverage == old(self).coverage,
            final(self).input@ == old(self).input@ + (bytes::spec_u64_to_le_bytes(
                utf8::encode_utf8(path@).len() as u64,
            ) + utf8::encode_utf8(path@) + utf8::encode_utf8(status@)
                + bytes::spec_u64_to_le_bytes(length)),
    {
        let path_length = bytes::u64_to_le_bytes(path.as_bytes().len() as u64);
        let length = bytes::u64_to_le_bytes(length);
        self.input.extend_from_slice(path_length.as_slice());
        self.input.extend_from_slice(path.as_bytes());
        self.input.extend_from_slice(status.as_bytes());
        self.input.extend_from_slice(length.as_slice());
        assert(self.input@ =~= old(self).input@ + (path_length@ + utf8::encode_utf8(path@)
            + utf8::encode_utf8(status@) + length@));
    }

    /// Takes in what a walk found next, and gives the row to store for it.
    pub fn stage(&mut self, entry: &WalkEntry) -> (row: Option<FileRow>)
        requires
            old(self).well_formed(),
            old(self).has_room(*entry),
        ensures
            final(self).well_formed(),
            final(self).coverage == covered(old(self).coverage, *entry),
            final(self).input@ == old(self).input@ + trace(*entry),
            forall|lock: Seq<u8>, entries: Seq<WalkEntry>| #[trigger]
                old(self).took(lock, entries) ==> final(self).took(lock, entries.push(*entry)),
            stored(*entry, row),
    {
        proof {
            assert forall|lock: Seq<u8>, entries: Seq<WalkEntry>| #[trigger]
                old(self).took(lock, entries) implies all_covered(
                Coverage::none(),
                entries.push(*entry),
            ) == covered(old(self).coverage, *entry) && preamble(lock) + traces(
                entries.push(*entry),
            ) == old(self).input@ + trace(*entry) by {
                assert(entries.push(*entry).drop_last() =~= entries);
                assert(preamble(lock) + (traces(entries) + trace(*entry)) =~= preamble(lock)
                    + traces(entries) + trace(*entry));
            }
            reveal_strlit("fact_limit");
            assert(old(self).input@ + Seq::<u8>::empty() =~= old(self).input@);
        }
        match entry {
            WalkEntry::Failed => {
                self.coverage.walk_failures += 1;
                None
            },
            WalkEntry::Other => None,
            WalkEntry::Read { path, source, extraction } => {
                let path = store_paths::encode_path(path.as_slice());
                let revision = digest::blake3_hex(source.as_slice());
                let length: u64 = source.len() as u64;
                self.note(path.as_str(), "read", length);
                let ghost noted = self.input@;
                self.input.extend_from_slice(revision.as_str().as_bytes());
                self.input.extend_from_slice(extraction.status.as_str().as_bytes());
                assert(self.input@ =~= old(self).input@ + trace(*entry));
                self.coverage.total_files += 1;
                if text::same_text(extraction.status.as_str(), "fact_limit") {
                    self.coverage.truncated_files += 1;
                }
                self.coverage.indexed_files += 1;
                self.coverage.indexed_bytes += length;
                if !is_parsed(extraction.status.as_str()) {
                    self.coverage.parse_failures += 1;
                }
                Some(
                    FileRow {
                        path,
                        revision: Some(revision),
                        language: extraction.language.clone(),
                        status: extraction.status.clone(),
                        bytes: length,
                        module: !text::same_text(extraction.language.as_str(), "text"),
                    },
                )
            },
            WalkEntry::Unread { path, status, length, language } => {
                let path = store_paths::encode_path(path.as_slice());
                self.note(path.as_str(), status.as_str(), *length);
                self.input.extend_from_slice(status.as_str().as_bytes());
                assert(self.input@ =~= old(self).input@ + trace(*entry));
                self.coverage.total_files += 1;
                if text::same_text(status.as_str(), "fact_limit") {
                    self.coverage.truncated_files += 1;
                }
                self.coverage.excluded_files += 1;
                Some(
                    FileRow {
                        path,
                        revision: None,
                        language: language.clone(),
                        status: status.clone(),
                        bytes: *length,
                        module: false,
                    },
                )
            },
        }
    }

    /// How much of the tree is in the index, and the digest of its state.
    pub fn finish(self) -> (result: (Coverage, String))
        ensures
            result.0 == self.coverage,
            result.1@ == digest::hex(
                digest::blake3_digest(
                    self.input@ + bytes::spec_u64_to_le_bytes(self.coverage.walk_failures as u64),
                ),
            ),
            forall|lock: Seq<u8>, entries: Seq<WalkEntry>| #[trigger]
                self.took(lock, entries) ==> result.0 == all_covered(Coverage::none(), entries)
                    && result.1@ == fingerprint_of(lock, entries),
    {
        let Stage { coverage, mut input } = self;
        let failures = bytes::u64_to_le_bytes(coverage.walk_failures as u64);
        input.extend_from_slice(failures.as_slice());
        assert(input@ =~= self.input@ + failures@);
        (coverage, digest::blake3_hex(input.as_slice()))
    }
}

/// How the entries of a walk count, from the first to the last.
pub open spec fn all_covered(coverage: Coverage, entries: Seq<WalkEntry>) -> Coverage
    decreases entries.len(),
{
    if entries.len() == 0 {
        coverage
    } else {
        covered(all_covered(coverage, entries.drop_last()), entries.last())
    }
}

/// Whether an entry is a file.
pub open spec fn is_file(entry: WalkEntry) -> bool {
    entry is Read || entry is Unread
}

/// How many entries are such.
pub open spec fn tally(entries: Seq<WalkEntry>, such: spec_fn(WalkEntry) -> bool) -> nat
    decreases entries.len(),
{
    if entries.len() == 0 {
        0
    } else {
        tally(entries.drop_last(), such) + if such(entries.last()) {
            1nat
        } else {
            0nat
        }
    }
}

/// The counts are those of the entries of the walk: as many files as there were, each either
/// indexed or excluded, and as many failures.
pub proof fn law_coverage_counts_entries(entries: Seq<WalkEntry>)
    requires
        entries.len() <= usize::MAX,
    ensures
        all_covered(Coverage::none(), entries).total_files == tally(
            entries,
            |entry: WalkEntry| is_file(entry),
        ),
        all_covered(Coverage::none(), entries).indexed_files == tally(
            entries,
            |entry: WalkEntry| entry is Read,
        ),
        all_covered(Coverage::none(), entries).excluded_files == tally(
            entries,
            |entry: WalkEntry| entry is Unread,
        ),
        all_covered(Coverage::none(), entries).walk_failures == tally(
            entries,
            |entry: WalkEntry| entry is Failed,
        ),
        tally(entries, |entry: WalkEntry| is_file(entry)) <= entries.len(),
        tally(entries, |entry: WalkEntry| entry is Read) <= entries.len(),
        tally(entries, |entry: WalkEntry| entry is Unread) <= entries.len(),
        tally(entries, |entry: WalkEntry| entry is Failed) <= entries.len(),
    decreases entries.len(),
{
    if entries.len() > 0 {
        law_coverage_counts_entries(entries.drop_last());
    }
}

} // verus!
