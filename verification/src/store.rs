//! The index of one root: what is published, and when it changes.

pub mod expansion_laws;
pub mod journal_laws;
pub mod json;
pub mod json_laws;
pub mod module_config;
pub mod module_laws;
pub mod module_resolver;
pub mod paths;
pub mod publication_laws;
pub mod publish;
pub mod region_laws;
pub mod regions;
pub mod resolution_laws;
pub mod resolve;
pub mod scan;
pub mod scan_laws;
pub mod seed;
pub mod store_laws;
pub mod worktree_seed_source;

use crate::store::publish::{FileState, Journal, Observation, Publication};
use crate::store::regions::RegionRow;
use crate::store::scan::Coverage;
use crate::tables;
use crate::tables::KeyTable;
use crate::text;
use crate::text::Failure;
use vstd::prelude::*;

verus! {

/// A region of a file, as it is stored and searched: under its name, its words and its body, and
/// under the path of the file.
#[derive(Clone, Debug)]
pub struct IndexedRegion {
    pub path: String,
    pub region: RegionRow,
}

/// The files of a tree in the order of their paths, the regions of those that were read, and
/// the content of these by revision.
#[derive(Debug)]
pub struct Snapshot {
    pub files: Vec<FileState>,
    pub regions: Vec<IndexedRegion>,
    pub contents: KeyTable<Vec<u8>>,
}

/// What a database holds of an index.
#[derive(Debug)]
pub struct SavedIndex {
    pub root: Option<String>,
    pub index_epoch: String,
    pub generation: i64,
    pub coverage: Coverage,
    pub fingerprint: Option<String>,
    pub publication: Option<Publication>,
    pub journal: Journal,
    pub snapshot: Snapshot,
}

/// What a scan of a root found, and when it began.
#[derive(Debug)]
pub struct Scan {
    pub coverage: Coverage,
    pub fingerprint: String,
    pub staged: Snapshot,
    pub started_ms: u64,
}

/// What writing a publication gave: what changed, and when it was done.
#[derive(Debug)]
pub struct Written {
    pub observations: Vec<Observation>,
    pub completed_ms: u64,
}

/// The index of one root.
#[derive(Debug)]
pub struct Store {
    pub root: Vec<u8>,
    pub cache: Vec<u8>,
    pub index_epoch: String,
    pub saved_generation: i64,
    pub saved_coverage: Coverage,
    pub fingerprint: Option<String>,
    pub published: Option<Publication>,
    pub journal: Journal,
    pub snapshot: Snapshot,
}

/// The encoded form of a root.
pub open spec fn root_text(root: Seq<u8>) -> Seq<char> {
    paths::as_chars(paths::escaped(root))
}

/// Why an index is not opened: its root is no directory, or is inside of the cache, or the cache
/// belongs to another root.
pub open spec fn open_fault(
    root: Seq<u8>,
    is_directory: bool,
    cache: Seq<u8>,
    saved: SavedIndex,
) -> Option<Seq<char>> {
    if !is_directory {
        Some("repository root is not a directory"@)
    } else if crate::paths::below(root, cache) {
        Some("cache must not contain the repository root"@)
    } else if saved.root is Some && saved.root->0@ != root_text(root) {
        Some("cache belongs to another repository root"@)
    } else {
        None
    }
}

/// Whether a scan of the root found what is published already.
pub open spec fn same_tree(store: Store, coverage: Coverage, fingerprint: Seq<char>) -> bool {
    &&& store.fingerprint is Some
    &&& store.fingerprint->0@ == fingerprint
    &&& store.saved_coverage.walk_failures == coverage.walk_failures
}

/// The revisions of the content of files.
pub open spec fn referenced(files: Seq<FileState>) -> Set<Seq<char>> {
    Set::new(|revision: Seq<char>| refers_to(files, revision))
}

/// Whether a file has the content with a revision.
pub open spec fn refers_to(files: Seq<FileState>, revision: Seq<char>) -> bool {
    exists|i: int|
        0 <= i < files.len() && (#[trigger] files[i]).revision is Some && files[i].revision->0@
            == revision
}

/// Whether `publication` says that a scan was published as a generation.
pub open spec fn notes(
    before: Store,
    started_ms: u64,
    completed_ms: u64,
    publication: Publication,
) -> bool {
    &&& publication.generation == before.saved_generation + 1
    &&& publication.root@ == root_text(before.root@)
    &&& publication.index_epoch@ == before.index_epoch@
    &&& publication.capture_started_ms == started_ms
    &&& publication.capture_completed_ms == if completed_ms < started_ms {
        started_ms
    } else {
        completed_ms
    }
}

/// Whether `after` is an index once a scan was published as the next generation: its files and
/// their regions are those of the scan, and it keeps the content that the files refer to;
/// content that it had stays as it was.
pub open spec fn published(before: Store, scan: Scan, written: Written, after: Store) -> bool {
    &&& after.root@ == before.root@
    &&& after.cache@ == before.cache@
    &&& after.index_epoch@ == before.index_epoch@
    &&& after.saved_generation == before.saved_generation + 1
    &&& after.saved_coverage == scan.coverage
    &&& after.fingerprint is Some
    &&& after.fingerprint->0@ == scan.fingerprint@
    &&& after.published is Some
    &&& notes(before, scan.started_ms, written.completed_ms, after.published->0)
    &&& publish::appended(
        before.journal.windows@,
        after.saved_generation,
        written.observations@,
        after.journal.windows@,
    )
    &&& after.snapshot.files == scan.staged.files
    &&& after.snapshot.regions == scan.staged.regions
    &&& after.snapshot.contents@ == scan.staged.contents@.union_prefer_right(
        before.snapshot.contents@,
    ).restrict(referenced(scan.staged.files@))
}

/// Whether `result` is what publishing a scan comes to, and `after` is the index then. It is as
/// it was where the scan found what is published, and where writing failed.
pub open spec fn indexed<W: FnOnce(&Snapshot, &Snapshot, i64) -> Result<Written, Failure>>(
    before: Store,
    scan: Scan,
    write: W,
    result: Result<Coverage, Failure>,
    after: Store,
) -> bool {
    if same_tree(before, scan.coverage, scan.fingerprint@) {
        after == before && result == Ok::<Coverage, Failure>(scan.coverage)
    } else {
        exists|written: Result<Written, Failure>| #[trigger]
            call_ensures(
                write,
                (&before.snapshot, &scan.staged, (before.saved_generation + 1) as i64),
                written,
            ) && match written {
                Err(failure) => after == before && result == Err::<Coverage, Failure>(failure),
                Ok(written) => published(before, scan, written, after) && result == Ok::<
                    Coverage,
                    Failure,
                >(scan.coverage),
            }
    }
}

/// The revisions of the content of files.
fn revisions_of(files: &Vec<FileState>) -> (revisions: Vec<String>)
    ensures
        tables::listed(revisions@) == referenced(files@),
{
    let mut revisions: Vec<String> = Vec::new();
    let mut i: usize = 0;
    assert(tables::listed(revisions@) =~= referenced(files@.take(0)));
    while i < files.len()
        invariant
            i <= files.len(),
            tables::listed(revisions@) == referenced(files@.take(i as int)),
        decreases files.len() - i,
    {
        let ghost before = revisions@;
        let ghost less = files@.take(i as int);
        let ghost more = files@.take(i + 1);
        if let Some(revision) = &files[i].revision {
            revisions.push(revision.clone());
        }
        proof {
            assert forall|name: Seq<char>| #[trigger] tables::listed(revisions@).contains(name)
                == referenced(more).contains(name) by {
                assert(tables::listed(before).contains(name) == referenced(less).contains(name));
                if tables::listed(revisions@).contains(name) {
                    let k = choose|k: int|
                        0 <= k < revisions@.len() && (#[trigger] revisions@[k])@ == name;
                    if k < before.len() {
                        assert(before[k]@ == name);
                        let j = choose|j: int|
                            0 <= j < less.len() && (#[trigger] less[j]).revision is Some
                                && less[j].revision->0@ == name;
                        assert(more[j] == less[j]);
                    } else {
                        assert(more[i as int].revision is Some);
                    }
                }
                if refers_to(more, name) {
                    let j = choose|j: int|
                        0 <= j < more.len() && (#[trigger] more[j]).revision is Some
                            && more[j].revision->0@ == name;
                    if j < i {
                        assert(less[j] == more[j]);
                        let k = choose|k: int|
                            0 <= k < before.len() && (#[trigger] before[k])@ == name;
                        assert(revisions@[k] == before[k]);
                    } else {
                        assert(revisions@[before.len() as int]@ == name);
                    }
                }
            }
            assert(tables::listed(revisions@) =~= referenced(more));
        }
        i += 1;
    }
    assert(files@.take(i as int) =~= files@);
    revisions
}

impl Store {
    pub open spec fn well_formed(&self) -> bool {
        &&& self.saved_generation >= 0
        &&& self.snapshot.contents.well_formed()
        &&& self.journal.well_formed()
        &&& self.journal.windows.len() > 0 ==> self.journal.windows@.last().generation
            <= self.saved_generation
    }

    /// Opens the index of a root. Both paths are without detours.
    pub fn open(root: &[u8], is_directory: bool, cache: &[u8], saved: SavedIndex) -> (result: Result<
        Store,
        Failure,
    >)
        ensures
            match open_fault(root@, is_directory, cache@, saved) {
                Some(fault) => result is Err && text::plain(result->Err_0, fault),
                None => {
                    &&& result is Ok
                    &&& result->Ok_0.root@ == root@
                    &&& result->Ok_0.cache@ == cache@
                    &&& result->Ok_0.index_epoch == saved.index_epoch
                    &&& result->Ok_0.saved_generation == saved.generation
                    &&& result->Ok_0.saved_coverage == saved.coverage
                    &&& result->Ok_0.fingerprint == saved.fingerprint
                    &&& result->Ok_0.published == saved.publication
                    &&& result->Ok_0.journal == saved.journal
                    &&& result->Ok_0.snapshot == saved.snapshot
                },
            },
    {
        if !is_directory {
            return Err(Failure::new("repository root is not a directory"));
        }
        if crate::paths::starts_with(root, cache) {
            return Err(Failure::new("cache must not contain the repository root"));
        }
        let encoded = paths::encode_path(root);
        match &saved.root {
            Some(stored) => {
                if !text::same_text(stored.as_str(), encoded.as_str()) {
                    return Err(Failure::new("cache belongs to another repository root"));
                }
            },
            None => {},
        }
        Ok(
            Store {
                root: vstd::slice::slice_to_vec(root),
                cache: vstd::slice::slice_to_vec(cache),
                index_epoch: saved.index_epoch,
                saved_generation: saved.generation,
                saved_coverage: saved.coverage,
                fingerprint: saved.fingerprint,
                published: saved.publication,
                journal: saved.journal,
                snapshot: saved.snapshot,
            },
        )
    }

    /// Whether what a database held of the index is sound.
    pub fn is_well_formed(&self) -> (yes: bool)
        requires
            self.snapshot.contents.well_formed(),
        ensures
            yes == self.well_formed(),
    {
        let windows = &self.journal.windows;
        self.saved_generation >= 0 && self.journal.is_well_formed() && (windows.len() == 0
            || windows[windows.len() - 1].generation <= self.saved_generation)
    }

    /// The published generation.
    pub fn generation(&self) -> (generation: i64)
        ensures
            generation == self.saved_generation,
    {
        self.saved_generation
    }

    /// How much of the root is published.
    pub fn coverage(&self) -> (coverage: Coverage)
        ensures
            coverage == self.saved_coverage,
    {
        self.saved_coverage
    }

    /// What was published last, if anything was.
    pub fn publication(&self) -> (publication: Option<&Publication>)
        ensures
            match publication {
                Some(publication) => self.published == Some(*publication),
                None => self.published is None,
            },
    {
        self.published.as_ref()
    }

    /// Whether a scan found what is published already.
    pub fn is_current(&self, coverage: &Coverage, fingerprint: &str) -> (current: bool)
        ensures
            current == same_tree(*self, *coverage, fingerprint@),
    {
        match &self.fingerprint {
            Some(stored) => text::same_text(stored.as_str(), fingerprint)
                && self.saved_coverage.walk_failures == coverage.walk_failures,
            None => false,
        }
    }

    /// Publishes what a scan found as the next generation, unless it is published already;
    /// `write` replaces the rows of the published snapshot by those of the scan, and tells what
    /// changed. Where it fails, the index stays as it was.
    pub fn index<W: FnOnce(&Snapshot, &Snapshot, i64) -> Result<Written, Failure>>(
        &mut self,
        scan: Scan,
        write: W,
    ) -> (result: Result<Coverage, Failure>)
        requires
            old(self).well_formed(),
            scan.staged.contents.well_formed(),
            !same_tree(*old(self), scan.coverage, scan.fingerprint@) ==> {
                &&& old(self).saved_generation < i64::MAX
                &&& call_requires(
                    write,
                    (
                        &old(self).snapshot,
                        &scan.staged,
                        (old(self).saved_generation + 1) as i64,
                    ),
                )
            },
        ensures
            final(self).well_formed(),
            indexed(*old(self), scan, write, result, *final(self)),
    {
        if self.is_current(&scan.coverage, scan.fingerprint.as_str()) {
            return Ok(scan.coverage);
        }
        let generation: i64 = self.saved_generation + 1;
        let ghost scanned = scan;
        let outcome = write(&self.snapshot, &scan.staged, generation);
        let ghost given = outcome;
        assert(call_ensures(write, (&old(self).snapshot, &scanned.staged, generation), given));
        let Scan { coverage, fingerprint, staged, started_ms } = scan;
        let written = match outcome {
            Err(failure) => {
                return Err(failure);
            },
            Ok(written) => written,
        };
        let mut publication = Publication {
            generation,
            root: paths::encode_path(self.root.as_slice()),
            index_epoch: self.index_epoch.clone(),
            capture_started_ms: started_ms,
            capture_completed_ms: started_ms,
        };
        publication.complete(written.completed_ms);
        self.journal.append_observations(generation, written.observations);
        self.saved_generation = generation;
        self.saved_coverage = coverage;
        self.fingerprint = Some(fingerprint);
        self.published = Some(publication);
        let revisions = revisions_of(&staged.files);
        self.snapshot.contents.add_new(staged.contents);
        self.snapshot.contents.keep_listed(&revisions);
        self.snapshot.files = staged.files;
        self.snapshot.regions = staged.regions;
        proof {
            publish::lemma_last_generation(
                old(self).journal.windows@,
                generation,
                given->Ok_0.observations@,
                self.journal.windows@,
            );
        }
        Ok(coverage)
    }
}

/// Whether the directory of an interrupted scan is named so; such a directory is removed
/// before the next scan.
pub fn is_abandoned_stage(name: &str, is_directory: bool) -> (yes: bool)
    ensures
        yes == (is_directory && text::begins_with(name@, "stage-"@)),
{
    let chars = text::chars_of(name);
    let prefix = text::chars_of("stage-");
    if !is_directory || chars.len() < prefix.len() {
        return false;
    }
    text::text_at(chars.as_slice(), prefix.as_slice(), 0)
}

/// Publishing the same tree twice publishes it once: after a publication the same scan finds
/// nothing to publish.
pub proof fn law_publication_settles(before: Store, scan: Scan, written: Written, after: Store)
    requires
        published(before, scan, written, after),
    ensures
        same_tree(after, scan.coverage, scan.fingerprint@),
        after.saved_generation == before.saved_generation + 1,
{
}

/// A scan is published whole or not at all: where it fails, files, their regions and the
/// published generation stay as they were; where it goes well, files and regions are those of
/// the scan, as the next generation unless they were published already.
pub proof fn law_scans_are_published_whole<
    W: FnOnce(&Snapshot, &Snapshot, i64) -> Result<Written, Failure>,
>(before: Store, scan: Scan, write: W, result: Result<Coverage, Failure>, after: Store)
    requires
        indexed(before, scan, write, result, after),
    ensures
        result is Err ==> after == before,
        result is Ok && same_tree(before, scan.coverage, scan.fingerprint@) ==> after == before,
        result is Ok && !same_tree(before, scan.coverage, scan.fingerprint@) ==> {
            &&& after.saved_generation == before.saved_generation + 1
            &&& after.snapshot.files == scan.staged.files
            &&& after.snapshot.regions == scan.staged.regions
            &&& same_tree(after, scan.coverage, scan.fingerprint@)
        },
{
}

/// A publication keeps exactly the content that its files refer to, as far as the scan or the
/// index before it had it: nothing else stays, and content under a revision is never replaced.
pub proof fn law_only_referenced_content_stays(
    before: Store,
    scan: Scan,
    written: Written,
    after: Store,
    revision: Seq<char>,
)
    requires
        published(before, scan, written, after),
    ensures
        after.snapshot.contents@.contains_key(revision) <==> refers_to(
            after.snapshot.files@,
            revision,
        ) && (scan.staged.contents@.contains_key(revision)
            || before.snapshot.contents@.contains_key(revision)),
        after.snapshot.contents@.contains_key(revision) ==> after.snapshot.contents@[revision]
            == if before.snapshot.contents@.contains_key(revision) {
            before.snapshot.contents@[revision]
        } else {
            scan.staged.contents@[revision]
        },
{
}

} // verus!
