//! What changed between two publications of an index, and for how long that is remembered.

use crate::text;
use crate::text::Failure;
use vstd::prelude::*;

verus! {

/// No more changes are remembered.
pub const MAX_OBSERVATIONS: usize = 4096;

/// No more bytes of changes are remembered.
pub const MAX_JOURNAL_BYTES: usize = 4_194_304;

/// No more generations are remembered.
pub const MAX_WINDOWS: i64 = 256;

/// A published generation: of which root, in which database, and when it was captured.
#[derive(Debug)]
pub struct Publication {
    pub generation: i64,
    pub root: String,
    pub index_epoch: String,
    pub capture_started_ms: u64,
    pub capture_completed_ms: u64,
}

impl Publication {
    /// Notes the end of the capture, which is never before its start.
    pub fn complete(&mut self, now_ms: u64)
        ensures
            final(self).generation == old(self).generation,
            final(self).root@ == old(self).root@,
            final(self).index_epoch@ == old(self).index_epoch@,
            final(self).capture_started_ms == old(self).capture_started_ms,
            final(self).capture_completed_ms == if now_ms < old(self).capture_started_ms {
                old(self).capture_started_ms
            } else {
                now_ms
            },
    {
        self.capture_completed_ms =
        if now_ms < self.capture_started_ms {
            self.capture_started_ms
        } else {
            now_ms
        };
    }
}

/// What is known of a file in an index.
#[derive(Debug)]
pub struct FileState {
    pub path: String,
    pub revision: Option<String>,
    pub status: String,
    pub bytes: u64,
}

/// Whether files are in the order of their paths, each path once.
pub open spec fn in_order(files: Seq<FileState>) -> bool {
    forall|i: int, j: int|
        0 <= i < j < files.len() ==> text::comes_before(
            (#[trigger] files[i]).path@,
            (#[trigger] files[j]).path@,
        )
}

/// Whether two optional texts say the same.
pub open spec fn same_revision(a: Option<String>, b: Option<String>) -> bool {
    match (a, b) {
        (Some(a), Some(b)) => a@ == b@,
        (None, None) => true,
        _ => false,
    }
}

fn revisions_agree(a: &Option<String>, b: &Option<String>) -> (same: bool)
    ensures
        same == same_revision(*a, *b),
{
    match (a, b) {
        (Some(a), Some(b)) => text::same_text(a.as_str(), b.as_str()),
        (None, None) => true,
        _ => false,
    }
}

/// Whether a file is not what it was.
pub open spec fn altered(before: FileState, after: FileState) -> bool {
    !same_revision(before.revision, after.revision) || before.status@ != after.status@
        || before.bytes != after.bytes
}

/// A file that was added, removed or altered: its place among the files before and after.
#[derive(Clone, Copy, Debug, PartialEq, Eq, Structural)]
pub struct Changed {
    pub before: Option<usize>,
    pub after: Option<usize>,
}

/// The path of a change.
pub open spec fn changed_path(
    before: Seq<FileState>,
    after: Seq<FileState>,
    change: Changed,
) -> Seq<char> {
    match change.before {
        Some(i) => before[i as int].path@,
        None => after[change.after->0 as int].path@,
    }
}

/// Whether some file has a path.
pub open spec fn has_path(files: Seq<FileState>, path: Seq<char>) -> bool {
    exists|i: int| 0 <= i < files.len() && (#[trigger] files[i]).path@ == path
}

/// Whether a change is one between the files before and after.
pub open spec fn is_change(before: Seq<FileState>, after: Seq<FileState>, change: Changed) -> bool {
    match (change.before, change.after) {
        (Some(i), Some(j)) => i < before.len() && j < after.len() && before[i as int].path@
            == after[j as int].path@ && altered(before[i as int], after[j as int]),
        (Some(i), None) => i < before.len() && !has_path(after, before[i as int].path@),
        (None, Some(j)) => j < after.len() && !has_path(before, after[j as int].path@),
        (None, None) => false,
    }
}

/// Whether changes are in the order of their paths.
pub open spec fn changes_in_order(
    before: Seq<FileState>,
    after: Seq<FileState>,
    changes: Seq<Changed>,
) -> bool {
    forall|i: int, j: int|
        0 <= i < j < changes.len() ==> text::comes_before(
            changed_path(before, after, #[trigger] changes[i]),
            changed_path(before, after, #[trigger] changes[j]),
        )
}

/// Whether `changes` are the first changes between the files before and after, in the order of
/// their paths: all of them, or so many that one more would be over the limit.
pub open spec fn first_changes(
    before: Seq<FileState>,
    after: Seq<FileState>,
    changes: Seq<Changed>,
    limit: int,
) -> bool {
    &&& changes.len() <= limit
    &&& changes_in_order(before, after, changes)
    &&& forall|k: int| 0 <= k < changes.len() ==> is_change(before, after, #[trigger] changes[k])
    &&& forall|change: Changed| #[trigger]
        is_change(before, after, change) ==> changes.contains(change) || (changes.len() == limit
            && forall|k: int|
            0 <= k < changes.len() ==> text::comes_before(
                changed_path(before, after, #[trigger] changes[k]),
                changed_path(before, after, change),
            ))
}

/// What is known of changes while two lists are merged: `i` files before and `j` files after
/// are done.
spec fn merging(
    before: Seq<FileState>,
    after: Seq<FileState>,
    changes: Seq<Changed>,
    i: int,
    j: int,
) -> bool {
    &&& changes_in_order(before, after, changes)
    &&& forall|k: int|
        0 <= k < changes.len() ==> is_change(before, after, #[trigger] changes[k]) && done(
            changes[k],
            i,
            j,
        )
    &&& forall|change: Changed| #[trigger]
        is_change(before, after, change) && done(change, i, j) ==> changes.contains(change)
    &&& forall|a: int, b: int|
        0 <= a < i && j <= b < after.len() ==> text::comes_before(
            (#[trigger] before[a]).path@,
            (#[trigger] after[b]).path@,
        )
    &&& forall|a: int, b: int|
        i <= a < before.len() && 0 <= b < j ==> text::comes_before(
            (#[trigger] after[b]).path@,
            (#[trigger] before[a]).path@,
        )
}

/// Whether a change is among the files that are done.
spec fn done(change: Changed, i: int, j: int) -> bool {
    (change.before matches Some(a) ==> a < i) && (change.after matches Some(b) ==> b < j)
}

/// The first changes between the files before and after, in the order of their paths, which is
/// that of both lists.
pub fn changed_files(before: &Vec<FileState>, after: &Vec<FileState>, limit: usize) -> (changes: Vec<
    Changed,
>)
    requires
        in_order(before@),
        in_order(after@),
    ensures
        first_changes(before@, after@, changes@, limit as int),
{
    let mut changes: Vec<Changed> = Vec::new();
    let mut i: usize = 0;
    let mut j: usize = 0;
    while (i < before.len() || j < after.len()) && changes.len() < limit
        invariant
            i <= before.len(),
            j <= after.len(),
            changes.len() <= limit,
            in_order(before@),
            in_order(after@),
            merging(before@, after@, changes@, i as int, j as int),
        decreases before.len() - i + after.len() - j,
    {
        let side = if i == before.len() {
            text::Rank::After
        } else if j == after.len() {
            text::Rank::Before
        } else {
            text::rank(before[i].path.as_str(), after[j].path.as_str())
        };
        let ghost was = changes@;
        match side {
            text::Rank::Before => {
                let change = Changed { before: Some(i), after: None };
                proof {
                    lemma_only_before(before@, after@, was, i as int, j as int);
                }
                changes.push(change);
                i += 1;
            },
            text::Rank::After => {
                let change = Changed { before: None, after: Some(j) };
                proof {
                    lemma_only_after(before@, after@, was, i as int, j as int);
                }
                changes.push(change);
                j += 1;
            },
            text::Rank::Same => {
                let changed = !revisions_agree(&before[i].revision, &after[j].revision)
                    || !text::same_text(before[i].status.as_str(), after[j].status.as_str())
                    || before[i].bytes != after[j].bytes;
                proof {
                    lemma_both(before@, after@, was, i as int, j as int);
                }
                if changed {
                    changes.push(Changed { before: Some(i), after: Some(j) });
                }
                i += 1;
                j += 1;
            },
        }
    }
    proof {
        assert forall|change: Changed| #[trigger]
            is_change(before@, after@, change) implies changes@.contains(change) || (changes.len()
            == limit && forall|k: int|
            0 <= k < changes.len() ==> text::comes_before(
                changed_path(before@, after@, #[trigger] changes@[k]),
                changed_path(before@, after@, change),
            )) by {
            if !changes@.contains(change) {
                assert(!done(change, i as int, j as int));
                assert forall|k: int| 0 <= k < changes.len() implies text::comes_before(
                    changed_path(before@, after@, #[trigger] changes@[k]),
                    changed_path(before@, after@, change),
                ) by {
                    lemma_later(before@, after@, changes@[k], change, i as int, j as int);
                }
            }
        }
    }
    changes
}

/// A change that is not done comes after one that is.
proof fn lemma_later(
    before: Seq<FileState>,
    after: Seq<FileState>,
    first: Changed,
    second: Changed,
    i: int,
    j: int,
)
    requires
        in_order(before),
        in_order(after),
        0 <= i <= before.len(),
        0 <= j <= after.len(),
        is_change(before, after, first),
        is_change(before, after, second),
        done(first, i, j),
        !done(second, i, j),
        forall|a: int, b: int|
            0 <= a < i && j <= b < after.len() ==> text::comes_before(
                (#[trigger] before[a]).path@,
                (#[trigger] after[b]).path@,
            ),
        forall|a: int, b: int|
            i <= a < before.len() && 0 <= b < j ==> text::comes_before(
                (#[trigger] after[b]).path@,
                (#[trigger] before[a]).path@,
            ),
    ensures
        text::comes_before(changed_path(before, after, first), changed_path(before, after, second)),
{
    match (first.before, first.after) {
        (Some(a), _) => {
            assert(before[a as int].path@ == changed_path(before, after, first));
            match (second.before, second.after) {
                (Some(c), Some(d)) => {
                    if c >= i {
                        assert(text::comes_before(before[a as int].path@, before[c as int].path@));
                    } else {
                        assert(text::comes_before(before[a as int].path@, after[d as int].path@));
                    }
                },
                (Some(c), None) => {
                    assert(text::comes_before(before[a as int].path@, before[c as int].path@));
                },
                (None, Some(d)) => {
                    assert(text::comes_before(before[a as int].path@, after[d as int].path@));
                },
                _ => {},
            }
        },
        (None, Some(b)) => {
            match (second.before, second.after) {
                (Some(c), Some(d)) => {
                    if c >= i {
                        assert(text::comes_before(after[b as int].path@, before[c as int].path@));
                    } else {
                        assert(text::comes_before(after[b as int].path@, after[d as int].path@));
                    }
                },
                (Some(c), None) => {
                    assert(text::comes_before(after[b as int].path@, before[c as int].path@));
                },
                (None, Some(d)) => {
                    assert(text::comes_before(after[b as int].path@, after[d as int].path@));
                },
                _ => {},
            }
        },
        _ => {},
    }
}

/// A change that comes after those that are done keeps their order.
proof fn lemma_pushed(
    before: Seq<FileState>,
    after: Seq<FileState>,
    changes: Seq<Changed>,
    change: Changed,
    i: int,
    j: int,
)
    requires
        in_order(before),
        in_order(after),
        0 <= i <= before.len(),
        0 <= j <= after.len(),
        merging(before, after, changes, i, j),
        is_change(before, after, change),
        !done(change, i, j),
    ensures
        changes_in_order(before, after, changes.push(change)),
{
    let more = changes.push(change);
    assert forall|a: int, b: int| 0 <= a < b < more.len() implies text::comes_before(
        changed_path(before, after, #[trigger] more[a]),
        changed_path(before, after, #[trigger] more[b]),
    ) by {
        if b == changes.len() {
            assert(more[a] == changes[a]);
            lemma_later(before, after, changes[a], change, i, j);
        } else {
            assert(more[a] == changes[a] && more[b] == changes[b]);
        }
    }
}

proof fn lemma_only_before(
    before: Seq<FileState>,
    after: Seq<FileState>,
    changes: Seq<Changed>,
    i: int,
    j: int,
)
    requires
        in_order(before),
        in_order(after),
        0 <= i < before.len() <= usize::MAX,
        0 <= j <= after.len(),
        merging(before, after, changes, i, j),
        j < after.len() ==> text::comes_before(before[i].path@, after[j].path@),
    ensures
        merging(
            before,
            after,
            changes.push(Changed { before: Some(i as usize), after: None }),
            i + 1,
            j,
        ),
{
    let change = Changed { before: Some(i as usize), after: None };
    let more = changes.push(change);
    let path = before[i].path@;
    assert forall|b: int| 0 <= b < after.len() implies (#[trigger] after[b]).path@ != path && (b
        >= j ==> text::comes_before(path, after[b].path@)) by {
        if b < j {
            assert(text::comes_before(after[b].path@, before[i].path@));
        } else if b > j {
            assert(text::comes_before(after[j].path@, after[b].path@));
            text::lemma_before_goes_on(path, after[j].path@, after[b].path@);
        }
        text::lemma_before_is_total(path, after[b].path@);
    }
    assert(!has_path(after, path));
    assert(is_change(before, after, change));
    lemma_pushed(before, after, changes, change, i, j);
    assert forall|k: int| 0 <= k < more.len() implies is_change(before, after, #[trigger] more[k])
        && done(more[k], i + 1, j) by {
        if k < changes.len() {
            assert(more[k] == changes[k]);
        }
    }
    assert forall|other: Changed| #[trigger]
        is_change(before, after, other) && done(other, i + 1, j) implies more.contains(other) by {
        if done(other, i, j) {
            assert(changes.contains(other));
            let k = choose|k: int| 0 <= k < changes.len() && changes[k] == other;
            assert(more[k] == other);
        } else {
            assert(other.before == Some(i as usize));
            assert(other.after is None);
            assert(more[changes.len() as int] == other);
        }
    }
    assert forall|a: int, b: int| i + 1 <= a < before.len() && 0 <= b < j implies text::comes_before(
        (#[trigger] after[b]).path@,
        (#[trigger] before[a]).path@,
    ) by {}
}

proof fn lemma_only_after(
    before: Seq<FileState>,
    after: Seq<FileState>,
    changes: Seq<Changed>,
    i: int,
    j: int,
)
    requires
        in_order(before),
        in_order(after),
        0 <= i <= before.len(),
        0 <= j < after.len() <= usize::MAX,
        merging(before, after, changes, i, j),
        i < before.len() ==> !text::comes_before(before[i].path@, after[j].path@) && before[i].path@
            != after[j].path@,
    ensures
        merging(
            before,
            after,
            changes.push(Changed { before: None, after: Some(j as usize) }),
            i,
            j + 1,
        ),
{
    let change = Changed { before: None, after: Some(j as usize) };
    let more = changes.push(change);
    let path = after[j].path@;
    assert forall|a: int| 0 <= a < before.len() implies (#[trigger] before[a]).path@ != path && (a
        >= i ==> text::comes_before(path, before[a].path@)) by {
        if a < i {
            assert(text::comes_before(before[a].path@, after[j].path@));
        } else {
            text::lemma_before_is_total(path, before[i].path@);
            if a > i {
                assert(text::comes_before(before[i].path@, before[a].path@));
                text::lemma_before_goes_on(path, before[i].path@, before[a].path@);
            }
        }
        text::lemma_before_is_total(path, before[a].path@);
    }
    assert(!has_path(before, path));
    assert(is_change(before, after, change));
    lemma_pushed(before, after, changes, change, i, j);
    assert forall|k: int| 0 <= k < more.len() implies is_change(before, after, #[trigger] more[k])
        && done(more[k], i, j + 1) by {
        if k < changes.len() {
            assert(more[k] == changes[k]);
        }
    }
    assert forall|other: Changed| #[trigger]
        is_change(before, after, other) && done(other, i, j + 1) implies more.contains(other) by {
        if done(other, i, j) {
            assert(changes.contains(other));
            let k = choose|k: int| 0 <= k < changes.len() && changes[k] == other;
            assert(more[k] == other);
        } else {
            assert(other.after == Some(j as usize));
            assert(other.before is None);
            assert(more[changes.len() as int] == other);
        }
    }
}

proof fn lemma_both(
    before: Seq<FileState>,
    after: Seq<FileState>,
    changes: Seq<Changed>,
    i: int,
    j: int,
)
    requires
        in_order(before),
        in_order(after),
        0 <= i < before.len() <= usize::MAX,
        0 <= j < after.len() <= usize::MAX,
        merging(before, after, changes, i, j),
        before[i].path@ == after[j].path@,
    ensures
        altered(before[i], after[j]) ==> merging(
            before,
            after,
            changes.push(Changed { before: Some(i as usize), after: Some(j as usize) }),
            i + 1,
            j + 1,
        ),
        !altered(before[i], after[j]) ==> merging(before, after, changes, i + 1, j + 1),
{
    let change = Changed { before: Some(i as usize), after: Some(j as usize) };
    let more = if altered(before[i], after[j]) {
        changes.push(change)
    } else {
        changes
    };
    if altered(before[i], after[j]) {
        assert(is_change(before, after, change));
        lemma_pushed(before, after, changes, change, i, j);
    }
    assert forall|k: int| 0 <= k < more.len() implies is_change(before, after, #[trigger] more[k])
        && done(more[k], i + 1, j + 1) by {
        if k < changes.len() {
            assert(more[k] == changes[k]);
        }
    }
    assert forall|other: Changed| #[trigger]
        is_change(before, after, other) && done(other, i + 1, j + 1) implies more.contains(
        other,
    ) by {
        if done(other, i, j) {
            assert(changes.contains(other));
            let k = choose|k: int| 0 <= k < changes.len() && changes[k] == other;
            assert(more[k] == other);
        } else {
            match (other.before, other.after) {
                (Some(a), Some(b)) => {
                    if a == i && b < j {
                        assert(text::comes_before(after[b as int].path@, before[i].path@));
                        text::lemma_before_is_total(after[b as int].path@, before[i].path@);
                    } else if a < i && b == j {
                        assert(text::comes_before(before[a as int].path@, after[j].path@));
                        text::lemma_before_is_total(before[a as int].path@, after[j].path@);
                    }
                    assert(other == change);
                    assert(more[changes.len() as int] == other);
                },
                (Some(a), None) => {
                    assert(a == i);
                    assert(has_path(after, before[i].path@));
                },
                (None, Some(b)) => {
                    assert(b == j);
                    assert(has_path(before, after[j].path@));
                },
                _ => {},
            }
        }
    }
    assert forall|a: int, b: int| 0 <= a < i + 1 && j + 1 <= b < after.len() implies text::comes_before(
        (#[trigger] before[a]).path@,
        (#[trigger] after[b]).path@,
    ) by {
        if a == i {
            assert(text::comes_before(after[j].path@, after[b].path@));
        }
    }
    assert forall|a: int, b: int| i + 1 <= a < before.len() && 0 <= b < j + 1 implies text::comes_before(
        (#[trigger] after[b]).path@,
        (#[trigger] before[a]).path@,
    ) by {
        if b == j {
            assert(text::comes_before(before[i].path@, before[a].path@));
        }
    }
}

/// Whether a file that left the index is still there.
#[derive(Clone, Copy, Debug, PartialEq, Eq, Structural)]
pub enum Presence {
    Present,
    Missing,
    Unknown,
}

/// What happened to a file; `presence` counts for one that left the index.
pub fn change_kind(
    before: Option<&FileState>,
    after: Option<&FileState>,
    presence: Presence,
) -> (kind: &'static str)
    ensures
        kind@ == match (before, after) {
            (None, _) => "added"@,
            (Some(_), None) => match presence {
                Presence::Present => "ignored_or_excluded"@,
                Presence::Missing => "deleted"@,
                Presence::Unknown => "coverage_unknown"@,
            },
            (Some(before), Some(after)) => if before.status@ != after.status@ || (
            before.revision is Some) != (after.revision is Some) {
                "coverage_changed"@
            } else {
                "modified"@
            },
        },
{
    match before {
        None => "added",
        Some(before) => match after {
            None => match presence {
                Presence::Present => "ignored_or_excluded",
                Presence::Missing => "deleted",
                Presence::Unknown => "coverage_unknown",
            },
            Some(after) => {
                if !text::same_text(before.status.as_str(), after.status.as_str())
                    || before.revision.is_some() != after.revision.is_some() {
                    "coverage_changed"
                } else {
                    "modified"
                }
            },
        },
    }
}

/// A change as it is remembered: the path of the file, and a description.
#[derive(Debug)]
pub struct Observation {
    pub path: String,
    pub value: String,
}

impl Observation {
    /// How many bytes a change takes.
    pub open spec fn size(self) -> int {
        (vstd::utf8::encode_utf8(self.value@).len() + vstd::utf8::encode_utf8(
            self.path@,
        ).len()) as int
    }

    fn measure(&self) -> (size: u128)
        ensures
            size == self.size(),
            size <= 2 * usize::MAX,
    {
        self.value.as_str().as_bytes().len() as u128 + self.path.as_str().as_bytes().len() as u128
    }
}

/// How many bytes changes take.
pub open spec fn sizes(observations: Seq<Observation>) -> int
    decreases observations.len(),
{
    if observations.len() == 0 {
        0
    } else {
        sizes(observations.drop_last()) + observations.last().size()
    }
}

proof fn lemma_sizes(observations: Seq<Observation>)
    ensures
        sizes(observations) >= 0,
    decreases observations.len(),
{
    if observations.len() > 0 {
        lemma_sizes(observations.drop_last());
    }
}

proof fn lemma_sizes_grow(observations: Seq<Observation>, n: int)
    requires
        0 <= n <= observations.len(),
    ensures
        sizes(observations.take(n)) <= sizes(observations),
    decreases observations.len() - n,
{
    if n < observations.len() {
        assert(observations.take(n + 1).drop_last() =~= observations.take(n));
        lemma_sizes_grow(observations, n + 1);
    } else {
        assert(observations.take(n) =~= observations);
    }
}

/// Whether so many changes can be remembered of one generation.
pub open spec fn fits(observations: Seq<Observation>) -> bool {
    observations.len() <= MAX_OBSERVATIONS && sizes(observations) <= MAX_JOURNAL_BYTES
}

/// What is remembered of one generation: its changes, and whether these are all.
#[derive(Debug)]
pub struct Window {
    pub generation: i64,
    pub complete: bool,
    pub observations: Vec<Observation>,
}

/// How many changes windows hold.
pub open spec fn count_in(windows: Seq<Window>) -> int
    decreases windows.len(),
{
    if windows.len() == 0 {
        0
    } else {
        count_in(windows.skip(1)) + windows[0].observations.len()
    }
}

/// How many bytes windows hold.
pub open spec fn size_in(windows: Seq<Window>) -> int
    decreases windows.len(),
{
    if windows.len() == 0 {
        0
    } else {
        size_in(windows.skip(1)) + sizes(windows[0].observations@)
    }
}

/// Whether windows are within the bounds of what is remembered.
pub open spec fn remembered(windows: Seq<Window>) -> bool {
    count_in(windows) <= MAX_OBSERVATIONS && size_in(windows) <= MAX_JOURNAL_BYTES
}

/// What is remembered of the latest generations.
#[derive(Debug)]
pub struct Journal {
    pub windows: Vec<Window>,
}

/// Whether generations rise.
pub open spec fn generations_rise(windows: Seq<Window>) -> bool {
    forall|i: int, j: int|
        0 <= i < j < windows.len() ==> (#[trigger] windows[i]).generation < (
        #[trigger] windows[j]).generation
}

/// Whether `window` remembers changes of a generation: as many of the first as fit.
pub open spec fn records(generation: i64, observations: Seq<Observation>, window: Window) -> bool {
    &&& window.generation == generation
    &&& window.observations.len() <= observations.len()
    &&& window.observations@ == observations.take(window.observations.len() as int)
    &&& fits(window.observations@)
    &&& window.complete == (window.observations.len() == observations.len())
    &&& !window.complete ==> !fits(observations.take(window.observations.len() + 1))
}

/// How many of the first windows are forgotten: those that are too old, then as many more as
/// it takes.
pub open spec fn forgotten(windows: Seq<Window>, generation: i64, n: int) -> bool {
    &&& 0 <= n <= windows.len()
    &&& remembered(windows.skip(n))
    &&& forall|i: int|
        0 <= i < windows.len() && #[trigger] windows[i].generation <= generation - MAX_WINDOWS
            ==> i < n
    &&& forall|m: int|
        0 <= m < n && (forall|i: int|
            0 <= i < windows.len() && #[trigger] windows[i].generation <= generation - MAX_WINDOWS
                ==> i < m) ==> !remembered(#[trigger] windows.skip(m))
}

/// Whether `after` is a journal once the changes of a new generation were noted.
pub open spec fn appended(
    before: Seq<Window>,
    generation: i64,
    observations: Seq<Observation>,
    after: Seq<Window>,
) -> bool {
    exists|window: Window, n: int|
        {
            &&& #[trigger] records(generation, observations, window)
            &&& #[trigger] forgotten(before.push(window), generation, n)
            &&& after == before.push(window).skip(n)
        }
}

impl Journal {
    pub open spec fn well_formed(&self) -> bool {
        generations_rise(self.windows@) && remembered(self.windows@)
    }

    pub fn new() -> (journal: Self)
        ensures
            journal.well_formed(),
            journal.windows.len() == 0,
    {
        Journal { windows: Vec::new() }
    }

    /// Notes the changes of a new generation, and forgets the oldest generations, each as a
    /// whole, so that readers can tell what is missing.
    pub fn append_observations(&mut self, generation: i64, observations: Vec<Observation>)
        requires
            old(self).well_formed(),
            old(self).windows.len() > 0 ==> old(self).windows@.last().generation < generation,
            generation >= 0,
        ensures
            final(self).well_formed(),
            appended(old(self).windows@, generation, observations@, final(self).windows@),
    {
        let ghost old_windows = self.windows@;
        let window = record(generation, observations);
        let ghost added = window;
        self.windows.push(window);
        let ghost all = self.windows@;
        assert(all == old_windows.push(added));
        assert(generations_rise(all)) by {
            assert forall|i: int, j: int| 0 <= i < j < all.len() implies (
            #[trigger] all[i]).generation < (#[trigger] all[j]).generation by {
                if j == old_windows.len() {
                    assert(all[i] == old_windows[i]);
                    let last = old_windows.len() - 1;
                    if i < last {
                        assert(old_windows[i].generation < old_windows[last].generation);
                    }
                } else {
                    assert(all[i] == old_windows[i] && all[j] == old_windows[j]);
                }
            }
        }
        let ghost mut n: int = 0;
        assert(all.skip(0) =~= all);
        while self.windows.len() > 0 && self.windows[0].generation <= generation - MAX_WINDOWS
            invariant
                generation >= 0,
                generations_rise(all),
                0 <= n <= all.len(),
                self.windows@ == all.skip(n),
                forall|m: int|
                    0 <= m < n ==> (#[trigger] all[m]).generation <= generation - MAX_WINDOWS,
            decreases self.windows.len(),
        {
            assert(self.windows@[0] == all[n]);
            let dropped = self.windows.remove(0);
            proof {
                n = n + 1;
                assert(self.windows@ =~= all.skip(n));
            }
        }
        let ghost aged = n;
        proof {
            assert forall|i: int|
                0 <= i < all.len() && #[trigger] all[i].generation <= generation
                    - MAX_WINDOWS implies i < aged by {
                if i >= aged {
                    assert(self.windows@[0] == all[aged]);
                    if i > aged {
                        assert(all[aged].generation < all[i].generation);
                    }
                }
            }
        }
        while !self.is_remembered()
            invariant
                generations_rise(all),
                0 <= aged <= n <= all.len(),
                self.windows@ == all.skip(n),
                forall|m: int| aged <= m < n ==> !remembered(#[trigger] all.skip(m)),
            decreases self.windows.len(),
        {
            if self.windows.len() == 0 {
                assert(self.windows@ =~= Seq::<Window>::empty());
                return;
            }
            let dropped = self.windows.remove(0);
            proof {
                assert(self.windows@ =~= all.skip(n + 1));
                n = n + 1;
            }
        }
        proof {
            assert(records(generation, observations@, added));
            assert forall|m: int|
                0 <= m < n && (forall|i: int|
                    0 <= i < all.len() && #[trigger] all[i].generation <= generation - MAX_WINDOWS
                        ==> i < m) implies !remembered(#[trigger] all.skip(m)) by {
                if m < aged {
                    assert(all[m].generation <= generation - MAX_WINDOWS);
                }
            }
            assert(forgotten(old_windows.push(added), generation, n));
            assert forall|i: int, j: int| 0 <= i < j < self.windows.len() implies (
            #[trigger] self.windows@[i]).generation < (
            #[trigger] self.windows@[j]).generation by {
                assert(self.windows@[i] == all[i + n]);
                assert(self.windows@[j] == all[j + n]);
            }
        }
    }

    /// Whether what was remembered is in order, and within its bounds.
    pub fn is_well_formed(&self) -> (yes: bool)
        ensures
            yes == self.well_formed(),
    {
        let mut i: usize = 1;
        while i < self.windows.len()
            invariant
                1 <= i,
                i <= self.windows.len() || self.windows.len() == 0,
                generations_rise(self.windows@.take(i as int)) || self.windows.len() == 0,
            decreases self.windows.len() - i,
        {
            let ghost less = self.windows@.take(i as int);
            let ghost more = self.windows@.take(i + 1);
            if self.windows[i - 1].generation >= self.windows[i].generation {
                assert(self.windows@[i - 1].generation >= self.windows@[i as int].generation);
                return false;
            }
            assert forall|a: int, b: int| 0 <= a < b < more.len() implies (
            #[trigger] more[a]).generation < (#[trigger] more[b]).generation by {
                assert(more[a] == less[a]);
                if b < i {
                    assert(more[b] == less[b]);
                } else if a < i - 1 {
                    assert(less[a].generation < less[i - 1].generation);
                }
            }
            i += 1;
        }
        assert(self.windows.len() > 0 ==> self.windows@.take(i as int) =~= self.windows@);
        self.is_remembered()
    }

    fn is_remembered(&self) -> (yes: bool)
        ensures
            yes == remembered(self.windows@),
    {
        let mut count: u128 = 0;
        let mut size: u128 = 0;
        let mut i: usize = self.windows.len();
        assert(self.windows@.skip(i as int) =~= Seq::<Window>::empty());
        while i > 0
            invariant
                i <= self.windows.len(),
                count == count_in(self.windows@.skip(i as int)),
                size == size_in(self.windows@.skip(i as int)),
                count <= MAX_OBSERVATIONS,
                size <= MAX_JOURNAL_BYTES,
            decreases i,
        {
            i -= 1;
            let ghost rest = self.windows@.skip(i as int);
            assert(rest.skip(1) =~= self.windows@.skip(i + 1));
            assert(rest[0] == self.windows@[i as int]);
            let held = measure_all(&self.windows[i].observations);
            count = count + self.windows[i].observations.len() as u128;
            let over = match held {
                None => true,
                Some(held) => {
                    size = size + held;
                    size > MAX_JOURNAL_BYTES as u128
                },
            };
            if over || count > MAX_OBSERVATIONS as u128 {
                proof {
                    lemma_more_windows(self.windows@, i as int);
                }
                return false;
            }
        }
        assert(self.windows@.skip(0) =~= self.windows@);
        true
    }
}

/// After a generation was noted, no later one is remembered.
pub proof fn lemma_last_generation(
    before: Seq<Window>,
    generation: i64,
    observations: Seq<Observation>,
    after: Seq<Window>,
)
    requires
        appended(before, generation, observations, after),
    ensures
        after.len() > 0 ==> after.last().generation == generation,
{
}

/// More windows hold more.
proof fn lemma_more_windows(windows: Seq<Window>, n: int)
    requires
        0 <= n <= windows.len(),
    ensures
        count_in(windows.skip(n)) <= count_in(windows),
        size_in(windows.skip(n)) <= size_in(windows),
    decreases n,
{
    if n == 0 {
        assert(windows.skip(0) =~= windows);
    } else {
        assert(windows.skip(n - 1).skip(1) =~= windows.skip(n));
        lemma_sizes(windows.skip(n - 1)[0].observations@);
        lemma_more_windows(windows, n - 1);
    }
}

/// How many bytes changes take, if no more than are ever remembered.
fn measure_all(observations: &Vec<Observation>) -> (size: Option<u128>)
    ensures
        match size {
            Some(size) => size == sizes(observations@) && size <= MAX_JOURNAL_BYTES,
            None => sizes(observations@) > MAX_JOURNAL_BYTES,
        },
{
    let mut size: u128 = 0;
    let mut i: usize = 0;
    while i < observations.len()
        invariant
            i <= observations.len(),
            size == sizes(observations@.take(i as int)),
            size <= MAX_JOURNAL_BYTES,
        decreases observations.len() - i,
    {
        assert(observations@.take(i + 1).drop_last() =~= observations@.take(i as int));
        size = size + observations[i].measure();
        if size > MAX_JOURNAL_BYTES as u128 {
            proof {
                lemma_sizes_grow(observations@, i + 1);
            }
            return None;
        }
        i += 1;
    }
    assert(observations@.take(i as int) =~= observations@);
    Some(size)
}

/// The window that remembers changes of a generation.
fn record(generation: i64, observations: Vec<Observation>) -> (window: Window)
    ensures
        records(generation, observations@, window),
{
    let ghost all = observations@;
    let mut kept: usize = 0;
    let mut size: u128 = 0;
    while kept < observations.len() && kept < MAX_OBSERVATIONS
        invariant
            kept <= observations.len(),
            kept <= MAX_OBSERVATIONS,
            all == observations@,
            size == sizes(all.take(kept as int)),
            size <= MAX_JOURNAL_BYTES,
        decreases observations.len() - kept,
    {
        assert(all.take(kept + 1).drop_last() =~= all.take(kept as int));
        let next: u128 = observations[kept].measure();
        if size + next > MAX_JOURNAL_BYTES as u128 {
            let mut held = observations;
            held.truncate(kept);
            assert(held@ =~= all.take(kept as int));
            return Window { generation, complete: false, observations: held };
        }
        size = size + next;
        kept += 1;
    }
    let complete = kept == observations.len();
    let mut held = observations;
    held.truncate(kept);
    assert(held@ =~= all.take(kept as int));
    Window { generation, complete, observations: held }
}

/// What is remembered of an interval of generations.
#[derive(Debug)]
pub struct PublicationObservations<'a> {
    pub from_generation: i64,
    pub to_generation: i64,
    pub retained_generation_floor: i64,
    pub complete: bool,
    pub changes: Vec<&'a Observation>,
}

/// Whether a window is of an interval of generations, without its start.
pub open spec fn within(window: Window, from: i64, to: i64) -> bool {
    from < window.generation <= to
}

/// How many windows are of an interval.
pub open spec fn windows_within(windows: Seq<Window>, from: i64, to: i64) -> int
    decreases windows.len(),
{
    if windows.len() == 0 {
        0
    } else {
        windows_within(windows.drop_last(), from, to) + if within(windows.last(), from, to) {
            1int
        } else {
            0int
        }
    }
}

/// The changes of an interval, one generation after the other.
pub open spec fn changes_within(windows: Seq<Window>, from: i64, to: i64) -> Seq<Observation>
    decreases windows.len(),
{
    if windows.len() == 0 {
        Seq::empty()
    } else if within(windows.last(), from, to) {
        changes_within(windows.drop_last(), from, to) + windows.last().observations@
    } else {
        changes_within(windows.drop_last(), from, to)
    }
}

/// Whether nothing is missing of an interval: there is a window for each generation, and each
/// has all changes.
pub open spec fn interval_complete(windows: Seq<Window>, from: i64, to: i64) -> bool {
    &&& windows_within(windows, from, to) == to - from
    &&& forall|i: int|
        0 <= i < windows.len() && within(#[trigger] windows[i], from, to) ==> windows[i].complete
}

/// The earliest generation that is remembered.
pub open spec fn floor_of(windows: Seq<Window>, to: i64) -> int {
    if windows.len() == 0 {
        to + 1
    } else {
        windows[0].generation as int
    }
}

/// What is remembered of the generations after one, up to another.
pub fn observations_since<'a>(journal: &'a Journal, from: i64, to: i64) -> (result: Result<
    PublicationObservations<'a>,
    Failure,
>)
    requires
        journal.well_formed(),
        to < i64::MAX,
    ensures
        if from < 0 || from > to {
            result is Err && text::plain(
                result->Err_0,
                "invalid publication observation generation"@,
            )
        } else {
            &&& result is Ok
            &&& result->Ok_0.from_generation == from
            &&& result->Ok_0.to_generation == to
            &&& result->Ok_0.retained_generation_floor == floor_of(journal.windows@, to)
            &&& result->Ok_0.complete == interval_complete(journal.windows@, from, to)
            &&& result->Ok_0.changes.len() == changes_within(journal.windows@, from, to).len()
            &&& forall|i: int|
                0 <= i < result->Ok_0.changes.len() ==> *(#[trigger] result->Ok_0.changes@[i])
                    == changes_within(journal.windows@, from, to)[i]
        },
{
    if from < 0 || from > to {
        return Err(Failure::new("invalid publication observation generation"));
    }
    let windows = &journal.windows;
    let floor: i64 = if windows.len() == 0 {
        to + 1
    } else {
        windows[0].generation
    };
    let mut changes: Vec<&'a Observation> = Vec::new();
    let mut count: u64 = 0;
    let mut complete = true;
    let mut i: usize = 0;
    while i < windows.len()
        invariant
            i <= windows.len(),
            windows@ == journal.windows@,
            count <= i,
            count == windows_within(windows@.take(i as int), from, to),
            complete == (forall|k: int|
                0 <= k < i && within(#[trigger] windows@[k], from, to) ==> windows@[k].complete),
            changes.len() == changes_within(windows@.take(i as int), from, to).len(),
            forall|k: int|
                0 <= k < changes.len() ==> *(#[trigger] changes@[k]) == changes_within(
                    windows@.take(i as int),
                    from,
                    to,
                )[k],
        decreases windows.len() - i,
    {
        let window = &windows[i];
        proof {
            assert(windows@.take(i + 1).drop_last() =~= windows@.take(i as int));
            assert(windows@.take(i + 1).last() == *window);
        }
        let ghost shorter = changes_within(windows@.take(i as int), from, to);
        let ghost longer = changes_within(windows@.take(i + 1), from, to);
        if from < window.generation && window.generation <= to {
            count += 1;
            if !window.complete {
                assert(within(windows@[i as int], from, to));
                complete = false;
            }
            let mut k: usize = 0;
            while k < window.observations.len()
                invariant
                    k <= window.observations.len(),
                    longer == shorter + window.observations@,
                    changes.len() == shorter.len() + k,
                    forall|m: int|
                        0 <= m < changes.len() ==> *(#[trigger] changes@[m]) == longer[m],
                decreases window.observations.len() - k,
            {
                changes.push(&window.observations[k]);
                k += 1;
            }
        }
        i += 1;
    }
    assert(windows@.take(i as int) =~= windows@);
    let span: u64 = (to - from) as u64;
    Ok(
        PublicationObservations {
            from_generation: from,
            to_generation: to,
            retained_generation_floor: floor,
            complete: complete && count == span,
            changes,
        },
    )
}

/// Where windows of an interval are as many as it has generations, each generation has one.
proof fn lemma_no_gap(windows: Seq<Window>, from: i64, to: i64)
    requires
        generations_rise(windows),
        from <= to,
    ensures
        windows_within(windows, from, to) <= to - from,
        windows_within(windows, from, to) >= 0,
        windows_within(windows, from, to) == to - from ==> forall|g: int|
            from < g <= to ==> #[trigger] has_window(windows, g),
    decreases windows.len(),
{
    if windows.len() > 0 {
        let rest = windows.drop_last();
        let last = windows.last();
        assert(generations_rise(rest)) by {
            assert forall|i: int, j: int| 0 <= i < j < rest.len() implies (
            #[trigger] rest[i]).generation < (#[trigger] rest[j]).generation by {
                assert(rest[i] == windows[i] && rest[j] == windows[j]);
            }
        }
        if within(last, from, to) {
            let below = (last.generation - 1) as i64;
            lemma_no_gap(rest, from, below);
            lemma_within_below(rest, from, to, below);
            if windows_within(windows, from, to) == to - from {
                assert(to == last.generation);
                assert forall|g: int| from < g <= to implies #[trigger] has_window(
                    windows,
                    g,
                ) by {
                    if g == to {
                        assert(windows[windows.len() - 1].generation == g);
                    } else {
                        assert(has_window(rest, g));
                        let i = choose|i: int|
                            0 <= i < rest.len() && (#[trigger] rest[i]).generation == g;
                        assert(windows[i].generation == g);
                    }
                }
            }
        } else {
            lemma_no_gap(rest, from, to);
            if windows_within(windows, from, to) == to - from {
                assert forall|g: int| from < g <= to implies #[trigger] has_window(
                    windows,
                    g,
                ) by {
                    assert(has_window(rest, g));
                    let i = choose|i: int|
                        0 <= i < rest.len() && (#[trigger] rest[i]).generation == g;
                    assert(windows[i].generation == g);
                }
            }
        }
    }
}

/// Windows that come before a generation are of the interval that ends before it, too.
proof fn lemma_within_below(windows: Seq<Window>, from: i64, to: i64, below: i64)
    requires
        below <= to,
        forall|i: int| 0 <= i < windows.len() ==> (#[trigger] windows[i]).generation <= below,
    ensures
        windows_within(windows, from, to) == windows_within(windows, from, below),
    decreases windows.len(),
{
    if windows.len() > 0 {
        let rest = windows.drop_last();
        assert forall|i: int| 0 <= i < rest.len() implies (#[trigger] rest[i]).generation
            <= below by {
            assert(rest[i] == windows[i]);
        }
        assert(windows[windows.len() - 1].generation <= below);
        lemma_within_below(rest, from, to, below);
    }
}

/// Whether a generation has a window.
pub open spec fn has_window(windows: Seq<Window>, generation: int) -> bool {
    exists|i: int| 0 <= i < windows.len() && (#[trigger] windows[i]).generation == generation
}

/// An interval that is complete misses no generation, and has every change of each.
pub proof fn law_complete_intervals_miss_nothing(windows: Seq<Window>, from: i64, to: i64, g: int)
    requires
        generations_rise(windows),
        from <= to,
        interval_complete(windows, from, to),
        from < g <= to,
    ensures
        exists|i: int|
            0 <= i < windows.len() && (#[trigger] windows[i]).generation == g
                && windows[i].complete,
{
    lemma_no_gap(windows, from, to);
    assert(has_window(windows, g));
    let i = choose|i: int| 0 <= i < windows.len() && (#[trigger] windows[i]).generation == g;
    assert(within(windows[i], from, to));
}

} // verus!
