//! What holds of the sweeps that prepare embeddings, and of what is noted of them.

use crate::semantic::embedding::Embedding;
use crate::semantic::preparation::cache;
use crate::semantic::preparation::cache::CachedSnapshot;
use crate::semantic::preparation::cache::Completion;
use crate::semantic::preparation::cache::PreparationLedger;
use crate::semantic::preparation::cache::RunView;
use crate::semantic::preparation::sweep;
use crate::semantic::preparation::sweep::Counts;
use crate::semantic::preparation::sweep::Sweep;
use crate::semantic::preparation::sweep::SweepStep;
use crate::semantic::preparation::sweep::UnitKind;
use crate::semantic::preparation::EmbeddingInput;
use crate::semantic::preparation::PreparationState;
use crate::semantic::preparation::PreparationStatus;
use crate::semantic::preparation::PreparationWait;
use crate::text::Failure;
use vstd::prelude::*;

verus! {

/// Each text of a batch is told of: one that was embedded with its vector, one that failed with
/// what was said, under its own key and nothing else.
pub proof fn law_outcomes_belong_to_their_content(
    batch: Seq<EmbeddingInput>,
    results: Seq<Result<Embedding, Failure>>,
)
    requires
        batch.len() == results.len(),
    ensures
        sweep::embedded(batch, results).len() + sweep::failed(batch, results).len()
            == results.len(),
        forall|k: int|
            0 <= k < results.len() && (#[trigger] results[k]) is Ok ==> sweep::embedded(
                batch,
                results,
            ).contains((batch[k].content_key@, results[k]->Ok_0)),
        forall|k: int|
            0 <= k < results.len() && (#[trigger] results[k]) is Err ==> sweep::failed(
                batch,
                results,
            ).contains((batch[k].content_key@, results[k]->Err_0.headline@)),
{
    lemma_parted(batch, results);
}

proof fn lemma_parted(batch: Seq<EmbeddingInput>, results: Seq<Result<Embedding, Failure>>)
    requires
        results.len() <= batch.len(),
    ensures
        sweep::embedded(batch, results).len() + sweep::failed(batch, results).len()
            == results.len(),
        forall|k: int|
            0 <= k < results.len() && (#[trigger] results[k]) is Ok ==> sweep::embedded(
                batch,
                results,
            ).contains((batch[k].content_key@, results[k]->Ok_0)),
        forall|k: int|
            0 <= k < results.len() && (#[trigger] results[k]) is Err ==> sweep::failed(
                batch,
                results,
            ).contains((batch[k].content_key@, results[k]->Err_0.headline@)),
    decreases results.len(),
{
    if results.len() > 0 {
        let less = results.drop_last();
        let last = results.len() - 1;
        lemma_parted(batch, less);
        let kept = sweep::embedded(batch, less);
        let noted = sweep::failed(batch, less);
        let vectors = sweep::embedded(batch, results);
        let failures = sweep::failed(batch, results);
        assert forall|k: int| 0 <= k < results.len() && (#[trigger] results[k]) is Ok implies vectors.contains(
            (batch[k].content_key@, results[k]->Ok_0),
        ) by {
            let item = (batch[k].content_key@, results[k]->Ok_0);
            if k < last {
                assert(less[k] == results[k]);
                let j = choose|j: int| 0 <= j < kept.len() && kept[j] == item;
                assert(vectors[j] == item);
            } else {
                assert(vectors[kept.len() as int] == item);
            }
        }
        assert forall|k: int| 0 <= k < results.len() && (#[trigger] results[k]) is Err implies failures.contains(
            (batch[k].content_key@, results[k]->Err_0.headline@),
        ) by {
            let item = (batch[k].content_key@, results[k]->Err_0.headline@);
            if k < last {
                assert(less[k] == results[k]);
                let j = choose|j: int| 0 <= j < noted.len() && noted[j] == item;
                assert(failures[j] == item);
            } else {
                assert(failures[noted.len() as int] == item);
            }
        }
    }
}

/// Content is cached where its vector is kept, or, where only that is known, where it was noted
/// as complete; else it has failed where that was noted; else it is missing.
pub proof fn law_content_is_of_one_kind(
    ledger: PreparationLedger,
    snapshot: CachedSnapshot,
    key: Seq<char>,
)
    ensures
        ({
            let kind = sweep::unit_kind(ledger, snapshot, key);
            let noted = ledger.completions@.contains_key(key);
            &&& snapshot matches CachedSnapshot::Vectors(vectors) ==> {
                &&& kind == UnitKind::Cached <==> vectors@.contains_key(key)
                &&& kind == UnitKind::Failed <==> !vectors@.contains_key(key) && noted
                    && ledger.completions@[key] is Failed
            }
            &&& snapshot is Completions ==> {
                &&& kind == UnitKind::Cached <==> noted && ledger.completions@[key] is Complete
                &&& kind == UnitKind::Failed <==> noted && ledger.completions@[key] is Failed
                &&& kind == UnitKind::Missing <==> !noted
            }
        }),
{
}

/// Units are counted one by one: each adds one to the count of its kind, and to no other.
pub proof fn law_units_are_counted_by_kind(
    ledger: PreparationLedger,
    snapshot: CachedSnapshot,
    a: Seq<EmbeddingInput>,
    b: Seq<EmbeddingInput>,
    unit: EmbeddingInput,
    kind: UnitKind,
)
    ensures
        sweep::count_units(ledger, snapshot, a + b, kind) == sweep::count_units(
            ledger,
            snapshot,
            a,
            kind,
        ) + sweep::count_units(ledger, snapshot, b, kind),
        sweep::count_units(ledger, snapshot, seq![unit], kind) == if sweep::unit_kind(
            ledger,
            snapshot,
            unit.content_key@,
        ) == kind {
            1nat
        } else {
            0nat
        },
    decreases b.len(),
{
    assert(seq![unit].drop_last() =~= Seq::<EmbeddingInput>::empty());
    assert(sweep::count_units(ledger, snapshot, Seq::<EmbeddingInput>::empty(), kind) == 0);
    if b.len() == 0 {
        assert(a + b =~= a);
    } else {
        law_units_are_counted_by_kind(ledger, snapshot, a, b.drop_last(), unit, kind);
        assert((a + b).drop_last() =~= a + b.drop_last());
        assert((a + b).last() == b.last());
    }
}

/// What is pending is what was given: each text that goes to the worker is one of the units, with
/// its key, its text and its count of tokens.
pub proof fn law_pending_texts_are_units(
    ledger: PreparationLedger,
    snapshot: CachedSnapshot,
    units: Seq<EmbeddingInput>,
    i: int,
) -> (u: int)
    requires
        0 <= i < sweep::pending_of(ledger, snapshot, units).len(),
    ensures
        0 <= u < units.len(),
        sweep::pending_of(ledger, snapshot, units)[i] == units[u]@,
    decreases units.len(),
{
    let less = units.drop_last();
    let before = sweep::pending_of(ledger, snapshot, less);
    if i < before.len() {
        let u = law_pending_texts_are_units(ledger, snapshot, less, i);
        assert(less[u] == units[u]);
        u
    } else {
        units.len() - 1
    }
}

/// A sweep that runs over an earlier generation is superseded, and says why; what it had counted
/// stays. All other runs stay as they are.
pub proof fn law_only_running_sweeps_are_superseded(run: RunView, older: bool)
    ensures
        ({
            let after = cache::superseded_if(Some(run), older);
            &&& after is Some
            &&& older && run.state == PreparationState::Running ==> {
                &&& after->0.state == PreparationState::Superseded
                &&& after->0.error is Some
                &&& run.error is Some ==> after->0.error == run.error
            }
            &&& !(older && run.state == PreparationState::Running) ==> after->0 == run
            &&& after->0.cursor == run.cursor && after->0.total == run.total
            &&& after->0.cached == run.cached && after->0.missing == run.missing
            &&& after->0.failures == run.failures
        }),
        cache::superseded_if(None, older) is None,
{
}

/// Where a generation is superseded a sweep that runs is, a sweep that is over stays over as it
/// was, and where there was none that is noted.
pub proof fn law_superseded_generations_stay_over(
    run: Option<RunView>,
    total: int,
    error: Seq<char>,
)
    ensures
        ({
            let after = cache::superseded_generation(run, total, error);
            &&& run matches Some(run) ==> {
                &&& run.state == PreparationState::Running ==> after.state
                    == PreparationState::Superseded && after.error == Some(error)
                &&& run.state != PreparationState::Running ==> after == run
                &&& after.cursor == run.cursor && after.total == run.total
                &&& after.cached == run.cached && after.missing == run.missing
                &&& after.failures == run.failures
            }
            &&& run is None ==> {
                &&& after.state == PreparationState::Superseded
                &&& after.total == total
                &&& after.error == Some(error)
                &&& after.cursor == 0 && after.cached == 0 && after.missing == 0
                &&& after.failures == 0
            }
        }),
{
}

/// A worker that failed leaves a failed run with at least one failure and what was said, whatever
/// the run was before; what it had counted stays.
pub proof fn law_worker_failures_are_noted(run: Option<RunView>, message: Seq<char>)
    requires
        run matches Some(run) ==> run.failures >= 0,
    ensures
        ({
            let after = cache::failed_run(run, message);
            &&& after.state == PreparationState::Failed
            &&& after.failures >= 1
            &&& after.error == Some(message)
            &&& run matches Some(run) ==> {
                &&& after.failures >= run.failures
                &&& run.failures >= 1 ==> after.failures == run.failures
                &&& after.cursor == run.cursor && after.total == run.total
                &&& after.cached == run.cached && after.missing == run.missing
            }
        }),
{
}

/// The status has the counts of now and the larger of the two counts of failures. A run that was
/// completed has met its capacity where something is missing now; else the state is that of the
/// run, and idle without one.
pub proof fn law_the_status_is_that_of_the_run(
    run: Option<RunView>,
    generation: i64,
    total: usize,
    cached: usize,
    missing: usize,
    failures: usize,
    status: PreparationStatus,
)
    requires
        cache::status_from(run, generation, total, cached, missing, failures, status),
    ensures
        status.generation == generation,
        status.total == total,
        status.cached == cached,
        status.missing == missing,
        status.failures >= failures,
        run matches Some(run) ==> status.failures >= run.failures && status.cursor == run.cursor,
        run matches Some(run) ==> status.failures == failures || status.failures == run.failures,
        run is None ==> status.state == PreparationState::Idle && status.failures == failures
            && status.error is None,
        run matches Some(run) ==> status.state == if run.state == PreparationState::Completed
            && missing > 0 {
            PreparationState::Capacity
        } else {
            run.state
        },
        run matches Some(run) ==> run.error is Some ==> status.error is Some
            && status.error->0@ == run.error->0,
{
}

/// Waiting is over where the generation is superseded, or its run is over, or it took too long;
/// else it goes on. A generation that was never published is refused.
pub proof fn law_waiting_ends_with_the_run(
    ledger: PreparationLedger,
    captured: i64,
    current: i64,
    elapsed_ms: u64,
    timeout_ms: u64,
    result: Result<Option<PreparationWait>, Failure>,
)
    requires
        sweep::waits(ledger, captured, current, elapsed_ms, timeout_ms, result),
    ensures
        captured <= 0 ==> result is Err,
        0 < captured < current ==> result is Ok && result->Ok_0 is Some && result->Ok_0->0.state
            == PreparationState::Superseded,
        0 < captured && current == captured && ledger.run_at(captured) is Some && (ledger.run_at(
            captured,
        )->0.state == PreparationState::Completed || ledger.run_at(captured)->0.state
            == PreparationState::Failed || ledger.run_at(captured)->0.state
            == PreparationState::Capacity || ledger.run_at(captured)->0.state
            == PreparationState::Superseded) ==> result is Ok && result->Ok_0 is Some
            && result->Ok_0->0.state == ledger.run_at(captured)->0.state,
        0 < captured && current == captured && (ledger.run_at(captured) is None || ledger.run_at(
            captured,
        )->0.state == PreparationState::Running || ledger.run_at(captured)->0.state
            == PreparationState::Idle) ==> {
            &&& elapsed_ms < timeout_ms ==> result is Ok && result->Ok_0 is None
            &&& elapsed_ms >= timeout_ms ==> result is Ok && result->Ok_0 is Some
                && result->Ok_0->0.state == PreparationState::Failed
        },
{
}

/// A sweep goes on where its run has come to, though never behind the end, with what that had
/// counted.
pub proof fn law_sweeps_go_on_where_they_were(
    sweeping: Sweep,
    generation: i64,
    total: usize,
    run: RunView,
)
    requires
        sweeping.resumes(generation, total, run),
        0 <= run.cursor,
    ensures
        sweeping.generation == generation,
        sweeping.cursor <= total,
        run.cursor <= total ==> sweeping.cursor == run.cursor,
        run.cursor >= total ==> sweeping.cursor == total,
        sweeping.cached == run.cached,
        sweeping.missing == run.missing,
        sweeping.failures == run.failures,
        sweeping.retry_delay_ms == 50,
{
}

/// A sweep over content that failed has failed; else it has met its capacity where content is
/// missing; else it is completed. What is said is said just where it is not completed.
pub proof fn law_sweeps_end_as_they_were_counted(counts: Counts)
    ensures
        counts.failures > 0 <==> sweep::concluded(counts) == PreparationState::Failed,
        counts.failures == 0 && counts.missing > 0 <==> sweep::concluded(counts)
            == PreparationState::Capacity,
        counts.failures == 0 && counts.missing == 0 <==> sweep::concluded(counts)
            == PreparationState::Completed,
        sweep::conclusion(PreparationState::Failed) is Some,
        sweep::conclusion(PreparationState::Capacity) is Some,
        sweep::conclusion(PreparationState::Completed) is None,
{
}

/// A run that is started again has nothing counted and nothing said, and what had failed may be
/// tried again; what was completed stays so.
pub proof fn law_runs_that_start_again_forget_failures(
    before: PreparationLedger,
    generation: i64,
    total: Option<usize>,
    after: PreparationLedger,
    key: Seq<char>,
)
    requires
        before.resets(generation, total, true, after),
    ensures
        after.run_at(generation) matches Some(run) && {
            &&& run.state == PreparationState::Running
            &&& run.cursor == 0 && run.cached == 0 && run.missing == 0 && run.failures == 0
            &&& run.error is None
        },
        !after.has_failed(key),
        before.completions@.contains_key(key) && before.completions@[key] is Complete <==> after
            .completions@.contains_key(key) && after.completions@[key] is Complete,
        before.run_at(generation) matches Some(run) && run.state != PreparationState::Running
            && run.state != PreparationState::Idle,
{
}

/// What was noted of content first stays: a failure does not replace what was embedded, nor an
/// earlier failure.
pub proof fn law_what_was_noted_first_stays(
    before: Map<Seq<char>, Completion>,
    key: Seq<char>,
    error: Seq<char>,
    after: Map<Seq<char>, Completion>,
    other: Seq<char>,
)
    requires
        cache::fails(before, key, error, after),
    ensures
        before.contains_key(other) ==> after.contains_key(other) && after[other] == before[other],
        after.contains_key(key),
        !before.contains_key(key) ==> after[key] is Failed && after[key]->Failed_0@ == error,
        after.contains_key(other) ==> other == key || before.contains_key(other),
{
}

/// A sweep over a generation that is not the one of the index any more ends at once, and tells
/// how its run stands. That run runs no more; what is known of content, and of all other runs, stays.
pub proof fn law_stale_sweeps_end_at_once(
    before: PreparationLedger,
    generation: i64,
    total: usize,
    step: SweepStep,
    after: PreparationLedger,
    other: i64,
)
    requires
        sweep::abandoned(before, generation, total, step, after),
    ensures
        step is Done,
        after.run_at(generation) is Some,
        after.run_at(generation)->0.state != PreparationState::Running,
        step->Done_0 is Some,
        step->Done_0->0@ == after.run_at(generation)->0,
        before.run_at(generation) is Some && before.run_at(generation)->0.state.is_over()
            ==> after.run_at(generation) == before.run_at(generation),
        after.completions == before.completions,
        other != generation ==> after.run_at(other) == before.run_at(other),
{
}

/// Where a whole batch fails, the failure of each of its texts is noted with what was said, unless
/// something was noted of it before; nothing is noted of other content.
pub proof fn law_failed_batches_note_each_text(
    before: Map<Seq<char>, Completion>,
    batch: Seq<EmbeddingInput>,
    error: Seq<char>,
    after: Map<Seq<char>, Completion>,
    i: int,
    key: Seq<char>,
)
    requires
        sweep::failed_all(before, sweep::input_views(batch), error, after),
        0 <= i < batch.len(),
    ensures
        after.contains_key(batch[i].content_key@),
        !before.contains_key(batch[i].content_key@) ==> after[batch[i].content_key@] is Failed
            && after[batch[i].content_key@]->Failed_0@ == error,
        before.contains_key(key) ==> after.contains_key(key) && after[key] == before[key],
        !before.contains_key(key) && (forall|k: int|
            0 <= k < batch.len() ==> (#[trigger] batch[k]).content_key@ != key)
            ==> !after.contains_key(key),
{
    let views = sweep::input_views(batch);
    assert(views[i].key == batch[i].content_key@);
    assert(sweep::listed(views, batch[i].content_key@));
    assert(after.contains_key(batch[i].content_key@));
    if sweep::listed(views, key) {
        let k = choose|k: int| 0 <= k < views.len() && (#[trigger] views[k]).key == key;
        assert(batch[k].content_key@ == key);
    }
}

} // verus!
