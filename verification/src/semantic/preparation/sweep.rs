//! One sweep over the content of a generation, and the requests that lead to it.
//!
//! Reading the index, running the model and waiting are left to the caller: each step takes
//! what was read and says what to do next.

use crate::paths;
use crate::semantic::embedding::Embedding;
use crate::semantic::preparation::cache;
use crate::semantic::preparation::cache::{CachedSnapshot, PreparationLedger, RunRecord, RunView};
use crate::semantic::preparation::{
    EmbeddingInput, InputView, PreparationState, PreparationStatus, PreparationWait,
    ScheduleReceipt,
};
use crate::tables::KeyTable;
use crate::text;
use crate::text::Failure;
use vstd::prelude::*;
use vstd::string::StringExecFns;

verus! {

/// How long a worker that is not available is tried again: one minute, in milliseconds.
pub const RETRY_WINDOW_MS: u64 = 60_000;

/// The first wait before a worker is tried again, in milliseconds.
pub const FIRST_RETRY_MS: u64 = 50;

/// The longest wait before a worker is tried again, in milliseconds.
pub const LONGEST_RETRY_MS: u64 = 1_000;

/// How long to wait for a generation when nothing else is said: one hour, in milliseconds.
pub const DEFAULT_WAIT_MS: u64 = 3_600_000;

/// Whether `receipt` and `after` are what a request for a generation comes to.
pub open spec fn scheduled(
    before: PreparationLedger,
    generation: i64,
    reset_terminal: bool,
    result: Result<ScheduleReceipt, Failure>,
    after: PreparationLedger,
) -> bool {
    if generation <= 0 {
        &&& after == before
        &&& result is Err
        &&& text::plain(
            result->Err_0,
            "preparation_unavailable: no published source generation"@,
        )
    } else {
        let known = before.requested_generation >= generation;
        let requested = PreparationLedger {
            requested_generation: if known {
                before.requested_generation
            } else {
                generation
            },
            ..before
        };
        let found = before.run_at(generation);
        let reset = reset_terminal && found is Some && found->0.state.is_over();
        &&& resets_if(requested, generation, reset_terminal, reset, after)
        &&& result is Ok
        &&& result->Ok_0.captured_generation == generation
        &&& result->Ok_0.coalesced == (known && !reset)
    }
}

/// Whether `after` is the record with a run that was over started again, if that was asked
/// for.
pub open spec fn resets_if(
    before: PreparationLedger,
    generation: i64,
    asked: bool,
    reset: bool,
    after: PreparationLedger,
) -> bool {
    if asked {
        before.resets(generation, None, reset, after)
    } else {
        !reset && after == before
    }
}

fn request_schedule_with_reset(
    ledger: &mut PreparationLedger,
    generation: i64,
    reset_terminal: bool,
) -> (result: Result<ScheduleReceipt, Failure>)
    requires
        old(ledger).well_formed(),
    ensures
        final(ledger).well_formed(),
        scheduled(*old(ledger), generation, reset_terminal, result, *final(ledger)),
{
    let known = match ledger.request(generation) {
        Err(failure) => return Err(failure),
        Ok(known) => known,
    };
    assert(ledger.run_at(generation) == old(ledger).run_at(generation));
    let reset = if reset_terminal {
        ledger.reset_terminal(generation)
    } else {
        false
    };
    Ok(ScheduleReceipt { captured_generation: generation, coalesced: known && !reset })
}

/// Requests preparation of the published generation. A run that is over stays as it is.
pub fn schedule(ledger: &mut PreparationLedger, generation: i64) -> (result: Result<
    ScheduleReceipt,
    Failure,
>)
    requires
        old(ledger).well_formed(),
    ensures
        final(ledger).well_formed(),
        scheduled(*old(ledger), generation, false, result, *final(ledger)),
{
    request_schedule_with_reset(ledger, generation, false)
}

/// Requests preparation of the published generation, and starts a run that is over again.
pub fn retry(ledger: &mut PreparationLedger, generation: i64) -> (result: Result<
    ScheduleReceipt,
    Failure,
>)
    requires
        old(ledger).well_formed(),
    ensures
        final(ledger).well_formed(),
        scheduled(*old(ledger), generation, true, result, *final(ledger)),
{
    request_schedule_with_reset(ledger, generation, true)
}

/// A sweep that was asked for.
#[derive(Clone, Copy, Debug, PartialEq, Eq, Structural)]
pub struct SweepRequest {
    pub generation: i64,
    pub reset_terminal: bool,
}

/// The sweep over the published generation that runs in this process; `leased` tells whether
/// the sweep belongs to it.
pub fn run_foreground(generation: i64, leased: bool) -> (result: Result<SweepRequest, Failure>)
    ensures
        if generation <= 0 {
            result is Err && text::plain(
                result->Err_0,
                "preparation_unavailable: no published source generation"@,
            )
        } else if !leased {
            result is Err && text::plain(
                result->Err_0,
                "preparation_busy: another process owns the preparation sweep"@,
            )
        } else {
            result == Ok::<SweepRequest, Failure>(
                SweepRequest { generation, reset_terminal: true },
            )
        },
{
    if generation <= 0 {
        return Err(Failure::new("preparation_unavailable: no published source generation"));
    }
    if !leased {
        return Err(Failure::new("preparation_busy: another process owns the preparation sweep"));
    }
    Ok(SweepRequest { generation, reset_terminal: true })
}

/// The sweep that is due, if one is: that over the published generation. Sweeps over earlier
/// ones that still run are superseded.
pub fn next_pending(ledger: &mut PreparationLedger, current: i64, reset_terminal: bool) -> (request:
    Option<SweepRequest>)
    requires
        old(ledger).well_formed(),
    ensures
        final(ledger).well_formed(),
        match request {
            None => current <= 0 && *final(ledger) == *old(ledger),
            Some(request) => {
                &&& current > 0
                &&& request.generation == current
                &&& request.reset_terminal == reset_terminal
                &&& final(ledger).requested_generation == old(ledger).requested_generation
                &&& final(ledger).completions == old(ledger).completions
                &&& forall|g: i64| #[trigger]
                    final(ledger).run_at(g) == cache::superseded_if(
                        old(ledger).run_at(g),
                        g < current,
                    )
            },
        },
{
    if current <= 0 {
        return None;
    }
    ledger.supersede_older(current);
    let requested: i64 = if ledger.requested_generation > current {
        ledger.requested_generation
    } else {
        current
    };
    let generation: i64 = if requested < current {
        requested
    } else {
        current
    };
    Some(SweepRequest { generation, reset_terminal })
}

/// Whether what is open for one root and cache serves a request for another.
pub fn same_context(open: Option<(&[u8], &[u8])>, root: &[u8], cache: &[u8]) -> (same: bool)
    ensures
        same == (open is Some && paths::same_components((open->0).0@, root@)
            && paths::same_components((open->0).1@, cache@)),
{
    match open {
        Some((open_root, open_cache)) => paths::same_path(open_root, root) && paths::same_path(
            open_cache,
            cache,
        ),
        None => false,
    }
}

/// Opens what a sweep works on, once it has the lease; whether it did. Another process may
/// have the lease. The ledger is opened even where the index cannot be; the failure of the
/// index is the one that counts.
pub fn open_context<
    I: FnOnce() -> Result<(), Failure>,
    P: FnOnce() -> Result<(), Failure>,
>(lease: Result<bool, Failure>, open_index: I, open_ledger: P) -> (result: Result<bool, Failure>)
    requires
        lease == Ok::<bool, Failure>(true) ==> {
            &&& call_requires(open_index, ())
            &&& call_requires(open_ledger, ())
        },
    ensures
        match lease {
            Err(failure) => result == Err::<bool, Failure>(failure),
            Ok(false) => result == Ok::<bool, Failure>(false),
            Ok(true) => exists|index: Result<(), Failure>, ledger: Result<(), Failure>|
                {
                    &&& #[trigger] call_ensures(open_index, (), index)
                    &&& #[trigger] call_ensures(open_ledger, (), ledger)
                    &&& result == match (index, ledger) {
                        (Err(failure), _) => Err::<bool, Failure>(failure),
                        (_, Err(failure)) => Err::<bool, Failure>(failure),
                        _ => Ok::<bool, Failure>(true),
                    }
                },
        },
{
    match lease {
        Err(failure) => Err(failure),
        Ok(leased) => {
            if !leased {
                return Ok(false);
            }
            let index = open_index();
            let ledger = open_ledger();
            match index {
                Err(failure) => Err(failure),
                Ok(_) => match ledger {
                    Err(failure) => Err(failure),
                    Ok(_) => Ok(true),
                },
            }
        },
    }
}

/// Whether another sweep is due after one: only where it was superseded.
pub fn sweep_again(run: &Option<RunRecord>) -> (again: bool)
    ensures
        again == (run is Some && run->0.state == PreparationState::Superseded),
{
    match run {
        Some(run) => run.state == PreparationState::Superseded,
        None => false,
    }
}

/// Notes the failure of the worker with the generation that was requested, if one was.
pub fn record_worker_error_in_cache(ledger: &mut PreparationLedger, message: &str)
    requires
        old(ledger).well_formed(),
    ensures
        final(ledger).well_formed(),
        old(ledger).requested_generation <= 0 ==> *final(ledger) == *old(ledger),
        old(ledger).requested_generation > 0 ==> {
            let generation = old(ledger).requested_generation;
            &&& final(ledger).requested_generation == generation
            &&& final(ledger).completions == old(ledger).completions
            &&& final(ledger).same_runs_but(old(ledger), generation)
            &&& final(ledger).run_at(generation) == Some(
                cache::failed_run(old(ledger).run_at(generation), message@),
            )
        },
{
    let requested: i64 = ledger.requested_generation;
    if requested > 0 {
        ledger.record_worker_error(requested, message);
    }
}

/// Whether `wait` tells how a run ended.
pub open spec fn waited_for(generation: i64, run: RunView, wait: PreparationWait) -> bool {
    &&& wait.captured_generation == generation
    &&& wait.state == run.state
    &&& wait.status.generation == generation
    &&& wait.status.state == run.state
    &&& wait.status.cursor == run.cursor
    &&& wait.status.total == run.total
    &&& wait.status.cached == run.cached
    &&& wait.status.missing == run.missing
    &&& wait.status.failures == run.failures
    &&& cache::words_of(wait.status.error) == run.error
}

/// What waiting for a generation comes to, after so long: an outcome, or that the wait goes
/// on.
pub open spec fn waits(
    ledger: PreparationLedger,
    captured: i64,
    current: i64,
    elapsed_ms: u64,
    timeout_ms: u64,
    result: Result<Option<PreparationWait>, Failure>,
) -> bool {
    let run = ledger.run_at(captured);
    if captured <= 0 {
        result is Err && text::plain(
            result->Err_0,
            "preparation_unavailable: invalid captured source generation"@,
        )
    } else if current > captured {
        &&& result matches Ok(Some(wait)) && waited_for(
            captured,
            (RunView {
                state: PreparationState::Superseded,
                ..match run {
                    Some(run) => run,
                    None => cache::fresh_run(0),
                }
            }),
            wait,
        )
    } else if run is Some && run->0.state.is_over() {
        &&& result matches Ok(Some(wait)) && waited_for(captured, run->0, wait)
    } else if current < captured {
        result is Err && text::plain(
            result->Err_0,
            "preparation_unavailable: captured generation "@ + text::signed_decimal(
                captured as int,
            ) + " is ahead of index generation "@ + text::signed_decimal(current as int),
        )
    } else if elapsed_ms >= timeout_ms {
        &&& result matches Ok(Some(wait)) && waited_for(
            captured,
            (RunView {
                state: PreparationState::Failed,
                error: Some("preparation_wait_timeout"@),
                ..cache::fresh_run(0)
            }),
            wait,
        )
    } else {
        result == Ok::<Option<PreparationWait>, Failure>(None)
    }
}

fn wait_from_run(generation: i64, run: RunRecord) -> (wait: PreparationWait)
    ensures
        waited_for(generation, run@, wait),
{
    PreparationWait {
        captured_generation: generation,
        state: run.state,
        status: PreparationStatus {
            generation,
            state: run.state,
            cursor: run.cursor,
            total: run.total,
            cached: run.cached,
            missing: run.missing,
            failures: run.failures,
            error: run.error,
        },
    }
}

/// What waiting for a captured generation comes to, when it has lasted so long and `current`
/// is published: an outcome, or nothing while the wait goes on.
pub fn wait_timeout(
    ledger: &PreparationLedger,
    captured: i64,
    current: i64,
    elapsed_ms: u64,
    timeout_ms: u64,
) -> (result: Result<Option<PreparationWait>, Failure>)
    requires
        ledger.well_formed(),
    ensures
        waits(*ledger, captured, current, elapsed_ms, timeout_ms, result),
{
    if captured <= 0 {
        return Err(
            Failure::new("preparation_unavailable: invalid captured source generation"),
        );
    }
    let run = ledger.run(captured);
    if current > captured {
        let mut found = match run {
            Some(run) => run,
            None => RunRecord {
                state: PreparationState::Superseded,
                cursor: 0,
                total: 0,
                cached: 0,
                missing: 0,
                failures: 0,
                error: None,
            },
        };
        found.state = PreparationState::Superseded;
        return Ok(Some(wait_from_run(captured, found)));
    }
    match run {
        Some(run) => {
            if run.state.terminal() {
                return Ok(Some(wait_from_run(captured, run)));
            }
        },
        None => {},
    }
    if current < captured {
        let mut message = "preparation_unavailable: captured generation ".to_owned();
        message.append(text::signed_text(captured).as_str());
        message.append(" is ahead of index generation ");
        message.append(text::signed_text(current).as_str());
        return Err(Failure::of(message));
    }
    if elapsed_ms >= timeout_ms {
        let run = RunRecord {
            state: PreparationState::Failed,
            cursor: 0,
            total: 0,
            cached: 0,
            missing: 0,
            failures: 0,
            error: Some("preparation_wait_timeout".to_owned()),
        };
        return Ok(Some(wait_from_run(captured, run)));
    }
    Ok(None)
}

/// What waiting for a captured generation comes to, for at most an hour.
pub fn wait(ledger: &PreparationLedger, captured: i64, current: i64, elapsed_ms: u64) -> (result:
    Result<Option<PreparationWait>, Failure>)
    requires
        ledger.well_formed(),
    ensures
        waits(*ledger, captured, current, elapsed_ms, DEFAULT_WAIT_MS, result),
{
    wait_timeout(ledger, captured, current, elapsed_ms, DEFAULT_WAIT_MS)
}

/// How many tokens a text is taken to have: one for every four bytes begun, and at least
/// one.
pub fn estimate_tokens(text: &str) -> (tokens: usize)
    ensures
        tokens == if vstd::utf8::encode_utf8(text@).len() == 0 {
            1
        } else {
            (vstd::utf8::encode_utf8(text@).len() + 3) / 4
        },
{
    let bytes: usize = text.as_bytes().len();
    if bytes == 0 {
        1
    } else {
        (bytes - 1) / 4 + 1
    }
}

/// How often content of a kind stands in units.
pub open spec fn count_units(
    ledger: PreparationLedger,
    snapshot: CachedSnapshot,
    units: Seq<EmbeddingInput>,
    kind: UnitKind,
) -> nat
    decreases units.len(),
{
    if units.len() == 0 {
        0
    } else {
        count_units(ledger, snapshot, units.drop_last(), kind) + if unit_kind(
            ledger,
            snapshot,
            units.last().content_key@,
        ) == kind {
            1nat
        } else {
            0
        }
    }
}

#[derive(Clone, Copy, Debug, PartialEq, Eq, Structural)]
pub enum UnitKind {
    Cached,
    Failed,
    Missing,
}

/// How content stands: its embedding is kept, or it has failed, or neither.
pub open spec fn unit_kind(
    ledger: PreparationLedger,
    snapshot: CachedSnapshot,
    key: Seq<char>,
) -> UnitKind {
    if ledger.is_cached(key, snapshot) {
        UnitKind::Cached
    } else if ledger.has_failed(key) {
        UnitKind::Failed
    } else {
        UnitKind::Missing
    }
}

fn kind_of(ledger: &PreparationLedger, snapshot: &CachedSnapshot, key: &str) -> (kind: UnitKind)
    requires
        ledger.well_formed(),
        snapshot.well_formed(),
    ensures
        kind == unit_kind(*ledger, *snapshot, key@),
{
    if ledger.is_cached_in(key, snapshot) {
        return UnitKind::Cached;
    }
    match ledger.completion(key) {
        Some(done) => {
            if done {
                UnitKind::Missing
            } else {
                UnitKind::Failed
            }
        },
        None => UnitKind::Missing,
    }
}

/// How many units are kept, missing and failed.
#[derive(Clone, Copy, Debug, PartialEq, Eq, Structural)]
pub struct Counts {
    pub total: usize,
    pub cached: usize,
    pub missing: usize,
    pub failures: usize,
}

/// Counts units by how their content stands.
pub fn classify_units(
    ledger: &PreparationLedger,
    units: &[EmbeddingInput],
    snapshot: &CachedSnapshot,
) -> (counts: Counts)
    requires
        ledger.well_formed(),
        snapshot.well_formed(),
    ensures
        counts.total == units.len(),
        counts.cached == count_units(*ledger, *snapshot, units@, UnitKind::Cached),
        counts.missing == count_units(*ledger, *snapshot, units@, UnitKind::Missing),
        counts.failures == count_units(*ledger, *snapshot, units@, UnitKind::Failed),
        counts.cached + counts.missing + counts.failures == counts.total,
{
    let mut counts = Counts { total: 0, cached: 0, missing: 0, failures: 0 };
    let mut i: usize = 0;
    assert(units@.take(0) =~= Seq::<EmbeddingInput>::empty());
    while i < units.len()
        invariant
            i <= units.len(),
            ledger.well_formed(),
            snapshot.well_formed(),
            counts.total == i,
            counts.cached + counts.missing + counts.failures == i,
            counts.cached == count_units(
                *ledger,
                *snapshot,
                units@.take(i as int),
                UnitKind::Cached,
            ),
            counts.missing == count_units(
                *ledger,
                *snapshot,
                units@.take(i as int),
                UnitKind::Missing,
            ),
            counts.failures == count_units(
                *ledger,
                *snapshot,
                units@.take(i as int),
                UnitKind::Failed,
            ),
        decreases units.len() - i,
    {
        assert(units@.take(i + 1).drop_last() =~= units@.take(i as int));
        match kind_of(ledger, snapshot, units[i].content_key.as_str()) {
            UnitKind::Cached => {
                counts.cached = counts.cached + 1;
            },
            UnitKind::Missing => {
                counts.missing = counts.missing + 1;
            },
            UnitKind::Failed => {
                counts.failures = counts.failures + 1;
            },
        }
        counts.total = counts.total + 1;
        i += 1;
    }
    assert(units@.take(i as int) =~= units@);
    counts
}

/// Whether content is listed among inputs.
pub open spec fn listed(inputs: Seq<InputView>, key: Seq<char>) -> bool {
    exists|i: int| 0 <= i < inputs.len() && (#[trigger] inputs[i]).key == key
}

/// The units whose content has to be embedded: neither kept nor failed, each once, in order.
pub open spec fn pending_of(
    ledger: PreparationLedger,
    snapshot: CachedSnapshot,
    units: Seq<EmbeddingInput>,
) -> Seq<InputView>
    decreases units.len(),
{
    if units.len() == 0 {
        Seq::empty()
    } else {
        let before = pending_of(ledger, snapshot, units.drop_last());
        let unit = units.last()@;
        if unit_kind(ledger, snapshot, unit.key) == UnitKind::Missing && !listed(before, unit.key) {
            before.push(unit)
        } else {
            before
        }
    }
}

/// Views of the elements of a list of inputs.
pub open spec fn input_views(inputs: Seq<EmbeddingInput>) -> Seq<InputView> {
    Seq::new(inputs.len(), |i: int| inputs[i]@)
}

/// The units whose content has to be embedded.
pub fn pending_inputs(
    ledger: &PreparationLedger,
    units: &[EmbeddingInput],
    snapshot: &CachedSnapshot,
) -> (pending: Vec<EmbeddingInput>)
    requires
        ledger.well_formed(),
        snapshot.well_formed(),
    ensures
        input_views(pending@) == pending_of(*ledger, *snapshot, units@),
{
    let mut pending: Vec<EmbeddingInput> = Vec::new();
    let mut i: usize = 0;
    assert(units@.take(0) =~= Seq::<EmbeddingInput>::empty());
    assert(input_views(pending@) =~= Seq::<InputView>::empty());
    while i < units.len()
        invariant
            i <= units.len(),
            ledger.well_formed(),
            snapshot.well_formed(),
            input_views(pending@) == pending_of(*ledger, *snapshot, units@.take(i as int)),
        decreases units.len() - i,
    {
        assert(units@.take(i + 1).drop_last() =~= units@.take(i as int));
        let kind = kind_of(ledger, snapshot, units[i].content_key.as_str());
        if kind == UnitKind::Missing && !is_listed(&pending, units[i].content_key.as_str()) {
            let ghost before = input_views(pending@);
            let unit = units[i].copy();
            pending.push(unit);
            assert(input_views(pending@) =~= before.push(unit@));
        }
        i += 1;
    }
    assert(units@.take(i as int) =~= units@);
    pending
}

fn is_listed(inputs: &Vec<EmbeddingInput>, key: &str) -> (found: bool)
    ensures
        found == listed(input_views(inputs@), key@),
{
    let mut i: usize = 0;
    while i < inputs.len()
        invariant
            i <= inputs.len(),
            forall|k: int| 0 <= k < i ==> (#[trigger] input_views(inputs@)[k]).key != key@,
        decreases inputs.len() - i,
    {
        assert(input_views(inputs@)[i as int].key == inputs@[i as int].content_key@);
        if text::same_text(inputs[i].content_key.as_str(), key) {
            return true;
        }
        i += 1;
    }
    false
}

/// What is handed to the worker is content that is missing, and no content twice.
pub proof fn law_pending_is_missing_once(
    ledger: PreparationLedger,
    snapshot: CachedSnapshot,
    units: Seq<EmbeddingInput>,
)
    ensures
        forall|i: int|
            0 <= i < pending_of(ledger, snapshot, units).len() ==> unit_kind(
                ledger,
                snapshot,
                (#[trigger] pending_of(ledger, snapshot, units)[i]).key,
            ) == UnitKind::Missing,
        forall|i: int, j: int|
            0 <= i < j < pending_of(ledger, snapshot, units).len() ==> (#[trigger] pending_of(
                ledger,
                snapshot,
                units,
            )[i]).key != (#[trigger] pending_of(ledger, snapshot, units)[j]).key,
        forall|u: int|
            0 <= u < units.len() && unit_kind(
                ledger,
                snapshot,
                (#[trigger] units[u]).content_key@,
            ) == UnitKind::Missing ==> listed(
                pending_of(ledger, snapshot, units),
                units[u].content_key@,
            ),
    decreases units.len(),
{
    if units.len() > 0 {
        law_pending_is_missing_once(ledger, snapshot, units.drop_last());
        let before = pending_of(ledger, snapshot, units.drop_last());
        let after = pending_of(ledger, snapshot, units);
        assert forall|i: int, j: int| 0 <= i < j < after.len() implies (#[trigger] after[i]).key != (
        #[trigger] after[j]).key by {
            assert(after[i] == before[i]);
            if j < before.len() {
                assert(before[i].key != before[j].key);
            }
        }
        assert forall|u: int|
            0 <= u < units.len() && unit_kind(
                ledger,
                snapshot,
                (#[trigger] units[u]).content_key@,
            ) == UnitKind::Missing implies listed(after, units[u].content_key@) by {
            if u < units.len() - 1 {
                assert(units.drop_last()[u] == units[u]);
                let k = choose|k: int|
                    0 <= k < before.len() && (#[trigger] before[k]).key == units[u].content_key@;
                assert(after[k] == before[k]);
            } else {
                if listed(before, units[u].content_key@) {
                    let k = choose|k: int|
                        0 <= k < before.len() && (#[trigger] before[k]).key
                            == units[u].content_key@;
                    assert(after[k] == before[k]);
                } else {
                    assert(after[before.len() as int].key == units[u].content_key@);
                }
            }
        }
    }
}

impl Counts {
    /// Every unit is counted as one kind.
    pub open spec fn balanced(self) -> bool {
        self.cached + self.missing + self.failures == self.total
    }

    pub fn none() -> (counts: Counts)
        ensures
            counts == (Counts { total: 0, cached: 0, missing: 0, failures: 0 }),
    {
        Counts { total: 0, cached: 0, missing: 0, failures: 0 }
    }

    /// Adds the counts over more units.
    pub fn add_window(&mut self, window: Counts)
        requires
            old(self).balanced(),
            window.balanced(),
            old(self).total + window.total <= usize::MAX,
        ensures
            final(self).balanced(),
            final(self).total == old(self).total + window.total,
            final(self).cached == old(self).cached + window.cached,
            final(self).missing == old(self).missing + window.missing,
            final(self).failures == old(self).failures + window.failures,
    {
        self.total = self.total + window.total;
        self.cached = self.cached + window.cached;
        self.missing = self.missing + window.missing;
        self.failures = self.failures + window.failures;
    }
}

/// How preparation of the published generation stands, given the counts over its content.
pub fn status(ledger: &PreparationLedger, generation: i64, counts: Counts) -> (status:
    PreparationStatus)
    requires
        ledger.well_formed(),
    ensures
        if generation <= 0 {
            cache::status_from(None, generation, 0, 0, 0, 0, status)
        } else {
            cache::status_from(
                ledger.run_at(generation),
                generation,
                counts.total,
                counts.cached,
                counts.missing,
                counts.failures,
                status,
            )
        },
{
    if generation <= 0 {
        return PreparationStatus {
            generation,
            state: PreparationState::Idle,
            cursor: 0,
            total: 0,
            cached: 0,
            missing: 0,
            failures: 0,
            error: None,
        };
    }
    ledger.counts_for_status(
        generation,
        counts.total,
        counts.cached,
        counts.missing,
        counts.failures,
    )
}

/// A sweep under way.
#[derive(Debug)]
pub struct Sweep {
    pub generation: i64,
    pub total: usize,
    pub cursor: usize,
    pub cached: usize,
    pub missing: usize,
    pub failures: usize,
    pub units: Vec<EmbeddingInput>,
    pub pending: Vec<EmbeddingInput>,
    pub retry_delay_ms: u64,
}

/// What to do next in a sweep.
#[derive(Debug)]
pub enum SweepStep {
    /// The sweep is over; this is how its run stands.
    Done(Option<RunRecord>),
    /// Read the content of the generation, to forget what is not in it any more, then begin.
    CollectKeys,
    /// Begin.
    Begin,
    /// Read the window of units at the cursor.
    ReadWindow,
    /// Run the worker on the pending inputs.
    Infer,
    /// Wait for so many milliseconds, then run the worker on the pending inputs.
    Wait(u64),
    /// Classify the window.
    Classify,
    /// Go on to the next window.
    Advance,
    /// Count all content of the generation.
    Count,
}

/// Whether a step ends a sweep and tells how its run stands.
pub open spec fn done_with(step: SweepStep, run: Option<RunView>) -> bool {
    step matches SweepStep::Done(found) && match found {
        Some(found) => run == Some(found@),
        None => run is None,
    }
}

/// Whether a sweep over a generation starts: `observed` is the generation that the index is
/// at. A generation that has changed meanwhile is superseded, and has no units any more.
pub fn start_sweep(
    ledger: &mut PreparationLedger,
    request: SweepRequest,
    observed: i64,
) -> (step: SweepStep)
    requires
        old(ledger).well_formed(),
    ensures
        final(ledger).well_formed(),
        if observed != request.generation {
            abandoned(*old(ledger), request.generation, 0, step, *final(ledger))
        } else {
            let run = old(ledger).run_at(request.generation);
            &&& *final(ledger) == *old(ledger)
            &&& if request.reset_terminal || run is None || !run->0.state.is_over() {
                step == SweepStep::CollectKeys
            } else {
                step == SweepStep::Begin
            }
        },
{
    if observed != request.generation {
        return abandon(ledger, request.generation, 0);
    }
    let over = match ledger.runs.get(request.generation) {
        Some(run) => run.state.terminal(),
        None => false,
    };
    if request.reset_terminal || !over {
        SweepStep::CollectKeys
    } else {
        SweepStep::Begin
    }
}

/// Whether a sweep was given up before it began, because the generation has changed.
pub open spec fn abandoned(
    before: PreparationLedger,
    generation: i64,
    total: usize,
    step: SweepStep,
    after: PreparationLedger,
) -> bool {
    &&& after.requested_generation == before.requested_generation
    &&& after.completions == before.completions
    &&& after.same_runs_but(&before, generation)
    &&& after.run_at(generation) == Some(
        cache::superseded_generation(
            before.run_at(generation),
            total as int,
            "source generation changed before preparation started"@,
        ),
    )
    &&& done_with(step, after.run_at(generation))
}

fn abandon(ledger: &mut PreparationLedger, generation: i64, total: usize) -> (step: SweepStep)
    requires
        old(ledger).well_formed(),
    ensures
        final(ledger).well_formed(),
        abandoned(*old(ledger), generation, total, step, *final(ledger)),
{
    ledger.supersede_generation(
        generation,
        total,
        "source generation changed before preparation started",
    );
    SweepStep::Done(ledger.run(generation))
}

/// The content of a generation, as far as it was read.
#[derive(Debug)]
pub struct KeyCollector {
    pub keys: KeyTable<()>,
    pub offset: usize,
}

impl KeyCollector {
    pub fn new() -> (collector: Self)
        ensures
            collector.keys.well_formed(),
            collector.keys@ == Map::<Seq<char>, ()>::empty(),
            collector.offset == 0,
    {
        KeyCollector { keys: KeyTable::new(), offset: 0 }
    }

    /// Takes in the window of units at the offset; whether there may be more.
    pub fn take(&mut self, units: &[EmbeddingInput]) -> (more: bool)
        requires
            old(self).keys.well_formed(),
            old(self).offset + units.len() <= usize::MAX,
        ensures
            final(self).keys.well_formed(),
            more == (units.len() > 0),
            final(self).offset == old(self).offset + units.len(),
            forall|key: Seq<char>|
                #[trigger] final(self).keys@.contains_key(key) <==> old(self).keys@.contains_key(
                    key,
                ) || exists|i: int|
                    0 <= i < units.len() && (#[trigger] units@[i]).content_key@ == key,
    {
        let mut i: usize = 0;
        while i < units.len()
            invariant
                i <= units.len(),
                self.keys.well_formed(),
                self.offset == old(self).offset,
                forall|key: Seq<char>|
                    #[trigger] self.keys@.contains_key(key) <==> old(self).keys@.contains_key(key)
                        || exists|k: int|
                        0 <= k < i && (#[trigger] units@[k]).content_key@ == key,
            decreases units.len() - i,
        {
            let ghost before = self.keys@;
            self.keys.insert_new(units[i].content_key.clone(), ());
            proof {
                assert forall|key: Seq<char>| #[trigger] self.keys@.contains_key(key) == (old(
                    self,
                ).keys@.contains_key(key) || exists|k: int|
                    0 <= k < i + 1 && (#[trigger] units@[k]).content_key@ == key) by {
                    if key == units@[i as int].content_key@ {
                        assert(units@[i as int].content_key@ == key);
                    }
                    if before.contains_key(key) && !old(self).keys@.contains_key(key) {
                        let k = choose|k: int|
                            0 <= k < i && (#[trigger] units@[k]).content_key@ == key;
                        assert(units@[k].content_key@ == key);
                    }
                    if exists|k: int| 0 <= k < i + 1 && (#[trigger] units@[k]).content_key@ == key {
                        let k = choose|k: int|
                            0 <= k < i + 1 && (#[trigger] units@[k]).content_key@ == key;
                        if k < i {
                            assert(before.contains_key(key));
                        }
                    }
                }
            }
            i += 1;
        }
        self.offset = self.offset + units.len();
        units.len() > 0
    }
}

/// Begins a sweep, or finds that its run is over. `keys` is the content of the generation
/// where it was collected, with the generation that the index was at then.
pub fn begin_sweep(
    ledger: &mut PreparationLedger,
    request: SweepRequest,
    total: usize,
    keys: Option<(i64, &KeyTable<()>)>,
) -> (result: Result<Sweep, SweepStep>)
    requires
        old(ledger).well_formed(),
        keys matches Some(found) ==> found.1.well_formed(),
    ensures
        final(ledger).well_formed(),
        if keys is Some && (keys->0).0 != request.generation {
            result is Err && abandoned(
                *old(ledger),
                request.generation,
                total,
                result->Err_0,
                *final(ledger),
            )
        } else {
            exists|pruned: PreparationLedger, run: RunView|
                {
                    &&& match keys {
                        Some(found) => old(ledger).prunes(found.1@, pruned),
                        None => pruned == *old(ledger),
                    }
                    &&& #[trigger] pruned.begins(
                        request.generation,
                        total,
                        request.reset_terminal,
                        run,
                        *final(ledger),
                    )
                    &&& match result {
                        Err(step) => run.state.is_over() && done_with(step, Some(run)),
                        Ok(sweep) => !run.state.is_over() && sweep.resumes(
                            request.generation,
                            total,
                            run,
                        ),
                    }
                }
        },
{
    match keys {
        Some((observed, current)) => {
            if observed != request.generation {
                return Err(abandon(ledger, request.generation, total));
            }
            ledger.prune_completions(current);
        },
        None => {},
    }
    let ghost pruned = *ledger;
    let run = ledger.begin(request.generation, total, request.reset_terminal);
    assert(pruned.begins(
        request.generation,
        total,
        request.reset_terminal,
        run@,
        *ledger,
    ));
    if run.state.terminal() {
        return Err(SweepStep::Done(Some(run)));
    }
    Ok(
        Sweep {
            generation: request.generation,
            total,
            cursor: if run.cursor < total {
                run.cursor
            } else {
                total
            },
            cached: run.cached,
            missing: run.missing,
            failures: run.failures,
            units: Vec::new(),
            pending: Vec::new(),
            retry_delay_ms: FIRST_RETRY_MS,
        },
    )
}

/// How the worker fared with the pending inputs.
#[derive(Debug)]
pub enum InferenceOutcome {
    /// Every input has its outcome.
    Finished,
    /// The worker is not available now.
    Retryable,
    /// The failure is that of every pending input.
    UnitFailure(Failure),
    /// The worker failed for good.
    Fatal(Failure),
}

/// The content of a batch that has a vector, with its vector, in order.
pub open spec fn embedded(
    batch: Seq<EmbeddingInput>,
    results: Seq<Result<Embedding, Failure>>,
) -> Seq<(Seq<char>, Embedding)>
    decreases results.len(),
{
    if results.len() == 0 {
        Seq::empty()
    } else {
        let before = embedded(batch, results.drop_last());
        match results.last() {
            Ok(vector) => before.push((batch[results.len() - 1].content_key@, vector)),
            Err(_) => before,
        }
    }
}

/// The content of a batch that failed, with what is said of it, in order.
pub open spec fn failed(
    batch: Seq<EmbeddingInput>,
    results: Seq<Result<Embedding, Failure>>,
) -> Seq<(Seq<char>, Seq<char>)>
    decreases results.len(),
{
    if results.len() == 0 {
        Seq::empty()
    } else {
        let before = failed(batch, results.drop_last());
        match results.last() {
            Ok(_) => before,
            Err(failure) => before.push(
                (batch[results.len() - 1].content_key@, failure.headline@),
            ),
        }
    }
}

/// Vectors with the content that they are for.
pub open spec fn vector_views(vectors: Seq<(String, Embedding)>) -> Seq<(Seq<char>, Embedding)> {
    Seq::new(vectors.len(), |i: int| (vectors[i].0@, vectors[i].1))
}

/// Failures with the content that they are of.
pub open spec fn failure_views(failures: Seq<(String, String)>) -> Seq<(Seq<char>, Seq<char>)> {
    Seq::new(failures.len(), |i: int| (failures[i].0@, failures[i].1@))
}

/// Parts the outcomes of a batch: the vectors to keep, and the failures to note.
pub fn part_outcomes(
    batch: &[EmbeddingInput],
    results: Vec<Result<Embedding, Failure>>,
) -> (parted: (Vec<(String, Embedding)>, Vec<(String, String)>))
    requires
        batch.len() == results.len(),
    ensures
        vector_views(parted.0@) == embedded(batch@, results@),
        failure_views(parted.1@) == failed(batch@, results@),
{
    let ghost all = results@;
    let mut vectors: Vec<(String, Embedding)> = Vec::new();
    let mut failures: Vec<(String, String)> = Vec::new();
    let mut i: usize = 0;
    assert(vector_views(vectors@) =~= embedded(batch@, all.take(0)));
    assert(failure_views(failures@) =~= failed(batch@, all.take(0)));
    for result in it: results
        invariant
            it.seq() == all,
            i == it.index(),
            batch.len() == all.len(),
            vector_views(vectors@) == embedded(batch@, all.take(i as int)),
            failure_views(failures@) == failed(batch@, all.take(i as int)),
    {
        let ghost kept = vectors@;
        let ghost noted = failures@;
        assert(result == all[i as int]);
        assert(all.take(i + 1).drop_last() =~= all.take(i as int));
        let key = batch[i].content_key.clone();
        match result {
            Ok(vector) => {
                vectors.push((key, vector));
                assert(vector_views(vectors@) =~= vector_views(kept).push((key@, vector)));
            },
            Err(failure) => {
                let ghost said = failure.headline@;
                failures.push((key, failure.headline));
                assert(failure_views(failures@) =~= failure_views(noted).push((key@, said)));
            },
        }
        i += 1;
    }
    assert(all.take(i as int) =~= all);
    (vectors, failures)
}

/// How the worker fared, from what a run over the pending inputs gave back and what the worker
/// says of a failure: whether it may pass, and whether it is that of every input.
pub fn inference_outcome(
    result: Result<(), Failure>,
    retryable: bool,
    unit_failure: bool,
) -> (outcome: InferenceOutcome)
    ensures
        outcome == match result {
            Ok(_) => InferenceOutcome::Finished,
            Err(failure) => if retryable {
                InferenceOutcome::Retryable
            } else if unit_failure {
                InferenceOutcome::UnitFailure(failure)
            } else {
                InferenceOutcome::Fatal(failure)
            },
        },
{
    match result {
        Ok(_) => InferenceOutcome::Finished,
        Err(failure) => if retryable {
            InferenceOutcome::Retryable
        } else if unit_failure {
            InferenceOutcome::UnitFailure(failure)
        } else {
            InferenceOutcome::Fatal(failure)
        },
    }
}

impl Sweep {
    /// Whether the sweep goes on from where its run stands.
    pub open spec fn resumes(self, generation: i64, total: usize, run: RunView) -> bool {
        &&& self.generation == generation
        &&& self.total == total
        &&& self.cursor == if run.cursor < total {
            run.cursor
        } else {
            total as int
        }
        &&& self.cached == run.cached
        &&& self.missing == run.missing
        &&& self.failures == run.failures
        &&& self.retry_delay_ms == FIRST_RETRY_MS
    }

    /// How the run stands that this sweep keeps.
    pub open spec fn run_view(self, state: PreparationState, error: Option<Seq<char>>) -> RunView {
        RunView {
            state,
            cursor: self.cursor as int,
            total: self.total as int,
            cached: self.cached as int,
            missing: self.missing as int,
            failures: self.failures as int,
            error,
        }
    }

    /// Whether the sweep ended in a state, and its run says so.
    pub open spec fn ends(
        self,
        before: PreparationLedger,
        state: PreparationState,
        error: Option<Seq<char>>,
        step: SweepStep,
        after: PreparationLedger,
    ) -> bool {
        &&& before.updates(self.generation, self.run_view(state, error), after)
        &&& done_with(step, after.run_at(self.generation))
    }

    fn end(&self, ledger: &mut PreparationLedger, state: PreparationState, error: Option<String>) -> (step:
        SweepStep)
        requires
            old(ledger).well_formed(),
        ensures
            final(ledger).well_formed(),
            self.ends(*old(ledger), state, cache::words_of(error), step, *final(ledger)),
    {
        ledger.finish(
            self.generation,
            RunRecord {
                state,
                cursor: self.cursor,
                total: self.total,
                cached: self.cached,
                missing: self.missing,
                failures: self.failures,
                error,
            },
        );
        SweepStep::Done(ledger.run(self.generation))
    }

    /// What is next, when the index is at a generation: another window, the final count, or
    /// nothing because the generation was superseded.
    pub fn next(&self, ledger: &mut PreparationLedger, current: i64) -> (step: SweepStep)
        requires
            old(ledger).well_formed(),
        ensures
            final(ledger).well_formed(),
            if self.cursor >= self.total {
                step == SweepStep::Count && *final(ledger) == *old(ledger)
            } else if current != self.generation {
                self.ends(
                    *old(ledger),
                    PreparationState::Superseded,
                    Some("source generation superseded during preparation"@),
                    step,
                    *final(ledger),
                )
            } else {
                step == SweepStep::ReadWindow && *final(ledger) == *old(ledger)
            },
    {
        if self.cursor >= self.total {
            return SweepStep::Count;
        }
        if current != self.generation {
            return self.end(
                ledger,
                PreparationState::Superseded,
                Some("source generation superseded during preparation".to_owned()),
            );
        }
        SweepStep::ReadWindow
    }

    /// Takes in the window of units at the cursor, read when the index was at `observed`.
    pub fn take_window(
        &mut self,
        ledger: &mut PreparationLedger,
        observed: i64,
        units: Vec<EmbeddingInput>,
        snapshot: &CachedSnapshot,
    ) -> (step: SweepStep)
        requires
            old(ledger).well_formed(),
            snapshot.well_formed(),
        ensures
            final(ledger).well_formed(),
            if observed != old(self).generation {
                &&& *final(self) == *old(self)
                &&& old(self).ends(
                    *old(ledger),
                    PreparationState::Superseded,
                    Some("source generation superseded during snapshot"@),
                    step,
                    *final(ledger),
                )
            } else if units.len() == 0 {
                &&& *final(self) == *old(self)
                &&& *final(ledger) == *old(ledger)
                &&& step == SweepStep::Count
            } else {
                &&& *final(ledger) == *old(ledger)
                &&& step == SweepStep::Infer
                &&& *final(self) == (Sweep {
                    units,
                    pending: final(self).pending,
                    retry_delay_ms: FIRST_RETRY_MS,
                    ..*old(self)
                })
                &&& input_views(final(self).pending@) == pending_of(
                    *old(ledger),
                    *snapshot,
                    units@,
                )
            },
    {
        if observed != self.generation {
            return self.end(
                ledger,
                PreparationState::Superseded,
                Some("source generation superseded during snapshot".to_owned()),
            );
        }
        if units.len() == 0 {
            return SweepStep::Count;
        }
        self.pending = pending_inputs(ledger, units.as_slice(), snapshot);
        self.units = units;
        self.retry_delay_ms = FIRST_RETRY_MS;
        SweepStep::Infer
    }

    /// Takes in how the worker fared, when it was tried for so long. A worker that is not
    /// available is tried again for a while, with growing waits.
    pub fn inferred(
        &mut self,
        ledger: &mut PreparationLedger,
        outcome: InferenceOutcome,
        elapsed_ms: u64,
    ) -> (step: SweepStep)
        requires
            old(ledger).well_formed(),
            old(self).retry_delay_ms <= LONGEST_RETRY_MS,
        ensures
            final(ledger).well_formed(),
            final(self).retry_delay_ms <= LONGEST_RETRY_MS,
            match outcome {
                InferenceOutcome::Finished => {
                    &&& step == SweepStep::Classify
                    &&& *final(self) == *old(self)
                    &&& *final(ledger) == *old(ledger)
                },
                InferenceOutcome::Retryable => if elapsed_ms >= RETRY_WINDOW_MS {
                    &&& *final(self) == *old(self)
                    &&& old(self).ends(
                        *old(ledger),
                        PreparationState::Failed,
                        Some("preparation_worker_timeout: retry window exhausted"@),
                        step,
                        *final(ledger),
                    )
                } else {
                    &&& step == SweepStep::Wait(old(self).retry_delay_ms)
                    &&& *final(ledger) == *old(ledger)
                    &&& *final(self) == (Sweep {
                        retry_delay_ms: if 2 * old(self).retry_delay_ms < LONGEST_RETRY_MS {
                            (2 * old(self).retry_delay_ms) as u64
                        } else {
                            LONGEST_RETRY_MS
                        },
                        ..*old(self)
                    })
                },
                InferenceOutcome::UnitFailure(failure) => {
                    &&& step == SweepStep::Classify
                    &&& *final(self) == *old(self)
                    &&& final(ledger).requested_generation == old(ledger).requested_generation
                    &&& final(ledger).runs == old(ledger).runs
                    &&& failed_all(
                        old(ledger).completions@,
                        input_views(old(self).pending@),
                        failure.headline@,
                        final(ledger).completions@,
                    )
                },
                InferenceOutcome::Fatal(failure) => {
                    &&& *final(self) == *old(self)
                    &&& old(self).ends(
                        *old(ledger),
                        PreparationState::Failed,
                        Some(failure.headline@),
                        step,
                        *final(ledger),
                    )
                },
            },
    {
        match outcome {
            InferenceOutcome::Finished => SweepStep::Classify,
            InferenceOutcome::Retryable => {
                if elapsed_ms >= RETRY_WINDOW_MS {
                    return self.end(
                        ledger,
                        PreparationState::Failed,
                        Some("preparation_worker_timeout: retry window exhausted".to_owned()),
                    );
                }
                let delay: u64 = self.retry_delay_ms;
                self.retry_delay_ms = if 2 * delay < LONGEST_RETRY_MS {
                    2 * delay
                } else {
                    LONGEST_RETRY_MS
                };
                SweepStep::Wait(delay)
            },
            InferenceOutcome::UnitFailure(failure) => {
                self.fail_pending(ledger, failure.headline.as_str());
                SweepStep::Classify
            },
            InferenceOutcome::Fatal(failure) => self.end(
                ledger,
                PreparationState::Failed,
                Some(failure.headline),
            ),
        }
    }

    fn fail_pending(&self, ledger: &mut PreparationLedger, error: &str)
        requires
            old(ledger).well_formed(),
        ensures
            final(ledger).well_formed(),
            final(ledger).requested_generation == old(ledger).requested_generation,
            final(ledger).runs == old(ledger).runs,
            failed_all(
                old(ledger).completions@,
                input_views(self.pending@),
                error@,
                final(ledger).completions@,
            ),
    {
        let mut i: usize = 0;
        while i < self.pending.len()
            invariant
                i <= self.pending.len(),
                ledger.well_formed(),
                ledger.requested_generation == old(ledger).requested_generation,
                ledger.runs == old(ledger).runs,
                failed_all(
                    old(ledger).completions@,
                    input_views(self.pending@).take(i as int),
                    error@,
                    ledger.completions@,
                ),
            decreases self.pending.len() - i,
        {
            let ghost before = ledger.completions@;
            let ghost done = input_views(self.pending@).take(i as int);
            let ghost more = input_views(self.pending@).take(i + 1);
            ledger.fail(self.pending[i].content_key.as_str(), error);
            proof {
                let key = self.pending@[i as int].content_key@;
                assert(more == done.push(self.pending@[i as int]@));
                assert forall|k: Seq<char>| listed(more, k) == (listed(done, k) || k == key) by {
                    if listed(done, k) {
                        let j = choose|j: int| 0 <= j < done.len() && (#[trigger] done[j]).key == k;
                        assert(more[j] == done[j]);
                    }
                    if k == key {
                        assert(more[i as int].key == key);
                    }
                    if listed(more, k) {
                        let j = choose|j: int| 0 <= j < more.len() && (#[trigger] more[j]).key == k;
                        if j < i {
                            assert(done[j] == more[j]);
                        }
                    }
                }
                assert(failed_all(old(ledger).completions@, more, error@, ledger.completions@));
            }
            i += 1;
        }
        assert(input_views(self.pending@).take(i as int) =~= input_views(self.pending@));
    }

    /// Counts the window in and notes how far the run has come.
    pub fn classify(&mut self, ledger: &mut PreparationLedger, snapshot: &CachedSnapshot) -> (step:
        SweepStep)
        requires
            old(ledger).well_formed(),
            snapshot.well_formed(),
        ensures
            final(ledger).well_formed(),
            step == SweepStep::Advance,
            final(self).generation == old(self).generation,
            final(self).total == old(self).total,
            final(self).units == old(self).units,
            final(self).pending == old(self).pending,
            final(self).retry_delay_ms == old(self).retry_delay_ms,
            final(self).cursor == capped(old(self).cursor + old(self).units.len()),
            final(self).cached == capped(
                old(self).cached + count_units(
                    *old(ledger),
                    *snapshot,
                    old(self).units@,
                    UnitKind::Cached,
                ),
            ),
            final(self).missing == capped(
                old(self).missing + count_units(
                    *old(ledger),
                    *snapshot,
                    old(self).units@,
                    UnitKind::Missing,
                ),
            ),
            final(self).failures == capped(
                old(self).failures + count_units(
                    *old(ledger),
                    *snapshot,
                    old(self).units@,
                    UnitKind::Failed,
                ),
            ),
            old(ledger).updates(
                old(self).generation,
                final(self).run_view(PreparationState::Running, None),
                *final(ledger),
            ),
    {
        let window = classify_units(ledger, self.units.as_slice(), snapshot);
        self.cached = self.cached.saturating_add(window.cached);
        self.missing = self.missing.saturating_add(window.missing);
        self.failures = self.failures.saturating_add(window.failures);
        self.cursor = self.cursor.saturating_add(self.units.len());
        ledger.progress(
            self.generation,
            self.cursor,
            self.total,
            self.cached,
            self.missing,
            self.failures,
        );
        SweepStep::Advance
    }

    /// Ends the sweep with the counts over all content, taken when the index was at
    /// `observed`.
    pub fn conclude(&mut self, ledger: &mut PreparationLedger, observed: i64, counts: Counts) -> (step:
        SweepStep)
        requires
            old(ledger).well_formed(),
        ensures
            final(ledger).well_formed(),
            if observed != old(self).generation {
                &&& *final(self) == *old(self)
                &&& old(self).ends(
                    *old(ledger),
                    PreparationState::Superseded,
                    Some("source generation superseded after inference"@),
                    step,
                    *final(ledger),
                )
            } else {
                &&& *final(self) == (Sweep {
                    cached: counts.cached,
                    missing: counts.missing,
                    failures: counts.failures,
                    ..*old(self)
                })
                &&& final(self).ends(
                    *old(ledger),
                    concluded(counts),
                    conclusion(concluded(counts)),
                    step,
                    *final(ledger),
                )
            },
    {
        if observed != self.generation {
            return self.end(
                ledger,
                PreparationState::Superseded,
                Some("source generation superseded after inference".to_owned()),
            );
        }
        self.cached = counts.cached;
        self.missing = counts.missing;
        self.failures = counts.failures;
        if counts.failures > 0 {
            self.end(
                ledger,
                PreparationState::Failed,
                Some("one or more content units failed inference".to_owned()),
            )
        } else if counts.missing > 0 {
            self.end(
                ledger,
                PreparationState::Capacity,
                Some("embedding cache capacity cannot retain all content".to_owned()),
            )
        } else {
            self.end(ledger, PreparationState::Completed, None)
        }
    }
}

/// A count that the machine can hold.
pub open spec fn capped(n: int) -> int {
    if n <= usize::MAX {
        n
    } else {
        usize::MAX as int
    }
}

/// How a sweep ends when all its content was counted: failed content makes it fail; content
/// that was not retained means that the capacity was met, and the sweep does not start over.
pub open spec fn concluded(counts: Counts) -> PreparationState {
    if counts.failures > 0 {
        PreparationState::Failed
    } else if counts.missing > 0 {
        PreparationState::Capacity
    } else {
        PreparationState::Completed
    }
}

/// What is said of the end of a sweep.
pub open spec fn conclusion(state: PreparationState) -> Option<Seq<char>> {
    match state {
        PreparationState::Capacity => Some("embedding cache capacity cannot retain all content"@),
        PreparationState::Failed => Some("one or more content units failed inference"@),
        _ => None,
    }
}

/// Whether `after` notes the failure of all listed content of which nothing was noted
/// before, and nothing else.
pub open spec fn failed_all(
    before: Map<Seq<char>, cache::Completion>,
    inputs: Seq<InputView>,
    error: Seq<char>,
    after: Map<Seq<char>, cache::Completion>,
) -> bool {
    &&& forall|key: Seq<char>|
        #[trigger] after.contains_key(key) <==> before.contains_key(key) || listed(inputs, key)
    &&& forall|key: Seq<char>| #[trigger]
        after.contains_key(key) ==> if before.contains_key(key) {
            after[key] == before[key]
        } else {
            after[key] matches cache::Completion::Failed(words) && words@ == error
        }
}

/// A sweep that was counted to its end is over, whatever the counts are; it completed
/// exactly when nothing failed and nothing is missing, and then everything is kept.
pub proof fn law_counted_sweep_is_over(counts: Counts)
    requires
        counts.balanced(),
    ensures
        concluded(counts).is_over(),
        concluded(counts) == PreparationState::Completed <==> counts.cached == counts.total,
        concluded(counts) == PreparationState::Completed <==> conclusion(concluded(counts)) is None,
{
}

/// A run that is over stays so on an ordinary request, and an explicit retry starts it
/// again; a run that is under way is left alone by both.
pub proof fn law_only_retry_reopens(
    before: PreparationLedger,
    generation: i64,
    reset_terminal: bool,
    result: Result<ScheduleReceipt, Failure>,
    after: PreparationLedger,
)
    requires
        generation > 0,
        before.run_at(generation) is Some,
        scheduled(before, generation, reset_terminal, result, after),
    ensures
        !reset_terminal || !before.run_at(generation)->0.state.is_over() ==> after.run_at(
            generation,
        ) == before.run_at(generation),
        reset_terminal && before.run_at(generation)->0.state.is_over() ==> {
            &&& after.run_at(generation) == Some(
                cache::fresh_run(before.run_at(generation)->0.total),
            )
            &&& !result->Ok_0.coalesced
        },
{
}

/// Requests are coalesced: a generation that was requested once stays requested, and asking
/// for it again says so.
pub proof fn law_repeated_schedule_coalesces(
    l0: PreparationLedger,
    l1: PreparationLedger,
    l2: PreparationLedger,
    generation: i64,
    r1: Result<ScheduleReceipt, Failure>,
    r2: Result<ScheduleReceipt, Failure>,
)
    requires
        generation > 0,
        scheduled(l0, generation, false, r1, l1),
        scheduled(l1, generation, false, r2, l2),
    ensures
        r1 is Ok && r2 is Ok,
        r1->Ok_0.captured_generation == r2->Ok_0.captured_generation,
        r2->Ok_0.coalesced,
        l2 == l1,
{
}

} // verus!
