//! The record of preparation: what was requested, how each sweep went, and what became of
//! each piece of content.

use crate::semantic::preparation::{PreparationState, PreparationStatus};
use crate::tables;
use crate::tables::{IdTable, KeyTable};
use crate::text;
use crate::text::Failure;
use vstd::prelude::*;

verus! {

/// So many runs are kept.
pub const RUN_RETENTION: usize = 256;

/// One sweep over a generation.
#[derive(Debug)]
pub struct RunRecord {
    pub state: PreparationState,
    pub cursor: usize,
    pub total: usize,
    pub cached: usize,
    pub missing: usize,
    pub failures: usize,
    pub error: Option<String>,
}

/// A text that may be there, by what it says.
pub open spec fn words_of(error: Option<String>) -> Option<Seq<char>> {
    match error {
        Some(error) => Some(error@),
        None => None,
    }
}

/// What a run says.
pub struct RunView {
    pub state: PreparationState,
    pub cursor: int,
    pub total: int,
    pub cached: int,
    pub missing: int,
    pub failures: int,
    pub error: Option<Seq<char>>,
}

impl View for RunRecord {
    type V = RunView;

    open spec fn view(&self) -> RunView {
        RunView {
            state: self.state,
            cursor: self.cursor as int,
            total: self.total as int,
            cached: self.cached as int,
            missing: self.missing as int,
            failures: self.failures as int,
            error: words_of(self.error),
        }
    }
}

impl RunRecord {
    /// The same record once more.
    pub fn copy(&self) -> (copy: RunRecord)
        ensures
            copy@ == self@,
    {
        RunRecord {
            state: self.state,
            cursor: self.cursor,
            total: self.total,
            cached: self.cached,
            missing: self.missing,
            failures: self.failures,
            error: self.error.clone(),
        }
    }

    /// The record that a stored row holds. A row with an unknown state or a negative count is
    /// refused; the first such column is named.
    pub fn from_row(
        state: &str,
        cursor: i64,
        total: i64,
        cached: i64,
        missing: i64,
        failures: i64,
        error: Option<String>,
    ) -> (result: Result<RunRecord, Failure>)
        ensures
            match row_fault(state@, cursor, total, cached, missing, failures) {
                Some(fault) => result is Err && text::plain(result->Err_0, fault),
                None => {
                    &&& result is Ok
                    &&& PreparationState::named(state@) == Some(result->Ok_0.state)
                    &&& result->Ok_0.cursor == cursor
                    &&& result->Ok_0.total == total
                    &&& result->Ok_0.cached == cached
                    &&& result->Ok_0.missing == missing
                    &&& result->Ok_0.failures == failures
                    &&& result->Ok_0.error == error
                },
            },
    {
        let state = match PreparationState::parse(state) {
            Ok(state) => state,
            Err(failure) => return Err(failure),
        };
        if cursor < 0 || !fits_usize(cursor) {
            return Err(Failure::new("negative preparation cursor"));
        }
        if total < 0 || !fits_usize(total) {
            return Err(Failure::new("invalid preparation total"));
        }
        if cached < 0 || !fits_usize(cached) {
            return Err(Failure::new("invalid cached count"));
        }
        if missing < 0 || !fits_usize(missing) {
            return Err(Failure::new("invalid missing count"));
        }
        if failures < 0 || !fits_usize(failures) {
            return Err(Failure::new("invalid failure count"));
        }
        Ok(
            RunRecord {
                state,
                cursor: cursor as usize,
                total: total as usize,
                cached: cached as usize,
                missing: missing as usize,
                failures: failures as usize,
                error,
            },
        )
    }
}

fn fits_usize(n: i64) -> (fits: bool)
    requires
        n >= 0,
    ensures
        fits == (n <= usize::MAX),
{
    n as u64 <= usize::MAX as u64
}

/// Whether a stored count can be one.
pub open spec fn countable(n: i64) -> bool {
    0 <= n <= usize::MAX
}

/// What is wrong with a stored row, if anything is.
pub open spec fn row_fault(
    state: Seq<char>,
    cursor: i64,
    total: i64,
    cached: i64,
    missing: i64,
    failures: i64,
) -> Option<Seq<char>> {
    if PreparationState::named(state) is None {
        Some(PreparationState::unknown(state))
    } else if !countable(cursor) {
        Some("negative preparation cursor"@)
    } else if !countable(total) {
        Some("invalid preparation total"@)
    } else if !countable(cached) {
        Some("invalid cached count"@)
    } else if !countable(missing) {
        Some("invalid missing count"@)
    } else if !countable(failures) {
        Some("invalid failure count"@)
    } else {
        None
    }
}

/// What became of a piece of content: an embedding, or a failure.
#[derive(Debug)]
pub enum Completion {
    Complete,
    Failed(String),
}

/// The embeddings that are kept, by content; or, where no embedding cache is built in, that
/// what was completed counts as kept.
#[derive(Debug)]
pub enum CachedSnapshot {
    Vectors(KeyTable<()>),
    Completions,
}

impl CachedSnapshot {
    pub open spec fn well_formed(self) -> bool {
        self matches CachedSnapshot::Vectors(vectors) ==> vectors.well_formed()
    }
}

#[derive(Debug)]
pub struct PreparationLedger {
    pub requested_generation: i64,
    pub runs: IdTable<RunRecord>,
    pub completions: KeyTable<Completion>,
}

/// A run that starts over.
pub open spec fn fresh_run(total: int) -> RunView {
    RunView {
        state: PreparationState::Running,
        cursor: 0,
        total,
        cached: 0,
        missing: 0,
        failures: 0,
        error: None,
    }
}

impl PreparationLedger {
    pub open spec fn well_formed(&self) -> bool {
        self.runs.well_formed() && self.completions.well_formed()
    }

    /// What the run over a generation says, if there is one.
    pub open spec fn run_at(&self, generation: i64) -> Option<RunView> {
        if self.runs@.contains_key(generation) {
            Some(self.runs@[generation]@)
        } else {
            None
        }
    }

    /// Whether two records hold the same runs, but for one generation.
    pub open spec fn same_runs_but(&self, other: &PreparationLedger, generation: i64) -> bool {
        forall|g: i64| g != generation ==> #[trigger] self.run_at(g) == other.run_at(g)
    }

    /// Whether content has failed.
    pub open spec fn has_failed(&self, key: Seq<char>) -> bool {
        self.completions@.contains_key(key) && self.completions@[key] is Failed
    }

    /// Whether the embedding of content is kept.
    pub open spec fn is_cached(&self, key: Seq<char>, snapshot: CachedSnapshot) -> bool {
        match snapshot {
            CachedSnapshot::Vectors(vectors) => vectors@.contains_key(key),
            CachedSnapshot::Completions => self.completions@.contains_key(key)
                && self.completions@[key] is Complete,
        }
    }

    pub fn new() -> (ledger: Self)
        ensures
            ledger.well_formed(),
            ledger.requested_generation == 0,
            ledger.runs@ == Map::<i64, RunRecord>::empty(),
            ledger.completions@ == Map::<Seq<char>, Completion>::empty(),
    {
        PreparationLedger {
            requested_generation: 0,
            runs: IdTable::new(),
            completions: KeyTable::new(),
        }
    }

    /// Notes that a generation was requested; whether it, or a later one, was before.
    pub fn request(&mut self, generation: i64) -> (result: Result<bool, Failure>)
        ensures
            match result {
                Ok(known) => {
                    &&& generation > 0
                    &&& known == (old(self).requested_generation >= generation)
                    &&& *final(self) == (PreparationLedger {
                        requested_generation: if known {
                            old(self).requested_generation
                        } else {
                            generation
                        },
                        ..*old(self)
                    })
                },
                Err(failure) => {
                    &&& generation <= 0
                    &&& *final(self) == *old(self)
                    &&& text::plain(
                        failure,
                        "preparation_unavailable: no published source generation"@,
                    )
                },
            },
    {
        if generation <= 0 {
            return Err(Failure::new("preparation_unavailable: no published source generation"));
        }
        let known = self.requested_generation >= generation;
        if !known {
            self.requested_generation = generation;
        }
        Ok(known)
    }

    /// The run over a generation.
    pub fn run(&self, generation: i64) -> (run: Option<RunRecord>)
        requires
            self.well_formed(),
        ensures
            match run {
                Some(run) => self.run_at(generation) == Some(run@),
                None => self.run_at(generation) is None,
            },
    {
        match self.runs.get(generation) {
            Some(run) => Some(run.copy()),
            None => None,
        }
    }

    /// Whether `run` is the run over a generation once it was begun, and `after` the record
    /// then.
    pub open spec fn begins(
        self,
        generation: i64,
        total: usize,
        reset_terminal: bool,
        run: RunView,
        after: PreparationLedger,
    ) -> bool {
        &&& after.requested_generation == self.requested_generation
        &&& match self.run_at(generation) {
            Some(found) => if reset_terminal && found.state.is_over() {
                &&& run == fresh_run(total as int)
                &&& after.run_at(generation) == Some(run)
                &&& after.same_runs_but(&self, generation)
                &&& forgets_failures(self.completions@, after.completions@)
            } else {
                &&& run == found
                &&& after == self
            },
            None => {
                &&& run == fresh_run(total as int)
                &&& after.completions == self.completions
                &&& exists|added: IdTable<RunRecord>, record: RunRecord|
                    {
                        &&& record@ == run
                        &&& #[trigger] added.well_formed()
                        &&& added@ == #[trigger] self.runs@.insert(generation, record)
                        &&& after.runs@ == tables::newest_of(
                            added@,
                            added.ids(),
                            RUN_RETENTION as int,
                        )
                    }
            },
        }
    }

    /// Starts a run over a generation, or finds the one that is there. A run that is over is
    /// started again only when it is to be reset; failures of content are then forgotten.
    pub fn begin(&mut self, generation: i64, total: usize, reset_terminal: bool) -> (run: RunRecord)
        requires
            old(self).well_formed(),
        ensures
            final(self).well_formed(),
            old(self).begins(generation, total, reset_terminal, run@, *final(self)),
    {
        match self.run(generation) {
            Some(found) => {
                if reset_terminal && found.state.terminal() {
                    let reset = self.reset_terminal_run(generation, Some(total));
                    return RunRecord {
                        state: PreparationState::Running,
                        cursor: 0,
                        total,
                        cached: 0,
                        missing: 0,
                        failures: 0,
                        error: None,
                    };
                }
                found
            },
            None => {
                let record = RunRecord {
                    state: PreparationState::Running,
                    cursor: 0,
                    total,
                    cached: 0,
                    missing: 0,
                    failures: 0,
                    error: None,
                };
                let run = record.copy();
                self.runs.set(generation, record);
                let ghost added = self.runs;
                assert(added.well_formed());
                assert(added@ == old(self).runs@.insert(generation, record));
                self.runs.keep_newest(RUN_RETENTION);
                run
            },
        }
    }

    /// Starts a run that is over again, for an explicit request; whether there was one.
    pub fn reset_terminal(&mut self, generation: i64) -> (reset: bool)
        requires
            old(self).well_formed(),
        ensures
            final(self).well_formed(),
            old(self).resets(generation, None, reset, *final(self)),
    {
        self.reset_terminal_run(generation, None)
    }

    /// Whether `after` is the record with a run that was over started again; without such a
    /// run nothing changes.
    pub open spec fn resets(
        self,
        generation: i64,
        total: Option<usize>,
        reset: bool,
        after: PreparationLedger,
    ) -> bool {
        let found = self.run_at(generation);
        &&& reset == (found is Some && found->0.state.is_over())
        &&& !reset ==> after == self
        &&& reset ==> {
            &&& after.requested_generation == self.requested_generation
            &&& after.run_at(generation) == Some(
                fresh_run(
                    match total {
                        Some(total) => total as int,
                        None => found->0.total,
                    },
                ),
            )
            &&& after.same_runs_but(&self, generation)
            &&& forgets_failures(self.completions@, after.completions@)
        }
    }

    fn reset_terminal_run(&mut self, generation: i64, total: Option<usize>) -> (reset: bool)
        requires
            old(self).well_formed(),
        ensures
            final(self).well_formed(),
            old(self).resets(generation, total, reset, *final(self)),
    {
        let kept: usize = match self.runs.get(generation) {
            None => return false,
            Some(run) => {
                if !run.state.terminal() {
                    return false;
                }
                run.total
            },
        };
        let total: usize = match total {
            Some(total) => total,
            None => kept,
        };
        self.runs.set(
            generation,
            RunRecord {
                state: PreparationState::Running,
                cursor: 0,
                total,
                cached: 0,
                missing: 0,
                failures: 0,
                error: None,
            },
        );
        self.forget_failures();
        true
    }

    /// Forgets the failures of content, so that it is tried again.
    fn forget_failures(&mut self)
        requires
            old(self).well_formed(),
        ensures
            final(self).well_formed(),
            final(self).requested_generation == old(self).requested_generation,
            final(self).runs == old(self).runs,
            forgets_failures(old(self).completions@, final(self).completions@),
    {
        let mut kept: KeyTable<Completion> = KeyTable::new();
        let mut i: usize = 0;
        let len: usize = self.completions.len();
        proof {
            self.completions.lemma_keys();
        }
        while i < len
            invariant
                i <= len,
                len == self.completions.keys().len(),
                self.completions.well_formed(),
                self.completions.keys().no_duplicates(),
                kept.well_formed(),
                forall|key: Seq<char>|
                    #[trigger] kept@.contains_key(key) <==> exists|k: int|
                        0 <= k < i && #[trigger] self.completions.keys()[k] == key
                            && self.completions@[key] is Complete,
                forall|key: Seq<char>| #[trigger]
                    kept@.contains_key(key) ==> kept@[key] is Complete,
            decreases len - i,
        {
            let (key, completion) = self.completions.at(i);
            let ghost before = kept@;
            match completion {
                Completion::Complete => {
                    kept.insert_new(key.clone(), Completion::Complete);
                },
                Completion::Failed(_) => {},
            }
            proof {
                assert forall|name: Seq<char>| #[trigger] kept@.contains_key(name) == (exists|k: int|
                    0 <= k < i + 1 && #[trigger] self.completions.keys()[k] == name
                        && self.completions@[name] is Complete) by {
                    if before.contains_key(name) {
                        let k = choose|k: int|
                            0 <= k < i && #[trigger] self.completions.keys()[k] == name
                                && self.completions@[name] is Complete;
                        assert(self.completions.keys()[k] == name);
                    }
                    if name == key@ {
                        assert(self.completions.keys()[i as int] == name);
                    }
                    if exists|k: int|
                        0 <= k < i + 1 && #[trigger] self.completions.keys()[k] == name
                            && self.completions@[name] is Complete {
                        let k = choose|k: int|
                            0 <= k < i + 1 && #[trigger] self.completions.keys()[k] == name
                                && self.completions@[name] is Complete;
                        if k < i {
                            assert(before.contains_key(name));
                        }
                    }
                }
            }
            i += 1;
        }
        proof {
            assert forall|key: Seq<char>| #[trigger] kept@.contains_key(key) == (
            self.completions@.contains_key(key) && self.completions@[key] is Complete) by {
                if self.completions@.contains_key(key) {
                    assert(self.completions.keys().contains(key));
                    let k = choose|k: int|
                        0 <= k < self.completions.keys().len() && self.completions.keys()[k] == key;
                }
                if kept@.contains_key(key) {
                    let k = choose|k: int|
                        0 <= k < len && #[trigger] self.completions.keys()[k] == key
                            && self.completions@[key] is Complete;
                    assert(self.completions.keys().contains(key));
                }
            }
        }
        self.completions = kept;
    }
}

/// Whether `after` holds what was completed in `before`, and no failures.
pub open spec fn forgets_failures(
    before: Map<Seq<char>, Completion>,
    after: Map<Seq<char>, Completion>,
) -> bool {
    &&& forall|key: Seq<char>|
        #[trigger] after.contains_key(key) <==> before.contains_key(key) && before[key] is Complete
    &&& forall|key: Seq<char>| #[trigger] after.contains_key(key) ==> after[key] is Complete
}

impl PreparationLedger {
    /// Replaces the run over a generation, where there is one.
    fn update(&mut self, generation: i64, run: RunRecord)
        requires
            old(self).well_formed(),
        ensures
            final(self).well_formed(),
            old(self).updates(generation, run@, *final(self)),
    {
        if self.runs.get(generation).is_some() {
            self.runs.set(generation, run);
        }
    }

    /// Whether `after` is the record with the run over a generation replaced, where there is
    /// one.
    pub open spec fn updates(self, generation: i64, run: RunView, after: PreparationLedger) -> bool {
        &&& after.requested_generation == self.requested_generation
        &&& after.completions == self.completions
        &&& after.same_runs_but(&self, generation)
        &&& after.run_at(generation) == if self.run_at(generation) is Some {
            Some(run)
        } else {
            None
        }
    }

    /// Notes how far a run has come.
    pub fn progress(
        &mut self,
        generation: i64,
        cursor: usize,
        total: usize,
        cached: usize,
        missing: usize,
        failures: usize,
    )
        requires
            old(self).well_formed(),
        ensures
            final(self).well_formed(),
            old(self).updates(
                generation,
                (RunView {
                    state: PreparationState::Running,
                    cursor: cursor as int,
                    total: total as int,
                    cached: cached as int,
                    missing: missing as int,
                    failures: failures as int,
                    error: None,
                }),
                *final(self),
            ),
    {
        self.update(
            generation,
            RunRecord {
                state: PreparationState::Running,
                cursor,
                total,
                cached,
                missing,
                failures,
                error: None,
            },
        );
    }

    /// Notes how a run stands in the end.
    pub fn finish(&mut self, generation: i64, run: RunRecord)
        requires
            old(self).well_formed(),
        ensures
            final(self).well_formed(),
            old(self).updates(generation, run@, *final(self)),
    {
        self.update(generation, run);
    }

    /// Notes that running sweeps over earlier generations are superseded.
    pub fn supersede_older(&mut self, generation: i64)
        requires
            old(self).well_formed(),
        ensures
            final(self).well_formed(),
            final(self).requested_generation == old(self).requested_generation,
            final(self).completions == old(self).completions,
            forall|g: i64| #[trigger]
                final(self).run_at(g) == superseded_if(
                    old(self).run_at(g),
                    g < generation,
                ),
    {
        let len: usize = self.runs.len();
        let ghost ids = self.runs.ids();
        let mut kept: IdTable<RunRecord> = IdTable::new();
        let mut i: usize = 0;
        proof {
            self.runs.lemma_ids();
        }
        while i < len
            invariant
                i <= len,
                len == ids.len(),
                ids == self.runs.ids(),
                self.runs == old(self).runs,
                self.requested_generation == old(self).requested_generation,
                self.completions == old(self).completions,
                self.runs.well_formed(),
                kept.well_formed(),
                forall|a: int, b: int| 0 <= a < b < ids.len() ==> #[trigger] ids[a] < #[trigger] ids[b],
                forall|g: i64|
                    #[trigger] kept@.contains_key(g) <==> exists|k: int|
                        0 <= k < i && #[trigger] ids[k] == g,
                forall|g: i64| #[trigger]
                    kept@.contains_key(g) ==> Some(kept@[g]@) == superseded_if(
                        Some(self.runs@[g]@),
                        g < generation,
                    ),
            decreases len - i,
        {
            let (g, run) = self.runs.at(i);
            let ghost before = kept@;
            let mut copy = run.copy();
            if g < generation && copy.state == PreparationState::Running {
                copy.state = PreparationState::Superseded;
                if copy.error.is_none() {
                    copy.error = Some("source generation superseded".to_owned());
                }
            }
            kept.set(g, copy);
            proof {
                assert forall|h: i64| #[trigger] kept@.contains_key(h) == (exists|k: int|
                    0 <= k < i + 1 && #[trigger] ids[k] == h) by {
                    if before.contains_key(h) {
                        let k = choose|k: int| 0 <= k < i && #[trigger] ids[k] == h;
                        assert(ids[k] == h);
                    }
                    if h == g {
                        assert(ids[i as int] == h);
                    }
                    if exists|k: int| 0 <= k < i + 1 && #[trigger] ids[k] == h {
                        let k = choose|k: int| 0 <= k < i + 1 && #[trigger] ids[k] == h;
                        if k < i {
                            assert(before.contains_key(h));
                        }
                    }
                }
            }
            i += 1;
        }
        self.runs = kept;
    }

    /// Notes that a generation is superseded: a running sweep over it ends, one that is over
    /// stays as it is, and where there is none one is noted as superseded.
    pub fn supersede_generation(&mut self, generation: i64, total: usize, error: &str)
        requires
            old(self).well_formed(),
        ensures
            final(self).well_formed(),
            final(self).requested_generation == old(self).requested_generation,
            final(self).completions == old(self).completions,
            final(self).same_runs_but(old(self), generation),
            final(self).run_at(generation) == Some(
                superseded_generation(old(self).run_at(generation), total as int, error@),
            ),
    {
        let run = match self.runs.get(generation) {
            None => RunRecord {
                state: PreparationState::Superseded,
                cursor: 0,
                total,
                cached: 0,
                missing: 0,
                failures: 0,
                error: Some(error.to_owned()),
            },
            Some(found) => {
                let mut run = found.copy();
                if run.state == PreparationState::Running {
                    run.state = PreparationState::Superseded;
                    run.error = Some(error.to_owned());
                }
                run
            },
        };
        self.runs.set(generation, run);
    }

    /// Notes that content was embedded; what was noted of it before stays.
    pub fn complete(&mut self, key: &str)
        requires
            old(self).well_formed(),
        ensures
            final(self).well_formed(),
            final(self).requested_generation == old(self).requested_generation,
            final(self).runs == old(self).runs,
            final(self).completions@ == if old(self).completions@.contains_key(key@) {
                old(self).completions@
            } else {
                old(self).completions@.insert(key@, Completion::Complete)
            },
    {
        self.completions.insert_new(key.to_owned(), Completion::Complete);
    }

    /// Notes that content failed; what was noted of it before stays.
    pub fn fail(&mut self, key: &str, error: &str)
        requires
            old(self).well_formed(),
        ensures
            final(self).well_formed(),
            final(self).requested_generation == old(self).requested_generation,
            final(self).runs == old(self).runs,
            fails(old(self).completions@, key@, error@, final(self).completions@),
    {
        let failed = Completion::Failed(error.to_owned());
        self.completions.insert_new(key.to_owned(), failed);
    }

    /// Whether `after` is the record without what became of content that is not current.
    pub open spec fn prunes(self, current: Map<Seq<char>, ()>, after: PreparationLedger) -> bool {
        &&& after.requested_generation == self.requested_generation
        &&& after.runs == self.runs
        &&& forall|key: Seq<char>|
            #[trigger] after.completions@.contains_key(key) <==> self.completions@.contains_key(key)
                && current.contains_key(key)
        &&& forall|key: Seq<char>| #[trigger]
            after.completions@.contains_key(key) ==> after.completions@[key]
                == self.completions@[key]
    }

    /// Forgets what became of content that is not in the source any more.
    pub fn prune_completions(&mut self, current: &KeyTable<()>)
        requires
            old(self).well_formed(),
            current.well_formed(),
        ensures
            final(self).well_formed(),
            old(self).prunes(current@, *final(self)),
    {
        let mut dropped: Vec<String> = Vec::new();
        let len: usize = self.completions.len();
        let ghost keys = self.completions.keys();
        proof {
            self.completions.lemma_keys();
        }
        let mut i: usize = 0;
        while i < len
            invariant
                i <= len,
                len == keys.len(),
                keys == self.completions.keys(),
                self.completions.well_formed(),
                current.well_formed(),
                forall|k: int|
                    0 <= k < dropped.len() ==> !current@.contains_key((#[trigger] dropped@[k])@),
                forall|k: int|
                    0 <= k < i && !current@.contains_key(#[trigger] keys[k]) ==> exists|d: int|
                        0 <= d < dropped.len() && (#[trigger] dropped@[d])@ == keys[k],
            decreases len - i,
        {
            let (key, _) = self.completions.at(i);
            let ghost before = dropped@;
            if current.get(key.as_str()).is_none() {
                dropped.push(key.clone());
                proof {
                    assert forall|k: int|
                        0 <= k < i + 1 && !current@.contains_key(#[trigger] keys[k]) implies exists|
                        d: int,
                    | 0 <= d < dropped.len() && (#[trigger] dropped@[d])@ == keys[k] by {
                        if k < i {
                            let d = choose|d: int|
                                0 <= d < before.len() && (#[trigger] before[d])@ == keys[k];
                            assert(dropped@[d] == before[d]);
                        } else {
                            assert(dropped@[before.len() as int]@ == keys[k]);
                        }
                    }
                }
            }
            i += 1;
        }
        let ghost before = self.completions@;
        let mut d: usize = 0;
        while d < dropped.len()
            invariant
                d <= dropped.len(),
                self.completions.well_formed(),
                self.runs == old(self).runs,
                self.requested_generation == old(self).requested_generation,
                forall|key: Seq<char>|
                    #[trigger] self.completions@.contains_key(key) <==> before.contains_key(key)
                        && forall|k: int| 0 <= k < d ==> (#[trigger] dropped@[k])@ != key,
                forall|key: Seq<char>| #[trigger]
                    self.completions@.contains_key(key) ==> self.completions@[key] == before[key],
            decreases dropped.len() - d,
        {
            let ghost between = self.completions@;
            self.completions.remove(dropped[d].as_str());
            proof {
                assert forall|key: Seq<char>| #[trigger] self.completions@.contains_key(key) == (
                before.contains_key(key) && forall|k: int|
                    0 <= k < d + 1 ==> (#[trigger] dropped@[k])@ != key) by {
                    if self.completions@.contains_key(key) {
                        assert(between.contains_key(key));
                    }
                    if before.contains_key(key) && forall|k: int|
                        0 <= k < d + 1 ==> (#[trigger] dropped@[k])@ != key {
                        assert(dropped@[d as int]@ != key);
                        assert(between.contains_key(key));
                    }
                }
            }
            d += 1;
        }
        proof {
            assert forall|key: Seq<char>| #[trigger] self.completions@.contains_key(key) == (
            before.contains_key(key) && current@.contains_key(key)) by {
                if before.contains_key(key) && !current@.contains_key(key) {
                    assert(keys.contains(key));
                    let k = choose|k: int| 0 <= k < keys.len() && keys[k] == key;
                    assert(!current@.contains_key(keys[k]));
                }
            }
        }
    }

    /// What became of content: whether it was embedded.
    pub fn completion(&self, key: &str) -> (outcome: Option<bool>)
        requires
            self.well_formed(),
        ensures
            match outcome {
                Some(done) => self.completions@.contains_key(key@) && done
                    == self.completions@[key@] is Complete,
                None => !self.completions@.contains_key(key@),
            },
    {
        match self.completions.get(key) {
            Some(Completion::Complete) => Some(true),
            Some(Completion::Failed(_)) => Some(false),
            None => None,
        }
    }

    /// Whether the embedding of content is kept.
    pub fn is_cached_in(&self, key: &str, snapshot: &CachedSnapshot) -> (cached: bool)
        requires
            self.well_formed(),
            snapshot.well_formed(),
        ensures
            cached == self.is_cached(key@, *snapshot),
    {
        match snapshot {
            CachedSnapshot::Vectors(vectors) => vectors.get(key).is_some(),
            CachedSnapshot::Completions => match self.completion(key) {
                Some(done) => done,
                None => false,
            },
        }
    }

    /// How preparation of a generation stands, given the counts over its content. A run that
    /// completed but whose embeddings are not all there any more has met its capacity.
    pub fn counts_for_status(
        &self,
        generation: i64,
        total: usize,
        cached: usize,
        missing: usize,
        failures: usize,
    ) -> (status: PreparationStatus)
        requires
            self.well_formed(),
        ensures
            status_from(
                self.run_at(generation),
                generation,
                total,
                cached,
                missing,
                failures,
                status,
            ),
    {
        let (state, cursor, run_failures, error): (
            PreparationState,
            usize,
            usize,
            Option<String>,
        ) = match self.runs.get(generation) {
            Some(run) => (run.state, run.cursor, run.failures, run.error.clone()),
            None => (PreparationState::Idle, 0, 0, None),
        };
        let (state, error) = if state == PreparationState::Completed && missing > 0 {
            (
                PreparationState::Capacity,
                match error {
                    Some(error) => Some(error),
                    None => Some("embedding cache capacity cannot retain all content".to_owned()),
                },
            )
        } else {
            (state, error)
        };
        PreparationStatus {
            generation,
            state,
            cursor,
            total,
            cached,
            missing,
            failures: if failures > run_failures {
                failures
            } else {
                run_failures
            },
            error,
        }
    }

    /// Notes that the worker failed, even where no run was begun.
    pub fn record_worker_error(&mut self, generation: i64, message: &str)
        requires
            old(self).well_formed(),
        ensures
            final(self).well_formed(),
            final(self).requested_generation == old(self).requested_generation,
            final(self).completions == old(self).completions,
            final(self).same_runs_but(old(self), generation),
            final(self).run_at(generation) == Some(
                failed_run(old(self).run_at(generation), message@),
            ),
    {
        let run = match self.runs.get(generation) {
            None => RunRecord {
                state: PreparationState::Failed,
                cursor: 0,
                total: 0,
                cached: 0,
                missing: 0,
                failures: 1,
                error: Some(message.to_owned()),
            },
            Some(found) => {
                let mut run = found.copy();
                run.state = PreparationState::Failed;
                if run.failures == 0 {
                    run.failures = 1;
                }
                run.error = Some(message.to_owned());
                run
            },
        };
        self.runs.set(generation, run);
    }
}

/// A run that is superseded where it still runs.
pub open spec fn superseded_if(run: Option<RunView>, older: bool) -> Option<RunView> {
    match run {
        Some(run) => if older && run.state == PreparationState::Running {
            Some(
                RunView {
                    state: PreparationState::Superseded,
                    error: if run.error is Some {
                        run.error
                    } else {
                        Some("source generation superseded"@)
                    },
                    ..run
                },
            )
        } else {
            Some(run)
        },
        None => None,
    }
}

/// A run over a generation that is superseded.
pub open spec fn superseded_generation(
    run: Option<RunView>,
    total: int,
    error: Seq<char>,
) -> RunView {
    match run {
        Some(run) => if run.state == PreparationState::Running {
            RunView { state: PreparationState::Superseded, error: Some(error), ..run }
        } else {
            run
        },
        None => RunView {
            state: PreparationState::Superseded,
            cursor: 0,
            total,
            cached: 0,
            missing: 0,
            failures: 0,
            error: Some(error),
        },
    }
}

/// A run that the worker failed.
pub open spec fn failed_run(run: Option<RunView>, message: Seq<char>) -> RunView {
    match run {
        Some(run) => RunView {
            state: PreparationState::Failed,
            failures: if run.failures > 1 {
                run.failures
            } else {
                1
            },
            error: Some(message),
            ..run
        },
        None => RunView {
            state: PreparationState::Failed,
            cursor: 0,
            total: 0,
            cached: 0,
            missing: 0,
            failures: 1,
            error: Some(message),
        },
    }
}

/// Whether `after` notes the failure of content, where nothing was noted of it before.
pub open spec fn fails(
    before: Map<Seq<char>, Completion>,
    key: Seq<char>,
    error: Seq<char>,
    after: Map<Seq<char>, Completion>,
) -> bool {
    if before.contains_key(key) {
        after == before
    } else {
        exists|failed: Completion|
            {
                &&& failed matches Completion::Failed(words) && words@ == error
                &&& after == #[trigger] before.insert(key, failed)
            }
    }
}

/// Whether `status` tells how a run stands.
pub open spec fn status_from(
    run: Option<RunView>,
    generation: i64,
    total: usize,
    cached: usize,
    missing: usize,
    failures: usize,
    status: PreparationStatus,
) -> bool {
    let found = match run {
        Some(run) => run,
        None => RunView { state: PreparationState::Idle, ..fresh_run(0) },
    };
    let short = found.state == PreparationState::Completed && missing > 0;
    &&& status.generation == generation
    &&& status.state == if short {
        PreparationState::Capacity
    } else {
        found.state
    }
    &&& status.cursor == found.cursor
    &&& status.total == total
    &&& status.cached == cached
    &&& status.missing == missing
    &&& status.failures == if failures > found.failures {
        failures as int
    } else {
        found.failures
    }
    &&& words_of(status.error) == if short && found.error is None {
        Some("embedding cache capacity cannot retain all content"@)
    } else {
        found.error
    }
}

} // verus!
