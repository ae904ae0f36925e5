use trufflepig::semantic::embedding::Embedding;
use trufflepig::semantic::embedding_cache::cache_format;
use trufflepig::semantic::pins::{ModelPins, DIMENSIONS};
use trufflepig::semantic::preparation::cache::{CachedSnapshot, PreparationLedger, RunRecord};
use trufflepig::semantic::preparation::sweep::{
    begin_sweep, classify_units, estimate_tokens, inference_outcome, next_pending, open_context,
    part_outcomes, pending_inputs,
    record_worker_error_in_cache, retry, run_foreground, same_context, schedule, start_sweep, status,
    sweep_again, wait, wait_timeout, Counts, InferenceOutcome, KeyCollector, Sweep, SweepRequest,
    SweepStep, FIRST_RETRY_MS, LONGEST_RETRY_MS, RETRY_WINDOW_MS,
};
use trufflepig::semantic::preparation::worker::{
    batch_outcomes, fail_each, is_runtime_batch_error, next_batch_end,
    require_foreground_cuda_mask, run_batches_grouped, vectors_for,
    ClosureCompletion, ClosureWorker, EmbeddingWorker, ForegroundWorker, SharedWorker,
};
use trufflepig::semantic::preparation::{
    EmbeddingInput, PreparationState, PreparationStatus, MAX_BATCH, MAX_PADDED_TOKENS,
    SNAPSHOT_WINDOW,
};
use trufflepig::semantic::runtime_config::{InferenceConfig, InferenceProvider};
use trufflepig::semantic::worker::engine::Engine;
use trufflepig::tables::KeyTable;
use trufflepig::text::Failure;

type BatchResults = Result<Vec<Result<Embedding, Failure>>, Failure>;

fn fake_embedding() -> Embedding {
    let mut values = vec![0.0f32.to_bits(); DIMENSIONS];
    values[0] = 1.0f32.to_bits();
    Embedding(values)
}

fn pins() -> ModelPins {
    ModelPins {
        model_name: "model".into(),
        model_revision: "revision".into(),
        input_version: "input-v1".into(),
        reranker_name: "reranker".into(),
        reranker_revision: "rerank-revision".into(),
        build: "build".into(),
    }
}

fn content_key(text: &str) -> String {
    cache_format::content_key(&pins(), b"{}", text)
}

fn unit(text: &str) -> EmbeddingInput {
    EmbeddingInput {
        content_key: content_key(text),
        text: text.into(),
        token_count: estimate_tokens(text),
    }
}

/// An index with one generation published, its ledger and the vectors that are kept.
struct Project {
    generation: i64,
    units: Vec<EmbeddingInput>,
    ledger: PreparationLedger,
    vectors: KeyTable<()>,
}

fn fixture(source: &str) -> Project {
    Project {
        generation: 1,
        units: vec![unit(source)],
        ledger: PreparationLedger::new(),
        vectors: KeyTable::new(),
    }
}

impl Project {
    fn snapshot(&self) -> CachedSnapshot {
        let mut kept = KeyTable::new();
        for i in 0..self.vectors.len() {
            kept.insert_new(self.vectors.at(i).0.clone(), ());
        }
        CachedSnapshot::Vectors(kept)
    }

    fn window(&self, cursor: usize) -> Vec<EmbeddingInput> {
        self.units.iter().skip(cursor).take(SNAPSHOT_WINDOW).map(|unit| unit.copy()).collect()
    }

    fn counts(&self) -> Counts {
        classify_units(&self.ledger, &self.units, &self.snapshot())
    }

    fn status(&self) -> PreparationStatus {
        status(&self.ledger, self.generation, self.counts())
    }

    fn schedule(&mut self) -> bool {
        schedule(&mut self.ledger, self.generation).unwrap().coalesced
    }

    fn retry(&mut self) -> bool {
        retry(&mut self.ledger, self.generation).unwrap().coalesced
    }

    fn infer<W: EmbeddingWorker>(&mut self, sweep: &mut Sweep, worker: &mut W) -> InferenceOutcome {
        let ledger = &mut self.ledger;
        let vectors = &mut self.vectors;
        let mut complete = ClosureCompletion::new(
            |batch: &[EmbeddingInput], results: Vec<Result<Embedding, Failure>>| {
                let (embedded, failed) = part_outcomes(batch, results);
                for (key, error) in failed {
                    ledger.fail(&key, &error);
                }
                for (key, _) in embedded {
                    ledger.complete(&key);
                    vectors.insert_new(key, ());
                }
                Ok(())
            },
        );
        let result = run_batches_grouped(worker, &sweep.pending, &mut complete);
        let retryable = matches!(&result, Err(e) if worker.is_retryable_batch_error(e));
        let unit_failure = matches!(&result, Err(e) if worker.batch_error_is_unit_failure(e));
        inference_outcome(result, retryable, unit_failure)
    }

    fn begin(&mut self, request: SweepRequest) -> Result<Sweep, Option<RunRecord>> {
        let total = self.units.len();
        let started = start_sweep(&mut self.ledger, request, self.generation);
        let begun = match started {
            SweepStep::CollectKeys => {
                let mut collector = KeyCollector::new();
                loop {
                    let window = self.window(collector.offset);
                    if !collector.take(&window) {
                        break;
                    }
                }
                let keys = Some((self.generation, &collector.keys));
                begin_sweep(&mut self.ledger, request, total, keys)
            }
            SweepStep::Begin => begin_sweep(&mut self.ledger, request, total, None),
            SweepStep::Done(run) => return Err(run),
            other => panic!("{other:?}"),
        };
        match begun {
            Ok(sweep) => Ok(sweep),
            Err(SweepStep::Done(run)) => Err(run),
            Err(other) => panic!("{other:?}"),
        }
    }

    fn sweep<W: EmbeddingWorker>(
        &mut self,
        request: SweepRequest,
        worker: &mut W,
    ) -> Option<RunRecord> {
        match self.begin(request) {
            Ok(sweep) => self.finish(sweep, worker),
            Err(run) => run,
        }
    }

    fn finish<W: EmbeddingWorker>(&mut self, mut sweep: Sweep, worker: &mut W) -> Option<RunRecord> {
        let mut waited = 0;
        let mut step = sweep.next(&mut self.ledger, self.generation);
        loop {
            step = match step {
                SweepStep::ReadWindow => {
                    let window = self.window(sweep.cursor);
                    let snapshot = self.snapshot();
                    sweep.take_window(&mut self.ledger, self.generation, window, &snapshot)
                }
                SweepStep::Infer => {
                    let outcome = self.infer(&mut sweep, worker);
                    sweep.inferred(&mut self.ledger, outcome, waited)
                }
                SweepStep::Wait(delay) => {
                    waited += delay;
                    SweepStep::Infer
                }
                SweepStep::Classify => {
                    let snapshot = self.snapshot();
                    sweep.classify(&mut self.ledger, &snapshot)
                }
                SweepStep::Advance => sweep.next(&mut self.ledger, self.generation),
                SweepStep::Count => {
                    let counts = self.counts();
                    sweep.conclude(&mut self.ledger, self.generation, counts)
                }
                SweepStep::Done(run) => return run,
                other => panic!("{other:?}"),
            };
        }
    }

    fn run_foreground<W: EmbeddingWorker>(&mut self, mut worker: W) -> PreparationStatus {
        let request = run_foreground(self.generation, true).unwrap();
        let run = self.sweep(request, &mut worker);
        assert!(run.is_some());
        self.status()
    }
}

fn successful_worker() -> ClosureWorker<impl FnMut(&[EmbeddingInput]) -> BatchResults> {
    ClosureWorker(|batch: &[EmbeddingInput]| {
        Ok(batch.iter().map(|_| Ok(fake_embedding())).collect())
    })
}

fn failing_worker(message: &'static str) -> ClosureWorker<impl FnMut(&[EmbeddingInput]) -> BatchResults> {
    ClosureWorker(move |batch: &[EmbeddingInput]| {
        Ok(batch.iter().map(|_| Err(Failure::new(message))).collect())
    })
}

#[test]
fn foreground_preparation_persists_content_completion_and_counts() {
    let mut project = fixture("fn one() {}\nfn two() {}\n");
    let preparation_status = project.run_foreground(successful_worker());
    assert_eq!(preparation_status.state, PreparationState::Completed);
    assert_eq!(preparation_status.total, preparation_status.cached);
    assert_eq!(preparation_status.missing, 0);
    assert_eq!(preparation_status.failures, 0);

    let again = project.status();
    assert_eq!(again.state, PreparationState::Completed);
    assert_eq!(again.cached, preparation_status.cached);
}

#[test]
fn failed_units_are_terminal_and_recorded_by_content_key() {
    let mut project = fixture("fn one() {}\n");
    let status = project.run_foreground(failing_worker("fake inference failure"));
    assert_eq!(status.state, PreparationState::Failed);
    assert_eq!(status.failures, status.total);
    assert_eq!(status.missing, 0);
    assert_eq!(project.ledger.completion(&content_key("fn one() {}\n")), Some(false));
}

#[test]
fn manager_coalesces_repeated_schedules_and_waits_for_generation() {
    let mut project = fixture("fn one() {}\nfn two() {}\n");
    let first = schedule(&mut project.ledger, 1).unwrap();
    let second = schedule(&mut project.ledger, 1).unwrap();
    assert_eq!(first.captured_generation, second.captured_generation);
    assert!(second.coalesced);
    assert!(wait(&project.ledger, 1, 1, 0).unwrap().is_none());
    let mut sizes = Vec::new();
    let mut worker = ClosureWorker(|batch: &[EmbeddingInput]| {
        sizes.push(batch.len());
        Ok(batch.iter().map(|_| Ok(fake_embedding())).collect())
    });
    let request = next_pending(&mut project.ledger, 1, false).unwrap();
    assert_eq!(request.generation, 1);
    let run = project.sweep(request, &mut worker);
    assert!(!sweep_again(&run));
    let completed =
        wait_timeout(&project.ledger, first.captured_generation, 1, 0, 2000).unwrap().unwrap();
    assert_eq!(completed.state, PreparationState::Completed);
    assert!(completed.is_terminal());
    assert!(sizes.iter().all(|size| *size <= MAX_BATCH));
}

struct ColdWorker {
    failures_left: usize,
}

impl EmbeddingWorker for ColdWorker {
    fn embed_batch(&mut self, batch: &[EmbeddingInput]) -> BatchResults {
        if self.failures_left != 0 {
            let error = if self.failures_left == 2 {
                "semantic_loading: fake cold worker"
            } else {
                "semantic_busy: fake cold worker"
            };
            self.failures_left -= 1;
            return Err(Failure::new(error));
        }
        Ok(batch.iter().map(|_| Ok(fake_embedding())).collect())
    }

    fn is_retryable_batch_error(&self, error: &Failure) -> bool {
        error.message.contains("semantic_loading") || error.message.contains("semantic_busy")
    }
}

#[test]
fn retryable_cold_worker_errors_do_not_poison_content() {
    let mut project = fixture("fn one() {}\n");
    let status = project.run_foreground(ColdWorker { failures_left: 2 });
    assert_eq!(status.state, PreparationState::Completed);
    assert_eq!(status.failures, 0);
    assert_eq!(status.missing, 0);
    assert_eq!(project.ledger.completion(&content_key("fn one() {}\n")), Some(true));
}

#[test]
fn a_worker_that_stays_cold_fails_the_run() {
    let mut project = fixture("fn one() {}\n");
    let status = project.run_foreground(ColdWorker { failures_left: usize::MAX });
    assert_ne!(status.state, PreparationState::Completed);
    assert_eq!(project.ledger.completion(&content_key("fn one() {}\n")), None);
    assert!(FIRST_RETRY_MS <= LONGEST_RETRY_MS && LONGEST_RETRY_MS <= RETRY_WINDOW_MS);
}

struct SplittingWorker;

impl EmbeddingWorker for SplittingWorker {
    fn embed_batch(&mut self, batch: &[EmbeddingInput]) -> BatchResults {
        if batch.iter().any(|input| input.content_key == "bad") {
            return Err(Failure::new("semantic_unavailable: invalid model output"));
        }
        Ok(batch.iter().map(|_| Ok(fake_embedding())).collect())
    }

    fn batch_error_is_unit_failure(&self, _: &Failure) -> bool {
        false
    }
}

#[test]
fn permanent_batch_errors_are_split_to_the_bad_input() {
    let inputs = ["good-a", "bad", "good-b"]
        .into_iter()
        .map(|content_key| EmbeddingInput {
            content_key: content_key.into(),
            text: content_key.into(),
            token_count: 1,
        })
        .collect::<Vec<_>>();
    let mut worker = SplittingWorker;
    let mut outcomes: Vec<(String, bool)> = Vec::new();
    let mut calls = Vec::new();
    let mut complete = ClosureCompletion::new(
        |batch: &[EmbeddingInput], results: Vec<Result<Embedding, Failure>>| {
            calls.push((batch.len(), results.len()));
            for (input, result) in batch.iter().zip(results) {
                outcomes.push((input.content_key.clone(), result.is_ok()));
            }
            Ok(())
        },
    );
    run_batches_grouped(&mut worker, &inputs, &mut complete).unwrap();
    assert_eq!(
        outcomes,
        [("good-a".into(), true), ("bad".into(), false), ("good-b".into(), true)]
    );
    assert_eq!(calls, [(1, 1), (1, 1), (1, 1)]);
}

#[test]
fn wait_reports_a_captured_generation_as_superseded() {
    let mut project = fixture("fn one() {}\n");
    let receipt = schedule(&mut project.ledger, 1).unwrap();
    project.generation = 2;
    project.units.push(unit("fn two() {}\n"));
    let waited = wait_timeout(&project.ledger, receipt.captured_generation, 2, 0, 100)
        .unwrap()
        .unwrap();
    assert_eq!(waited.state, PreparationState::Superseded);
    assert_eq!(waited.captured_generation, receipt.captured_generation);
}

#[test]
fn waiting_ends_with_its_time_and_refuses_unknown_generations() {
    let project = fixture("fn one() {}\n");
    let late = wait_timeout(&project.ledger, 1, 1, 100, 100).unwrap().unwrap();
    assert_eq!(late.state, PreparationState::Failed);
    assert_eq!(late.status.error.as_deref(), Some("preparation_wait_timeout"));
    assert!(wait_timeout(&project.ledger, 0, 1, 0, 100).is_err());
    let ahead = wait_timeout(&project.ledger, 3, 1, 0, 100).unwrap_err();
    assert_eq!(
        ahead.message,
        "preparation_unavailable: captured generation 3 is ahead of index generation 1"
    );
}

#[test]
fn completion_metadata_is_pruned_to_current_content() {
    let mut project = fixture("fn one() {}\n");
    project.ledger.fail("orphan-content", "stale");
    let mut current = KeyTable::new();
    current.insert_new(content_key("fn one() {}\n"), ());
    project.ledger.prune_completions(&current);
    assert_eq!(project.ledger.completion("orphan-content"), None);
    let status = project.run_foreground(successful_worker());
    assert_eq!(status.state, PreparationState::Completed);
}

#[test]
fn running_run_restarts_from_its_persisted_cursor() {
    let mut preparation = PreparationLedger::new();
    let started = preparation.begin(7, 300, false);
    assert_eq!(started.cursor, 0);
    preparation.progress(7, 256, 300, 250, 5, 1);

    let resumed = preparation.begin(7, 300, false);
    assert_eq!(resumed.state, PreparationState::Running);
    assert_eq!(resumed.cursor, 256);
    assert_eq!(resumed.cached, 250);
    assert_eq!(resumed.missing, 5);
    assert_eq!(resumed.failures, 1);
}

#[test]
fn worker_error_upserts_a_failed_run_before_begin() {
    let mut preparation = PreparationLedger::new();
    preparation.record_worker_error(9, "fake worker setup failure");
    let failed = preparation.run(9).unwrap();
    assert_eq!(failed.state, PreparationState::Failed);
    assert_eq!(failed.failures, 1);
    assert_eq!(failed.error.as_deref(), Some("fake worker setup failure"));

    assert!(preparation.reset_terminal(9));
    assert_eq!(preparation.run(9).unwrap().state, PreparationState::Running);
}

#[test]
fn completed_run_reports_capacity_after_vector_eviction() {
    let mut preparation = PreparationLedger::new();
    preparation.begin(11, 1, false);
    let completed = RunRecord {
        state: PreparationState::Completed,
        cursor: 1,
        total: 1,
        cached: 1,
        missing: 0,
        failures: 0,
        error: None,
    };
    preparation.finish(11, completed);
    let status = preparation.counts_for_status(11, 1, 0, 1, 0);
    assert_eq!(status.state, PreparationState::Capacity);
    assert_eq!(
        status.error.as_deref(),
        Some("embedding cache capacity cannot retain all content")
    );
}

#[test]
fn only_explicit_retry_reopens_a_failed_generation() {
    let mut project = fixture("fn one() {}\n");
    assert_eq!(
        project.run_foreground(failing_worker("permanent input failure")).state,
        PreparationState::Failed
    );

    assert!(!project.schedule());
    assert_eq!(project.status().state, PreparationState::Failed);

    assert!(!project.retry());
    assert_eq!(project.status().state, PreparationState::Running);

    let completed = project.run_foreground(successful_worker());
    assert_eq!(completed.state, PreparationState::Completed);
    assert_eq!(completed.failures, 0);
    assert_eq!(completed.missing, 0);
}

#[test]
fn explicit_retry_refills_missing_vectors_after_terminal_run() {
    let mut project = fixture("fn one() {}\n");
    let source_key = content_key("fn one() {}\n");
    let completed = project.run_foreground(successful_worker());
    assert_eq!(completed.state, PreparationState::Completed);

    project.ledger.completions.remove(&source_key);
    project.vectors.remove(&source_key);

    assert!(!project.schedule());
    assert_eq!(project.status().state, PreparationState::Capacity);
    assert!(project.schedule());
    assert_eq!(project.status().state, PreparationState::Capacity);

    assert!(!project.retry());
    assert_eq!(project.status().state, PreparationState::Running);
    let refilled = project.run_foreground(successful_worker());
    assert_eq!(refilled.state, PreparationState::Completed);
    assert_eq!(refilled.cached, refilled.total);
    assert_eq!(refilled.missing, 0);
}

#[test]
fn content_keys_change_when_region_text_changes() {
    assert_ne!(content_key("old"), content_key("new"));
    assert_eq!(content_key("same"), content_key("same"));
}

#[test]
fn foreground_prepare_retries_failed_content_directly() {
    let mut project = fixture("fn retry_me() {}\n");
    assert_eq!(
        project.run_foreground(failing_worker("bad input")).state,
        PreparationState::Failed
    );
    let retried = project.run_foreground(successful_worker());
    assert_eq!(retried.state, PreparationState::Completed);
    assert_eq!(retried.failures, 0);
    assert_eq!(retried.missing, 0);
}

#[test]
fn retry_during_running_preparation_coalesces_after_completion() {
    let mut project = fixture("fn one() {}\n");
    let mut calls = 0;
    let mut worker = ClosureWorker(|batch: &[EmbeddingInput]| {
        calls += 1;
        Ok(batch.iter().map(|_| Err(Failure::new("permanent input failure"))).collect())
    });
    project.schedule();
    let request = next_pending(&mut project.ledger, 1, false).unwrap();
    let sweep = project.begin(request).unwrap();
    assert!(project.retry());
    let run = project.finish(sweep, &mut worker);
    assert!(!sweep_again(&run));
    let again = next_pending(&mut project.ledger, 1, false).unwrap();
    assert_eq!(project.begin(again).unwrap_err().unwrap().state, PreparationState::Failed);
    assert_eq!(calls, 1);
    assert_eq!(project.status().state, PreparationState::Failed);
}

#[test]
fn preparation_needs_an_index_and_the_lease() {
    assert!(run_foreground(1, false).is_err());
    assert!(run_foreground(0, true).is_err());
    let mut ledger = PreparationLedger::new();
    assert!(schedule(&mut ledger, 0).is_err());
    assert!(retry(&mut ledger, 0).is_err());
    assert!(next_pending(&mut ledger, 0, false).is_none());
    assert_eq!(status(&ledger, 0, Counts::none()).state, PreparationState::Idle);
}

#[test]
fn a_generation_that_changed_is_superseded() {
    let mut project = fixture("fn one() {}\n");
    let request = SweepRequest { generation: 1, reset_terminal: false };
    match start_sweep(&mut project.ledger, request, 2) {
        SweepStep::Done(Some(run)) => {
            assert_eq!(run.state, PreparationState::Superseded);
            assert_eq!(
                run.error.as_deref(),
                Some("source generation changed before preparation started")
            );
        }
        other => panic!("{other:?}"),
    }
}

#[test]
fn a_setup_failure_is_noted_for_the_requested_generation() {
    let mut ledger = PreparationLedger::new();
    schedule(&mut ledger, 4).unwrap();
    record_worker_error_in_cache(&mut ledger, "cannot start");
    assert_eq!(ledger.run(4).unwrap().state, PreparationState::Failed);
}

#[test]
fn states_are_read_back_by_name() {
    for state in [
        PreparationState::Idle,
        PreparationState::Running,
        PreparationState::Completed,
        PreparationState::Superseded,
        PreparationState::Failed,
        PreparationState::Capacity,
    ] {
        assert_eq!(PreparationState::parse(state.as_str()).unwrap(), state);
    }
    assert!(PreparationState::parse("unknown").is_err());
    let row = RunRecord::from_row("failed", 1, 2, 0, 1, 1, Some("x".into())).unwrap();
    assert_eq!((row.state, row.cursor, row.total), (PreparationState::Failed, 1, 2));
    assert!(RunRecord::from_row("failed", -1, 2, 0, 1, 1, None).is_err());
    assert!(RunRecord::from_row("odd", 1, 2, 0, 1, 1, None).is_err());
}

#[test]
fn duplicate_content_is_pending_once() {
    let ledger = PreparationLedger::new();
    let units = [unit("a"), unit("a"), unit("b")];
    let pending = pending_inputs(&ledger, &units, &CachedSnapshot::Completions);
    assert_eq!(pending.len(), 2);
    assert_eq!(estimate_tokens(""), 1);
    assert_eq!(estimate_tokens("abcde"), 2);
}

#[test]
fn transport_causes_remain_retryable_through_context() {
    let timeout = Failure::io("read worker frame length: timed out");
    assert!(is_runtime_batch_error(&timeout));
    let eof = Failure::new("read worker frame length: unexpected end of worker frame");
    assert!(is_runtime_batch_error(&eof));
    let input = Failure::new("semantic_unavailable: input at batch index 0 exceeds model tokens");
    assert!(!is_runtime_batch_error(&input));
}

fn input(tokens: usize) -> EmbeddingInput {
    EmbeddingInput {
        content_key: tokens.to_string(),
        text: String::new(),
        token_count: tokens,
    }
}

#[test]
fn batches_obey_count_and_padded_token_limits() {
    let inputs = (0..20).map(|_| input(4096)).collect::<Vec<_>>();
    let mut starts = Vec::new();
    let mut start = 0;
    while start < inputs.len() {
        let end = next_batch_end(&inputs, start);
        starts.push(end - start);
        start = end;
    }
    assert_eq!(starts, vec![2; 10]);
    assert!(starts.iter().all(|size| *size <= MAX_BATCH));
    assert!(starts.iter().all(|size| size * 4096 <= MAX_PADDED_TOKENS));
}

#[test]
fn inputs_that_are_too_long_are_batches_of_their_own() {
    let inputs = [input(1), input(5000)];
    assert_eq!(next_batch_end(&inputs, 0), 1);
    assert_eq!(next_batch_end(&inputs, 1), 2);
    let inputs = [input(5000), input(1), input(1)];
    assert_eq!(next_batch_end(&inputs, 0), 1);
    assert_eq!(next_batch_end(&inputs, 1), 3);
}

#[test]
fn contexts_are_compared_by_the_components_of_their_paths() {
    assert!(same_context(Some((b"/root/", b"/cache/./x")), b"/root", b"/cache//x"));
    assert!(!same_context(Some((b"/root", b"/cache")), b"/root", b"/other"));
}

#[test]
fn closure_worker_receives_each_subdivided_batch() {
    let mut seen = Vec::new();
    let mut worker = ClosureWorker(|batch: &[EmbeddingInput]| {
        seen.push(batch.len());
        Ok(batch.iter().map(|_| Ok(Embedding(vec![1.0f32.to_bits(); DIMENSIONS]))).collect())
    });
    let inputs = (0..17).map(|_| input(1)).collect::<Vec<_>>();
    let mut handed = Vec::new();
    let mut complete = ClosureCompletion::new(
        |batch: &[EmbeddingInput], results: Vec<Result<Embedding, Failure>>| {
            handed.push((batch.len(), results.len()));
            for result in results {
                result?;
            }
            Ok(())
        },
    );
    run_batches_grouped(&mut worker, &inputs, &mut complete).unwrap();
    assert_eq!(seen, [8, 8, 1]);
    assert_eq!(handed, [(8, 8), (8, 8), (1, 1)]);
}

#[test]
fn nothing_is_handed_on_after_a_failure_that_may_pass() {
    let mut asked = 0;
    let mut worker = ClosureWorker(|batch: &[EmbeddingInput]| {
        asked += 1;
        if asked > 1 {
            return Err(Failure::new("semantic_worker_unavailable: gone"));
        }
        Ok(batch.iter().map(|_| Ok(fake_embedding())).collect())
    });
    let inputs = (0..17).map(|_| input(1)).collect::<Vec<_>>();
    let retryable = Failure::new("semantic_worker_unavailable: gone");
    let may_pass = worker.is_retryable_batch_error(&retryable);
    let mut handed = Vec::new();
    let mut complete = ClosureCompletion::new(
        |batch: &[EmbeddingInput], results: Vec<Result<Embedding, Failure>>| {
            handed.push((batch.len(), results.iter().all(|result| result.is_ok())));
            Ok(())
        },
    );
    let result = run_batches_grouped(&mut worker, &inputs, &mut complete);
    assert!(may_pass);
    assert_eq!(result.unwrap_err().message, "semantic_worker_unavailable: gone");
    assert_eq!(handed, [(8, true)]);
    assert_eq!(asked, 2);
}

#[test]
fn a_refused_completion_stops_the_run() {
    let mut worker = successful_worker();
    let inputs = (0..17).map(|_| input(1)).collect::<Vec<_>>();
    let mut handed = Vec::new();
    let mut complete = ClosureCompletion::new(
        |batch: &[EmbeddingInput], _: Vec<Result<Embedding, Failure>>| {
            handed.push(batch.len());
            if handed.len() == 2 {
                return Err(Failure::new("disk full"));
            }
            Ok(())
        },
    );
    let result = run_batches_grouped(&mut worker, &inputs, &mut complete);
    assert_eq!(result.unwrap_err().message, "disk full");
    assert_eq!(handed, [8, 8]);
}

#[test]
fn outcomes_of_inference_follow_the_failure() {
    assert!(matches!(inference_outcome(Ok(()), true, true), InferenceOutcome::Finished));
    let failed = || Err(Failure::new("bad"));
    assert!(matches!(inference_outcome(failed(), true, true), InferenceOutcome::Retryable));
    assert!(matches!(
        inference_outcome(failed(), false, true),
        InferenceOutcome::UnitFailure(e) if e.message == "bad"
    ));
    assert!(matches!(
        inference_outcome(failed(), false, false),
        InferenceOutcome::Fatal(e) if e.message == "bad"
    ));
}

#[test]
fn sweeps_that_start_too_late_have_no_units() {
    let mut ledger = PreparationLedger::new();
    let request = SweepRequest { generation: 1, reset_terminal: false };
    let step = start_sweep(&mut ledger, request, 2);
    let SweepStep::Done(Some(run)) = step else { panic!("{step:?}") };
    assert_eq!(run.state, PreparationState::Superseded);
    assert_eq!((run.cursor, run.total), (0, 0));
    assert_eq!(
        run.error.as_deref(),
        Some("source generation changed before preparation started")
    );
}

#[test]
fn shared_workers_take_their_vectors_from_the_reply() {
    let worker = SharedWorker::new(b"/root".to_vec());
    assert_eq!(worker.root_id, b"/root");
    let results = vectors_for("worker", Ok(vec![fake_embedding()]), 1).unwrap();
    assert_eq!(results.len(), 1);
    assert!(vectors_for("worker", Ok(vec![fake_embedding()]), 2).is_err());
}

struct ConstantEngine;

impl Engine for ConstantEngine {
    fn embed_batch(&mut self, texts: &[String]) -> Result<Vec<Embedding>, Failure> {
        Ok(texts.iter().map(|_| fake_embedding()).collect())
    }
}

#[test]
fn foreground_workers_need_the_device_mask_of_their_configuration() {
    let cuda = InferenceConfig {
        provider: InferenceProvider::Cuda,
        gpu_uuid: Some("GPU-a".into()),
        ..Default::default()
    };
    assert!(require_foreground_cuda_mask(&cuda, "GPU-a").is_ok());
    assert!(require_foreground_cuda_mask(&cuda, "GPU-b").is_err());
    assert!(ForegroundWorker::open(&cuda, "GPU-b", || Ok(ConstantEngine)).is_err());
    let cpu = InferenceConfig::default();
    let mut worker = ForegroundWorker::open(&cpu, "", || Ok(ConstantEngine)).unwrap();
    let results = worker.embed_batch(&[input(1)]).unwrap();
    assert_eq!(results[0].as_ref().unwrap(), &fake_embedding());
}

#[test]
fn contexts_are_opened_under_the_lease() {
    assert!(same_context(Some((b"/r", b"/c")), b"/r", b"/c"));
    assert!(!same_context(Some((b"/r", b"/c")), b"/r", b"/d"));
    assert!(!same_context(None, b"/r", b"/c"));
    let opens = || Ok(());
    let fails = || Err(Failure::new("index"));
    assert!(open_context(Ok(true), opens, opens).unwrap());
    assert!(!open_context(Ok(false), fails, fails).unwrap());
    assert_eq!(open_context(Ok(true), fails, opens).unwrap_err().message, "index");
    assert!(open_context(Ok(true), opens, fails).is_err());
    assert!(open_context(Err(Failure::new("lock")), opens, opens).is_err());
}

#[test]
fn a_batch_has_one_outcome_for_each_input_or_fails_as_a_whole() {
    let vector = Embedding(vec![1, 2]);
    let outcomes = batch_outcomes(Ok(vec![Ok(vector.clone())]), 1).unwrap();
    assert_eq!(outcomes.len(), 1);
    assert_eq!(outcomes.into_iter().next().unwrap().unwrap(), vector);
    let miscounted = batch_outcomes(Ok(Vec::new()), 2).unwrap_err();
    assert_eq!(
        miscounted.message,
        "preparation_worker_failed: worker returned 0 results for 2 inputs"
    );
    assert_eq!(batch_outcomes(Err(Failure::io("gone")), 2).unwrap_err().message, "gone");

    let failed = fail_each("bad input", 3);
    assert_eq!(failed.len(), 3);
    assert!(failed.into_iter().all(|outcome| outcome.unwrap_err().message == "bad input"));
}

struct PlainWorker;

impl EmbeddingWorker for PlainWorker {
    fn embed_batch(&mut self, _: &[EmbeddingInput]) -> BatchResults {
        Err(Failure::new("broken"))
    }
}

#[test]
fn failures_of_a_worker_are_for_good_and_those_of_each_input_unless_it_says_otherwise() {
    let failure = Failure::new("semantic_busy");
    assert!(!PlainWorker.is_retryable_batch_error(&failure));
    assert!(PlainWorker.batch_error_is_unit_failure(&failure));
    assert!(successful_worker().is_retryable_batch_error(&failure));
    assert!(successful_worker().batch_error_is_unit_failure(&failure));
}

#[test]
fn closures_are_asked_for_a_batch_that_fails_for_good_once() {
    let mut asked = Vec::new();
    let mut worker = ClosureWorker(|batch: &[EmbeddingInput]| {
        asked.push(batch.len());
        Err(Failure::new("broken for good"))
    });
    let inputs = (0..3).map(|_| input(1)).collect::<Vec<_>>();
    let mut handed = Vec::new();
    let mut complete = ClosureCompletion::new(
        |batch: &[EmbeddingInput], results: Vec<Result<Embedding, Failure>>| {
            for result in results {
                handed.push((batch.len(), result.unwrap_err().message));
            }
            Ok(())
        },
    );
    run_batches_grouped(&mut worker, &inputs, &mut complete).unwrap();
    assert_eq!(handed, vec![(3, "broken for good".to_owned()); 3]);
    assert_eq!(asked, [3]);
}

#[test]
fn outcomes_of_a_batch_are_parted_in_order() {
    let batch = ["a", "b", "c", "d"].map(|key| EmbeddingInput {
        content_key: key.into(),
        text: key.into(),
        token_count: 1,
    });
    let failed = |cause: &str, headline: &str| {
        let message = format!("{headline}: {cause}");
        Err(Failure { headline: headline.into(), message, transport: false })
    };
    let results = vec![
        Ok(fake_embedding()),
        failed("low", "first"),
        Ok(Embedding(vec![7; DIMENSIONS])),
        failed("high", "second"),
    ];
    let (vectors, failures) = part_outcomes(&batch, results);
    let keys = vectors.iter().map(|(key, _)| key.as_str()).collect::<Vec<_>>();
    assert_eq!(keys, ["a", "c"]);
    assert_eq!(vectors[1].1 .0, vec![7; DIMENSIONS]);
    assert_eq!(failures, [("b".into(), "first".into()), ("d".into(), "second".into())]);
    assert!(part_outcomes(&[], Vec::new()).0.is_empty());
}
