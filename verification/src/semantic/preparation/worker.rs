//! Workers that embed batches of inputs, and the batches that they are given.

use crate::semantic::embedding::Embedding;
use crate::semantic::inference::batch;
use crate::semantic::preparation::{
    EmbeddingInput, MAX_BATCH, MAX_MODEL_TOKENS, MAX_PADDED_TOKENS,
};
use crate::semantic::runtime_config::{InferenceConfig, InferenceProvider};
use crate::semantic::worker::engine::Engine;
use crate::semantic::worker::protocol;
use crate::text;
use crate::text::Failure;
use vstd::prelude::*;
use vstd::string::StringExecFns;

verus! {

/// The outcome for each input of a batch, or the failure of the whole batch.
pub type BatchResults = Result<Vec<Result<Embedding, Failure>>, Failure>;

/// A caller-owned inference worker.
pub trait EmbeddingWorker {
    /// Whether the worker can be asked for a batch.
    open spec fn accepts(&self, batch: Seq<EmbeddingInput>) -> bool {
        true
    }

    /// Whether the worker may say this of a batch, and be `after` then.
    open spec fn answers(
        &self,
        batch: Seq<EmbeddingInput>,
        said: BatchResults,
        after: &Self,
    ) -> bool {
        true
    }

    /// What became of each input. A worker that can be asked for a batch stays so.
    fn embed_batch(&mut self, inputs: &[EmbeddingInput]) -> (results: BatchResults)
        requires
            old(self).accepts(inputs@),
        ensures
            old(self).answers(inputs@, results, final(self)),
            forall|batch: Seq<EmbeddingInput>|
                old(self).accepts(batch) ==> #[trigger] final(self).accepts(batch),
    ;

    /// Whether a batch that failed may succeed later.
    fn is_retryable_batch_error(&self, _failure: &Failure) -> (retryable: bool)
        default_ensures
            !retryable,
    {
        false
    }

    /// Whether the failure of a batch is that of each of its inputs.
    fn batch_error_is_unit_failure(&self, _failure: &Failure) -> (unit: bool)
        default_ensures
            unit,
    {
        true
    }
}

/// Adapts a closure to [`EmbeddingWorker`].
pub struct ClosureWorker<F>(pub F);

impl<F: FnMut(&[EmbeddingInput]) -> BatchResults> EmbeddingWorker for ClosureWorker<F> {
    open spec fn accepts(&self, batch: Seq<EmbeddingInput>) -> bool {
        forall|inputs: &[EmbeddingInput]|
            inputs@ == batch ==> #[trigger] call_requires(self.0, (inputs,))
    }

    open spec fn answers(
        &self,
        batch: Seq<EmbeddingInput>,
        said: BatchResults,
        after: &Self,
    ) -> bool {
        exists|inputs: &[EmbeddingInput]|
            inputs@ == batch && #[trigger] call_ensures(self.0, (inputs,), said)
    }

    fn embed_batch(&mut self, inputs: &[EmbeddingInput]) -> (results: BatchResults)
        ensures
            call_ensures(old(self).0, (inputs,), results),
    {
        (self.0)(inputs)
    }

    fn is_retryable_batch_error(&self, failure: &Failure) -> (retryable: bool)
        ensures
            retryable == runtime_failure(*failure),
    {
        is_runtime_batch_error(failure)
    }
}

/// A batch that was handed on: its inputs, the outcome of each, and what was said to that.
pub struct Handed {
    pub batch: Seq<EmbeddingInput>,
    pub results: Seq<Result<Embedding, Failure>>,
    pub said: Result<(), Failure>,
}

/// What takes the outcomes of batches.
pub trait BatchCompletion {
    /// Whether the outcomes of a batch can be taken.
    spec fn accepts(
        &self,
        batch: Seq<EmbeddingInput>,
        results: Seq<Result<Embedding, Failure>>,
    ) -> bool;

    /// The batches that were handed on so far, in order.
    spec fn log(&self) -> Seq<Handed>;

    /// Takes the outcomes of a batch, one for each input. Outcomes that can be taken stay so.
    fn complete(
        &mut self,
        batch: &[EmbeddingInput],
        results: Vec<Result<Embedding, Failure>>,
    ) -> (said: Result<(), Failure>)
        requires
            old(self).accepts(batch@, results@),
        ensures
            final(self).log() == old(self).log().push(
                Handed { batch: batch@, results: results@, said },
            ),
            forall|other: Seq<EmbeddingInput>, outcomes: Seq<Result<Embedding, Failure>>|
                old(self).accepts(other, outcomes) ==> #[trigger] final(self).accepts(
                    other,
                    outcomes,
                ),
    ;
}

/// Adapts a closure to [`BatchCompletion`].
pub struct ClosureCompletion<C> {
    complete: C,
    log: Ghost<Seq<Handed>>,
}

impl<C: FnMut(&[EmbeddingInput], Vec<Result<Embedding, Failure>>) -> Result<(), Failure>>
    ClosureCompletion<C> {
    /// The closure that takes the outcomes.
    pub closed spec fn closure(&self) -> C {
        self.complete
    }

    pub fn new(complete: C) -> (completion: Self)
        ensures
            completion.closure() == complete,
            completion.log().len() == 0,
    {
        ClosureCompletion { complete, log: Ghost(Seq::empty()) }
    }
}

impl<C: FnMut(&[EmbeddingInput], Vec<Result<Embedding, Failure>>) -> Result<(), Failure>>
    BatchCompletion for ClosureCompletion<C> {
    open spec fn accepts(
        &self,
        batch: Seq<EmbeddingInput>,
        results: Seq<Result<Embedding, Failure>>,
    ) -> bool {
        forall|inputs: &[EmbeddingInput], outcomes: Vec<Result<Embedding, Failure>>|
            inputs@ == batch && outcomes@ == results ==> #[trigger] call_requires(
                self.closure(),
                (inputs, outcomes),
            )
    }

    closed spec fn log(&self) -> Seq<Handed> {
        self.log@
    }

    fn complete(
        &mut self,
        batch: &[EmbeddingInput],
        results: Vec<Result<Embedding, Failure>>,
    ) -> (said: Result<(), Failure>)
        ensures
            call_ensures(old(self).closure(), (batch, results), said),
            final(self).closure() == old(self).closure(),
    {
        let ghost outcomes = results@;
        assert(call_requires(self.closure(), (batch, results)));
        let said = (self.complete)(batch, results);
        self.log = Ghost(self.log@.push(Handed { batch: batch@, results: outcomes, said }));
        said
    }
}

/// Whether a message tells of an input that the model does not take.
pub open spec fn tells_of_input(message: Seq<char>) -> bool {
    ||| text::contains(message, "input at batch index"@)
    ||| text::contains(message, "inference failed for batch inputs"@)
    ||| text::contains(message, "model returned"@)
    ||| text::contains(message, "invalid model output"@)
    ||| text::contains(message, "raw inputs exceed"@)
}

/// Whether a message tells of a worker, a provider or a runtime that is not available.
pub open spec fn tells_of_runtime(message: Seq<char>) -> bool {
    ||| text::contains(message, "semantic_loading"@)
    ||| text::contains(message, "semantic_busy"@)
    ||| text::contains(message, "semantic_root_busy"@)
    ||| text::contains(message, "semantic_worker_busy"@)
    ||| text::contains(message, "semantic_worker_unavailable"@)
    ||| text::contains(message, "semantic_worker:"@)
    ||| text::contains(message, "semantic_admission"@)
    ||| text::contains(message, "handshake_mismatch"@)
    ||| text::contains(message, "protocol:"@)
    ||| text::contains(message, "busy"@)
    ||| text::contains(message, "disconnected"@)
    ||| text::contains(message, "unexpected end of worker frame"@)
    ||| text::contains(message, "connection reset"@)
    ||| text::contains(message, "broken pipe"@)
    ||| text::contains(message, "no such file"@)
    ||| text::contains(message, "deadline"@)
    ||| text::contains(message, "timed out"@)
    ||| text::contains(message, "timeout"@)
    ||| text::contains(message, "connection refused"@)
    ||| text::contains(message, "worker is starting"@)
    ||| text::contains(message, "runtime unavailable"@)
    ||| text::contains(message, "runtime_unavailable"@)
    ||| text::contains(message, "provider unavailable"@)
    ||| text::contains(message, "cuda_unavailable"@)
    ||| text::contains(message, "inference_config"@)
    ||| text::contains(message, "semantic_unavailable"@)
}

/// Whether a failure is that of the worker or its runtime, so that the batch may succeed
/// later, rather than that of an input.
pub open spec fn runtime_failure(failure: Failure) -> bool {
    let message = text::ascii_lower(failure.message@);
    failure.transport || (!tells_of_input(message) && tells_of_runtime(message))
}

/// Whether a failure is that of the worker or its runtime.
pub fn is_runtime_batch_error(failure: &Failure) -> (runtime: bool)
    ensures
        runtime == runtime_failure(*failure),
{
    if failure.transport {
        return true;
    }
    let lower = text::to_ascii_lower(failure.message.as_str());
    let message = lower.as_slice();
    if text::has_text(message, "input at batch index") || text::has_text(
        message,
        "inference failed for batch inputs",
    ) || text::has_text(message, "model returned") || text::has_text(
        message,
        "invalid model output",
    ) || text::has_text(message, "raw inputs exceed") {
        return false;
    }
    text::has_text(message, "semantic_loading") || text::has_text(message, "semantic_busy")
        || text::has_text(message, "semantic_root_busy") || text::has_text(
        message,
        "semantic_worker_busy",
    ) || text::has_text(message, "semantic_worker_unavailable") || text::has_text(
        message,
        "semantic_worker:",
    ) || text::has_text(message, "semantic_admission") || text::has_text(
        message,
        "handshake_mismatch",
    ) || text::has_text(message, "protocol:") || text::has_text(message, "busy") || text::has_text(
        message,
        "disconnected",
    ) || text::has_text(message, "unexpected end of worker frame") || text::has_text(
        message,
        "connection reset",
    ) || text::has_text(message, "broken pipe") || text::has_text(message, "no such file")
        || text::has_text(message, "deadline") || text::has_text(message, "timed out")
        || text::has_text(message, "timeout") || text::has_text(message, "connection refused")
        || text::has_text(message, "worker is starting") || text::has_text(
        message,
        "runtime unavailable",
    ) || text::has_text(message, "runtime_unavailable") || text::has_text(
        message,
        "provider unavailable",
    ) || text::has_text(message, "cuda_unavailable") || text::has_text(message, "inference_config")
        || text::has_text(message, "semantic_unavailable")
}

/// The background worker that all processes share, for one root.
#[derive(Debug)]
pub struct SharedWorker {
    pub root_id: Vec<u8>,
}

impl SharedWorker {
    pub fn new(root_id: Vec<u8>) -> (worker: Self)
        ensures
            worker.root_id == root_id,
    {
        SharedWorker { root_id }
    }
}

/// What a worker said of a batch that it embeds as a whole: a vector for each input, or a
/// failure, also where it returned another number of vectors. `source` names the worker.
pub open spec fn whole_batch(
    source: Seq<char>,
    vectors: Result<Vec<Embedding>, Failure>,
    inputs: int,
    results: BatchResults,
) -> bool {
    match vectors {
        Err(failure) => results == Err::<Vec<Result<Embedding, Failure>>, Failure>(failure),
        Ok(vectors) => if vectors.len() == inputs {
            &&& results is Ok
            &&& results->Ok_0.len() == inputs
            &&& forall|i: int|
                0 <= i < inputs ==> #[trigger] results->Ok_0@[i] == Ok::<Embedding, Failure>(
                    vectors@[i],
                )
        } else {
            results is Err && text::plain(
                results->Err_0,
                "preparation_worker_failed: "@ + source + " returned "@ + text::decimal(
                    vectors.len() as nat,
                ) + " vectors for "@ + text::decimal(inputs as nat) + " inputs"@,
            )
        },
    }
}

/// What a worker said of a batch that it embeds as a whole.
pub fn vectors_for(source: &str, vectors: Result<Vec<Embedding>, Failure>, inputs: usize) -> (results:
    BatchResults)
    ensures
        whole_batch(source@, vectors, inputs as int, results),
{
    let vectors = match vectors {
        Err(failure) => return Err(failure),
        Ok(vectors) => vectors,
    };
    if vectors.len() != inputs {
        let mut message = "preparation_worker_failed: ".to_owned();
        message.append(source);
        message.append(" returned ");
        message.append(text::decimal_text(vectors.len() as u64).as_str());
        message.append(" vectors for ");
        message.append(text::decimal_text(inputs as u64).as_str());
        message.append(" inputs");
        return Err(Failure::of(message));
    }
    let ghost all = vectors@;
    let mut results: Vec<Result<Embedding, Failure>> = Vec::new();
    for vector in it: vectors
        invariant
            it.seq() == all,
            results.len() == it.index(),
            forall|i: int|
                0 <= i < it.index() ==> #[trigger] results@[i] == Ok::<Embedding, Failure>(all[i]),
    {
        results.push(Ok(vector));
    }
    Ok(results)
}

/// The token counts of inputs.
pub open spec fn token_counts(inputs: Seq<EmbeddingInput>) -> Seq<usize> {
    Seq::new(inputs.len(), |i: int| inputs[i].token_count)
}

/// Whether no input of `a..b` is too long for the model.
pub open spec fn all_usable(tokens: Seq<usize>, a: int, b: int) -> bool {
    forall|i: int| a <= i < b ==> (#[trigger] tokens[i]) <= MAX_MODEL_TOKENS
}

/// Whether the batch from `start` ends at `end`. An input that is too long is a batch of its own;
/// else the batch ends where the limits of a batch are reached, or before an input that is too
/// long.
pub open spec fn batch_ends(tokens: Seq<usize>, start: int, end: int) -> bool {
    &&& start < end <= tokens.len()
    &&& if tokens[start] > MAX_MODEL_TOKENS {
        end == start + 1
    } else {
        &&& all_usable(tokens, start, end)
        &&& batch::batch_fits(tokens, start, end)
        &&& {
            ||| end == tokens.len()
            ||| end - start == MAX_BATCH
            ||| tokens[end] > MAX_MODEL_TOKENS
            ||| !batch::batch_fits(tokens, start, end + 1)
        }
    }
}

/// The inputs of a batch fit together: they are few enough, and short enough once they are
/// padded, unless the batch is a single input that is too long for the model.
pub proof fn law_batches_stay_within_limits(tokens: Seq<usize>, start: int, end: int)
    requires
        0 <= start,
        batch_ends(tokens, start, end),
    ensures
        0 < end - start <= MAX_BATCH,
        batch::padded(tokens, start, end) <= MAX_PADDED_TOKENS || (end == start + 1
            && tokens[start] > MAX_MODEL_TOKENS),
{
}

/// Where the batch that starts at `start` ends.
pub fn next_batch_end(inputs: &[EmbeddingInput], start: usize) -> (end: usize)
    requires
        start < inputs.len(),
    ensures
        batch_ends(token_counts(inputs@), start as int, end as int),
{
    let ghost tokens = token_counts(inputs@);
    let mut end: usize = start;
    let mut max_tokens: usize = 0;
    while end < inputs.len() && end - start < MAX_BATCH
        invariant_except_break
            start <= end <= inputs.len(),
        invariant
            start < inputs.len(),
            start <= end <= inputs.len(),
            end - start <= MAX_BATCH,
            tokens == token_counts(inputs@),
            all_usable(tokens, start as int, end as int),
            max_tokens == batch::longest(tokens, start as int, end as int),
            max_tokens <= MAX_MODEL_TOKENS,
            batch::batch_fits(tokens, start as int, end as int),
        ensures
            batch_ends(tokens, start as int, end as int),
        decreases inputs.len() - end,
    {
        let count: usize = inputs[end].token_count;
        assert(count == tokens[end as int]);
        if count > MAX_MODEL_TOKENS {
            if end == start {
                return start + 1;
            }
            break;
        }
        let next_max: usize = if count > max_tokens {
            count
        } else {
            max_tokens
        };
        let size: usize = end + 1 - start;
        proof {
            assert(next_max * size <= 4096 * 8) by (nonlinear_arith)
                requires
                    next_max <= 4096,
                    size <= 8,
            ;
            assert(next_max == batch::longest(tokens, start as int, end + 1));
            assert(next_max * size == batch::padded(tokens, start as int, end + 1));
            if size == 1 {
                assert(next_max * size == next_max) by (nonlinear_arith)
                    requires
                        size == 1,
                ;
            }
        }
        if end > start && next_max * size > MAX_PADDED_TOKENS {
            break;
        }
        max_tokens = next_max;
        end += 1;
    }
    end
}

/// The failure of a worker that does not say of each input what became of it.
pub open spec fn miscounted(results: int, inputs: int) -> Seq<char> {
    "preparation_worker_failed: worker returned "@ + text::decimal(results as nat)
        + " results for "@ + text::decimal(inputs as nat) + " inputs"@
}

/// Whether `outcomes` are the outcomes in what a worker said of a batch: one for each input, or
/// the failure of the whole.
pub open spec fn outcomes_in(said: BatchResults, inputs: int, outcomes: BatchResults) -> bool {
    match said {
        Ok(results) => if results.len() == inputs {
            outcomes == said
        } else {
            outcomes is Err && text::plain(
                outcomes->Err_0,
                miscounted(results.len() as int, inputs),
            )
        },
        Err(_) => outcomes == said,
    }
}

/// The outcomes in what a worker said of a batch.
pub fn batch_outcomes(said: BatchResults, inputs: usize) -> (outcomes: BatchResults)
    ensures
        outcomes_in(said, inputs as int, outcomes),
{
    match said {
        Ok(results) => {
            if results.len() == inputs {
                return Ok(results);
            }
            let mut message = "preparation_worker_failed: worker returned ".to_owned();
            message.append(text::decimal_text(results.len() as u64).as_str());
            message.append(" results for ");
            message.append(text::decimal_text(inputs as u64).as_str());
            message.append(" inputs");
            Err(Failure::of(message))
        },
        Err(failure) => Err(failure),
    }
}

/// Whether every input of a batch failed with a message.
pub open spec fn each_failed(
    results: Seq<Result<Embedding, Failure>>,
    inputs: int,
    message: Seq<char>,
) -> bool {
    &&& results.len() == inputs
    &&& forall|i: int|
        0 <= i < inputs ==> (#[trigger] results[i]) is Err && text::plain(
            results[i]->Err_0,
            message,
        )
}

/// The outcomes of a batch whose inputs all failed.
pub fn fail_each(message: &str, inputs: usize) -> (results: Vec<Result<Embedding, Failure>>)
    ensures
        each_failed(results@, inputs as int, message@),
{
    let mut results: Vec<Result<Embedding, Failure>> = Vec::new();
    while results.len() < inputs
        invariant
            results.len() <= inputs,
            each_failed(results@, results.len() as int, message@),
        decreases inputs - results.len(),
    {
        results.push(Err(Failure::new(message)));
    }
    results
}

/// Whether a worker may judge that a failure is worth another try, or that it is not.
pub open spec fn judges_retryable<W: EmbeddingWorker>(
    worker: W,
    failure: Failure,
    retryable: bool,
) -> bool {
    call_ensures(W::is_retryable_batch_error, (&worker, &failure), retryable)
}

/// Whether a worker may judge that a failure is that of each input, or that it is not.
pub open spec fn judges_unit_failure<W: EmbeddingWorker>(
    worker: W,
    failure: Failure,
    unit: bool,
) -> bool {
    call_ensures(W::batch_error_is_unit_failure, (&worker, &failure), unit)
}

/// What a worker said of a batch, the outcomes in that, and the worker as it was then.
pub struct Answer<W> {
    pub said: BatchResults,
    pub outcomes: BatchResults,
    pub worker: W,
}

/// What happened with a batch: what the worker said of it settled it, and its outcomes were
/// handed on or the run stopped; or its halves were run one after the other, the second one only
/// after the first one went well.
pub enum Run<W> {
    Whole { answer: Answer<W>, handed: Option<Handed> },
    FirstHalf { answer: Answer<W>, first: Box<Run<W>> },
    Halves { answer: Answer<W>, first: Box<Run<W>>, second: Box<Run<W>> },
}

/// What came of a batch.
pub open spec fn result_of<W>(run: Run<W>) -> Result<(), Failure>
    decreases run,
{
    match run {
        Run::Whole { answer, handed } => match handed {
            Some(handed) => handed.said,
            None => Err(answer.outcomes->Err_0),
        },
        Run::FirstHalf { first, .. } => result_of(*first),
        Run::Halves { second, .. } => result_of(*second),
    }
}

/// The worker after a batch.
pub open spec fn worker_after<W>(run: Run<W>) -> W
    decreases run,
{
    match run {
        Run::Whole { answer, .. } => answer.worker,
        Run::FirstHalf { first, .. } => worker_after(*first),
        Run::Halves { second, .. } => worker_after(*second),
    }
}

/// What was handed on of a batch, in order.
pub open spec fn handed_on<W>(run: Run<W>) -> Seq<Handed>
    decreases run,
{
    match run {
        Run::Whole { handed, .. } => match handed {
            Some(handed) => seq![handed],
            None => Seq::empty(),
        },
        Run::FirstHalf { first, .. } => handed_on(*first),
        Run::Halves { first, second, .. } => handed_on(*first) + handed_on(*second),
    }
}

/// Whether an answer is one that a worker may give of a batch.
pub open spec fn answered<W: EmbeddingWorker>(
    before: W,
    batch: Seq<EmbeddingInput>,
    answer: Answer<W>,
) -> bool {
    before.answers(batch, answer.said, &answer.worker) && outcomes_in(
        answer.said,
        batch.len() as int,
        answer.outcomes,
    )
}

/// Whether what a worker said of a batch settled it. Outcomes for each input are handed on. A
/// failure that may pass stops the run, and nothing is handed on; one that is blamed on each
/// input, or that comes with a single input, becomes the outcome of each.
pub open spec fn settled<W: EmbeddingWorker>(
    batch: Seq<EmbeddingInput>,
    answer: Answer<W>,
    handed: Option<Handed>,
) -> bool {
    match (answer.outcomes, handed) {
        (Ok(results), Some(handed)) => handed.batch == batch && handed.results == results@,
        (Ok(_), None) => false,
        (Err(failure), None) => judges_retryable(answer.worker, failure, true),
        (Err(failure), Some(handed)) => {
            &&& judges_retryable(answer.worker, failure, false)
            &&& batch.len() == 1 || judges_unit_failure(answer.worker, failure, true)
            &&& handed.batch == batch
            &&& each_failed(handed.results, batch.len() as int, failure.headline@)
        },
    }
}

/// Whether what a worker said of a batch leads to its halves: a failure that will not pass, and
/// that is not blamed on each of several inputs.
pub open spec fn falls_apart<W: EmbeddingWorker>(
    batch: Seq<EmbeddingInput>,
    answer: Answer<W>,
) -> bool {
    &&& answer.outcomes is Err
    &&& judges_retryable(answer.worker, answer.outcomes->Err_0, false)
    &&& batch.len() > 1
    &&& judges_unit_failure(answer.worker, answer.outcomes->Err_0, false)
}

/// Where the second half of the inputs `a..b` begins.
pub open spec fn half(a: int, b: int) -> int {
    a + (b - a) / 2
}

/// Whether this is what may happen with the inputs `a..b` as one batch.
pub open spec fn happened<W: EmbeddingWorker>(
    run: Run<W>,
    inputs: Seq<EmbeddingInput>,
    a: int,
    b: int,
    before: W,
) -> bool
    decreases run,
{
    let batch = inputs.subrange(a, b);
    match run {
        Run::Whole { answer, handed } => {
            &&& answered(before, batch, answer)
            &&& settled(batch, answer, handed)
        },
        Run::FirstHalf { answer, first } => {
            &&& answered(before, batch, answer)
            &&& falls_apart(batch, answer)
            &&& happened(*first, inputs, a, half(a, b), answer.worker)
            &&& result_of(*first) is Err
        },
        Run::Halves { answer, first, second } => {
            &&& answered(before, batch, answer)
            &&& falls_apart(batch, answer)
            &&& happened(*first, inputs, a, half(a, b), answer.worker)
            &&& result_of(*first) is Ok
            &&& happened(*second, inputs, half(a, b), b, worker_after(*first))
        },
    }
}

/// The worker after the first `k` batches.
pub open spec fn worker_at<W>(before: W, runs: Seq<Run<W>>, k: int) -> W {
    if k == 0 {
        before
    } else {
        worker_after(runs[k - 1])
    }
}

/// What was handed on of batches, in order.
pub open spec fn all_handed_on<W>(runs: Seq<Run<W>>) -> Seq<Handed>
    decreases runs.len(),
{
    if runs.len() == 0 {
        Seq::empty()
    } else {
        all_handed_on(runs.drop_last()) + handed_on(runs.last())
    }
}

/// Whether this is what may happen with inputs: they are run in batches within the limits of a
/// worker, which end at the places `cuts`, and each batch but the last went well.
pub open spec fn all_happened<W: EmbeddingWorker>(
    runs: Seq<Run<W>>,
    cuts: Seq<int>,
    inputs: Seq<EmbeddingInput>,
    before: W,
) -> bool {
    &&& cuts.len() == runs.len() + 1
    &&& cuts[0] == 0
    &&& forall|k: int| 0 <= k < runs.len() ==> #[trigger] batch_happened(runs, cuts, inputs, before, k)
    &&& forall|k: int| 0 <= k < runs.len() - 1 ==> result_of(#[trigger] runs[k]) is Ok
}

/// Whether this is what may happen with one of the batches.
pub open spec fn batch_happened<W: EmbeddingWorker>(
    runs: Seq<Run<W>>,
    cuts: Seq<int>,
    inputs: Seq<EmbeddingInput>,
    before: W,
    k: int,
) -> bool {
    &&& 0 <= cuts[k]
    &&& batch_ends(token_counts(inputs), cuts[k], cuts[k + 1])
    &&& happened(runs[k], inputs, cuts[k], cuts[k + 1], worker_at(before, runs, k))
}

/// Whether `result` is what comes of all batches: the run stops with the first one that does,
/// else it goes on to the end.
pub open spec fn concluded<W>(
    runs: Seq<Run<W>>,
    cuts: Seq<int>,
    inputs: Seq<EmbeddingInput>,
    result: Result<(), Failure>,
) -> bool {
    match result {
        Ok(_) => cuts.last() == inputs.len() && (runs.len() > 0 ==> result_of(runs.last()) is Ok),
        Err(_) => runs.len() > 0 && result_of(runs.last()) == result,
    }
}

/// Whether a batch is a part of the inputs, in order and without a gap, and within the limit of
/// a worker.
pub open spec fn is_part(inputs: Seq<EmbeddingInput>, batch: Seq<EmbeddingInput>) -> bool {
    exists|a: int, b: int|
        0 <= a < b <= inputs.len() && b - a <= MAX_BATCH && batch == #[trigger] inputs.subrange(
            a,
            b,
        )
}

/// Whether a worker may be asked for each part of the inputs, and the outcomes of each part may
/// be handed on.
pub open spec fn may_run<W: EmbeddingWorker, C: BatchCompletion>(
    worker: W,
    complete: C,
    inputs: Seq<EmbeddingInput>,
) -> bool {
    &&& forall|batch: Seq<EmbeddingInput>|
        is_part(inputs, batch) ==> #[trigger] worker.accepts(batch)
    &&& forall|batch: Seq<EmbeddingInput>, results: Seq<Result<Embedding, Failure>>|
        is_part(inputs, batch) && results.len() == batch.len() ==> #[trigger] complete.accepts(
            batch,
            results,
        )
}

/// Runs the worker on the inputs `a..b` as one batch.
fn run_one_batch<W: EmbeddingWorker, C: BatchCompletion>(
    worker: &mut W,
    inputs: &[EmbeddingInput],
    a: usize,
    b: usize,
    complete: &mut C,
) -> (result: Result<(), Failure>)
    requires
        may_run(*old(worker), *old(complete), inputs@),
        a < b <= inputs.len(),
        b - a <= MAX_BATCH,
    ensures
        may_run(*final(worker), *final(complete), inputs@),
        exists|run: Run<W>|
            {
                &&& #[trigger] happened(run, inputs@, a as int, b as int, *old(worker))
                &&& *final(worker) == worker_after(run)
                &&& final(complete).log() == old(complete).log() + handed_on(run)
                &&& result == result_of(run)
            },
    decreases b - a,
{
    let batch: &[EmbeddingInput] = &inputs[a..b];
    assert(batch@ =~= inputs@.subrange(a as int, b as int));
    assert(is_part(inputs@, batch@));
    let ghost before = complete.log();
    let said = worker.embed_batch(batch);
    let ghost told = said;
    let outcomes = batch_outcomes(said, b - a);
    let ghost answer = Answer { said: told, outcomes, worker: *worker };
    let failure = match outcomes {
        Ok(results) => {
            let ghost given = results@;
            let said = complete.complete(batch, results);
            proof {
                let handed = Handed { batch: batch@, results: given, said };
                let run = Run::Whole { answer, handed: Some(handed) };
                assert(happened(run, inputs@, a as int, b as int, *old(worker)));
                assert(complete.log() =~= before + handed_on(run));
            }
            return said;
        },
        Err(failure) => failure,
    };
    let retryable = worker.is_retryable_batch_error(&failure);
    if retryable {
        proof {
            let run = Run::Whole { answer, handed: None };
            assert(happened(run, inputs@, a as int, b as int, *old(worker)));
            assert(complete.log() =~= before + handed_on(run));
        }
        return Err(failure);
    }
    let unit = worker.batch_error_is_unit_failure(&failure);
    if unit || b - a == 1 {
        let results = fail_each(failure.headline.as_str(), b - a);
        let ghost given = results@;
        let said = complete.complete(batch, results);
        proof {
            let handed = Handed { batch: batch@, results: given, said };
            let run = Run::Whole { answer, handed: Some(handed) };
            assert(happened(run, inputs@, a as int, b as int, *old(worker)));
            assert(complete.log() =~= before + handed_on(run));
        }
        return said;
    }
    let middle: usize = a + (b - a) / 2;
    let first = run_one_batch(worker, inputs, a, middle, complete);
    let ghost first_run = choose|run: Run<W>|
        {
            &&& #[trigger] happened(run, inputs@, a as int, middle as int, answer.worker)
            &&& *worker == worker_after(run)
            &&& complete.log() == before + handed_on(run)
            &&& first == result_of(run)
        };
    match first {
        Err(failure) => {
            proof {
                let run = Run::FirstHalf { answer, first: Box::new(first_run) };
                assert(happened(run, inputs@, a as int, b as int, *old(worker)));
            }
            Err(failure)
        },
        Ok(_) => {
            let ghost between = *worker;
            let ghost log = complete.log();
            let second = run_one_batch(worker, inputs, middle, b, complete);
            proof {
                let second_run = choose|run: Run<W>|
                    {
                        &&& #[trigger] happened(run, inputs@, middle as int, b as int, between)
                        &&& *worker == worker_after(run)
                        &&& complete.log() == log + handed_on(run)
                        &&& second == result_of(run)
                    };
                let run = Run::Halves {
                    answer,
                    first: Box::new(first_run),
                    second: Box::new(second_run),
                };
                assert(happened(run, inputs@, a as int, b as int, *old(worker)));
                assert(complete.log() =~= before + handed_on(run));
            }
            second
        },
    }
}

/// Runs the worker on all inputs, in batches within its limits; `complete` takes the outcomes
/// of each batch, and nothing else. The run stops where the worker may succeed later or
/// `complete` fails; what was completed before stays completed.
pub fn run_batches_grouped<W: EmbeddingWorker, C: BatchCompletion>(
    worker: &mut W,
    inputs: &[EmbeddingInput],
    complete: &mut C,
) -> (result: Result<(), Failure>)
    requires
        may_run(*old(worker), *old(complete), inputs@),
    ensures
        may_run(*final(worker), *final(complete), inputs@),
        exists|runs: Seq<Run<W>>, cuts: Seq<int>|
            {
                &&& #[trigger] all_happened(runs, cuts, inputs@, *old(worker))
                &&& *final(worker) == worker_at(*old(worker), runs, runs.len() as int)
                &&& final(complete).log() == old(complete).log() + all_handed_on(runs)
                &&& concluded(runs, cuts, inputs@, result)
            },
{
    let ghost mut runs: Seq<Run<W>> = Seq::empty();
    let ghost mut cuts: Seq<int> = seq![0int];
    let mut start: usize = 0;
    assert(complete.log() =~= old(complete).log() + all_handed_on(runs));
    while start < inputs.len()
        invariant
            start <= inputs.len(),
            may_run(*worker, *complete, inputs@),
            all_happened(runs, cuts, inputs@, *old(worker)),
            cuts.last() == start,
            runs.len() > 0 ==> result_of(runs.last()) is Ok,
            *worker == worker_at(*old(worker), runs, runs.len() as int),
            complete.log() == old(complete).log() + all_handed_on(runs),
        decreases inputs.len() - start,
    {
        let end: usize = next_batch_end(inputs, start);
        let ghost before = *worker;
        let ghost log = complete.log();
        let ghost earlier = runs;
        let ghost places = cuts;
        proof {
            law_batches_stay_within_limits(token_counts(inputs@), start as int, end as int);
        }
        let result = run_one_batch(worker, inputs, start, end, complete);
        proof {
            let run = choose|run: Run<W>|
                {
                    &&& #[trigger] happened(run, inputs@, start as int, end as int, before)
                    &&& *worker == worker_after(run)
                    &&& complete.log() == log + handed_on(run)
                    &&& result == result_of(run)
                };
            runs = earlier.push(run);
            cuts = places.push(end as int);
            assert forall|k: int| 0 <= k < runs.len() implies #[trigger] batch_happened(
                runs,
                cuts,
                inputs@,
                *old(worker),
                k,
            ) by {
                if k < earlier.len() {
                    assert(batch_happened(earlier, places, inputs@, *old(worker), k));
                }
            }
            assert forall|k: int| 0 <= k < runs.len() - 1 implies result_of(
                #[trigger] runs[k],
            ) is Ok by {
                if k < earlier.len() - 1 {
                    assert(result_of(earlier[k]) is Ok);
                }
            }
            assert(runs.drop_last() =~= earlier);
            assert(complete.log() =~= old(complete).log() + all_handed_on(runs));
        }
        match result {
            Err(failure) => {
                let stopped: Result<(), Failure> = Err(failure);
                assert(all_happened(runs, cuts, inputs@, *old(worker)));
                assert(concluded(runs, cuts, inputs@, stopped));
                return stopped;
            },
            Ok(_) => {},
        }
        start = end;
    }
    assert(concluded(runs, cuts, inputs@, Ok::<(), Failure>(())));
    Ok(())
}

/// The inputs of batches that were handed on, one after the other.
pub open spec fn joined(handed: Seq<Handed>) -> Seq<EmbeddingInput>
    decreases handed.len(),
{
    if handed.len() == 0 {
        Seq::empty()
    } else {
        joined(handed.drop_last()) + handed.last().batch
    }
}

/// Whether there is an outcome for each input of batches that were handed on, and all of them
/// but the last were accepted.
pub open spec fn in_good_order(handed: Seq<Handed>) -> bool {
    &&& forall|i: int|
        0 <= i < handed.len() ==> (#[trigger] handed[i]).results.len() == handed[i].batch.len()
    &&& forall|i: int| 0 <= i < handed.len() - 1 ==> (#[trigger] handed[i]).said is Ok
}

proof fn lemma_joined(a: Seq<Handed>, b: Seq<Handed>)
    ensures
        joined(a + b) == joined(a) + joined(b),
    decreases b.len(),
{
    if b.len() == 0 {
        assert(a + b =~= a);
        assert(joined(a) + joined(b) =~= joined(a));
    } else {
        assert((a + b).drop_last() =~= a + b.drop_last());
        lemma_joined(a, b.drop_last());
        assert(joined(a + b) =~= joined(a) + joined(b));
    }
}

/// What was handed on of a batch that went well ends in good order, and so does what follows.
proof fn lemma_in_good_order(a: Seq<Handed>, b: Seq<Handed>)
    requires
        in_good_order(a),
        in_good_order(b),
        a.len() > 0 ==> a.last().said is Ok,
    ensures
        in_good_order(a + b),
{
    let all = a + b;
    assert forall|i: int| 0 <= i < all.len() implies (#[trigger] all[i]).results.len()
        == all[i].batch.len() by {
        if i < a.len() {
            assert(all[i] == a[i]);
        } else {
            assert(all[i] == b[i - a.len()]);
        }
    }
    assert forall|i: int| 0 <= i < all.len() - 1 implies (#[trigger] all[i]).said is Ok by {
        if i < a.len() {
            assert(all[i] == a[i]);
        } else {
            assert(all[i] == b[i - a.len()]);
        }
    }
}

/// Where the part of the inputs ends that was handed on: the batch is handed on as a whole
/// where it went well, else up to some place.
proof fn lemma_run_in_order<W: EmbeddingWorker>(
    run: Run<W>,
    inputs: Seq<EmbeddingInput>,
    a: int,
    b: int,
    before: W,
) -> (end: int)
    requires
        0 <= a < b <= inputs.len(),
        happened(run, inputs, a, b, before),
    ensures
        a <= end <= b,
        result_of(run) is Ok ==> end == b,
        joined(handed_on(run)) == inputs.subrange(a, end),
        in_good_order(handed_on(run)),
        result_of(run) is Ok && handed_on(run).len() > 0 ==> handed_on(run).last().said is Ok,
    decreases run,
{
    let batch = inputs.subrange(a, b);
    match run {
        Run::Whole { answer, handed } => match handed {
            Some(handed) => {
                let all = handed_on(run);
                assert(all.drop_last() =~= Seq::<Handed>::empty());
                assert(joined(all.drop_last()) =~= Seq::<EmbeddingInput>::empty());
                assert(joined(all) =~= batch);
                b
            },
            None => {
                assert(inputs.subrange(a, a) =~= Seq::<EmbeddingInput>::empty());
                a
            },
        },
        Run::FirstHalf { answer, first } => {
            lemma_run_in_order(*first, inputs, a, half(a, b), answer.worker)
        },
        Run::Halves { answer, first, second } => {
            let middle = lemma_run_in_order(*first, inputs, a, half(a, b), answer.worker);
            let end = lemma_run_in_order(*second, inputs, half(a, b), b, worker_after(*first));
            lemma_joined(handed_on(*first), handed_on(*second));
            lemma_in_good_order(handed_on(*first), handed_on(*second));
            assert(inputs.subrange(a, middle) + inputs.subrange(middle, end) =~= inputs.subrange(
                a,
                end,
            ));
            end
        },
    }
}

proof fn lemma_runs_in_order<W: EmbeddingWorker>(
    runs: Seq<Run<W>>,
    cuts: Seq<int>,
    inputs: Seq<EmbeddingInput>,
    before: W,
) -> (end: int)
    requires
        all_happened(runs, cuts, inputs, before),
    ensures
        0 <= end <= cuts.last() <= inputs.len(),
        runs.len() > 0 && result_of(runs.last()) is Err || end == cuts.last(),
        joined(all_handed_on(runs)) == inputs.take(end),
        in_good_order(all_handed_on(runs)),
        runs.len() > 0 && result_of(runs.last()) is Ok && all_handed_on(runs).len() > 0
            ==> all_handed_on(runs).last().said is Ok,
    decreases runs.len(),
{
    if runs.len() == 0 {
        assert(inputs.take(0) =~= Seq::<EmbeddingInput>::empty());
        0
    } else {
        let earlier = runs.drop_last();
        let places = cuts.drop_last();
        let k = runs.len() - 1;
        assert forall|i: int| 0 <= i < earlier.len() implies #[trigger] batch_happened(
            earlier,
            places,
            inputs,
            before,
            i,
        ) by {
            assert(batch_happened(runs, cuts, inputs, before, i));
        }
        assert forall|i: int| 0 <= i < earlier.len() - 1 implies result_of(
            #[trigger] earlier[i],
        ) is Ok by {
            assert(result_of(runs[i]) is Ok);
        }
        let middle = lemma_runs_in_order(earlier, places, inputs, before);
        if earlier.len() > 0 {
            assert(earlier.last() == runs[k - 1]);
            assert(result_of(runs[k - 1]) is Ok);
        }
        assert(places.last() == cuts[k]);
        assert(batch_happened(runs, cuts, inputs, before, k));
        let end = lemma_run_in_order(
            runs[k],
            inputs,
            cuts[k],
            cuts[k + 1],
            worker_at(before, runs, k),
        );
        lemma_joined(all_handed_on(earlier), handed_on(runs[k]));
        lemma_in_good_order(all_handed_on(earlier), handed_on(runs[k]));
        assert(inputs.take(middle) + inputs.subrange(middle, end) =~= inputs.take(end));
        end
    }
}

/// Whatever the worker says, the batches that were handed on, one after the other, are the
/// inputs in order and each of them once: all of them, or those up to the place where the run
/// stopped. Each comes with an outcome for each input, and only the last may be refused.
pub proof fn law_inputs_complete_in_order<W: EmbeddingWorker>(
    runs: Seq<Run<W>>,
    cuts: Seq<int>,
    inputs: Seq<EmbeddingInput>,
    before: W,
    result: Result<(), Failure>,
)
    requires
        all_happened(runs, cuts, inputs, before),
        concluded(runs, cuts, inputs, result),
    ensures
        joined(all_handed_on(runs)).is_prefix_of(inputs),
        result is Ok ==> joined(all_handed_on(runs)) == inputs,
        in_good_order(all_handed_on(runs)),
{
    let end = lemma_runs_in_order(runs, cuts, inputs, before);
    if end == inputs.len() {
        assert(inputs.take(end) =~= inputs);
    }
}

/// The batches that a worker was asked for, in order.
pub open spec fn asked_for<W>(
    run: Run<W>,
    inputs: Seq<EmbeddingInput>,
    a: int,
    b: int,
) -> Seq<Seq<EmbeddingInput>>
    decreases run,
{
    seq![inputs.subrange(a, b)] + match run {
        Run::Whole { .. } => Seq::empty(),
        Run::FirstHalf { first, .. } => asked_for(*first, inputs, a, half(a, b)),
        Run::Halves { first, second, .. } => asked_for(*first, inputs, a, half(a, b))
            + asked_for(*second, inputs, half(a, b), b),
    }
}

proof fn lemma_asks_are_bounded<W: EmbeddingWorker>(
    run: Run<W>,
    inputs: Seq<EmbeddingInput>,
    a: int,
    b: int,
    before: W,
    i: int,
)
    requires
        0 <= a < b <= inputs.len(),
        b - a <= MAX_BATCH,
        happened(run, inputs, a, b, before),
        0 <= i < asked_for(run, inputs, a, b).len(),
    ensures
        0 < asked_for(run, inputs, a, b)[i].len() <= MAX_BATCH,
    decreases run,
{
    if i > 0 {
        match run {
            Run::Whole { .. } => {},
            Run::FirstHalf { answer, first } => {
                lemma_asks_are_bounded(*first, inputs, a, half(a, b), answer.worker, i - 1);
            },
            Run::Halves { answer, first, second } => {
                let n = asked_for(*first, inputs, a, half(a, b)).len();
                if i - 1 < n {
                    lemma_asks_are_bounded(*first, inputs, a, half(a, b), answer.worker, i - 1);
                } else {
                    lemma_asks_are_bounded(
                        *second,
                        inputs,
                        half(a, b),
                        b,
                        worker_after(*first),
                        i - 1 - n,
                    );
                }
            },
        }
    }
}

/// A worker is never asked for more inputs than a batch may have.
pub proof fn law_workers_get_bounded_batches<W: EmbeddingWorker>(
    runs: Seq<Run<W>>,
    cuts: Seq<int>,
    inputs: Seq<EmbeddingInput>,
    before: W,
    k: int,
    i: int,
)
    requires
        all_happened(runs, cuts, inputs, before),
        0 <= k < runs.len(),
        0 <= i < asked_for(runs[k], inputs, cuts[k], cuts[k + 1]).len(),
    ensures
        0 < asked_for(runs[k], inputs, cuts[k], cuts[k + 1])[i].len() <= MAX_BATCH,
{
    assert(batch_happened(runs, cuts, inputs, before, k));
    law_batches_stay_within_limits(token_counts(inputs), cuts[k], cuts[k + 1]);
    lemma_asks_are_bounded(
        runs[k],
        inputs,
        cuts[k],
        cuts[k + 1],
        worker_at(before, runs, k),
        i,
    );
}

/// A closure is asked for a batch once: what it says settles the batch, and a failure that will
/// not pass is that of each input.
pub proof fn law_closures_settle_batches_at_once<F: FnMut(&[EmbeddingInput]) -> BatchResults>(
    run: Run<ClosureWorker<F>>,
    inputs: Seq<EmbeddingInput>,
    a: int,
    b: int,
    before: ClosureWorker<F>,
)
    requires
        happened(run, inputs, a, b, before),
    ensures
        run is Whole,
        ({
            let answer = run->Whole_answer;
            let handed = run->Whole_handed;
            answer.outcomes is Err && !runtime_failure(answer.outcomes->Err_0) ==> {
                &&& handed is Some
                &&& each_failed(
                    handed->0.results,
                    inputs.subrange(a, b).len() as int,
                    answer.outcomes->Err_0.headline@,
                )
            }
        }),
{
}

/// A failure that may pass ends the run at once: nothing of its batch is handed on.
pub proof fn law_failures_that_may_pass_stop_the_run<W: EmbeddingWorker>(
    run: Run<W>,
    inputs: Seq<EmbeddingInput>,
    a: int,
    b: int,
    before: W,
)
    requires
        happened(run, inputs, a, b, before),
        run matches Run::Whole { handed, .. } && handed is None,
    ensures
        handed_on(run).len() == 0,
        run->Whole_answer.outcomes is Err,
        result_of(run) == Err::<(), Failure>(run->Whole_answer.outcomes->Err_0),
        judges_retryable(run->Whole_answer.worker, run->Whole_answer.outcomes->Err_0, true),
{
}

/// An engine in this process, for preparation without a shared worker.
pub struct ForegroundWorker<E: Engine> {
    pub engine: E,
}

/// Whether inference in this process sees the configured device: the CPU needs none; CUDA
/// needs exactly the configured one to be visible.
pub open spec fn mask_fault(config: InferenceConfig, visible: Seq<char>) -> Option<Seq<char>> {
    if config.provider != InferenceProvider::Cuda {
        None
    } else {
        match config.gpu_uuid {
            None => Some("inference_config_invalid: cuda requires gpu_uuid"@),
            Some(expected) => if visible == expected@ {
                None
            } else {
                Some(
                    "semantic_cuda: foreground inference requires CUDA_VISIBLE_DEVICES="@
                        + expected@,
                )
            },
        }
    }
}

/// Refuses inference in this process where the configured device is not the visible one.
pub fn require_foreground_cuda_mask(config: &InferenceConfig, visible: &str) -> (result: Result<
    (),
    Failure,
>)
    ensures
        match result {
            Ok(_) => mask_fault(*config, visible@) is None,
            Err(failure) => mask_fault(*config, visible@) is Some && text::plain(
                failure,
                mask_fault(*config, visible@)->0,
            ),
        },
{
    if config.provider != InferenceProvider::Cuda {
        return Ok(());
    }
    match &config.gpu_uuid {
        None => Err(Failure::new("inference_config_invalid: cuda requires gpu_uuid")),
        Some(expected) => {
            if text::same_text(visible, expected.as_str()) {
                return Ok(());
            }
            let mut message =
                "semantic_cuda: foreground inference requires CUDA_VISIBLE_DEVICES=".to_owned();
            message.append(expected.as_str());
            Err(Failure::of(message))
        },
    }
}

impl<E: Engine> ForegroundWorker<E> {
    /// Opens the engine in this process; `open` takes the lease that the shared worker takes
    /// too, and loads the model. It is not called where the configured device is not the
    /// visible one.
    pub fn open<F: FnOnce() -> Result<E, Failure>>(
        config: &InferenceConfig,
        visible: &str,
        open: F,
    ) -> (result: Result<Self, Failure>)
        requires
            mask_fault(*config, visible@) is None ==> call_requires(open, ()),
        ensures
            match mask_fault(*config, visible@) {
                Some(fault) => result is Err && text::plain(result->Err_0, fault),
                None => exists|opened: Result<E, Failure>|
                    {
                        &&& #[trigger] call_ensures(open, (), opened)
                        &&& match opened {
                            Ok(engine) => result is Ok && result->Ok_0.engine == engine,
                            Err(failure) => result == Err::<Self, Failure>(failure),
                        }
                    },
            },
    {
        match require_foreground_cuda_mask(config, visible) {
            Err(failure) => Err(failure),
            Ok(_) => match open() {
                Ok(engine) => Ok(ForegroundWorker { engine }),
                Err(failure) => Err(failure),
            },
        }
    }
}

/// Whether texts are those of inputs, in order.
pub open spec fn same_texts(texts: Seq<String>, inputs: Seq<EmbeddingInput>) -> bool {
    &&& texts.len() == inputs.len()
    &&& forall|i: int| 0 <= i < inputs.len() ==> (#[trigger] texts[i])@ == inputs[i].text@
}

/// The texts of inputs, in order.
fn texts_of(inputs: &[EmbeddingInput]) -> (texts: Vec<String>)
    ensures
        same_texts(texts@, inputs@),
{
    let mut texts: Vec<String> = Vec::new();
    let mut i: usize = 0;
    while i < inputs.len()
        invariant
            i <= inputs.len(),
            texts.len() == i,
            forall|k: int| 0 <= k < i ==> (#[trigger] texts@[k])@ == inputs@[k].text@,
        decreases inputs.len() - i,
    {
        texts.push(inputs[i].text.clone());
        i += 1;
    }
    texts
}

impl<E: Engine> EmbeddingWorker for ForegroundWorker<E> {
    open spec fn accepts(&self, batch: Seq<EmbeddingInput>) -> bool {
        true
    }

    open spec fn answers(
        &self,
        batch: Seq<EmbeddingInput>,
        said: BatchResults,
        after: &Self,
    ) -> bool {
        exists|texts: Seq<String>|
            {
                &&& #[trigger] same_texts(texts, batch)
                &&& match protocol::inputs_fault(texts) {
                    Some(fault) => said is Err && text::plain(said->Err_0, fault) && *after
                        == *self,
                    None => exists|vectors: Result<Vec<Embedding>, Failure>| #[trigger]
                        whole_batch("foreground"@, vectors, batch.len() as int, said),
                }
            }
    }

    /// A batch that is out of bounds is refused, and the engine is not asked. Else it is asked
    /// for the texts of the inputs, and what it says is taken for the batch as a whole.
    fn embed_batch(&mut self, inputs: &[EmbeddingInput]) -> (results: BatchResults)
        ensures
            exists|texts: &[String]|
                {
                    &&& #[trigger] same_texts(texts@, inputs@)
                    &&& match protocol::inputs_fault(texts@) {
                        Some(fault) => {
                            &&& results is Err
                            &&& text::plain(results->Err_0, fault)
                            &&& *final(self) == *old(self)
                        },
                        None => exists|engine: &mut E, vectors: Result<Vec<Embedding>, Failure>|
                            {
                                &&& *engine == old(self).engine
                                &&& *final(engine) == final(self).engine
                                &&& #[trigger] call_ensures(
                                    E::embed_batch,
                                    (engine, texts),
                                    vectors,
                                )
                                &&& whole_batch(
                                    "foreground"@,
                                    vectors,
                                    inputs.len() as int,
                                    results,
                                )
                            },
                    }
                },
    {
        let texts = texts_of(inputs);
        let asked: &[String] = texts.as_slice();
        assert(same_texts(asked@, inputs@));
        match protocol::validate_inputs(asked) {
            Err(failure) => return Err(failure),
            Ok(_) => {},
        }
        let vectors = self.engine.embed_batch(asked);
        let ghost found = vectors;
        let results = vectors_for("foreground", vectors, inputs.len());
        assert(whole_batch("foreground"@, found, inputs.len() as int, results));
        results
    }

    fn is_retryable_batch_error(&self, failure: &Failure) -> (retryable: bool)
        ensures
            retryable == runtime_failure(*failure),
    {
        is_runtime_batch_error(failure)
    }

    fn batch_error_is_unit_failure(&self, _failure: &Failure) -> (unit: bool)
        ensures
            !unit,
    {
        false
    }
}

} // verus!
