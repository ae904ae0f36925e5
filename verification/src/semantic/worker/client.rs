//! The client's side of the worker: what to send, and what to make of the answer.
//!
//! Times are nanoseconds on a clock that never goes back; the wall clock counts from 1970.

use crate::semantic::embedding::Embedding;
use crate::semantic::pins;
use crate::semantic::pins::{ModelPins, RerankBounds};
use crate::semantic::runtime_config::InferenceConfig;
use crate::semantic::worker::protocol;
use crate::semantic::worker::protocol::{Handshake, WorkerCommand, WorkerReply, WorkerRequest};
use crate::semantic::worker::scheduler::RequestClass;
use crate::semantic::worker::status::{WorkerState, WorkerStatus};
use crate::text;
use crate::text::Failure;
use crate::unicode;
use vstd::prelude::*;
use vstd::string::StringExecFns;

verus! {

/// A query is answered within half a second or not at all.
pub const QUERY_DEADLINE: u64 = 500_000_000;

/// A background batch may take a minute.
pub const BACKGROUND_DEADLINE: u64 = 60_000_000_000;

/// Control commands are answered within half a second.
pub const CONTROL_DEADLINE: u64 = 500_000_000;

/// Reranking may take a second and a half.
pub const RERANK_DEADLINE: u64 = 1_500_000_000;

/// One wait on a socket is no longer than this.
pub const IO_SLICE: u64 = 25_000_000;

#[derive(Clone, Copy, Debug, PartialEq, Eq, Structural)]
pub enum EmbedKind {
    Query,
    Background,
}

impl EmbedKind {
    pub open spec fn as_class(self) -> RequestClass {
        match self {
            EmbedKind::Query => RequestClass::Query,
            EmbedKind::Background => RequestClass::Background,
        }
    }

    pub open spec fn as_budget(self) -> u64 {
        match self {
            EmbedKind::Query => QUERY_DEADLINE,
            EmbedKind::Background => BACKGROUND_DEADLINE,
        }
    }

    pub fn class(self) -> (class: RequestClass)
        ensures
            class == self.as_class(),
    {
        match self {
            EmbedKind::Query => RequestClass::Query,
            EmbedKind::Background => RequestClass::Background,
        }
    }

    /// How long the whole exchange may take.
    pub fn budget(self) -> (budget: u64)
        ensures
            budget == self.as_budget(),
    {
        match self {
            EmbedKind::Query => QUERY_DEADLINE,
            EmbedKind::Background => BACKGROUND_DEADLINE,
        }
    }
}

/// Who is asking: the build, its configuration and its serialized form, and the root that the
/// work belongs to.
pub struct Caller<'a> {
    pub pins: &'a ModelPins,
    pub config: &'a InferenceConfig,
    pub serialized: &'a [u8],
    pub root_id: &'a [u8],
}

/// The moment at which a request was prepared: when it was started, when it is now, and the
/// wall clock now.
#[derive(Clone, Copy, Debug)]
pub struct Moment {
    pub started: u64,
    pub now: u64,
    pub unix_now: u64,
}

/// What is left of a budget.
pub open spec fn time_left(moment: Moment, budget: u64) -> int {
    if moment.started + budget > moment.now {
        moment.started + budget - moment.now
    } else {
        0
    }
}

/// Whether `result` is the wall-clock deadline in milliseconds for a budget, or why there is
/// none.
pub open spec fn deadline_set(moment: Moment, budget: u64, result: Result<u64, Failure>) -> bool {
    if time_left(moment, budget) == 0 {
        result is Err && text::plain(
            result->Err_0,
            "semantic_timeout: request exceeded its deadline before send"@,
        )
    } else if moment.unix_now + time_left(moment, budget) > u64::MAX {
        result is Err && text::plain(result->Err_0, "semantic_worker: system clock overflow"@)
    } else {
        result == Ok::<u64, Failure>(
            ((moment.unix_now + time_left(moment, budget)) / 1_000_000) as u64,
        )
    }
}

/// The wall-clock deadline in milliseconds for a budget.
pub fn deadline_ms(moment: Moment, budget: u64) -> (result: Result<u64, Failure>)
    requires
        moment.started + budget <= u64::MAX,
    ensures
        deadline_set(moment, budget, result),
{
    let end: u64 = moment.started + budget;
    let remaining: u64 = end.saturating_sub(moment.now);
    if remaining == 0 {
        return Err(Failure::new("semantic_timeout: request exceeded its deadline before send"));
    }
    match moment.unix_now.checked_add(remaining) {
        None => Err(Failure::new("semantic_worker: system clock overflow")),
        Some(end) => Ok(end / 1_000_000),
    }
}

/// Two lists of texts say the same.
pub open spec fn same_texts(a: Seq<String>, b: Seq<String>) -> bool {
    a.len() == b.len() && forall|i: int| 0 <= i < a.len() ==> (#[trigger] a[i])@ == b[i]@
}

/// Whether `result` is the request for embeddings of texts, or why it is not sent.
pub open spec fn embed_prepared(
    caller: Caller,
    kind: EmbedKind,
    texts: Seq<String>,
    moment: Moment,
    result: Result<WorkerRequest, Failure>,
) -> bool {
    match protocol::inputs_fault(texts) {
        Some(fault) => result is Err && text::plain(result->Err_0, fault),
        None => exists|deadline: Result<u64, Failure>|
            {
                &&& #[trigger] deadline_set(moment, kind.as_budget(), deadline)
                &&& match deadline {
                    Err(failure) => result == Err::<WorkerRequest, Failure>(failure),
                    Ok(deadline) => {
                        &&& result is Ok
                        &&& result->Ok_0.handshake.identifies(
                            *caller.pins,
                            *caller.config,
                            caller.serialized@,
                        )
                        &&& result->Ok_0.command matches WorkerCommand::Embed {
                            class,
                            root_id,
                            texts: sent,
                            deadline_ms,
                        } && class == kind.as_class() && root_id@ == unicode::lossy(
                            caller.root_id@,
                        ) && same_texts(sent@, texts) && deadline_ms == deadline
                    },
                }
            },
    }
}

/// The request for embeddings of a bounded batch.
pub fn embed(caller: &Caller, kind: EmbedKind, texts: &Vec<String>, moment: Moment) -> (result:
    Result<WorkerRequest, Failure>)
    requires
        moment.started + kind.as_budget() <= u64::MAX,
    ensures
        embed_prepared(*caller, kind, texts@, moment, result),
{
    match protocol::validate_inputs(texts.as_slice()) {
        Err(failure) => return Err(failure),
        Ok(_) => {},
    }
    let deadline = deadline_ms(moment, kind.budget());
    let ghost set = deadline;
    assert(deadline_set(moment, kind.as_budget(), set));
    match deadline {
        Err(failure) => Err(failure),
        Ok(deadline_ms) => {
            let sent = texts.clone();
            Ok(
                WorkerRequest::new(
                    caller.pins,
                    caller.config,
                    caller.serialized,
                    WorkerCommand::Embed {
                        class: kind.class(),
                        root_id: unicode::lossy_text(caller.root_id),
                        texts: sent,
                        deadline_ms,
                    },
                ),
            )
        },
    }
}

/// The request for the embedding of one query, to be answered within half a second.
pub fn embed_query(caller: &Caller, query: &str, moment: Moment) -> (result: Result<
    WorkerRequest,
    Failure,
>)
    requires
        moment.started + QUERY_DEADLINE <= u64::MAX,
    ensures
        exists|texts: Seq<String>|
            {
                &&& texts.len() == 1
                &&& texts[0]@ == query@
                &&& #[trigger] embed_prepared(*caller, EmbedKind::Query, texts, moment, result)
            },
{
    let mut texts: Vec<String> = Vec::new();
    texts.push(query.to_owned());
    let result = embed(caller, EmbedKind::Query, &texts, moment);
    assert(embed_prepared(*caller, EmbedKind::Query, texts@, moment, result));
    result
}

/// Whether `result` is the request for reranking, or why it is not sent.
pub open spec fn rerank_prepared(
    caller: Caller,
    bounds: RerankBounds,
    query: Seq<char>,
    documents: Seq<String>,
    moment: Moment,
    result: Result<WorkerRequest, Failure>,
) -> bool {
    exists|checked: Result<(), Failure>, deadline: Result<u64, Failure>|
        {
            &&& #[trigger] pins::rerank_bounds_hold(bounds, query, documents, checked)
            &&& #[trigger] deadline_set(moment, RERANK_DEADLINE, deadline)
            &&& match (checked, deadline) {
                (Err(failure), _) => result == Err::<WorkerRequest, Failure>(failure),
                (Ok(_), Err(failure)) => result == Err::<WorkerRequest, Failure>(failure),
                (Ok(_), Ok(deadline)) => {
                    &&& result is Ok
                    &&& result->Ok_0.handshake.identifies(
                        *caller.pins,
                        *caller.config,
                        caller.serialized@,
                    )
                    &&& result->Ok_0.command matches WorkerCommand::Rerank {
                        root_id,
                        query: asked,
                        documents: sent,
                        deadline_ms,
                    } && root_id@ == unicode::lossy(caller.root_id@) && asked@ == query
                        && same_texts(sent@, documents) && deadline_ms == deadline
                },
            }
        }
}

/// The request for the scores of documents against a query.
pub fn rerank_query(
    caller: &Caller,
    bounds: &RerankBounds,
    query: &str,
    documents: &Vec<String>,
    moment: Moment,
) -> (result: Result<WorkerRequest, Failure>)
    requires
        moment.started + RERANK_DEADLINE <= u64::MAX,
    ensures
        rerank_prepared(*caller, *bounds, query@, documents@, moment, result),
{
    let checked = protocol::validate_rerank_inputs(bounds, query, documents.as_slice());
    let deadline = deadline_ms(moment, RERANK_DEADLINE);
    let ghost verdict = checked;
    let ghost set = deadline;
    assert(pins::rerank_bounds_hold(*bounds, query@, documents@, verdict));
    assert(deadline_set(moment, RERANK_DEADLINE, set));
    match checked {
        Err(failure) => Err(failure),
        Ok(_) => match deadline {
            Err(failure) => Err(failure),
            Ok(deadline_ms) => {
                let sent = documents.clone();
                Ok(
                    WorkerRequest::new(
                        caller.pins,
                        caller.config,
                        caller.serialized,
                        WorkerCommand::Rerank {
                            root_id: unicode::lossy_text(caller.root_id),
                            query: query.to_owned(),
                            documents: sent,
                            deadline_ms,
                        },
                    ),
                )
            },
        },
    }
}

/// What an I/O error is about.
#[derive(Clone, Copy, Debug, PartialEq, Eq, Structural)]
pub enum IoKind {
    NotFound,
    ConnectionRefused,
    WouldBlock,
    TimedOut,
    Interrupted,
    Other,
}

/// Whether the I/O errors behind a failure mean that no worker runs.
pub open spec fn nobody_there(causes: Seq<IoKind>) -> bool {
    exists|i: int|
        0 <= i < causes.len() && (#[trigger] causes[i] == IoKind::NotFound || causes[i]
            == IoKind::ConnectionRefused)
}

/// Whether the I/O errors behind a failure mean that no worker runs.
pub fn is_not_running(causes: &[IoKind]) -> (not_running: bool)
    ensures
        not_running == nobody_there(causes@),
{
    let mut i: usize = 0;
    while i < causes.len()
        invariant
            i <= causes.len(),
            forall|k: int|
                0 <= k < i ==> #[trigger] causes@[k] != IoKind::NotFound && causes@[k]
                    != IoKind::ConnectionRefused,
        decreases causes.len() - i,
    {
        if causes[i] == IoKind::NotFound || causes[i] == IoKind::ConnectionRefused {
            return true;
        }
        i += 1;
    }
    false
}

/// What an exchange with the worker came to.
#[derive(Debug)]
pub enum Exchange {
    Reply(WorkerReply),
    /// No connection was made, on account of one I/O error.
    Unreached { failure: Failure, kind: IoKind },
    /// The exchange failed later, with these I/O errors behind it.
    Broken { failure: Failure, causes: Vec<IoKind> },
}

impl Exchange {
    /// Whether no connection was made since nobody listens.
    pub open spec fn unheard(self) -> bool {
        self matches Exchange::Unreached { kind, .. } && (kind == IoKind::NotFound || kind
            == IoKind::ConnectionRefused)
    }
}

fn nobody_listens(kind: IoKind) -> (nobody: bool)
    ensures
        nobody == (kind == IoKind::NotFound || kind == IoKind::ConnectionRefused),
{
    kind == IoKind::NotFound || kind == IoKind::ConnectionRefused
}

/// What to do about an exchange.
#[derive(Debug)]
pub enum Verdict<T> {
    /// This is the result.
    Settled(Result<T, Failure>),
    /// No worker runs: start one, then give the failure back.
    StartWorker(Failure),
}

/// An answer that is an error, as the failure that a caller sees.
pub open spec fn worker_failure(prefix: Seq<char>, message: Seq<char>, failure: Failure) -> bool {
    text::plain(failure, prefix + message)
}

fn prefixed(prefix: &str, message: String) -> (failure: Failure)
    ensures
        worker_failure(prefix@, message@, failure),
{
    let mut said = prefix.to_owned();
    said.append(message.as_str());
    Failure::of(said)
}

/// Whether `verdict` is what a request for embeddings comes to.
pub open spec fn embed_settled(exchange: Exchange, verdict: Verdict<Vec<Vec<u32>>>) -> bool {
    match exchange {
        Exchange::Unreached { failure, .. } => if exchange.unheard() {
            verdict matches Verdict::StartWorker(failure) && text::plain(
                failure,
                "semantic_loading: inference worker is starting"@,
            )
        } else {
            verdict == Verdict::Settled(Err::<Vec<Vec<u32>>, Failure>(failure))
        },
        Exchange::Broken { failure, .. } => verdict == Verdict::Settled(
            Err::<Vec<Vec<u32>>, Failure>(failure),
        ),
        Exchange::Reply(WorkerReply::Embeddings { values }) => verdict == Verdict::Settled(
            Ok::<Vec<Vec<u32>>, Failure>(values),
        ),
        Exchange::Reply(WorkerReply::Error { message }) => verdict matches Verdict::Settled(
            Err(failure),
        ) && worker_failure("semantic_worker: "@, message@, failure),
        Exchange::Reply(_) => verdict matches Verdict::Settled(Err(failure)) && text::plain(
            failure,
            "semantic_worker: invalid embedding response"@,
        ),
    }
}

/// What a request for embeddings comes to. Without a worker one is started, and the request
/// is given up meanwhile.
pub fn embed_reply(exchange: Exchange) -> (verdict: Verdict<Vec<Vec<u32>>>)
    ensures
        embed_settled(exchange, verdict),
{
    match exchange {
        Exchange::Unreached { failure, kind } => {
            if nobody_listens(kind) {
                Verdict::StartWorker(
                    Failure::new("semantic_loading: inference worker is starting"),
                )
            } else {
                Verdict::Settled(Err(failure))
            }
        },
        Exchange::Broken { failure, .. } => Verdict::Settled(Err(failure)),
        Exchange::Reply(WorkerReply::Embeddings { values }) => Verdict::Settled(Ok(values)),
        Exchange::Reply(WorkerReply::Error { message }) => Verdict::Settled(
            Err(prefixed("semantic_worker: ", message)),
        ),
        Exchange::Reply(_) => Verdict::Settled(
            Err(Failure::new("semantic_worker: invalid embedding response")),
        ),
    }
}

/// Whether `verdict` is what a request for reranking comes to.
pub open spec fn rerank_settled(exchange: Exchange, verdict: Verdict<Vec<u32>>) -> bool {
    match exchange {
        Exchange::Unreached { failure, .. } => if exchange.unheard() {
            verdict matches Verdict::StartWorker(failure) && text::plain(
                failure,
                "semantic_loading: inference worker is starting"@,
            )
        } else {
            verdict == Verdict::Settled(Err::<Vec<u32>, Failure>(failure))
        },
        Exchange::Broken { failure, .. } => verdict == Verdict::Settled(
            Err::<Vec<u32>, Failure>(failure),
        ),
        Exchange::Reply(WorkerReply::Scores { values }) => verdict == Verdict::Settled(
            Ok::<Vec<u32>, Failure>(values),
        ),
        Exchange::Reply(WorkerReply::Error { message }) => verdict matches Verdict::Settled(
            Err(failure),
        ) && worker_failure("rerank_worker: "@, message@, failure),
        Exchange::Reply(_) => verdict matches Verdict::Settled(Err(failure)) && text::plain(
            failure,
            "rerank_worker: invalid rerank response"@,
        ),
    }
}

/// What a request for reranking comes to.
pub fn rerank_reply(exchange: Exchange) -> (verdict: Verdict<Vec<u32>>)
    ensures
        rerank_settled(exchange, verdict),
{
    match exchange {
        Exchange::Unreached { failure, kind } => {
            if nobody_listens(kind) {
                Verdict::StartWorker(
                    Failure::new("semantic_loading: inference worker is starting"),
                )
            } else {
                Verdict::Settled(Err(failure))
            }
        },
        Exchange::Broken { failure, .. } => Verdict::Settled(Err(failure)),
        Exchange::Reply(WorkerReply::Scores { values }) => Verdict::Settled(Ok(values)),
        Exchange::Reply(WorkerReply::Error { message }) => Verdict::Settled(
            Err(prefixed("rerank_worker: ", message)),
        ),
        Exchange::Reply(_) => Verdict::Settled(
            Err(Failure::new("rerank_worker: invalid rerank response")),
        ),
    }
}

/// The first of the embeddings that came back for one text.
pub open spec fn first_of(
    embeddings: Result<Vec<Embedding>, Failure>,
    missing: Seq<char>,
    result: Result<Embedding, Failure>,
) -> bool {
    match embeddings {
        Err(failure) => result == Err::<Embedding, Failure>(failure),
        Ok(embeddings) => if embeddings.len() > 0 {
            result == Ok::<Embedding, Failure>(embeddings@[0])
        } else {
            result is Err && text::plain(result->Err_0, missing)
        },
    }
}

/// The embedding of a query out of what came back for it.
pub fn query_embedding(embeddings: Result<Vec<Embedding>, Failure>) -> (result: Result<
    Embedding,
    Failure,
>)
    ensures
        first_of(embeddings, "semantic_worker: missing query embedding"@, result),
{
    take_first(embeddings, "semantic_worker: missing query embedding")
}

fn take_first(embeddings: Result<Vec<Embedding>, Failure>, missing: &str) -> (result: Result<
    Embedding,
    Failure,
>)
    ensures
        first_of(embeddings, missing@, result),
{
    match embeddings {
        Err(failure) => Err(failure),
        Ok(mut embeddings) => {
            if embeddings.len() == 0 {
                return Err(Failure::new(missing));
            }
            Ok(embeddings.remove(0))
        },
    }
}

/// Whether `result` is what embedding in this process comes to, once the engine was opened: an
/// engine that is not open fails first, a batch that is out of bounds next, and only then is
/// the engine run.
pub open spec fn foreground_run<F: FnOnce() -> Result<Vec<Embedding>, Failure>>(
    opened: Result<(), Failure>,
    texts: Seq<String>,
    run: F,
    result: Result<Vec<Embedding>, Failure>,
) -> bool {
    match (opened, protocol::inputs_fault(texts)) {
        (Err(failure), _) => result == Err::<Vec<Embedding>, Failure>(failure),
        (Ok(_), Some(fault)) => result is Err && text::plain(result->Err_0, fault),
        (Ok(_), None) => call_ensures(run, (), result),
    }
}

/// The embeddings of texts in this process; `run` runs the engine that was opened.
pub fn embed_foreground<F: FnOnce() -> Result<Vec<Embedding>, Failure>>(
    opened: Result<(), Failure>,
    texts: &Vec<String>,
    run: F,
) -> (result: Result<Vec<Embedding>, Failure>)
    requires
        opened is Ok && protocol::inputs_fault(texts@) is None ==> call_requires(run, ()),
    ensures
        foreground_run(opened, texts@, run, result),
{
    match opened {
        Err(failure) => Err(failure),
        Ok(_) => match protocol::validate_inputs(texts.as_slice()) {
            Err(failure) => Err(failure),
            Ok(_) => run(),
        },
    }
}

/// The embedding of one query in this process.
pub fn embed_foreground_query<F: FnOnce() -> Result<Vec<Embedding>, Failure>>(
    opened: Result<(), Failure>,
    query: &str,
    run: F,
) -> (result: Result<Embedding, Failure>)
    requires
        forall|texts: Seq<String>|
            opened is Ok && texts.len() == 1 && texts[0]@ == query@
                && #[trigger] protocol::inputs_fault(texts) is None ==> call_requires(run, ()),
    ensures
        exists|texts: Seq<String>, embeddings: Result<Vec<Embedding>, Failure>|
            {
                &&& texts.len() == 1
                &&& texts[0]@ == query@
                &&& #[trigger] foreground_run(opened, texts, run, embeddings)
                &&& first_of(embeddings, "semantic_worker: missing embedding"@, result)
            },
{
    let mut texts: Vec<String> = Vec::new();
    texts.push(query.to_owned());
    let embeddings = embed_foreground(opened, &texts, run);
    let ghost found = embeddings;
    let result = take_first(embeddings, "semantic_worker: missing embedding");
    assert(foreground_run(opened, texts@, run, found));
    result
}

/// Whether `result` is the status that a status request gave.
pub open spec fn status_reply(reply: WorkerReply, result: Result<WorkerStatus, Failure>) -> bool {
    match reply {
        WorkerReply::Status(status) => result == Ok::<WorkerStatus, Failure>(status),
        WorkerReply::Error { message } => result is Err && text::plain(result->Err_0, message@),
        _ => result is Err && text::plain(
            result->Err_0,
            "semantic_worker: invalid status response"@,
        ),
    }
}

fn request_status(reply: WorkerReply) -> (result: Result<WorkerStatus, Failure>)
    ensures
        status_reply(reply, result),
{
    match reply {
        WorkerReply::Status(status) => Ok(status),
        WorkerReply::Error { message } => Err(Failure::of(message)),
        _ => Err(Failure::new("semantic_worker: invalid status response")),
    }
}

/// The state of the worker, without opening its model. Where no worker runs, that is its
/// state.
pub fn status(exchange: Exchange, config: &InferenceConfig, handshake: &Handshake) -> (result:
    Result<WorkerStatus, Failure>)
    ensures
        match exchange {
            Exchange::Reply(reply) => status_reply(reply, result),
            Exchange::Unreached { failure, .. } => if exchange.unheard() {
                &&& result is Ok
                &&& result->Ok_0.state == WorkerState::NotRunning
                &&& result->Ok_0.idle(*config, *handshake)
            } else {
                result == Err::<WorkerStatus, Failure>(failure)
            },
            Exchange::Broken { failure, causes } => if nobody_there(causes@) {
                &&& result is Ok
                &&& result->Ok_0.state == WorkerState::NotRunning
                &&& result->Ok_0.idle(*config, *handshake)
            } else {
                result == Err::<WorkerStatus, Failure>(failure)
            },
        },
{
    match exchange {
        Exchange::Reply(reply) => request_status(reply),
        Exchange::Unreached { failure, kind } => {
            if nobody_listens(kind) {
                Ok(WorkerStatus::not_running(config, handshake))
            } else {
                Err(failure)
            }
        },
        Exchange::Broken { failure, causes } => {
            if is_not_running(causes.as_slice()) {
                Ok(WorkerStatus::not_running(config, handshake))
            } else {
                Err(failure)
            }
        },
    }
}

/// What asking the worker to exit comes to. A worker that does not run is stopped already.
pub fn stop(exchange: Exchange, config: &InferenceConfig, handshake: &Handshake) -> (result: Result<
    WorkerStatus,
    Failure,
>)
    ensures
        match exchange {
            Exchange::Reply(WorkerReply::Status(status)) => result == Ok::<WorkerStatus, Failure>(
                status,
            ),
            Exchange::Reply(WorkerReply::Error { message }) => result is Err && worker_failure(
                "semantic_worker: "@,
                message@,
                result->Err_0,
            ),
            Exchange::Reply(_) => result is Err && text::plain(
                result->Err_0,
                "semantic_worker: invalid stop response"@,
            ),
            Exchange::Unreached { failure, .. } => if exchange.unheard() {
                &&& result is Ok
                &&& result->Ok_0.state == WorkerState::NotRunning
                &&& result->Ok_0.idle(*config, *handshake)
            } else {
                result == Err::<WorkerStatus, Failure>(failure)
            },
            Exchange::Broken { failure, .. } => result == Err::<WorkerStatus, Failure>(failure),
        },
{
    match exchange {
        Exchange::Reply(WorkerReply::Status(status)) => Ok(status),
        Exchange::Reply(WorkerReply::Error { message }) => Err(
            prefixed("semantic_worker: ", message),
        ),
        Exchange::Reply(_) => Err(Failure::new("semantic_worker: invalid stop response")),
        Exchange::Unreached { failure, kind } => {
            if nobody_listens(kind) {
                Ok(WorkerStatus::not_running(config, handshake))
            } else {
                Err(failure)
            }
        },
        Exchange::Broken { failure, .. } => Err(failure),
    }
}

/// What to do so that a worker runs.
#[derive(Debug)]
pub enum StartStep {
    /// One runs, and this is its state.
    Running(WorkerStatus),
    /// Start one; this is its state then.
    Start(WorkerStatus),
}

/// What to do so that a worker runs, given what asking for its state came to: only an answer
/// with a state counts. With a deadline that has passed nothing is started.
pub open spec fn start_decided(
    exchange: Exchange,
    expired: bool,
    config: InferenceConfig,
    handshake: Handshake,
    result: Result<StartStep, Failure>,
) -> bool {
    match exchange {
        Exchange::Reply(WorkerReply::Status(status)) => result == Ok::<StartStep, Failure>(
            StartStep::Running(status),
        ),
        _ => if expired {
            result is Err && text::plain(
                result->Err_0,
                "semantic_timeout: request exceeded its deadline while starting worker"@,
            )
        } else {
            result matches Ok(StartStep::Start(status)) && status.state == WorkerState::Loading
                && status.idle(config, handshake)
        },
    }
}

/// What to do so that a worker runs, before a deadline.
pub fn ensure_started_until(
    exchange: Exchange,
    expired: bool,
    config: &InferenceConfig,
    handshake: &Handshake,
) -> (result: Result<StartStep, Failure>)
    ensures
        start_decided(exchange, expired, *config, *handshake, result),
{
    match exchange {
        Exchange::Reply(WorkerReply::Status(status)) => Ok(StartStep::Running(status)),
        _ => {
            if expired {
                return Err(
                    Failure::new(
                        "semantic_timeout: request exceeded its deadline while starting worker",
                    ),
                );
            }
            Ok(StartStep::Start(WorkerStatus::loading(config, handshake)))
        },
    }
}

/// What to do so that a worker runs. Its model is not waited for.
pub fn ensure_started(exchange: Exchange, config: &InferenceConfig, handshake: &Handshake) -> (step:
    StartStep)
    ensures
        start_decided(exchange, false, *config, *handshake, Ok(step)),
{
    match exchange {
        Exchange::Reply(WorkerReply::Status(status)) => StartStep::Running(status),
        _ => StartStep::Start(WorkerStatus::loading(config, handshake)),
    }
}

/// What is set in the environment of a worker that is started.
#[derive(Debug)]
pub struct WorkerEnvironment {
    pub cuda_visible_devices: Option<String>,
    pub runtime_library: Option<Vec<u8>>,
}

/// What is set in the environment of a worker: the devices that it may see, so that its
/// ordinals do not depend on how the host counts, and the runtime library where one is
/// configured.
pub fn worker_environment(config: &InferenceConfig) -> (environment: WorkerEnvironment)
    ensures
        match environment.cuda_visible_devices {
            Some(devices) => config.visible_devices() == Some(devices@),
            None => config.visible_devices() is None,
        },
        match environment.runtime_library {
            Some(path) => config.runtime_library is Some && path@ == config.runtime_library->0@,
            None => config.runtime_library is None,
        },
{
    WorkerEnvironment {
        cuda_visible_devices: config.cuda_visible_devices(),
        runtime_library: config.runtime_library.clone(),
    }
}

/// What is left until a deadline; nothing left is a failure.
pub fn remaining(deadline: u64, now: u64) -> (result: Result<u64, Failure>)
    ensures
        match result {
            Ok(left) => now < deadline && left == deadline - now,
            Err(failure) => {
                &&& now >= deadline
                &&& text::plain_io(failure, "worker IPC deadline exceeded"@)
            },
        },
{
    if now >= deadline {
        return Err(Failure::io("worker IPC deadline exceeded"));
    }
    Ok(deadline - now)
}

/// How long one wait on a socket may take before a deadline.
pub fn configure_io(deadline: u64, now: u64) -> (result: Result<u64, Failure>)
    ensures
        match result {
            Ok(timeout) => now < deadline && timeout == if deadline - now < IO_SLICE {
                deadline - now
            } else {
                IO_SLICE as int
            },
            Err(failure) => {
                &&& now >= deadline
                &&& text::plain_io(failure, "worker IPC deadline exceeded"@)
            },
        },
{
    match remaining(deadline, now) {
        Err(failure) => Err(failure),
        Ok(left) => if left < IO_SLICE {
            Ok(left)
        } else {
            Ok(IO_SLICE)
        },
    }
}

/// How many milliseconds to wait for a connection with so much time left: at least one.
pub fn poll_millis(left: u64) -> (millis: i32)
    ensures
        millis == if left / 1_000_000 > i32::MAX {
            i32::MAX as int
        } else if left / 1_000_000 == 0 {
            1
        } else {
            (left / 1_000_000) as int
        },
{
    let millis: u64 = left / 1_000_000;
    if millis > i32::MAX as u64 {
        i32::MAX
    } else if millis == 0 {
        1
    } else {
        millis as i32
    }
}

/// What waiting for a connection came to.
#[derive(Debug)]
pub enum PollOutcome {
    /// The wait failed; it may only have been interrupted.
    Failed { interrupted: bool },
    /// Nothing happened in time.
    Quiet,
    /// Something happened: the socket is not valid, or it is connected or has an error, or
    /// something else.
    Event { invalid: bool, decided: bool },
}

/// What to do about a connection that is under way.
#[derive(Clone, Copy, Debug, PartialEq, Eq, Structural)]
pub enum ConnectStep {
    /// Wait again.
    Wait,
    /// The wait failed: give its error back.
    Fail,
    /// The socket is not valid.
    Invalid,
    /// Ask the socket for its error; without one it is connected.
    Ask,
}

/// What to do once the wait for a connection came back.
pub fn wait_for_connect(outcome: PollOutcome) -> (step: ConnectStep)
    ensures
        step == match outcome {
            PollOutcome::Failed { interrupted } => if interrupted {
                ConnectStep::Wait
            } else {
                ConnectStep::Fail
            },
            PollOutcome::Quiet => ConnectStep::Wait,
            PollOutcome::Event { invalid, decided } => if invalid {
                ConnectStep::Invalid
            } else if decided {
                ConnectStep::Ask
            } else {
                ConnectStep::Wait
            },
        },
{
    match outcome {
        PollOutcome::Failed { interrupted } => {
            if interrupted {
                ConnectStep::Wait
            } else {
                ConnectStep::Fail
            }
        },
        PollOutcome::Quiet => ConnectStep::Wait,
        PollOutcome::Event { invalid, decided } => {
            if invalid {
                ConnectStep::Invalid
            } else if decided {
                ConnectStep::Ask
            } else {
                ConnectStep::Wait
            }
        },
    }
}

/// The length of a socket address with a path, where `family` bytes come before the path and
/// `capacity` are there for it and the zero behind it.
pub fn unix_address_length(path: &[u8], family: usize, capacity: usize) -> (result: Result<
    usize,
    Failure,
>)
    requires
        family + capacity <= usize::MAX,
    ensures
        match result {
            Ok(length) => 0 < path.len() < capacity && length == family + path.len() + 1,
            Err(failure) => {
                &&& path.len() == 0 || path.len() >= capacity
                &&& text::plain_io(failure, "worker socket path is too long"@)
            },
        },
{
    if path.len() == 0 || path.len() >= capacity {
        return Err(Failure::io("worker socket path is too long"));
    }
    Ok(family + path.len() + 1)
}

} // verus!
