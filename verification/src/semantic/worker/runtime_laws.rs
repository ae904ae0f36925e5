//! What holds of what a worker does with requests, and of what becomes of them.

use crate::path_laws;
use crate::paths;
use crate::semantic::inference::SemanticProvider;
use crate::semantic::runtime_config::InferenceConfig;
use crate::semantic::worker::admission;
use crate::semantic::worker::admission::AdmissionController;
use crate::semantic::worker::connection::Outcome;
use crate::semantic::worker::connection::QueuedConnection;
use crate::semantic::worker::engine;
use crate::semantic::worker::engine::EnginePlan;
use crate::semantic::worker::lease;
use crate::semantic::worker::lease::LockOutcome;
use crate::semantic::worker::protocol::Handshake;
use crate::semantic::worker::protocol::WorkerReply;
use crate::semantic::worker::protocol::WorkerRequest;
use crate::semantic::worker::rerank_executor::RerankEvent;
use crate::semantic::worker::rerank_executor::RerankLane;
use crate::semantic::worker::runtime;
use crate::semantic::worker::runtime::ExecutorEvent;
use crate::semantic::worker::runtime::WorkerRuntime;
use crate::semantic::worker::scheduler::RequestClass;
use crate::semantic::worker::status::WorkerState;
use crate::semantic::worker::status::WorkerStatus;
use crate::system::routing_laws;
use crate::text::Failure;
use vstd::prelude::*;
use vstd::utf8;

verus! {

/// Whether two sides agree on what they speak: the protocol, the build, the configuration and the
/// models.
pub open spec fn is_agreed(a: Handshake, b: Handshake) -> bool {
    a.protocol == b.protocol && a.build@ == b.build@ && a.config@ == b.config@ && a.model@
        == b.model@
}

/// Whether a step sends an answer to a connection, and does nothing else.
pub open spec fn replies_to(outcome: Outcome, connection: u64) -> bool {
    &&& outcome.reply is Some
    &&& (outcome.reply->0).0 == connection
    &&& outcome.close is None
    &&& outcome.execute is None
}

/// A request for embeddings is queued with its bytes, or it is answered with an error and leaves
/// everything as it is: where the two sides do not agree, where the root has background work
/// already, and where it is not admitted.
pub proof fn law_requests_for_embeddings_wait_or_are_refused(
    before: WorkerRuntime,
    connection: u64,
    request: WorkerRequest,
    now: u64,
    now_ms: u64,
    outcome: Outcome,
    after: WorkerRuntime,
)
    requires
        before.well_formed(),
        before.handles(connection, request, now, now_ms, outcome, after),
        request.command is Embed,
    ensures
        ({
            let root = request.command->Embed_root_id@;
            let background = request.command->Embed_class == RequestClass::Background;
            let refused = !is_agreed(request.handshake, before.handshake) || (background
                && before.background_roots@.contains(root)) || admission::refusal(
                before.admission,
                request.command->Embed_texts.len(),
                runtime::counted_bytes(request.command->Embed_texts@) as usize,
            ) is Some;
            &&& refused ==> {
                &&& after == before
                &&& replies_to(outcome, connection)
                &&& (outcome.reply->0).1 is Error
            }
            &&& !refused ==> {
                &&& outcome.reply is None && outcome.close is None && outcome.execute is None
                &&& after.admission.queued == before.admission.queued + 1
                &&& after.admission.inflight == before.admission.inflight
                &&& background ==> after.background_roots@ == before.background_roots@.insert(
                    root,
                )
                &&& !background ==> after.background_roots@ == before.background_roots@
            }
        }),
{
}

/// Control commands are answered with a status whatever the handshake, which tells whether the
/// two sides agree; to stop is noted.
pub proof fn law_control_commands_are_always_answered(
    before: WorkerRuntime,
    connection: u64,
    request: WorkerRequest,
    now: u64,
    now_ms: u64,
    outcome: Outcome,
    after: WorkerRuntime,
)
    requires
        before.handles(connection, request, now, now_ms, outcome, after),
        request.command is Status || request.command is Stop,
    ensures
        replies_to(outcome, connection),
        (outcome.reply->0).1 is Status,
        request.command is Status ==> {
            &&& after == before
            &&& (outcome.reply->0).1->Status_0.handshake_match == is_agreed(
                request.handshake,
                before.handshake,
            )
        },
        request.command is Stop ==> {
            &&& after.stopping
            &&& (outcome.reply->0).1->Status_0.state == WorkerState::NotRunning
        },
{
}

/// A request for reranking is queued just where the two sides agree, its deadline has not passed,
/// it is admitted and the reranker is loaded. One whose deadline has passed is closed without an
/// answer, and any other is answered with an error.
pub proof fn law_requests_for_reranking_wait_or_are_refused(
    lane: RerankLane,
    controller: AdmissionController,
    agreed: bool,
    request: WorkerRequest,
    connection: u64,
    now: u64,
    now_ms: u64,
    outcome: Outcome,
    after: RerankLane,
    controlled: AdmissionController,
)
    requires
        controller.well_formed(),
        controller.limits.max_admitted < usize::MAX,
        request.command is Rerank,
        lane.admits(
            controller,
            agreed,
            request,
            connection,
            now,
            now_ms,
            outcome,
            after,
            controlled,
        ),
    ensures
        after.queue@.len() == lane.queue@.len() + 1 ==> {
            &&& agreed
            &&& now_ms < request.command->Rerank_deadline_ms
            &&& lane.loaded
            &&& after.queue@.last().request == request
            &&& after.queue@.last().connection == connection
            &&& controlled.queued == controller.queued + 1
            &&& outcome.reply is None && outcome.close is None && outcome.execute is None
        },
        after.queue@.len() != lane.queue@.len() + 1 ==> {
            &&& after.queue == lane.queue
            &&& controlled == controller
            &&& agreed && now_ms >= request.command->Rerank_deadline_ms ==> outcome.close == Some(
                connection,
            ) && outcome.reply is None
            &&& !agreed || now_ms < request.command->Rerank_deadline_ms ==> replies_to(
                outcome,
                connection,
            ) && (outcome.reply->0).1 is Error
        },
{
}

/// A request goes to the model only before its deadline and with the model loaded; with its
/// deadline passed it is closed, and its place is free again.
pub proof fn law_late_requests_are_not_run(
    before: WorkerRuntime,
    item: QueuedConnection,
    now: u64,
    now_ms: u64,
    outcome: Outcome,
    after: WorkerRuntime,
)
    requires
        before.processes(item, now, now_ms, outcome, after),
        item.request.command is Embed,
    ensures
        outcome.execute is Some <==> now_ms < item.request.command->Embed_deadline_ms
            && before.engine_loaded && !before.cooling(now),
        outcome.execute matches Some(running) ==> running.request == item.request
            && running.connection == item.connection && after.active,
        now_ms >= item.request.command->Embed_deadline_ms ==> {
            &&& outcome.close == Some(item.connection)
            &&& outcome.reply is None
            &&& item.request.command->Embed_class == RequestClass::Background
                ==> !after.background_roots@.contains(item.request.command->Embed_root_id@)
        },
{
}

/// What the model gave is sent to who asked for it, before the deadline and not after it; the
/// model is free again, and so is the root of background work, and no other.
pub proof fn law_answers_reach_who_asked(
    before: WorkerRuntime,
    request: WorkerRequest,
    connection: u64,
    result: Result<Vec<Vec<u32>>, String>,
    now: u64,
    now_ms: u64,
    reply: Option<(u64, WorkerReply)>,
    after: WorkerRuntime,
)
    requires
        before.takes(
            ExecutorEvent::Completed { request, connection, result },
            now,
            now_ms,
            reply,
            after,
        ),
        request.command is Embed,
    ensures
        reply is Some <==> now_ms < request.command->Embed_deadline_ms,
        reply matches Some(sent) ==> sent.0 == connection && match result {
            Ok(values) => sent.1 is Embeddings && sent.1->Embeddings_values == values,
            Err(error) => sent.1 is Error && sent.1->Error_message == error,
        },
        !after.active,
        after.inflight is None,
        after.last_used == Some(now),
        forall|root: Seq<char>|
            #![trigger after.background_roots@.contains(root)]
            after.background_roots@.contains(root) <==> before.background_roots@.contains(root)
                && !(request.command->Embed_class == RequestClass::Background && root
                == request.command->Embed_root_id@),
{
}

/// In the same way scores reach who asked for them.
pub proof fn law_scores_reach_who_asked(
    before: RerankLane,
    controller: AdmissionController,
    request: WorkerRequest,
    connection: u64,
    result: Result<Vec<u32>, String>,
    now: u64,
    now_ms: u64,
    replies: Seq<(u64, WorkerReply)>,
    after: RerankLane,
    controlled: AdmissionController,
)
    requires
        before.pumps(
            controller,
            RerankEvent::Completed { request, connection, result },
            now,
            now_ms,
            replies,
            after,
            controlled,
        ),
        request.command is Rerank,
    ensures
        replies.len() == if now_ms < request.command->Rerank_deadline_ms {
            1nat
        } else {
            0nat
        },
        replies.len() == 1 ==> replies[0].0 == connection && match result {
            Ok(values) => replies[0].1 is Scores && replies[0].1->Scores_values == values,
            Err(error) => replies[0].1 is Error && replies[0].1->Error_message == error,
        },
        !after.active,
        after.inflight is None,
        after.queue == before.queue,
{
}

/// A reranker that is lost answers everyone who waits with an error, and nobody waits then.
pub proof fn law_lost_rerankers_answer_everyone(
    before: RerankLane,
    controller: AdmissionController,
    now: u64,
    now_ms: u64,
    replies: Seq<(u64, WorkerReply)>,
    after: RerankLane,
    controlled: AdmissionController,
)
    requires
        before.pumps(
            controller,
            RerankEvent::Disconnected,
            now,
            now_ms,
            replies,
            after,
            controlled,
        ),
    ensures
        after.queue@.len() == 0,
        !after.loaded,
        !after.active,
        replies.len() == before.queue@.len(),
        forall|i: int|
            0 <= i < replies.len() ==> (#[trigger] replies[i]).0 == before.queue@[i].connection
                && replies[i].1 is Error,
{
}

/// A model that is loaded is ready, and what failed before is forgotten; one that is not says why
/// and is not tried again at once.
pub proof fn law_loads_are_noted(
    before: WorkerRuntime,
    loaded: Result<(), String>,
    now: u64,
    now_ms: u64,
    reply: Option<(u64, WorkerReply)>,
    after: WorkerRuntime,
)
    requires
        before.takes(ExecutorEvent::Loaded(loaded), now, now_ms, reply, after),
        before.load_retry.well_formed(),
        now <= u64::MAX - 30_000_000_000,
    ensures
        reply is None,
        !after.loading,
        after.engine_loaded == loaded is Ok,
        loaded is Ok ==> after.load_error is None && !after.cooling(now),
        loaded matches Err(error) ==> after.load_error == Some(error) && after.cooling(now),
        after.scheduler == before.scheduler,
        after.admission == before.admission,
{
}

/// The status tells how the worker stands: ready with a model that is loaded, what waits and what
/// is worked on, and what went wrong.
pub proof fn law_the_status_tells_how_the_worker_stands(
    worker: WorkerRuntime,
    agreed: bool,
    status: WorkerStatus,
)
    requires
        worker.describes(agreed, status),
    ensures
        status.state == WorkerState::Ready <==> worker.engine_loaded && !worker.loading,
        status.state == WorkerState::Ready || status.state == WorkerState::Loading,
        status.loaded == worker.engine_loaded,
        status.rerank_loaded == worker.rerank.loaded,
        status.handshake_match == agreed,
        worker.active ==> status.pending == worker.scheduler@.pending() + 1,
        !worker.active ==> status.pending == worker.scheduler@.pending(),
        worker.rerank.active ==> status.rerank_pending == worker.rerank.queue@.len() + 1,
        !worker.rerank.active ==> status.rerank_pending == worker.rerank.queue@.len(),
        status.error is Some <==> worker.load_error is Some,
        worker.load_error matches Some(error) ==> status.error->0@ == error@,
        status.rerank_error is Some <==> worker.rerank.load_error is Some,
        worker.rerank.load_error matches Some(error) ==> status.rerank_error->0@ == error@,
        worker.config.gpu_uuid matches Some(uuid) ==> status.gpu_uuid is Some
            && status.gpu_uuid->0@ == uuid@,
{
}

/// A model is opened from where it is configured, the embedder and the reranker each from its own
/// directory, on the device that was found or on the processor, with the memory that is set.
pub proof fn law_engines_are_opened_as_configured(
    config: InferenceConfig,
    rerank: bool,
    ordinal: Option<u32>,
    result: Result<EnginePlan, Failure>,
)
    requires
        engine::opened(config, rerank, Ok(ordinal), result),
    ensures
        result is Ok <==> (ordinal is None || ordinal->0 <= i32::MAX) && (rerank
            && config.rerank_model_dir is Some || !rerank && config.model_dir is Some),
        result matches Ok(plan) ==> {
            &&& rerank ==> plan.model@ == config.rerank_model_dir->0@
            &&& !rerank ==> plan.model@ == config.model_dir->0@
            &&& plan.provider.arena_max_bytes == config.arena_bytes
            &&& ordinal is None ==> plan.provider.provider == SemanticProvider::Cpu
                && plan.preload is None
            &&& ordinal is Some && config.cuda_preload_library is Some ==> plan.preload is Some
                && plan.preload->0@ == config.cuda_preload_library->0@
            &&& config.runtime_library is Some ==> plan.runtime is Some && plan.runtime->0@
                == config.runtime_library->0@
            &&& ordinal matches Some(ordinal) ==> plan.provider.provider
                == SemanticProvider::Cuda { device_ordinal: ordinal as i32 }
        },
{
}

/// A worker keeps its files in `trufflepig/inference-worker` below the directory for caches, or
/// else below `.cache` of the home directory.
pub proof fn law_workers_have_a_place(
    cache_home: Option<Vec<u8>>,
    home: Option<Vec<u8>>,
    result: Result<Vec<u8>, Failure>,
)
    requires
        lease::cache_dir(cache_home, home, result),
        cache_home matches Some(path) ==> routing_laws::goes_on(path@),
        home matches Some(path) ==> routing_laws::goes_on(path@),
    ensures
        result is Ok <==> cache_home is Some || home is Some,
        cache_home matches Some(path) ==> result->Ok_0@ == routing_laws::below_by(
            path@,
            "trufflepig"@,
            "inference-worker"@,
        ),
        cache_home is None && home is Some ==> result->Ok_0@ == routing_laws::below_by(
            path_laws::on_to(home->0@, utf8::encode_utf8(".cache"@)),
            "trufflepig"@,
            "inference-worker"@,
        ),
{
    reveal_strlit("trufflepig");
    reveal_strlit("inference-worker");
    reveal_strlit(".cache");
    routing_laws::lemma_plain_name("trufflepig"@);
    routing_laws::lemma_plain_name("inference-worker"@);
    routing_laws::lemma_plain_name(".cache"@);
    let first = utf8::encode_utf8("trufflepig"@);
    let second = utf8::encode_utf8("inference-worker"@);
    let hidden = utf8::encode_utf8(".cache"@);
    if cache_home is Some {
        lemma_two_names(cache_home->0@, first, second);
    } else if home is Some {
        assert(paths::joined(home->0@, hidden) =~= path_laws::on_to(home->0@, hidden));
        assert(path_laws::on_to(home->0@, hidden).last() == hidden.last());
        lemma_two_names(path_laws::on_to(home->0@, hidden), first, second);
    }
}

proof fn lemma_two_names(base: Seq<u8>, first: Seq<u8>, second: Seq<u8>)
    requires
        routing_laws::goes_on(base),
        first.len() > 0,
        first[0] != 47,
        first.last() != 47,
        second.len() > 0,
        second[0] != 47,
    ensures
        paths::joined(paths::joined(base, first), second) == path_laws::on_to(
            path_laws::on_to(base, first),
            second,
        ),
{
    assert(paths::joined(base, first) =~= path_laws::on_to(base, first));
    assert(path_laws::on_to(base, first).last() == first.last());
    assert(paths::joined(path_laws::on_to(base, first), second) =~= path_laws::on_to(
        path_laws::on_to(base, first),
        second,
    ));
}

/// A lease is taken just where its lock was; one that another holds is told from one that could
/// not be locked.
pub proof fn law_leases_are_taken_by_their_lock(
    device: bool,
    outcome: LockOutcome,
    result: Result<(), Failure>,
)
    requires
        lease::lease_taken(device, outcome, result),
    ensures
        result is Ok <==> outcome is Locked,
        outcome is Held ==> !result->Err_0.transport,
        outcome is Failed ==> result->Err_0.transport,
{
}

} // verus!
