use trufflepig::semantic::embedding::Embedding;
use trufflepig::semantic::pins::{ModelPins, RerankBounds, DIMENSIONS};
use trufflepig::semantic::runtime_config::{InferenceConfig, InferenceProvider};
use trufflepig::semantic::worker::admission::{
    AdmissionController, AdmissionLimits, MAX_ADMITTED,
};
use trufflepig::semantic::worker::client;
use trufflepig::semantic::worker::client::{
    configure_io, deadline_ms, embed_foreground, embed_foreground_query, embed_reply,
    ensure_started, ensure_started_until, is_not_running, poll_millis, query_embedding, remaining,
    rerank_reply, unix_address_length, wait_for_connect, worker_environment, Caller, ConnectStep,
    EmbedKind, Exchange, IoKind, Moment, PollOutcome, StartStep, Verdict, BACKGROUND_DEADLINE,
    IO_SLICE, QUERY_DEADLINE, RERANK_DEADLINE,
};
use trufflepig::semantic::worker::connection::{QueuedConnection, IDLE_UNLOAD};
use trufflepig::semantic::worker::engine::{open_engine, open_rerank_engine, unserved};
use trufflepig::semantic::worker::lease::{
    acquire, clear_socket, worker_cache_dir, LockOutcome, SocketPlace,
};
use trufflepig::semantic::worker::load_retry::{LoadRetry, INITIAL_COOLDOWN, MAX_COOLDOWN};
use trufflepig::semantic::worker::protocol::{
    frame_header, oversized_reply, raw_input_bytes, read_frame, read_frame_with_deadline,
    reply_payload, take_transfer, validate_command, validate_inputs, write_frame,
    write_frame_with_deadline, Handshake, ReadStep, Transfer, WorkerCommand, WorkerReply,
    WorkerRequest, WriteStep, FRAME_LIMIT, MAX_INPUTS, MAX_RAW_INPUT_BYTES,
};
use trufflepig::semantic::worker::rerank_executor::{RerankEvent, RerankLane};
use trufflepig::semantic::worker::runtime::{ExecutorEvent, WorkerRuntime, MAX_FRAME_READERS};
use trufflepig::semantic::worker::scheduler::{FairScheduler, RequestClass, RootIdent};
use trufflepig::semantic::worker::status::{WorkerState, WorkerStatus};
use trufflepig::text::Failure;

const BOUNDS: RerankBounds = RerankBounds { max_documents: 32, max_document_bytes: 4096 };

const NOW: u64 = 1_000_000_000_000;
const NOW_MS: u64 = 1_000;

fn pins() -> ModelPins {
    ModelPins {
        model_name: "model".into(),
        model_revision: "revision".into(),
        input_version: "input-v1".into(),
        reranker_name: "reranker".into(),
        reranker_revision: "rerank-revision".into(),
        build: "build".into(),
    }
}

fn handshake(config: &InferenceConfig) -> Handshake {
    Handshake::for_config(&pins(), config, b"config")
}

fn request(command: WorkerCommand) -> WorkerRequest {
    WorkerRequest::new(&pins(), &InferenceConfig::default(), b"config", command)
}

// Admission.

#[test]
fn admission_counts_queued_and_inflight_and_releases_on_drop() {
    let mut admission = AdmissionController::default();
    let ticket = admission.try_admit(1, 4).unwrap();
    assert_eq!(admission.counts(), (1, 0, 4));
    let inflight = ticket.begin(&mut admission);
    assert_eq!(admission.counts(), (0, 1, 4));
    admission.release_inflight(inflight);
    assert_eq!(admission.counts(), (0, 0, 0));
}

#[test]
fn admission_rejects_more_than_sixty_four_batches() {
    let mut admission = AdmissionController::default();
    let mut tickets = Vec::with_capacity(MAX_ADMITTED);
    for _ in 0..MAX_ADMITTED {
        tickets.push(admission.try_admit(1, 1).unwrap());
    }
    assert!(admission.try_admit(1, 1).is_err());
    for ticket in tickets {
        admission.release(ticket);
    }
    assert_eq!(admission.counts(), (0, 0, 0));
}

#[test]
fn admission_refuses_many_inputs_and_large_inputs() {
    let mut admission = AdmissionController::default();
    assert!(admission.try_admit(MAX_INPUTS + 1, 1).is_err());
    assert!(admission.try_admit(1, MAX_RAW_INPUT_BYTES + 1).is_err());
    assert_eq!(admission.counts(), (0, 0, 0));
}

// Load retries.

#[test]
fn failed_load_waits_then_allows_one_retry_and_success_resets() {
    let started = NOW;
    let mut retry = LoadRetry::default();

    assert!(retry.is_ready(started));
    retry.failed(started);
    let retry_at = retry.retry_at.unwrap();
    assert!(!retry.is_ready(retry_at - 1));
    assert!(retry.is_ready(retry_at));

    retry.failed(retry_at);
    assert!(!retry.is_ready(retry_at + INITIAL_COOLDOWN));
    assert_eq!(retry.cooldown, INITIAL_COOLDOWN * 4);

    retry.succeeded();
    assert!(retry.is_ready(started));
    assert_eq!(retry.cooldown, INITIAL_COOLDOWN);
}

#[test]
fn cooldown_is_bounded_after_repeated_no_gpu_failures() {
    let mut retry = LoadRetry::default();
    let mut now = NOW;
    for _ in 0..16 {
        retry.failed(now);
        now += MAX_COOLDOWN;
    }
    assert_eq!(retry.cooldown, MAX_COOLDOWN);
}

// Frames.

#[test]
fn frames_reject_one_byte_over_one_mib() {
    let mut output = Vec::new();
    assert!(write_frame(&mut output, &vec![0_u8; FRAME_LIMIT + 1]).is_err());
}

#[test]
fn frames_round_trip_binary_payload() {
    let input = vec![1_u8, 2, 3, 4];
    let mut output = Vec::new();
    write_frame(&mut output, &input).unwrap();
    assert_eq!(output, [0, 0, 0, 4, 1, 2, 3, 4]);
    assert_eq!(read_frame(&output).unwrap(), input);
}

#[test]
fn short_and_oversized_frames_are_refused() {
    assert!(read_frame(&[0, 0]).is_err());
    assert!(read_frame(&[0, 0, 0, 2, 1]).is_err());
    assert!(read_frame(&[1, 0, 0, 0]).is_err());
    assert_eq!(frame_header(258), [0, 0, 1, 2]);
}

#[test]
fn trickled_frames_arrive_or_hit_their_deadline() {
    let frame = [0, 0, 0, 2, 7, 8];
    for length in 0..frame.len() {
        match read_frame_with_deadline(&frame[..length], false).unwrap() {
            ReadStep::Read(wanted) => {
                assert_eq!(wanted, if length < 4 { 4 - length } else { 6 - length });
            }
            other => panic!("{other:?}"),
        }
    }
    match read_frame_with_deadline(&frame, false).unwrap() {
        ReadStep::Frame(payload) => assert_eq!(payload, [7, 8]),
        other => panic!("{other:?}"),
    }
    let late = read_frame_with_deadline(&frame[..3], true).unwrap_err();
    assert!(late.message.contains("deadline"));
    assert!(matches!(
        write_frame_with_deadline(&[7, 8], 0, false).unwrap(),
        WriteStep::Header(0)
    ));
    assert!(matches!(
        write_frame_with_deadline(&[7, 8], 5, false).unwrap(),
        WriteStep::Payload(1)
    ));
    assert!(matches!(write_frame_with_deadline(&[7, 8], 6, false).unwrap(), WriteStep::Flush));
    assert!(write_frame_with_deadline(&[7, 8], 1, true).is_err());
    assert_eq!(take_transfer(true, 2, Transfer::Moved(3)).unwrap(), 5);
    assert_eq!(take_transfer(true, 2, Transfer::Retry).unwrap(), 2);
    assert!(take_transfer(true, 2, Transfer::Moved(0)).is_err());
    assert!(take_transfer(false, 2, Transfer::Failed("broken".into())).is_err());
}

#[test]
fn input_admission_bounds_count_and_bytes() {
    assert!(validate_inputs(&vec!["x".into(); MAX_INPUTS + 1]).is_err());
    assert!(validate_inputs(&["x".repeat(MAX_RAW_INPUT_BYTES + 1)]).is_err());
    assert!(validate_inputs(&["x".into()]).is_ok());
    assert_eq!(raw_input_bytes(&["ab".into(), "é".into()]), 4);
}

#[test]
fn rerank_request_over_document_limit_fails_validation() {
    let command = WorkerCommand::Rerank {
        root_id: "root".into(),
        query: "query".into(),
        documents: vec!["doc".into(); BOUNDS.max_documents + 1],
        deadline_ms: 1,
    };
    let error = validate_command(&BOUNDS, &command).unwrap_err();
    assert!(error.message.contains("rerank_admission"));
}

#[test]
fn replies_that_do_not_fit_are_replaced() {
    assert_eq!(reply_payload(vec![1], vec![2]), [1]);
    assert_eq!(reply_payload(vec![1; FRAME_LIMIT + 1], vec![2]), [2]);
    assert!(matches!(oversized_reply(), WorkerReply::Error { .. }));
}

#[test]
fn handshakes_tell_configurations_apart() {
    let config = InferenceConfig::default();
    assert!(handshake(&config).agrees(&handshake(&config)));
    let other = InferenceConfig { model_dir: Some(b"/models".to_vec()), ..Default::default() };
    assert!(!handshake(&config).agrees(&handshake(&other)));
    let changed = Handshake::for_config(&pins(), &config, b"changed");
    assert!(!handshake(&config).agrees(&changed));
}

// Scheduling.

#[derive(Clone)]
struct Item {
    root: String,
    id: usize,
}

impl RootIdent for Item {
    fn root_id(&self) -> &str {
        &self.root
    }
}

#[test]
fn scheduler_keeps_background_progress_after_three_queries() {
    let mut scheduler = FairScheduler::default();
    for id in 0..8 {
        scheduler.push(RequestClass::Query, Item { root: "a".into(), id });
    }
    scheduler.push(RequestClass::Background, Item { root: "b".into(), id: 99 });
    assert_eq!(scheduler.pop().unwrap().root, "a");
    assert_eq!(scheduler.pop().unwrap().root, "a");
    assert_eq!(scheduler.pop().unwrap().root, "a");
    assert_eq!(scheduler.pop().unwrap().root, "b");
}

#[test]
fn scheduler_allows_three_queries_before_background_when_root_is_shared() {
    let mut scheduler = FairScheduler::default();
    for id in 0..3 {
        scheduler.push(RequestClass::Query, Item { root: "a".into(), id });
    }
    scheduler.push(RequestClass::Background, Item { root: "a".into(), id: 3 });
    assert_eq!(scheduler.pop().unwrap().id, 0);
    assert_eq!(scheduler.pop().unwrap().id, 1);
    assert_eq!(scheduler.pop().unwrap().id, 2);
    assert_eq!(scheduler.pop().unwrap().id, 3);
}

#[test]
fn scheduler_takes_turns_between_roots_and_loses_nothing() {
    let mut scheduler = FairScheduler::default();
    for (root, id) in [("a", 0), ("a", 1), ("b", 2), ("c", 3)] {
        scheduler.push(RequestClass::Query, Item { root: root.into(), id });
    }
    assert_eq!(scheduler.pending(), 4);
    let order: Vec<usize> = (0..4).map(|_| scheduler.pop().unwrap().id).collect();
    assert_eq!(order, [0, 2, 3, 1]);
    assert!(scheduler.pop().is_none());
}

// The embedding runtime.

fn queued_query(runtime: &mut WorkerRuntime) -> QueuedConnection {
    let ticket = runtime.admission.try_admit(1, 5).unwrap();
    let command = WorkerCommand::Embed {
        class: RequestClass::Query,
        root_id: "test-root".into(),
        texts: vec!["query".into()],
        deadline_ms: NOW_MS + 10_000,
    };
    QueuedConnection { request: request(command), connection: 1, ticket }
}

fn runtime() -> WorkerRuntime {
    let config = InferenceConfig::default();
    let handshake = handshake(&config);
    WorkerRuntime::new(InferenceConfig::default(), config, handshake.clone(), handshake)
}

#[test]
fn stopping_answers_with_the_fingerprints_of_the_configuration() {
    let config = InferenceConfig::default();
    let of_config = handshake(&config);
    let other = Handshake { config: "other".into(), model: "model".into(), ..of_config.clone() };
    let mut runtime =
        WorkerRuntime::new(InferenceConfig::default(), config, other, of_config.clone());
    match runtime.handle_request(1, Ok(request(WorkerCommand::Status)), NOW, NOW_MS).reply {
        Some((1, WorkerReply::Status(status))) => assert_eq!(status.config_fingerprint, "other"),
        other => panic!("{other:?}"),
    }
    match runtime.handle_request(2, Ok(request(WorkerCommand::Stop)), NOW, NOW_MS).reply {
        Some((2, WorkerReply::Status(status))) => {
            assert_eq!(status.config_fingerprint, of_config.config);
            assert_eq!(status.model_fingerprint, of_config.model);
        }
        other => panic!("{other:?}"),
    }
}

#[test]
fn loaded_model_unloads_without_a_completed_query() {
    let mut runtime = runtime();
    runtime.loading = true;
    assert!(runtime.poll_executor(ExecutorEvent::Loaded(Ok(())), NOW, NOW_MS).is_none());
    assert!(runtime.last_used.is_some());
    runtime.last_used = Some(NOW - IDLE_UNLOAD);
    assert!(runtime.unload_idle(NOW));
    assert!(!runtime.engine_loaded);
}

#[test]
fn failed_gpu_load_retries_after_cooldown_without_a_retry_storm() {
    let mut runtime = runtime();
    runtime.loading = true;

    let failed = ExecutorEvent::Loaded(Err("cuda_unavailable: no GPU".into()));
    runtime.poll_executor(failed, NOW, NOW_MS);
    let status = runtime.status(true);
    assert_eq!(status.error.as_deref(), Some("cuda_unavailable: no GPU"));
    assert!(!status.loaded);
    let retry_at = runtime.load_retry.retry_at.unwrap();

    let item = queued_query(&mut runtime);
    assert!(!runtime.process_at(item, retry_at - 1, NOW_MS).load);

    let item = queued_query(&mut runtime);
    let outcome = runtime.process_at(item, retry_at, NOW_MS);
    assert!(runtime.loading);
    assert!(outcome.load);

    let item = queued_query(&mut runtime);
    assert!(!runtime.process_at(item, retry_at, NOW_MS).load);

    runtime.poll_executor(ExecutorEvent::Loaded(Ok(())), retry_at, NOW_MS);
    let status = runtime.status(true);
    assert!(status.loaded);
    assert!(status.error.is_none());
}

#[test]
fn worker_constants_preserve_query_budget() {
    assert_eq!(std::time::Duration::from_nanos(QUERY_DEADLINE), std::time::Duration::from_millis(500));
    assert_eq!(std::time::Duration::from_nanos(IDLE_UNLOAD), std::time::Duration::from_secs(600));
}

fn embed_command(class: RequestClass, root: &str) -> WorkerCommand {
    WorkerCommand::Embed {
        class,
        root_id: root.into(),
        texts: vec!["text".into()],
        deadline_ms: NOW_MS + 10_000,
    }
}

#[test]
fn a_loaded_runtime_serves_queries() {
    let mut runtime = runtime();
    runtime.poll_executor(ExecutorEvent::Loaded(Ok(())), NOW, NOW_MS);
    let query = request(embed_command(RequestClass::Query, "root"));
    let outcome = runtime.handle_request(7, Ok(query), NOW, NOW_MS);
    assert!(outcome.reply.is_none() && outcome.close.is_none());
    let outcome = runtime.process(NOW, NOW_MS).unwrap();
    let running = outcome.execute.unwrap();
    assert_eq!(running.connection, 7);
    assert!(runtime.active);
    assert!(runtime.process(NOW, NOW_MS).is_none());
    let done = ExecutorEvent::Completed {
        request: running.request,
        connection: running.connection,
        result: Ok(vec![vec![1, 2]]),
    };
    match runtime.poll_executor(done, NOW, NOW_MS) {
        Some((7, WorkerReply::Embeddings { values })) => assert_eq!(values, vec![vec![1, 2]]),
        other => panic!("{other:?}"),
    }
    assert!(!runtime.active);
    assert_eq!(runtime.admission.counts(), (0, 0, 0));
}

#[test]
fn a_root_has_one_background_batch_at_a_time() {
    let mut runtime = runtime();
    runtime.poll_executor(ExecutorEvent::Loaded(Ok(())), NOW, NOW_MS);
    let first = request(embed_command(RequestClass::Background, "root"));
    assert!(runtime.handle_request(1, Ok(first), NOW, NOW_MS).reply.is_none());
    let second = request(embed_command(RequestClass::Background, "root"));
    match runtime.handle_request(2, Ok(second), NOW, NOW_MS).reply {
        Some((2, WorkerReply::Error { message })) => {
            assert!(message.contains("semantic_root_busy"), "{message}")
        }
        other => panic!("{other:?}"),
    }
}

#[test]
fn control_requests_and_errors_are_answered() {
    let mut runtime = runtime();
    match runtime.handle_request(1, Err("bad frame".into()), NOW, NOW_MS).reply {
        Some((1, WorkerReply::Error { message })) => assert_eq!(message, "protocol: bad frame"),
        other => panic!("{other:?}"),
    }
    match runtime.handle_request(2, Ok(request(WorkerCommand::Status)), NOW, NOW_MS).reply {
        Some((2, WorkerReply::Status(status))) => {
            assert!(status.handshake_match);
            assert_eq!(status.state, WorkerState::Loading);
            assert_eq!(status.provider, "cpu");
        }
        other => panic!("{other:?}"),
    }
    let mut stranger = request(embed_command(RequestClass::Query, "root"));
    stranger.handshake.build = "other".into();
    match runtime.handle_request(3, Ok(stranger), NOW, NOW_MS).reply {
        Some((3, WorkerReply::Error { message })) => {
            assert!(message.contains("handshake_mismatch"), "{message}")
        }
        other => panic!("{other:?}"),
    }
    assert!(matches!(
        runtime.handle_request(4, Ok(request(WorkerCommand::Stop)), NOW, NOW_MS).reply,
        Some((4, WorkerReply::Status(_)))
    ));
    assert!(runtime.stopping);
    assert!(WorkerRuntime::admit_reader(MAX_FRAME_READERS).is_err());
    assert_eq!(WorkerRuntime::admit_reader(3).unwrap(), 4);
}

// Reranking.

fn rerank_command(deadline_ms: u64) -> WorkerCommand {
    WorkerCommand::Rerank {
        root_id: "test-root".into(),
        query: "query".into(),
        documents: vec!["doc".into()],
        deadline_ms,
    }
}

fn queued_rerank(admission: &mut AdmissionController, deadline_ms: u64) -> QueuedConnection {
    let ticket = admission.try_admit(1, 8).unwrap();
    QueuedConnection { request: request(rerank_command(deadline_ms)), connection: 5, ticket }
}

fn error_message(reply: Option<(u64, WorkerReply)>) -> String {
    match reply {
        Some((_, WorkerReply::Error { message })) => message,
        other => panic!("expected Error reply, got {other:?}"),
    }
}

#[test]
fn queued_rerank_triggers_exactly_one_load() {
    let mut admission = AdmissionController::default();
    let mut lane = RerankLane::new(InferenceConfig::default());
    let item = queued_rerank(&mut admission, NOW_MS + 10_000);
    lane.enqueue(item);
    let outcome = lane.poll(&mut admission, NOW, NOW_MS).unwrap();

    assert!(lane.loading);
    assert!(outcome.load);
    assert!(lane.poll(&mut admission, NOW, NOW_MS).is_none());
}

#[test]
fn rerank_load_failure_sets_error_without_marking_loaded() {
    let mut admission = AdmissionController::default();
    let mut lane = RerankLane::new(InferenceConfig::default());
    let failed = RerankEvent::Loaded(Err("rerank_unavailable: no reranker".into()));
    lane.pump(&mut admission, failed, NOW, NOW_MS);

    let status = lane.status_fields();
    assert!(!status.loaded);
    assert_eq!(status.error.as_deref(), Some("rerank_unavailable: no reranker"));
}

#[test]
fn completed_rerank_event_writes_scores_reply() {
    let mut admission = AdmissionController::default();
    let mut lane = RerankLane::new(InferenceConfig::default());
    lane.loaded = true;
    let item = queued_rerank(&mut admission, NOW_MS + 10_000);
    lane.enqueue(item);
    let running = lane.poll(&mut admission, NOW, NOW_MS).unwrap().execute.unwrap();
    let done = RerankEvent::Completed {
        request: running.request,
        connection: running.connection,
        result: Ok(vec![0.5f32.to_bits(), 0.75f32.to_bits()]),
    };
    let mut replies = lane.pump(&mut admission, done, NOW, NOW_MS);
    assert_eq!(replies.len(), 1);
    match replies.pop() {
        Some((5, WorkerReply::Scores { values })) => {
            let scores: Vec<f32> = values.into_iter().map(f32::from_bits).collect();
            assert_eq!(scores, vec![0.5, 0.75])
        }
        other => panic!("expected Scores reply, got {other:?}"),
    }
    assert_eq!(admission.counts(), (0, 0, 0));
}

#[test]
fn admit_on_handshake_mismatch_replies_with_error() {
    let mut lane = RerankLane::new(InferenceConfig::default());
    let mut admission = AdmissionController::default();
    let asked = request(rerank_command(NOW_MS + 10_000));
    let outcome = lane.admit_request(&mut admission, false, asked, 1, NOW, NOW_MS);
    assert!(error_message(outcome.reply).contains("handshake_mismatch"));
}

#[test]
fn admit_on_admission_rejection_replies_with_error() {
    let mut lane = RerankLane::new(InferenceConfig::default());
    let mut admission = AdmissionController::new(AdmissionLimits {
        max_admitted: 1,
        max_raw_input_bytes: 4,
        max_inputs: 8,
    });
    let asked = request(rerank_command(NOW_MS + 10_000));
    let outcome = lane.admit_request(&mut admission, true, asked, 1, NOW, NOW_MS);
    assert!(error_message(outcome.reply).contains("semantic_admission"));
}

#[test]
fn admit_while_unloaded_replies_loading_and_starts_exactly_one_load() {
    let mut lane = RerankLane::new(InferenceConfig::default());
    let mut admission = AdmissionController::default();
    let asked = request(rerank_command(NOW_MS + 10_000));
    let outcome = lane.admit_request(&mut admission, true, asked, 1, NOW, NOW_MS);

    assert!(lane.loading);
    assert!(outcome.load);
    assert!(error_message(outcome.reply).contains("rerank_loading"));
    let asked = request(rerank_command(NOW_MS + 10_000));
    assert!(!lane.admit_request(&mut admission, true, asked, 2, NOW, NOW_MS).load);
}

#[test]
fn admit_with_expired_deadline_sends_no_reply_and_closes_the_stream() {
    let mut lane = RerankLane::new(InferenceConfig::default());
    let mut admission = AdmissionController::default();
    let outcome =
        lane.admit_request(&mut admission, true, request(rerank_command(1)), 1, NOW, NOW_MS);
    assert!(outcome.reply.is_none());
    assert_eq!(outcome.close, Some(1));
}

#[test]
fn disconnected_executor_events_channel_fails_load_and_drains_queue() {
    let mut admission = AdmissionController::default();
    let mut lane = RerankLane::new(InferenceConfig::default());
    lane.active = true;
    lane.loaded = true;
    let queued = queued_rerank(&mut admission, NOW_MS + 10_000);
    lane.enqueue(queued);

    let mut replies = lane.pump(&mut admission, RerankEvent::Disconnected, NOW, NOW_MS);
    assert!(!lane.active);
    assert!(!lane.loaded);
    let error = lane.load_error.as_deref().unwrap();
    assert!(error.contains("rerank_unavailable: rerank executor exited"));
    assert!(lane.queue.is_empty());
    assert_eq!(replies.len(), 1);
    assert!(error_message(replies.pop()).contains("rerank_unavailable: rerank executor exited"));

    // A later request sees the recorded failure and gets an error reply too.
    let asked = request(rerank_command(NOW_MS + 10_000));
    let outcome = lane.admit_request(&mut admission, true, asked, 1, NOW, NOW_MS);
    assert!(error_message(outcome.reply).contains("rerank_unavailable: rerank executor exited"));
}

#[test]
fn admit_during_retry_cooldown_replies_with_recorded_load_error() {
    let mut lane = RerankLane::new(InferenceConfig::default());
    let mut admission = AdmissionController::default();
    lane.record_load_failure("rerank_unavailable: no reranker configured".into(), NOW);
    let asked = request(rerank_command(NOW_MS + 10_000));
    let outcome = lane.admit_request(&mut admission, true, asked, 1, NOW, NOW_MS);

    // Still in cooldown, so no new load should have been started.
    assert!(!lane.loading);
    assert!(!outcome.load);
    assert_eq!(error_message(outcome.reply), "rerank_unavailable: no reranker configured");
}

#[test]
fn idle_unload_targets_only_the_rerank_lane() {
    let mut admission = AdmissionController::default();
    let mut lane = RerankLane::new(InferenceConfig::default());
    lane.pump(&mut admission, RerankEvent::Loaded(Ok(())), NOW, NOW_MS);
    assert!(lane.loaded);
    lane.last_used = Some(NOW - IDLE_UNLOAD);
    assert!(lane.unload_idle(NOW));
    assert!(!lane.loaded);
    assert!(!lane.unload_idle(NOW));
}

// The client's side.

fn moment() -> Moment {
    Moment { started: NOW, now: NOW, unix_now: 2_000_000_000 }
}

#[test]
fn requests_carry_the_deadline_of_their_budget() {
    let config = InferenceConfig::default();
    let pins = pins();
    let caller = Caller { pins: &pins, config: &config, serialized: b"config", root_id: b"/root" };
    assert_eq!(deadline_ms(moment(), QUERY_DEADLINE).unwrap(), 2_500);
    assert_eq!(EmbedKind::Background.budget(), BACKGROUND_DEADLINE);
    assert_eq!(EmbedKind::Background.class(), RequestClass::Background);
    let asked = client::embed_query(&caller, "query", moment()).unwrap();
    match asked.command {
        WorkerCommand::Embed { class, root_id, texts, deadline_ms } => {
            assert_eq!(class, RequestClass::Query);
            assert_eq!(root_id, "/root");
            assert_eq!(texts, ["query"]);
            assert_eq!(deadline_ms, 2_500);
        }
        other => panic!("{other:?}"),
    }
    let documents = vec!["doc".to_string()];
    let asked = client::rerank_query(&caller, &BOUNDS, "query", &documents, moment()).unwrap();
    match asked.command {
        WorkerCommand::Rerank { deadline_ms, .. } => {
            assert_eq!(deadline_ms, 2_000 + RERANK_DEADLINE / 1_000_000)
        }
        other => panic!("{other:?}"),
    }
    let many = vec!["x".to_string(); MAX_INPUTS + 1];
    assert!(client::embed(&caller, EmbedKind::Background, &many, moment()).is_err());
    let late = Moment { now: NOW + QUERY_DEADLINE, ..moment() };
    assert!(client::embed_query(&caller, "query", late).is_err());
}

fn no_worker(kind: IoKind) -> Exchange {
    Exchange::Unreached { failure: Failure::io("connect"), kind }
}

#[test]
fn only_an_absent_worker_is_started() {
    assert!(is_not_running(&[IoKind::Other, IoKind::NotFound]));
    assert!(is_not_running(&[IoKind::ConnectionRefused]));
    assert!(!is_not_running(&[IoKind::TimedOut]));
    assert!(matches!(embed_reply(no_worker(IoKind::NotFound)), Verdict::StartWorker(_)));
    assert!(matches!(embed_reply(no_worker(IoKind::TimedOut)), Verdict::Settled(Err(_))));
    match embed_reply(Exchange::Reply(WorkerReply::Embeddings { values: vec![vec![1]] })) {
        Verdict::Settled(Ok(values)) => assert_eq!(values, vec![vec![1]]),
        other => panic!("{other:?}"),
    }
    match rerank_reply(Exchange::Reply(WorkerReply::Error { message: "no".into() })) {
        Verdict::Settled(Err(failure)) => assert_eq!(failure.message, "rerank_worker: no"),
        other => panic!("{other:?}"),
    }
    match rerank_reply(Exchange::Reply(WorkerReply::Scores { values: vec![4] })) {
        Verdict::Settled(Ok(values)) => assert_eq!(values, [4]),
        other => panic!("{other:?}"),
    }
}

fn vector(word: u32) -> Embedding {
    Embedding(vec![word; DIMENSIONS])
}

#[test]
fn foreground_embedding_opens_checks_and_runs() {
    let texts = vec!["a".to_string()];
    let run = || Ok(vec![vector(3)]);
    assert_eq!(embed_foreground(Ok(()), &texts, run).unwrap(), vec![vector(3)]);
    let closed = embed_foreground(Err(Failure::new("closed")), &texts, run).unwrap_err();
    assert_eq!(closed.message, "closed");
    let many = vec!["x".to_string(); MAX_INPUTS + 1];
    assert!(embed_foreground(Ok(()), &many, run).is_err());
    assert_eq!(embed_foreground_query(Ok(()), "q", run).unwrap(), vector(3));
    assert!(query_embedding(Ok(Vec::new())).is_err());
    assert_eq!(query_embedding(Ok(vec![vector(1)])).unwrap(), vector(1));
}

#[test]
fn an_absent_worker_reports_not_running_and_is_started() {
    let config = InferenceConfig::default();
    let handshake = handshake(&config);
    let absent = WorkerStatus::not_running(&config, &handshake);
    assert_eq!(absent.state, WorkerState::NotRunning);
    let status = client::status(no_worker(IoKind::NotFound), &config, &handshake).unwrap();
    assert_eq!(status.state, WorkerState::NotRunning);
    assert!(client::status(no_worker(IoKind::Other), &config, &handshake).is_err());
    let stopped = client::stop(no_worker(IoKind::NotFound), &config, &handshake).unwrap();
    assert_eq!(stopped.state, WorkerState::NotRunning);
    match ensure_started(no_worker(IoKind::NotFound), &config, &handshake) {
        StartStep::Start(status) => assert_eq!(status.state, WorkerState::Loading),
        other => panic!("{other:?}"),
    }
    let running = WorkerReply::Status(WorkerStatus::loading(&config, &handshake));
    assert!(matches!(
        ensure_started(Exchange::Reply(running), &config, &handshake),
        StartStep::Running(_)
    ));
    assert!(ensure_started_until(no_worker(IoKind::NotFound), true, &config, &handshake).is_err());
}

#[test]
fn workers_see_the_devices_of_their_configuration() {
    let config = InferenceConfig {
        provider: InferenceProvider::Cuda,
        gpu_uuid: Some("GPU-a".into()),
        runtime_library: Some(b"/lib/onnx.so".to_vec()),
        ..Default::default()
    };
    let environment = worker_environment(&config);
    assert_eq!(environment.cuda_visible_devices.as_deref(), Some("GPU-a"));
    assert_eq!(environment.runtime_library.as_deref(), Some(&b"/lib/onnx.so"[..]));
}

#[test]
fn socket_waits_stay_within_the_deadline() {
    assert_eq!(remaining(NOW + 7, NOW).unwrap(), 7);
    assert!(remaining(NOW, NOW).is_err());
    assert_eq!(configure_io(NOW + IO_SLICE * 2, NOW).unwrap(), IO_SLICE);
    assert_eq!(configure_io(NOW + 5, NOW).unwrap(), 5);
    assert_eq!(poll_millis(1), 1);
    assert_eq!(poll_millis(3_000_000), 3);
    assert!(matches!(wait_for_connect(PollOutcome::Quiet), ConnectStep::Wait));
    assert!(matches!(
        wait_for_connect(PollOutcome::Failed { interrupted: true }),
        ConnectStep::Wait
    ));
    assert!(matches!(
        wait_for_connect(PollOutcome::Failed { interrupted: false }),
        ConnectStep::Fail
    ));
    assert!(matches!(
        wait_for_connect(PollOutcome::Event { invalid: true, decided: true }),
        ConnectStep::Invalid
    ));
    assert!(matches!(
        wait_for_connect(PollOutcome::Event { invalid: false, decided: true }),
        ConnectStep::Ask
    ));
    assert_eq!(unix_address_length(b"/tmp/s", 2, 108).unwrap(), 9);
    assert!(unix_address_length(&[b'a'; 108], 2, 108).is_err());
}

#[test]
fn one_worker_holds_the_lock_and_the_socket() {
    assert!(acquire(true, LockOutcome::Locked).is_ok());
    assert!(acquire(true, LockOutcome::Held).is_err());
    assert!(acquire(false, LockOutcome::Failed("io".into())).is_err());
    assert!(!clear_socket(SocketPlace::Nothing, "/s").unwrap());
    assert!(clear_socket(SocketPlace::Stale, "/s").unwrap());
    assert!(clear_socket(SocketPlace::Answered, "/s").is_err());
    assert!(clear_socket(SocketPlace::Other, "/s").is_err());
    assert!(clear_socket(SocketPlace::Unclear("x".into()), "/s").is_err());
    assert!(clear_socket(SocketPlace::Unknown("x".into()), "/s").is_err());
    assert!(worker_cache_dir(None, None).is_err());
    let from_home = worker_cache_dir(None, Some(b"/home/u".to_vec())).unwrap();
    assert!(from_home.starts_with(b"/home/u/.cache/"));
    let from_cache = worker_cache_dir(Some(b"/c".to_vec()), Some(b"/home/u".to_vec())).unwrap();
    assert!(from_cache.starts_with(b"/c/"));
}

#[test]
fn engines_need_their_model_directory() {
    let config = InferenceConfig { model_dir: Some(b"/m".to_vec()), ..Default::default() };
    assert_eq!(open_engine(&config, || Ok(Vec::new())).unwrap().model, b"/m");
    assert!(open_engine(&InferenceConfig::default(), || Ok(Vec::new())).is_err());
    assert!(open_rerank_engine(&config, || Ok(Vec::new())).is_err());
    assert_ne!(unserved(true, false), unserved(false, false));
}

#[test]
fn a_lost_rerank_executor_is_reported_and_loaded_again_later() {
    let mut admission = AdmissionController::default();
    let mut lane = RerankLane::new(InferenceConfig::default());
    lane.pump(&mut admission, RerankEvent::Loaded(Ok(())), NOW, NOW_MS);
    let queued = queued_rerank(&mut admission, NOW_MS + 10_000);
    lane.enqueue(queued);
    let running = lane.poll(&mut admission, NOW, NOW_MS).unwrap().execute.unwrap();
    assert_eq!(admission.counts().1, 1);

    let outcome = lane.executor_lost(&mut admission, running.connection, NOW);
    assert_eq!(error_message(outcome.reply), "rerank_unavailable: rerank executor exited");
    assert!(!lane.active && !lane.loaded);
    assert_eq!(admission.counts(), (0, 0, 0));

    lane.loader_lost(NOW);
    assert_eq!(lane.load_error.as_deref(), Some("rerank_unavailable: model loader exited"));
    assert!(!lane.loading);
}

#[test]
fn waits_double_up_to_thirty_seconds() {
    let mut retry = LoadRetry::default();
    let seconds = |halves: u64| halves * INITIAL_COOLDOWN;
    let mut now = NOW;
    for wait in [1, 2, 4, 8, 16, 32, 60, 60] {
        retry.failed(now);
        assert_eq!(retry.retry_at, Some(now + seconds(wait)));
        assert!(!retry.is_ready(now + seconds(wait) - 1));
        assert!(retry.is_ready(now + seconds(wait)));
        now += MAX_COOLDOWN;
    }
    assert_eq!(MAX_COOLDOWN, seconds(60));
}

#[test]
fn scheduler_drains_each_root_and_class_in_order() {
    let mut scheduler = FairScheduler::default();
    let added = [
        (RequestClass::Query, "a", 0),
        (RequestClass::Background, "a", 1),
        (RequestClass::Query, "b", 2),
        (RequestClass::Query, "a", 3),
        (RequestClass::Background, "b", 4),
        (RequestClass::Background, "a", 5),
        (RequestClass::Query, "b", 6),
    ];
    for (class, root, id) in added {
        scheduler.push(class, Item { root: root.into(), id });
    }
    assert_eq!(scheduler.pending(), added.len());
    let mut taken = Vec::new();
    while let Some(item) = scheduler.pop() {
        taken.push(item.id);
    }
    assert_eq!(scheduler.pending(), 0);
    for (class, root, _) in added {
        let ids = |order: Vec<usize>| -> Vec<usize> {
            let belongs = |id: &usize| added[*id].0 == class && added[*id].1 == root;
            order.into_iter().filter(belongs).collect()
        };
        assert_eq!(ids(taken.clone()), ids((0..added.len()).collect()));
    }
    taken.sort();
    assert_eq!(taken, (0..added.len()).collect::<Vec<_>>());
}
