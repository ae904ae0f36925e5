//! The reranking lane: its own queue and its own load and unload, apart from the
//! embedding model, so that both can run on separate devices.

use crate::semantic::pins;
use crate::semantic::runtime_config::InferenceConfig;
use crate::semantic::worker::admission;
use crate::semantic::worker::admission::{AdmissionController, InflightTicket};
use crate::semantic::worker::connection;
use crate::semantic::worker::connection::{Outcome, QueuedConnection, IDLE_UNLOAD};
use crate::semantic::worker::load_retry::{LoadRetry, MAX_COOLDOWN};
use crate::semantic::worker::protocol;
use crate::semantic::worker::protocol::{WorkerCommand, WorkerReply, WorkerRequest};
use crate::semantic::worker::status;
use std::collections::VecDeque;
use vstd::prelude::*;

verus! {

/// What the reranking executor reports.
#[derive(Debug)]
pub enum RerankEvent {
    Loaded(Result<(), String>),
    Completed { request: WorkerRequest, connection: u64, result: Result<Vec<u32>, String> },
    Unloaded,
    /// The executor is gone.
    Disconnected,
}

/// What the status of the worker says of reranking.
#[derive(Debug)]
pub struct RerankStatusFields {
    pub loaded: bool,
    pub gpu_uuid: Option<String>,
    pub error: Option<String>,
    pub pending: usize,
}

#[derive(Debug)]
pub struct RerankLane {
    pub config: InferenceConfig,
    pub queue: VecDeque<QueuedConnection>,
    pub loading: bool,
    pub loaded: bool,
    pub load_error: Option<String>,
    pub load_retry: LoadRetry,
    pub active: bool,
    pub inflight: Option<InflightTicket>,
    pub last_used: Option<u64>,
}

/// How many tickets an optional one is.
pub open spec fn ticket_count(ticket: Option<InflightTicket>) -> int {
    if ticket is Some {
        1
    } else {
        0
    }
}

/// A controller after an optional ticket of a batch in flight was given back.
pub open spec fn ended_if(
    controller: AdmissionController,
    ticket: Option<InflightTicket>,
) -> AdmissionController {
    match ticket {
        Some(ticket) => controller.ended(ticket.raw_input_bytes as int),
        None => controller,
    }
}

/// Whether a command asks for reranking and its texts can be counted.
pub open spec fn reranks(command: WorkerCommand) -> bool {
    command matches WorkerCommand::Rerank { query, documents, .. } && pins::byte_len(query@)
        + protocol::total_bytes(documents@) <= usize::MAX
}

/// The bytes that a reranking command holds.
pub open spec fn rerank_bytes(command: WorkerCommand) -> int {
    match command {
        WorkerCommand::Rerank { query, documents, .. } => (pins::byte_len(query@)
            + protocol::total_bytes(documents@)) as int,
        _ => 0,
    }
}

impl RerankLane {
    /// The lane can count its waits, and its ticket tells whether it works.
    pub open spec fn well_formed(self) -> bool {
        &&& self.load_retry.well_formed()
        &&& self.inflight is Some ==> self.active
    }

    /// Whether a failed load keeps the lane from trying another.
    pub open spec fn cooling(self, now: u64) -> bool {
        self.load_error is Some && !self.load_retry.ready(now)
    }

    /// The lane after a load failed at `now`, up to the words of the failure.
    pub open spec fn failed_load(self, before: RerankLane, error: Seq<char>, now: u64) -> bool {
        &&& !self.loading
        &&& !self.loaded
        &&& self.load_error is Some
        &&& self.load_error->0@ == error
        &&& self.load_retry == before.load_retry.after_failure(now)
        &&& self.config == before.config
    }

    /// Whether this is a lane that has not worked yet. Where a reranker is configured, its load
    /// is under way.
    pub open spec fn starts(self, config: InferenceConfig) -> bool {
        &&& self.config == config
        &&& self.queue@.len() == 0
        &&& self.loading == config.rerank_model_dir is Some
        &&& !self.loaded
        &&& self.load_error is None
        &&& self.load_retry.fresh()
        &&& !self.active
        &&& self.inflight is None
        &&& self.last_used is None
    }

    /// A lane without work. Where a reranker is configured its load is due at once, so that
    /// the first request need not wait for a load that it started itself.
    pub fn new(config: InferenceConfig) -> (lane: Self)
        ensures
            lane.well_formed(),
            lane.starts(config),
    {
        let loading = config.rerank_enabled();
        RerankLane {
            config,
            queue: VecDeque::new(),
            loading,
            loaded: false,
            load_error: None,
            load_retry: LoadRetry::default(),
            active: false,
            inflight: None,
            last_used: None,
        }
    }

    /// Queues a request behind those that wait.
    pub fn enqueue(&mut self, item: QueuedConnection)
        ensures
            final(self).queue@ == old(self).queue@.push(item),
            *final(self) == (RerankLane { queue: final(self).queue, ..*old(self) }),
    {
        self.queue.push_back(item);
    }

    /// Whether `outcome` and `after` are what becomes of a reranking request.
    ///
    /// It is refused on a handshake that does not match, dropped when its deadline has
    /// passed, and refused when it is not admitted. While the reranker is not loaded it is
    /// refused too, rather than kept past its deadline, and a load is started unless one
    /// runs or a failed one is cooling down. Otherwise it is queued.
    pub open spec fn admits(
        self,
        controller: AdmissionController,
        handshake_match: bool,
        request: WorkerRequest,
        connection: u64,
        now: u64,
        now_ms: u64,
        outcome: Outcome,
        after: RerankLane,
        controlled: AdmissionController,
    ) -> bool {
        let bytes = rerank_bytes(request.command);
        let refused = admission::refusal(controller, 1, bytes as usize);
        if !handshake_match {
            &&& outcome.refuses(
                connection,
                "handshake_mismatch: protocol, build, config, or model changed"@,
                false,
            )
            &&& after == self
            &&& controlled == controller
        } else if now_ms >= connection::command_deadline(request.command) {
            &&& outcome.closes(connection)
            &&& after == self
            &&& controlled == controller
        } else if refused is Some {
            &&& outcome.refuses(connection, refused->0, false)
            &&& after == self
            &&& controlled == controller
        } else if !self.loaded {
            let load = !self.loading && !self.cooling(now);
            let message = if self.cooling(now) {
                self.load_error->0@
            } else {
                "rerank_loading: reranker is loading"@
            };
            &&& outcome.refuses(connection, message, load)
            &&& after == (RerankLane { loading: self.loading || load, ..self })
            &&& controlled == controller
        } else {
            &&& outcome.quiet(false)
            &&& after == (RerankLane { queue: after.queue, ..self })
            &&& after.queue@.len() == self.queue@.len() + 1
            &&& after.queue@.drop_last() == self.queue@
            &&& after.queue@.last().request == request
            &&& after.queue@.last().connection == connection
            &&& after.queue@.last().ticket.raw_input_bytes == bytes
            &&& controlled == controller.with_queued(bytes)
        }
    }

    /// Takes a reranking request in. The controller is the one that the embedding lane
    /// uses too.
    pub fn admit_request(
        &mut self,
        controller: &mut AdmissionController,
        handshake_match: bool,
        request: WorkerRequest,
        connection: u64,
        now: u64,
        now_ms: u64,
    ) -> (outcome: Outcome)
        requires
            old(controller).well_formed(),
            reranks(request.command),
        ensures
            final(controller).well_formed(),
            old(self).admits(
                *old(controller),
                handshake_match,
                request,
                connection,
                now,
                now_ms,
                outcome,
                *final(self),
                *final(controller),
            ),
    {
        let (bytes, deadline_ms): (usize, u64) = match &request.command {
            WorkerCommand::Rerank { query, documents, deadline_ms, .. } => (
                query.as_str().as_bytes().len() + protocol::raw_input_bytes(documents.as_slice()),
                *deadline_ms,
            ),
            _ => (0, 0),
        };
        if !handshake_match {
            return Outcome::refusal(
                connection,
                "handshake_mismatch: protocol, build, config, or model changed".to_owned(),
                false,
            );
        }
        if now_ms >= deadline_ms {
            return Outcome::closing(connection);
        }
        let ticket = match controller.try_admit(1, bytes) {
            Ok(ticket) => ticket,
            Err(failure) => {
                return Outcome::refusal(connection, failure.message, false);
            },
        };
        if !self.loaded {
            let cooling = self.load_error.is_some() && !self.load_retry.is_ready(now);
            let load = !self.loading && !cooling;
            let message = match &self.load_error {
                Some(error) if cooling => error.clone(),
                _ => "rerank_loading: reranker is loading".to_owned(),
            };
            controller.release(ticket);
            if load {
                self.loading = true;
            }
            return Outcome::refusal(connection, message, load);
        }
        self.enqueue(QueuedConnection { request, connection, ticket });
        assert(self.queue@.drop_last() =~= old(self).queue@);
        Outcome::nothing(false)
    }

    /// How many requests wait or are worked on.
    pub fn pending(&self) -> (count: usize)
        requires
            self.queue@.len() < usize::MAX,
        ensures
            count == self.queue@.len() + if self.active {
                1int
            } else {
                0
            },
    {
        if self.active {
            self.queue.len() + 1
        } else {
            self.queue.len()
        }
    }

    /// Whether the lane may take the next request from its queue.
    pub open spec fn idle(self) -> bool {
        !self.active && (!self.loading || self.loaded)
    }

    /// Takes the next request from the queue when the lane is idle. Without one, or while
    /// the lane is not idle, nothing happens.
    pub fn poll(
        &mut self,
        controller: &mut AdmissionController,
        now: u64,
        now_ms: u64,
    ) -> (outcome: Option<Outcome>)
        requires
            old(self).well_formed(),
            old(controller).well_formed(),
            old(controller).queued >= old(self).queue@.len(),
        ensures
            final(self).well_formed(),
            final(controller).well_formed(),
            match outcome {
                None => {
                    &&& !old(self).idle() || old(self).queue@.len() == 0
                    &&& *final(self) == *old(self)
                    &&& *final(controller) == *old(controller)
                },
                Some(outcome) => {
                    &&& old(self).idle() && old(self).queue@.len() > 0
                    &&& exists|taken: RerankLane|
                        {
                            &&& taken == (RerankLane { queue: taken.queue, ..*old(self) })
                            &&& taken.queue@ == old(self).queue@.drop_first()
                            &&& #[trigger] taken.processes(
                                *old(controller),
                                old(self).queue@[0],
                                now,
                                now_ms,
                                outcome,
                                *final(self),
                                *final(controller),
                            )
                        }
                },
            },
    {
        if self.active || (self.loading && !self.loaded) || self.queue.len() == 0 {
            return None;
        }
        match self.queue.pop_front() {
            None => None,
            Some(item) => {
                let ghost taken = *self;
                let outcome = self.process_at(controller, item, now, now_ms);
                assert(taken.processes(
                    *old(controller),
                    old(self).queue@[0],
                    now,
                    now_ms,
                    outcome,
                    *self,
                    *controller,
                ));
                Some(outcome)
            },
        }
    }

    /// Whether `outcome` and `after` are what becomes of a request whose turn it is.
    pub open spec fn processes(
        self,
        controller: AdmissionController,
        item: QueuedConnection,
        now: u64,
        now_ms: u64,
        outcome: Outcome,
        after: RerankLane,
        controlled: AdmissionController,
    ) -> bool {
        let bytes = item.ticket.raw_input_bytes as int;
        if !(item.request.command is Rerank) || now_ms >= connection::command_deadline(
            item.request.command,
        ) {
            &&& outcome.closes(item.connection)
            &&& after == self
            &&& controlled == controller.released(bytes)
        } else if self.cooling(now) {
            &&& outcome.refuses(item.connection, self.load_error->0@, false)
            &&& after == self
            &&& controlled == controller.released(bytes)
        } else if !self.loaded {
            &&& outcome.quiet(!self.loading)
            &&& after == (RerankLane { loading: true, queue: after.queue, ..self })
            &&& after.queue@ == seq![item] + self.queue@
            &&& controlled == controller
        } else {
            &&& outcome.runs(item.request, item.connection)
            &&& after == (RerankLane {
                active: true,
                inflight: Some(InflightTicket { raw_input_bytes: item.ticket.raw_input_bytes }),
                ..self
            })
            &&& controlled == controller.begun()
        }
    }

    /// Serves a request whose turn it is.
    pub fn process_at(
        &mut self,
        controller: &mut AdmissionController,
        item: QueuedConnection,
        now: u64,
        now_ms: u64,
    ) -> (outcome: Outcome)
        requires
            old(self).well_formed(),
            !old(self).active,
            old(controller).well_formed(),
            old(controller).queued > 0,
        ensures
            final(self).well_formed(),
            final(controller).well_formed(),
            old(self).processes(
                *old(controller),
                item,
                now,
                now_ms,
                outcome,
                *final(self),
                *final(controller),
            ),
    {
        let expired = match &item.request.command {
            WorkerCommand::Rerank { deadline_ms, .. } => now_ms >= *deadline_ms,
            _ => true,
        };
        if expired {
            controller.release(item.ticket);
            return Outcome::closing(item.connection);
        }
        match &self.load_error {
            Some(error) => {
                if !self.load_retry.is_ready(now) {
                    let message = error.clone();
                    controller.release(item.ticket);
                    return Outcome::refusal(item.connection, message, false);
                }
            },
            None => {},
        }
        if !self.loaded {
            let load = !self.loading;
            self.loading = true;
            let ghost waiting = self.queue@;
            self.queue.push_front(item);
            assert(self.queue@ =~= seq![item] + waiting);
            return Outcome::nothing(load);
        }
        let inflight = item.ticket.begin(controller);
        self.active = true;
        self.inflight = Some(inflight);
        Outcome::running(item.request, item.connection)
    }

    /// Notes that the request at `connection` could not be handed to the executor, which is
    /// gone.
    pub fn executor_lost(
        &mut self,
        controller: &mut AdmissionController,
        connection: u64,
        now: u64,
    ) -> (outcome: Outcome)
        requires
            old(self).well_formed(),
            old(controller).well_formed(),
            now <= u64::MAX - MAX_COOLDOWN,
        ensures
            final(self).well_formed(),
            final(controller).well_formed(),
            !final(self).active,
            final(self).inflight is None,
            final(self).queue == old(self).queue,
            final(self).last_used == old(self).last_used,
            final(self).failed_load(
                *old(self),
                "rerank_unavailable: rerank executor exited"@,
                now,
            ),
            *final(controller) == ended_if(*old(controller), old(self).inflight),
            outcome.refuses(connection, "rerank_unavailable: rerank executor exited"@, false),
    {
        self.end_work(controller);
        self.record_load_failure("rerank_unavailable: rerank executor exited".to_owned(), now);
        Outcome::refusal(
            connection,
            "rerank_unavailable: rerank executor exited".to_owned(),
            false,
        )
    }

    fn end_work(&mut self, controller: &mut AdmissionController)
        requires
            old(controller).well_formed(),
        ensures
            final(controller).well_formed(),
            *final(self) == (RerankLane { active: false, inflight: None, ..*old(self) }),
            *final(controller) == ended_if(*old(controller), old(self).inflight),
    {
        self.active = false;
        match self.inflight.take() {
            Some(ticket) => controller.release_inflight(ticket),
            None => {},
        }
    }

    /// Notes that a load failed at `now`.
    pub fn record_load_failure(&mut self, error: String, now: u64)
        requires
            old(self).well_formed(),
            now <= u64::MAX - MAX_COOLDOWN,
        ensures
            final(self).well_formed(),
            final(self).failed_load(*old(self), error@, now),
            *final(self) == (RerankLane {
                loading: false,
                loaded: false,
                load_error: Some(error),
                load_retry: old(self).load_retry.after_failure(now),
                ..*old(self)
            }),
    {
        self.loading = false;
        self.loaded = false;
        self.load_error = Some(error);
        self.load_retry.failed(now);
    }

    /// Notes that the reranker cannot be loaded because the executor is gone.
    pub fn loader_lost(&mut self, now: u64)
        requires
            old(self).well_formed(),
            now <= u64::MAX - MAX_COOLDOWN,
        ensures
            final(self).well_formed(),
            final(self).failed_load(
                *old(self),
                "rerank_unavailable: model loader exited"@,
                now,
            ),
            *final(self) == (RerankLane {
                loading: false,
                loaded: false,
                load_error: final(self).load_error,
                load_retry: old(self).load_retry.after_failure(now),
                ..*old(self)
            }),
    {
        self.record_load_failure("rerank_unavailable: model loader exited".to_owned(), now);
    }

    /// Whether `replies` and `after` are what becomes of a report of the executor.
    pub open spec fn pumps(
        self,
        controller: AdmissionController,
        event: RerankEvent,
        now: u64,
        now_ms: u64,
        replies: Seq<(u64, WorkerReply)>,
        after: RerankLane,
        controlled: AdmissionController,
    ) -> bool {
        match event {
            RerankEvent::Loaded(Ok(_)) => {
                &&& replies.len() == 0
                &&& after.load_retry.fresh()
                &&& after == (RerankLane {
                    loading: false,
                    loaded: true,
                    load_error: None,
                    load_retry: after.load_retry,
                    last_used: Some(now),
                    ..self
                })
                &&& controlled == controller
            },
            RerankEvent::Loaded(Err(error)) => {
                &&& replies.len() == 0
                &&& after == (RerankLane {
                    loading: false,
                    loaded: false,
                    load_error: Some(error),
                    load_retry: self.load_retry.after_failure(now),
                    ..self
                })
                &&& controlled == controller
            },
            RerankEvent::Completed { request, connection, result } => {
                &&& after == (RerankLane {
                    active: false,
                    inflight: None,
                    last_used: Some(now),
                    ..self
                })
                &&& controlled == ended_if(controller, self.inflight)
                &&& if request.command is Rerank && now_ms < connection::command_deadline(
                    request.command,
                ) {
                    &&& replies.len() == 1
                    &&& replies[0].0 == connection
                    &&& match result {
                        Ok(values) => replies[0].1 == (WorkerReply::Scores { values }),
                        Err(error) => replies[0].1 == (WorkerReply::Error { message: error }),
                    }
                } else {
                    replies.len() == 0
                }
            },
            RerankEvent::Unloaded => {
                &&& replies.len() == 0
                &&& after == (RerankLane { loaded: false, ..self })
                &&& controlled == controller
            },
            RerankEvent::Disconnected => {
                &&& after.failed_load(self, "rerank_unavailable: rerank executor exited"@, now)
                &&& !after.active
                &&& after.inflight is None
                &&& after.queue@.len() == 0
                &&& after.last_used == self.last_used
                &&& replies.len() == self.queue@.len()
                &&& forall|i: int|
                    0 <= i < replies.len() ==> (#[trigger] replies[i]).0
                        == self.queue@[i].connection && connection::is_error(
                        replies[i].1,
                        "rerank_unavailable: rerank executor exited"@,
                    )
                &&& controlled == released_all(
                    ended_if(controller, self.inflight),
                    self.queue@,
                    self.queue@.len() as int,
                )
            },
        }
    }

    /// Takes in a report of the executor; the answers are to be sent in order. An answer
    /// whose deadline has passed is not sent.
    pub fn pump(
        &mut self,
        controller: &mut AdmissionController,
        event: RerankEvent,
        now: u64,
        now_ms: u64,
    ) -> (replies: Vec<(u64, WorkerReply)>)
        requires
            old(self).well_formed(),
            old(controller).well_formed(),
            now <= u64::MAX - MAX_COOLDOWN,
        ensures
            final(self).well_formed(),
            final(controller).well_formed(),
            old(self).pumps(
                *old(controller),
                event,
                now,
                now_ms,
                replies@,
                *final(self),
                *final(controller),
            ),
    {
        let mut replies: Vec<(u64, WorkerReply)> = Vec::new();
        match event {
            RerankEvent::Loaded(Ok(_)) => {
                self.loading = false;
                self.loaded = true;
                self.load_retry.succeeded();
                self.load_error = None;
                self.last_used = Some(now);
            },
            RerankEvent::Loaded(Err(error)) => {
                self.record_load_failure(error, now);
            },
            RerankEvent::Completed { request, connection, result } => {
                self.end_work(controller);
                self.last_used = Some(now);
                let deadline_ms: u64 = match request.command {
                    WorkerCommand::Rerank { deadline_ms, .. } => deadline_ms,
                    _ => 0,
                };
                if now_ms < deadline_ms {
                    match result {
                        Ok(values) => replies.push((connection, WorkerReply::Scores { values })),
                        Err(message) => replies.push((connection, WorkerReply::Error { message })),
                    }
                }
            },
            RerankEvent::Unloaded => {
                self.loaded = false;
            },
            RerankEvent::Disconnected => {
                self.end_work(controller);
                self.record_load_failure(
                    "rerank_unavailable: rerank executor exited".to_owned(),
                    now,
                );
                return self.drain_queue_with_error(controller);
            },
        }
        replies
    }

    /// Answers every queued request with the recorded failure and gives its ticket back.
    fn drain_queue_with_error(&mut self, controller: &mut AdmissionController) -> (replies: Vec<
        (u64, WorkerReply),
    >)
        requires
            old(self).load_error is Some,
            old(controller).well_formed(),
        ensures
            final(controller).well_formed(),
            *final(self) == (RerankLane { queue: final(self).queue, ..*old(self) }),
            final(self).queue@.len() == 0,
            replies.len() == old(self).queue@.len(),
            forall|i: int|
                0 <= i < replies.len() ==> (#[trigger] replies@[i]).0
                    == old(self).queue@[i].connection && connection::is_error(
                    replies@[i].1,
                    old(self).load_error->0@,
                ),
            *final(controller) == released_all(
                *old(controller),
                old(self).queue@,
                old(self).queue@.len() as int,
            ),
    {
        let ghost waiting = self.queue@;
        let ghost total = waiting.len();
        let mut replies: Vec<(u64, WorkerReply)> = Vec::new();
        assert(waiting.subrange(0, total as int) =~= waiting);
        loop
            invariant
                waiting == old(self).queue@,
                total == waiting.len(),
                replies.len() <= total,
                self.queue@ == waiting.subrange(replies.len() as int, total as int),
                *self == (RerankLane { queue: self.queue, ..*old(self) }),
                old(self).load_error is Some,
                controller.well_formed(),
                *controller == released_all(*old(controller), waiting, replies.len() as int),
                forall|i: int|
                    0 <= i < replies.len() ==> (#[trigger] replies@[i]).0 == waiting[i].connection
                        && connection::is_error(replies@[i].1, old(self).load_error->0@),
            ensures
                replies.len() == total,
                self.queue@.len() == 0,
            decreases self.queue@.len(),
        {
            match self.queue.pop_front() {
                None => {
                    break;
                },
                Some(item) => {
                    assert(item == waiting[replies.len() as int]);
                    let message = match &self.load_error {
                        Some(error) => error.clone(),
                        None => String::new(),
                    };
                    let connection = item.connection;
                    controller.release(item.ticket);
                    replies.push((connection, WorkerReply::Error { message }));
                    assert(self.queue@ =~= waiting.subrange(replies.len() as int, total as int));
                },
            }
        }
        replies
    }

    /// Unloads the reranker once it has been idle for long enough; whether it is to be
    /// unloaded now.
    pub fn unload_idle(&mut self, now: u64) -> (unload: bool)
        ensures
            unload == (old(self).queue@.len() == 0 && !old(self).loading && !old(self).active
                && old(self).loaded && (old(self).last_used matches Some(used) && now
                >= used + IDLE_UNLOAD)),
            *final(self) == if unload {
                RerankLane { loaded: false, last_used: None, ..*old(self) }
            } else {
                *old(self)
            },
    {
        if self.queue.len() != 0 || self.loading || self.active || !self.loaded {
            return false;
        }
        match self.last_used {
            Some(used) => {
                if now >= used && now - used >= IDLE_UNLOAD {
                    self.loaded = false;
                    self.last_used = None;
                    return true;
                }
                false
            },
            None => false,
        }
    }

    /// What the status of the worker says of reranking.
    pub fn status_fields(&self) -> (fields: RerankStatusFields)
        requires
            self.queue@.len() < usize::MAX,
        ensures
            fields.loaded == self.loaded,
            status::same_option(fields.gpu_uuid, status::rerank_device(self.config)),
            status::same_option(fields.error, self.load_error),
            fields.pending == self.queue@.len() + if self.active {
                1int
            } else {
                0
            },
    {
        RerankStatusFields {
            loaded: self.loaded,
            gpu_uuid: status::rerank_device_of(&self.config),
            error: self.load_error.clone(),
            pending: self.pending(),
        }
    }
}

/// A controller after the tickets of the first `n` of the queued requests were given back.
pub open spec fn released_all(
    controller: AdmissionController,
    queue: Seq<QueuedConnection>,
    n: int,
) -> AdmissionController
    decreases n,
{
    if n <= 0 {
        controller
    } else {
        released_all(controller, queue, n - 1).released(
            queue[n - 1].ticket.raw_input_bytes as int,
        )
    }
}

} // verus!
