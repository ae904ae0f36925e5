//! The worker itself: which requests it takes, when it loads and unloads its model, and
//! what it answers.

use crate::semantic::runtime_config::InferenceConfig;
use crate::semantic::worker::admission;
use crate::semantic::worker::admission::{AdmissionController, InflightTicket, MAX_ADMITTED};
use crate::semantic::worker::connection;
use crate::semantic::worker::connection::{Outcome, QueuedConnection, IDLE_UNLOAD};
use crate::semantic::worker::load_retry::{LoadRetry, MAX_COOLDOWN};
use crate::semantic::worker::protocol;
use crate::semantic::worker::protocol::{Handshake, WorkerCommand, WorkerReply, WorkerRequest};
use crate::semantic::worker::rerank_executor;
use crate::semantic::worker::rerank_executor::RerankLane;
use crate::semantic::worker::root_set::RootSet;
use crate::semantic::worker::scheduler::{FairScheduler, RequestClass, SchedulerView};
use crate::semantic::worker::status;
use crate::semantic::worker::status::{WorkerState, WorkerStatus};
use vstd::prelude::*;
use vstd::string::StringExecFns;

verus! {

/// No more clients than this may be sending a request at once.
pub const MAX_FRAME_READERS: usize = 64;

/// What the embedding executor reports.
#[derive(Debug)]
pub enum ExecutorEvent {
    Loaded(Result<(), String>),
    Completed { request: WorkerRequest, connection: u64, result: Result<Vec<Vec<u32>>, String> },
    Unloaded,
    /// The executor is gone.
    Disconnected,
}

pub struct WorkerRuntime {
    pub config: InferenceConfig,
    pub handshake: Handshake,
    /// The handshake that its configuration comes to.
    pub config_handshake: Handshake,
    pub admission: AdmissionController,
    pub scheduler: FairScheduler<QueuedConnection>,
    pub background_roots: RootSet,
    pub last_used: Option<u64>,
    pub loading: bool,
    pub engine_loaded: bool,
    pub load_error: Option<String>,
    pub load_retry: LoadRetry,
    pub active: bool,
    pub inflight: Option<InflightTicket>,
    pub rerank: RerankLane,
    pub stopping: bool,
}

/// Whether the queues hold what they should: requests for embeddings, each with the root
/// and class of its queue, and at most one background request for each root, which is then
/// noted as busy.
pub open spec fn queues_hold(
    view: SchedulerView<QueuedConnection>,
    busy: Set<Seq<char>>,
) -> bool {
    forall|i: int| 0 <= i < view.roots.len() ==> #[trigger] queue_holds(view, busy, i)
}

pub open spec fn queue_holds(
    view: SchedulerView<QueuedConnection>,
    busy: Set<Seq<char>>,
    i: int,
) -> bool {
    let root = view.roots[i];
    &&& forall|k: int|
        0 <= k < root.query.len() ==> connection::embeds(
            (#[trigger] root.query[k]).request.command,
            RequestClass::Query,
            root.root,
        )
    &&& root.background.len() <= 1
    &&& root.background.len() == 1 ==> {
        &&& connection::embeds(
            root.background[0].request.command,
            RequestClass::Background,
            root.root,
        )
        &&& busy.contains(root.root)
    }
}

/// Whether no background request for a root waits.
pub open spec fn none_waits(view: SchedulerView<QueuedConnection>, root: Seq<char>) -> bool {
    forall|i: int|
        0 <= i < view.roots.len() && (#[trigger] view.roots[i]).root == root
            ==> view.roots[i].background.len() == 0
}

impl WorkerRuntime {
    /// What holds of the runtime, apart from `held` requests that were taken from the queue
    /// and not dealt with yet: the queues hold what they should, and every ticket that is
    /// out belongs to a request that waits or is worked on.
    pub open spec fn holds(self, held: int) -> bool {
        &&& self.admission.well_formed()
        &&& self.admission.limits.max_admitted <= MAX_ADMITTED
        &&& self.scheduler@.well_formed()
        &&& queues_hold(self.scheduler@, self.background_roots@)
        &&& self.load_retry.well_formed()
        &&& self.inflight is Some ==> self.active
        &&& self.rerank.well_formed()
        &&& self.admission.queued == self.scheduler@.pending() + self.rerank.queue@.len() + held
        &&& self.admission.inflight == rerank_executor::ticket_count(self.inflight)
            + rerank_executor::ticket_count(self.rerank.inflight)
    }

    pub open spec fn well_formed(self) -> bool {
        self.holds(0)
    }

    /// Two runtimes differ at most in their queues, their tickets and the roots noted as
    /// busy.
    pub open spec fn same_state(self, other: WorkerRuntime) -> bool {
        &&& self.config == other.config
        &&& self.handshake == other.handshake
        &&& self.config_handshake == other.config_handshake
        &&& self.last_used == other.last_used
        &&& self.loading == other.loading
        &&& self.engine_loaded == other.engine_loaded
        &&& self.load_error == other.load_error
        &&& self.load_retry == other.load_retry
        &&& self.active == other.active
        &&& self.inflight == other.inflight
        &&& self.rerank == other.rerank
        &&& self.stopping == other.stopping
    }

    /// Whether a failed load keeps the worker from trying another.
    pub open spec fn cooling(self, now: u64) -> bool {
        self.load_error is Some && !self.load_retry.ready(now)
    }

    /// Whether the worker may take the next request from its queue.
    pub open spec fn idle(self) -> bool {
        !self.stopping && !self.active && (!self.loading || self.engine_loaded)
    }

    /// Whether `status` describes the worker to a client.
    pub open spec fn describes(self, handshake_match: bool, status: WorkerStatus) -> bool {
        &&& status.state == if !self.loading && self.engine_loaded {
            WorkerState::Ready
        } else {
            WorkerState::Loading
        }
        &&& status.provider@ == self.config.provider.name()
        &&& status::same_option(status.gpu_uuid, self.config.gpu_uuid)
        &&& status.pending == self.scheduler@.pending() + if self.active {
            1int
        } else {
            0
        }
        &&& status.loaded == self.engine_loaded
        &&& status.config_fingerprint@ == self.handshake.config@
        &&& status.model_fingerprint@ == self.handshake.model@
        &&& status.handshake_match == handshake_match
        &&& status::same_option(status.error, self.load_error)
        &&& status.rerank_loaded == self.rerank.loaded
        &&& status::same_option(
            status.rerank_gpu_uuid,
            status::rerank_device(self.rerank.config),
        )
        &&& status::same_option(status.rerank_error, self.rerank.load_error)
        &&& status.rerank_pending == self.rerank.queue@.len() + if self.rerank.active {
            1int
        } else {
            0
        }
    }

    /// A worker without work, which answers clients with its handshake; `config_handshake` is
    /// the one that its configuration comes to. Its model is loaded with the first request for
    /// it.
    pub fn new(
        config: InferenceConfig,
        rerank_config: InferenceConfig,
        handshake: Handshake,
        config_handshake: Handshake,
    ) -> (runtime: Self)
        ensures
            runtime.well_formed(),
            runtime.config == config,
            runtime.handshake == handshake,
            runtime.config_handshake == config_handshake,
            runtime.scheduler@.pending() == 0,
            runtime.scheduler@.query_turns == 0,
            runtime.background_roots@ == Set::<Seq<char>>::empty(),
            runtime.last_used is None,
            !runtime.loading,
            !runtime.engine_loaded,
            runtime.load_error is None,
            runtime.load_retry.fresh(),
            !runtime.active,
            runtime.inflight is None,
            !runtime.stopping,
            runtime.rerank.starts(rerank_config),
            runtime.admission.queued == 0,
            runtime.admission.inflight == 0,
            runtime.admission.raw_input_bytes == 0,
            runtime.admission.limits.max_admitted == MAX_ADMITTED,
            runtime.admission.limits.max_raw_input_bytes == protocol::MAX_RAW_INPUT_BYTES,
            runtime.admission.limits.max_inputs == protocol::MAX_INPUTS,
    {
        WorkerRuntime {
            config,
            handshake,
            config_handshake,
            admission: AdmissionController::default(),
            scheduler: FairScheduler::default(),
            background_roots: RootSet::new(),
            last_used: None,
            loading: false,
            engine_loaded: false,
            load_error: None,
            load_retry: LoadRetry::default(),
            active: false,
            inflight: None,
            rerank: RerankLane::new(rerank_config),
            stopping: false,
        }
    }

    /// Whether one more client may start sending a request when `readers` are; if so, how
    /// many there are then.
    pub fn admit_reader(readers: usize) -> (result: Result<usize, WorkerReply>)
        ensures
            match result {
                Ok(count) => readers < MAX_FRAME_READERS && count == readers + 1,
                Err(reply) => readers >= MAX_FRAME_READERS && connection::is_error(
                    reply,
                    "semantic_admission: too many frame readers"@,
                ),
            },
    {
        if readers < MAX_FRAME_READERS {
            Ok(readers + 1)
        } else {
            Err(
                WorkerReply::Error {
                    message: "semantic_admission: too many frame readers".to_owned(),
                },
            )
        }
    }

    /// What the worker says of itself.
    pub fn status(&self, handshake_match: bool) -> (status: WorkerStatus)
        requires
            self.well_formed(),
        ensures
            self.describes(handshake_match, status),
    {
        let rerank = self.rerank.status_fields();
        let waiting: usize = self.scheduler.pending();
        WorkerStatus {
            state: if !self.loading && self.engine_loaded {
                WorkerState::Ready
            } else {
                WorkerState::Loading
            },
            provider: self.config.provider.as_str().to_owned(),
            gpu_uuid: self.config.gpu_uuid.clone(),
            pending: if self.active {
                waiting + 1
            } else {
                waiting
            },
            loaded: self.engine_loaded,
            config_fingerprint: self.handshake.config.clone(),
            model_fingerprint: self.handshake.model.clone(),
            handshake_match,
            error: self.load_error.clone(),
            rerank_loaded: rerank.loaded,
            rerank_gpu_uuid: rerank.gpu_uuid,
            rerank_error: rerank.error,
            rerank_pending: rerank.pending,
        }
    }
}

/// Whether `after` is the runtime with a request for embeddings added to its queue.
pub open spec fn embedding_queued(
    before: WorkerRuntime,
    after: WorkerRuntime,
    request: WorkerRequest,
    connection: u64,
    class: RequestClass,
    root: Seq<char>,
    bytes: int,
) -> bool {
    &&& after.same_state(before)
    &&& after.admission == before.admission.with_queued(bytes)
    &&& after.background_roots@ == if class == RequestClass::Background {
        before.background_roots@.insert(root)
    } else {
        before.background_roots@
    }
    &&& exists|item: QueuedConnection|
        {
            &&& item.request == request
            &&& item.connection == connection
            &&& item.ticket.raw_input_bytes == bytes
            &&& #[trigger] before.scheduler@.pushes(root, class, item, after.scheduler@)
        }
}

/// The bytes of texts, as far as they can be counted.
pub open spec fn counted_bytes(texts: Seq<String>) -> int {
    if protocol::total_bytes(texts) <= usize::MAX {
        protocol::total_bytes(texts) as int
    } else {
        usize::MAX as int
    }
}

impl WorkerRuntime {
    /// Whether `outcome` and `after` are what becomes of a request.
    ///
    /// Control commands are answered whatever the handshake. A request for embeddings is
    /// refused on a handshake that does not match, when background work for its root is
    /// outstanding already, and when it is not admitted; otherwise it is queued.
    pub open spec fn handles(
        self,
        connection: u64,
        request: WorkerRequest,
        now: u64,
        now_ms: u64,
        outcome: Outcome,
        after: WorkerRuntime,
    ) -> bool {
        let matches = request.handshake.same(self.handshake);
        match request.command {
            WorkerCommand::Status => {
                &&& after == self
                &&& outcome.answers(connection, false)
                &&& (outcome.reply->0).1 matches WorkerReply::Status(status) && self.describes(
                    matches,
                    status,
                )
            },
            WorkerCommand::Stop => {
                &&& after == (WorkerRuntime { stopping: true, ..self })
                &&& outcome.answers(connection, false)
                &&& (outcome.reply->0).1 matches WorkerReply::Status(status) && status.state
                    == WorkerState::NotRunning && status.idle(
                    self.config,
                    self.config_handshake,
                )
            },
            WorkerCommand::Embed { class, root_id, texts, .. } => {
                let bytes = counted_bytes(texts@);
                let refused = admission::refusal(self.admission, texts.len(), bytes as usize);
                if !matches {
                    &&& after == self
                    &&& outcome.refuses(
                        connection,
                        "handshake_mismatch: protocol, build, config, or model changed"@,
                        false,
                    )
                } else if class == RequestClass::Background && self.background_roots@.contains(
                    root_id@,
                ) {
                    &&& after == self
                    &&& outcome.refuses(
                        connection,
                        "semantic_root_busy: one outstanding batch per root"@,
                        false,
                    )
                } else if refused is Some {
                    &&& after == self
                    &&& outcome.refuses(connection, refused->0, false)
                } else {
                    &&& outcome.quiet(false)
                    &&& embedding_queued(
                        self,
                        after,
                        request,
                        connection,
                        class,
                        root_id@,
                        bytes,
                    )
                }
            },
            WorkerCommand::Rerank { .. } => {
                &&& after == (WorkerRuntime {
                    rerank: after.rerank,
                    admission: after.admission,
                    ..self
                })
                &&& self.rerank.admits(
                    self.admission,
                    matches,
                    request,
                    connection,
                    now,
                    now_ms,
                    outcome,
                    after.rerank,
                    after.admission,
                )
            },
        }
    }

    /// Takes a request in; `request` is what the client sent, or why it could not be read.
    pub fn handle_request(
        &mut self,
        connection: u64,
        request: Result<WorkerRequest, String>,
        now: u64,
        now_ms: u64,
    ) -> (outcome: Outcome)
        requires
            old(self).well_formed(),
            request matches Ok(request) ==> request.command is Rerank ==> rerank_executor::reranks(
                request.command,
            ),
        ensures
            final(self).well_formed(),
            match request {
                Err(error) => {
                    &&& *final(self) == *old(self)
                    &&& outcome.refuses(connection, "protocol: "@ + error@, false)
                },
                Ok(request) => old(self).handles(
                    connection,
                    request,
                    now,
                    now_ms,
                    outcome,
                    *final(self),
                ),
            },
    {
        let request = match request {
            Err(error) => {
                let mut message = "protocol: ".to_owned();
                message.append(error.as_str());
                return Outcome::refusal(connection, message, false);
            },
            Ok(request) => request,
        };
        let handshake_match = request.handshake.agrees(&self.handshake);
        match &request.command {
            WorkerCommand::Status => {
                return Outcome::answer(
                    connection,
                    WorkerReply::Status(self.status(handshake_match)),
                );
            },
            WorkerCommand::Stop => {
                let status = WorkerStatus::not_running(&self.config, &self.config_handshake);
                self.stopping = true;
                return Outcome::answer(connection, WorkerReply::Status(status));
            },
            WorkerCommand::Embed { class, root_id, texts, .. } => {
                if !handshake_match {
                    return Outcome::refusal(
                        connection,
                        "handshake_mismatch: protocol, build, config, or model changed".to_owned(),
                        false,
                    );
                }
                if *class == RequestClass::Background && self.background_roots.contains(
                    root_id.as_str(),
                ) {
                    return Outcome::refusal(
                        connection,
                        "semantic_root_busy: one outstanding batch per root".to_owned(),
                        false,
                    );
                }
                let count: usize = texts.len();
                let bytes: usize = protocol::raw_input_bytes(texts.as_slice());
                let class = *class;
                let root = root_id.clone();
                self.queue_embedding(request, connection, class, root, count, bytes)
            },
            WorkerCommand::Rerank { .. } => {
                let ghost lane = self.rerank;
                let ghost waiting = self.rerank.queue@.len();
                self.rerank.admit_request(
                    &mut self.admission,
                    handshake_match,
                    request,
                    connection,
                    now,
                    now_ms,
                )
            },
        }
    }

    fn queue_embedding(
        &mut self,
        request: WorkerRequest,
        connection: u64,
        class: RequestClass,
        root: String,
        count: usize,
        bytes: usize,
    ) -> (outcome: Outcome)
        requires
            old(self).well_formed(),
            connection::embeds(request.command, class, root@),
            class == RequestClass::Background ==> !old(self).background_roots@.contains(root@),
        ensures
            final(self).well_formed(),
            match admission::refusal(old(self).admission, count, bytes) {
                Some(message) => {
                    &&& *final(self) == *old(self)
                    &&& outcome.refuses(connection, message, false)
                },
                None => {
                    &&& outcome.quiet(false)
                    &&& embedding_queued(
                        *old(self),
                        *final(self),
                        request,
                        connection,
                        class,
                        root@,
                        bytes as int,
                    )
                },
            },
    {
        let ticket = match self.admission.try_admit(count, bytes) {
            Ok(ticket) => ticket,
            Err(failure) => {
                return Outcome::refusal(connection, failure.message, false);
            },
        };
        if class == RequestClass::Background {
            self.background_roots.insert(root.as_str());
        }
        let item = QueuedConnection { request, connection, ticket };
        let ghost before = self.scheduler@;
        self.scheduler.push(class, item);
        proof {
            crate::semantic::worker::scheduler::law_work_is_conserved(
                before,
                self.scheduler@,
                root@,
                class,
                item,
            );
            lemma_push_holds(
                before,
                old(self).background_roots@,
                self.background_roots@,
                root@,
                class,
                item,
                self.scheduler@,
            );
            assert(before.pushes(root@, class, item, self.scheduler@));
        }
        Outcome::nothing(false)
    }
}

/// Queuing a request keeps what holds of the queues, where no background request for its
/// root waits.
proof fn lemma_push_holds(
    before: SchedulerView<QueuedConnection>,
    busy: Set<Seq<char>>,
    noted: Set<Seq<char>>,
    root: Seq<char>,
    class: RequestClass,
    item: QueuedConnection,
    after: SchedulerView<QueuedConnection>,
)
    requires
        queues_hold(before, busy),
        connection::embeds(item.request.command, class, root),
        before.pushes(root, class, item, after),
        busy.subset_of(noted),
        class == RequestClass::Background ==> noted.contains(root),
        class == RequestClass::Background ==> !busy.contains(root) || none_waits(before, root),
    ensures
        queues_hold(after, noted),
{
    let p = choose|p: int|
        #[trigger] before.place_of(root, p) && after == before.after_push(root, p, class, item);
    assert forall|i: int| 0 <= i < after.roots.len() implies #[trigger] queue_holds(
        after,
        noted,
        i,
    ) by {
        if i < before.roots.len() {
            assert(queue_holds(before, busy, i));
        }
        if i != p {
            assert(after.roots[i] == before.roots[i]);
        } else {
            if p < before.roots.len() {
                assert(before.roots[p].root == root);
            }
        }
    }
}

/// Whether a request may be in the hands of the model: background work for its root is noted
/// as busy, and none waits beside it.
pub open spec fn outstanding(runtime: WorkerRuntime, command: WorkerCommand) -> bool {
    command matches WorkerCommand::Embed { class: RequestClass::Background, root_id, .. } ==> {
        &&& runtime.background_roots@.contains(root_id@)
        &&& none_waits(runtime.scheduler@, root_id@)
    }
}

/// The roots noted as busy once a request is done with.
pub open spec fn freed(busy: Set<Seq<char>>, command: WorkerCommand) -> Set<Seq<char>> {
    match command {
        WorkerCommand::Embed { class: RequestClass::Background, root_id, .. } => busy.remove(
            root_id@,
        ),
        _ => busy,
    }
}

impl WorkerRuntime {
    /// The runtime after a request was given up.
    pub open spec fn gave_up(self, item: QueuedConnection, after: WorkerRuntime) -> bool {
        &&& after.same_state(self)
        &&& after.scheduler == self.scheduler
        &&& after.background_roots@ == freed(self.background_roots@, item.request.command)
        &&& after.admission == self.admission.released(item.ticket.raw_input_bytes as int)
    }

    /// Whether `outcome` and `after` are what becomes of a request whose turn it is.
    ///
    /// A request whose deadline has passed is dropped. While a failed load is cooling down
    /// it is refused with the words of the failure. Without a loaded model it goes back to
    /// the queue, and a load is started unless one runs. Otherwise it goes to the model.
    pub open spec fn processes(
        self,
        item: QueuedConnection,
        now: u64,
        now_ms: u64,
        outcome: Outcome,
        after: WorkerRuntime,
    ) -> bool {
        match item.request.command {
            WorkerCommand::Embed { class, root_id, deadline_ms, .. } => if now_ms >= deadline_ms {
                outcome.closes(item.connection) && self.gave_up(item, after)
            } else if self.cooling(now) {
                outcome.refuses(item.connection, self.load_error->0@, false) && self.gave_up(
                    item,
                    after,
                )
            } else if !self.engine_loaded {
                &&& outcome.quiet(!self.loading)
                &&& after.same_state(WorkerRuntime { loading: true, ..self })
                &&& after.admission == self.admission
                &&& after.background_roots == self.background_roots
                &&& self.scheduler@.pushes(root_id@, class, item, after.scheduler@)
            } else {
                &&& outcome.runs(item.request, item.connection)
                &&& after == (WorkerRuntime {
                    active: true,
                    inflight: Some(InflightTicket { raw_input_bytes: item.ticket.raw_input_bytes }),
                    admission: self.admission.begun(),
                    ..self
                })
            },
            _ => outcome.closes(item.connection) && self.gave_up(item, after),
        }
    }

    /// Serves a request whose turn it is.
    pub fn process_at(&mut self, item: QueuedConnection, now: u64, now_ms: u64) -> (outcome:
        Outcome)
        requires
            old(self).holds(1),
            !old(self).active,
            outstanding(*old(self), item.request.command),
        ensures
            final(self).well_formed(),
            old(self).processes(item, now, now_ms, outcome, *final(self)),
            outcome.execute is Some ==> outstanding(*final(self), item.request.command),
    {
        let (class, deadline_ms): (RequestClass, u64) = match &item.request.command {
            WorkerCommand::Embed { class, deadline_ms, .. } => (*class, *deadline_ms),
            _ => {
                self.admission.release(item.ticket);
                return Outcome::closing(item.connection);
            },
        };
        if now_ms >= deadline_ms {
            self.free_root(&item.request.command);
            self.admission.release(item.ticket);
            return Outcome::closing(item.connection);
        }
        if self.load_error.is_some() && !self.load_retry.is_ready(now) {
            let message = match &self.load_error {
                Some(error) => error.clone(),
                None => String::new(),
            };
            self.free_root(&item.request.command);
            self.admission.release(item.ticket);
            return Outcome::refusal(item.connection, message, false);
        }
        if !self.engine_loaded {
            let load = !self.loading;
            self.loading = true;
            let ghost before = self.scheduler@;
            let ghost root = connection::command_root(item.request.command);
            self.scheduler.push(class, item);
            proof {
                crate::semantic::worker::scheduler::law_work_is_conserved(
                    before,
                    self.scheduler@,
                    root,
                    class,
                    item,
                );
                lemma_push_holds(
                    before,
                    self.background_roots@,
                    self.background_roots@,
                    root,
                    class,
                    item,
                    self.scheduler@,
                );
            }
            return Outcome::nothing(load);
        }
        let inflight = item.ticket.begin(&mut self.admission);
        self.active = true;
        self.inflight = Some(inflight);
        Outcome::running(item.request, item.connection)
    }

    /// Notes that background work for the root of a command is done with.
    fn free_root(&mut self, command: &WorkerCommand)
        requires
            queues_hold(old(self).scheduler@, old(self).background_roots@),
            outstanding(*old(self), *command),
        ensures
            *final(self) == (WorkerRuntime {
                background_roots: final(self).background_roots,
                ..*old(self)
            }),
            final(self).background_roots@ == freed(old(self).background_roots@, *command),
            queues_hold(final(self).scheduler@, final(self).background_roots@),
    {
        match command {
            WorkerCommand::Embed { class, root_id, .. } => {
                if *class == RequestClass::Background {
                    self.background_roots.remove(root_id.as_str());
                    proof {
                        assert forall|i: int|
                            0 <= i < self.scheduler@.roots.len() implies #[trigger] queue_holds(
                            self.scheduler@,
                            self.background_roots@,
                            i,
                        ) by {
                            assert(queue_holds(
                                old(self).scheduler@,
                                old(self).background_roots@,
                                i,
                            ));
                        }
                    }
                }
            },
            _ => {},
        }
    }

    /// Takes the next request from the queue when the worker is idle. Without one, or while
    /// the worker is not idle, nothing happens.
    pub fn process(&mut self, now: u64, now_ms: u64) -> (outcome: Option<Outcome>)
        requires
            old(self).well_formed(),
        ensures
            final(self).well_formed(),
            match outcome {
                None => {
                    &&& !old(self).idle() || old(self).scheduler@.pending() == 0
                    &&& final(self).scheduler@ == old(self).scheduler@
                    &&& *final(self) == (WorkerRuntime {
                        scheduler: final(self).scheduler,
                        ..*old(self)
                    })
                },
                Some(outcome) => {
                    &&& old(self).idle() && old(self).scheduler@.pending() > 0
                    &&& exists|taken: WorkerRuntime, item: QueuedConnection|
                        {
                            &&& taken == (WorkerRuntime { scheduler: taken.scheduler, ..*old(self) })
                            &&& old(self).scheduler@.pops(item, taken.scheduler@)
                            &&& #[trigger] taken.processes(
                                item,
                                now,
                                now_ms,
                                outcome,
                                *final(self),
                            )
                            &&& outcome.execute is Some ==> outstanding(
                                *final(self),
                                item.request.command,
                            )
                        }
                },
            },
    {
        if self.stopping || self.active || (self.loading && !self.engine_loaded) {
            return None;
        }
        let ghost before = self.scheduler@;
        match self.scheduler.pop() {
            None => None,
            Some(item) => {
                let ghost taken = *self;
                proof {
                    crate::semantic::worker::scheduler::law_work_is_conserved(
                        before,
                        self.scheduler@,
                        Seq::<char>::empty(),
                        RequestClass::Query,
                        item,
                    );
                    lemma_pop_holds(before, self.background_roots@, item, self.scheduler@);
                }
                let outcome = self.process_at(item, now, now_ms);
                assert(taken.processes(item, now, now_ms, outcome, *self));
                Some(outcome)
            },
        }
    }

    /// Notes that the request could not be handed to the executor, which is gone.
    pub fn executor_lost(&mut self, command: &WorkerCommand)
        requires
            old(self).well_formed(),
            outstanding(*old(self), *command),
        ensures
            final(self).well_formed(),
            *final(self) == (WorkerRuntime {
                active: false,
                inflight: None,
                admission: rerank_executor::ended_if(old(self).admission, old(self).inflight),
                background_roots: final(self).background_roots,
                ..*old(self)
            }),
            final(self).background_roots@ == freed(old(self).background_roots@, *command),
    {
        self.free_root(command);
        self.active = false;
        match self.inflight.take() {
            Some(ticket) => self.admission.release_inflight(ticket),
            None => {},
        }
    }

    /// Notes that the model cannot be loaded because the executor is gone.
    pub fn loader_lost(&mut self, now: u64)
        requires
            old(self).well_formed(),
            now <= u64::MAX - MAX_COOLDOWN,
        ensures
            final(self).well_formed(),
            final(self).load_error is Some,
            final(self).load_error->0@ == "semantic_worker: model loader exited"@,
            *final(self) == (WorkerRuntime {
                loading: false,
                engine_loaded: false,
                load_error: final(self).load_error,
                load_retry: old(self).load_retry.after_failure(now),
                ..*old(self)
            }),
    {
        self.record_load_failure("semantic_worker: model loader exited".to_owned(), now);
    }

    /// Notes that a load failed at `now`.
    pub fn record_load_failure(&mut self, error: String, now: u64)
        requires
            old(self).well_formed(),
            now <= u64::MAX - MAX_COOLDOWN,
        ensures
            final(self).well_formed(),
            *final(self) == (WorkerRuntime {
                loading: false,
                engine_loaded: false,
                load_error: Some(error),
                load_retry: old(self).load_retry.after_failure(now),
                ..*old(self)
            }),
    {
        self.loading = false;
        self.engine_loaded = false;
        self.load_error = Some(error);
        self.load_retry.failed(now);
    }

    /// Unloads the model once it has been idle for long enough; whether it is to be
    /// unloaded now.
    pub fn unload_idle(&mut self, now: u64) -> (unload: bool)
        requires
            old(self).well_formed(),
        ensures
            final(self).well_formed(),
            unload == (old(self).scheduler@.pending() == 0 && !old(self).loading
                && !old(self).active && old(self).engine_loaded && (old(self).last_used matches Some(
                used,
            ) && now >= used + IDLE_UNLOAD)),
            *final(self) == if unload {
                WorkerRuntime { engine_loaded: false, last_used: None, ..*old(self) }
            } else {
                *old(self)
            },
    {
        if self.scheduler.pending() != 0 || self.loading || self.active || !self.engine_loaded {
            return false;
        }
        match self.last_used {
            Some(used) => {
                if now >= used && now - used >= IDLE_UNLOAD {
                    self.engine_loaded = false;
                    self.last_used = None;
                    return true;
                }
                false
            },
            None => false,
        }
    }

    /// Whether `reply` and `after` are what becomes of a report of the executor.
    pub open spec fn takes(
        self,
        event: ExecutorEvent,
        now: u64,
        now_ms: u64,
        reply: Option<(u64, WorkerReply)>,
        after: WorkerRuntime,
    ) -> bool {
        match event {
            ExecutorEvent::Loaded(Ok(_)) => {
                &&& reply is None
                &&& after.load_retry.fresh()
                &&& after == (WorkerRuntime {
                    loading: false,
                    engine_loaded: true,
                    load_error: None,
                    load_retry: after.load_retry,
                    last_used: Some(now),
                    ..self
                })
            },
            ExecutorEvent::Loaded(Err(error)) => {
                &&& reply is None
                &&& after == (WorkerRuntime {
                    loading: false,
                    engine_loaded: false,
                    load_error: Some(error),
                    load_retry: self.load_retry.after_failure(now),
                    ..self
                })
            },
            ExecutorEvent::Completed { request, connection, result } => {
                &&& after == (WorkerRuntime {
                    active: false,
                    inflight: None,
                    last_used: Some(now),
                    background_roots: after.background_roots,
                    admission: rerank_executor::ended_if(self.admission, self.inflight),
                    ..self
                })
                &&& after.background_roots@ == freed(self.background_roots@, request.command)
                &&& if request.command is Embed && now_ms < connection::command_deadline(
                    request.command,
                ) {
                    &&& reply is Some
                    &&& (reply->0).0 == connection
                    &&& match result {
                        Ok(values) => (reply->0).1 == (WorkerReply::Embeddings { values }),
                        Err(error) => (reply->0).1 == (WorkerReply::Error { message: error }),
                    }
                } else {
                    reply is None
                }
            },
            ExecutorEvent::Unloaded => {
                &&& reply is None
                &&& after == (WorkerRuntime { engine_loaded: false, ..self })
            },
            ExecutorEvent::Disconnected => {
                &&& reply is None
                &&& after == (WorkerRuntime {
                    inflight: None,
                    admission: rerank_executor::ended_if(self.admission, self.inflight),
                    ..self
                })
            },
        }
    }

    /// Takes in a report of the executor. An answer whose deadline has passed is not sent.
    pub fn poll_executor(&mut self, event: ExecutorEvent, now: u64, now_ms: u64) -> (reply: Option<
        (u64, WorkerReply),
    >)
        requires
            old(self).well_formed(),
            now <= u64::MAX - MAX_COOLDOWN,
            event matches ExecutorEvent::Completed { request, .. } ==> outstanding(
                *old(self),
                request.command,
            ),
        ensures
            final(self).well_formed(),
            old(self).takes(event, now, now_ms, reply, *final(self)),
    {
        match event {
            ExecutorEvent::Loaded(Ok(_)) => {
                self.loading = false;
                self.engine_loaded = true;
                self.load_retry.succeeded();
                self.load_error = None;
                self.last_used = Some(now);
                None
            },
            ExecutorEvent::Loaded(Err(error)) => {
                self.record_load_failure(error, now);
                None
            },
            ExecutorEvent::Completed { request, connection, result } => {
                self.executor_lost(&request.command);
                self.last_used = Some(now);
                let deadline_ms: u64 = match request.command {
                    WorkerCommand::Embed { deadline_ms, .. } => deadline_ms,
                    _ => 0,
                };
                if now_ms < deadline_ms {
                    match result {
                        Ok(values) => Some((connection, WorkerReply::Embeddings { values })),
                        Err(message) => Some((connection, WorkerReply::Error { message })),
                    }
                } else {
                    None
                }
            },
            ExecutorEvent::Unloaded => {
                self.engine_loaded = false;
                None
            },
            ExecutorEvent::Disconnected => {
                match self.inflight.take() {
                    Some(ticket) => self.admission.release_inflight(ticket),
                    None => {},
                }
                None
            },
        }
    }
}

/// Taking a request keeps what holds of the queues, and a background request that is taken
/// was the only one of its root.
proof fn lemma_pop_holds(
    before: SchedulerView<QueuedConnection>,
    busy: Set<Seq<char>>,
    item: QueuedConnection,
    after: SchedulerView<QueuedConnection>,
)
    requires
        before.well_formed(),
        before.roots.len() > 0,
        queues_hold(before, busy),
        before.pops(item, after),
    ensures
        queues_hold(after, busy),
        item.request.command matches WorkerCommand::Embed {
            class: RequestClass::Background,
            root_id,
            ..
        } ==> busy.contains(root_id@) && none_waits(after, root_id@),
{
    let served = before.served();
    let offset = choose|offset: int|
        {
            &&& #[trigger] before.first_turn(served, offset)
            &&& item == before.roots[before.turn(offset)].queue(served)[0]
            &&& after == before.after_pop(served, before.turn(offset))
        };
    let p = before.turn(offset);
    assert(0 <= p < before.roots.len());
    let root = before.roots[p].with_queue(served, before.roots[p].queue(served).drop_first());
    assert(queue_holds(before, busy, p));
    assert(connection::embeds(item.request.command, served, before.roots[p].root));
    assert forall|i: int| 0 <= i < after.roots.len() implies #[trigger] queue_holds(
        after,
        busy,
        i,
    ) by {
        let x = if root.is_empty() && i >= p { i + 1 } else { i };
        assert(queue_holds(before, busy, x));
        if x == p {
            assert(after.roots[i] == root);
        } else {
            assert(after.roots[i] == before.roots[x]);
        }
    }
    assert forall|i: int|
        0 <= i < after.roots.len() && (#[trigger] after.roots[i]).root == before.roots[p].root
            && served == RequestClass::Background implies after.roots[i].background.len() == 0 by {
        let x = if root.is_empty() && i >= p { i + 1 } else { i };
        if x != p {
            assert(before.roots[x].root != before.roots[p].root);
        }
    }
}

/// Background work for a root is not taken on twice: as long as a request is in the hands of
/// the model, no other request that is taken in brings more of it.
pub proof fn law_one_background_batch_per_root(
    before: WorkerRuntime,
    running: WorkerCommand,
    connection: u64,
    request: WorkerRequest,
    now: u64,
    now_ms: u64,
    outcome: Outcome,
    after: WorkerRuntime,
)
    requires
        before.well_formed(),
        outstanding(before, running),
        before.handles(connection, request, now, now_ms, outcome, after),
    ensures
        outstanding(after, running),
        request.command matches WorkerCommand::Embed {
            class: RequestClass::Background,
            root_id,
            ..
        } && before.background_roots@.contains(root_id@) ==> outcome.reply is Some && after
            == before,
{
    if let WorkerCommand::Embed { class: RequestClass::Background, root_id, .. } = running {
        if let WorkerCommand::Embed { class, root_id: pushed, texts, .. } = request.command {
            if after != before {
                let item = choose|item: QueuedConnection|
                    {
                        &&& item.request == request
                        &&& item.connection == connection
                        &&& item.ticket.raw_input_bytes == counted_bytes(texts@)
                        &&& #[trigger] before.scheduler@.pushes(
                            pushed@,
                            class,
                            item,
                            after.scheduler@,
                        )
                    };
                let p = choose|p: int|
                    #[trigger] before.scheduler@.place_of(pushed@, p) && after.scheduler@
                        == before.scheduler@.after_push(pushed@, p, class, item);
                assert forall|i: int|
                    0 <= i < after.scheduler@.roots.len() && (
                    #[trigger] after.scheduler@.roots[i]).root == root_id@ implies after.scheduler@.roots[i].background.len()
                    == 0 by {
                    if i < before.scheduler@.roots.len() {
                        assert(before.scheduler@.roots[i].root == after.scheduler@.roots[i].root);
                    }
                }
            }
        }
    }
}

/// No load is started while one runs, nor while a failed one is cooling down.
pub proof fn law_no_retry_storm(
    runtime: WorkerRuntime,
    item: QueuedConnection,
    now: u64,
    now_ms: u64,
    outcome: Outcome,
    after: WorkerRuntime,
)
    requires
        runtime.processes(item, now, now_ms, outcome, after),
    ensures
        runtime.loading || runtime.cooling(now) || runtime.engine_loaded ==> !outcome.load,
        outcome.load ==> after.loading,
{
}

/// No load of the reranker is started while one runs, nor while a failed one is cooling
/// down.
pub proof fn law_no_rerank_retry_storm(
    lane: RerankLane,
    controller: AdmissionController,
    handshake_match: bool,
    request: WorkerRequest,
    connection: u64,
    now: u64,
    now_ms: u64,
    outcome: Outcome,
    after: RerankLane,
    controlled: AdmissionController,
)
    requires
        lane.admits(
            controller,
            handshake_match,
            request,
            connection,
            now,
            now_ms,
            outcome,
            after,
            controlled,
        ),
    ensures
        lane.loading || lane.cooling(now) || lane.loaded ==> !outcome.load,
        outcome.load ==> after.loading,
        !lane.loaded ==> after.queue == lane.queue && controlled == controller,
{
}

} // verus!
