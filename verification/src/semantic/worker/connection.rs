//! Connections on their way through the worker, and what is to be done with them.
//!
//! A connection is known by a number; whoever owns the socket maps it back.

use crate::semantic::worker::admission::AdmissionTicket;
use crate::semantic::worker::protocol::{WorkerCommand, WorkerReply, WorkerRequest};
use crate::semantic::worker::scheduler::{RequestClass, RootIdent};
use vstd::prelude::*;

verus! {

/// The model is unloaded after this long without use: ten minutes, in nanoseconds.
pub const IDLE_UNLOAD: u64 = 600_000_000_000;

/// An admitted request that waits for its turn.
#[derive(Debug)]
pub struct QueuedConnection {
    pub request: WorkerRequest,
    pub connection: u64,
    pub ticket: AdmissionTicket,
}

/// A request that a model works on.
#[derive(Debug)]
pub struct RunningConnection {
    pub request: WorkerRequest,
    pub connection: u64,
}

/// The root that a command is about; control commands have none.
pub open spec fn command_root(command: WorkerCommand) -> Seq<char> {
    match command {
        WorkerCommand::Embed { root_id, .. } => root_id@,
        _ => Seq::empty(),
    }
}

/// Whether a command asks for embeddings of a class for a root.
pub open spec fn embeds(command: WorkerCommand, class: RequestClass, root: Seq<char>) -> bool {
    command matches WorkerCommand::Embed { class: asked, root_id, .. } && asked == class && root_id@
        == root
}

/// The deadline of an embedding or reranking command.
pub open spec fn command_deadline(command: WorkerCommand) -> u64 {
    match command {
        WorkerCommand::Embed { deadline_ms, .. } => deadline_ms,
        WorkerCommand::Rerank { deadline_ms, .. } => deadline_ms,
        _ => 0,
    }
}

impl RootIdent for QueuedConnection {
    fn root_id(&self) -> (root_id: &str)
        ensures
            root_id@ == command_root(self.request.command),
    {
        match &self.request.command {
            WorkerCommand::Embed { root_id, .. } => root_id.as_str(),
            _ => {
                let none = "";
                proof {
                    reveal_strlit("");
                }
                assert(none@ =~= Seq::<char>::empty());
                none
            },
        }
    }
}

/// What is to be done after a step: an answer to send, a connection to close without an
/// answer, a request to hand to the model, and whether to start loading the model.
#[derive(Debug)]
pub struct Outcome {
    pub reply: Option<(u64, WorkerReply)>,
    pub close: Option<u64>,
    pub execute: Option<RunningConnection>,
    pub load: bool,
}

impl Outcome {
    /// Nothing is sent, closed or run.
    pub open spec fn quiet(self, load: bool) -> bool {
        &&& self.reply is None
        &&& self.close is None
        &&& self.execute is None
        &&& self.load == load
    }

    /// A connection is closed without an answer.
    pub open spec fn closes(self, connection: u64) -> bool {
        &&& self.reply is None
        &&& self.close == Some(connection)
        &&& self.execute is None
        &&& !self.load
    }

    /// A connection is answered.
    pub open spec fn answers(self, connection: u64, load: bool) -> bool {
        &&& self.reply is Some
        &&& (self.reply->0).0 == connection
        &&& self.close is None
        &&& self.execute is None
        &&& self.load == load
    }

    /// A connection is answered with an error.
    pub open spec fn refuses(self, connection: u64, message: Seq<char>, load: bool) -> bool {
        &&& self.answers(connection, load)
        &&& is_error((self.reply->0).1, message)
    }

    /// A request is handed to the model.
    pub open spec fn runs(self, request: WorkerRequest, connection: u64) -> bool {
        &&& self.reply is None
        &&& self.close is None
        &&& self.execute == Some(RunningConnection { request, connection })
        &&& !self.load
    }

    pub fn nothing(load: bool) -> (outcome: Outcome)
        ensures
            outcome.quiet(load),
    {
        Outcome { reply: None, close: None, execute: None, load }
    }

    pub fn closing(connection: u64) -> (outcome: Outcome)
        ensures
            outcome.closes(connection),
    {
        Outcome { reply: None, close: Some(connection), execute: None, load: false }
    }

    pub fn refusal(connection: u64, message: String, load: bool) -> (outcome: Outcome)
        ensures
            outcome.refuses(connection, message@, load),
    {
        Outcome {
            reply: Some((connection, WorkerReply::Error { message })),
            close: None,
            execute: None,
            load,
        }
    }

    pub fn answer(connection: u64, reply: WorkerReply) -> (outcome: Outcome)
        ensures
            outcome.answers(connection, false),
            (outcome.reply->0).1 == reply,
    {
        Outcome { reply: Some((connection, reply)), close: None, execute: None, load: false }
    }

    pub fn running(request: WorkerRequest, connection: u64) -> (outcome: Outcome)
        ensures
            outcome.runs(request, connection),
    {
        Outcome {
            reply: None,
            close: None,
            execute: Some(RunningConnection { request, connection }),
            load: false,
        }
    }
}

/// Whether a reply is an error with this text.
pub open spec fn is_error(reply: WorkerReply, message: Seq<char>) -> bool {
    reply matches WorkerReply::Error { message: text } && text@ == message
}

} // verus!
