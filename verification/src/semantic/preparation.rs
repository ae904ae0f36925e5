//! Background preparation of the embeddings for one committed source generation.
//!
//! Progress and outcomes are kept by generation and by content, never by the place of a
//! region, so that they survive restarts.

use crate::text;
use crate::text::Failure;
use crate::unicode;
use vstd::prelude::*;
use vstd::string::StringExecFns;

pub mod cache;
pub mod preparation_laws;
pub mod sweep;
pub mod worker;
pub mod worker_laws;

verus! {

/// How many regions are read at a time.
pub const SNAPSHOT_WINDOW: usize = 256;

pub const MAX_BATCH: usize = 8;

pub const MAX_MODEL_TOKENS: usize = 4096;

/// Maximum padded token count for one preparation batch.
pub const MAX_PADDED_TOKENS: usize = 8192;

/// How a sweep stands.
#[derive(Clone, Copy, Debug, PartialEq, Eq, Structural)]
pub enum PreparationState {
    Idle,
    Running,
    Completed,
    Superseded,
    Failed,
    Capacity,
}

impl PreparationState {
    pub open spec fn name(self) -> Seq<char> {
        match self {
            PreparationState::Idle => "idle"@,
            PreparationState::Running => "running"@,
            PreparationState::Completed => "completed"@,
            PreparationState::Superseded => "superseded"@,
            PreparationState::Failed => "failed"@,
            PreparationState::Capacity => "capacity"@,
        }
    }

    /// The state with a name, if one has it.
    pub open spec fn named(name: Seq<char>) -> Option<PreparationState> {
        if name == "idle"@ {
            Some(PreparationState::Idle)
        } else if name == "running"@ {
            Some(PreparationState::Running)
        } else if name == "completed"@ {
            Some(PreparationState::Completed)
        } else if name == "superseded"@ {
            Some(PreparationState::Superseded)
        } else if name == "failed"@ {
            Some(PreparationState::Failed)
        } else if name == "capacity"@ {
            Some(PreparationState::Capacity)
        } else {
            None
        }
    }

    /// What is said of a name that no state has.
    pub open spec fn unknown(name: Seq<char>) -> Seq<char> {
        "unknown preparation state "@ + unicode::quoted(name)
    }

    /// Whether the sweep is over.
    pub open spec fn is_over(self) -> bool {
        self == PreparationState::Completed || self == PreparationState::Superseded || self
            == PreparationState::Failed || self == PreparationState::Capacity
    }

    pub fn as_str(self) -> (name: &'static str)
        ensures
            name@ == self.name(),
    {
        match self {
            PreparationState::Idle => "idle",
            PreparationState::Running => "running",
            PreparationState::Completed => "completed",
            PreparationState::Superseded => "superseded",
            PreparationState::Failed => "failed",
            PreparationState::Capacity => "capacity",
        }
    }

    /// Whether the sweep is over.
    pub fn terminal(self) -> (over: bool)
        ensures
            over == self.is_over(),
    {
        match self {
            PreparationState::Completed => true,
            PreparationState::Superseded => true,
            PreparationState::Failed => true,
            PreparationState::Capacity => true,
            PreparationState::Idle => false,
            PreparationState::Running => false,
        }
    }

    /// The state that a name stands for.
    pub fn parse(name: &str) -> (result: Result<PreparationState, Failure>)
        ensures
            match result {
                Ok(state) => PreparationState::named(name@) == Some(state),
                Err(failure) => PreparationState::named(name@) is None && text::plain(
                    failure,
                    PreparationState::unknown(name@),
                ),
            },
    {
        if text::same_text(name, "idle") {
            Ok(PreparationState::Idle)
        } else if text::same_text(name, "running") {
            Ok(PreparationState::Running)
        } else if text::same_text(name, "completed") {
            Ok(PreparationState::Completed)
        } else if text::same_text(name, "superseded") {
            Ok(PreparationState::Superseded)
        } else if text::same_text(name, "failed") {
            Ok(PreparationState::Failed)
        } else if text::same_text(name, "capacity") {
            Ok(PreparationState::Capacity)
        } else {
            let mut message = "unknown preparation state ".to_owned();
            message.append(unicode::quoted_text(name).as_str());
            Err(Failure::of(message))
        }
    }
}

/// Reading the name of a state gives the state back.
pub proof fn law_state_names_round_trip(state: PreparationState)
    ensures
        PreparationState::named(state.name()) == Some(state),
{
    reveal_strlit("idle");
    reveal_strlit("running");
    reveal_strlit("completed");
    reveal_strlit("superseded");
    reveal_strlit("failed");
    reveal_strlit("capacity");
    assert("idle"@.len() == 4 && "running"@.len() == 7 && "completed"@.len() == 9
        && "superseded"@.len() == 10 && "failed"@.len() == 6 && "capacity"@.len() == 8);
}

/// How preparation of a generation stands.
#[derive(Clone, Debug, PartialEq, Eq)]
pub struct PreparationStatus {
    pub generation: i64,
    pub state: PreparationState,
    pub cursor: usize,
    pub total: usize,
    pub cached: usize,
    pub missing: usize,
    pub failures: usize,
    pub error: Option<String>,
}

#[derive(Clone, Debug, PartialEq, Eq)]
pub struct ScheduleReceipt {
    pub captured_generation: i64,
    pub coalesced: bool,
}

#[derive(Clone, Debug, PartialEq, Eq)]
pub struct PreparationWait {
    pub captured_generation: i64,
    pub state: PreparationState,
    pub status: PreparationStatus,
}

impl PreparationWait {
    pub fn is_terminal(&self) -> (over: bool)
        ensures
            over == self.state.is_over(),
    {
        self.state.terminal()
    }
}

/// Text and the identity of its content; no index row crosses to the worker.
#[derive(Clone, Debug, PartialEq, Eq)]
pub struct EmbeddingInput {
    pub content_key: String,
    pub text: String,
    pub token_count: usize,
}

/// What an input says.
pub struct InputView {
    pub key: Seq<char>,
    pub text: Seq<char>,
    pub token_count: int,
}

impl View for EmbeddingInput {
    type V = InputView;

    open spec fn view(&self) -> InputView {
        InputView {
            key: self.content_key@,
            text: self.text@,
            token_count: self.token_count as int,
        }
    }
}

impl EmbeddingInput {
    /// The same input once more.
    pub fn copy(&self) -> (copy: EmbeddingInput)
        ensures
            copy@ == self@,
    {
        EmbeddingInput {
            content_key: self.content_key.clone(),
            text: self.text.clone(),
            token_count: self.token_count,
        }
    }
}

} // verus!
