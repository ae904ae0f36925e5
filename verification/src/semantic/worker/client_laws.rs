//! What holds of how a client reaches a worker, and of the frames that it writes.

use crate::semantic::embedding::Embedding;
use crate::semantic::runtime_config::InferenceConfig;
use crate::semantic::worker::client;
use crate::semantic::worker::client::Exchange;
use crate::semantic::worker::client::IoKind;
use crate::semantic::worker::client::StartStep;
use crate::semantic::worker::protocol;
use crate::semantic::worker::protocol::Handshake;
use crate::semantic::worker::protocol::WorkerReply;
use crate::semantic::worker::protocol::WriteStep;
use crate::semantic::worker::status::WorkerState;
use crate::text::Failure;
use vstd::prelude::*;

verus! {

/// Nobody is there just where one of the errors says that there is no socket, or that it refuses
/// connections.
pub proof fn law_missing_workers_are_told(causes: Seq<IoKind>)
    ensures
        client::nobody_there(causes) <==> causes.contains(IoKind::NotFound) || causes.contains(
            IoKind::ConnectionRefused,
        ),
{
    if client::nobody_there(causes) {
        let i = choose|i: int|
            0 <= i < causes.len() && (#[trigger] causes[i] == IoKind::NotFound || causes[i]
                == IoKind::ConnectionRefused);
        assert(causes.contains(causes[i]));
    }
    if causes.contains(IoKind::NotFound) {
        let i = choose|i: int| 0 <= i < causes.len() && causes[i] == IoKind::NotFound;
        assert(causes[i] == IoKind::NotFound);
    }
    if causes.contains(IoKind::ConnectionRefused) {
        let i = choose|i: int| 0 <= i < causes.len() && causes[i] == IoKind::ConnectionRefused;
        assert(causes[i] == IoKind::ConnectionRefused);
    }
}

/// A worker that answers with its state is not started again. Another one is started before the
/// deadline, and not after it; its model is not loaded yet.
pub proof fn law_workers_are_started_where_none_answers(
    exchange: Exchange,
    expired: bool,
    config: InferenceConfig,
    handshake: Handshake,
    result: Result<StartStep, Failure>,
)
    requires
        client::start_decided(exchange, expired, config, handshake, result),
    ensures
        exchange matches Exchange::Reply(WorkerReply::Status(status)) ==> result == Ok::<
            StartStep,
            Failure,
        >(StartStep::Running(status)),
        result matches Ok(StartStep::Running(status)) ==> exchange == Exchange::Reply(
            WorkerReply::Status(status),
        ),
        result matches Ok(StartStep::Start(status)) ==> {
            &&& !expired
            &&& status.state == WorkerState::Loading
            &&& !status.loaded
            &&& status.pending == 0
            &&& status.error is None
            &&& status.config_fingerprint@ == handshake.config@
            &&& status.model_fingerprint@ == handshake.model@
        },
        result is Err ==> expired,
{
}

/// The vector of a query is the first that came back for it.
pub proof fn law_queries_have_the_first_vector(
    vectors: Result<Vec<Embedding>, Failure>,
    missing: Seq<char>,
    result: Result<Embedding, Failure>,
)
    requires
        client::first_of(vectors, missing, result),
    ensures
        result is Ok <==> vectors is Ok && vectors->Ok_0@.len() > 0,
        result is Ok ==> result->Ok_0 == vectors->Ok_0@.first(),
        vectors is Err && result is Err ==> result->Err_0 == vectors->Err_0,
{
}

/// The place in a frame at which a step goes on: the payload comes after four bytes.
pub open spec fn goes_on_at(step: WriteStep, length: int) -> int {
    match step {
        WriteStep::Header(place) => place as int,
        WriteStep::Payload(place) => 4 + place,
        WriteStep::Flush => 4 + length,
    }
}

/// A frame is written without a gap, from its first byte to its last, and flushed when all of it
/// is written.
pub proof fn law_frames_are_written_without_a_gap(
    length: int,
    sent: int,
    expired: bool,
    result: Result<WriteStep, Failure>,
)
    requires
        protocol::write_step(length, sent, expired, result),
        0 <= length,
        0 <= sent <= 4 + length,
        4 + length <= usize::MAX,
    ensures
        result is Ok <==> length <= 1024 * 1024 && !expired,
        result is Ok ==> {
            &&& goes_on_at(result->Ok_0, length) == sent
            &&& result->Ok_0 is Header <==> sent < 4
            &&& result->Ok_0 is Flush <==> sent == 4 + length
        },
{
}

} // verus!
