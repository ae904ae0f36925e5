//! The frames and messages that clients and the worker exchange.
//!
//! A frame is the length of its payload in four bytes, most significant first, and the
//! payload.

use crate::digest;
use crate::semantic::pins;
use crate::semantic::pins::{ModelPins, RerankBounds};
use crate::semantic::runtime_config::InferenceConfig;
use crate::semantic::worker::scheduler::RequestClass;
use crate::semantic::worker::status::WorkerStatus;
use crate::text;
use crate::text::Failure;
use crate::unicode;
use vstd::prelude::*;
use vstd::string::StringExecFns;

verus! {

pub const PROTOCOL_VERSION: u32 = 1;

/// No frame carries more than this: one MiB.
pub const FRAME_LIMIT: usize = 1_048_576;

pub const MAX_INPUTS: usize = 8;

/// All the text of one batch: eight MiB.
pub const MAX_RAW_INPUT_BYTES: usize = 8_388_608;

/// What both sides of a connection must agree on.
#[derive(Clone, Debug, PartialEq, Eq)]
pub struct Handshake {
    pub protocol: u32,
    pub build: String,
    pub config: String,
    pub model: String,
}

#[derive(Debug)]
pub struct WorkerRequest {
    pub handshake: Handshake,
    pub command: WorkerCommand,
}

#[derive(Debug)]
pub enum WorkerCommand {
    Status,
    Stop,
    Embed { class: RequestClass, root_id: String, texts: Vec<String>, deadline_ms: u64 },
    Rerank { root_id: String, query: String, documents: Vec<String>, deadline_ms: u64 },
}

/// What the worker answers. Embeddings and scores are the bit patterns of their
/// single-precision numbers.
#[derive(Debug)]
pub enum WorkerReply {
    Status(WorkerStatus),
    Embeddings { values: Vec<Vec<u32>> },
    Scores { values: Vec<u32> },
    Error { message: String },
}

/// A path as text, where it is set.
pub open spec fn path_text(path: Option<Vec<u8>>) -> Seq<char> {
    match path {
        Some(path) => unicode::lossy(path@),
        None => Seq::empty(),
    }
}

/// What tells one pair of models from another: their names, revisions and places.
pub open spec fn model_text(pins: ModelPins, config: InferenceConfig) -> Seq<char> {
    pins.model_name@ + ":"@ + pins.model_revision@ + ":"@ + path_text(config.model_dir) + ":"@
        + pins.reranker_name@ + ":"@ + pins.reranker_revision@ + ":"@ + path_text(
        config.rerank_model_dir,
    )
}

impl Handshake {
    /// Two handshakes agree in every part.
    pub open spec fn same(self, other: Handshake) -> bool {
        &&& self.protocol == other.protocol
        &&& self.build@ == other.build@
        &&& self.config@ == other.config@
        &&& self.model@ == other.model@
    }

    /// Whether this is the handshake of a build with a configuration, whose serialized form
    /// is given.
    pub open spec fn identifies(
        self,
        pins: ModelPins,
        config: InferenceConfig,
        serialized: Seq<u8>,
    ) -> bool {
        &&& self.protocol == PROTOCOL_VERSION
        &&& self.build@ == pins.build@
        &&& self.config@ == digest::hex(digest::blake3_digest(serialized))
        &&& self.model@ == digest::hex(
            digest::blake3_digest(vstd::utf8::encode_utf8(model_text(pins, config))),
        )
    }

    pub fn for_config(pins: &ModelPins, config: &InferenceConfig, serialized: &[u8]) -> (handshake:
        Handshake)
        ensures
            handshake.identifies(*pins, *config, serialized@),
    {
        let model_path = optional_path_text(&config.model_dir);
        let rerank_path = optional_path_text(&config.rerank_model_dir);
        let mut model = pins.model_name.clone();
        model.append(":");
        model.append(pins.model_revision.as_str());
        model.append(":");
        model.append(model_path.as_str());
        model.append(":");
        model.append(pins.reranker_name.as_str());
        model.append(":");
        model.append(pins.reranker_revision.as_str());
        model.append(":");
        model.append(rerank_path.as_str());
        Handshake {
            protocol: PROTOCOL_VERSION,
            build: pins.build.clone(),
            config: InferenceConfig::fingerprint(serialized),
            model: digest::blake3_hex(model.as_str().as_bytes()),
        }
    }

    /// Whether two handshakes agree.
    pub fn agrees(&self, other: &Handshake) -> (agree: bool)
        ensures
            agree == self.same(*other),
    {
        self.protocol == other.protocol && text::same_text(
            self.build.as_str(),
            other.build.as_str(),
        ) && text::same_text(self.config.as_str(), other.config.as_str()) && text::same_text(
            self.model.as_str(),
            other.model.as_str(),
        )
    }
}

fn optional_path_text(path: &Option<Vec<u8>>) -> (text: String)
    ensures
        text@ == path_text(*path),
{
    match path {
        Some(path) => unicode::lossy_text(path.as_slice()),
        None => String::new(),
    }
}

impl WorkerRequest {
    pub fn new(
        pins: &ModelPins,
        config: &InferenceConfig,
        serialized: &[u8],
        command: WorkerCommand,
    ) -> (request: Self)
        ensures
            request.handshake.identifies(*pins, *config, serialized@),
            request.command == command,
    {
        WorkerRequest { handshake: Handshake::for_config(pins, config, serialized), command }
    }
}

/// A number in four bytes, most significant first.
pub open spec fn be32(n: int) -> Seq<u8> {
    seq![(n / 16777216) as u8, (n / 65536 % 256) as u8, (n / 256 % 256) as u8, (n % 256) as u8]
}

/// The number that the first four bytes write.
pub open spec fn be32_value(bytes: Seq<u8>) -> int {
    16777216 * bytes[0] + 65536 * bytes[1] + 256 * bytes[2] + bytes[3]
}

/// The frame that carries a payload.
pub open spec fn frame(payload: Seq<u8>) -> Seq<u8> {
    be32(payload.len() as int) + payload
}

/// Reading the length of a frame gives back the length that was written.
pub proof fn lemma_be32_round_trip(n: int)
    requires
        0 <= n <= u32::MAX,
    ensures
        be32(n).len() == 4,
        be32_value(be32(n)) == n,
{
}

/// Four bytes that write `length`, most significant first.
pub fn frame_header(length: usize) -> (header: Vec<u8>)
    requires
        length <= FRAME_LIMIT,
    ensures
        header@ == be32(length as int),
{
    let mut header: Vec<u8> = Vec::new();
    header.push((length / 16777216) as u8);
    header.push((length / 65536 % 256) as u8);
    header.push((length / 256 % 256) as u8);
    header.push((length % 256) as u8);
    assert(header@ =~= be32(length as int));
    header
}

fn header_length(bytes: &[u8]) -> (length: u64)
    requires
        bytes.len() >= 4,
    ensures
        length == be32_value(bytes@),
{
    16777216 * bytes[0] as u64 + 65536 * bytes[1] as u64 + 256 * bytes[2] as u64 + bytes[3] as u64
}

/// What reading one frame from the start of `input` gives, when the input ends where it
/// does.
pub open spec fn frame_read(input: Seq<u8>, result: Result<Vec<u8>, Failure>) -> bool {
    if input.len() < 4 {
        result is Err && text::under(
            result->Err_0,
            "read worker frame length"@,
            "failed to fill whole buffer"@,
            true,
        )
    } else if be32_value(input) > FRAME_LIMIT {
        result is Err && text::plain(result->Err_0, "worker frame exceeds 1 MiB"@)
    } else if input.len() < 4 + be32_value(input) {
        result is Err && text::under(
            result->Err_0,
            "read worker frame"@,
            "failed to fill whole buffer"@,
            true,
        )
    } else {
        result is Ok && result->Ok_0@ == input.subrange(4, 4 + be32_value(input))
    }
}

/// The payload of the frame at the start of `input`.
pub fn read_frame(input: &[u8]) -> (result: Result<Vec<u8>, Failure>)
    ensures
        frame_read(input@, result),
{
    if input.len() < 4 {
        return Err(
            Failure::caused(
                "read worker frame length".to_owned(),
                "failed to fill whole buffer",
                true,
            ),
        );
    }
    let length: u64 = header_length(input);
    if length > FRAME_LIMIT as u64 {
        return Err(Failure::new("worker frame exceeds 1 MiB"));
    }
    if ((input.len() - 4) as u64) < length {
        return Err(
            Failure::caused("read worker frame".to_owned(), "failed to fill whole buffer", true),
        );
    }
    Ok(vstd::slice::slice_to_vec(&input[4..4 + length as usize]))
}

/// Appends the frame of a payload to `output`.
pub fn write_frame(output: &mut Vec<u8>, bytes: &[u8]) -> (result: Result<(), Failure>)
    ensures
        match result {
            Ok(_) => bytes.len() <= FRAME_LIMIT && final(output)@ == old(output)@ + frame(bytes@),
            Err(failure) => {
                &&& bytes.len() > FRAME_LIMIT
                &&& final(output)@ == old(output)@
                &&& text::plain(failure, "worker frame exceeds 1 MiB"@)
            },
        },
{
    if bytes.len() > FRAME_LIMIT {
        return Err(Failure::new("worker frame exceeds 1 MiB"));
    }
    let header = frame_header(bytes.len());
    output.extend_from_slice(header.as_slice());
    output.extend_from_slice(bytes);
    assert(output@ =~= old(output)@ + frame(bytes@));
    Ok(())
}

/// Reading a frame gives back the payload that was written, whatever follows it.
pub proof fn law_frames_round_trip(
    payload: Seq<u8>,
    rest: Seq<u8>,
    result: Result<Vec<u8>, Failure>,
)
    requires
        payload.len() <= FRAME_LIMIT,
        frame_read(frame(payload) + rest, result),
    ensures
        result is Ok,
        result->Ok_0@ == payload,
{
    lemma_be32_round_trip(payload.len() as int);
    let input = frame(payload) + rest;
    assert(be32_value(input) == be32_value(be32(payload.len() as int)));
    assert(input.subrange(4, 4 + payload.len() as int) =~= payload);
}

/// What one call that moves bytes came to.
#[derive(Debug)]
pub enum Transfer {
    /// So many bytes were moved.
    Moved(usize),
    /// The call would have waited; it may be made again.
    Retry,
    /// The call failed, for this reason.
    Failed(String),
}

/// What to do next to read a frame.
#[derive(Debug)]
pub enum ReadStep {
    /// Read at most so many bytes more.
    Read(usize),
    /// The frame is complete.
    Frame(Vec<u8>),
}

/// What to do next to read a frame of which `received` has arrived. The deadline binds as
/// long as bytes are missing.
pub open spec fn read_step(
    received: Seq<u8>,
    expired: bool,
    result: Result<ReadStep, Failure>,
) -> bool {
    if received.len() < 4 {
        if expired {
            result is Err && text::under(
                result->Err_0,
                "read worker frame length"@,
                "worker frame read deadline exceeded"@,
                false,
            )
        } else {
            result == Ok::<ReadStep, Failure>(ReadStep::Read((4 - received.len()) as usize))
        }
    } else if be32_value(received) > FRAME_LIMIT {
        result is Err && text::plain(result->Err_0, "worker frame exceeds 1 MiB"@)
    } else if received.len() < 4 + be32_value(received) {
        if expired {
            result is Err && text::under(
                result->Err_0,
                "read worker frame"@,
                "worker frame read deadline exceeded"@,
                false,
            )
        } else {
            result == Ok::<ReadStep, Failure>(
                ReadStep::Read((4 + be32_value(received) - received.len()) as usize),
            )
        }
    } else {
        result matches Ok(ReadStep::Frame(payload)) && payload@ == received.subrange(
            4,
            4 + be32_value(received),
        )
    }
}

/// What to do next to read a frame of which `received` has arrived.
pub fn read_frame_with_deadline(received: &[u8], expired: bool) -> (result: Result<
    ReadStep,
    Failure,
>)
    ensures
        read_step(received@, expired, result),
{
    if received.len() < 4 {
        if expired {
            return Err(
                Failure::caused(
                    "read worker frame length".to_owned(),
                    "worker frame read deadline exceeded",
                    false,
                ),
            );
        }
        return Ok(ReadStep::Read(4 - received.len()));
    }
    let length: u64 = header_length(received);
    if length > FRAME_LIMIT as u64 {
        return Err(Failure::new("worker frame exceeds 1 MiB"));
    }
    let present: usize = received.len() - 4;
    if (present as u64) < length {
        if expired {
            return Err(
                Failure::caused(
                    "read worker frame".to_owned(),
                    "worker frame read deadline exceeded",
                    false,
                ),
            );
        }
        return Ok(ReadStep::Read(length as usize - present));
    }
    Ok(ReadStep::Frame(vstd::slice::slice_to_vec(&received[4..4 + length as usize])))
}

/// The part of a frame that was being moved, as failures name it.
pub open spec fn frame_part(reading: bool, moved: int) -> Seq<char> {
    if reading {
        if moved < 4 {
            "read worker frame length"@
        } else {
            "read worker frame"@
        }
    } else if moved < 4 {
        "write worker frame length"@
    } else {
        "write worker frame"@
    }
}

fn frame_part_text(reading: bool, moved: usize) -> (part: String)
    ensures
        part@ == frame_part(reading, moved as int),
{
    if reading {
        if moved < 4 {
            "read worker frame length".to_owned()
        } else {
            "read worker frame".to_owned()
        }
    } else if moved < 4 {
        "write worker frame length".to_owned()
    } else {
        "write worker frame".to_owned()
    }
}

/// Whether a transfer lets a frame go on, of which `moved` bytes were moved before it; if
/// it does, how many are moved then.
pub open spec fn transferred(
    reading: bool,
    moved: usize,
    transfer: Transfer,
    result: Result<usize, Failure>,
) -> bool {
    match transfer {
        Transfer::Moved(count) => if count == 0 {
            result is Err && text::under(
                result->Err_0,
                frame_part(reading, moved as int),
                if reading {
                    "unexpected end of worker frame"@
                } else {
                    "unable to write worker frame"@
                },
                false,
            )
        } else {
            result == Ok::<usize, Failure>((moved + count) as usize)
        },
        Transfer::Retry => result == Ok::<usize, Failure>(moved),
        Transfer::Failed(reason) => result is Err && text::under(
            result->Err_0,
            frame_part(reading, moved as int),
            reason@,
            true,
        ),
    }
}

/// Takes in the outcome of one call that moves bytes of a frame.
pub fn take_transfer(reading: bool, moved: usize, transfer: Transfer) -> (result: Result<
    usize,
    Failure,
>)
    requires
        transfer matches Transfer::Moved(count) ==> moved + count <= usize::MAX,
    ensures
        transferred(reading, moved, transfer, result),
{
    match transfer {
        Transfer::Moved(count) => {
            if count == 0 {
                let cause = if reading {
                    "unexpected end of worker frame"
                } else {
                    "unable to write worker frame"
                };
                return Err(Failure::caused(frame_part_text(reading, moved), cause, false));
            }
            Ok(moved + count)
        },
        Transfer::Retry => Ok(moved),
        Transfer::Failed(reason) => {
            Err(Failure::caused(frame_part_text(reading, moved), reason.as_str(), true))
        },
    }
}

/// What to do next to write a frame.
#[derive(Debug, PartialEq, Eq)]
pub enum WriteStep {
    /// Write the header from this place on.
    Header(usize),
    /// Write the payload from this place on.
    Payload(usize),
    /// All is written: flush.
    Flush,
}

/// What to do next to write a payload of `length` bytes, of whose frame `sent` bytes are
/// written. The deadline binds until the frame is flushed.
pub open spec fn write_step(
    length: int,
    sent: int,
    expired: bool,
    result: Result<WriteStep, Failure>,
) -> bool {
    if length > FRAME_LIMIT {
        result is Err && text::plain(result->Err_0, "worker frame exceeds 1 MiB"@)
    } else if expired {
        result is Err && if sent < 4 + length {
            text::under(
                result->Err_0,
                frame_part(false, sent),
                "worker frame write deadline exceeded"@,
                false,
            )
        } else {
            text::plain(result->Err_0, "worker frame write deadline exceeded"@)
        }
    } else if sent < 4 {
        result == Ok::<WriteStep, Failure>(WriteStep::Header(sent as usize))
    } else if sent < 4 + length {
        result == Ok::<WriteStep, Failure>(WriteStep::Payload((sent - 4) as usize))
    } else {
        result == Ok::<WriteStep, Failure>(WriteStep::Flush)
    }
}

/// What to do next to write `bytes`, of whose frame `sent` bytes are written.
pub fn write_frame_with_deadline(bytes: &[u8], sent: usize, expired: bool) -> (result: Result<
    WriteStep,
    Failure,
>)
    ensures
        write_step(bytes.len() as int, sent as int, expired, result),
{
    if bytes.len() > FRAME_LIMIT {
        return Err(Failure::new("worker frame exceeds 1 MiB"));
    }
    if expired {
        if sent < 4 + bytes.len() {
            return Err(
                Failure::caused(
                    frame_part_text(false, sent),
                    "worker frame write deadline exceeded",
                    false,
                ),
            );
        }
        return Err(Failure::new("worker frame write deadline exceeded"));
    }
    if sent < 4 {
        Ok(WriteStep::Header(sent))
    } else if sent < 4 + bytes.len() {
        Ok(WriteStep::Payload(sent - 4))
    } else {
        Ok(WriteStep::Flush)
    }
}

/// A frame read in pieces is the payload that was written: while a part of it is missing,
/// no more than the missing bytes are asked for, and once all is there it is returned,
/// deadline or not.
pub proof fn law_frames_arrive_in_pieces(
    payload: Seq<u8>,
    n: int,
    expired: bool,
    result: Result<ReadStep, Failure>,
)
    requires
        payload.len() <= FRAME_LIMIT,
        0 <= n <= frame(payload).len(),
        read_step(frame(payload).take(n), expired, result),
    ensures
        n == frame(payload).len() ==> result is Ok && result->Ok_0 is Frame
            && result->Ok_0->Frame_0@ == payload,
        n < frame(payload).len() && !expired ==> result is Ok && result->Ok_0 is Read && 0
            < result->Ok_0->Read_0 <= frame(payload).len() - n,
        n < frame(payload).len() && expired ==> result is Err,
{
    lemma_be32_round_trip(payload.len() as int);
    let received = frame(payload).take(n);
    if n >= 4 {
        assert(be32_value(received) == be32_value(be32(payload.len() as int)));
        if n == frame(payload).len() {
            assert(received.subrange(4, 4 + payload.len() as int) =~= payload);
        }
    }
}

/// The bytes of all texts together, as far as they can be counted.
pub open spec fn total_bytes(texts: Seq<String>) -> nat
    decreases texts.len(),
{
    if texts.len() == 0 {
        0
    } else {
        total_bytes(texts.drop_last()) + pins::byte_len(texts.last()@)
    }
}

/// How many bytes `texts` hold together; a count too large for the machine stays at the
/// largest one.
pub fn raw_input_bytes(texts: &[String]) -> (total: usize)
    ensures
        total == if total_bytes(texts@) <= usize::MAX {
            total_bytes(texts@) as int
        } else {
            usize::MAX as int
        },
{
    let mut total: usize = 0;
    let mut i: usize = 0;
    assert(texts@.take(0) =~= Seq::<String>::empty());
    while i < texts.len()
        invariant
            i <= texts.len(),
            total == if total_bytes(texts@.take(i as int)) <= usize::MAX {
                total_bytes(texts@.take(i as int)) as int
            } else {
                usize::MAX as int
            },
        decreases texts.len() - i,
    {
        assert(texts@.take(i + 1).drop_last() =~= texts@.take(i as int));
        total = total.saturating_add(texts[i].as_str().as_bytes().len());
        i += 1;
    }
    assert(texts@.take(i as int) =~= texts@);
    total
}

/// Why a batch of texts is refused, if it is.
pub open spec fn inputs_fault(texts: Seq<String>) -> Option<Seq<char>> {
    if texts.len() > MAX_INPUTS {
        Some("semantic_admission: at most 8 inputs per batch"@)
    } else if total_bytes(texts) > MAX_RAW_INPUT_BYTES {
        Some("semantic_admission: raw inputs exceed 8 MiB"@)
    } else {
        None
    }
}

/// Refuses a batch of too many texts, or of texts that are too long together.
pub fn validate_inputs(texts: &[String]) -> (result: Result<(), Failure>)
    ensures
        match result {
            Ok(_) => inputs_fault(texts@) is None,
            Err(failure) => inputs_fault(texts@) is Some && text::plain(
                failure,
                inputs_fault(texts@)->0,
            ),
        },
{
    if texts.len() > MAX_INPUTS {
        return Err(Failure::new("semantic_admission: at most 8 inputs per batch"));
    }
    if raw_input_bytes(texts) > MAX_RAW_INPUT_BYTES {
        return Err(Failure::new("semantic_admission: raw inputs exceed 8 MiB"));
    }
    Ok(())
}

/// Refuses a reranking request that is out of bounds.
pub fn validate_rerank_inputs(bounds: &RerankBounds, query: &str, documents: &[String]) -> (result:
    Result<(), Failure>)
    ensures
        pins::rerank_bounds_hold(*bounds, query@, documents@, result),
{
    pins::check_rerank_bounds(bounds, query, documents)
}

/// Whether a command may be sent or served, or why not.
pub open spec fn command_checked(
    bounds: RerankBounds,
    command: WorkerCommand,
    result: Result<(), Failure>,
) -> bool {
    match command {
        WorkerCommand::Embed { root_id, texts, deadline_ms, .. } => if root_id@.len() == 0 {
            result is Err && text::plain(result->Err_0, "semantic_admission: root id is empty"@)
        } else if deadline_ms == 0 {
            result is Err && text::plain(result->Err_0, "semantic_admission: deadline is missing"@)
        } else {
            match inputs_fault(texts@) {
                None => result is Ok,
                Some(fault) => result is Err && text::plain(result->Err_0, fault),
            }
        },
        WorkerCommand::Rerank { root_id, query, documents, deadline_ms } => if root_id@.len()
            == 0 {
            result is Err && text::plain(result->Err_0, "rerank_admission: root id is empty"@)
        } else if deadline_ms == 0 {
            result is Err && text::plain(result->Err_0, "rerank_admission: deadline is missing"@)
        } else {
            pins::rerank_bounds_hold(bounds, query@, documents@, result)
        },
        WorkerCommand::Status => result is Ok,
        WorkerCommand::Stop => result is Ok,
    }
}

/// Checks a command before it is sent and before it is served.
pub fn validate_command(bounds: &RerankBounds, command: &WorkerCommand) -> (result: Result<
    (),
    Failure,
>)
    ensures
        command_checked(*bounds, *command, result),
{
    match command {
        WorkerCommand::Embed { root_id, texts, deadline_ms, .. } => {
            if root_id.as_str().is_empty() {
                return Err(Failure::new("semantic_admission: root id is empty"));
            }
            if *deadline_ms == 0 {
                return Err(Failure::new("semantic_admission: deadline is missing"));
            }
            validate_inputs(texts.as_slice())
        },
        WorkerCommand::Rerank { root_id, query, documents, deadline_ms } => {
            if root_id.as_str().is_empty() {
                return Err(Failure::new("rerank_admission: root id is empty"));
            }
            if *deadline_ms == 0 {
                return Err(Failure::new("rerank_admission: deadline is missing"));
            }
            validate_rerank_inputs(bounds, query.as_str(), documents.as_slice())
        },
        WorkerCommand::Status => Ok(()),
        WorkerCommand::Stop => Ok(()),
    }
}

/// The payload to send for a reply: the reply as it was encoded, or, where that is too
/// large for a frame, the encoding of a refusal.
pub fn reply_payload(encoded: Vec<u8>, too_large: Vec<u8>) -> (payload: Vec<u8>)
    ensures
        payload == if encoded.len() <= FRAME_LIMIT {
            encoded
        } else {
            too_large
        },
{
    if encoded.len() <= FRAME_LIMIT {
        encoded
    } else {
        too_large
    }
}

/// What a client is told in place of a reply that is too large.
pub fn oversized_reply() -> (reply: WorkerReply)
    ensures
        reply matches WorkerReply::Error { message } && message@ == "worker reply exceeds 1 MiB"@,
{
    WorkerReply::Error { message: "worker reply exceeds 1 MiB".to_owned() }
}

} // verus!
