//! What holds of the requests to a worker, and of what their answers come to.

use crate::semantic::pins;
use crate::semantic::pins::ModelPins;
use crate::semantic::pins::RerankBounds;
use crate::semantic::runtime_config::InferenceConfig;
use crate::semantic::worker::admission;
use crate::semantic::worker::admission::AdmissionController;
use crate::semantic::worker::client;
use crate::semantic::worker::client::Caller;
use crate::semantic::worker::client::EmbedKind;
use crate::semantic::worker::client::Exchange;
use crate::semantic::worker::client::IoKind;
use crate::semantic::worker::client::Moment;
use crate::semantic::worker::client::Verdict;
use crate::semantic::worker::protocol;
use crate::semantic::worker::protocol::WorkerCommand;
use crate::semantic::worker::protocol::WorkerRequest;
use crate::semantic::worker::scheduler::RequestClass;
use crate::text::Failure;
use vstd::prelude::*;
use vstd::utf8;

verus! {

/// How many bytes texts have together.
pub open spec fn bytes_together(texts: Seq<String>) -> nat
    decreases texts.len(),
{
    if texts.len() == 0 {
        0
    } else {
        utf8::encode_utf8(texts.last()@).len() + bytes_together(texts.drop_last())
    }
}

/// Whether texts are few and short enough to be embedded together: no more than eight, of no more
/// than eight mebibytes.
pub open spec fn is_small(texts: Seq<String>) -> bool {
    texts.len() <= 8 && bytes_together(texts) <= 8388608
}

proof fn lemma_small(texts: Seq<String>)
    ensures
        protocol::inputs_fault(texts) is None <==> is_small(texts),
{
    lemma_bytes_together(texts);
}

proof fn lemma_bytes_together(texts: Seq<String>)
    ensures
        protocol::total_bytes(texts) == bytes_together(texts),
    decreases texts.len(),
{
    if texts.len() > 0 {
        lemma_bytes_together(texts.drop_last());
    }
}

/// How many nanoseconds a request for embeddings may take: half a second for a query, and a
/// minute in the background.
pub open spec fn time_for(kind: EmbedKind) -> int {
    match kind {
        EmbedKind::Query => 500_000_000,
        EmbedKind::Background => 60_000_000_000,
    }
}

/// Whether a deadline, in milliseconds of the wall clock, is the end of the time that is left.
pub open spec fn is_deadline(moment: Moment, time: int, deadline_ms: u64) -> bool {
    let end = moment.unix_now + (moment.started + time - moment.now);
    deadline_ms * 1_000_000 <= end && end < (deadline_ms + 1) * 1_000_000
}

/// A request for embeddings has the texts that were given, the class of what was asked, and ends
/// when its time does. It is sent just where the texts are small and there is time left that the
/// clock can tell.
pub proof fn law_requests_ask_for_what_was_given(
    caller: Caller,
    kind: EmbedKind,
    texts: Seq<String>,
    moment: Moment,
    result: Result<WorkerRequest, Failure>,
)
    requires
        client::embed_prepared(caller, kind, texts, moment, result),
        moment.started <= moment.now,
    ensures
        result is Ok <==> {
            &&& is_small(texts)
            &&& moment.now < moment.started + time_for(kind)
            &&& moment.unix_now + (moment.started + time_for(kind) - moment.now) <= u64::MAX
        },
        result matches Ok(request) ==> {
            &&& request.handshake.identifies(*caller.pins, *caller.config, caller.serialized@)
            &&& request.command is Embed
            &&& request.command->Embed_class == match kind {
                EmbedKind::Query => RequestClass::Query,
                EmbedKind::Background => RequestClass::Background,
            }
            &&& request.command->Embed_texts@.len() == texts.len()
            &&& forall|i: int|
                0 <= i < texts.len() ==> (#[trigger] request.command->Embed_texts@[i])@
                    == texts[i]@
            &&& is_deadline(moment, time_for(kind), request.command->Embed_deadline_ms)
        },
{
    lemma_small(texts);
    if protocol::inputs_fault(texts) is None {
        let deadline = choose|deadline: Result<u64, Failure>|
            {
                &&& #[trigger] client::deadline_set(moment, kind.as_budget(), deadline)
                &&& match deadline {
                    Err(failure) => result == Err::<WorkerRequest, Failure>(failure),
                    Ok(deadline) => result is Ok && (result->Ok_0.command matches WorkerCommand::Embed {
                        deadline_ms,
                        ..
                    } && deadline_ms == deadline),
                }
            };
        lemma_deadline(moment, kind.as_budget(), deadline);
    }
}

proof fn lemma_deadline(moment: Moment, budget: u64, deadline: Result<u64, Failure>)
    requires
        client::deadline_set(moment, budget, deadline),
        moment.started <= moment.now,
    ensures
        deadline is Ok <==> moment.now < moment.started + budget && moment.unix_now + (
        moment.started + budget - moment.now) <= u64::MAX,
        deadline matches Ok(end) ==> is_deadline(moment, budget as int, end),
{
}

/// A request for reranking has the query and the documents that were given, and ends a second and
/// a half after it was started. It is sent just where it is within bounds and there is time left
/// that the clock can tell.
pub proof fn law_rerank_requests_ask_for_what_was_given(
    caller: Caller,
    bounds: RerankBounds,
    query: Seq<char>,
    documents: Seq<String>,
    moment: Moment,
    result: Result<WorkerRequest, Failure>,
)
    requires
        client::rerank_prepared(caller, bounds, query, documents, moment, result),
        moment.started <= moment.now,
    ensures
        result is Ok ==> {
            &&& documents.len() <= bounds.max_documents
            &&& utf8::encode_utf8(query).len() <= bounds.max_document_bytes
            &&& moment.now < moment.started + 1_500_000_000
        },
        result matches Ok(request) ==> {
            &&& request.handshake.identifies(*caller.pins, *caller.config, caller.serialized@)
            &&& request.command is Rerank
            &&& request.command->Rerank_query@ == query
            &&& request.command->Rerank_documents@.len() == documents.len()
            &&& forall|i: int|
                0 <= i < documents.len() ==> (#[trigger] request.command->Rerank_documents@[i])@
                    == documents[i]@
            &&& is_deadline(moment, 1_500_000_000, request.command->Rerank_deadline_ms)
        },
{
    let (checked, deadline) = choose|checked: Result<(), Failure>, deadline: Result<u64, Failure>|
        {
            &&& #[trigger] pins::rerank_bounds_hold(bounds, query, documents, checked)
            &&& #[trigger] client::deadline_set(moment, client::RERANK_DEADLINE, deadline)
            &&& match (checked, deadline) {
                (Err(failure), _) => result == Err::<WorkerRequest, Failure>(failure),
                (Ok(_), Err(failure)) => result == Err::<WorkerRequest, Failure>(failure),
                (Ok(_), Ok(deadline)) => result is Ok && (
                result->Ok_0.command matches WorkerCommand::Rerank { deadline_ms, .. }
                    && deadline_ms == deadline),
            }
        };
    lemma_deadline(moment, client::RERANK_DEADLINE, deadline);
}

/// Embeddings that came back are handed on, and so is what the worker says of a failure. A worker
/// is started just where nobody listens; anything else that went wrong is a failure.
pub proof fn law_answers_are_handed_on(exchange: Exchange, verdict: Verdict<Vec<Vec<u32>>>)
    requires
        client::embed_settled(exchange, verdict),
    ensures
        verdict is StartWorker <==> exchange is Unreached && (exchange->Unreached_kind
            == IoKind::NotFound || exchange->Unreached_kind == IoKind::ConnectionRefused),
        verdict is Settled && verdict->Settled_0 is Ok <==> exchange is Reply
            && exchange->Reply_0 is Embeddings,
        exchange is Reply && exchange->Reply_0 is Embeddings ==> verdict->Settled_0->Ok_0
            == exchange->Reply_0->Embeddings_values,
        exchange is Reply && exchange->Reply_0 is Error ==> verdict->Settled_0->Err_0.headline@
            == "semantic_worker: "@ + exchange->Reply_0->Error_message@,
        exchange is Broken ==> verdict->Settled_0->Err_0 == exchange->Broken_failure,
{
}

/// Scores that came back are handed on in the same way.
pub proof fn law_scores_are_handed_on(exchange: Exchange, verdict: Verdict<Vec<u32>>)
    requires
        client::rerank_settled(exchange, verdict),
    ensures
        verdict is StartWorker <==> exchange is Unreached && (exchange->Unreached_kind
            == IoKind::NotFound || exchange->Unreached_kind == IoKind::ConnectionRefused),
        verdict is Settled && verdict->Settled_0 is Ok <==> exchange is Reply
            && exchange->Reply_0 is Scores,
        exchange is Reply && exchange->Reply_0 is Scores ==> verdict->Settled_0->Ok_0
            == exchange->Reply_0->Scores_values,
        exchange is Reply && exchange->Reply_0 is Error ==> verdict->Settled_0->Err_0.headline@
            == "rerank_worker: "@ + exchange->Reply_0->Error_message@,
        exchange is Broken ==> verdict->Settled_0->Err_0 == exchange->Broken_failure,
{
}

/// A command is served just where it says what root it is for and when it ends, and what it asks
/// for is within bounds; one that asks for nothing always is.
pub proof fn law_commands_within_bounds_are_served(
    bounds: RerankBounds,
    command: WorkerCommand,
    result: Result<(), Failure>,
)
    requires
        protocol::command_checked(bounds, command, result),
    ensures
        command is Status || command is Stop ==> result is Ok,
        command is Embed ==> (result is Ok <==> command->Embed_root_id@.len() > 0
            && command->Embed_deadline_ms > 0 && is_small(command->Embed_texts@)),
        command is Rerank && result is Ok ==> {
            &&& command->Rerank_root_id@.len() > 0
            &&& command->Rerank_deadline_ms > 0
            &&& command->Rerank_documents@.len() <= bounds.max_documents
            &&& utf8::encode_utf8(command->Rerank_query@).len() <= bounds.max_document_bytes
            &&& forall|i: int|
                0 <= i < command->Rerank_documents@.len() ==> utf8::encode_utf8(
                    (#[trigger] command->Rerank_documents@[i])@,
                ).len() <= bounds.max_document_bytes
        },
{
    if command is Embed {
        lemma_small(command->Embed_texts@);
    }
    if command is Rerank && result is Ok {
        let documents = command->Rerank_documents@;
        assert forall|i: int| 0 <= i < documents.len() implies utf8::encode_utf8(
            (#[trigger] documents[i])@,
        ).len() <= bounds.max_document_bytes by {
            assert(pins::byte_len(documents[i]@) <= bounds.max_document_bytes);
        }
    }
}

/// A batch is admitted just where it is within the limits by itself, there is room for one more,
/// and its bytes are within the limit together with those that were admitted before.
pub proof fn law_batches_are_admitted_within_limits(
    controller: AdmissionController,
    inputs: usize,
    raw_input_bytes: usize,
)
    requires
        controller.well_formed(),
    ensures
        admission::refusal(controller, inputs, raw_input_bytes) is None <==> {
            &&& inputs <= controller.limits.max_inputs
            &&& controller.queued + controller.inflight < controller.limits.max_admitted
            &&& controller.raw_input_bytes + raw_input_bytes
                <= controller.limits.max_raw_input_bytes
        },
{
}

proof fn lemma_middle(front: Seq<char>, a: Seq<char>, b: Seq<char>, back: Seq<char>)
    ensures
        front + a + back == front + b + back <==> a == b,
{
    if front + a + back == front + b + back {
        let whole = front + a + back;
        let other = front + b + back;
        assert(whole.len() == other.len());
        assert(a =~= whole.subrange(front.len() as int, (front.len() + a.len()) as int));
        assert(b =~= other.subrange(front.len() as int, (front.len() + b.len()) as int));
    }
}

/// Models are told apart by each part of what they are: where all else is the same, another name,
/// revision or place of the embedder or of the reranker makes another identity.
pub proof fn law_models_are_told_apart(
    a: ModelPins,
    b: ModelPins,
    one: InferenceConfig,
    two: InferenceConfig,
)
    ensures
        a.model_revision@ == b.model_revision@ && a.reranker_name@ == b.reranker_name@
            && a.reranker_revision@ == b.reranker_revision@ && one.model_dir == two.model_dir
            && one.rerank_model_dir == two.rerank_model_dir && a.model_name@ != b.model_name@
            ==> protocol::model_text(a, one) != protocol::model_text(b, two),
        a.model_name@ == b.model_name@ && a.reranker_name@ == b.reranker_name@
            && a.reranker_revision@ == b.reranker_revision@ && one.model_dir == two.model_dir
            && one.rerank_model_dir == two.rerank_model_dir && a.model_revision@
            != b.model_revision@ ==> protocol::model_text(a, one) != protocol::model_text(b, two),
        a.model_name@ == b.model_name@ && a.model_revision@ == b.model_revision@
            && a.reranker_revision@ == b.reranker_revision@ && one.model_dir == two.model_dir
            && one.rerank_model_dir == two.rerank_model_dir && a.reranker_name@
            != b.reranker_name@ ==> protocol::model_text(a, one) != protocol::model_text(b, two),
        a.model_name@ == b.model_name@ && a.model_revision@ == b.model_revision@
            && a.reranker_name@ == b.reranker_name@ && one.model_dir == two.model_dir
            && one.rerank_model_dir == two.rerank_model_dir && a.reranker_revision@
            != b.reranker_revision@ ==> protocol::model_text(a, one) != protocol::model_text(
            b,
            two,
        ),
        a.model_name@ == b.model_name@ && a.model_revision@ == b.model_revision@
            && a.reranker_name@ == b.reranker_name@ && a.reranker_revision@ == b.reranker_revision@
            && one.rerank_model_dir == two.rerank_model_dir && protocol::path_text(one.model_dir)
            != protocol::path_text(two.model_dir) ==> protocol::model_text(a, one)
            != protocol::model_text(b, two),
        a.model_name@ == b.model_name@ && a.model_revision@ == b.model_revision@
            && a.reranker_name@ == b.reranker_name@ && a.reranker_revision@ == b.reranker_revision@
            && one.model_dir == two.model_dir && protocol::path_text(one.rerank_model_dir)
            != protocol::path_text(two.rerank_model_dir) ==> protocol::model_text(a, one)
            != protocol::model_text(b, two),
{
    let none = Seq::<char>::empty();
    let x = protocol::model_text(a, one);
    let y = protocol::model_text(b, two);
    let home = protocol::path_text(one.model_dir);
    let other = protocol::path_text(two.model_dir);
    let last = protocol::path_text(one.rerank_model_dir);
    let final_one = protocol::path_text(two.rerank_model_dir);
    let tail = ":"@ + a.model_revision@ + ":"@ + home + ":"@ + a.reranker_name@ + ":"@
        + a.reranker_revision@ + ":"@ + last;
    let tail_b = ":"@ + b.model_revision@ + ":"@ + other + ":"@ + b.reranker_name@ + ":"@
        + b.reranker_revision@ + ":"@ + final_one;
    assert(x =~= none + a.model_name@ + tail);
    assert(y =~= none + b.model_name@ + tail_b);
    lemma_middle(none, a.model_name@, b.model_name@, tail);
    let head = a.model_name@ + ":"@;
    let head_b = b.model_name@ + ":"@;
    let after = ":"@ + home + ":"@ + a.reranker_name@ + ":"@ + a.reranker_revision@ + ":"@ + last;
    let after_b = ":"@ + other + ":"@ + b.reranker_name@ + ":"@ + b.reranker_revision@ + ":"@
        + final_one;
    assert(x =~= head + a.model_revision@ + after);
    assert(y =~= head_b + b.model_revision@ + after_b);
    lemma_middle(head, a.model_revision@, b.model_revision@, after);
    let upto = head + a.model_revision@ + ":"@;
    let upto_b = head_b + b.model_revision@ + ":"@;
    let behind = ":"@ + a.reranker_name@ + ":"@ + a.reranker_revision@ + ":"@ + last;
    let behind_b = ":"@ + b.reranker_name@ + ":"@ + b.reranker_revision@ + ":"@ + final_one;
    assert(x =~= upto + home + behind);
    assert(y =~= upto_b + other + behind_b);
    lemma_middle(upto, home, other, behind);
    let more = upto + home + ":"@;
    let more_b = upto_b + other + ":"@;
    let rest = ":"@ + a.reranker_revision@ + ":"@ + last;
    let rest_b = ":"@ + b.reranker_revision@ + ":"@ + final_one;
    assert(x =~= more + a.reranker_name@ + rest);
    assert(y =~= more_b + b.reranker_name@ + rest_b);
    lemma_middle(more, a.reranker_name@, b.reranker_name@, rest);
    let longer = more + a.reranker_name@ + ":"@;
    let longer_b = more_b + b.reranker_name@ + ":"@;
    assert(x =~= longer + a.reranker_revision@ + (":"@ + last));
    assert(y =~= longer_b + b.reranker_revision@ + (":"@ + final_one));
    lemma_middle(longer, a.reranker_revision@, b.reranker_revision@, ":"@ + last);
    let whole = longer + a.reranker_revision@ + ":"@;
    let whole_b = longer_b + b.reranker_revision@ + ":"@;
    assert(x =~= whole + last + none);
    assert(y =~= whole_b + final_one + none);
    lemma_middle(whole, last, final_one, none);
}

} // verus!
