//! What holds of how batches are made up, and of what their failures mean.

use crate::semantic::inference::batch;
use crate::semantic::preparation::worker;
use crate::semantic::runtime_config::InferenceConfig;
use crate::semantic::runtime_config::InferenceProvider;
use crate::text;
use crate::text::Failure;
use crate::text_laws;
use vstd::prelude::*;

verus! {

/// Whether a text is said of an input that the model does not take.
pub open spec fn is_said_of_inputs(part: Seq<char>) -> bool {
    ||| part == "input at batch index"@
    ||| part == "inference failed for batch inputs"@
    ||| part == "model returned"@
    ||| part == "invalid model output"@
    ||| part == "raw inputs exceed"@
}

/// Whether a text is said of a worker, a provider or a runtime that is not there.
pub open spec fn is_said_of_runtimes(part: Seq<char>) -> bool {
    ||| part == "semantic_loading"@
    ||| part == "semantic_busy"@
    ||| part == "semantic_root_busy"@
    ||| part == "semantic_worker_busy"@
    ||| part == "semantic_worker_unavailable"@
    ||| part == "semantic_worker:"@
    ||| part == "semantic_admission"@
    ||| part == "handshake_mismatch"@
    ||| part == "protocol:"@
    ||| part == "busy"@
    ||| part == "disconnected"@
    ||| part == "unexpected end of worker frame"@
    ||| part == "connection reset"@
    ||| part == "broken pipe"@
    ||| part == "no such file"@
    ||| part == "deadline"@
    ||| part == "timed out"@
    ||| part == "timeout"@
    ||| part == "connection refused"@
    ||| part == "worker is starting"@
    ||| part == "runtime unavailable"@
    ||| part == "runtime_unavailable"@
    ||| part == "provider unavailable"@
    ||| part == "cuda_unavailable"@
    ||| part == "inference_config"@
    ||| part == "semantic_unavailable"@
}

proof fn lemma_says(whole: Seq<char>, part: Seq<char>)
    ensures
        text_laws::says(whole, part) <==> text::contains(whole, part),
{
    if text_laws::says(whole, part) {
        let (front, back) = choose|front: Seq<char>, back: Seq<char>|
            whole == #[trigger] (front + part + back);
        let i = front.len() as int;
        assert(whole.subrange(i, i + part.len()) =~= part);
        assert(text::occurs_at(whole, part, i));
    }
    if text::contains(whole, part) {
        let i = choose|i: int| #[trigger] text::occurs_at(whole, part, i);
        let front = whole.take(i);
        let back = whole.skip(i + part.len());
        assert(whole =~= front + whole.subrange(i, i + part.len()) + back);
        assert(whole == front + part + back);
    }
}

/// A failure of the transport may pass, whatever it says. Another one may pass where it tells of
/// a worker, a provider or a runtime that is not there, in any case of its letters; but not where
/// it tells of an input that the model does not take.
pub proof fn law_failures_of_the_runtime_may_pass(failure: Failure, part: Seq<char>)
    ensures
        failure.transport ==> worker::runtime_failure(failure),
        !failure.transport && is_said_of_inputs(part) && text_laws::says(
            text::ascii_lower(failure.message@),
            part,
        ) ==> !worker::runtime_failure(failure),
        is_said_of_runtimes(part) && text_laws::says(text::ascii_lower(failure.message@), part) && (forall|
            other: Seq<char>,
        |
            is_said_of_inputs(other) ==> !#[trigger] text_laws::says(
                text::ascii_lower(failure.message@),
                other,
            )) ==> worker::runtime_failure(failure),
{
    let message = text::ascii_lower(failure.message@);
    lemma_says(message, part);
    lemma_says(message, "input at batch index"@);
    lemma_says(message, "inference failed for batch inputs"@);
    lemma_says(message, "model returned"@);
    lemma_says(message, "invalid model output"@);
    lemma_says(message, "raw inputs exceed"@);
}

/// Any other failure is one for good.
pub proof fn law_other_failures_stay(failure: Failure)
    requires
        !failure.transport,
        forall|part: Seq<char>|
            is_said_of_runtimes(part) ==> !#[trigger] text_laws::says(
                text::ascii_lower(failure.message@),
                part,
            ),
    ensures
        !worker::runtime_failure(failure),
{
    let message = text::ascii_lower(failure.message@);
    assert forall|part: Seq<char>| is_said_of_runtimes(part) implies !#[trigger] text::contains(
        message,
        part,
    ) by {
        lemma_says(message, part);
    }
}

/// Letters are told apart by more than their case nowhere: a letter of ASCII in uppercase counts
/// as the one in lowercase, and all else as it is.
pub proof fn law_case_does_not_matter(s: Seq<char>, i: int)
    requires
        0 <= i < s.len(),
    ensures
        text::ascii_lower(s).len() == s.len(),
        !('A' <= s[i] <= 'Z') ==> text::ascii_lower(s)[i] == s[i],
        'A' <= s[i] <= 'Z' ==> text::ascii_lower(s)[i] as int == s[i] as int + 32,
{
}

/// A batch of texts that the model takes ends only where all texts are in it, or it has eight, or
/// the next is too long for the model, or the next would make it more than 8192 tokens once all
/// are as long as the longest.
pub proof fn law_batches_end_only_where_they_must(tokens: Seq<usize>, start: int, end: int)
    requires
        0 <= start,
        worker::batch_ends(tokens, start, end),
        tokens[start] <= 4096,
        end < tokens.len(),
    ensures
        end - start <= 8,
        ({
            ||| end - start == 8
            ||| tokens[end] > 4096
            ||| exists|k: int|
                start <= k <= end && #[trigger] tokens[k] * (end + 1 - start) > 8192
        }),
{
    if end - start != 8 && tokens[end] <= 4096 {
        lemma_longest(tokens, start, end + 1);
        let k = choose|k: int|
            start <= k < end + 1 && #[trigger] tokens[k] == batch::longest(tokens, start, end + 1);
        assert(tokens[k] * (end + 1 - start) == batch::padded(tokens, start, end + 1));
    }
}

proof fn lemma_longest(lengths: Seq<usize>, a: int, b: int)
    requires
        0 <= a < b <= lengths.len(),
    ensures
        exists|k: int| a <= k < b && #[trigger] lengths[k] == batch::longest(lengths, a, b),
    decreases b - a,
{
    if b - a > 1 {
        lemma_longest(lengths, a, b - 1);
        let k = choose|k: int|
            a <= k < b - 1 && #[trigger] lengths[k] == batch::longest(lengths, a, b - 1);
        if lengths[b - 1] <= batch::longest(lengths, a, b - 1) {
            assert(lengths[k] == batch::longest(lengths, a, b));
        } else {
            assert(lengths[b - 1] == batch::longest(lengths, a, b));
        }
    } else {
        assert(batch::longest(lengths, a, a) == 0);
        assert(lengths[a] == batch::longest(lengths, a, b));
    }
}

/// A text that is too long for the model goes alone, and no batch has one beside others.
pub proof fn law_texts_that_are_too_long_go_alone(
    tokens: Seq<usize>,
    start: int,
    end: int,
    k: int,
)
    requires
        0 <= start <= k < end,
        worker::batch_ends(tokens, start, end),
        tokens[k] > 4096,
    ensures
        start == k,
        end == k + 1,
{
    if tokens[start] <= 4096 {
        assert(worker::all_usable(tokens, start, end));
    }
}

/// Inference in this process needs no device on the CPU. With CUDA it needs the configured device
/// to be the one that is visible: without one, or where anything else is visible, it is refused.
pub proof fn law_the_configured_device_is_the_visible_one(
    config: InferenceConfig,
    visible: Seq<char>,
)
    ensures
        worker::mask_fault(config, visible) is None <==> {
            ||| config.provider != InferenceProvider::Cuda
            ||| config.gpu_uuid is Some && config.gpu_uuid->0@ == visible
        },
{
}

} // verus!
