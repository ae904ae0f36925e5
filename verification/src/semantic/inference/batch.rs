//! Which texts go to the model together, and what becomes of the outcomes.

use crate::semantic::embedding::Embedding;
use crate::semantic::inference::{MAX_BATCH_INPUTS, MAX_BATCH_PADDED_TOKENS, MAX_INPUT_TOKENS};
use crate::text;
use crate::text::Failure;
use std::ops::Range;
use vstd::prelude::*;
use vstd::string::StringExecFns;

verus! {

/// The largest of the lengths `a..b`.
pub open spec fn longest(lengths: Seq<usize>, a: int, b: int) -> int
    decreases b - a,
{
    if b <= a {
        0
    } else {
        let before = longest(lengths, a, b - 1);
        if lengths[b - 1] > before {
            lengths[b - 1] as int
        } else {
            before
        }
    }
}

/// The tokens of a batch once each text is padded to the longest.
pub open spec fn padded(lengths: Seq<usize>, a: int, b: int) -> int {
    longest(lengths, a, b) * (b - a)
}

/// Whether the texts `a..b` may go to the model together.
pub open spec fn batch_fits(lengths: Seq<usize>, a: int, b: int) -> bool {
    b - a <= MAX_BATCH_INPUTS && padded(lengths, a, b) <= MAX_BATCH_PADDED_TOKENS
}

/// What the refusal of a text that is too long says.
pub open spec fn too_long(index: int, length: int) -> Seq<char> {
    "semantic_unavailable: input at batch index "@ + text::decimal(index as nat)
        + " exceeds 4096 model tokens (got "@ + text::decimal(length as nat) + ")"@
}

fn too_long_failure(index: usize, length: usize) -> (failure: Failure)
    ensures
        text::plain(failure, too_long(index as int, length as int)),
{
    let mut message = "semantic_unavailable: input at batch index ".to_owned();
    message.append(text::decimal_text(index as u64).as_str());
    message.append(" exceeds 4096 model tokens (got ");
    message.append(text::decimal_text(length as u64).as_str());
    message.append(")");
    Failure::of(message)
}

/// Refuses a text that is too long for the model.
pub fn token_length(length: usize, index: usize) -> (result: Result<usize, Failure>)
    ensures
        match result {
            Ok(accepted) => length <= MAX_INPUT_TOKENS && accepted == length,
            Err(failure) => length > MAX_INPUT_TOKENS && text::plain(
                failure,
                too_long(index as int, length as int),
            ),
        },
{
    if length > MAX_INPUT_TOKENS {
        Err(too_long_failure(index, length))
    } else {
        Ok(length)
    }
}

/// Whether a batch starts where the one before it ends, fits, and could not take the next
/// text too.
pub open spec fn range_at(lengths: Seq<usize>, ranges: Seq<Range<usize>>, i: int) -> bool {
    let start = if i == 0 {
        0int
    } else {
        ranges[i - 1].end as int
    };
    &&& ranges[i].start == start
    &&& ranges[i].start < ranges[i].end <= lengths.len()
    &&& batch_fits(lengths, start, ranges[i].end as int)
    &&& ranges[i].end < lengths.len() ==> !batch_fits(lengths, start, ranges[i].end + 1)
}

/// Whether batches are planned for texts of these lengths: in order, all of them, each batch
/// as large as it may be.
pub open spec fn planned(lengths: Seq<usize>, ranges: Seq<Range<usize>>) -> bool {
    &&& forall|i: int| 0 <= i < ranges.len() ==> #[trigger] range_at(lengths, ranges, i)
    &&& (if ranges.len() == 0 {
        0
    } else {
        ranges.last().end as int
    }) == lengths.len()
}

proof fn lemma_longest_bound(lengths: Seq<usize>, a: int, b: int)
    requires
        0 <= a <= b <= lengths.len(),
        forall|i: int| 0 <= i < lengths.len() ==> (#[trigger] lengths[i]) <= MAX_INPUT_TOKENS,
    ensures
        0 <= longest(lengths, a, b) <= MAX_INPUT_TOKENS,
    decreases b - a,
{
    if a < b {
        lemma_longest_bound(lengths, a, b - 1);
    }
}

/// The batches for texts of the given token lengths.
pub fn plan_batch_ranges(token_lengths: &[usize]) -> (result: Result<Vec<Range<usize>>, Failure>)
    ensures
        match result {
            Ok(ranges) => {
                &&& forall|i: int|
                    0 <= i < token_lengths.len() ==> (#[trigger] token_lengths@[i])
                        <= MAX_INPUT_TOKENS
                &&& planned(token_lengths@, ranges@)
            },
            Err(failure) => exists|i: int|
                {
                    &&& 0 <= i < token_lengths.len()
                    &&& (#[trigger] token_lengths@[i]) > MAX_INPUT_TOKENS
                    &&& forall|j: int|
                        0 <= j < i ==> (#[trigger] token_lengths@[j]) <= MAX_INPUT_TOKENS
                    &&& text::plain(failure, too_long(i, token_lengths@[i] as int))
                },
        },
{
    let mut index: usize = 0;
    while index < token_lengths.len()
        invariant
            index <= token_lengths.len(),
            forall|j: int| 0 <= j < index ==> (#[trigger] token_lengths@[j]) <= MAX_INPUT_TOKENS,
        decreases token_lengths.len() - index,
    {
        if token_lengths[index] > MAX_INPUT_TOKENS {
            return Err(too_long_failure(index, token_lengths[index]));
        }
        index += 1;
    }
    let mut ranges: Vec<Range<usize>> = Vec::new();
    let mut start: usize = 0;
    while start < token_lengths.len()
        invariant
            start <= token_lengths.len(),
            start == if ranges.len() == 0 {
                0
            } else {
                ranges@.last().end as int
            },
            forall|j: int|
                0 <= j < token_lengths.len() ==> (#[trigger] token_lengths@[j]) <= MAX_INPUT_TOKENS,
            forall|i: int|
                0 <= i < ranges.len() ==> #[trigger] range_at(token_lengths@, ranges@, i),
        decreases token_lengths.len() - start,
    {
        let mut end: usize = start;
        let mut max: usize = 0;
        while end < token_lengths.len() && end - start < MAX_BATCH_INPUTS
            invariant_except_break
                start <= end <= token_lengths.len(),
            invariant
                start < token_lengths.len(),
                start <= end <= token_lengths.len(),
                end - start <= MAX_BATCH_INPUTS,
                forall|j: int|
                    0 <= j < token_lengths.len() ==> (#[trigger] token_lengths@[j])
                        <= MAX_INPUT_TOKENS,
                max == longest(token_lengths@, start as int, end as int),
                max <= MAX_INPUT_TOKENS,
                batch_fits(token_lengths@, start as int, end as int),
            ensures
                start < end,
                end < token_lengths.len() ==> !batch_fits(token_lengths@, start as int, end + 1),
            decreases token_lengths.len() - end,
        {
            let candidate: usize = if token_lengths[end] > max {
                token_lengths[end]
            } else {
                max
            };
            let count: usize = end - start + 1;
            proof {
                lemma_longest_bound(token_lengths@, start as int, end + 1);
                assert(candidate * count <= 4096 * 8) by (nonlinear_arith)
                    requires
                        candidate <= 4096,
                        count <= 8,
                ;
                assert(candidate * count == padded(token_lengths@, start as int, end + 1));
                if count == 1 {
                    assert(candidate * count == candidate) by (nonlinear_arith)
                        requires
                            count == 1,
                    ;
                }
            }
            if candidate * count > MAX_BATCH_PADDED_TOKENS {
                break;
            }
            max = candidate;
            end += 1;
        }
        let ghost before = ranges@;
        ranges.push(start..end);
        proof {
            assert forall|i: int| 0 <= i < ranges.len() implies #[trigger] range_at(
                token_lengths@,
                ranges@,
                i,
            ) by {
                if i < before.len() {
                    assert(range_at(token_lengths@, before, i));
                }
            }
        }
        start = end;
    }
    Ok(ranges)
}

/// The planned batches are within the limits of the model, and together they take every
/// text once, in order.
pub proof fn law_planned_batches_are_bounded(lengths: Seq<usize>, ranges: Seq<Range<usize>>, i: int)
    requires
        planned(lengths, ranges),
        0 <= i < ranges.len(),
    ensures
        0 < ranges[i].end - ranges[i].start <= MAX_BATCH_INPUTS,
        padded(lengths, ranges[i].start as int, ranges[i].end as int) <= MAX_BATCH_PADDED_TOKENS,
        ranges[0].start == 0,
        ranges.last().end == lengths.len(),
        i > 0 ==> ranges[i].start == ranges[i - 1].end,
{
    assert(range_at(lengths, ranges, i));
    assert(range_at(lengths, ranges, 0));
}

/// What a model call came to: an embedding or a fault for each text, or a failure of the
/// whole call.
pub type RawBatch = Result<Vec<Result<Embedding, Failure>>, Failure>;

/// What is said of a model call that failed.
pub open spec fn call_failure(indices: Seq<usize>) -> Seq<char> {
    let first = if indices.len() > 0 {
        indices[0] as nat
    } else {
        0
    };
    let last = if indices.len() > 0 {
        indices.last() as nat
    } else {
        0
    };
    "semantic_unavailable: inference failed for batch inputs "@ + text::decimal(first) + ".."@
        + text::decimal(
        if last < usize::MAX {
            last + 1
        } else {
            last
        },
    )
}

/// What the failure of a model that returned the wrong number of embeddings says.
pub open spec fn count_failure(returned: int, inputs: int) -> Seq<char> {
    "semantic_unavailable: model returned "@ + text::decimal(returned as nat)
        + " embeddings for "@ + text::decimal(inputs as nat) + " inputs"@
}

/// What is said of a faulty embedding.
pub open spec fn output_failure(index: int) -> Seq<char> {
    "semantic_unavailable: invalid model output for batch input "@ + text::decimal(index as nat)
}

/// Whether `result` is what comes of a model call on the texts with these indices: an
/// embedding for each, or the first thing that went wrong.
pub open spec fn batch_outcome(
    indices: Seq<usize>,
    raw: RawBatch,
    result: Result<Vec<Embedding>, Failure>,
) -> bool {
    match raw {
        Err(cause) => result is Err && text::under(
            result->Err_0,
            call_failure(indices),
            cause.message@,
            cause.transport,
        ),
        Ok(batch) => if batch.len() != indices.len() {
            result is Err && text::plain(
                result->Err_0,
                count_failure(batch.len() as int, indices.len() as int),
            )
        } else {
            match result {
                Ok(embeddings) => {
                    &&& embeddings.len() == batch.len()
                    &&& forall|k: int|
                        0 <= k < batch.len() ==> #[trigger] batch[k] == Ok::<Embedding, Failure>(
                            embeddings[k],
                        )
                },
                Err(failure) => exists|k: int|
                    {
                        &&& 0 <= k < batch.len()
                        &&& #[trigger] batch[k] is Err
                        &&& forall|j: int| 0 <= j < k ==> #[trigger] batch[j] is Ok
                        &&& text::under(
                            failure,
                            output_failure(indices[k] as int),
                            batch[k]->Err_0.message@,
                            batch[k]->Err_0.transport,
                        )
                    },
            }
        },
    }
}

/// What comes of a model call on the texts with these indices.
pub fn infer_one_planned_batch(indices: &[usize], raw: RawBatch) -> (result: Result<
    Vec<Embedding>,
    Failure,
>)
    ensures
        batch_outcome(indices@, raw, result),
{
    let batch = match raw {
        Err(cause) => {
            let first: usize = if indices.len() > 0 {
                indices[0]
            } else {
                0
            };
            let last: usize = if indices.len() > 0 {
                indices[indices.len() - 1]
            } else {
                0
            };
            let mut headline =
                "semantic_unavailable: inference failed for batch inputs ".to_owned();
            headline.append(text::decimal_text(first as u64).as_str());
            headline.append("..");
            headline.append(text::decimal_text(last.saturating_add(1) as u64).as_str());
            return Err(Failure::caused(headline, cause.message.as_str(), cause.transport));
        },
        Ok(batch) => batch,
    };
    if batch.len() != indices.len() {
        let mut message = "semantic_unavailable: model returned ".to_owned();
        message.append(text::decimal_text(batch.len() as u64).as_str());
        message.append(" embeddings for ");
        message.append(text::decimal_text(indices.len() as u64).as_str());
        message.append(" inputs");
        return Err(Failure::of(message));
    }
    let ghost all = batch@;
    let mut embeddings: Vec<Embedding> = Vec::new();
    let mut k: usize = 0;
    for outcome in it: batch
        invariant
            it.seq() == all,
            all.len() == indices.len(),
            k == it.index(),
            embeddings.len() == k,
            raw == Ok::<Vec<Result<Embedding, Failure>>, Failure>(batch),
            batch@ == all,
            forall|j: int|
                0 <= j < k ==> #[trigger] all[j] == Ok::<Embedding, Failure>(embeddings@[j]),
    {
        match outcome {
            Ok(embedding) => {
                embeddings.push(embedding);
            },
            Err(cause) => {
                let mut headline =
                    "semantic_unavailable: invalid model output for batch input ".to_owned();
                headline.append(text::decimal_text(indices[k] as u64).as_str());
                assert(all[k as int] is Err);
                return Err(Failure::caused(headline, cause.message.as_str(), cause.transport));
            },
        }
        k += 1;
    }
    Ok(embeddings)
}

/// The indices from `a` to `b`.
pub open spec fn run_of(a: int, b: int) -> Seq<usize> {
    Seq::new((b - a) as nat, |i: int| (a + i) as usize)
}

fn indices_from(a: usize, b: usize) -> (indices: Vec<usize>)
    requires
        a <= b,
    ensures
        indices@ == run_of(a as int, b as int),
{
    let mut indices: Vec<usize> = Vec::new();
    let mut i: usize = a;
    while i < b
        invariant
            a <= i <= b,
            indices.len() == i - a,
            forall|k: int| 0 <= k < i - a ==> indices@[k] == a + k,
        decreases b - i,
    {
        indices.push(i);
        i += 1;
    }
    assert(indices@ =~= run_of(a as int, b as int));
    indices
}

/// The length that the tokenizer gave for a text, if it is one that the model takes.
pub open spec fn usable_length(length: Result<usize, Failure>) -> bool {
    length is Ok && length->Ok_0 <= MAX_INPUT_TOKENS
}

/// What is wrong with a text that the model does not take.
pub open spec fn length_failure(index: int, length: Result<usize, Failure>, failure: Failure) -> bool {
    match length {
        Err(cause) => text::same_failure(failure, cause),
        Ok(length) => text::plain(failure, too_long(index, length as int)),
    }
}

fn checked_length(length: &Result<usize, Failure>, index: usize) -> (result: Result<usize, Failure>)
    ensures
        match result {
            Ok(accepted) => usable_length(*length) && length->Ok_0 == accepted,
            Err(failure) => !usable_length(*length) && length_failure(
                index as int,
                *length,
                failure,
            ),
        },
{
    match length {
        Err(cause) => Err(cause.copy()),
        Ok(length) => token_length(*length, index),
    }
}

/// Whether batch `i` went to the model and gave its share of the embeddings.
pub open spec fn batch_embedded<F: FnMut(usize, usize) -> RawBatch>(
    embed: F,
    ranges: Seq<Range<usize>>,
    i: int,
    embeddings: Seq<Embedding>,
) -> bool {
    exists|raw: RawBatch, share: Vec<Embedding>|
        {
            &&& #[trigger] call_ensures(embed, (ranges[i].start, ranges[i].end), raw)
            &&& #[trigger] batch_outcome(
                run_of(ranges[i].start as int, ranges[i].end as int),
                raw,
                Ok(share),
            )
            &&& share@ == embeddings.subrange(ranges[i].start as int, ranges[i].end as int)
        }
}

/// Whether batch `i` went to the model, and every text of it was embedded.
pub open spec fn batch_passed<F: FnMut(usize, usize) -> RawBatch>(
    embed: F,
    ranges: Seq<Range<usize>>,
    i: int,
) -> bool {
    exists|raw: RawBatch, share: Vec<Embedding>|
        {
            &&& #[trigger] call_ensures(embed, (ranges[i].start, ranges[i].end), raw)
            &&& #[trigger] batch_outcome(
                run_of(ranges[i].start as int, ranges[i].end as int),
                raw,
                Ok(share),
            )
        }
}

/// Whether some planned batch failed in the model with this failure, and those before it did
/// not fail.
pub open spec fn batch_failed<F: FnMut(usize, usize) -> RawBatch>(
    embed: F,
    lengths: Seq<usize>,
    failure: Failure,
) -> bool {
    exists|ranges: Seq<Range<usize>>, i: int, raw: RawBatch|
        {
            &&& #[trigger] planned(lengths, ranges)
            &&& 0 <= i < ranges.len()
            &&& #[trigger] call_ensures(embed, (ranges[i].start, ranges[i].end), raw)
            &&& batch_outcome(
                run_of(ranges[i].start as int, ranges[i].end as int),
                raw,
                Err(failure),
            )
            &&& forall|k: int| 0 <= k < i ==> #[trigger] batch_passed(embed, ranges, k)
        }
}

/// Whether the texts `a..b` are a batch that is planned, when the model takes all texts.
pub open spec fn planned_run(lengths: Seq<Result<usize, Failure>>, a: int, b: int) -> bool {
    &&& forall|i: int| 0 <= i < lengths.len() ==> usable_length(#[trigger] lengths[i])
    &&& exists|ranges: Seq<Range<usize>>, i: int|
        {
            &&& #[trigger] planned(plain_lengths(lengths), ranges)
            &&& 0 <= i < ranges.len()
            &&& (#[trigger] ranges[i]).start == a
            &&& ranges[i].end == b
        }
}

/// The lengths of texts that the model all takes.
pub open spec fn plain_lengths(lengths: Seq<Result<usize, Failure>>) -> Seq<usize> {
    Seq::new(lengths.len(), |i: int| lengths[i]->Ok_0)
}

/// The embeddings of texts, given what the tokenizer said of their lengths; `embed` makes
/// one model call on a run of texts. The first text that the model does not take, else the
/// first call that fails, fails the whole.
pub fn infer_batch<F: FnMut(usize, usize) -> RawBatch>(
    lengths: &[Result<usize, Failure>],
    embed: &mut F,
) -> (result: Result<Vec<Embedding>, Failure>)
    requires
        forall|a: usize, b: usize|
            planned_run(lengths@, a as int, b as int) ==> #[trigger] call_requires(
                *old(embed),
                (a, b),
            ),
    ensures
        match result {
            Ok(embeddings) => {
                &&& forall|i: int|
                    0 <= i < lengths.len() ==> usable_length(#[trigger] lengths@[i])
                &&& embeddings.len() == lengths.len()
                &&& exists|ranges: Seq<Range<usize>>|
                    {
                        &&& #[trigger] planned(plain_lengths(lengths@), ranges)
                        &&& forall|i: int|
                            0 <= i < ranges.len() ==> #[trigger] batch_embedded(
                                *old(embed),
                                ranges,
                                i,
                                embeddings@,
                            )
                    }
            },
            Err(failure) => {
                ||| exists|i: int|
                    {
                        &&& 0 <= i < lengths.len()
                        &&& !usable_length(#[trigger] lengths@[i])
                        &&& forall|j: int| 0 <= j < i ==> usable_length(#[trigger] lengths@[j])
                        &&& length_failure(i, lengths@[i], failure)
                    }
                ||| {
                    &&& forall|i: int|
                        0 <= i < lengths.len() ==> usable_length(#[trigger] lengths@[i])
                    &&& batch_failed(*old(embed), plain_lengths(lengths@), failure)
                }
            },
        },
{
    let mut token_lengths: Vec<usize> = Vec::new();
    let mut index: usize = 0;
    while index < lengths.len()
        invariant
            index <= lengths.len(),
            token_lengths.len() == index,
            forall|j: int| 0 <= j < index ==> usable_length(#[trigger] lengths@[j]),
            forall|j: int| 0 <= j < index ==> #[trigger] token_lengths@[j] == lengths@[j]->Ok_0,
        decreases lengths.len() - index,
    {
        match checked_length(&lengths[index], index) {
            Err(failure) => {
                return Err(failure);
            },
            Ok(length) => {
                token_lengths.push(length);
            },
        }
        index += 1;
    }
    assert(token_lengths@ =~= plain_lengths(lengths@));
    let ranges = match plan_batch_ranges(token_lengths.as_slice()) {
        Err(failure) => {
            proof {
                let i = choose|i: int|
                    0 <= i < token_lengths@.len() && #[trigger] token_lengths@[i]
                        > MAX_INPUT_TOKENS;
                assert(usable_length(lengths@[i]));
            }
            return Err(failure);
        },
        Ok(ranges) => ranges,
    };
    let mut embeddings: Vec<Embedding> = Vec::new();
    let mut i: usize = 0;
    while i < ranges.len()
        invariant
            i <= ranges.len(),
            *embed == *old(embed),
            forall|a: usize, b: usize|
                planned_run(lengths@, a as int, b as int) ==> #[trigger] call_requires(
                    *embed,
                    (a, b),
                ),
            token_lengths@ == plain_lengths(lengths@),
            planned(token_lengths@, ranges@),
            forall|j: int| 0 <= j < lengths.len() ==> usable_length(#[trigger] lengths@[j]),
            embeddings.len() == if i == 0 {
                0int
            } else {
                ranges@[i - 1].end as int
            },
            forall|k: int|
                0 <= k < i ==> #[trigger] batch_embedded(*embed, ranges@, k, embeddings@),
        decreases ranges.len() - i,
    {
        assert(range_at(token_lengths@, ranges@, i as int));
        let start: usize = ranges[i].start;
        let end: usize = ranges[i].end;
        assert(planned_run(lengths@, start as int, end as int)) by {
            assert(ranges@[i as int].start == start && ranges@[i as int].end == end);
        }
        let raw = embed(start, end);
        let indices = indices_from(start, end);
        match infer_one_planned_batch(indices.as_slice(), raw) {
            Err(failure) => {
                assert forall|k: int| 0 <= k < i implies #[trigger] batch_passed(
                    *embed,
                    ranges@,
                    k,
                ) by {
                    assert(batch_embedded(*embed, ranges@, k, embeddings@));
                }
                assert(batch_failed(*old(embed), plain_lengths(lengths@), failure));
                return Err(failure);
            },
            Ok(mut share) => {
                let ghost given = share;
                let ghost before = embeddings@;
                embeddings.append(&mut share);
                proof {
                    assert(given@ =~= embeddings@.subrange(start as int, end as int));
                    assert(call_ensures(
                        *embed,
                        (ranges@[i as int].start, ranges@[i as int].end),
                        raw,
                    ));
                    assert(batch_outcome(
                        run_of(ranges@[i as int].start as int, ranges@[i as int].end as int),
                        raw,
                        Ok(given),
                    ));
                    assert(batch_embedded(*embed, ranges@, i as int, embeddings@));
                    assert forall|k: int| 0 <= k < i implies #[trigger] batch_embedded(
                        *embed,
                        ranges@,
                        k,
                        embeddings@,
                    ) by {
                        assert(batch_embedded(*embed, ranges@, k, before));
                        lemma_ranges_ordered(token_lengths@, ranges@, k, i as int);
                        assert(before.subrange(ranges@[k].start as int, ranges@[k].end as int)
                            =~= embeddings@.subrange(
                            ranges@[k].start as int,
                            ranges@[k].end as int,
                        ));
                    }
                }
            },
        }
        i += 1;
    }
    Ok(embeddings)
}

/// An earlier batch ends where a later one starts, or before.
proof fn lemma_ranges_ordered(lengths: Seq<usize>, ranges: Seq<Range<usize>>, a: int, b: int)
    requires
        planned(lengths, ranges),
        0 <= a < b < ranges.len(),
    ensures
        ranges[a].start < ranges[a].end <= ranges[b].start,
    decreases b - a,
{
    assert(range_at(lengths, ranges, a));
    assert(range_at(lengths, ranges, b));
    if a < b - 1 {
        lemma_ranges_ordered(lengths, ranges, a, b - 1);
        assert(range_at(lengths, ranges, b - 1));
    }
}

/// The one embedding of a single text.
pub fn infer(outcome: Result<Vec<Embedding>, Failure>) -> (result: Result<Embedding, Failure>)
    ensures
        match outcome {
            Err(failure) => result == Err::<Embedding, Failure>(failure),
            Ok(embeddings) => if embeddings.len() > 0 {
                result == Ok::<Embedding, Failure>(embeddings@.last())
            } else {
                result is Err && text::plain(
                    result->Err_0,
                    "semantic_unavailable: missing model output"@,
                )
            },
        },
{
    match outcome {
        Err(failure) => Err(failure),
        Ok(mut embeddings) => match embeddings.pop() {
            Some(embedding) => Ok(embedding),
            None => Err(Failure::new("semantic_unavailable: missing model output")),
        },
    }
}

/// The texts that the model takes.
pub open spec fn usable_texts(lengths: Seq<Result<usize, Failure>>) -> Seq<usize>
    decreases lengths.len(),
{
    if lengths.len() == 0 {
        Seq::empty()
    } else {
        let before = usable_texts(lengths.drop_last());
        if usable_length(lengths.last()) {
            before.push((lengths.len() - 1) as usize)
        } else {
            before
        }
    }
}

/// The lengths of the texts that the model takes.
pub open spec fn usable_lengths(lengths: Seq<Result<usize, Failure>>) -> Seq<usize>
    decreases lengths.len(),
{
    if lengths.len() == 0 {
        Seq::empty()
    } else {
        let before = usable_lengths(lengths.drop_last());
        if usable_length(lengths.last()) {
            before.push(lengths.last()->Ok_0)
        } else {
            before
        }
    }
}

/// Whether the usable texts `a..b` are a batch that is planned, or a part of one.
pub open spec fn planned_part(lengths: Seq<Result<usize, Failure>>, a: int, b: int) -> bool {
    exists|ranges: Seq<Range<usize>>, r: int|
        {
            &&& #[trigger] planned(usable_lengths(lengths), ranges)
            &&& 0 <= r < ranges.len()
            &&& (#[trigger] ranges[r]).start <= a < b <= ranges[r].end
        }
}

/// Whether these texts are asked for together: they are usable, and a batch that is planned or a
/// part of one.
pub open spec fn isolated_batch(lengths: Seq<Result<usize, Failure>>, batch: Seq<usize>) -> bool {
    exists|a: int, b: int|
        #[trigger] planned_part(lengths, a, b) && batch == usable_texts(lengths).subrange(a, b)
}

/// Whether `result` is what becomes of the usable text `j` when the usable texts `a..b` are asked
/// for together: its embedding where the batch succeeds. A batch that fails is halved, until the
/// failure belongs to one text.
pub open spec fn isolates<F: FnMut(&Vec<usize>) -> RawBatch>(
    embed: F,
    texts: Seq<usize>,
    a: int,
    b: int,
    j: int,
    result: Result<Embedding, Failure>,
) -> bool
    decreases b - a,
{
    let middle = a + (b - a) / 2;
    exists|batch: Vec<usize>, raw: RawBatch, outcome: Result<Vec<Embedding>, Failure>|
        {
            &&& batch@ == texts.subrange(a, b)
            &&& #[trigger] call_ensures(embed, (&batch,), raw)
            &&& #[trigger] batch_outcome(batch@, raw, outcome)
            &&& match outcome {
                Ok(embeddings) => result == Ok::<Embedding, Failure>(embeddings@[j - a]),
                Err(failure) => if b - a <= 1 {
                    result == Err::<Embedding, Failure>(failure)
                } else if j < middle {
                    isolates(embed, texts, a, middle, j, result)
                } else {
                    isolates(embed, texts, middle, b, j, result)
                },
            }
        }
}

/// Whether `result` is what becomes of text `index`: its planned batch is asked for, and isolated
/// where it fails.
pub open spec fn isolated<F: FnMut(&Vec<usize>) -> RawBatch>(
    embed: F,
    lengths: Seq<Result<usize, Failure>>,
    ranges: Seq<Range<usize>>,
    index: usize,
    result: Result<Embedding, Failure>,
) -> bool {
    exists|r: int, j: int|
        {
            &&& 0 <= r < ranges.len()
            &&& ranges[r].start <= j < ranges[r].end
            &&& usable_texts(lengths)[j] == index
            &&& #[trigger] isolates(
                embed,
                usable_texts(lengths),
                ranges[r].start as int,
                ranges[r].end as int,
                j,
                result,
            )
        }
}

/// Whether the usable texts `a..b` have a result each, from that batch.
spec fn isolated_between<F: FnMut(&Vec<usize>) -> RawBatch>(
    embed: F,
    valid: Seq<usize>,
    a: int,
    b: int,
    results: Seq<Option<Result<Embedding, Failure>>>,
) -> bool {
    forall|j: int|
        a <= j < b ==> results[#[trigger] valid[j] as int] is Some && isolates(
            embed,
            valid,
            a,
            b,
            j,
            results[valid[j] as int]->0,
        )
}

/// A part of a batch that fits, fits.
proof fn lemma_part_fits(lengths: Seq<usize>, a: int, b: int, c: int, d: int)
    requires
        0 <= a <= c < d <= b <= lengths.len(),
        batch_fits(lengths, a, b),
    ensures
        batch_fits(lengths, c, d),
{
    lemma_longest_within(lengths, a, b, c, d);
    assert(longest(lengths, c, d) * (d - c) <= longest(lengths, a, b) * (b - a))
        by (nonlinear_arith)
        requires
            0 <= longest(lengths, c, d) <= longest(lengths, a, b),
            0 <= d - c <= b - a,
    ;
}

proof fn lemma_longest_within(lengths: Seq<usize>, a: int, b: int, c: int, d: int)
    requires
        0 <= a <= c <= d <= b <= lengths.len(),
    ensures
        0 <= longest(lengths, c, d) <= longest(lengths, a, b),
    decreases b - a,
{
    if a < b {
        if d < b {
            lemma_longest_within(lengths, a, b - 1, c, d);
        } else if c < d {
            lemma_longest_within(lengths, a, b - 1, c, d - 1);
        } else {
            lemma_longest_nonnegative(lengths, a, b);
        }
    }
}

proof fn lemma_longest_nonnegative(lengths: Seq<usize>, a: int, b: int)
    ensures
        0 <= longest(lengths, a, b),
    decreases b - a,
{
    if a < b {
        lemma_longest_nonnegative(lengths, a, b - 1);
    }
}

proof fn lemma_usable_texts(lengths: Seq<Result<usize, Failure>>)
    requires
        lengths.len() <= usize::MAX,
    ensures
        usable_texts(lengths).len() == usable_lengths(lengths).len(),
        forall|j: int|
            0 <= j < usable_texts(lengths).len() ==> {
                &&& (#[trigger] usable_texts(lengths)[j]) < lengths.len()
                &&& usable_length(lengths[usable_texts(lengths)[j] as int])
                &&& usable_lengths(lengths)[j] == lengths[usable_texts(lengths)[j] as int]->Ok_0
            },
        forall|i: int, j: int|
            0 <= i < j < usable_texts(lengths).len() ==> (#[trigger] usable_texts(lengths)[i]) < (
            #[trigger] usable_texts(lengths)[j]),
        forall|i: int|
            0 <= i < lengths.len() && usable_length(#[trigger] lengths[i]) ==> usable_texts(
                lengths,
            ).contains(i as usize),
    decreases lengths.len(),
{
    if lengths.len() > 0 {
        let front = lengths.drop_last();
        lemma_usable_texts(front);
        let last = (lengths.len() - 1) as usize;
        assert forall|i: int| 0 <= i < lengths.len() && usable_length(
            #[trigger] lengths[i],
        ) implies usable_texts(lengths).contains(i as usize) by {
            if i < front.len() {
                assert(usable_length(front[i]));
                let k = choose|k: int|
                    0 <= k < usable_texts(front).len() && usable_texts(front)[k] == i as usize;
                assert(usable_texts(lengths)[k] == i as usize);
            } else {
                assert(usable_texts(lengths).last() == last);
            }
        }
        assert forall|j: int| 0 <= j < usable_texts(lengths).len() implies {
            &&& (#[trigger] usable_texts(lengths)[j]) < lengths.len()
            &&& usable_length(lengths[usable_texts(lengths)[j] as int])
            &&& usable_lengths(lengths)[j] == lengths[usable_texts(lengths)[j] as int]->Ok_0
        } by {
            if j < usable_texts(front).len() {
                assert(usable_texts(front)[j] == usable_texts(lengths)[j]);
                assert(front[usable_texts(front)[j] as int]
                    == lengths[usable_texts(lengths)[j] as int]);
            }
        }
    }
}

/// However texts are isolated, the texts that are asked for together stay within the limits of
/// the model: they are all usable, few enough, and short enough once they are padded.
pub proof fn law_isolated_batches_are_bounded(
    lengths: Seq<Result<usize, Failure>>,
    batch: Seq<usize>,
)
    requires
        lengths.len() <= usize::MAX,
        isolated_batch(lengths, batch),
    ensures
        0 < batch.len() <= MAX_BATCH_INPUTS,
        forall|k: int|
            0 <= k < batch.len() ==> (#[trigger] batch[k]) < lengths.len() && usable_length(
                lengths[batch[k] as int],
            ),
        forall|k: int|
            0 <= k < batch.len() ==> lengths[(#[trigger] batch[k]) as int]->Ok_0 * batch.len()
                <= MAX_BATCH_PADDED_TOKENS,
{
    lemma_usable_texts(lengths);
    let (a, b) = choose|a: int, b: int|
        #[trigger] planned_part(lengths, a, b) && batch == usable_texts(lengths).subrange(a, b);
    let usable = usable_lengths(lengths);
    let (ranges, r) = choose|ranges: Seq<Range<usize>>, r: int|
        {
            &&& #[trigger] planned(usable, ranges)
            &&& 0 <= r < ranges.len()
            &&& (#[trigger] ranges[r]).start <= a < b <= ranges[r].end
        };
    assert(range_at(usable, ranges, r));
    lemma_part_fits(usable, ranges[r].start as int, ranges[r].end as int, a, b);
    assert forall|k: int| 0 <= k < batch.len() implies lengths[(
    #[trigger] batch[k]) as int]->Ok_0 * batch.len() <= MAX_BATCH_PADDED_TOKENS by {
        assert(batch[k] == usable_texts(lengths)[a + k]);
        let one = usable[a + k] as int;
        assert(longest(usable, a + k, a + k + 1) >= one) by {
            reveal_with_fuel(longest, 2);
        }
        lemma_longest_within(usable, a, b, a + k, a + k + 1);
        let top = longest(usable, a, b);
        let n = batch.len() as int;
        assert(one * n <= top * n) by (nonlinear_arith)
            requires
                0 <= one <= top,
                0 <= n,
        ;
    }
}

/// Whether two lists of results agree outside the texts `a..b` of the valid ones.
spec fn same_outside(
    valid: Seq<usize>,
    a: int,
    b: int,
    before: Seq<Option<Result<Embedding, Failure>>>,
    after: Seq<Option<Result<Embedding, Failure>>>,
) -> bool {
    &&& before.len() == after.len()
    &&& forall|i: int|
        0 <= i < before.len() && (forall|j: int| a <= j < b ==> #[trigger] valid[j] != i)
            ==> #[trigger] after[i] == before[i]
}

/// Whether these are some of the texts `a..b` of the valid ones, without a gap.
spec fn part_of(valid: Seq<usize>, a: int, b: int, batch: Seq<usize>) -> bool {
    exists|c: int, d: int| a <= c < d <= b && batch == #[trigger] valid.subrange(c, d)
}

/// Asks the model for the texts `a..b` of the valid ones. A batch that fails is halved until
/// each failure belongs to one text.
fn isolate_batch<F: FnMut(&Vec<usize>) -> RawBatch>(
    embed: &mut F,
    valid: &Vec<usize>,
    a: usize,
    b: usize,
    results: &mut Vec<Option<Result<Embedding, Failure>>>,
)
    requires
        a < b <= valid.len(),
        forall|batch: Vec<usize>|
            part_of(valid@, a as int, b as int, batch@) ==> #[trigger] call_requires(
                *old(embed),
                (&batch,),
            ),
        forall|i: int, j: int|
            0 <= i < j < valid.len() ==> #[trigger] valid@[i] < #[trigger] valid@[j],
        forall|i: int| 0 <= i < valid.len() ==> #[trigger] valid@[i] < old(results).len(),
    ensures
        *final(embed) == *old(embed),
        isolated_between(*old(embed), valid@, a as int, b as int, final(results)@),
        same_outside(valid@, a as int, b as int, old(results)@, final(results)@),
    decreases b - a,
{
    let mut batch: Vec<usize> = Vec::new();
    let mut i: usize = a;
    while i < b
        invariant
            a <= i <= b <= valid.len(),
            batch@ == valid@.subrange(a as int, i as int),
        decreases b - i,
    {
        batch.push(valid[i]);
        i += 1;
        assert(batch@ =~= valid@.subrange(a as int, i as int));
    }
    assert(part_of(valid@, a as int, b as int, batch@));
    let raw = embed(&batch);
    let outcome = infer_one_planned_batch(batch.as_slice(), raw);
    let ghost decided = outcome;
    assert(batch_outcome(batch@, raw, decided));
    match outcome {
        Ok(embeddings) => {
            let ghost given = embeddings;
            let ghost untouched = results@;
            let mut k: usize = 0;
            for embedding in it: embeddings
                invariant
                    it.seq() == given@,
                    k == it.index(),
                    given.len() == b - a,
                    batch@ == valid@.subrange(a as int, b as int),
                    a < b <= valid.len(),
                    *embed == *old(embed),
                    decided == Ok::<Vec<Embedding>, Failure>(given),
                    call_ensures(*embed, (&batch,), raw),
                    batch_outcome(batch@, raw, decided),
                    results.len() == untouched.len(),
                    forall|i: int, j: int|
                        0 <= i < j < valid.len() ==> #[trigger] valid@[i] < #[trigger] valid@[j],
                    forall|i: int| 0 <= i < valid.len() ==> #[trigger] valid@[i] < results.len(),
                    forall|j: int|
                        a <= j < a + k ==> results@[#[trigger] valid@[j] as int] == Some(
                            Ok::<Embedding, Failure>(given@[j - a]),
                        ),
                    same_outside(valid@, a as int, a + k, untouched, results@),
            {
                let ghost before = results@;
                let index: usize = batch[k];
                assert(index == valid@[a + k]);
                results.set(index, Some(Ok(embedding)));
                proof {
                    assert forall|j: int| a <= j < a + k + 1 implies results@[
                        #[trigger] valid@[j] as int
                    ] == Some(Ok::<Embedding, Failure>(given@[j - a])) by {
                        if j < a + k {
                            assert(valid@[j] < valid@[a + k]);
                        }
                    }
                    assert forall|i: int|
                        0 <= i < untouched.len() && (forall|j: int|
                            a <= j < a + k + 1 ==> #[trigger] valid@[j] != i) implies #[trigger] results@[i]
                        == untouched[i] by {
                        assert(valid@[a + k] != i);
                        assert(before[i] == untouched[i]);
                    }
                }
                k += 1;
            }
            assert forall|j: int| a <= j < b implies results@[
                #[trigger] valid@[j] as int
            ] is Some && isolates(
                *embed,
                valid@,
                a as int,
                b as int,
                j,
                results@[valid@[j] as int]->0,
            ) by {}
        },
        Err(failure) => {
            if b - a == 1 {
                let index: usize = batch[0];
                assert(index == valid@[a as int]);
                results.set(index, Some(Err(failure)));
                assert(isolates(*embed, valid@, a as int, b as int, a as int, Err(failure)));
            } else {
                let middle: usize = a + (b - a) / 2;
                let ghost before = results@;
                proof {
                    lemma_parts_nest(valid@, a as int, b as int, a as int, middle as int);
                    lemma_parts_nest(valid@, a as int, b as int, middle as int, b as int);
                }
                isolate_batch(embed, valid, a, middle, results);
                let ghost half = results@;
                isolate_batch(embed, valid, middle, b, results);
                proof {
                    assert forall|j: int| a <= j < b implies results@[
                        #[trigger] valid@[j] as int
                    ] is Some && isolates(
                        *embed,
                        valid@,
                        a as int,
                        b as int,
                        j,
                        results@[valid@[j] as int]->0,
                    ) by {
                        if j < middle {
                            assert forall|m: int| middle <= m < b implies #[trigger] valid@[m]
                                != valid@[j] by {
                                assert(valid@[j] < valid@[m]);
                            }
                            assert(results@[valid@[j] as int] == half[valid@[j] as int]);
                            assert(isolates(
                                *embed,
                                valid@,
                                a as int,
                                middle as int,
                                j,
                                results@[valid@[j] as int]->0,
                            ));
                        } else {
                            assert(isolates(
                                *embed,
                                valid@,
                                middle as int,
                                b as int,
                                j,
                                results@[valid@[j] as int]->0,
                            ));
                        }
                    }
                    assert forall|i: int|
                        0 <= i < before.len() && (forall|j: int|
                            a <= j < b ==> #[trigger] valid@[j] != i) implies #[trigger] results@[i]
                        == before[i] by {
                        assert(half[i] == before[i]);
                    }
                }
            }
        },
    }
}

proof fn lemma_parts_nest(valid: Seq<usize>, a: int, b: int, c: int, d: int)
    requires
        a <= c <= d <= b,
    ensures
        forall|batch: Seq<usize>| #[trigger]
            part_of(valid, c, d, batch) ==> part_of(valid, a, b, batch),
{
    assert forall|batch: Seq<usize>| #[trigger] part_of(valid, c, d, batch) implies part_of(
        valid,
        a,
        b,
        batch,
    ) by {
        let (x, y) = choose|x: int, y: int|
            c <= x < y <= d && batch == #[trigger] valid.subrange(x, y);
        assert(batch == valid.subrange(x, y));
    }
}

/// Every text is in one of the planned batches.
proof fn lemma_planned_for(lengths: Seq<usize>, ranges: Seq<Range<usize>>, j: int, n: int) -> (r: int)
    requires
        planned(lengths, ranges),
        0 < n <= ranges.len(),
        0 <= j < ranges[n - 1].end,
    ensures
        0 <= r < n,
        ranges[r].start <= j < ranges[r].end,
    decreases n,
{
    assert(range_at(lengths, ranges, n - 1));
    if j >= ranges[n - 1].start {
        n - 1
    } else {
        lemma_planned_for(lengths, ranges, j, n - 1)
    }
}

/// The outcome for each text, given what the tokenizer said of their lengths; `embed` makes
/// one model call on the texts with the given indices. A text that fails does not fail the
/// others, and no call is larger than one that is planned.
pub fn infer_batch_isolated<F: FnMut(&Vec<usize>) -> RawBatch>(
    lengths: &[Result<usize, Failure>],
    embed: &mut F,
) -> (results: Vec<Result<Embedding, Failure>>)
    requires
        forall|batch: Vec<usize>|
            isolated_batch(lengths@, batch@) ==> #[trigger] call_requires(
                *old(embed),
                (&batch,),
            ),
    ensures
        results.len() == lengths.len(),
        exists|ranges: Seq<Range<usize>>|
            {
                &&& #[trigger] planned(usable_lengths(lengths@), ranges)
                &&& forall|i: int|
                    0 <= i < lengths.len() ==> if usable_length(lengths@[i]) {
                        isolated(*old(embed), lengths@, ranges, i as usize, #[trigger] results@[i])
                    } else {
                        results@[i] is Err && length_failure(i, lengths@[i], results@[i]->Err_0)
                    }
            },
{
    let mut slots: Vec<Option<Result<Embedding, Failure>>> = Vec::new();
    let mut valid: Vec<usize> = Vec::new();
    let mut valid_lengths: Vec<usize> = Vec::new();
    let mut index: usize = 0;
    while index < lengths.len()
        invariant
            index <= lengths.len(),
            slots.len() == index,
            valid@ == usable_texts(lengths@.take(index as int)),
            valid_lengths@ == usable_lengths(lengths@.take(index as int)),
            forall|i: int|
                0 <= i < index ==> if usable_length(#[trigger] lengths@[i]) {
                    slots@[i] is None
                } else {
                    slots@[i] is Some && slots@[i]->0 is Err && length_failure(
                        i,
                        lengths@[i],
                        slots@[i]->0->Err_0,
                    )
                },
        decreases lengths.len() - index,
    {
        assert(lengths@.take(index + 1).drop_last() =~= lengths@.take(index as int));
        match checked_length(&lengths[index], index) {
            Err(failure) => {
                slots.push(Some(Err(failure)));
            },
            Ok(length) => {
                slots.push(None);
                valid.push(index);
                valid_lengths.push(length);
            },
        }
        index += 1;
    }
    proof {
        assert(lengths@.take(index as int) =~= lengths@);
        lemma_usable_texts(lengths@);
    }
    let ranges = match plan_batch_ranges(valid_lengths.as_slice()) {
        Ok(ranges) => ranges,
        Err(_) => {
            proof {
                let i = choose|i: int|
                    0 <= i < valid_lengths@.len() && #[trigger] valid_lengths@[i]
                        > MAX_INPUT_TOKENS;
                assert(usable_length(lengths@[valid@[i] as int]));
            }
            Vec::new()
        },
    };
    let ghost untouched = slots@;
    let mut r: usize = 0;
    while r < ranges.len()
        invariant
            r <= ranges.len(),
            *embed == *old(embed),
            valid@ == usable_texts(lengths@),
            valid_lengths@ == usable_lengths(lengths@),
            planned(valid_lengths@, ranges@),
            valid.len() == valid_lengths.len(),
            slots.len() == lengths.len() == untouched.len(),
            forall|batch: Vec<usize>|
                isolated_batch(lengths@, batch@) ==> #[trigger] call_requires(*embed, (&batch,)),
            forall|i: int, j: int|
                0 <= i < j < valid.len() ==> #[trigger] valid@[i] < #[trigger] valid@[j],
            forall|i: int| 0 <= i < valid.len() ==> #[trigger] valid@[i] < lengths.len(),
            forall|q: int|
                0 <= q < r ==> isolated_between(
                    *embed,
                    valid@,
                    (#[trigger] ranges@[q]).start as int,
                    ranges@[q].end as int,
                    slots@,
                ),
            same_outside(
                valid@,
                0,
                if r == 0 {
                    0int
                } else {
                    ranges@[r - 1].end as int
                },
                untouched,
                slots@,
            ),
        decreases ranges.len() - r,
    {
        assert(range_at(valid_lengths@, ranges@, r as int));
        let start: usize = ranges[r].start;
        let end: usize = ranges[r].end;
        let ghost before = slots@;
        assert forall|batch: Vec<usize>| part_of(
            valid@,
            start as int,
            end as int,
            batch@,
        ) implies #[trigger] call_requires(*embed, (&batch,)) by {
            let (c, d) = choose|c: int, d: int|
                start <= c < d <= end && batch@ == #[trigger] valid@.subrange(c, d);
            assert(ranges@[r as int].start <= c < d <= ranges@[r as int].end);
            assert(planned_part(lengths@, c, d));
            assert(isolated_batch(lengths@, batch@));
        }
        isolate_batch(embed, &valid, start, end, &mut slots);
        proof {
            assert forall|q: int| 0 <= q < r + 1 implies isolated_between(
                *embed,
                valid@,
                (#[trigger] ranges@[q]).start as int,
                ranges@[q].end as int,
                slots@,
            ) by {
                if q < r {
                    lemma_ranges_ordered(valid_lengths@, ranges@, q, r as int);
                    assert forall|j: int| ranges@[q].start <= j < ranges@[q].end implies slots@[
                        #[trigger] valid@[j] as int
                    ] == before[valid@[j] as int] by {
                        assert forall|m: int| start <= m < end implies #[trigger] valid@[m]
                            != valid@[j] by {
                            assert(valid@[j] < valid@[m]);
                        }
                    }
                }
            }
            assert forall|i: int|
                0 <= i < untouched.len() && (forall|j: int|
                    0 <= j < end ==> #[trigger] valid@[j] != i) implies #[trigger] slots@[i]
                == untouched[i] by {
                assert(before[i] == untouched[i]);
            }
        }
        r += 1;
    }
    let ghost filled = slots@;
    proof {
        assert forall|i: int| 0 <= i < lengths.len() implies {
            &&& #[trigger] filled[i] is Some
            &&& if usable_length(lengths@[i]) {
                isolated(*embed, lengths@, ranges@, i as usize, filled[i]->0)
            } else {
                filled[i]->0 is Err && length_failure(i, lengths@[i], filled[i]->0->Err_0)
            }
        } by {
            if usable_length(lengths@[i]) {
                assert(valid@.contains(i as usize));
                let k = choose|k: int| 0 <= k < valid@.len() && valid@[k] == i as usize;
                let q = lemma_planned_for(
                    valid_lengths@,
                    ranges@,
                    k,
                    ranges@.len() as int,
                );
                assert(isolated_between(
                    *embed,
                    valid@,
                    ranges@[q].start as int,
                    ranges@[q].end as int,
                    filled,
                ));
                assert(filled[valid@[k] as int] is Some);
            } else {
                assert(filled[i] == untouched[i]);
            }
        }
    }
    let mut results: Vec<Result<Embedding, Failure>> = Vec::new();
    for slot in it: slots
        invariant
            it.seq() == filled,
            filled.len() == lengths.len(),
            results.len() == it.index(),
            forall|i: int| 0 <= i < filled.len() ==> #[trigger] filled[i] is Some,
            forall|i: int| 0 <= i < it.index() ==> #[trigger] results@[i] == filled[i]->0,
    {
        assert(filled[it.index() as int] is Some);
        match slot {
            Some(result) => {
                results.push(result);
            },
            None => {},
        }
    }
    results
}

} // verus!
