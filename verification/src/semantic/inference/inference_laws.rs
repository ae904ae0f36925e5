//! What holds of how texts go to a model, and of what a model is built from.

use crate::semantic::inference::batch;
use crate::semantic::inference::batch::RawBatch;
use crate::semantic::embedding::Embedding;
use crate::semantic::inference::gate;
use crate::semantic::inference::provider;
use crate::semantic::inference::provider::ModelParts;
use crate::semantic::inference::provider::Pinned;
use crate::semantic::inference::provider::ProviderPlan;
use crate::semantic::inference::provider::RerankerParts;
use crate::semantic::inference::reranker;
use crate::semantic::inference::SemanticProvider;
use crate::semantic::inference::SemanticProviderConfig;
use crate::semantic::pins;
use crate::semantic::pins::RerankBounds;
use crate::store::json;
use crate::store::json::Json;
use crate::text;
use crate::text::Failure;
use crate::text_laws;
use crate::unicode;
use std::ops::Range;
use vstd::prelude::*;

verus! {

proof fn lemma_longest(lengths: Seq<usize>, a: int, b: int)
    requires
        0 <= a < b <= lengths.len(),
    ensures
        forall|k: int| a <= k < b ==> #[trigger] lengths[k] <= batch::longest(lengths, a, b),
        exists|k: int| a <= k < b && #[trigger] lengths[k] == batch::longest(lengths, a, b),
    decreases b - a,
{
    if b - a > 1 {
        lemma_longest(lengths, a, b - 1);
        let k = choose|k: int|
            a <= k < b - 1 && #[trigger] lengths[k] == batch::longest(lengths, a, b - 1);
        assert(lengths[b - 1] >= 0);
        if lengths[b - 1] <= batch::longest(lengths, a, b - 1) {
            assert(lengths[k] == batch::longest(lengths, a, b));
        }
    } else {
        assert(batch::longest(lengths, a, a) == 0);
        assert(lengths[a] == batch::longest(lengths, a, b));
    }
}

/// A batch takes texts as long as they fit: the next text would make it more than eight texts, or
/// more than 8192 tokens once all are as long as the longest.
pub proof fn law_batches_take_what_fits(lengths: Seq<usize>, ranges: Seq<Range<usize>>, i: int)
    requires
        batch::planned(lengths, ranges),
        0 <= i < ranges.len(),
        ranges[i].end < lengths.len(),
    ensures
        ({
            let count = ranges[i].end + 1 - ranges[i].start;
            count > 8 || exists|k: int|
                ranges[i].start <= k <= ranges[i].end && #[trigger] lengths[k] * count > 8192
        }),
{
    assert(batch::range_at(lengths, ranges, i));
    let start = ranges[i].start as int;
    let end = ranges[i].end as int;
    let count = end + 1 - start;
    lemma_longest(lengths, start, end + 1);
    let k = choose|k: int|
        start <= k < end + 1 && #[trigger] lengths[k] == batch::longest(lengths, start, end + 1);
    assert(lengths[k] * count == batch::padded(lengths, start, end + 1));
}

/// Each text is in one batch, and the batches follow each other from the first text to the last.
pub proof fn law_texts_are_in_one_batch(lengths: Seq<usize>, ranges: Seq<Range<usize>>, t: int)
    requires
        batch::planned(lengths, ranges),
        0 <= t < lengths.len(),
    ensures
        exists|i: int|
            0 <= i < ranges.len() && (#[trigger] ranges[i]).start <= t < ranges[i].end,
        forall|i: int, j: int|
            0 <= i < j < ranges.len() ==> (#[trigger] ranges[i]).end <= (
            #[trigger] ranges[j]).start,
{
    lemma_some_range(lengths, ranges, t, ranges.len() as int);
    assert forall|i: int, j: int| 0 <= i < j < ranges.len() implies (#[trigger] ranges[i]).end <= (
    #[trigger] ranges[j]).start by {
        lemma_ranges_apart(lengths, ranges, i, j);
    }
}

proof fn lemma_some_range(lengths: Seq<usize>, ranges: Seq<Range<usize>>, t: int, n: int)
    requires
        batch::planned(lengths, ranges),
        0 < n <= ranges.len(),
        0 <= t < ranges[n - 1].end,
    ensures
        exists|i: int|
            0 <= i < ranges.len() && (#[trigger] ranges[i]).start <= t < ranges[i].end,
    decreases n,
{
    assert(batch::range_at(lengths, ranges, n - 1));
    if ranges[n - 1].start <= t {
        assert(ranges[n - 1].start <= t < ranges[n - 1].end);
    } else {
        lemma_some_range(lengths, ranges, t, n - 1);
    }
}

proof fn lemma_ranges_apart(lengths: Seq<usize>, ranges: Seq<Range<usize>>, i: int, j: int)
    requires
        batch::planned(lengths, ranges),
        0 <= i < j < ranges.len(),
    ensures
        ranges[i].end <= ranges[j].start,
    decreases j - i,
{
    assert(batch::range_at(lengths, ranges, j));
    if i < j - 1 {
        lemma_ranges_apart(lengths, ranges, i, j - 1);
        assert(batch::range_at(lengths, ranges, j - 1));
    }
}

/// The texts that go to a model are those of a known length of at most 4096 tokens, in order.
pub proof fn law_texts_of_a_known_length_are_usable(lengths: Seq<Result<usize, Failure>>, i: int)
    requires
        0 <= i < lengths.len() <= usize::MAX,
    ensures
        batch::usable_texts(lengths).contains(i as usize) <==> lengths[i] is Ok
            && lengths[i]->Ok_0 <= 4096,
        forall|j: int, k: int|
            0 <= j < k < batch::usable_texts(lengths).len() ==> #[trigger] batch::usable_texts(
                lengths,
            )[j] < #[trigger] batch::usable_texts(lengths)[k],
        forall|j: int|
            0 <= j < batch::usable_texts(lengths).len() ==> #[trigger] batch::usable_texts(
                lengths,
            )[j] < lengths.len(),
    decreases lengths.len(),
{
    let all = batch::usable_texts(lengths);
    let less = lengths.drop_last();
    let before = batch::usable_texts(less);
    let last = lengths.len() - 1;
    if less.len() > 0 {
        law_texts_of_a_known_length_are_usable(
            less,
            if i < last {
                i
            } else {
                0
            },
        );
    }
    if i < last {
        assert(less[i] == lengths[i]);
        if before.contains(i as usize) {
            let j = choose|j: int| 0 <= j < before.len() && before[j] == i as usize;
            assert(all[j] == i as usize);
        }
        if all.contains(i as usize) {
            let j = choose|j: int| 0 <= j < all.len() && all[j] == i as usize;
            if j < before.len() {
                assert(before[j] == i as usize);
            }
        }
    } else {
        if batch::usable_length(lengths[i]) {
            assert(all[before.len() as int] == i as usize);
        }
        if all.contains(i as usize) && !batch::usable_length(lengths[i]) {
            let j = choose|j: int| 0 <= j < all.len() && all[j] == i as usize;
            assert(before[j] < less.len());
        }
    }
    assert forall|j: int, k: int| 0 <= j < k < all.len() implies #[trigger] all[j]
        < #[trigger] all[k] by {
        assert(all[j] == before[j]);
        if k < before.len() {
            assert(all[k] == before[k]);
        } else {
            assert(before[j] < less.len());
        }
    }
    assert forall|j: int| 0 <= j < all.len() implies #[trigger] all[j] < lengths.len() by {
        if j < before.len() {
            assert(before[j] < less.len());
        }
    }
}

/// A text that fails, failed alone: its failure is that of a call for it and no other. A text
/// that is embedded has what some call gave for it.
pub proof fn law_failures_belong_to_one_text<F: FnMut(&Vec<usize>) -> RawBatch>(
    embed: F,
    texts: Seq<usize>,
    a: int,
    b: int,
    j: int,
    result: Result<Embedding, Failure>,
)
    requires
        batch::isolates(embed, texts, a, b, j, result),
        0 <= a <= j < b <= texts.len(),
    ensures
        result matches Err(failure) ==> exists|alone: Vec<usize>, raw: RawBatch|
            {
                &&& alone@ == seq![texts[j]]
                &&& #[trigger] call_ensures(embed, (&alone,), raw)
                &&& batch::batch_outcome(alone@, raw, Err(failure))
            },
        result matches Ok(embedding) ==> exists|together: Vec<usize>, raw: RawBatch, k: int|
            {
                &&& #[trigger] call_ensures(embed, (&together,), raw)
                &&& raw is Ok
                &&& 0 <= k < together@.len()
                &&& raw->Ok_0@.len() == together@.len()
                &&& #[trigger] together@[k] == texts[j]
                &&& raw->Ok_0@[k] == Ok::<Embedding, Failure>(embedding)
            },
    decreases b - a,
{
    let middle = a + (b - a) / 2;
    let (together, raw, outcome) = choose|
        batch: Vec<usize>,
        raw: RawBatch,
        outcome: Result<Vec<Embedding>, Failure>,
    |
        {
            &&& batch@ == texts.subrange(a, b)
            &&& #[trigger] call_ensures(embed, (&batch,), raw)
            &&& #[trigger] batch::batch_outcome(batch@, raw, outcome)
            &&& match outcome {
                Ok(embeddings) => result == Ok::<Embedding, Failure>(embeddings@[j - a]),
                Err(failure) => if b - a <= 1 {
                    result == Err::<Embedding, Failure>(failure)
                } else if j < middle {
                    batch::isolates(embed, texts, a, middle, j, result)
                } else {
                    batch::isolates(embed, texts, middle, b, j, result)
                },
            }
        };
    match outcome {
        Ok(embeddings) => {
            assert(together@[j - a] == texts[j]);
            assert(raw->Ok_0@[j - a] == Ok::<Embedding, Failure>(embeddings@[j - a]));
        },
        Err(failure) => {
            if b - a <= 1 {
                assert(together@ =~= seq![texts[j]]);
            } else if j < middle {
                law_failures_belong_to_one_text(embed, texts, a, middle, j, result);
            } else {
                law_failures_belong_to_one_text(embed, texts, middle, b, j, result);
            }
        },
    }
}

proof fn lemma_space_has_no_words(space: Seq<char>, rest: Seq<char>)
    requires
        text_laws::is_space(space),
    ensures
        text::words(space + rest) == text::words(rest),
    decreases space.len(),
{
    if space.len() == 0 {
        assert(space + rest =~= rest);
    } else {
        let less = space.drop_first();
        assert forall|i: int| 0 <= i < less.len() implies unicode::whitespace(
            #[trigger] less[i],
        ) by {
            assert(less[i] == space[i + 1]);
        }
        lemma_space_has_no_words(less, rest);
        let none = Seq::<char>::empty();
        assert(space + rest =~= none + seq![space[0]] + (less + rest));
        text_laws::law_words_are_parted_by_whitespace(none, space[0], less + rest);
        text_laws::law_texts_without_whitespace_are_one_word(none);
        assert(text::words(none) + text::words(less + rest) =~= text::words(less + rest));
    }
}

/// The peak memory of a process is the number behind the first `VmHWM:` at the start of a line.
pub proof fn law_peaks_are_told_by_their_line(
    status: Seq<char>,
    peak: Option<u64>,
    i: int,
    gap: Seq<char>,
    n: u64,
    after: char,
    rest: Seq<char>,
)
    requires
        gate::peak_told(status, peak),
        0 <= i < text::lines(status).len(),
        text::lines(status)[i] == "VmHWM:"@ + gap + text::decimal(n as nat) + seq![after] + rest,
        gap.len() > 0,
        text_laws::is_space(gap),
        unicode::whitespace(after),
        forall|j: int|
            0 <= j < i ==> !text::begins_with(#[trigger] text::lines(status)[j], "VmHWM:"@),
    ensures
        peak == Some(n),
{
    let lines = text::lines(status);
    let line = lines[i];
    let head = "VmHWM:"@;
    let number = text::decimal(n as nat);
    reveal_strlit("VmHWM:");
    assert(line.subrange(0, head.len() as int) =~= head);
    assert(text::begins_with(line, head));
    let less = gap.drop_first();
    assert forall|k: int| 0 <= k < less.len() implies unicode::whitespace(#[trigger] less[k]) by {
        assert(less[k] == gap[k + 1]);
    }
    let tail = number + seq![after] + rest;
    assert(line =~= head + seq![gap[0]] + (less + tail));
    text_laws::law_words_are_parted_by_whitespace(head, gap[0], less + tail);
    lemma_space_has_no_words(less, tail);
    text_laws::law_words_are_parted_by_whitespace(number, after, rest);
    text_laws::lemma_decimal_value(n as nat);
    assert(text_laws::is_word(number)) by {
        assert forall|k: int| 0 <= k < number.len() implies !unicode::whitespace(
            #[trigger] number[k],
        ) by {
            assert('0' <= number[k] <= '9');
        }
    }
    assert(text_laws::is_word(head)) by {
        assert forall|k: int| 0 <= k < head.len() implies !unicode::whitespace(
            #[trigger] head[k],
        ) by {
            assert(head[k] == 'V' || head[k] == 'm' || head[k] == 'H' || head[k] == 'W' || head[k]
                == 'M' || head[k] == ':');
        }
    }
    text_laws::law_texts_without_whitespace_are_one_word(number);
    text_laws::law_texts_without_whitespace_are_one_word(head);
    assert(text::words(line)[1] == number);
    text_laws::law_unsigned_numbers_are_read_back(n as nat, u64::MAX as nat);
    if exists|k: int|
        {
            &&& 0 <= k < lines.len()
            &&& text::begins_with(#[trigger] lines[k], "VmHWM:"@)
            &&& forall|j: int| 0 <= j < k ==> !text::begins_with(#[trigger] lines[j], "VmHWM:"@)
            &&& match peak {
                Some(peak) => gate::peak_in_line(lines[k]) == Some(peak as nat),
                None => gate::peak_in_line(lines[k]) is None,
            }
        } {
        let k = choose|k: int|
            {
                &&& 0 <= k < lines.len()
                &&& text::begins_with(#[trigger] lines[k], "VmHWM:"@)
                &&& forall|j: int|
                    0 <= j < k ==> !text::begins_with(#[trigger] lines[j], "VmHWM:"@)
                &&& match peak {
                    Some(peak) => gate::peak_in_line(lines[k]) == Some(peak as nat),
                    None => gate::peak_in_line(lines[k]) is None,
                }
            };
        assert(k == i);
    }
}

/// A reranking request is refused just where it has too many documents, or the query or one of
/// the documents is too long.
pub proof fn law_bounds_decide_reranking(
    bounds: RerankBounds,
    query: Seq<char>,
    documents: Seq<String>,
    result: Result<(), Failure>,
)
    requires
        pins::rerank_bounds_hold(bounds, query, documents, result),
    ensures
        result is Ok <==> {
            &&& documents.len() <= bounds.max_documents
            &&& vstd::utf8::encode_utf8(query).len() <= bounds.max_document_bytes
            &&& forall|i: int|
                0 <= i < documents.len() ==> vstd::utf8::encode_utf8((#[trigger] documents[i])@).len()
                    <= bounds.max_document_bytes
        },
{
    if result is Err && documents.len() <= bounds.max_documents && vstd::utf8::encode_utf8(
        query,
    ).len() <= bounds.max_document_bytes {
        let i = choose|i: int|
            0 <= i < documents.len() && pins::byte_len((#[trigger] documents[i])@)
                > bounds.max_document_bytes;
        assert(vstd::utf8::encode_utf8(documents[i]@).len() > bounds.max_document_bytes);
    }
    if result is Ok {
        assert forall|i: int|
            0 <= i < documents.len() implies vstd::utf8::encode_utf8(
            (#[trigger] documents[i])@,
        ).len() <= bounds.max_document_bytes by {
            assert(pins::byte_len(documents[i]@) <= bounds.max_document_bytes);
        }
    }
}

/// Whether a document has a score.
pub open spec fn is_scored<T>(results: Seq<(usize, T)>, i: int) -> bool {
    exists|j: int| 0 <= j < results.len() && (#[trigger] results[j]).0 == i
}

/// Each document has the score that was given for it: scores that name every document once are
/// put into the order of the documents, and any others are refused.
pub proof fn law_scores_belong_to_their_documents<T>(
    results: Seq<(usize, T)>,
    count: int,
    outcome: Result<Vec<T>, Failure>,
)
    requires
        reranker::in_caller_order(results, count, outcome),
        0 <= count,
    ensures
        outcome matches Ok(scores) ==> {
            &&& scores@.len() == count
            &&& forall|j: int|
                0 <= j < results.len() ==> (#[trigger] results[j]).0 < count
                    && scores@[results[j].0 as int] == results[j].1
            &&& forall|j: int, k: int|
                0 <= j < k < results.len() ==> (#[trigger] results[j]).0 != (
                #[trigger] results[k]).0
            &&& forall|i: int| 0 <= i < count ==> #[trigger] is_scored(results, i)
        },
        (forall|j: int| 0 <= j < results.len() ==> (#[trigger] results[j]).0 < count) && (forall|
            j: int,
            k: int,
        |
            0 <= j < k < results.len() ==> (#[trigger] results[j]).0 != (#[trigger] results[k]).0)
            && (forall|i: int| 0 <= i < count ==> #[trigger] is_scored(results, i))
            ==> outcome is Ok,
{
    if outcome is Ok {
        assert forall|j: int, k: int| 0 <= j < k < results.len() implies (#[trigger] results[j]).0
            != (#[trigger] results[k]).0 by {
            assert(!reranker::misplaced(results, count, k));
        }
        assert forall|j: int| 0 <= j < results.len() implies (#[trigger] results[j]).0 < count by {
            assert(!reranker::misplaced(results, count, j));
        }
        assert forall|i: int| 0 <= i < count implies #[trigger] is_scored(results, i) by {
            assert(reranker::named(results, i));
        }
    } else if forall|i: int| 0 <= i < count ==> #[trigger] is_scored(results, i) {
        assert forall|i: int| 0 <= i < count implies #[trigger] reranker::named(results, i) by {
            assert(is_scored(results, i));
        }
    }
}

/// A provider is set up as it is configured: the processor always, a device of CUDA just where
/// the build has CUDA, the ordinal is one, and the memory has a limit that the machine can count.
pub proof fn law_providers_are_set_up_as_configured(
    config: SemanticProviderConfig,
    cuda_built: bool,
    plan: ProviderPlan,
)
    ensures
        provider::planned(config, cuda_built) == Ok::<ProviderPlan, Seq<char>>(plan) <==> {
            &&& config.arena_max_bytes > 0
            &&& match config.provider {
                SemanticProvider::Cpu => plan is Cpu,
                SemanticProvider::Cuda { device_ordinal } => {
                    &&& cuda_built
                    &&& device_ordinal >= 0
                    &&& config.arena_max_bytes <= usize::MAX
                    &&& plan == ProviderPlan::Cuda {
                        device_ordinal,
                        arena_max_bytes: config.arena_max_bytes as usize,
                    }
                },
            }
        },
{
}

/// Whether a file was read under its name, with what a manifest pins for it.
pub open spec fn is_read<R: Fn(&str, &Pinned) -> Result<Vec<u8>, Failure>>(
    read: R,
    manifest: Seq<u8>,
    name: &str,
    bytes: Vec<u8>,
) -> bool {
    exists|assets: Json, pinned: &Pinned|
        {
            &&& json::json_value(manifest) matches Some(value) && value.at("assets"@) == assets
            &&& #[trigger] call_ensures(read, (name, pinned), Ok::<Vec<u8>, Failure>(bytes))
            &&& #[trigger] pins_as(assets, name@, *pinned)
        }
}

/// Whether assets pin for a file what is told of it: nothing where they do not list it, and the
/// digest where they have one.
pub open spec fn pins_as(assets: Json, name: Seq<char>, pinned: Pinned) -> bool {
    match pinned {
        Pinned::Missing => !assets.has(name),
        Pinned::Entry(pin) => assets.has(name) && match assets.get(name).at("sha256"@) {
            Json::Text(digest) => pin is Some && pin->0@ == digest,
            _ => pin is None,
        },
    }
}

proof fn lemma_is_read<R: Fn(&str, &Pinned) -> Result<Vec<u8>, Failure>>(
    read: R,
    manifest: Seq<u8>,
    assets: Json,
    name: &str,
    bytes: Vec<u8>,
)
    requires
        provider::assets_in(manifest) == Some(assets),
        provider::may_read(read, assets, name, Ok(bytes)),
    ensures
        is_read(read, manifest, name, bytes),
{
    let pinned = choose|pinned: &Pinned|
        #![trigger call_ensures(read, (name, pinned), Ok::<Vec<u8>, Failure>(bytes))]
        pinned.pin() == provider::pin_in(assets, name@) && call_ensures(
            read,
            (name, pinned),
            Ok::<Vec<u8>, Failure>(bytes),
        );
    assert(pins_as(assets, name@, *pinned));
}

/// A model that is loaded is made of its five files, each read under its name with what the
/// manifest pins for it, and runs where it is configured to.
pub proof fn law_models_are_made_of_pinned_files<
    L: FnOnce() -> Result<(), Failure>,
    R: Fn(&str, &Pinned) -> Result<Vec<u8>, Failure>,
>(
    config: SemanticProviderConfig,
    cuda_built: bool,
    manifest: Seq<u8>,
    load_runtime: L,
    read: R,
    parts: ModelParts,
)
    requires
        provider::model_loaded(config, cuda_built, manifest, load_runtime, read, Ok(parts)),
    ensures
        is_read(read, manifest, "tokenizer.json", parts.tokenizer.tokenizer),
        is_read(read, manifest, "config.json", parts.tokenizer.config),
        is_read(read, manifest, "special_tokens_map.json", parts.tokenizer.special_tokens_map),
        is_read(read, manifest, "tokenizer_config.json", parts.tokenizer.tokenizer_config),
        is_read(read, manifest, "onnx/model.onnx", parts.model),
        provider::planned(config, cuda_built) == Ok::<ProviderPlan, Seq<char>>(parts.plan),
        call_ensures(load_runtime, (), Ok::<(), Failure>(())),
{
    let ready = choose|ready: Result<(ProviderPlan, Json), Failure>|
        {
            &&& #[trigger] provider::ready_to_load(
                config,
                cuda_built,
                manifest,
                load_runtime,
                "model"@,
                ready,
            )
            &&& match ready {
                Err(failure) => false,
                Ok((plan, assets)) => exists|files: Result<Vec<Vec<u8>>, Failure>|
                    {
                        &&& #[trigger] provider::files_read(
                            read,
                            assets,
                            provider::model_files(),
                            files,
                        )
                        &&& match files {
                            Err(failure) => false,
                            Ok(found) => {
                                &&& parts.plan == plan
                                &&& provider::tokenizer_from(parts.tokenizer, found@)
                                &&& parts.model == found@[4]
                            },
                        }
                    },
            }
        };
    let (plan, assets) = ready->Ok_0;
    let loaded = choose|loaded: Result<(), Failure>| #[trigger]
        call_ensures(load_runtime, (), loaded) && loaded is Ok;
    assert(loaded->Ok_0 == ());
    assert(loaded == Ok::<(), Failure>(()));
    let files = choose|files: Result<Vec<Vec<u8>>, Failure>|
        {
            &&& #[trigger] provider::files_read(read, assets, provider::model_files(), files)
            &&& match files {
                Err(failure) => false,
                Ok(found) => {
                    &&& parts.plan == plan
                    &&& provider::tokenizer_from(parts.tokenizer, found@)
                    &&& parts.model == found@[4]
                },
            }
        };
    let found = files->Ok_0;
    let names = provider::model_files();
    assert(names[0] == "tokenizer.json" && names[1] == "config.json");
    assert(names[2] == "special_tokens_map.json" && names[3] == "tokenizer_config.json");
    assert(names[4] == "onnx/model.onnx");
    assert(provider::may_read(read, assets, names[0], Ok(found@[0])));
    assert(provider::may_read(read, assets, names[1], Ok(found@[1])));
    assert(provider::may_read(read, assets, names[2], Ok(found@[2])));
    assert(provider::may_read(read, assets, names[3], Ok(found@[3])));
    assert(provider::may_read(read, assets, names[4], Ok(found@[4])));
    lemma_is_read(read, manifest, assets, "tokenizer.json", found@[0]);
    lemma_is_read(read, manifest, assets, "config.json", found@[1]);
    lemma_is_read(read, manifest, assets, "special_tokens_map.json", found@[2]);
    lemma_is_read(read, manifest, assets, "tokenizer_config.json", found@[3]);
    lemma_is_read(read, manifest, assets, "onnx/model.onnx", found@[4]);
}

/// Whether a file was held against what a manifest pins for it.
pub open spec fn is_verified<V: Fn(&str, &Pinned) -> Result<(), Failure>>(
    verify: V,
    manifest: Seq<u8>,
    name: &str,
) -> bool {
    exists|assets: Json, pinned: &Pinned, done: Result<(), Failure>|
        {
            &&& json::json_value(manifest) matches Some(value) && value.at("assets"@) == assets
            &&& #[trigger] call_ensures(verify, (name, pinned), done)
            &&& done is Ok
            &&& #[trigger] pins_as(assets, name@, *pinned)
        }
}

proof fn lemma_is_verified<V: Fn(&str, &Pinned) -> Result<(), Failure>>(
    verify: V,
    manifest: Seq<u8>,
    assets: Json,
    name: &str,
    done: (),
)
    requires
        provider::assets_in(manifest) == Some(assets),
        provider::may_read(verify, assets, name, Ok(done)),
    ensures
        is_verified(verify, manifest, name),
{
    let pinned = choose|pinned: &Pinned|
        #![trigger call_ensures(verify, (name, pinned), Ok::<(), Failure>(done))]
        pinned.pin() == provider::pin_in(assets, name@) && call_ensures(
            verify,
            (name, pinned),
            Ok::<(), Failure>(done),
        );
    assert(pins_as(assets, name@, *pinned));
}

/// A reranker that is loaded has a model whose two files were held against the manifest, and a
/// tokenizer of four files that were read with what it pins for them.
pub proof fn law_rerankers_are_made_of_pinned_files<
    L: FnOnce() -> Result<(), Failure>,
    V: Fn(&str, &Pinned) -> Result<(), Failure>,
    R: Fn(&str, &Pinned) -> Result<Vec<u8>, Failure>,
>(
    config: SemanticProviderConfig,
    cuda_built: bool,
    manifest: Seq<u8>,
    load_runtime: L,
    verify: V,
    read: R,
    parts: RerankerParts,
)
    requires
        provider::reranker_loaded(
            config,
            cuda_built,
            manifest,
            load_runtime,
            verify,
            read,
            Ok(parts),
        ),
    ensures
        is_verified(verify, manifest, "model.onnx"),
        is_verified(verify, manifest, "model.onnx.data"),
        is_read(read, manifest, "tokenizer.json", parts.tokenizer.tokenizer),
        is_read(read, manifest, "config.json", parts.tokenizer.config),
        is_read(read, manifest, "special_tokens_map.json", parts.tokenizer.special_tokens_map),
        is_read(read, manifest, "tokenizer_config.json", parts.tokenizer.tokenizer_config),
        provider::planned(config, cuda_built) == Ok::<ProviderPlan, Seq<char>>(parts.plan),
{
    let ready = choose|ready: Result<(ProviderPlan, Json), Failure>|
        {
            &&& #[trigger] provider::ready_to_load(
                config,
                cuda_built,
                manifest,
                load_runtime,
                "reranker"@,
                ready,
            )
            &&& match ready {
                Err(failure) => false,
                Ok((plan, assets)) => exists|verified: Result<Vec<()>, Failure>|
                    {
                        &&& #[trigger] provider::files_read(
                            verify,
                            assets,
                            provider::reranker_model_files(),
                            verified,
                        )
                        &&& verified is Ok
                        &&& provider::reranker_tokenized(plan, assets, read, Ok(parts))
                    },
            }
        };
    let (plan, assets) = ready->Ok_0;
    let verified = choose|verified: Result<Vec<()>, Failure>|
        {
            &&& #[trigger] provider::files_read(
                verify,
                assets,
                provider::reranker_model_files(),
                verified,
            )
            &&& verified is Ok
        };
    let held = verified->Ok_0;
    let models = provider::reranker_model_files();
    assert(models[0] == "model.onnx" && models[1] == "model.onnx.data");
    assert(provider::may_read(verify, assets, models[0], Ok(held@[0])));
    assert(provider::may_read(verify, assets, models[1], Ok(held@[1])));
    lemma_is_verified(verify, manifest, assets, "model.onnx", held@[0]);
    lemma_is_verified(verify, manifest, assets, "model.onnx.data", held@[1]);
    let files = choose|files: Result<Vec<Vec<u8>>, Failure>|
        {
            &&& #[trigger] provider::files_read(
                read,
                assets,
                provider::reranker_tokenizer_files(),
                files,
            )
            &&& match files {
                Err(failure) => false,
                Ok(found) => {
                    &&& parts.plan == plan
                    &&& provider::tokenizer_from(parts.tokenizer, found@)
                },
            }
        };
    let found = files->Ok_0;
    let names = provider::reranker_tokenizer_files();
    assert(names[0] == "tokenizer.json" && names[1] == "config.json");
    assert(names[2] == "special_tokens_map.json" && names[3] == "tokenizer_config.json");
    assert(provider::may_read(read, assets, names[0], Ok(found@[0])));
    assert(provider::may_read(read, assets, names[1], Ok(found@[1])));
    assert(provider::may_read(read, assets, names[2], Ok(found@[2])));
    assert(provider::may_read(read, assets, names[3], Ok(found@[3])));
    lemma_is_read(read, manifest, assets, "tokenizer.json", found@[0]);
    lemma_is_read(read, manifest, assets, "config.json", found@[1]);
    lemma_is_read(read, manifest, assets, "special_tokens_map.json", found@[2]);
    lemma_is_read(read, manifest, assets, "tokenizer_config.json", found@[3]);
}

} // verus!
