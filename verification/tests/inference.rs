use trufflepig::digest;
use trufflepig::semantic::embedding::Embedding;
use trufflepig::semantic::inference::batch::{
    infer, infer_batch, infer_batch_isolated, infer_one_planned_batch, plan_batch_ranges,
    token_length,
};
use trufflepig::semantic::inference::gate::{check_peak, comparison_device, peak_rss_kib};
use trufflepig::semantic::inference::provider::{
    load_verified_model_with_runtime, load_verified_reranker_with_runtime, provider_dispatches,
    AssetReader, Pinned, ProviderPlan,
};
use trufflepig::semantic::inference::reranker::{score, scores_in_caller_order};
use trufflepig::semantic::inference::{
    SemanticProvider, SemanticProviderConfig, DEFAULT_CUDA_ARENA_MAX_BYTES, MAX_BATCH_INPUTS,
    MAX_BATCH_PADDED_TOKENS, MAX_INPUT_TOKENS,
};
use trufflepig::semantic::pins::{check_rerank_bounds, RerankBounds};
use trufflepig::text::Failure;

const BOUNDS: RerankBounds = RerankBounds { max_documents: 32, max_document_bytes: 4096 };

fn texts(list: &[&str]) -> Vec<String> {
    list.iter().map(|text| text.to_string()).collect()
}

#[test]
fn scores_reorder_into_caller_order() {
    let results = vec![(2, 0.1), (0, 0.9), (1, 0.5)];
    let scores = scores_in_caller_order(results, 3).unwrap();
    assert_eq!(scores, vec![0.9, 0.5, 0.1]);
}

#[test]
fn scores_reject_missing_index() {
    let results = vec![(0, 0.9)];
    let error = scores_in_caller_order(results, 2).unwrap_err();
    assert!(error.message.contains("missing result index 1"));
}

#[test]
fn scores_reject_duplicate_index() {
    let results = vec![(0, 0.9), (0, 0.1)];
    let error = scores_in_caller_order(results, 1).unwrap_err();
    assert!(error.message.contains("duplicate result index 0"));
}

#[test]
fn scores_pass_through_non_finite() {
    let results = vec![(0, f32::NAN)];
    let scores = scores_in_caller_order(results, 1).unwrap();
    assert!(scores[0].is_nan());
}

#[test]
fn scores_reject_an_index_that_was_not_asked_for() {
    let error = scores_in_caller_order(vec![(3, 1u32)], 1).unwrap_err();
    assert!(error.message.contains("3"), "{}", error.message);
}

#[test]
fn scoring_checks_its_bounds_before_the_model_runs() {
    let documents = vec!["doc".to_string(); BOUNDS.max_documents + 1];
    let called = std::cell::Cell::new(false);
    let result = score(&BOUNDS, "query", &documents, || {
        called.set(true);
        Ok(vec![(0usize, 1u32)])
    });
    assert!(result.is_err());
    assert!(!called.get());
    let scored = score(&BOUNDS, "query", &texts(&["a", "b"]), || Ok(vec![(1, 7u32), (0, 9u32)]));
    assert_eq!(scored.unwrap(), vec![9, 7]);
}

#[test]
fn bounds_reject_too_many_documents() {
    let documents = vec!["doc".to_string(); BOUNDS.max_documents + 1];
    let error = check_rerank_bounds(&BOUNDS, "query", &documents).unwrap_err();
    assert!(error.message.contains("rerank_admission"));
}

#[test]
fn bounds_reject_oversized_query_and_document() {
    let long = "a".repeat(BOUNDS.max_document_bytes + 1);
    assert!(check_rerank_bounds(&BOUNDS, &long, &texts(&["doc"]))
        .unwrap_err()
        .message
        .contains("query"));
    let error = check_rerank_bounds(&BOUNDS, "query", &[long]).unwrap_err();
    assert!(error.message.contains("document at index 0"));
}

#[test]
fn bounds_accept_empty_documents() {
    let documents: Vec<String> = Vec::new();
    assert!(check_rerank_bounds(&BOUNDS, "query", &documents).is_ok());
}

#[test]
fn provider_defaults_are_safe_for_accuracy_and_memory() {
    let cpu = SemanticProviderConfig::default();
    assert_eq!(cpu.provider, SemanticProvider::Cpu);
    assert_eq!(cpu.arena_max_bytes, DEFAULT_CUDA_ARENA_MAX_BYTES);
    assert_eq!(SemanticProviderConfig::cpu(), cpu);

    let cuda = SemanticProviderConfig::cuda(3);
    assert_eq!(cuda.provider, SemanticProvider::Cuda { device_ordinal: 3 });
    assert_eq!(cuda.arena_max_bytes, DEFAULT_CUDA_ARENA_MAX_BYTES);
}

#[test]
fn provider_validation_rejects_invalid_values_without_loading_model() {
    assert!(SemanticProviderConfig::cuda(-1).validate().is_err());
    assert!(SemanticProviderConfig::cuda(0).with_arena_max_bytes(0).validate().is_err());
    assert!(SemanticProviderConfig::cuda(0).validate().is_ok());
}

#[test]
fn batch_planner_respects_input_and_padded_token_limits() {
    let lengths = [1000; 17];
    let ranges = plan_batch_ranges(&lengths).unwrap();
    assert_eq!(ranges, [0..8, 8..16, 16..17]);
    for range in ranges {
        let max_tokens = lengths[range.clone()].iter().copied().max().unwrap();
        assert!(range.len() <= MAX_BATCH_INPUTS);
        assert!(max_tokens * range.len() <= MAX_BATCH_PADDED_TOKENS);
    }
}

#[test]
fn batch_planner_splits_at_padded_token_boundary() {
    let ranges = plan_batch_ranges(&[4096, 4096, 4096, 1]).unwrap();
    assert_eq!(ranges, [0..2, 2..4]);
}

#[test]
fn batch_planner_rejects_an_oversized_input() {
    let error = plan_batch_ranges(&[MAX_INPUT_TOKENS + 1]).unwrap_err();
    assert!(error.message.contains("exceeds 4096 model tokens"));
    assert!(token_length(MAX_INPUT_TOKENS + 1, 5).unwrap_err().message.contains("5"));
    assert_eq!(token_length(MAX_INPUT_TOKENS, 5).unwrap(), MAX_INPUT_TOKENS);
}

fn embedding(word: u32) -> Embedding {
    Embedding(vec![word; 768])
}

#[test]
fn batches_are_inferred_in_order() {
    let lengths: Vec<Result<usize, Failure>> = (0..9).map(|_| Ok(10)).collect();
    let mut calls = Vec::new();
    let mut embed = |from: usize, to: usize| {
        calls.push((from, to));
        Ok((from..to).map(|i| Ok(embedding(i as u32))).collect())
    };
    let all = infer_batch(&lengths, &mut embed).unwrap();
    assert_eq!(calls, [(0, 8), (8, 9)]);
    assert_eq!(all.len(), 9);
    assert_eq!(all[8], embedding(8));
    assert_eq!(infer(Ok(vec![embedding(4)])).unwrap(), embedding(4));
    assert!(infer(Ok(Vec::new())).is_err());
}

#[test]
fn a_model_that_gives_too_few_vectors_fails_the_batch() {
    let raw = Ok(vec![Ok(embedding(1))]);
    assert!(infer_one_planned_batch(&[0, 1], raw).is_err());
    let raw = Ok(vec![Ok(embedding(1)), Ok(embedding(2))]);
    assert_eq!(infer_one_planned_batch(&[0, 1], raw).unwrap().len(), 2);
}

#[test]
fn isolated_inference_fails_only_the_bad_input() {
    let lengths: Vec<Result<usize, Failure>> =
        vec![Ok(1), Err(Failure::new("tokenize failed")), Ok(1)];
    let mut embed = |indices: &Vec<usize>| {
        Ok(indices.iter().map(|i| Ok(embedding(*i as u32))).collect())
    };
    let results = infer_batch_isolated(&lengths, &mut embed);
    assert_eq!(results.len(), 3);
    assert_eq!(results[0].as_ref().unwrap(), &embedding(0));
    assert!(results[1].is_err());
    assert_eq!(results[2].as_ref().unwrap(), &embedding(2));
}

#[test]
fn providers_dispatch_by_what_was_built() {
    assert!(matches!(
        provider_dispatches(SemanticProviderConfig::cpu(), false).unwrap(),
        ProviderPlan::Cpu
    ));
    assert!(provider_dispatches(SemanticProviderConfig::cuda(0), false).is_err());
    match provider_dispatches(SemanticProviderConfig::cuda(2), true).unwrap() {
        ProviderPlan::Cuda { device_ordinal, .. } => assert_eq!(device_ordinal, 2),
        other => panic!("{other:?}"),
    }
}

#[test]
fn assets_are_verified_by_their_digest() {
    let expected = digest::sha256_hex(b"abc");
    assert_eq!(expected, "ba7816bf8f01cfea414140de5dae2223b00361a396177a9cb410ff61f20015ad");
    let mut reader = AssetReader::new();
    reader.take(b"a");
    reader.take(b"bc");
    let pinned = Pinned::Entry(Some(expected.clone()));
    assert!(reader.verify_asset_digest(&pinned, "model.onnx", "semantic").is_ok());
    let mut reader = AssetReader::new();
    reader.take(b"abd");
    assert!(reader.verify_asset_digest(&pinned, "model.onnx", "semantic").is_err());
    let reader = AssetReader::new();
    assert!(reader.verify_asset_digest(&Pinned::Missing, "model.onnx", "semantic").is_err());
}

#[test]
fn gates_read_the_peak_memory() {
    assert_eq!(peak_rss_kib("VmPeak:\t 10 kB\nVmHWM:\t 2048 kB\n"), Some(2048));
    assert_eq!(peak_rss_kib("VmPeak:\t 10 kB\n"), None);
    assert!(check_peak(Some(2048)).is_ok());
    assert!(check_peak(Some(8_388_608)).is_err());
    assert!(comparison_device(SemanticProviderConfig::cpu()).is_err());
    assert_eq!(comparison_device(SemanticProviderConfig::cuda(1)).unwrap(), 1);
}

const MANIFEST: &str = r#"{"assets":{
    "tokenizer.json":{"sha256":"1"},"config.json":{"sha256":"2"},
    "special_tokens_map.json":{"sha256":"3"},"tokenizer_config.json":{},
    "onnx/model.onnx":{"sha256":5},"model.onnx":{"sha256":"6"}}}"#;

#[test]
fn models_are_loaded_from_the_files_that_their_manifest_pins() {
    let asked = std::cell::RefCell::new(Vec::new());
    let read = |name: &str, pinned: &Pinned| {
        let pin = match pinned {
            Pinned::Missing => "missing".to_string(),
            Pinned::Entry(pin) => pin.clone().unwrap_or("unpinned".into()),
        };
        asked.borrow_mut().push((name.to_string(), pin));
        Ok(name.as_bytes().to_vec())
    };
    let cpu = SemanticProviderConfig::cpu();
    let parts =
        load_verified_model_with_runtime(cpu, false, MANIFEST.as_bytes(), || Ok(()), read).unwrap();
    assert_eq!(parts.plan, ProviderPlan::Cpu);
    assert_eq!(parts.model, b"onnx/model.onnx");
    assert_eq!(parts.tokenizer.tokenizer, b"tokenizer.json");
    assert_eq!(parts.tokenizer.tokenizer_config, b"tokenizer_config.json");
    let expected = [
        ("tokenizer.json", "1"),
        ("config.json", "2"),
        ("special_tokens_map.json", "3"),
        ("tokenizer_config.json", "unpinned"),
        ("onnx/model.onnx", "unpinned"),
    ];
    assert_eq!(asked.take(), expected.map(|(name, pin)| (name.to_string(), pin.to_string())));
    let load = |manifest: &[u8]| {
        load_verified_model_with_runtime(cpu, false, manifest, || Ok(()), read)
    };
    assert_eq!(load(b"{}").unwrap_err().message, "invalid model manifest");
    assert!(load(b"not json").is_err());
    let no_runtime = || Err(Failure::new("no runtime"));
    let failed =
        load_verified_model_with_runtime(cpu, false, MANIFEST.as_bytes(), no_runtime, read);
    assert_eq!(failed.unwrap_err().message, "no runtime");
}

#[test]
fn rerankers_verify_their_model_before_their_tokenizer_is_read() {
    let read = |name: &str, _: &Pinned| Ok(name.as_bytes().to_vec());
    let refuse = |name: &str, pinned: &Pinned| match pinned {
        Pinned::Missing => Err(Failure::new(name)),
        Pinned::Entry(_) => Ok(()),
    };
    let cpu = SemanticProviderConfig::cpu();
    let manifest = MANIFEST.as_bytes();
    let refused =
        load_verified_reranker_with_runtime(cpu, false, manifest, || Ok(()), refuse, read);
    assert_eq!(refused.unwrap_err().message, "model.onnx.data");
    let accept = |_: &str, _: &Pinned| Ok(());
    let parts =
        load_verified_reranker_with_runtime(cpu, false, manifest, || Ok(()), accept, read).unwrap();
    assert_eq!(parts.tokenizer.config, b"config.json");
    let invalid = SemanticProviderConfig::cuda(-1);
    let never = || panic!("the runtime is not loaded");
    assert!(load_verified_reranker_with_runtime(invalid, true, manifest, never, accept, read)
        .is_err());
}
