//! The engines that run models, and how they are opened.

use crate::semantic::embedding::Embedding;
use crate::semantic::inference::SemanticProviderConfig;
use crate::semantic::inference::SemanticProvider;
use crate::semantic::runtime_config;
use crate::semantic::runtime_config::cuda_identity::DriverCudaDevice;
use crate::semantic::runtime_config::InferenceConfig;
use crate::text;
use crate::text::Failure;
use vstd::prelude::*;

verus! {

/// An embedding model.
pub trait Engine {
    fn embed_batch(&mut self, texts: &[String]) -> Result<Vec<Embedding>, Failure>;
}

/// A reranking model, opened and unloaded apart from [`Engine`]. Scores are the bit patterns
/// of their single-precision numbers.
pub trait RerankEngine {
    fn rerank(&mut self, query: &str, documents: &[String]) -> Result<Vec<u32>, Failure>;
}

/// How to open a model: where it is, on which provider, what to preload, and which runtime
/// library to use where one is configured.
#[derive(Debug)]
pub struct EnginePlan {
    pub model: Vec<u8>,
    pub provider: SemanticProviderConfig,
    pub preload: Option<Vec<u8>>,
    pub runtime: Option<Vec<u8>>,
}

/// Whether two optional paths are the same.
pub open spec fn same_path(a: Option<Vec<u8>>, b: Option<Vec<u8>>) -> bool {
    match (a, b) {
        (Some(a), Some(b)) => a@ == b@,
        (None, None) => true,
        _ => false,
    }
}

/// What is said when a model directory is missing.
pub open spec fn missing_model(rerank: bool, failure: Failure) -> bool {
    if rerank {
        text::plain(
            failure,
            "rerank_unavailable: set rerank_model_dir in inference.toml or TRUFFLEPIG_RERANK_MODEL_DIR"@,
        )
    } else {
        text::under(
            failure,
            "semantic_worker: model directory is not configured"@,
            "semantic_unavailable: set model_dir in inference.toml or TRUFFLEPIG_MODEL_DIR"@,
            false,
        )
    }
}

/// Whether `result` says how to open a model that stands in `model`, on the device with an
/// ordinal, or on the CPU without one.
pub open spec fn plans(
    config: InferenceConfig,
    rerank: bool,
    ordinal: Option<u32>,
    result: Result<EnginePlan, Failure>,
) -> bool {
    let model = if rerank {
        config.rerank_model_dir
    } else {
        config.model_dir
    };
    if ordinal is Some && ordinal->0 > i32::MAX {
        result is Err && text::under(
            result->Err_0,
            "cuda_unavailable: device ordinal does not fit i32"@,
            "out of range integral type conversion attempted"@,
            false,
        )
    } else if model is None {
        result is Err && missing_model(rerank, result->Err_0)
    } else {
        &&& result is Ok
        &&& result->Ok_0.model@ == model->0@
        &&& result->Ok_0.provider.arena_max_bytes == config.arena_bytes
        &&& result->Ok_0.provider.provider == match ordinal {
            Some(ordinal) => SemanticProvider::Cuda { device_ordinal: ordinal as i32 },
            None => SemanticProvider::Cpu,
        }
        &&& same_path(
            result->Ok_0.preload,
            if ordinal is Some {
                config.cuda_preload_library
            } else {
                None
            },
        )
        &&& same_path(result->Ok_0.runtime, config.runtime_library)
    }
}

fn plan_engine(config: &InferenceConfig, rerank: bool, ordinal: Option<u32>) -> (result: Result<
    EnginePlan,
    Failure,
>)
    ensures
        plans(*config, rerank, ordinal, result),
{
    let provider = match ordinal {
        Some(ordinal) => {
            if ordinal > i32::MAX as u32 {
                return Err(
                    Failure::caused(
                        "cuda_unavailable: device ordinal does not fit i32".to_owned(),
                        "out of range integral type conversion attempted",
                        false,
                    ),
                );
            }
            SemanticProviderConfig::cuda(ordinal as i32)
        },
        None => SemanticProviderConfig::cpu(),
    };
    let configured = if rerank {
        &config.rerank_model_dir
    } else {
        &config.model_dir
    };
    let model = match configured {
        Some(model) => model.clone(),
        None => {
            if rerank {
                return Err(
                    Failure::new(
                        "rerank_unavailable: set rerank_model_dir in inference.toml or TRUFFLEPIG_RERANK_MODEL_DIR",
                    ),
                );
            }
            return Err(
                Failure::caused(
                    "semantic_worker: model directory is not configured".to_owned(),
                    "semantic_unavailable: set model_dir in inference.toml or TRUFFLEPIG_MODEL_DIR",
                    false,
                ),
            );
        },
    };
    let preload = match ordinal {
        Some(_) => config.cuda_preload_library.clone(),
        None => None,
    };
    Ok(
        EnginePlan {
            model,
            provider: provider.with_arena_max_bytes(config.arena_bytes),
            preload,
            runtime: config.runtime_library.clone(),
        },
    )
}

/// Whether `result` is how to open a model once its device was looked for.
pub open spec fn opened(
    config: InferenceConfig,
    rerank: bool,
    device: Result<Option<u32>, Failure>,
    result: Result<EnginePlan, Failure>,
) -> bool {
    match device {
        Err(failure) => result == Err::<EnginePlan, Failure>(failure),
        Ok(ordinal) => plans(config, rerank, ordinal, result),
    }
}

/// How to open the embedding model that is configured. `enumerate` lists the CUDA devices.
pub fn open_engine<F: FnOnce() -> Result<Vec<DriverCudaDevice>, Failure>>(
    config: &InferenceConfig,
    enumerate: F,
) -> (result: Result<EnginePlan, Failure>)
    requires
        config.fault() is None && runtime_config::asks_driver(config.provider, config.gpu_uuid)
            ==> call_requires(enumerate, ()),
    ensures
        match config.fault() {
            Some(fault) => result is Err && text::plain(result->Err_0, fault),
            None => exists|device: Result<Option<u32>, Failure>|
                {
                    &&& #[trigger] runtime_config::device_resolved(
                        config.provider,
                        config.gpu_uuid,
                        enumerate,
                        device,
                    )
                    &&& opened(*config, false, device, result)
                },
        },
{
    match config.validate() {
        Err(failure) => return Err(failure),
        Ok(_) => {},
    }
    let device = config.cuda_device(enumerate);
    let ghost found = device;
    assert(runtime_config::device_resolved(config.provider, config.gpu_uuid, enumerate, found));
    match device {
        Err(failure) => Err(failure),
        Ok(ordinal) => plan_engine(config, false, ordinal),
    }
}

/// How to open the reranker that is configured, which may run on another device.
pub fn open_rerank_engine<F: FnOnce() -> Result<Vec<DriverCudaDevice>, Failure>>(
    config: &InferenceConfig,
    enumerate: F,
) -> (result: Result<EnginePlan, Failure>)
    requires
        config.fault() is None && config.rerank_model_dir is Some && runtime_config::asks_driver(
            config.provider,
            config.rerank_uuid(),
        ) ==> call_requires(enumerate, ()),
    ensures
        match config.fault() {
            Some(fault) => result is Err && text::plain(result->Err_0, fault),
            None => if config.rerank_model_dir is None {
                result is Err && text::plain(
                    result->Err_0,
                    "rerank_unavailable: rerank_model_dir is not configured"@,
                )
            } else {
                exists|device: Result<Option<u32>, Failure>|
                    {
                        &&& #[trigger] runtime_config::device_resolved(
                            config.provider,
                            config.rerank_uuid(),
                            enumerate,
                            device,
                        )
                        &&& opened(*config, true, device, result)
                    }
            },
        },
{
    match config.validate() {
        Err(failure) => return Err(failure),
        Ok(_) => {},
    }
    if !config.rerank_enabled() {
        return Err(Failure::new("rerank_unavailable: rerank_model_dir is not configured"));
    }
    let device = config.rerank_cuda_device(enumerate);
    let ghost found = device;
    assert(runtime_config::device_resolved(
        config.provider,
        config.rerank_uuid(),
        enumerate,
        found,
    ));
    match device {
        Err(failure) => Err(failure),
        Ok(ordinal) => plan_engine(config, true, ordinal),
    }
}

/// What stands for the embeddings of a request when there is no model to ask, or when the
/// request does not ask for any.
pub fn unserved(loaded: bool, rerank: bool) -> (message: String)
    ensures
        message@ == match (loaded, rerank) {
            (false, false) => "semantic_worker: engine unavailable"@,
            (true, false) => "semantic_worker: invalid inference command"@,
            (false, true) => "rerank_unavailable: engine unavailable"@,
            (true, true) => "rerank_unavailable: invalid inference command"@,
        },
{
    if rerank {
        if loaded {
            "rerank_unavailable: invalid inference command".to_owned()
        } else {
            "rerank_unavailable: engine unavailable".to_owned()
        }
    } else if loaded {
        "semantic_worker: invalid inference command".to_owned()
    } else {
        "semantic_worker: engine unavailable".to_owned()
    }
}

} // verus!
