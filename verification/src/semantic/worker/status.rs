//! What a worker says of itself.

use crate::semantic::runtime_config::InferenceConfig;
use crate::semantic::worker::protocol::Handshake;
use vstd::prelude::*;

verus! {

#[derive(Clone, Copy, Debug, PartialEq, Eq, Structural)]
pub enum WorkerState {
    NotRunning,
    Loading,
    Ready,
}

#[derive(Clone, Debug)]
pub struct WorkerStatus {
    pub state: WorkerState,
    pub provider: String,
    pub gpu_uuid: Option<String>,
    pub pending: usize,
    pub loaded: bool,
    pub config_fingerprint: String,
    pub model_fingerprint: String,
    pub handshake_match: bool,
    pub error: Option<String>,
    pub rerank_loaded: bool,
    pub rerank_gpu_uuid: Option<String>,
    pub rerank_error: Option<String>,
    pub rerank_pending: usize,
}

/// Two optional texts are the same.
pub open spec fn same_option(a: Option<String>, b: Option<String>) -> bool {
    match (a, b) {
        (Some(a), Some(b)) => a@ == b@,
        (None, None) => true,
        _ => false,
    }
}

/// The device that reranking would use, where a reranker is configured.
pub open spec fn rerank_device(config: InferenceConfig) -> Option<String> {
    if config.rerank_model_dir is Some {
        config.rerank_uuid()
    } else {
        None
    }
}

/// The device that reranking would use, where a reranker is configured.
pub fn rerank_device_of(config: &InferenceConfig) -> (device: Option<String>)
    ensures
        same_option(device, rerank_device(*config)),
{
    if config.rerank_enabled() {
        if config.rerank_gpu_uuid.is_some() {
            config.rerank_gpu_uuid.clone()
        } else {
            config.gpu_uuid.clone()
        }
    } else {
        None
    }
}

impl WorkerStatus {
    /// A status in which nothing waits, is loaded or has failed, for a configuration and
    /// the handshake that goes with it.
    pub open spec fn idle(self, config: InferenceConfig, handshake: Handshake) -> bool {
        &&& self.provider@ == config.provider.name()
        &&& same_option(self.gpu_uuid, config.gpu_uuid)
        &&& self.pending == 0
        &&& !self.loaded
        &&& self.config_fingerprint@ == handshake.config@
        &&& self.model_fingerprint@ == handshake.model@
        &&& self.handshake_match
        &&& self.error is None
        &&& !self.rerank_loaded
        &&& same_option(self.rerank_gpu_uuid, rerank_device(config))
        &&& self.rerank_error is None
        &&& self.rerank_pending == 0
    }

    /// The status of a worker that does not run.
    pub fn not_running(config: &InferenceConfig, handshake: &Handshake) -> (status: Self)
        ensures
            status.state == WorkerState::NotRunning,
            status.idle(*config, *handshake),
    {
        WorkerStatus {
            state: WorkerState::NotRunning,
            provider: config.provider.as_str().to_owned(),
            gpu_uuid: config.gpu_uuid.clone(),
            pending: 0,
            loaded: false,
            config_fingerprint: handshake.config.clone(),
            model_fingerprint: handshake.model.clone(),
            handshake_match: true,
            error: None,
            rerank_loaded: false,
            rerank_gpu_uuid: rerank_device_of(config),
            rerank_error: None,
            rerank_pending: 0,
        }
    }

    /// The status of a worker that was just started.
    pub fn loading(config: &InferenceConfig, handshake: &Handshake) -> (status: Self)
        ensures
            status.state == WorkerState::Loading,
            status.idle(*config, *handshake),
    {
        let mut status = WorkerStatus::not_running(config, handshake);
        status.state = WorkerState::Loading;
        status
    }
}

} // verus!
