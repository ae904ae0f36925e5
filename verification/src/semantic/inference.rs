//! How a model runs: its execution provider, and the batches that it is given.

use crate::text;
use crate::text::Failure;
use vstd::prelude::*;
use vstd::string::StringExecFns;

pub mod batch;
pub mod gate;
pub mod inference_laws;
pub mod provider;
pub mod reranker;

verus! {

/// Maximum number of source texts submitted to one model call.
pub const MAX_BATCH_INPUTS: usize = 8;

/// Maximum padded token count submitted to one model call.
pub const MAX_BATCH_PADDED_TOKENS: usize = 8192;

/// Maximum unpadded token count accepted for one source text.
pub const MAX_INPUT_TOKENS: usize = 4096;

/// CUDA arena limit used by [`SemanticProviderConfig::cuda`]: ten GiB.
pub const DEFAULT_CUDA_ARENA_MAX_BYTES: u64 = 10_737_418_240;

/// Selects the execution provider for a semantic model session.
#[derive(Clone, Copy, Debug, PartialEq, Eq, Structural)]
pub enum SemanticProvider {
    /// Run the graph on the CPU.
    Cpu,
    /// Run the graph on one CUDA device; nodes that it does not support may run on the CPU.
    Cuda { device_ordinal: i32 },
}

/// Runtime settings shared by CPU and CUDA sessions.
#[derive(Clone, Copy, Debug, PartialEq, Eq, Structural)]
pub struct SemanticProviderConfig {
    pub provider: SemanticProvider,
    pub arena_max_bytes: u64,
}

impl Default for SemanticProviderConfig {
    fn default() -> (config: Self)
        ensures
            config.provider == SemanticProvider::Cpu,
            config.arena_max_bytes == DEFAULT_CUDA_ARENA_MAX_BYTES,
    {
        SemanticProviderConfig::cpu()
    }
}

impl SemanticProviderConfig {
    /// What is wrong with the settings, if anything is.
    pub open spec fn fault(self) -> Option<Seq<char>> {
        if self.arena_max_bytes == 0 {
            Some("semantic_unavailable: provider arena limit must be positive"@)
        } else {
            match self.provider {
                SemanticProvider::Cuda { device_ordinal } => if device_ordinal < 0 {
                    Some(
                        "semantic_unavailable: CUDA device ordinal must be non-negative, got "@
                            + text::signed_decimal(device_ordinal as int),
                    )
                } else {
                    None
                },
                SemanticProvider::Cpu => None,
            }
        }
    }

    /// Settings for the CPU.
    pub fn cpu() -> (config: Self)
        ensures
            config.provider == SemanticProvider::Cpu,
            config.arena_max_bytes == DEFAULT_CUDA_ARENA_MAX_BYTES,
    {
        SemanticProviderConfig {
            provider: SemanticProvider::Cpu,
            arena_max_bytes: DEFAULT_CUDA_ARENA_MAX_BYTES,
        }
    }

    /// Settings for one CUDA device.
    pub fn cuda(device_ordinal: i32) -> (config: Self)
        ensures
            config.provider == (SemanticProvider::Cuda { device_ordinal }),
            config.arena_max_bytes == DEFAULT_CUDA_ARENA_MAX_BYTES,
    {
        SemanticProviderConfig {
            provider: SemanticProvider::Cuda { device_ordinal },
            arena_max_bytes: DEFAULT_CUDA_ARENA_MAX_BYTES,
        }
    }

    /// The same settings with another arena limit.
    #[must_use]
    pub fn with_arena_max_bytes(self, bytes: u64) -> (config: Self)
        ensures
            config.provider == self.provider,
            config.arena_max_bytes == bytes,
    {
        SemanticProviderConfig { provider: self.provider, arena_max_bytes: bytes }
    }

    /// Refuses faulty settings before a model or a runtime is initialized.
    pub fn validate(&self) -> (result: Result<(), Failure>)
        ensures
            match result {
                Ok(_) => self.fault() is None,
                Err(failure) => self.fault() is Some && text::plain(failure, self.fault()->0),
            },
    {
        if self.arena_max_bytes == 0 {
            return Err(Failure::new("semantic_unavailable: provider arena limit must be positive"));
        }
        if let SemanticProvider::Cuda { device_ordinal } = self.provider {
            if device_ordinal < 0 {
                let mut message =
                    "semantic_unavailable: CUDA device ordinal must be non-negative, got ".to_owned();
                message.append(text::signed_text(device_ordinal as i64).as_str());
                return Err(Failure::of(message));
            }
        }
        Ok(())
    }
}

} // verus!
