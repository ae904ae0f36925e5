//! How inference runs: which provider, which devices, which files.

use crate::digest;
use crate::paths;
use crate::text;
use crate::text::Failure;
use cuda_identity::DriverCudaDevice;
use vstd::prelude::*;
use vstd::string::StringExecFns;

pub mod config_laws;
pub mod cuda_identity;

verus! {

/// The memory arena of the CUDA provider when none is configured: ten GiB.
pub const DEFAULT_ARENA_BYTES: u64 = 10_737_418_240;

#[derive(Clone, Copy, Debug, PartialEq, Eq, Structural)]
pub enum InferenceProvider {
    Cpu,
    Cuda,
}

impl Default for InferenceProvider {
    fn default() -> (provider: Self)
        ensures
            provider == InferenceProvider::Cpu,
    {
        InferenceProvider::Cpu
    }
}

impl InferenceProvider {
    pub open spec fn name(self) -> Seq<char> {
        match self {
            InferenceProvider::Cpu => "cpu"@,
            InferenceProvider::Cuda => "cuda"@,
        }
    }

    pub fn as_str(&self) -> (name: &'static str)
        ensures
            name@ == self.name(),
    {
        match self {
            InferenceProvider::Cpu => "cpu",
            InferenceProvider::Cuda => "cuda",
        }
    }
}

/// The configuration of inference. Paths are the bytes that name them.
#[derive(Clone, Debug, PartialEq, Eq)]
pub struct InferenceConfig {
    pub provider: InferenceProvider,
    pub gpu_uuid: Option<String>,
    pub model_dir: Option<Vec<u8>>,
    pub runtime_library: Option<Vec<u8>>,
    pub cuda_preload_library: Option<Vec<u8>>,
    pub arena_bytes: u64,
    pub rerank_model_dir: Option<Vec<u8>>,
    pub rerank_gpu_uuid: Option<String>,
}

/// The paths that the environment offers where the configuration names none.
#[derive(Clone, Debug)]
pub struct EnvironmentDefaults {
    pub model_dir: Option<Vec<u8>>,
    pub runtime_library: Option<Vec<u8>>,
    pub cuda_preload_library: Option<Vec<u8>>,
    pub rerank_model_dir: Option<Vec<u8>>,
}

impl Default for InferenceConfig {
    fn default() -> (config: Self)
        ensures
            config.is_default(),
    {
        InferenceConfig {
            provider: InferenceProvider::Cpu,
            gpu_uuid: None,
            model_dir: None,
            runtime_library: None,
            cuda_preload_library: None,
            arena_bytes: DEFAULT_ARENA_BYTES,
            rerank_model_dir: None,
            rerank_gpu_uuid: None,
        }
    }
}

/// Whether the driver is asked which device is wanted: only for a device of its own, named by
/// an identifier as the driver writes it.
pub open spec fn asks_driver(provider: InferenceProvider, wanted: Option<String>) -> bool {
    &&& provider == InferenceProvider::Cuda
    &&& wanted is Some
    &&& cuda_identity::canonical(vstd::utf8::encode_utf8(wanted->0@))
}

/// The first of two optional values that is there.
pub open spec fn or_else<T>(first: Option<T>, second: Option<T>) -> Option<T> {
    if first is Some {
        first
    } else {
        second
    }
}

/// Where the configuration is: at an absolute path set for it, else below the home
/// directory.
pub open spec fn config_path(
    overridden: Option<Vec<u8>>,
    home: Option<Vec<u8>>,
    result: Result<Vec<u8>, Failure>,
) -> bool {
    match overridden {
        Some(path) => if paths::absolute(path@) {
            result is Ok && result->Ok_0@ == path@
        } else {
            result is Err && text::plain(
                result->Err_0,
                "inference_config_invalid: TRUFFLEPIG_INFERENCE_CONFIG must be absolute"@,
            )
        },
        None => match home {
            Some(home) => result is Ok && result->Ok_0@ == paths::joined(
                paths::joined(home@, vstd::utf8::encode_utf8(".config/trufflepig"@)),
                vstd::utf8::encode_utf8("inference.toml"@),
            ),
            None => result is Err && text::plain(
                result->Err_0,
                "inference_config_unavailable: HOME is unset"@,
            ),
        },
    }
}

impl InferenceConfig {
    pub open spec fn is_default(self) -> bool {
        &&& self.provider == InferenceProvider::Cpu
        &&& self.gpu_uuid is None
        &&& self.model_dir is None
        &&& self.runtime_library is None
        &&& self.cuda_preload_library is None
        &&& self.arena_bytes == DEFAULT_ARENA_BYTES
        &&& self.rerank_model_dir is None
        &&& self.rerank_gpu_uuid is None
    }

    /// The configuration with the gaps filled that the environment can fill.
    pub open spec fn filled(self, environment: EnvironmentDefaults) -> InferenceConfig {
        InferenceConfig {
            model_dir: or_else(self.model_dir, environment.model_dir),
            runtime_library: or_else(self.runtime_library, environment.runtime_library),
            cuda_preload_library: or_else(
                self.cuda_preload_library,
                environment.cuda_preload_library,
            ),
            rerank_model_dir: or_else(self.rerank_model_dir, environment.rerank_model_dir),
            ..self
        }
    }

    /// What is wrong with the configuration, if anything is.
    pub open spec fn fault(self) -> Option<Seq<char>> {
        if self.arena_bytes == 0 {
            Some("inference_config_invalid: arena_bytes must be positive"@)
        } else if self.provider == InferenceProvider::Cuda && (self.gpu_uuid is None
            || self.gpu_uuid->0@.len() == 0) {
            Some("inference_config_invalid: cuda requires gpu_uuid"@)
        } else if self.rerank_gpu_uuid is Some && self.provider != InferenceProvider::Cuda {
            Some("inference_config_invalid: rerank_gpu_uuid requires the cuda provider"@)
        } else if self.rerank_gpu_uuid is Some && self.rerank_model_dir is None {
            Some("inference_config_invalid: rerank_gpu_uuid requires rerank_model_dir"@)
        } else {
            None
        }
    }

    /// The device that serves reranking.
    pub open spec fn rerank_uuid(self) -> Option<String> {
        or_else(self.rerank_gpu_uuid, self.gpu_uuid)
    }

    /// The devices that a process may see, separated by a comma.
    pub open spec fn visible_devices(self) -> Option<Seq<char>> {
        if self.provider != InferenceProvider::Cuda || self.gpu_uuid is None {
            None
        } else if self.rerank_gpu_uuid is Some && self.rerank_gpu_uuid->0@ != self.gpu_uuid->0@ {
            Some(self.gpu_uuid->0@ + ","@ + self.rerank_gpu_uuid->0@)
        } else {
            Some(self.gpu_uuid->0@)
        }
    }

    /// Where the configuration is read from.
    pub fn path(overridden: Option<Vec<u8>>, home: Option<Vec<u8>>) -> (result: Result<
        Vec<u8>,
        Failure,
    >)
        ensures
            config_path(overridden, home, result),
    {
        match overridden {
            Some(path) => {
                if paths::is_absolute(path.as_slice()) {
                    Ok(path)
                } else {
                    Err(
                        Failure::new(
                            "inference_config_invalid: TRUFFLEPIG_INFERENCE_CONFIG must be absolute",
                        ),
                    )
                }
            },
            None => match home {
                Some(home) => {
                    let directory = paths::join(
                        home.as_slice(),
                        ".config/trufflepig".as_bytes(),
                    );
                    Ok(paths::join(directory.as_slice(), "inference.toml".as_bytes()))
                },
                None => Err(Failure::new("inference_config_unavailable: HOME is unset")),
            },
        }
    }

    /// Reads the configuration from where it is. `read` gives what the file at a path
    /// holds, or nothing when there is no such file.
    pub fn load<F: FnOnce(&Vec<u8>) -> Result<Option<InferenceConfig>, Failure>>(
        overridden: Option<Vec<u8>>,
        home: Option<Vec<u8>>,
        environment: EnvironmentDefaults,
        read: F,
    ) -> (result: Result<InferenceConfig, Failure>)
        requires
            forall|path: Vec<u8>| #[trigger]
                config_path(overridden, home, Ok(path)) ==> call_requires(read, (&path,)),
        ensures
            exists|path: Result<Vec<u8>, Failure>|
                {
                    &&& #[trigger] config_path(overridden, home, path)
                    &&& match path {
                        Err(failure) => result == Err::<InferenceConfig, Failure>(failure),
                        Ok(path) => exists|found: Result<Option<InferenceConfig>, Failure>|
                            {
                                &&& #[trigger] call_ensures(read, (&path,), found)
                                &&& loaded(found, environment, result)
                            },
                    }
                },
    {
        match Self::path(overridden, home) {
            Err(failure) => {
                let ghost path = Err::<Vec<u8>, Failure>(failure);
                assert(config_path(overridden, home, path));
                Err(failure)
            },
            Ok(path) => {
                let ghost placed = Ok::<Vec<u8>, Failure>(path);
                assert(config_path(overridden, home, placed));
                let found = read(&path);
                Self::from_path(found, environment)
            },
        }
    }

    /// The configuration from what its file held: a missing file counts as the default,
    /// gaps are filled from the environment, and a faulty configuration is refused.
    pub fn from_path(
        found: Result<Option<InferenceConfig>, Failure>,
        environment: EnvironmentDefaults,
    ) -> (result: Result<InferenceConfig, Failure>)
        ensures
            loaded(found, environment, result),
    {
        let mut config = match found {
            Err(failure) => return Err(failure),
            Ok(Some(config)) => config,
            Ok(None) => InferenceConfig::default(),
        };
        config.apply_environment_defaults(environment);
        match config.validate() {
            Err(failure) => Err(failure),
            Ok(_) => Ok(config),
        }
    }

    /// Fills the gaps that the environment can fill.
    pub fn apply_environment_defaults(&mut self, environment: EnvironmentDefaults)
        ensures
            *final(self) == old(self).filled(environment),
    {
        if self.model_dir.is_none() {
            self.model_dir = environment.model_dir;
        }
        if self.runtime_library.is_none() {
            self.runtime_library = environment.runtime_library;
        }
        if self.cuda_preload_library.is_none() {
            self.cuda_preload_library = environment.cuda_preload_library;
        }
        if self.rerank_model_dir.is_none() {
            self.rerank_model_dir = environment.rerank_model_dir;
        }
    }

    /// Refuses a faulty configuration.
    pub fn validate(&self) -> (result: Result<(), Failure>)
        ensures
            match result {
                Ok(_) => self.fault() is None,
                Err(failure) => self.fault() is Some && text::plain(failure, self.fault()->0),
            },
    {
        if self.arena_bytes == 0 {
            return Err(Failure::new("inference_config_invalid: arena_bytes must be positive"));
        }
        let cuda = self.provider == InferenceProvider::Cuda;
        let named = match &self.gpu_uuid {
            Some(uuid) => !uuid.as_str().is_empty(),
            None => false,
        };
        if cuda && !named {
            return Err(Failure::new("inference_config_invalid: cuda requires gpu_uuid"));
        }
        if self.rerank_gpu_uuid.is_some() && !cuda {
            return Err(
                Failure::new(
                    "inference_config_invalid: rerank_gpu_uuid requires the cuda provider",
                ),
            );
        }
        if self.rerank_gpu_uuid.is_some() && self.rerank_model_dir.is_none() {
            return Err(
                Failure::new(
                    "inference_config_invalid: rerank_gpu_uuid requires rerank_model_dir",
                ),
            );
        }
        Ok(())
    }

    /// The directory of the embedding model.
    pub fn model_dir(&self) -> (result: Result<&Vec<u8>, Failure>)
        ensures
            match result {
                Ok(path) => self.model_dir == Some(*path),
                Err(failure) => self.model_dir is None && text::plain(
                    failure,
                    "semantic_unavailable: set model_dir in inference.toml or TRUFFLEPIG_MODEL_DIR"@,
                ),
            },
    {
        match &self.model_dir {
            Some(path) => Ok(path),
            None => Err(
                Failure::new(
                    "semantic_unavailable: set model_dir in inference.toml or TRUFFLEPIG_MODEL_DIR",
                ),
            ),
        }
    }

    /// The library of the model runtime.
    pub fn runtime_library(&self) -> (result: Result<&Vec<u8>, Failure>)
        ensures
            match result {
                Ok(path) => self.runtime_library == Some(*path),
                Err(failure) => self.runtime_library is None && text::plain(
                    failure,
                    "semantic_unavailable: set runtime_library in inference.toml or ORT_DYLIB_PATH"@,
                ),
            },
    {
        match &self.runtime_library {
            Some(path) => Ok(path),
            None => Err(
                Failure::new(
                    "semantic_unavailable: set runtime_library in inference.toml or ORT_DYLIB_PATH",
                ),
            ),
        }
    }

    /// The ordinal of the embedding device; none on the CPU.
    pub fn cuda_device<F: FnOnce() -> Result<Vec<DriverCudaDevice>, Failure>>(
        &self,
        enumerate: F,
    ) -> (result: Result<Option<u32>, Failure>)
        requires
            asks_driver(self.provider, self.gpu_uuid) ==> call_requires(enumerate, ()),
        ensures
            device_resolved(self.provider, self.gpu_uuid, enumerate, result),
    {
        if self.provider != InferenceProvider::Cuda {
            return Ok(None);
        }
        match &self.gpu_uuid {
            None => Err(Failure::new("cuda requires gpu_uuid")),
            Some(wanted) => match resolve_cuda_uuid(wanted.as_str(), enumerate) {
                Ok(ordinal) => Ok(Some(ordinal)),
                Err(failure) => Err(failure),
            },
        }
    }

    /// Whether a reranker is configured.
    pub fn rerank_enabled(&self) -> (enabled: bool)
        ensures
            enabled == self.rerank_model_dir is Some,
    {
        self.rerank_model_dir.is_some()
    }

    /// The directory of the reranker.
    pub fn rerank_model_dir(&self) -> (result: Result<&Vec<u8>, Failure>)
        ensures
            match result {
                Ok(path) => self.rerank_model_dir == Some(*path),
                Err(failure) => self.rerank_model_dir is None && text::plain(
                    failure,
                    "rerank_unavailable: set rerank_model_dir in inference.toml or TRUFFLEPIG_RERANK_MODEL_DIR"@,
                ),
            },
    {
        match &self.rerank_model_dir {
            Some(path) => Ok(path),
            None => Err(
                Failure::new(
                    "rerank_unavailable: set rerank_model_dir in inference.toml or TRUFFLEPIG_RERANK_MODEL_DIR",
                ),
            ),
        }
    }

    /// The ordinal of the reranking device: its own if one is configured, else that of
    /// the embedder; none on the CPU.
    pub fn rerank_cuda_device<F: FnOnce() -> Result<Vec<DriverCudaDevice>, Failure>>(
        &self,
        enumerate: F,
    ) -> (result: Result<Option<u32>, Failure>)
        requires
            asks_driver(self.provider, self.rerank_uuid()) ==> call_requires(enumerate, ()),
        ensures
            device_resolved(self.provider, self.rerank_uuid(), enumerate, result),
    {
        if self.provider != InferenceProvider::Cuda {
            return Ok(None);
        }
        let wanted = if self.rerank_gpu_uuid.is_some() {
            &self.rerank_gpu_uuid
        } else {
            &self.gpu_uuid
        };
        match wanted {
            None => Err(Failure::new("cuda requires gpu_uuid")),
            Some(wanted) => match resolve_cuda_uuid(wanted.as_str(), enumerate) {
                Ok(ordinal) => Ok(Some(ordinal)),
                Err(failure) => Err(failure),
            },
        }
    }

    /// The devices that the process should expose: that of the embedder, and that of the
    /// reranker where it differs. None on the CPU.
    pub fn cuda_visible_devices(&self) -> (devices: Option<String>)
        ensures
            match devices {
                Some(devices) => self.visible_devices() == Some(devices@),
                None => self.visible_devices() is None,
            },
    {
        if self.provider != InferenceProvider::Cuda {
            return None;
        }
        match (&self.gpu_uuid, &self.rerank_gpu_uuid) {
            (None, _) => None,
            (Some(primary), Some(rerank)) => {
                if text::same_text(primary.as_str(), rerank.as_str()) {
                    Some(primary.clone())
                } else {
                    let mut devices = primary.clone();
                    devices.append(",");
                    devices.append(rerank.as_str());
                    Some(devices)
                }
            },
            (Some(primary), None) => Some(primary.clone()),
        }
    }

    /// What tells one configuration from another, given its serialized form.
    pub fn fingerprint(serialized: &[u8]) -> (fingerprint: String)
        ensures
            fingerprint@ == digest::hex(digest::blake3_digest(serialized@)),
    {
        digest::blake3_hex(serialized)
    }
}

/// Whether `result` is the configuration that comes of what its file held.
pub open spec fn loaded(
    found: Result<Option<InferenceConfig>, Failure>,
    environment: EnvironmentDefaults,
    result: Result<InferenceConfig, Failure>,
) -> bool {
    match found {
        Err(failure) => result == Err::<InferenceConfig, Failure>(failure),
        Ok(found) => exists|read: InferenceConfig|
            {
                &&& match found {
                    Some(config) => read == config,
                    None => read.is_default(),
                }
                &&& match (#[trigger] read.filled(environment)).fault() {
                    None => result == Ok::<InferenceConfig, Failure>(read.filled(environment)),
                    Some(fault) => result is Err && text::plain(result->Err_0, fault),
                }
            },
    }
}

/// Whether `result` is the ordinal of the device that an identifier names, on a provider.
pub open spec fn device_resolved<F: FnOnce() -> Result<Vec<DriverCudaDevice>, Failure>>(
    provider: InferenceProvider,
    uuid: Option<String>,
    enumerate: F,
    result: Result<Option<u32>, Failure>,
) -> bool {
    if provider != InferenceProvider::Cuda {
        result == Ok::<Option<u32>, Failure>(None)
    } else {
        match uuid {
            None => result is Err && text::plain(result->Err_0, "cuda requires gpu_uuid"@),
            Some(wanted) => match result {
                Ok(ordinal) => ordinal is Some && cuda_identity::uuid_resolved(
                    wanted@,
                    enumerate,
                    Ok(ordinal->0),
                ),
                Err(failure) => cuda_identity::uuid_resolved(wanted@, enumerate, Err(failure)),
            },
        }
    }
}

/// A device as the system management tool lists it.
#[derive(Clone, Debug, PartialEq, Eq)]
pub struct CudaDevice {
    pub uuid: String,
    pub ordinal: u32,
}

/// The ordinal of the device that `wanted` names.
pub fn resolve_cuda_uuid<F: FnOnce() -> Result<Vec<DriverCudaDevice>, Failure>>(
    wanted: &str,
    enumerate: F,
) -> (result: Result<u32, Failure>)
    requires
        cuda_identity::canonical(vstd::utf8::encode_utf8(wanted@)) ==> call_requires(enumerate, ()),
    ensures
        cuda_identity::uuid_resolved(wanted@, enumerate, result),
{
    cuda_identity::resolve_cuda_uuid_with(wanted, enumerate)
}

/// The device that one line of the listing describes: an identifier and an ordinal,
/// separated by a comma.
pub open spec fn device_row(line: Seq<char>) -> Option<(Seq<char>, nat)> {
    let fields = text::parts(line, ',');
    let uuid = text::trimmed(fields[0]);
    let ordinal = if fields.len() > 1 {
        text::unsigned_value(text::trimmed(fields[1]), u32::MAX as nat)
    } else {
        None
    };
    if uuid.len() > 0 && ordinal is Some {
        Some((uuid, ordinal->0))
    } else {
        None
    }
}

/// The devices in a listing of the system management tool, one line for each. A line that
/// describes no device fails the whole listing.
pub fn enumerate_cuda_devices(listing: &str) -> (result: Result<Vec<CudaDevice>, Failure>)
    ensures
        match result {
            Ok(devices) => {
                let lines = text::lines(listing@);
                &&& devices.len() == lines.len()
                &&& forall|i: int|
                    0 <= i < lines.len() ==> device_row(lines[i]) == Some(
                        ((#[trigger] devices[i]).uuid@, devices[i].ordinal as nat),
                    )
            },
            Err(failure) => {
                &&& exists|i: int|
                    0 <= i < text::lines(listing@).len() && device_row(
                        #[trigger] text::lines(listing@)[i],
                    ) is None
                &&& text::plain(failure, "cuda_unavailable: malformed nvidia-smi GPU row"@)
            },
        },
{
    let chars = text::chars_of(listing);
    let lines = text::lines_of(chars.as_slice());
    let mut devices: Vec<CudaDevice> = Vec::new();
    let mut i: usize = 0;
    while i < lines.len()
        invariant
            i <= lines.len(),
            text::views(lines@) == text::lines(listing@),
            devices.len() == i,
            forall|k: int|
                0 <= k < i ==> device_row(text::lines(listing@)[k]) == Some(
                    ((#[trigger] devices@[k]).uuid@, devices@[k].ordinal as nat),
                ),
        decreases lines.len() - i,
    {
        assert(text::views(lines@)[i as int] == lines@[i as int]@);
        let fields = text::split_on(lines[i].as_slice(), ',');
        let ghost parted = text::parts(lines@[i as int]@, ',');
        assert(text::views(fields@)[0] == fields@[0]@);
        assert(parted.len() == fields.len());
        let uuid = text::trim(fields[0].as_slice());
        let ordinal: Option<u64> = if fields.len() > 1 {
            assert(text::views(fields@)[1] == fields@[1]@);
            let number = text::trim(fields[1].as_slice());
            text::parse_unsigned(number.as_slice(), 4_294_967_295)
        } else {
            None
        };
        match ordinal {
            Some(ordinal) => {
                if uuid.len() == 0 {
                    assert(device_row(text::lines(listing@)[i as int]) is None);
                    return Err(
                        Failure::new("cuda_unavailable: malformed nvidia-smi GPU row"),
                    );
                }
                devices.push(
                    CudaDevice { uuid: text::text_of(uuid.as_slice()), ordinal: ordinal as u32 },
                );
            },
            None => {
                assert(device_row(text::lines(listing@)[i as int]) is None);
                return Err(Failure::new("cuda_unavailable: malformed nvidia-smi GPU row"));
            },
        }
        i += 1;
    }
    Ok(devices)
}

} // verus!
