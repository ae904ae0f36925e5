use trufflepig::semantic::runtime_config::cuda_identity::{
    cuda_call, device_count, enumerate_driver, hex_nibble, parse_gpu_uuid, resolve_cuda_uuid_with,
    resolve_uuid_from_devices, DeviceProbe, DriverCudaDevice,
};
use trufflepig::semantic::runtime_config::{
    enumerate_cuda_devices, resolve_cuda_uuid, EnvironmentDefaults, InferenceConfig,
    InferenceProvider, DEFAULT_ARENA_BYTES,
};
use trufflepig::text::Failure;

#[test]
fn defaults_are_cpu_with_ten_gib_arena() {
    let config = InferenceConfig::default();
    assert_eq!(config.provider, InferenceProvider::Cpu);
    assert_eq!(config.arena_bytes, DEFAULT_ARENA_BYTES);
}

#[test]
fn cuda_requires_a_uuid() {
    let config = InferenceConfig { provider: InferenceProvider::Cuda, ..Default::default() };
    assert!(config.validate().unwrap_err().message.contains("gpu_uuid"));
}

#[test]
fn rerank_gpu_uuid_requires_cuda_provider() {
    let config = InferenceConfig {
        provider: InferenceProvider::Cpu,
        rerank_gpu_uuid: Some("GPU-rerank".into()),
        ..Default::default()
    };
    assert!(config.validate().unwrap_err().message.contains("rerank_gpu_uuid"));
}

#[test]
fn rerank_gpu_uuid_requires_rerank_model_dir() {
    let config = InferenceConfig {
        provider: InferenceProvider::Cuda,
        gpu_uuid: Some("GPU-test".into()),
        rerank_gpu_uuid: Some("GPU-rerank".into()),
        rerank_model_dir: None,
        ..Default::default()
    };
    assert!(config.validate().unwrap_err().message.contains("rerank_model_dir"));
}

#[test]
fn cuda_visible_devices_is_none_for_cpu() {
    let config = InferenceConfig::default();
    assert_eq!(config.cuda_visible_devices(), None);
}

#[test]
fn cuda_visible_devices_joins_distinct_uuids() {
    let config = InferenceConfig {
        provider: InferenceProvider::Cuda,
        gpu_uuid: Some("GPU-a".into()),
        rerank_gpu_uuid: Some("GPU-b".into()),
        ..Default::default()
    };
    assert_eq!(config.cuda_visible_devices(), Some("GPU-a,GPU-b".to_string()));
}

#[test]
fn cuda_visible_devices_collapses_matching_uuids() {
    let config = InferenceConfig {
        provider: InferenceProvider::Cuda,
        gpu_uuid: Some("GPU-a".into()),
        rerank_gpu_uuid: Some("GPU-a".into()),
        ..Default::default()
    };
    assert_eq!(config.cuda_visible_devices(), Some("GPU-a".to_string()));
}

#[test]
fn cuda_visible_devices_defaults_to_shared_uuid_without_rerank_override() {
    let config = InferenceConfig {
        provider: InferenceProvider::Cuda,
        gpu_uuid: Some("GPU-a".into()),
        ..Default::default()
    };
    assert_eq!(config.cuda_visible_devices(), Some("GPU-a".to_string()));
}

#[test]
fn rerank_model_dir_reports_actionable_error_when_unset() {
    let config = InferenceConfig::default();
    assert!(!config.rerank_enabled());
    let error = config.rerank_model_dir().unwrap_err().message;
    assert!(error.contains("rerank_unavailable"));
    assert!(error.contains("TRUFFLEPIG_RERANK_MODEL_DIR"));
}

fn no_environment() -> EnvironmentDefaults {
    EnvironmentDefaults {
        model_dir: None,
        runtime_library: None,
        cuda_preload_library: None,
        rerank_model_dir: None,
    }
}

#[test]
fn loading_reads_the_overridden_path_and_fills_in_the_environment() {
    let environment =
        EnvironmentDefaults { model_dir: Some(b"/models".to_vec()), ..no_environment() };
    let config = InferenceConfig::load(
        Some(b"/etc/inference.toml".to_vec()),
        Some(b"/home".to_vec()),
        environment,
        |path| {
            assert_eq!(path, b"/etc/inference.toml");
            Ok(None)
        },
    )
    .unwrap();
    assert_eq!(config.model_dir().unwrap(), b"/models");
    assert!(config.runtime_library().is_err());
    assert!(InferenceConfig::path(None, None).is_err());
    let read = |_: &Vec<u8>| -> Result<Option<InferenceConfig>, Failure> {
        Err(Failure::new("unreadable"))
    };
    assert!(InferenceConfig::load(None, Some(b"/home".to_vec()), no_environment(), read).is_err());
}

#[test]
fn fingerprints_differ_with_the_configuration() {
    assert_ne!(InferenceConfig::fingerprint(b"a"), InferenceConfig::fingerprint(b"b"));
    assert_eq!(InferenceConfig::fingerprint(b"a"), InferenceConfig::fingerprint(b"a"));
}

const TARGET: &str = "GPU-00112233-4455-6677-8899-aabbccddeeff";
const OTHER: &str = "GPU-ffeeddcc-bbaa-9988-7766-554433221100";

fn fake_device(uuid: &str, ordinal: u32) -> DriverCudaDevice {
    DriverCudaDevice { ordinal, uuid: parse_gpu_uuid(uuid).unwrap() }
}

#[test]
fn resolves_uuid_after_cuda_order_permutation() {
    let ordinal = resolve_cuda_uuid_with(TARGET, || {
        Ok(vec![fake_device(OTHER, 0), fake_device(TARGET, 1)])
    })
    .unwrap();
    assert_eq!(ordinal, 1);
}

#[test]
fn rejects_hidden_uuid_and_empty_visible_device_list() {
    assert!(resolve_cuda_uuid_with(TARGET, || Ok(vec![fake_device(OTHER, 0)])).is_err());
    assert!(resolve_cuda_uuid_with(TARGET, || Ok(Vec::new())).is_err());
}

#[test]
fn rejects_malformed_uuid_before_enumerating() {
    let called = std::cell::Cell::new(false);
    let result = resolve_cuda_uuid_with("GPU-not-a-uuid", || {
        called.set(true);
        Ok(vec![fake_device(TARGET, 0)])
    });
    assert!(result.is_err());
    assert!(!called.get());
}

#[test]
fn devices_resolve_by_configuration() {
    let cuda = InferenceConfig {
        provider: InferenceProvider::Cuda,
        gpu_uuid: Some(TARGET.into()),
        ..Default::default()
    };
    let listed = || Ok(vec![fake_device(OTHER, 0), fake_device(TARGET, 1)]);
    assert_eq!(cuda.cuda_device(listed).unwrap(), Some(1));
    assert_eq!(InferenceConfig::default().cuda_device(listed).unwrap(), None);
    assert_eq!(cuda.rerank_cuda_device(listed).unwrap(), Some(1));
    assert_eq!(resolve_cuda_uuid(OTHER, listed).unwrap(), 0);
    assert!(resolve_uuid_from_devices([0; 16], &listed().unwrap()).is_err());
}

#[test]
fn driver_failures_are_named() {
    assert!(cuda_call("cuInit", 0).is_ok());
    assert!(cuda_call("cuInit", 100).unwrap_err().message.contains("cuInit"));
    assert_eq!(device_count(2).unwrap(), 2);
    assert!(device_count(-1).is_err());
    assert!(device_count(65).is_err());
    assert_eq!(hex_nibble(b'f'), Some(15));
    assert_eq!(hex_nibble(b'g'), None);
    let devices = enumerate_driver(0, 0, 2, |i| DeviceProbe {
        device_status: 0,
        uuid_status: 0,
        uuid: [i as u8; 16],
    })
    .unwrap();
    assert_eq!(devices.len(), 2);
    assert_eq!(devices[1].uuid, [1; 16]);
    assert!(enumerate_driver(1, 0, 2, |_| DeviceProbe {
        device_status: 0,
        uuid_status: 0,
        uuid: [0; 16],
    })
    .is_err());
}

#[test]
fn listings_of_devices_are_read() {
    let listing = "GPU-a, 0\nGPU-b, 1\n";
    let devices = enumerate_cuda_devices(listing).unwrap();
    assert_eq!(devices.len(), 2);
    assert_eq!((devices[1].ordinal, devices[1].uuid.as_str()), (1, "GPU-b"));
    assert!(enumerate_cuda_devices("nonsense").is_err());
}
