use reth_accel::config::IcicleArgs;
use reth_accel::config::IcicleBackend;
use reth_accel::config::IcicleBackendArg;
use reth_accel::config::IcicleConfig;
use reth_accel::icicle::IcicleError;
use reth_accel::icicle::IcicleState;
use reth_accel::icicle::InitStep;
use reth_accel::icicle::RuntimeSetting;
use reth_accel::icicle::available;
use reth_accel::icicle::backend_env_value;
use reth_accel::icicle::hashing_chunk_size_hint;
use reth_accel::icicle::hashing_enabled;
use reth_accel::icicle::init;
use reth_accel::icicle::init_answer;
use reth_accel::icicle::precompiles_enabled;
use reth_accel::icicle::should_use_keccak_batch;
use reth_accel::icicle::should_use_keccak_batch_state_root;
use reth_accel::icicle::state_after_load;
use reth_accel::icicle::state_root_enabled;
use std::path::PathBuf;

fn config() -> IcicleConfig {
    IcicleConfig {
        enabled: true,
        backend: IcicleBackend::Cuda,
        backend_dir: Some(PathBuf::from("/opt/icicle")),
        device: Some(3),
        min_batch: 1000,
        hashing: true,
        state_root: true,
        precompiles: true,
        sender_recovery: true,
        kzg: false,
    }
}

fn no_arguments() -> IcicleArgs {
    IcicleArgs::default()
}

#[test]
fn nothing_is_accelerated_without_a_state() {
    assert!(!available(None));
    assert!(!hashing_enabled(None));
    assert!(!state_root_enabled(None));
    assert!(!precompiles_enabled(None));
    assert!(!should_use_keccak_batch(None, usize::MAX));
    assert!(!should_use_keccak_batch_state_root(None, usize::MAX));
    assert_eq!(hashing_chunk_size_hint(None, 7), 7);
}

#[test]
fn each_part_has_its_switch() {
    let mut state = IcicleState { config: config(), available: true };
    assert!(available(Some(&state)));
    assert!(hashing_enabled(Some(&state)));
    assert!(state_root_enabled(Some(&state)));
    assert!(precompiles_enabled(Some(&state)));
    state.config.hashing = false;
    assert!(!hashing_enabled(Some(&state)));
    assert!(!should_use_keccak_batch(Some(&state), 1000));
    assert!(should_use_keccak_batch_state_root(Some(&state), 1000));
    state.config.state_root = false;
    assert!(!state_root_enabled(Some(&state)));
    state.config.precompiles = false;
    assert!(!precompiles_enabled(Some(&state)));
    assert!(available(Some(&state)));
    state.available = false;
    assert!(!available(Some(&state)));
}

#[test]
fn batches_have_a_smallest_size() {
    let state = IcicleState { config: config(), available: true };
    assert!(!should_use_keccak_batch(Some(&state), 999));
    assert!(should_use_keccak_batch(Some(&state), 1000));
    assert!(!should_use_keccak_batch_state_root(Some(&state), 999));
    assert_eq!(hashing_chunk_size_hint(Some(&state), 10), 1000);
    assert_eq!(hashing_chunk_size_hint(Some(&state), 2000), 2000);
}

#[test]
fn initialization_sets_the_runtime_up() {
    let step = init(&config(), None);
    let settings = match step {
        InitStep::LoadRuntime(settings) => settings,
        InitStep::Done(_) => panic!("nothing to load"),
    };
    let variables: Vec<&str> = settings.iter().map(|s| s.variable()).collect();
    assert_eq!(variables, vec!["ICICLE_BACKEND", "ICICLE_DEVICE", "ICICLE_BACKEND_INSTALL_DIR"]);
    assert!(matches!(&settings[0], RuntimeSetting::Backend(name) if name == "CUDA"));
    assert!(matches!(&settings[1], RuntimeSetting::Device(3)));
    assert!(
        matches!(&settings[2], RuntimeSetting::InstallDir(dir) if *dir == PathBuf::from("/opt/icicle"))
    );
    let mut plain = config();
    plain.backend = IcicleBackend::Auto;
    plain.device = None;
    plain.backend_dir = None;
    assert!(matches!(init(&plain, None), InitStep::LoadRuntime(settings) if settings.is_empty()));
}

#[test]
fn first_initialization_decides() {
    let failed = state_after_load(&config(), &Err(IcicleError("no device".to_string())));
    assert!(!failed.available);
    assert!(!init_answer(Some(&failed)));
    assert!(matches!(init(&config(), Some(&failed)), InitStep::Done(false)));
    let loaded = state_after_load(&config(), &Ok(()));
    assert!(init_answer(Some(&loaded)));
    assert!(matches!(init(&config(), Some(&loaded)), InitStep::Done(true)));
    let mut off = config();
    off.enabled = false;
    assert!(matches!(init(&off, Some(&loaded)), InitStep::Done(false)));
    assert!(matches!(init(&off, None), InitStep::Done(false)));
    assert!(!init_answer(None));
}

#[test]
fn backends_have_names() {
    assert_eq!(backend_env_value(IcicleBackend::Auto), None);
    assert_eq!(backend_env_value(IcicleBackend::Cuda), Some("CUDA"));
    assert_eq!(backend_env_value(IcicleBackend::Metal), Some("METAL"));
}

#[test]
fn arguments_override_settings() {
    let mut settings = config();
    settings.enabled = false;
    let mut args = no_arguments();
    args.backend = Some(IcicleBackendArg::Metal);
    args.backend_dir = Some(PathBuf::from("/usr/lib/icicle"));
    args.device = Some(1);
    args.min_batch = Some(5);
    args.disable_hashing = true;
    args.disable_state_root = true;
    args.disable_precompiles = true;
    args.disable_sender_recovery = true;
    args.enable_kzg = true;
    for _ in 0..2 {
        args.apply_to(&mut settings);
        assert!(settings.enabled);
        assert_eq!(settings.backend, IcicleBackend::Metal);
        assert_eq!(settings.backend_dir, Some(PathBuf::from("/usr/lib/icicle")));
        assert_eq!(settings.device, Some(1));
        assert_eq!(settings.min_batch, 5);
        assert!(!settings.hashing && !settings.state_root);
        assert!(!settings.precompiles && !settings.sender_recovery);
        assert!(settings.kzg);
    }
}

#[test]
fn missing_arguments_change_nothing() {
    let mut settings = config();
    settings.enabled = false;
    no_arguments().apply_to(&mut settings);
    assert!(!settings.enabled);
    assert_eq!(settings.device, Some(3));
    assert_eq!(settings.backend_dir, Some(PathBuf::from("/opt/icicle")));
    let mut args = no_arguments();
    args.enabled = true;
    args.apply_to(&mut settings);
    assert!(settings.enabled);
    assert_eq!(settings.backend, IcicleBackend::Cuda);
}

#[test]
fn every_argument_turns_acceleration_on() {
    let setters: [fn(&mut IcicleArgs); 10] = [
        |args| args.enabled = true,
        |args| args.backend = Some(IcicleBackendArg::Auto),
        |args| args.backend_dir = Some(PathBuf::new()),
        |args| args.device = Some(0),
        |args| args.min_batch = Some(0),
        |args| args.disable_hashing = true,
        |args| args.disable_state_root = true,
        |args| args.disable_precompiles = true,
        |args| args.disable_sender_recovery = true,
        |args| args.enable_kzg = true,
    ];
    for set in setters {
        let mut settings = config();
        settings.enabled = false;
        let mut args = no_arguments();
        set(&mut args);
        args.apply_to(&mut settings);
        assert!(settings.enabled);
    }
}
