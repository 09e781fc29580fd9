//! Whether the GPU is used.

use crate::config::IcicleBackend;
use crate::config::IcicleConfig;
use vstd::prelude::*;

verus! {

/// Icicle helper error wrapper.
#[derive(Debug)]
pub struct IcicleError(pub String);

impl IcicleError {
    /// The error as a line of text.
    pub fn message(&self) -> (text: String)
        ensures
            text@ == "icicle error: "@ + self.0@,
    {
        let mut text: String = "icicle error: ".to_owned();
        text.append(self.0.as_str());
        text
    }
}

/// The settings that the GPU runtime was started with, and whether it is there.
#[derive(Debug)]
pub struct IcicleState {
    /// The settings.
    pub config: IcicleConfig,
    /// Whether the runtime was loaded.
    pub available: bool,
}

/// The runtime is loaded and acceleration is on.
pub open spec fn is_available(state: Option<&IcicleState>) -> bool {
    state is Some && state->0.available && state->0.config.enabled
}

/// Hashing is accelerated.
pub open spec fn hashes(state: Option<&IcicleState>) -> bool {
    is_available(state) && state->0.config.hashing
}

/// The state root is accelerated.
pub open spec fn roots(state: Option<&IcicleState>) -> bool {
    is_available(state) && state->0.config.state_root
}

/// Precompiles are accelerated.
pub open spec fn precompiles(state: Option<&IcicleState>) -> bool {
    is_available(state) && state->0.config.precompiles
}

/// Returns true if Icicle is enabled and available.
pub fn available(state: Option<&IcicleState>) -> (yes: bool)
    ensures
        yes == is_available(state),
{
    match state {
        Some(s) => s.available && s.config.enabled,
        None => false,
    }
}

/// Returns true if hashing offload is enabled and available.
pub fn hashing_enabled(state: Option<&IcicleState>) -> (yes: bool)
    ensures
        yes == hashes(state),
{
    match state {
        Some(s) => s.available && s.config.enabled && s.config.hashing,
        None => false,
    }
}

/// Returns true if state root offload is enabled and available.
pub fn state_root_enabled(state: Option<&IcicleState>) -> (yes: bool)
    ensures
        yes == roots(state),
{
    match state {
        Some(s) => s.available && s.config.enabled && s.config.state_root,
        None => false,
    }
}

/// Returns true if precompile acceleration is enabled and available.
pub fn precompiles_enabled(state: Option<&IcicleState>) -> (yes: bool)
    ensures
        yes == precompiles(state),
{
    match state {
        Some(s) => s.available && s.config.enabled && s.config.precompiles,
        None => false,
    }
}

/// Returns a suggested worker chunk size for hashing stages.
pub fn hashing_chunk_size_hint(state: Option<&IcicleState>, default_size: usize) -> (size: usize)
    ensures
        size == (if hashes(state) && state->0.config.min_batch > default_size {
            state->0.config.min_batch
        } else {
            default_size
        }),
{
    match state {
        Some(s) => {
            if s.available && s.config.enabled && s.config.hashing && s.config.min_batch
                > default_size {
                s.config.min_batch
            } else {
                default_size
            }
        },
        None => default_size,
    }
}

/// Returns true if batch size meets Icicle offload threshold.
pub fn should_use_keccak_batch(state: Option<&IcicleState>, batch: usize) -> (yes: bool)
    ensures
        yes == (hashes(state) && batch >= state->0.config.min_batch),
{
    match state {
        Some(s) => s.available && s.config.enabled && s.config.hashing && batch
            >= s.config.min_batch,
        None => false,
    }
}

/// Returns true if batch size meets Icicle offload threshold for state root operations.
pub fn should_use_keccak_batch_state_root(
    state: Option<&IcicleState>,
    batch: usize,
) -> (yes: bool)
    ensures
        yes == (roots(state) && batch >= state->0.config.min_batch),
{
    match state {
        Some(s) => s.available && s.config.enabled && s.config.state_root && batch
            >= s.config.min_batch,
        None => false,
    }
}

/// An environment variable that the GPU runtime reads when it is loaded.
pub enum RuntimeSetting {
    /// `ICICLE_BACKEND`: the backend's name.
    Backend(String),
    /// `ICICLE_DEVICE`: the GPU's index.
    Device(u32),
    /// `ICICLE_BACKEND_INSTALL_DIR`: where the backend is installed.
    InstallDir(std::path::PathBuf),
}

impl RuntimeSetting {
    /// The variable's name.
    pub fn variable(&self) -> (name: &'static str)
        ensures
            name@ == (match *self {
                RuntimeSetting::Backend(_) => "ICICLE_BACKEND"@,
                RuntimeSetting::Device(_) => "ICICLE_DEVICE"@,
                RuntimeSetting::InstallDir(_) => "ICICLE_BACKEND_INSTALL_DIR"@,
            }),
    {
        match self {
            RuntimeSetting::Backend(_) => "ICICLE_BACKEND",
            RuntimeSetting::Device(_) => "ICICLE_DEVICE",
            RuntimeSetting::InstallDir(_) => "ICICLE_BACKEND_INSTALL_DIR",
        }
    }
}

/// The state itself, where there is one.
pub open spec fn owned(state: Option<&IcicleState>) -> Option<IcicleState> {
    match state {
        Some(state) => Some(*state),
        None => None,
    }
}

/// What has to be done to start the GPU runtime.
pub enum InitStep {
    /// Nothing; this is the answer.
    Done(bool),
    /// Set these variables and load the runtime.
    LoadRuntime(Vec<RuntimeSetting>),
}

/// The name that the runtime knows a backend by; none where it chooses itself.
pub open spec fn backend_name(backend: IcicleBackend) -> Option<Seq<char>> {
    match backend {
        IcicleBackend::Auto => None,
        IcicleBackend::Cuda => Some("CUDA"@),
        IcicleBackend::Metal => Some("METAL"@),
    }
}

/// The value of the variable that selects the backend.
pub fn backend_env_value(backend: IcicleBackend) -> (name: Option<&'static str>)
    ensures
        match backend_name(backend) {
            Some(text) => name is Some && name->0@ == text,
            None => name is None,
        },
{
    match backend {
        IcicleBackend::Auto => None,
        IcicleBackend::Cuda => Some("CUDA"),
        IcicleBackend::Metal => Some("METAL"),
    }
}

/// A [`RuntimeSetting`] with its text as characters.
pub enum SettingView {
    /// The backend's name.
    Backend(Seq<char>),
    /// The GPU's index.
    Device(u32),
    /// Where the backend is installed.
    InstallDir(std::path::PathBuf),
}

impl View for RuntimeSetting {
    type V = SettingView;

    open spec fn view(&self) -> SettingView {
        match self {
            RuntimeSetting::Backend(name) => SettingView::Backend(name@),
            RuntimeSetting::Device(index) => SettingView::Device(*index),
            RuntimeSetting::InstallDir(path) => SettingView::InstallDir(*path),
        }
    }
}

/// The variables that are set before the runtime is loaded, in that order.
pub open spec fn runtime_settings(config: IcicleConfig) -> Seq<SettingView> {
    let backend = match backend_name(config.backend) {
        Some(name) => seq![SettingView::Backend(name)],
        None => Seq::empty(),
    };
    let device = match config.device {
        Some(index) => seq![SettingView::Device(index)],
        None => Seq::empty(),
    };
    let dir = match config.backend_dir {
        Some(path) => seq![SettingView::InstallDir(path)],
        None => Seq::empty(),
    };
    backend + device + dir
}

/// The variables that are set before the runtime is loaded.
pub fn init_runtime(config: &IcicleConfig) -> (settings: Vec<RuntimeSetting>)
    ensures
        settings@.map_values(|s: RuntimeSetting| s@) == runtime_settings(*config),
{
    let mut settings: Vec<RuntimeSetting> = Vec::new();
    if let Some(name) = backend_env_value(config.backend) {
        settings.push(RuntimeSetting::Backend(name.to_owned()));
    }
    if let Some(index) = config.device {
        settings.push(RuntimeSetting::Device(index));
    }
    if let Some(path) = &config.backend_dir {
        settings.push(RuntimeSetting::InstallDir(path.clone()));
    }
    assert(settings@.map_values(|s: RuntimeSetting| s@) =~= runtime_settings(*config));
    settings
}

/// Initialize the Icicle runtime if enabled in config: what has to be done, given the state that
/// an earlier initialization left.
pub fn init(config: &IcicleConfig, current: Option<&IcicleState>) -> (step: InitStep)
    ensures
        if !config.enabled {
            step == InitStep::Done(false)
        } else if current is Some {
            step == InitStep::Done(current->0.available)
        } else {
            step is LoadRuntime && step->LoadRuntime_0@.map_values(|s: RuntimeSetting| s@)
                == runtime_settings(*config)
        },
        step is Done ==> forall|loads: bool|
            step->Done_0 == #[trigger] initialization_answer(*config, owned(current), loads)
                && initialized(*config, owned(current), loads) == owned(current),
{
    if !config.enabled {
        return InitStep::Done(false);
    }
    match current {
        Some(state) => InitStep::Done(state.available),
        None => InitStep::LoadRuntime(init_runtime(config)),
    }
}

/// The state after the runtime was loaded, or could not be.
pub fn state_after_load(
    config: &IcicleConfig,
    loaded: &Result<(), IcicleError>,
) -> (state: IcicleState)
    ensures
        state == (IcicleState { config: *config, available: loaded is Ok }),
        config.enabled ==> initialized(*config, None, loaded is Ok) == Some(state),
{
    match loaded {
        Ok(_) => IcicleState { config: config.clone(), available: true },
        Err(_) => IcicleState { config: config.clone(), available: false },
    }
}

/// The answer of an initialization that ended with this state.
pub fn init_answer(current: Option<&IcicleState>) -> (yes: bool)
    ensures
        yes == (current is Some && current->0.available),
        forall|config: IcicleConfig, before: Option<IcicleState>, loads: bool|
            config.enabled && #[trigger] initialized(config, before, loads) == owned(current)
                ==> yes == initialization_answer(config, before, loads),
{
    match current {
        Some(state) => state.available,
        None => false,
    }
}

/// An initialization from beginning to end: the state that it leaves, where loading the runtime
/// ends as `loads` says. A state that is there is never replaced.
pub open spec fn initialized(
    config: IcicleConfig,
    current: Option<IcicleState>,
    loads: bool,
) -> Option<IcicleState> {
    if !config.enabled || current is Some {
        current
    } else {
        Some(IcicleState { config, available: loads })
    }
}

/// The answer of an initialization from beginning to end.
pub open spec fn initialization_answer(
    config: IcicleConfig,
    current: Option<IcicleState>,
    loads: bool,
) -> bool {
    if !config.enabled {
        false
    } else {
        let after = initialized(config, current, loads);
        after is Some && after->0.available
    }
}

/// The first initialization decides: a later one with acceleration on changes nothing and gives
/// the first one's answer, whatever its own settings are and whether or not it could load the
/// runtime.
pub proof fn first_initialization_decides(
    first: IcicleConfig,
    later: IcicleConfig,
    loads: bool,
    loads_later: bool,
)
    requires
        first.enabled,
        later.enabled,
    ensures
        ({
            let state = initialized(first, None, loads);
            &&& initialized(later, state, loads_later) == state
            &&& initialization_answer(later, state, loads_later) == initialization_answer(
                first,
                None,
                loads,
            )
            &&& initialization_answer(first, None, loads) == loads
        }),
{
}

/// Nothing is accelerated before an initialization, nor after one that could not load the
/// runtime; after one that could, each part is accelerated where the settings say so.
pub proof fn acceleration_needs_a_loaded_runtime(config: IcicleConfig, loads: bool)
    requires
        config.enabled,
    ensures
        !is_available(None),
        ({
            let state = initialized(config, None, loads);
            &&& is_available(Some(&state->0)) == loads
            &&& hashes(Some(&state->0)) == (loads && config.hashing)
            &&& roots(Some(&state->0)) == (loads && config.state_root)
            &&& precompiles(Some(&state->0)) == (loads && config.precompiles)
        }),
{
}

/// Nothing is accelerated unless the runtime is there and acceleration is on, and each part only
/// where its own setting says so.
pub proof fn each_part_follows_its_setting(
    state: Option<&IcicleState>,
    any: bool,
    hashing: bool,
    state_root: bool,
    precompiled: bool,
)
    requires
        call_ensures(available, (state,), any),
        call_ensures(hashing_enabled, (state,), hashing),
        call_ensures(state_root_enabled, (state,), state_root),
        call_ensures(precompiles_enabled, (state,), precompiled),
    ensures
        state is None ==> !any && !hashing && !state_root && !precompiled,
        state is Some && !state->0.available ==> !any && !hashing && !state_root && !precompiled,
        state is Some && !state->0.config.enabled ==> !any && !hashing && !state_root
            && !precompiled,
        state is Some && state->0.available && state->0.config.enabled ==> {
            &&& any
            &&& hashing == state->0.config.hashing
            &&& state_root == state->0.config.state_root
            &&& precompiled == state->0.config.precompiles
        },
{
}

/// A batch goes to the GPU where its part is accelerated and the batch is not smaller than the
/// smallest one that is worth it; a larger batch than one that goes there goes there too.
pub proof fn batches_go_to_the_gpu_from_a_size_on(
    state: Option<&IcicleState>,
    batch: usize,
    hashing: bool,
    state_root: bool,
    to_gpu: bool,
    to_gpu_for_root: bool,
)
    requires
        call_ensures(hashing_enabled, (state,), hashing),
        call_ensures(state_root_enabled, (state,), state_root),
        call_ensures(should_use_keccak_batch, (state, batch), to_gpu),
        call_ensures(should_use_keccak_batch_state_root, (state, batch), to_gpu_for_root),
    ensures
        !hashing ==> !to_gpu,
        !state_root ==> !to_gpu_for_root,
        hashing ==> (to_gpu <==> batch >= state->0.config.min_batch),
        state_root ==> (to_gpu_for_root <==> batch >= state->0.config.min_batch),
{
}

/// The hint for the size of a worker's chunk is never below the usual size; where hashing is
/// accelerated it is large enough for the GPU as well, and no larger than the larger of the two.
pub proof fn chunk_hint_is_large_enough(
    state: Option<&IcicleState>,
    default_size: usize,
    hashing: bool,
    size: usize,
)
    requires
        call_ensures(hashing_enabled, (state,), hashing),
        call_ensures(hashing_chunk_size_hint, (state, default_size), size),
    ensures
        size >= default_size,
        !hashing ==> size == default_size,
        hashing ==> size >= state->0.config.min_batch,
        hashing ==> size == default_size || size == state->0.config.min_batch,
{
}

/// The place of a variable among those that are set.
pub open spec fn setting_rank(setting: RuntimeSetting) -> int {
    match setting {
        RuntimeSetting::Backend(_) => 0,
        RuntimeSetting::Device(_) => 1,
        RuntimeSetting::InstallDir(_) => 2,
    }
}

/// The runtime is told exactly what the settings say: CUDA or METAL where that backend is chosen,
/// the GPU's index and the directory where they are given, each under its own name, and nothing
/// else.
pub proof fn runtime_is_told_the_settings(config: &IcicleConfig, settings: Vec<RuntimeSetting>)
    requires
        call_ensures(init_runtime, (config,), settings),
    ensures
        settings@.len() == (if config.backend is Auto {
            0int
        } else {
            1
        }) + (if config.device is Some {
            1int
        } else {
            0
        }) + (if config.backend_dir is Some {
            1int
        } else {
            0
        }),
        forall|i: int, j: int|
            0 <= i < j < settings@.len() ==> setting_rank(#[trigger] settings@[i]) < setting_rank(
                #[trigger] settings@[j],
            ),
        forall|i: int|
            0 <= i < settings@.len() ==> match #[trigger] settings@[i] {
                RuntimeSetting::Backend(name) => {
                    ||| config.backend is Cuda && name@ == "CUDA"@
                    ||| config.backend is Metal && name@ == "METAL"@
                },
                RuntimeSetting::Device(index) => config.device == Some(index),
                RuntimeSetting::InstallDir(path) => config.backend_dir == Some(path),
            },
{
    let views = settings@.map_values(|s: RuntimeSetting| s@);
    assert forall|i: int| 0 <= i < settings@.len() implies #[trigger] settings@[i]@ == views[i] by {}
    assert(views.len() == settings@.len());
    assert forall|i: int| 0 <= i < settings@.len() implies match #[trigger] settings@[i] {
        RuntimeSetting::Backend(name) => {
            ||| config.backend is Cuda && name@ == "CUDA"@
            ||| config.backend is Metal && name@ == "METAL"@
        },
        RuntimeSetting::Device(index) => config.device == Some(index),
        RuntimeSetting::InstallDir(path) => config.backend_dir == Some(path),
    } by {
        assert(settings@[i]@ == views[i]);
    }
    assert forall|i: int, j: int| 0 <= i < j < settings@.len() implies setting_rank(
        #[trigger] settings@[i],
    ) < setting_rank(#[trigger] settings@[j]) by {
        assert(settings@[i]@ == views[i]);
        assert(settings@[j]@ == views[j]);
    }
}

/// Each variable is set under its own name, and each backend has the name that the runtime knows.
pub proof fn variables_have_their_names(
    setting: &RuntimeSetting,
    variable: &'static str,
    backend: IcicleBackend,
    name: Option<&'static str>,
    error: &IcicleError,
    text: String,
)
    requires
        call_ensures(RuntimeSetting::variable, (setting,), variable),
        call_ensures(backend_env_value, (backend,), name),
        call_ensures(IcicleError::message, (error,), text),
    ensures
        setting is Backend ==> variable@ == "ICICLE_BACKEND"@,
        setting is Device ==> variable@ == "ICICLE_DEVICE"@,
        setting is InstallDir ==> variable@ == "ICICLE_BACKEND_INSTALL_DIR"@,
        backend is Auto ==> name is None,
        backend is Cuda ==> name is Some && name->0@ == "CUDA"@,
        backend is Metal ==> name is Some && name->0@ == "METAL"@,
        text@ == "icicle error: "@ + error.0@,
{
}

/// Starting the runtime from beginning to end. With acceleration off nothing is done and the
/// answer is no. Once there is a state, a later start only gives its answer. Otherwise the runtime
/// is told the settings and loaded, the state keeps the settings and whether that worked, and
/// that is the answer from then on.
pub proof fn starting_keeps_the_first_outcome(
    config: &IcicleConfig,
    later: &IcicleConfig,
    loaded: &Result<(), IcicleError>,
    first: InitStep,
    settings: Vec<RuntimeSetting>,
    state: IcicleState,
    answer: bool,
    again: InitStep,
    unstarted: bool,
)
    requires
        call_ensures(init, (config, None), first),
        call_ensures(init_runtime, (config,), settings),
        call_ensures(state_after_load, (config, loaded), state),
        call_ensures(init_answer, (Some(&state),), answer),
        call_ensures(init, (later, Some(&state)), again),
        call_ensures(init_answer, (None,), unstarted),
    ensures
        !unstarted,
        config.enabled <==> first is LoadRuntime,
        !config.enabled ==> first == InitStep::Done(false),
        first is LoadRuntime ==> first->LoadRuntime_0@.map_values(|s: RuntimeSetting| s@)
            == settings@.map_values(|s: RuntimeSetting| s@),
        state.config == *config,
        state.available == (*loaded is Ok),
        answer == (*loaded is Ok),
        again == InitStep::Done(later.enabled && *loaded is Ok),
{
}

} // verus!
