//! Settings of the GPU acceleration, and how the command line overrides them.

use vstd::prelude::*;

verus! {

/// `std::path::PathBuf`: a path, carried through unread.
#[verifier::external_type_specification]
#[verifier::external_body]
pub struct ExPathBuf(std::path::PathBuf);

/// `PathBuf::clone`: the copy is the same path.
pub assume_specification[ <std::path::PathBuf as Clone>::clone ](
    path: &std::path::PathBuf,
) -> (copy: std::path::PathBuf)
    ensures
        copy == *path,
;

/// Backend of the GPU runtime.
#[derive(Debug, Clone, Copy, PartialEq, Eq, Structural)]
pub enum IcicleBackend {
    /// Let the runtime choose.
    Auto,
    /// NVIDIA CUDA.
    Cuda,
    /// Apple Metal.
    Metal,
}

/// Settings of the GPU acceleration.
#[derive(Debug)]
pub struct IcicleConfig {
    /// Whether acceleration is used at all.
    pub enabled: bool,
    /// Which backend to load.
    pub backend: IcicleBackend,
    /// Where the backend is installed, if not in the default place.
    pub backend_dir: Option<std::path::PathBuf>,
    /// Index of the GPU.
    pub device: Option<u32>,
    /// Smallest batch that is worth handing to the GPU.
    pub min_batch: usize,
    /// Accelerate the hashing stages.
    pub hashing: bool,
    /// Accelerate the state root.
    pub state_root: bool,
    /// Accelerate precompiles.
    pub precompiles: bool,
    /// Accelerate sender recovery.
    pub sender_recovery: bool,
    /// Accelerate KZG.
    pub kzg: bool,
}

impl Clone for IcicleConfig {
    fn clone(&self) -> (copy: Self)
        ensures
            copy == *self,
    {
        IcicleConfig {
            enabled: self.enabled,
            backend: self.backend,
            backend_dir: copy_path(&self.backend_dir),
            device: self.device,
            min_batch: self.min_batch,
            hashing: self.hashing,
            state_root: self.state_root,
            precompiles: self.precompiles,
            sender_recovery: self.sender_recovery,
            kzg: self.kzg,
        }
    }
}

/// A copy of an optional path.
fn copy_path(path: &Option<std::path::PathBuf>) -> (copy: Option<std::path::PathBuf>)
    ensures
        copy == *path,
{
    match path {
        Some(p) => Some(p.clone()),
        None => None,
    }
}

/// Backend selection for CLI.
#[derive(Debug, Clone, Copy, PartialEq, Eq, Structural)]
pub enum IcicleBackendArg {
    /// Let the runtime choose.
    Auto,
    /// NVIDIA CUDA.
    Cuda,
    /// Apple Metal.
    Metal,
}

/// The backend that an argument selects.
pub open spec fn selected_backend(arg: IcicleBackendArg) -> IcicleBackend {
    match arg {
        IcicleBackendArg::Auto => IcicleBackend::Auto,
        IcicleBackendArg::Cuda => IcicleBackend::Cuda,
        IcicleBackendArg::Metal => IcicleBackend::Metal,
    }
}

impl From<IcicleBackendArg> for IcicleBackend {
    fn from(value: IcicleBackendArg) -> (backend: Self) {
        match value {
            IcicleBackendArg::Auto => IcicleBackend::Auto,
            IcicleBackendArg::Cuda => IcicleBackend::Cuda,
            IcicleBackendArg::Metal => IcicleBackend::Metal,
        }
    }
}

impl vstd::std_specs::convert::FromSpecImpl<IcicleBackendArg> for IcicleBackend {
    open spec fn obeys_from_spec() -> bool {
        true
    }

    open spec fn from_spec(value: IcicleBackendArg) -> Self {
        selected_backend(value)
    }
}

/// CLI arguments for Icicle GPU acceleration.
#[derive(Debug, Clone)]
pub struct IcicleArgs {
    /// Enable Icicle GPU acceleration.
    pub enabled: bool,
    /// Backend selection for Icicle runtime.
    pub backend: Option<IcicleBackendArg>,
    /// Optional backend install directory override.
    pub backend_dir: Option<std::path::PathBuf>,
    /// GPU device index to select.
    pub device: Option<u32>,
    /// Minimum batch size for Keccak hashing offload.
    pub min_batch: Option<usize>,
    /// Disable hashing stage acceleration.
    pub disable_hashing: bool,
    /// Disable state root / trie acceleration.
    pub disable_state_root: bool,
    /// Disable precompile acceleration.
    pub disable_precompiles: bool,
    /// Disable sender recovery acceleration.
    pub disable_sender_recovery: bool,
    /// Enable KZG acceleration when supported.
    pub enable_kzg: bool,
}

impl Default for IcicleArgs {
    fn default() -> (args: Self)
        ensures
            args == (IcicleArgs {
                enabled: false,
                backend: None,
                backend_dir: None,
                device: None,
                min_batch: None,
                disable_hashing: false,
                disable_state_root: false,
                disable_precompiles: false,
                disable_sender_recovery: false,
                enable_kzg: false,
            }),
    {
        IcicleArgs {
            enabled: false,
            backend: None,
            backend_dir: None,
            device: None,
            min_batch: None,
            disable_hashing: false,
            disable_state_root: false,
            disable_precompiles: false,
            disable_sender_recovery: false,
            enable_kzg: false,
        }
    }
}

impl IcicleArgs {
    /// Some argument other than the switch itself is given.
    pub open spec fn any_override(self) -> bool {
        ||| self.backend is Some
        ||| self.backend_dir is Some
        ||| self.device is Some
        ||| self.min_batch is Some
        ||| self.disable_hashing
        ||| self.disable_state_root
        ||| self.disable_precompiles
        ||| self.disable_sender_recovery
        ||| self.enable_kzg
    }

    /// The settings after the arguments are applied: acceleration is on where an argument asks
    /// for it or sets anything about it, and each argument that is given replaces its setting.
    pub open spec fn applied(self, config: IcicleConfig) -> IcicleConfig {
        IcicleConfig {
            enabled: config.enabled || self.enabled || self.any_override(),
            backend: match self.backend {
                Some(backend) => selected_backend(backend),
                None => config.backend,
            },
            backend_dir: if self.backend_dir is Some {
                self.backend_dir
            } else {
                config.backend_dir
            },
            device: if self.device is Some {
                self.device
            } else {
                config.device
            },
            min_batch: match self.min_batch {
                Some(min_batch) => min_batch,
                None => config.min_batch,
            },
            hashing: config.hashing && !self.disable_hashing,
            state_root: config.state_root && !self.disable_state_root,
            precompiles: config.precompiles && !self.disable_precompiles,
            sender_recovery: config.sender_recovery && !self.disable_sender_recovery,
            kzg: config.kzg || self.enable_kzg,
        }
    }

    /// Apply CLI overrides to the provided config.
    pub fn apply_to(&self, config: &mut IcicleConfig)
        ensures
            *final(config) == self.applied(*old(config)),
    {
        let any_override: bool = self.backend.is_some() || self.backend_dir.is_some()
            || self.device.is_some() || self.min_batch.is_some() || self.disable_hashing
            || self.disable_state_root || self.disable_precompiles || self.disable_sender_recovery
            || self.enable_kzg;
        if self.enabled || any_override {
            config.enabled = true;
        }
        if let Some(backend) = self.backend {
            config.backend = IcicleBackend::from(backend);
        }
        if self.backend_dir.is_some() {
            config.backend_dir = copy_path(&self.backend_dir);
        }
        if let Some(device) = self.device {
            config.device = Some(device);
        }
        if let Some(min_batch) = self.min_batch {
            config.min_batch = min_batch;
        }
        if self.disable_hashing {
            config.hashing = false;
        }
        if self.disable_state_root {
            config.state_root = false;
        }
        if self.disable_precompiles {
            config.precompiles = false;
        }
        if self.disable_sender_recovery {
            config.sender_recovery = false;
        }
        if self.enable_kzg {
            config.kzg = true;
        }
    }
}

/// Applying the same arguments a second time changes nothing.
pub proof fn applying_twice_is_applying_once(args: IcicleArgs, config: IcicleConfig)
    ensures
        args.applied(args.applied(config)) == args.applied(config),
{
}

/// Arguments that are all left out change nothing.
pub proof fn no_arguments_change_nothing(args: IcicleArgs, config: IcicleConfig)
    requires
        !args.enabled,
        !args.any_override(),
    ensures
        args.applied(config) == config,
{
}

/// No argument turns acceleration off, and a `disable` argument never turns its part on.
pub proof fn arguments_never_turn_acceleration_off(args: IcicleArgs, config: IcicleConfig)
    ensures
        config.enabled ==> args.applied(config).enabled,
        args.enabled ==> args.applied(config).enabled,
        args.any_override() ==> args.applied(config).enabled,
        args.disable_hashing ==> !args.applied(config).hashing,
        args.disable_state_root ==> !args.applied(config).state_root,
        args.disable_precompiles ==> !args.applied(config).precompiles,
        args.disable_sender_recovery ==> !args.applied(config).sender_recovery,
{
}

/// What the command line says wins, setting by setting, and what it does not speak of stays as it
/// was: the backend that it names is the one that is loaded.
pub proof fn command_line_wins(args: &IcicleArgs, config: &mut IcicleConfig)
    requires
        call_ensures(IcicleArgs::apply_to, (args, config), ()),
    ensures
        args.backend == Some(IcicleBackendArg::Auto) ==> final(config).backend
            == IcicleBackend::Auto,
        args.backend == Some(IcicleBackendArg::Cuda) ==> final(config).backend
            == IcicleBackend::Cuda,
        args.backend == Some(IcicleBackendArg::Metal) ==> final(config).backend
            == IcicleBackend::Metal,
        args.backend is None ==> final(config).backend == old(config).backend,
        args.backend_dir is Some ==> final(config).backend_dir == args.backend_dir,
        args.backend_dir is None ==> final(config).backend_dir == old(config).backend_dir,
        args.device is Some ==> final(config).device == args.device,
        args.device is None ==> final(config).device == old(config).device,
        args.min_batch is Some ==> final(config).min_batch == args.min_batch->0,
        args.min_batch is None ==> final(config).min_batch == old(config).min_batch,
        args.disable_hashing ==> !final(config).hashing,
        !args.disable_hashing ==> final(config).hashing == old(config).hashing,
        args.disable_state_root ==> !final(config).state_root,
        !args.disable_state_root ==> final(config).state_root == old(config).state_root,
        args.disable_precompiles ==> !final(config).precompiles,
        !args.disable_precompiles ==> final(config).precompiles == old(config).precompiles,
        args.disable_sender_recovery ==> !final(config).sender_recovery,
        !args.disable_sender_recovery ==> final(config).sender_recovery
            == old(config).sender_recovery,
        args.enable_kzg ==> final(config).kzg,
        !args.enable_kzg ==> final(config).kzg == old(config).kzg,
{
}

/// Acceleration is on after the arguments are applied where it was on before, where the switch is
/// given, and where any other argument is given; and nowhere else.
pub proof fn any_argument_turns_acceleration_on(args: &IcicleArgs, config: &mut IcicleConfig)
    requires
        call_ensures(IcicleArgs::apply_to, (args, config), ()),
    ensures
        old(config).enabled ==> final(config).enabled,
        args.enabled ==> final(config).enabled,
        args.backend is Some ==> final(config).enabled,
        args.backend_dir is Some ==> final(config).enabled,
        args.device is Some ==> final(config).enabled,
        args.min_batch is Some ==> final(config).enabled,
        args.disable_hashing ==> final(config).enabled,
        args.disable_state_root ==> final(config).enabled,
        args.disable_precompiles ==> final(config).enabled,
        args.disable_sender_recovery ==> final(config).enabled,
        args.enable_kzg ==> final(config).enabled,
        !old(config).enabled && !args.enabled && args.backend is None && args.backend_dir is None
            && args.device is None && args.min_batch is None && !args.disable_hashing
            && !args.disable_state_root && !args.disable_precompiles
            && !args.disable_sender_recovery && !args.enable_kzg ==> !final(config).enabled,
{
}

/// An argument stands for the backend of the same name.
pub proof fn backends_keep_their_names(arg: IcicleBackendArg, backend: IcicleBackend)
    requires
        call_ensures(<IcicleBackend as From<IcicleBackendArg>>::from, (arg,), backend),
    ensures
        arg == IcicleBackendArg::Auto <==> backend == IcicleBackend::Auto,
        arg == IcicleBackendArg::Cuda <==> backend == IcicleBackend::Cuda,
        arg == IcicleBackendArg::Metal <==> backend == IcicleBackend::Metal,
{
}

/// A command line without arguments leaves the settings as they are, and a copy of settings has
/// the same settings.
pub proof fn default_arguments_change_nothing(
    args: IcicleArgs,
    config: &mut IcicleConfig,
    copy: IcicleConfig,
)
    requires
        call_ensures(<IcicleArgs as Default>::default, (), args),
        call_ensures(IcicleArgs::apply_to, (&args, config), ()),
        call_ensures(<IcicleConfig as Clone>::clone, (&*old(config),), copy),
    ensures
        *final(config) == *old(config),
        copy == *old(config),
        copy.backend == old(config).backend,
        copy.backend_dir == old(config).backend_dir,
        copy.min_batch == old(config).min_batch,
{
}

} // verus!
