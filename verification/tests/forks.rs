use reth_accel::config::IcicleBackend;
use reth_accel::config::IcicleConfig;
use reth_accel::forks::ChainSpec;
use reth_accel::forks::is_enabled_in;
use reth_accel::forks::is_istanbul;
use reth_accel::icicle::IcicleState;
use reth_accel::precompiles::Bn254Kind;
use reth_accel::precompiles::IcicleEvmFactory;
use reth_accel::precompiles::maybe_wrap_bn254_precompiles;
use reth_accel::precompiles::precompile_address;

fn state(precompiles: bool) -> IcicleState {
    IcicleState {
        config: IcicleConfig {
            enabled: true,
            backend: IcicleBackend::Auto,
            backend_dir: None,
            device: None,
            min_batch: 1,
            hashing: true,
            state_root: true,
            precompiles,
            sender_recovery: true,
            kzg: false,
        },
        available: true,
    }
}

#[test]
fn forks_come_in_order() {
    let petersburg = revm::primitives::hardfork::SpecId::PETERSBURG as u8;
    let istanbul = revm::primitives::hardfork::SpecId::ISTANBUL as u8;
    let berlin = revm::primitives::hardfork::SpecId::BERLIN as u8;
    assert!(!is_istanbul(petersburg));
    assert!(is_istanbul(istanbul));
    assert!(is_istanbul(berlin));
    assert!(is_enabled_in(berlin, istanbul));
    assert!(!is_enabled_in(istanbul, berlin));
}

#[test]
fn pairing_input_is_limited_on_optimism() {
    let limit = |spec: op_revm::OpSpecId| ChainSpec::Optimism(spec as u8).bn254_pairing_max_input();
    assert_eq!(limit(op_revm::OpSpecId::BEDROCK), None);
    assert_eq!(limit(op_revm::OpSpecId::FJORD), None);
    assert_eq!(limit(op_revm::OpSpecId::GRANITE), Some(112_687));
    assert_eq!(limit(op_revm::OpSpecId::ISTHMUS), Some(112_687));
    assert_eq!(limit(op_revm::OpSpecId::JOVIAN), Some(81_984));
    assert_eq!(limit(op_revm::OpSpecId::INTEROP), Some(81_984));
    assert_eq!(ChainSpec::Ethereum(19).bn254_pairing_max_input(), None);
}

#[test]
fn addresses_end_with_the_number() {
    let address = precompile_address(8);
    assert_eq!(address[19], 8);
    assert_eq!(&address[..19], &[0u8; 19]);
}

#[test]
fn three_precompiles_are_wrapped() {
    let on = state(true);
    let wrapped = maybe_wrap_bn254_precompiles(Some(&on), 17, ChainSpec::Optimism(108));
    let kinds: Vec<Bn254Kind> = wrapped.iter().map(|w| w.kind).collect();
    assert_eq!(kinds, vec![Bn254Kind::Add, Bn254Kind::Mul, Bn254Kind::Pair]);
    let ends: Vec<u8> = wrapped.iter().map(|w| w.address[19]).collect();
    assert_eq!(ends, vec![6, 7, 8]);
    assert!(wrapped.iter().all(|w| w.is_istanbul && w.pair_max_input == Some(81_984)));
    let early = maybe_wrap_bn254_precompiles(Some(&on), 6, ChainSpec::Ethereum(6));
    assert!(early.iter().all(|w| !w.is_istanbul && w.pair_max_input.is_none()));
}

#[test]
fn nothing_is_wrapped_without_acceleration() {
    let off = state(false);
    assert!(maybe_wrap_bn254_precompiles(Some(&off), 17, ChainSpec::Ethereum(17)).is_empty());
    assert!(maybe_wrap_bn254_precompiles(None, 17, ChainSpec::Ethereum(17)).is_empty());
}

#[test]
fn factory_keeps_what_it_wraps() {
    assert_eq!(*IcicleEvmFactory::new(7u32).inner(), 7);
}
