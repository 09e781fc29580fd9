use ark_bn254::Bn254;
use ark_bn254::Fq;
use ark_bn254::Fq2;
use ark_bn254::Fr;
use ark_bn254::G1Affine;
use ark_bn254::G2Affine;
use ark_ec::AffineRepr;
use ark_ec::CurveGroup;
use ark_ec::pairing::Pairing;
use ark_ec::pairing::PairingOutput;
use ark_ff::BigInteger;
use ark_ff::PrimeField;
use ark_ff::Zero;
use reth_accel::bn254::Bn254Error;
use reth_accel::bn254::backend::G1Operand;
use reth_accel::bn254::backend::G1Reply;
use reth_accel::bn254::backend::G2Operand;
use reth_accel::bn254::backend::PairingBackend;
use reth_accel::bn254::backend::bn254_g1_add;
use reth_accel::bn254::backend::bn254_g1_mul;
use reth_accel::bn254::backend::bn254_pairing_check;
use reth_accel::bn254::backend::encode_g1_point;
use reth_accel::bn254::curve::G1Point;
use reth_accel::bn254::curve::G2Point;
use reth_accel::bn254::curve::read_g1_point;
use reth_accel::bn254::curve::read_g2_point;
use reth_accel::bn254::field::field_to_be_32;
use reth_accel::bn254::field::fq2_to_bytes_le;
use reth_accel::bn254::field::read_fq;
use reth_accel::bn254::field::read_fq2;
use reth_accel::bn254::field::read_scalar;
use reth_accel::precompiles::Bn254Answer;
use reth_accel::precompiles::Bn254Backend;
use reth_accel::precompiles::Bn254Kind;
use reth_accel::precompiles::Bn254PrecompileError;
use reth_accel::precompiles::PrecompileError;
use reth_accel::precompiles::PrecompileOutput;
use reth_accel::precompiles::answer_after_run;
use reth_accel::precompiles::run_bn254_add;
use reth_accel::precompiles::run_bn254_mul;
use reth_accel::precompiles::run_bn254_pair;
use reth_accel::precompiles::run_bn254_precompile;

const MODULUS: &str = "30644e72e131a029b85045b68181585d97816a916871ca8d3c208c16d87cfd47";
const X0: &str = "1800deef121f1e76426a00665e5c4479674322d4f75edadd46debd5cd992f6ed";
const X1: &str = "198e9393920d483a7260bfb731fb5d25f1aa493335a9e71297e485b7aef312c2";
const Y0: &str = "12c85ea5db8c6deb4aab71808dcb408fe3d1e7690c43d37b4ce6cc0166fa7daa";
const Y1: &str = "090689d0585ff075ec9e99ad690c3395bc4b313370b38ef355acdadcd122975b";
const OUTSIDE_Y0: &str = "2869111d5381f072f8e2728fdb825a51aadd70e52c9830e9ab4b871c0531f1bb";
const OUTSIDE_Y1: &str = "0d1271953ed9ea0836846e70a1934187998c7f790cb4d7511b7f8da82de048a4";

fn unhex(text: &str) -> Vec<u8> {
    (0..text.len() / 2).map(|i| u8::from_str_radix(&text[2 * i..2 * i + 2], 16).unwrap()).collect()
}

fn word(n: u8) -> Vec<u8> {
    let mut bytes = vec![0u8; 32];
    bytes[31] = n;
    bytes
}

fn g1(x: u8, y: u8) -> Vec<u8> {
    [word(x), word(y)].concat()
}

/// The generator.
fn generator() -> Vec<u8> {
    g1(1, 2)
}

/// The generator's negative: its second coordinate is the modulus less two.
fn negative() -> Vec<u8> {
    [word(1), unhex("30644e72e131a029b85045b68181585d97816a916871ca8d3c208c16d87cfd45")].concat()
}

/// The bytes of a point's negative.
fn negated(point: &[u8]) -> Vec<u8> {
    let y = -Fq::from_be_bytes_mod_order(&point[32..]);
    [point[..32].to_vec(), y.into_bigint().to_bytes_be()].concat()
}

/// Twice the generator.
fn doubled() -> Vec<u8> {
    unhex(
        "030644e72e131a029b85045b68181585d97816a916871ca8d3c208c16d87cfd3\
         15ed738c0e0a7c92e7845f96b2ae9c0a68a6a449e3538fc7ff3ebf7a5a18a2c4",
    )
}

fn g2_generator() -> Vec<u8> {
    [unhex(X1), unhex(X0), unhex(Y1), unhex(Y0)].concat()
}

fn fq(bytes: &[u8]) -> Fq {
    Fq::from_le_bytes_mod_order(bytes)
}

fn g1_of(operand: &G1Operand) -> G1Affine {
    match operand {
        G1Operand::Zero => G1Affine::zero(),
        G1Operand::Affine { x, y } => G1Affine::new(fq(x), fq(y)),
    }
}

fn g2_of(operand: &G2Operand) -> G2Affine {
    match operand {
        G2Operand::Zero => G2Affine::zero(),
        G2Operand::Affine { x, y } => G2Affine::new(
            Fq2::new(fq(&x[..32]), fq(&x[32..])),
            Fq2::new(fq(&y[..32]), fq(&y[32..])),
        ),
    }
}

fn reply_of(point: G1Affine) -> G1Reply {
    if point.is_zero() {
        G1Reply::Zero
    } else {
        G1Reply::Affine {
            x: point.x.into_bigint().to_bytes_le(),
            y: point.y.into_bigint().to_bytes_le(),
        }
    }
}

fn add_points(left: G1Operand, right: G1Operand) -> G1Reply {
    reply_of((g1_of(&left) + g1_of(&right)).into_affine())
}

fn multiply_point(operand: G1Operand, scalar: [u8; 32]) -> G1Reply {
    reply_of((g1_of(&operand) * Fr::from_le_bytes_mod_order(&scalar)).into_affine())
}

fn pair_points(left: G1Operand, right: G2Operand) -> Result<PairingOutput<Bn254>, String> {
    Ok(Bn254::pairing(g1_of(&left), g2_of(&right)))
}

fn failing_pair(_left: G1Operand, _right: G2Operand) -> Result<PairingOutput<Bn254>, String> {
    Err("device lost".to_string())
}

fn product(left: PairingOutput<Bn254>, right: PairingOutput<Bn254>) -> PairingOutput<Bn254> {
    left + right
}

fn is_one(value: &PairingOutput<Bn254>) -> bool {
    value.is_zero()
}

type Target = PairingOutput<Bn254>;
type Pair = fn(G1Operand, G2Operand) -> Result<Target, String>;
type Multiply = fn(Target, Target) -> Target;
type IsOne = fn(&Target) -> bool;
type Add = fn(G1Operand, G1Operand) -> G1Reply;
type Mul = fn(G1Operand, [u8; 32]) -> G1Reply;

fn pairing(pair: Pair) -> PairingBackend<Target, Pair, Multiply, IsOne> {
    PairingBackend { one: PairingOutput::zero(), pair, multiply: product, is_one }
}

fn backend() -> Bn254Backend<Add, Mul, Target, Pair, Multiply, IsOne> {
    Bn254Backend { adder: add_points, multiplier: multiply_point, pairing: pairing(pair_points) }
}

fn no_backend() -> Option<Bn254Backend<Add, Mul, Target, Pair, Multiply, IsOne>> {
    None
}

fn add(left: &[u8], right: &[u8]) -> Result<[u8; 64], Bn254Error> {
    bn254_g1_add(left, right, Some(&add_points))
}

fn mul(point: &[u8], scalar: &[u8]) -> Result<[u8; 64], Bn254Error> {
    bn254_g1_mul(point, scalar, Some(&multiply_point))
}

fn check(pairs: &[(&[u8], &[u8])]) -> Result<bool, Bn254Error> {
    bn254_pairing_check(pairs, Some(pairing(pair_points)))
}

#[test]
fn field_elements_are_below_the_modulus() {
    assert!(read_fq(&[0u8; 31]).is_err());
    assert!(read_fq(&[0u8; 33]).is_err());
    assert!(read_fq(&unhex(MODULUS)).is_err());
    assert!(read_fq(&[0xffu8; 32]).is_err());
    let mut largest = unhex(MODULUS);
    largest[31] -= 1;
    let element = read_fq(&largest).unwrap();
    let mut bytes = element.to_bytes_le().to_vec();
    bytes.reverse();
    assert_eq!(bytes, largest);
    assert!(!element.is_zero());
    assert!(read_fq(&[0u8; 32]).unwrap().is_zero());
}

#[test]
fn extension_elements_begin_with_the_factor_of_u() {
    let element = read_fq2(&[word(3), word(5)].concat()).unwrap();
    let bytes = fq2_to_bytes_le(&element);
    assert_eq!(bytes[0], 5);
    assert_eq!(bytes[32], 3);
    assert!(matches!(read_fq2(&[0u8; 63]), Err(Bn254Error::InvalidFieldElement)));
    let err = read_fq2(&[word(1), unhex(MODULUS)].concat());
    assert!(matches!(err, Err(Bn254Error::InvalidFieldElement)));
}

#[test]
fn scalars_are_filled_up() {
    let mut expected = [0u8; 32];
    expected[31] = 1;
    expected[30] = 2;
    assert_eq!(read_scalar(&[1, 2]), expected);
    let mut long = [0u8; 40];
    long[31] = 9;
    long[39] = 7;
    assert_eq!(read_scalar(&long)[0], 9);
}

#[test]
fn backend_fields_are_cut_off_or_filled_up() {
    assert_eq!(field_to_be_32(&vec![1, 2])[31], 1);
    assert_eq!(field_to_be_32(&vec![1, 2])[30], 2);
    let long: Vec<u8> = (0..40).collect();
    assert_eq!(field_to_be_32(&long)[0], 31);
}

#[test]
fn points_are_checked() {
    assert!(matches!(read_g1_point(&generator()), Ok(G1Point::Affine(_, _))));
    assert!(matches!(read_g1_point(&[0u8; 64]), Ok(G1Point::Infinity)));
    assert!(matches!(read_g1_point(&g1(1, 3)), Err(Bn254Error::InvalidPoint)));
    assert!(matches!(read_g1_point(&g1(0, 1)), Err(Bn254Error::InvalidPoint)));
    assert!(matches!(read_g1_point(&[0u8; 63]), Err(Bn254Error::InvalidFieldElement)));
    let bad = [word(1), unhex(MODULUS)].concat();
    assert!(matches!(read_g1_point(&bad), Err(Bn254Error::InvalidFieldElement)));
}

#[test]
fn points_of_the_twist_are_checked() {
    assert!(matches!(read_g2_point(&g2_generator()), Ok(G2Point::Affine(_, _))));
    assert!(matches!(read_g2_point(&[0u8; 128]), Ok(G2Point::Infinity)));
    assert!(matches!(read_g2_point(&[0u8; 127]), Err(Bn254Error::InvalidFieldElement)));
    let swapped = [unhex(X0), unhex(X1), unhex(Y0), unhex(Y1)].concat();
    assert!(matches!(read_g2_point(&swapped), Err(Bn254Error::InvalidPoint)));
    let outside = [word(0), word(1), unhex(OUTSIDE_Y1), unhex(OUTSIDE_Y0)].concat();
    assert!(matches!(read_g2_point(&outside), Err(Bn254Error::InvalidPoint)));
}

#[test]
fn addition() {
    assert_eq!(add(&generator(), &generator()).unwrap().to_vec(), doubled());
    assert_eq!(add(&generator(), &[0u8; 64]).unwrap().to_vec(), generator());
    assert_eq!(add(&generator(), &negative()).unwrap(), [0u8; 64]);
    assert!(matches!(add(&g1(1, 3), &[0xff; 64]), Err(Bn254Error::InvalidPoint)));
    assert!(matches!(add(&[0xff; 64], &g1(1, 3)), Err(Bn254Error::InvalidFieldElement)));
}

#[test]
fn multiplication() {
    assert_eq!(mul(&generator(), &word(2)).unwrap().to_vec(), doubled());
    assert_eq!(mul(&generator(), &word(0)).unwrap(), [0u8; 64]);
    assert_eq!(mul(&generator(), &word(1)).unwrap().to_vec(), generator());
    assert!(matches!(mul(&g1(5, 5), &word(1)), Err(Bn254Error::InvalidPoint)));
}

#[test]
fn addition_is_commutative_with_zero_and_negatives() {
    let tripled = add(&generator(), &doubled()).unwrap();
    assert_ne!(tripled.to_vec(), doubled());
    for p in [generator(), negative(), doubled(), tripled.to_vec(), vec![0u8; 64]] {
        for q in [generator(), negative(), doubled(), tripled.to_vec(), vec![0u8; 64]] {
            assert_eq!(add(&p, &q).unwrap(), add(&q, &p).unwrap());
        }
        assert_eq!(add(&p, &[0u8; 64]).unwrap().to_vec(), p);
        assert_eq!(add(&[0u8; 64], &p).unwrap().to_vec(), p);
        assert_eq!(add(&p, &negated(&p)).unwrap(), [0u8; 64]);
    }
    assert_eq!(negated(&generator()), negative());
}

#[test]
fn small_multiples_are_sums() {
    for p in [generator(), negative(), doubled(), vec![0u8; 64]] {
        assert_eq!(mul(&p, &word(0)).unwrap(), [0u8; 64]);
        assert_eq!(mul(&p, &[]).unwrap(), [0u8; 64]);
        assert_eq!(mul(&p, &word(1)).unwrap().to_vec(), p);
        let twice = add(&p, &p).unwrap();
        assert_eq!(mul(&p, &word(2)).unwrap(), twice);
        assert_eq!(mul(&p, &word(3)).unwrap(), add(&twice, &p).unwrap());
    }
}

#[test]
fn trivial_pairs_change_no_pairing_check() {
    let (p, n, q) = (generator(), negative(), g2_generator());
    let (zero1, zero2) = (vec![0u8; 64], vec![0u8; 128]);
    let off = g1(1, 3);
    let lists: [Vec<(&[u8], &[u8])>; 4] =
        [vec![], vec![(&p, &q)], vec![(&p, &q), (&n, &q)], vec![(&p, &q), (&off, &q)]];
    let trivial: [(&[u8], &[u8]); 3] = [(&zero1, &q), (&p, &zero2), (&zero1, &zero2)];
    let outcome = |pairs: &[(&[u8], &[u8])]| check(pairs).map_err(|err| err.message());
    for pairs in &lists {
        for at in 0..=pairs.len() {
            for pair in trivial {
                let mut longer = pairs.clone();
                longer.insert(at, pair);
                assert_eq!(outcome(&longer), outcome(pairs));
            }
        }
    }
}

#[test]
fn order_of_pairs_does_not_matter() {
    let (p, n, d, q) = (generator(), negative(), doubled(), g2_generator());
    assert!(check(&[(&d, &q), (&n, &q), (&n, &q)]).unwrap());
    assert!(check(&[(&n, &q), (&d, &q), (&n, &q)]).unwrap());
    assert!(check(&[(&n, &q), (&n, &q), (&d, &q)]).unwrap());
    assert!(!check(&[(&p, &q), (&n, &q), (&d, &q)]).unwrap());
    assert!(!check(&[(&d, &q), (&p, &q), (&n, &q)]).unwrap());
}

#[test]
fn malformed_pairs_fail_beside_infinity() {
    let (off, q) = (g1(1, 3), g2_generator());
    let (zero1, zero2) = (vec![0u8; 64], vec![0u8; 128]);
    let swapped = [unhex(X0), unhex(X1), unhex(Y0), unhex(Y1)].concat();
    assert!(matches!(check(&[(&off, &zero2)]), Err(Bn254Error::InvalidPoint)));
    assert!(matches!(check(&[(&zero1, &swapped)]), Err(Bn254Error::InvalidPoint)));
    assert!(matches!(
        check(&[(&zero1, &q), (&[0xff; 64], &zero2)]),
        Err(Bn254Error::InvalidFieldElement)
    ));
}

#[test]
fn pairing_checks() {
    let (p, n, q) = (generator(), negative(), g2_generator());
    assert!(check(&[]).unwrap());
    assert!(check(&[(&p, &q), (&n, &q)]).unwrap());
    assert!(!check(&[(&p, &q)]).unwrap());
    assert!(!check(&[(&p, &q), (&p, &q)]).unwrap());
    let zero1 = [0u8; 64];
    let zero2 = [0u8; 128];
    assert!(check(&[(&zero1, &q), (&p, &zero2)]).unwrap());
    assert!(!check(&[(&zero1, &q), (&p, &q)]).unwrap());
}

#[test]
fn pairing_check_ends_with_the_first_error() {
    let (p, q) = (generator(), g2_generator());
    let off = g1(1, 3);
    let short = [0u8; 127];
    let err = check(&[(&p, &q), (&off, &q)]).unwrap_err();
    assert_eq!(err.message(), "bn254 invalid curve point");
    let err = check(&[(&p, &short), (&off, &q)]).unwrap_err();
    assert_eq!(err.message(), "bn254 invalid field element");
    let pairs: [(&[u8], &[u8]); 2] = [(&p, &q), (&off, &q)];
    let err = bn254_pairing_check(&pairs, Some(pairing(failing_pair))).unwrap_err();
    assert_eq!(err.message(), "bn254 backend error: device lost");
    let trivial: [(&[u8], &[u8]); 1] = [(&[0u8; 64], &q)];
    assert!(bn254_pairing_check(&trivial, Some(pairing(failing_pair))).unwrap());
}

#[test]
fn without_backend_nothing_is_read() {
    let err = bn254_g1_add::<Add>(&[1], &[2], None).unwrap_err();
    assert_eq!(err.message(), "bn254 backend error: icicle feature not enabled");
    assert!(matches!(bn254_g1_mul::<Mul>(&[1], &[2], None), Err(Bn254Error::Backend(_))));
    let none = bn254_pairing_check::<Target, Pair, Multiply, IsOne>(&[], None);
    assert!(matches!(none, Err(Bn254Error::Backend(_))));
}

#[test]
fn encoding_undoes_decoding() {
    for bytes in [generator(), negative(), doubled(), vec![0u8; 64]] {
        assert_eq!(add(&bytes, &[0u8; 64]).unwrap().to_vec(), bytes);
    }
    assert_eq!(encode_g1_point(&G1Reply::Zero), [0u8; 64]);
}

fn refused(run: Result<PrecompileOutput, Bn254PrecompileError>) -> PrecompileError {
    match run {
        Err(Bn254PrecompileError::Precompile(err)) => err,
        other => panic!("not refused: {other:?}"),
    }
}

#[test]
fn addition_precompile() {
    let input = [generator(), generator()].concat();
    let out = run_bn254_add(&input, 150, true, Some(&add_points)).unwrap();
    assert_eq!(out.gas_used, 150);
    assert_eq!(out.bytes, doubled());
    let err = run_bn254_add(&input, 149, true, Some(&add_points));
    assert_eq!(refused(err), PrecompileError::OutOfGas);
    let err = run_bn254_add(&input, 499, false, Some(&add_points));
    assert_eq!(refused(err), PrecompileError::OutOfGas);
    assert_eq!(run_bn254_add(&input, 500, false, Some(&add_points)).unwrap().gas_used, 500);
    let short = run_bn254_add(&generator(), 150, true, Some(&add_points)).unwrap();
    assert_eq!(short.bytes, generator());
    assert_eq!(run_bn254_add(&[], 150, true, Some(&add_points)).unwrap().bytes, vec![0u8; 64]);
    let long = [input, vec![0xff; 9]].concat();
    assert_eq!(run_bn254_add(&long, 150, true, Some(&add_points)).unwrap().bytes, doubled());
    let err = run_bn254_add(&g1(1, 3), 150, true, Some(&add_points));
    assert_eq!(refused(err), PrecompileError::Bn254AffineGFailedToCreate);
    let err = run_bn254_add(&[0xff; 64], 150, true, Some(&add_points));
    assert_eq!(refused(err), PrecompileError::Bn254FieldPointNotAMember);
}

#[test]
fn multiplication_precompile() {
    let input = [generator(), word(2)].concat();
    let out = run_bn254_mul(&input, 6_000, true, Some(&multiply_point)).unwrap();
    assert_eq!(out.gas_used, 6_000);
    assert_eq!(out.bytes, doubled());
    let err = run_bn254_mul(&input, 5_999, true, Some(&multiply_point));
    assert_eq!(refused(err), PrecompileError::OutOfGas);
    let err = run_bn254_mul(&input, 39_999, false, Some(&multiply_point));
    assert_eq!(refused(err), PrecompileError::OutOfGas);
    let out = run_bn254_mul(&input, 40_000, false, Some(&multiply_point)).unwrap();
    assert_eq!(out.gas_used, 40_000);
}

#[test]
fn pairing_precompile() {
    let good = [generator(), g2_generator(), negative(), g2_generator()].concat();
    let run = |input: &[u8], gas: u64, istanbul: bool, max: Option<usize>| {
        run_bn254_pair(input, gas, istanbul, max, Some(pairing(pair_points)))
    };
    let out = run(&good, 113_000, true, None).unwrap();
    assert_eq!(out.gas_used, 113_000);
    assert_eq!(out.bytes, word(1));
    let out = run(&good[..192], 79_000, true, None).unwrap();
    assert_eq!(out.bytes, word(0));
    assert_eq!(run(&[], 100_000, false, None).unwrap().gas_used, 100_000);
    assert_eq!(run(&good, 260_000, false, None).unwrap().gas_used, 260_000);
    assert_eq!(refused(run(&good, 112_999, true, None)), PrecompileError::OutOfGas);
    assert_eq!(refused(run(&good[..191], 45_000, true, None)), PrecompileError::Bn254PairLength);
    assert_eq!(refused(run(&good[..191], 44_999, true, None)), PrecompileError::OutOfGas);
    assert_eq!(refused(run(&good, 0, true, Some(383))), PrecompileError::Bn254PairLength);
    assert!(run(&good, 113_000, true, Some(384)).is_ok());
}

#[test]
fn only_a_failing_backend_falls_back() {
    let input = [generator(), generator()].concat();
    let out = run_bn254_precompile(Bn254Kind::Add, &input, 150, true, None, Some(backend()));
    match answer_after_run(out) {
        Bn254Answer::Final(Ok(output)) => assert_eq!(output.bytes, doubled()),
        other => panic!("{other:?}"),
    }
    let out = run_bn254_precompile(Bn254Kind::Mul, &input, 5, true, None, Some(backend()));
    assert!(matches!(
        answer_after_run(out),
        Bn254Answer::Final(Err(PrecompileError::OutOfGas))
    ));
    let out = run_bn254_precompile(Bn254Kind::Add, &input, 150, true, None, no_backend());
    assert!(matches!(answer_after_run(out), Bn254Answer::Fallback));
    let out = run_bn254_precompile(Bn254Kind::Mul, &input, 6_000, true, None, no_backend());
    assert!(matches!(answer_after_run(out), Bn254Answer::Fallback));
    let out = run_bn254_precompile(Bn254Kind::Pair, &[], 45_000, true, None, no_backend());
    assert!(matches!(answer_after_run(out), Bn254Answer::Fallback));
    let out = run_bn254_precompile(Bn254Kind::Pair, &[], 45_000, true, None, Some(backend()));
    match answer_after_run(out) {
        Bn254Answer::Final(Ok(output)) => assert_eq!(output.bytes, word(1)),
        other => panic!("{other:?}"),
    }
}

/// What a precompile of the EVM gives, in the library's terms.
fn evm_result(
    result: revm::precompile::PrecompileResult,
) -> Result<(u64, Vec<u8>), PrecompileError> {
    match result {
        Ok(output) => Ok((output.gas_used, output.bytes.to_vec())),
        Err(revm::precompile::PrecompileError::OutOfGas) => Err(PrecompileError::OutOfGas),
        Err(revm::precompile::PrecompileError::Bn254FieldPointNotAMember) => {
            Err(PrecompileError::Bn254FieldPointNotAMember)
        }
        Err(revm::precompile::PrecompileError::Bn254AffineGFailedToCreate) => {
            Err(PrecompileError::Bn254AffineGFailedToCreate)
        }
        Err(revm::precompile::PrecompileError::Bn254PairLength) => {
            Err(PrecompileError::Bn254PairLength)
        }
        Err(other) => panic!("{other:?}"),
    }
}

fn own_result(
    kind: Bn254Kind,
    input: &[u8],
    gas: u64,
    istanbul: bool,
) -> Result<(u64, Vec<u8>), PrecompileError> {
    match answer_after_run(run_bn254_precompile(kind, input, gas, istanbul, None, Some(backend()))) {
        Bn254Answer::Final(Ok(output)) => Ok((output.gas_used, output.bytes)),
        Bn254Answer::Final(Err(err)) => Err(err),
        Bn254Answer::Fallback => panic!("fallback"),
    }
}

#[test]
fn precompiles_agree_with_the_evm() {
    let outside = [word(0), word(1), unhex(OUTSIDE_Y1), unhex(OUTSIDE_Y0)].concat();
    let inputs: Vec<Vec<u8>> = vec![
        vec![],
        vec![1],
        generator(),
        [generator(), generator()].concat(),
        [generator(), doubled(), vec![3; 7]].concat(),
        [generator(), negative()].concat(),
        [doubled(), word(77)].concat(),
        [generator(), vec![0xff; 32]].concat(),
        [g1(1, 3), generator()].concat(),
        [generator(), unhex(MODULUS), word(1)].concat(),
        [unhex(MODULUS), word(1), generator()].concat(),
        [generator(), g2_generator()].concat(),
        [generator(), g2_generator(), negative(), g2_generator()].concat(),
        [generator(), outside].concat(),
        [vec![0; 64], g2_generator(), generator(), vec![0; 128]].concat(),
        [generator(), g2_generator(), vec![0xff; 192]].concat(),
        vec![0; 191],
        vec![0; 193],
    ];
    for input in &inputs {
        for gas in [0, 149, 150, 500, 6_000, 40_000, 44_999, 45_000, 79_000, 100_000, 1_000_000] {
            assert_eq!(
                own_result(Bn254Kind::Add, input, gas, true),
                evm_result(revm::precompile::bn254::run_add(input, 150, gas))
            );
            assert_eq!(
                own_result(Bn254Kind::Add, input, gas, false),
                evm_result(revm::precompile::bn254::run_add(input, 500, gas))
            );
            assert_eq!(
                own_result(Bn254Kind::Mul, input, gas, true),
                evm_result(revm::precompile::bn254::run_mul(input, 6_000, gas))
            );
            assert_eq!(
                own_result(Bn254Kind::Mul, input, gas, false),
                evm_result(revm::precompile::bn254::run_mul(input, 40_000, gas))
            );
            assert_eq!(
                own_result(Bn254Kind::Pair, input, gas, true),
                evm_result(revm::precompile::bn254::run_pair(input, 34_000, 45_000, gas))
            );
            assert_eq!(
                own_result(Bn254Kind::Pair, input, gas, false),
                evm_result(revm::precompile::bn254::run_pair(input, 80_000, 100_000, gas))
            );
        }
    }
}
