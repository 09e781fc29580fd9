//! Addition, scalar multiplication and pairing, where the GPU backend does the arithmetic.

use crate::bn254::Bn254Error;
use crate::bn254::curve::G1Point;
use crate::bn254::curve::G1View;
use crate::bn254::curve::G1_LEN;
use crate::bn254::curve::G2Point;
use crate::bn254::curve::G2View;
use crate::bn254::curve::decoded_g1;
use crate::bn254::curve::decoded_g2;
use crate::bn254::curve::g1_point;
use crate::bn254::curve::read_g1_point;
use crate::bn254::curve::read_g2_point;
use crate::bn254::field::FQ_LEN;
use crate::bn254::field::SCALAR_LEN;
use crate::bn254::field::field_to_be_32;
use crate::bn254::field::fq2_to_bytes_le;
use crate::bn254::field::fq_to_bytes_le;
use crate::bn254::field::joined;
use crate::bn254::field::modulus;
use crate::bn254::field::read_scalar;
use crate::bytes::be_nat;
use crate::bytes::le_digits;
use crate::bytes::le_nat;
use crate::bytes::lemma_le_digits;
use crate::bytes::lemma_le_digits_of_le_nat;
use crate::bytes::pow256;
use crate::bytes::right_padded;
use crate::bytes::zeros;
use vstd::prelude::*;

verus! {

/// A point of the curve as it is handed to the backend.
pub enum G1Operand {
    /// The point at infinity.
    Zero,
    /// The coordinates, least significant byte first.
    Affine {
        /// First coordinate.
        x: [u8; 32],
        /// Second coordinate.
        y: [u8; 32],
    },
}

impl View for G1Operand {
    type V = G1View;

    open spec fn view(&self) -> G1View {
        match self {
            G1Operand::Zero => G1View::Infinity,
            G1Operand::Affine { x, y } => G1View::Affine(le_nat(x@), le_nat(y@)),
        }
    }
}

/// A point of the twist as it is handed to the backend.
pub enum G2Operand {
    /// The point at infinity.
    Zero,
    /// The coordinates, the part without `u` first, and each part least significant byte first.
    Affine {
        /// First coordinate.
        x: [u8; 64],
        /// Second coordinate.
        y: [u8; 64],
    },
}

/// The two parts of an element of the extension.
pub open spec fn fq2_parts(bytes: Seq<u8>) -> (nat, nat) {
    (le_nat(bytes.take(FQ_LEN as int)), le_nat(bytes.skip(FQ_LEN as int)))
}

impl View for G2Operand {
    type V = G2View;

    open spec fn view(&self) -> G2View {
        match self {
            G2Operand::Zero => G2View::Infinity,
            G2Operand::Affine { x, y } => G2View::Affine(fq2_parts(x@), fq2_parts(y@)),
        }
    }
}

/// A point of the curve as the backend gives it.
pub enum G1Reply {
    /// The point at infinity.
    Zero,
    /// The coordinates, least significant byte first.
    Affine {
        /// First coordinate.
        x: Vec<u8>,
        /// Second coordinate.
        y: Vec<u8>,
    },
}

/// [`G1Reply`] with its bytes as sequences.
pub enum ReplyView {
    /// The point at infinity.
    Zero,
    /// The coordinates, least significant byte first.
    Affine(Seq<u8>, Seq<u8>),
}

impl View for G1Reply {
    type V = ReplyView;

    open spec fn view(&self) -> ReplyView {
        match self {
            G1Reply::Zero => ReplyView::Zero,
            G1Reply::Affine { x, y } => ReplyView::Affine(x@, y@),
        }
    }
}

/// The reply of a backend that gives each coordinate as 32 bytes.
pub open spec fn reply_with(point: G1View) -> ReplyView {
    match point {
        G1View::Infinity => ReplyView::Zero,
        G1View::Affine(x, y) => ReplyView::Affine(
            le_digits(x, FQ_LEN as nat),
            le_digits(y, FQ_LEN as nat),
        ),
    }
}

/// The bytes that stand for the backend's reply: zeros for infinity, and otherwise the two
/// coordinates, most significant byte first.
pub open spec fn encoded_g1(reply: ReplyView) -> Seq<u8> {
    match reply {
        ReplyView::Zero => zeros(G1_LEN as nat),
        ReplyView::Affine(x, y) => right_padded(x, FQ_LEN as nat).reverse() + right_padded(
            y,
            FQ_LEN as nat,
        ).reverse(),
    }
}

/// The point as it is handed to the backend.
pub fn ark_g1_to_icicle(point: &G1Point) -> (operand: G1Operand)
    ensures
        operand@ == point@,
{
    match point {
        G1Point::Infinity => G1Operand::Zero,
        G1Point::Affine(x, y) => G1Operand::Affine { x: fq_to_bytes_le(x), y: fq_to_bytes_le(y) },
    }
}

/// The point of the twist as it is handed to the backend.
pub fn ark_g2_to_icicle(point: &G2Point) -> (operand: G2Operand)
    ensures
        operand@ == point@,
{
    match point {
        G2Point::Infinity => G2Operand::Zero,
        G2Point::Affine(x, y) => G2Operand::Affine {
            x: fq2_to_bytes_le(x),
            y: fq2_to_bytes_le(y),
        },
    }
}

/// The bytes that stand for the backend's reply.
pub fn encode_g1_point(point: &G1Reply) -> (output: [u8; 64])
    ensures
        output@ == encoded_g1(point@),
{
    match point {
        G1Reply::Zero => {
            let output: [u8; 64] = [0u8;64];
            assert(output@ =~= zeros(G1_LEN as nat));
            output
        },
        G1Reply::Affine { x, y } => joined(&field_to_be_32(x), &field_to_be_32(y)),
    }
}

/// The sum of two points: the error of the first one that cannot be read, or what the backend
/// gives for the two points.
pub open spec fn is_sum<F>(
    p1: Seq<u8>,
    p2: Seq<u8>,
    adder: F,
    out: Result<[u8; 64], Bn254Error>,
) -> bool where F: Fn(G1Operand, G1Operand) -> G1Reply {
    match (decoded_g1(p1), decoded_g1(p2)) {
        (Err(err), _) => out == Err::<[u8; 64], Bn254Error>(err),
        (Ok(_), Err(err)) => out == Err::<[u8; 64], Bn254Error>(err),
        (Ok(a), Ok(b)) => out is Ok && exists|left: G1Operand, right: G1Operand, reply: G1Reply|
            {
                &&& left@ == a
                &&& right@ == b
                &&& #[trigger] call_ensures(adder, (left, right), reply)
                &&& out->Ok_0@ == encoded_g1(reply@)
            },
    }
}

/// The multiple of a point: the error if the point cannot be read, or what the backend gives for
/// the point and the scalar.
pub open spec fn is_multiple<F>(
    point: Seq<u8>,
    scalar: Seq<u8>,
    multiplier: F,
    out: Result<[u8; 64], Bn254Error>,
) -> bool where F: Fn(G1Operand, [u8; 32]) -> G1Reply {
    match decoded_g1(point) {
        Err(err) => out == Err::<[u8; 64], Bn254Error>(err),
        Ok(a) => out is Ok && exists|operand: G1Operand, scalar_le: [u8; 32], reply: G1Reply|
            {
                &&& operand@ == a
                &&& scalar_le@ == right_padded(scalar, SCALAR_LEN as nat).reverse()
                &&& #[trigger] call_ensures(multiplier, (operand, scalar_le), reply)
                &&& out->Ok_0@ == encoded_g1(reply@)
            },
    }
}

/// Adds two points with the backend's addition.
pub fn g1_add<F>(p1_bytes: &[u8], p2_bytes: &[u8], adder: &F) -> (out: Result<
    [u8; 64],
    Bn254Error,
>) where F: Fn(G1Operand, G1Operand) -> G1Reply
    requires
        forall|left: G1Operand, right: G1Operand| #[trigger] call_requires(*adder, (left, right)),
    ensures
        is_sum(p1_bytes@, p2_bytes@, *adder, out),
{
    let p1: G1Point = match read_g1_point(p1_bytes) {
        Ok(p1) => p1,
        Err(err) => return Err(err),
    };
    let p2: G1Point = match read_g1_point(p2_bytes) {
        Ok(p2) => p2,
        Err(err) => return Err(err),
    };
    let result: G1Reply = (*adder)(ark_g1_to_icicle(&p1), ark_g1_to_icicle(&p2));
    Ok(encode_g1_point(&result))
}

/// Multiplies a point with the backend's multiplication.
pub fn g1_mul<F>(point_bytes: &[u8], scalar_bytes: &[u8], multiplier: &F) -> (out: Result<
    [u8; 64],
    Bn254Error,
>) where F: Fn(G1Operand, [u8; 32]) -> G1Reply
    requires
        forall|operand: G1Operand, scalar: [u8; 32]| #[trigger]
            call_requires(*multiplier, (operand, scalar)),
    ensures
        is_multiple(point_bytes@, scalar_bytes@, *multiplier, out),
{
    let point: G1Point = match read_g1_point(point_bytes) {
        Ok(point) => point,
        Err(err) => return Err(err),
    };
    let scalar: [u8; 32] = read_scalar(scalar_bytes);
    let result: G1Reply = (*multiplier)(ark_g1_to_icicle(&point), scalar);
    Ok(encode_g1_point(&result))
}

/// What the backend is asked for in a pairing check. `T` is the target of the pairing.
pub struct PairingBackend<T, P, M, E> {
    /// The neutral element of the target.
    pub one: T,
    /// The pairing of two points.
    pub pair: P,
    /// The product in the target.
    pub multiply: M,
    /// Whether an element of the target is the neutral one.
    pub is_one: E,
}

/// The backend can be asked for every pairing, product and test.
pub open spec fn can_pair<T, P, M, E>(backend: PairingBackend<T, P, M, E>) -> bool where
    P: Fn(G1Operand, G2Operand) -> Result<T, String>,
    M: Fn(T, T) -> T,
    E: Fn(&T) -> bool,
 {
    &&& forall|left: G1Operand, right: G2Operand| #[trigger]
        call_requires(backend.pair, (left, right))
    &&& forall|left: T, right: T| #[trigger] call_requires(backend.multiply, (left, right))
    &&& forall|value: &T| #[trigger] call_requires(backend.is_one, (value,))
}

/// A pairing check on the way: the product so far, and whether there was any factor.
pub struct PairingProgress<T> {
    /// The product so far.
    pub product: T,
    /// Whether there was any factor.
    pub any: bool,
}

/// The pair adds to the product, or nothing where one of its points is at infinity.
pub open spec fn pair_counts<T, P, M, E>(
    pair: (Seq<u8>, Seq<u8>),
    backend: PairingBackend<T, P, M, E>,
    before: PairingProgress<T>,
    after: PairingProgress<T>,
) -> bool where
    P: Fn(G1Operand, G2Operand) -> Result<T, String>,
    M: Fn(T, T) -> T,
    E: Fn(&T) -> bool,
 {
    match (decoded_g1(pair.0), decoded_g2(pair.1)) {
        (Ok(g1), Ok(g2)) => if g1 is Infinity || g2 is Infinity {
            after == before
        } else {
            after.any && exists|left: G1Operand, right: G2Operand, factor: T|
                {
                    &&& left@ == g1
                    &&& right@ == g2
                    &&& #[trigger] call_ensures(
                        backend.pair,
                        (left, right),
                        Ok::<T, String>(factor),
                    )
                    &&& call_ensures(backend.multiply, (before.product, factor), after.product)
                }
        },
        _ => false,
    }
}

/// The pair ends the check with an error: the first point's, the second point's, or the
/// backend's.
pub open spec fn pair_fails<T, P, M, E>(
    pair: (Seq<u8>, Seq<u8>),
    backend: PairingBackend<T, P, M, E>,
    err: Bn254Error,
) -> bool where
    P: Fn(G1Operand, G2Operand) -> Result<T, String>,
    M: Fn(T, T) -> T,
    E: Fn(&T) -> bool,
 {
    match (decoded_g1(pair.0), decoded_g2(pair.1)) {
        (Err(first), _) => err == first,
        (Ok(_), Err(second)) => err == second,
        (Ok(g1), Ok(g2)) => !(g1 is Infinity) && !(g2 is Infinity) && exists|
            left: G1Operand,
            right: G2Operand,
            reason: String,
        |
            {
                &&& left@ == g1
                &&& right@ == g2
                &&& #[trigger] call_ensures(
                    backend.pair,
                    (left, right),
                    Err::<T, String>(reason),
                )
                &&& err == Bn254Error::Backend(reason)
            },
    }
}

/// The first pairs were gone through, one after the other.
pub open spec fn is_pairing_run<T, P, M, E>(
    pairs: Seq<(Seq<u8>, Seq<u8>)>,
    backend: PairingBackend<T, P, M, E>,
    steps: Seq<PairingProgress<T>>,
) -> bool where
    P: Fn(G1Operand, G2Operand) -> Result<T, String>,
    M: Fn(T, T) -> T,
    E: Fn(&T) -> bool,
 {
    &&& 0 < steps.len() <= pairs.len() + 1
    &&& steps[0] == (PairingProgress { product: backend.one, any: false })
    &&& forall|i: int|
        0 <= i < steps.len() - 1 ==> #[trigger] pair_counts(
            pairs[i],
            backend,
            steps[i],
            steps[i + 1],
        )
}

/// The steps go through the pairs and end with this outcome.
pub open spec fn run_ends_with<T, P, M, E>(
    pairs: Seq<(Seq<u8>, Seq<u8>)>,
    backend: PairingBackend<T, P, M, E>,
    steps: Seq<PairingProgress<T>>,
    out: Result<bool, Bn254Error>,
) -> bool where
    P: Fn(G1Operand, G2Operand) -> Result<T, String>,
    M: Fn(T, T) -> T,
    E: Fn(&T) -> bool,
 {
    &&& is_pairing_run(pairs, backend, steps)
    &&& match out {
        Ok(yes) => {
            &&& steps.len() == pairs.len() + 1
            &&& if steps.last().any {
                call_ensures(backend.is_one, (&steps.last().product,), yes)
            } else {
                yes
            }
        },
        Err(err) => {
            &&& steps.len() <= pairs.len()
            &&& pair_fails(pairs[steps.len() - 1], backend, err)
        },
    }
}

/// The outcome of a pairing check: the error of the first pair that ends it, or whether the
/// product of the pairings is the neutral element. The product of no factors is.
pub open spec fn is_pairing_result<T, P, M, E>(
    pairs: Seq<(Seq<u8>, Seq<u8>)>,
    backend: PairingBackend<T, P, M, E>,
    out: Result<bool, Bn254Error>,
) -> bool where
    P: Fn(G1Operand, G2Operand) -> Result<T, String>,
    M: Fn(T, T) -> T,
    E: Fn(&T) -> bool,
 {
    exists|steps: Seq<PairingProgress<T>>| run_ends_with(pairs, backend, steps, out)
}

/// The pairs as byte strings.
pub open spec fn pair_views(pairs: Seq<(&[u8], &[u8])>) -> Seq<(Seq<u8>, Seq<u8>)> {
    pairs.map_values(|pair: (&[u8], &[u8])| (pair.0@, pair.1@))
}

/// Whether the product of the pairings of the pairs is the neutral element.
pub fn pairing_check<T, P, M, E>(
    pairs: &[(&[u8], &[u8])],
    backend: PairingBackend<T, P, M, E>,
) -> (out: Result<bool, Bn254Error>) where
    P: Fn(G1Operand, G2Operand) -> Result<T, String>,
    M: Fn(T, T) -> T,
    E: Fn(&T) -> bool,

    requires
        can_pair(backend),
    ensures
        is_pairing_result(pair_views(pairs@), backend, out),
{
    let PairingBackend { one, pair, multiply, is_one } = backend;
    let mut product: T = one;
    let mut any: bool = false;
    let ghost mut steps: Seq<PairingProgress<T>> = seq![PairingProgress { product, any }];
    let mut i: usize = 0;
    while i < pairs.len()
        invariant
            i <= pairs@.len(),
            backend.pair == pair,
            backend.multiply == multiply,
            forall|left: G1Operand, right: G2Operand| #[trigger]
                call_requires(pair, (left, right)),
            forall|left: T, right: T| #[trigger] call_requires(multiply, (left, right)),
            is_pairing_run(pair_views(pairs@), backend, steps),
            steps.len() == i + 1,
            steps.last() == (PairingProgress { product, any }),
        decreases pairs.len() - i,
    {
        let ghost current = pair_views(pairs@)[i as int];
        let (g1_bytes, g2_bytes) = pairs[i];
        assert(current == (g1_bytes@, g2_bytes@));
        let g1: G1Point = match read_g1_point(g1_bytes) {
            Ok(g1) => g1,
            Err(err) => {
                assert(pair_fails(current, backend, err));
                assert(run_ends_with(pair_views(pairs@), backend, steps, Err(err)));
                return Err(err);
            },
        };
        let g2: G2Point = match read_g2_point(g2_bytes) {
            Ok(g2) => g2,
            Err(err) => {
                assert(pair_fails(current, backend, err));
                assert(run_ends_with(pair_views(pairs@), backend, steps, Err(err)));
                return Err(err);
            },
        };
        let ghost before = steps;
        let trivial: bool = match (&g1, &g2) {
            (G1Point::Infinity, _) => true,
            (_, G2Point::Infinity) => true,
            _ => false,
        };
        if !trivial {
            any = true;
            let factor: T = match pair(ark_g1_to_icicle(&g1), ark_g2_to_icicle(&g2)) {
                Ok(factor) => factor,
                Err(reason) => {
                    let err = Bn254Error::Backend(reason);
                    assert(run_ends_with(pair_views(pairs@), backend, steps, Err(err)));
                    return Err(err);
                },
            };
            product = multiply(product, factor);
        }
        proof {
            let after = PairingProgress { product, any };
            assert(pair_counts(current, backend, before.last(), after));
            steps = before.push(after);
            assert forall|k: int| 0 <= k < steps.len() - 1 implies #[trigger] pair_counts(
                pair_views(pairs@)[k],
                backend,
                steps[k],
                steps[k + 1],
            ) by {
                if k < before.len() - 1 {
                    assert(pair_counts(
                        pair_views(pairs@)[k],
                        backend,
                        before[k],
                        before[k + 1],
                    ));
                }
            }
        }
        i += 1;
    }
    if !any {
        assert(run_ends_with(pair_views(pairs@), backend, steps, Ok(true)));
        return Ok(true);
    }
    let yes: bool = is_one(&product);
    assert(run_ends_with(pair_views(pairs@), backend, steps, Ok(yes)));
    Ok(yes)
}

/// The error where the library was built without the backend.
fn no_backend() -> (err: Bn254Error)
    ensures
        is_no_backend(err),
{
    Bn254Error::Backend("icicle feature not enabled".to_owned())
}

/// The error says that there is no backend.
pub open spec fn is_no_backend(err: Bn254Error) -> bool {
    err is Backend && err->Backend_0@ == "icicle feature not enabled"@
}

/// The outcome of an addition, with a backend or without one.
pub open spec fn is_add_outcome<F>(
    p1: Seq<u8>,
    p2: Seq<u8>,
    backend: Option<&F>,
    out: Result<[u8; 64], Bn254Error>,
) -> bool where F: Fn(G1Operand, G1Operand) -> G1Reply {
    match backend {
        Some(adder) => is_sum(p1, p2, *adder, out),
        None => out is Err && is_no_backend(out->Err_0),
    }
}

/// The outcome of a multiplication, with a backend or without one.
pub open spec fn is_mul_outcome<F>(
    point: Seq<u8>,
    scalar: Seq<u8>,
    backend: Option<&F>,
    out: Result<[u8; 64], Bn254Error>,
) -> bool where F: Fn(G1Operand, [u8; 32]) -> G1Reply {
    match backend {
        Some(multiplier) => is_multiple(point, scalar, *multiplier, out),
        None => out is Err && is_no_backend(out->Err_0),
    }
}

/// The outcome of a pairing check, with a backend or without one.
pub open spec fn is_pairing_outcome<T, P, M, E>(
    pairs: Seq<(Seq<u8>, Seq<u8>)>,
    backend: Option<PairingBackend<T, P, M, E>>,
    out: Result<bool, Bn254Error>,
) -> bool where
    P: Fn(G1Operand, G2Operand) -> Result<T, String>,
    M: Fn(T, T) -> T,
    E: Fn(&T) -> bool,
 {
    match backend {
        Some(backend) => is_pairing_result(pairs, backend, out),
        None => out is Err && is_no_backend(out->Err_0),
    }
}

/// BN254 G1 addition using Icicle (EVM precompile compatible). `None` stands for a node that was
/// built without the backend.
pub fn bn254_g1_add<F>(p1_bytes: &[u8], p2_bytes: &[u8], backend: Option<&F>) -> (out: Result<
    [u8; 64],
    Bn254Error,
>) where F: Fn(G1Operand, G1Operand) -> G1Reply
    requires
        backend is Some ==> forall|left: G1Operand, right: G1Operand| #[trigger]
            call_requires(*backend->0, (left, right)),
    ensures
        is_add_outcome(p1_bytes@, p2_bytes@, backend, out),
{
    match backend {
        Some(adder) => g1_add(p1_bytes, p2_bytes, adder),
        None => Err(no_backend()),
    }
}

/// BN254 G1 scalar multiplication using Icicle (EVM precompile compatible). `None` stands for a
/// node that was built without the backend.
pub fn bn254_g1_mul<F>(point_bytes: &[u8], scalar_bytes: &[u8], backend: Option<&F>) -> (out:
    Result<[u8; 64], Bn254Error>) where F: Fn(G1Operand, [u8; 32]) -> G1Reply
    requires
        backend is Some ==> forall|operand: G1Operand, scalar: [u8; 32]| #[trigger]
            call_requires(*backend->0, (operand, scalar)),
    ensures
        is_mul_outcome(point_bytes@, scalar_bytes@, backend, out),
{
    match backend {
        Some(multiplier) => g1_mul(point_bytes, scalar_bytes, multiplier),
        None => Err(no_backend()),
    }
}

/// BN254 pairing check using Icicle (EVM precompile compatible). `None` stands for a node that
/// was built without the backend.
pub fn bn254_pairing_check<T, P, M, E>(
    pairs: &[(&[u8], &[u8])],
    backend: Option<PairingBackend<T, P, M, E>>,
) -> (out: Result<bool, Bn254Error>) where
    P: Fn(G1Operand, G2Operand) -> Result<T, String>,
    M: Fn(T, T) -> T,
    E: Fn(&T) -> bool,

    requires
        backend is Some ==> can_pair(backend->0),
    ensures
        is_pairing_outcome(pair_views(pairs@), backend, out),
{
    match backend {
        Some(backend) => pairing_check(pairs, backend),
        None => Err(no_backend()),
    }
}

/// A number below the modulus has 32 digits.
pub proof fn lemma_modulus_bound()
    ensures
        modulus() < pow256(FQ_LEN as nat),
{
    reveal_with_fuel(pow256, 33);
}

/// A coordinate that is read from bytes and written again has the same bytes.
proof fn lemma_field_element_bytes(input: Seq<u8>)
    requires
        input.len() == FQ_LEN,
    ensures
        right_padded(
            le_digits(be_nat(input), FQ_LEN as nat),
            FQ_LEN as nat,
        ).reverse() == input,
{
    lemma_le_digits_of_le_nat(input.reverse());
    let digits = le_digits(be_nat(input), FQ_LEN as nat);
    assert(right_padded(digits, FQ_LEN as nat) =~= digits);
    assert(input.reverse().reverse() =~= input);
}

/// Digits that are all zero make up zero, and zero has no other digits.
proof fn lemma_zero_digits(n: nat)
    ensures
        le_digits(0, n) == zeros(n),
    decreases n,
{
    if n > 0 {
        lemma_zero_digits((n - 1) as nat);
        assert(seq![0u8] + zeros((n - 1) as nat) =~= zeros(n));
    } else {
        assert(le_digits(0, 0) =~= zeros(0));
    }
}

/// Writing what was read gives the bytes that were read: where bytes stand for a point, a backend
/// that gives that point back makes an output of exactly those bytes.
pub proof fn encoding_undoes_decoding(input: Seq<u8>)
    requires
        decoded_g1(input) is Ok,
    ensures
        encoded_g1(reply_with(decoded_g1(input)->Ok_0)) == input,
{
    let first = input.subrange(0, FQ_LEN as int);
    let second = input.subrange(FQ_LEN as int, G1_LEN as int);
    lemma_field_element_bytes(first);
    lemma_field_element_bytes(second);
    assert(first + second =~= input);
    if decoded_g1(input)->Ok_0 is Infinity {
        lemma_zero_digits(FQ_LEN as nat);
        assert(right_padded(zeros(FQ_LEN as nat), FQ_LEN as nat).reverse() =~= zeros(
            FQ_LEN as nat,
        ));
        assert(zeros(FQ_LEN as nat) + zeros(FQ_LEN as nat) =~= zeros(G1_LEN as nat));
    }
}

/// Reading what was written gives the point that was written: an output of the backend can be
/// used as an input again.
pub proof fn decoding_undoes_encoding(point: G1View)
    requires
        match point {
            G1View::Infinity => true,
            G1View::Affine(x, y) => x < modulus() && y < modulus() && g1_point(x, y) == Some(point),
        },
    ensures
        decoded_g1(encoded_g1(reply_with(point))) == Ok::<G1View, Bn254Error>(point),
{
    lemma_modulus_bound();
    let output = encoded_g1(reply_with(point));
    let (x, y) = match point {
        G1View::Infinity => (0nat, 0nat),
        G1View::Affine(x, y) => (x, y),
    };
    let n = FQ_LEN as nat;
    lemma_le_digits(x, n);
    lemma_le_digits(y, n);
    assert(right_padded(le_digits(x, n), n) =~= le_digits(x, n));
    assert(right_padded(le_digits(y, n), n) =~= le_digits(y, n));
    if point is Infinity {
        lemma_zero_digits(n);
        assert(output =~= le_digits(x, n).reverse() + le_digits(y, n).reverse());
    }
    assert(output.subrange(0, FQ_LEN as int) =~= le_digits(x, n).reverse());
    assert(output.subrange(FQ_LEN as int, G1_LEN as int) =~= le_digits(y, n).reverse());
    assert(le_digits(x, n).reverse().reverse() =~= le_digits(x, n));
    assert(le_digits(y, n).reverse().reverse() =~= le_digits(y, n));
}

} // verus!
