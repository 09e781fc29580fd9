//! What the curve operations give with a backend that computes what it should.

use crate::bn254::Bn254Error;
use crate::bn254::backend::G1Operand;
use crate::bn254::backend::G1Reply;
use crate::bn254::backend::G2Operand;
use crate::bn254::backend::PairingBackend;
use crate::bn254::backend::PairingProgress;
use crate::bn254::backend::ark_g1_to_icicle;
use crate::bn254::backend::ark_g2_to_icicle;
use crate::bn254::backend::bn254_g1_add;
use crate::bn254::backend::bn254_g1_mul;
use crate::bn254::backend::bn254_pairing_check;
use crate::bn254::backend::decoding_undoes_encoding;
use crate::bn254::backend::encode_g1_point;
use crate::bn254::backend::encoded_g1;
use crate::bn254::backend::encoding_undoes_decoding;
use crate::bn254::backend::g1_add;
use crate::bn254::backend::g1_mul;
use crate::bn254::backend::is_multiple;
use crate::bn254::backend::is_pairing_result;
use crate::bn254::backend::is_pairing_run;
use crate::bn254::backend::is_sum;
use crate::bn254::backend::lemma_modulus_bound;
use crate::bn254::backend::pair_counts;
use crate::bn254::backend::pair_fails;
use crate::bn254::backend::pair_views;
use crate::bn254::backend::pairing_check;
use crate::bn254::backend::reply_with;
use crate::bn254::backend::run_ends_with;
use crate::bn254::curve::G1Point;
use crate::bn254::curve::G1View;
use crate::bn254::curve::G1_LEN;
use crate::bn254::curve::G2Point;
use crate::bn254::curve::G2View;
use crate::bn254::curve::decoded_g1;
use crate::bn254::curve::decoded_g2;
use crate::bn254::curve::fq2_product;
use crate::bn254::curve::fq2_sum;
use crate::bn254::curve::g1_point;
use crate::bn254::curve::g2_point;
use crate::bn254::curve::in_twist_subgroup;
use crate::bn254::curve::new_g1_point;
use crate::bn254::curve::new_g2_point;
use crate::bn254::curve::on_curve;
use crate::bn254::curve::on_twist;
use crate::bn254::curve::read_g1_point;
use crate::bn254::curve::read_g2_point;
use crate::bn254::curve::twist_coefficient;
use crate::bn254::field::FQ_LEN;
use crate::bn254::field::Fq2;
use crate::bn254::field::Fq;
use crate::bn254::field::SCALAR_LEN;
use crate::bn254::field::field_to_be_32;
use crate::bn254::field::fq2_to_bytes_le;
use crate::bn254::field::fq_to_bytes_le;
use crate::bn254::field::joined;
use crate::bn254::field::modulus;
use crate::bn254::field::read_fq2;
use crate::bn254::field::read_fq;
use crate::bn254::field::read_scalar;
use crate::bytes::be_nat;
use crate::bytes::le_digits;
use crate::bytes::le_nat;
use crate::bytes::lemma_le_digits;
use crate::bytes::right_padded;
use crate::bytes::zeros;
use vstd::arithmetic::div_mod::lemma_mod_multiples_vanish;
use vstd::arithmetic::div_mod::lemma_small_mod;
use vstd::prelude::*;

verus! {

/// The point at infinity, or one with the coordinates of a point of the curve.
pub open spec fn is_g1(point: G1View) -> bool {
    match point {
        G1View::Infinity => true,
        G1View::Affine(x, y) => x < modulus() && y < modulus() && g1_point(x, y) == Some(point),
    }
}

/// The negative of a point.
pub open spec fn negated(point: G1View) -> G1View {
    match point {
        G1View::Infinity => G1View::Infinity,
        G1View::Affine(x, y) => G1View::Affine(x, (modulus() - y) as nat % modulus()),
    }
}

/// The bytes of the negative of a point: the second coordinate is taken from the modulus.
pub open spec fn negated_bytes(input: Seq<u8>) -> Seq<u8> {
    let y = be_nat(input.subrange(FQ_LEN as int, G1_LEN as int));
    input.subrange(0, FQ_LEN as int) + le_digits(
        (modulus() - y) as nat % modulus(),
        FQ_LEN as nat,
    ).reverse()
}

/// An addition of points: it gives points, in either order the same, infinity is neutral, and a
/// point and its negative give infinity.
pub open spec fn is_addition(sum: spec_fn(G1View, G1View) -> G1View) -> bool {
    &&& forall|a: G1View, b: G1View|
        is_g1(a) && is_g1(b) ==> is_g1(#[trigger] sum(a, b)) && sum(a, b) == sum(b, a)
    &&& forall|a: G1View| is_g1(a) ==> #[trigger] sum(a, G1View::Infinity) == a
    &&& forall|a: G1View| is_g1(a) ==> sum(a, #[trigger] negated(a)) == G1View::Infinity
}

/// The backend adds points.
pub open spec fn adds<F>(adder: F, sum: spec_fn(G1View, G1View) -> G1View) -> bool where
    F: Fn(G1Operand, G1Operand) -> G1Reply,
 {
    forall|left: G1Operand, right: G1Operand, reply: G1Reply|
        is_g1(left@) && is_g1(right@) && #[trigger] call_ensures(adder, (left, right), reply)
            ==> reply@ == reply_with(sum(left@, right@))
}

/// The sum of so many times a point.
pub open spec fn times(sum: spec_fn(G1View, G1View) -> G1View, point: G1View, n: nat) -> G1View
    decreases n,
{
    if n == 0 {
        G1View::Infinity
    } else {
        sum(times(sum, point, (n - 1) as nat), point)
    }
}

/// The backend multiplies points.
pub open spec fn multiplies<F>(multiplier: F, sum: spec_fn(G1View, G1View) -> G1View) -> bool where
    F: Fn(G1Operand, [u8; 32]) -> G1Reply,
 {
    forall|operand: G1Operand, scalar: [u8; 32], reply: G1Reply|
        is_g1(operand@) && #[trigger] call_ensures(multiplier, (operand, scalar), reply)
            ==> reply@ == reply_with(times(sum, operand@, le_nat(scalar@)))
}

/// What is read from bytes is a point.
proof fn lemma_decoded_is_g1(input: Seq<u8>)
    requires
        decoded_g1(input) is Ok,
    ensures
        is_g1(decoded_g1(input)->Ok_0),
{
}

/// The point that 64 zero bytes stand for is infinity.
proof fn lemma_zeros_are_infinity()
    ensures
        decoded_g1(zeros(G1_LEN as nat)) == Ok::<G1View, Bn254Error>(G1View::Infinity),
{
    decoding_undoes_encoding(G1View::Infinity);
}

/// The square of a number and of what is left to the modulus are the same.
proof fn lemma_negated_square(y: nat)
    requires
        y < modulus(),
    ensures
        ({
            let other = (modulus() - y) as nat % modulus();
            (other * other) % modulus() == (y * y) % modulus()
        }),
{
    let p = modulus() as int;
    let other = (modulus() - y) as nat % modulus();
    if y == 0 {
        assert(p % p == 0);
        assert(other == 0);
    } else {
        let z = p - y;
        lemma_small_mod(z as nat, modulus());
        assert(other == z);
        assert(z * z == p * (p - 2 * y) + y * y) by (nonlinear_arith)
            requires
                z == p - y,
        ;
        lemma_mod_multiples_vanish(p - 2 * y, (y * y) as int, p);
        assert((p * (p - 2 * y) + y * y) % p == (y * y) as int % p);
    }
}

/// The negative of a point is a point.
proof fn lemma_negated_is_g1(point: G1View)
    requires
        is_g1(point),
    ensures
        is_g1(negated(point)),
{
    if let G1View::Affine(x, y) = point {
        let other = (modulus() - y) as nat % modulus();
        lemma_negated_square(y);
        assert(on_curve(x, other));
        if x == 0 {
            assert(y != 0);
            lemma_small_mod((modulus() - y) as nat, modulus());
        }
    }
}

/// The bytes of the negative stand for the negative.
pub proof fn negated_bytes_are_the_negative(input: Seq<u8>)
    requires
        decoded_g1(input) is Ok,
    ensures
        decoded_g1(negated_bytes(input)) == Ok::<G1View, Bn254Error>(
            negated(decoded_g1(input)->Ok_0),
        ),
{
    let point = decoded_g1(input)->Ok_0;
    lemma_decoded_is_g1(input);
    lemma_negated_is_g1(point);
    lemma_modulus_bound();
    let n = FQ_LEN as nat;
    let first = input.subrange(0, FQ_LEN as int);
    let y = be_nat(input.subrange(FQ_LEN as int, G1_LEN as int));
    let other = (modulus() - y) as nat % modulus();
    lemma_le_digits(other, n);
    let output = negated_bytes(input);
    assert(output.subrange(0, FQ_LEN as int) =~= first);
    assert(output.subrange(FQ_LEN as int, G1_LEN as int) =~= le_digits(other, n).reverse());
    assert(le_digits(other, n).reverse().reverse() =~= le_digits(other, n));
    if point is Infinity {
        assert(y == 0);
        assert(other == 0) by {
            assert(modulus() % modulus() == 0);
        }
    }
}

/// With a backend that adds points, an addition gives the bytes of the sum, which stand for the
/// sum again, whichever point comes first.
pub proof fn addition_gives_the_sum<F>(
    p: Seq<u8>,
    q: Seq<u8>,
    adder: F,
    sum: spec_fn(G1View, G1View) -> G1View,
    out: Result<[u8; 64], Bn254Error>,
    swapped: Result<[u8; 64], Bn254Error>,
) where F: Fn(G1Operand, G1Operand) -> G1Reply
    requires
        is_addition(sum),
        adds(adder, sum),
        decoded_g1(p) is Ok,
        decoded_g1(q) is Ok,
        is_sum(p, q, adder, out),
        is_sum(q, p, adder, swapped),
    ensures
        out is Ok,
        swapped is Ok,
        out->Ok_0@ == encoded_g1(reply_with(sum(decoded_g1(p)->Ok_0, decoded_g1(q)->Ok_0))),
        swapped->Ok_0@ == out->Ok_0@,
        decoded_g1(out->Ok_0@) == Ok::<G1View, Bn254Error>(
            sum(decoded_g1(p)->Ok_0, decoded_g1(q)->Ok_0),
        ),
{
    lemma_decoded_is_g1(p);
    lemma_decoded_is_g1(q);
    let a = decoded_g1(p)->Ok_0;
    let b = decoded_g1(q)->Ok_0;
    assert(is_g1(sum(a, b)));
    assert(sum(a, b) == sum(b, a));
    decoding_undoes_encoding(sum(a, b));
}

/// With a backend that adds points, adding 64 zero bytes to a point gives the point's own bytes.
pub proof fn adding_infinity_changes_nothing<F>(
    p: Seq<u8>,
    adder: F,
    sum: spec_fn(G1View, G1View) -> G1View,
    out: Result<[u8; 64], Bn254Error>,
) where F: Fn(G1Operand, G1Operand) -> G1Reply
    requires
        is_addition(sum),
        adds(adder, sum),
        decoded_g1(p) is Ok,
        is_sum(p, zeros(G1_LEN as nat), adder, out),
    ensures
        out is Ok,
        out->Ok_0@ == p,
{
    lemma_decoded_is_g1(p);
    lemma_zeros_are_infinity();
    let a = decoded_g1(p)->Ok_0;
    assert(sum(a, G1View::Infinity) == a);
    encoding_undoes_decoding(p);
}

/// With a backend that adds points, a point and its negative give 64 zero bytes.
pub proof fn adding_the_negative_gives_zeros<F>(
    p: Seq<u8>,
    adder: F,
    sum: spec_fn(G1View, G1View) -> G1View,
    out: Result<[u8; 64], Bn254Error>,
) where F: Fn(G1Operand, G1Operand) -> G1Reply
    requires
        is_addition(sum),
        adds(adder, sum),
        decoded_g1(p) is Ok,
        is_sum(p, negated_bytes(p), adder, out),
    ensures
        out is Ok,
        out->Ok_0@ == zeros(G1_LEN as nat),
{
    lemma_decoded_is_g1(p);
    negated_bytes_are_the_negative(p);
    let a = decoded_g1(p)->Ok_0;
    lemma_negated_is_g1(a);
    assert(sum(a, negated(a)) == G1View::Infinity);
}

/// The scalar that bytes stand for: most significant byte first, what is missing at the end is
/// zero.
pub open spec fn scalar_value(scalar: Seq<u8>) -> nat {
    be_nat(right_padded(scalar, SCALAR_LEN as nat))
}

/// With a backend that multiplies points, a multiplication gives the bytes of the sum of so many
/// times the point; so the scalar zero gives 64 zero bytes and the scalar one the point's own
/// bytes.
pub proof fn multiplication_gives_the_multiple<F>(
    point: Seq<u8>,
    scalar: Seq<u8>,
    multiplier: F,
    sum: spec_fn(G1View, G1View) -> G1View,
    out: Result<[u8; 64], Bn254Error>,
) where F: Fn(G1Operand, [u8; 32]) -> G1Reply
    requires
        is_addition(sum),
        multiplies(multiplier, sum),
        decoded_g1(point) is Ok,
        is_multiple(point, scalar, multiplier, out),
    ensures
        out is Ok,
        out->Ok_0@ == encoded_g1(
            reply_with(times(sum, decoded_g1(point)->Ok_0, scalar_value(scalar))),
        ),
        scalar_value(scalar) == 0 ==> out->Ok_0@ == zeros(G1_LEN as nat),
        scalar_value(scalar) == 1 ==> out->Ok_0@ == point,
{
    lemma_decoded_is_g1(point);
    let a = decoded_g1(point)->Ok_0;
    reveal_with_fuel(times, 3);
    assert(is_g1(G1View::Infinity));
    assert(sum(a, G1View::Infinity) == a);
    assert(sum(G1View::Infinity, a) == sum(a, G1View::Infinity));
    encoding_undoes_decoding(point);
}

/// With a backend that adds and multiplies points, twice a point is the sum of the point with
/// itself.
pub proof fn doubling_is_adding_to_itself<A, M>(
    point: Seq<u8>,
    scalar: Seq<u8>,
    adder: A,
    multiplier: M,
    sum: spec_fn(G1View, G1View) -> G1View,
    doubled: Result<[u8; 64], Bn254Error>,
    added: Result<[u8; 64], Bn254Error>,
) where A: Fn(G1Operand, G1Operand) -> G1Reply, M: Fn(G1Operand, [u8; 32]) -> G1Reply
    requires
        is_addition(sum),
        adds(adder, sum),
        multiplies(multiplier, sum),
        decoded_g1(point) is Ok,
        scalar_value(scalar) == 2,
        is_multiple(point, scalar, multiplier, doubled),
        is_sum(point, point, adder, added),
    ensures
        doubled is Ok,
        added is Ok,
        doubled->Ok_0@ == added->Ok_0@,
{
    lemma_decoded_is_g1(point);
    let a = decoded_g1(point)->Ok_0;
    multiplication_gives_the_multiple(point, scalar, multiplier, sum, doubled);
    addition_gives_the_sum(point, point, adder, sum, added, added);
    reveal_with_fuel(times, 3);
    assert(is_g1(G1View::Infinity));
    assert(sum(a, G1View::Infinity) == a);
    assert(sum(G1View::Infinity, a) == sum(a, G1View::Infinity));
    assert(times(sum, a, 2) == sum(a, a));
}

/// Both points of the pair can be read.
pub open spec fn is_pair(pair: (Seq<u8>, Seq<u8>)) -> bool {
    decoded_g1(pair.0) is Ok && decoded_g2(pair.1) is Ok
}

/// Both points of the pair can be read, and one is at infinity.
pub open spec fn is_trivial_pair(pair: (Seq<u8>, Seq<u8>)) -> bool {
    is_pair(pair) && (decoded_g1(pair.0)->Ok_0 is Infinity || decoded_g2(pair.1)->Ok_0 is Infinity)
}

/// A pairing check with a pair that cannot be read fails, even where the other point of the pair
/// is at infinity.
pub proof fn malformed_pairs_fail<T, P, M, E>(
    pairs: Seq<(Seq<u8>, Seq<u8>)>,
    backend: PairingBackend<T, P, M, E>,
    out: Result<bool, Bn254Error>,
    i: int,
) where
    P: Fn(G1Operand, G2Operand) -> Result<T, String>,
    M: Fn(T, T) -> T,
    E: Fn(&T) -> bool,

    requires
        is_pairing_result(pairs, backend, out),
        0 <= i < pairs.len(),
        !is_pair(pairs[i]),
    ensures
        out is Err,
{
    let steps = choose|steps: Seq<PairingProgress<T>>|
        run_ends_with(pairs, backend, steps, out);
    if out is Ok {
        assert(pair_counts(pairs[i], backend, steps[i], steps[i + 1]));
    }
}

/// A run goes on to be one with a trivial pair put in.
proof fn lemma_run_with_trivial_pair<T, P, M, E>(
    pairs: Seq<(Seq<u8>, Seq<u8>)>,
    backend: PairingBackend<T, P, M, E>,
    steps: Seq<PairingProgress<T>>,
    out: Result<bool, Bn254Error>,
    at: int,
    pair: (Seq<u8>, Seq<u8>),
) where
    P: Fn(G1Operand, G2Operand) -> Result<T, String>,
    M: Fn(T, T) -> T,
    E: Fn(&T) -> bool,

    requires
        0 <= at <= pairs.len(),
        is_trivial_pair(pair),
        run_ends_with(pairs, backend, steps, out),
    ensures
        is_pairing_result(pairs.insert(at, pair), backend, out),
{
    let longer = pairs.insert(at, pair);
    if steps.len() <= at {
        assert forall|i: int| 0 <= i < steps.len() - 1 implies #[trigger] pair_counts(
            longer[i],
            backend,
            steps[i],
            steps[i + 1],
        ) by {
            assert(pair_counts(pairs[i], backend, steps[i], steps[i + 1]));
        }
        assert(longer[steps.len() - 1] == pairs[steps.len() - 1]);
        assert(run_ends_with(longer, backend, steps, out));
    } else {
        let more = steps.insert(at + 1, steps[at]);
        assert forall|i: int| 0 <= i < more.len() - 1 implies #[trigger] pair_counts(
            longer[i],
            backend,
            more[i],
            more[i + 1],
        ) by {
            if i < at {
                assert(pair_counts(pairs[i], backend, steps[i], steps[i + 1]));
            } else if i > at {
                assert(pair_counts(pairs[i - 1], backend, steps[i - 1], steps[i - 1 + 1]));
            }
        }
        assert(more.last() == steps.last());
        if out is Err {
            assert(longer[more.len() - 1] == pairs[steps.len() - 1]);
        }
        assert(run_ends_with(longer, backend, more, out));
    }
}

/// A run with a trivial pair is one without it.
proof fn lemma_run_without_trivial_pair<T, P, M, E>(
    pairs: Seq<(Seq<u8>, Seq<u8>)>,
    backend: PairingBackend<T, P, M, E>,
    more: Seq<PairingProgress<T>>,
    out: Result<bool, Bn254Error>,
    at: int,
    pair: (Seq<u8>, Seq<u8>),
) where
    P: Fn(G1Operand, G2Operand) -> Result<T, String>,
    M: Fn(T, T) -> T,
    E: Fn(&T) -> bool,

    requires
        0 <= at <= pairs.len(),
        is_trivial_pair(pair),
        run_ends_with(pairs.insert(at, pair), backend, more, out),
    ensures
        is_pairing_result(pairs, backend, out),
{
    let longer = pairs.insert(at, pair);
    assert(longer[at] == pair);
    if more.len() == at + 1 {
        assert(!pair_fails(pair, backend, out->Err_0));
        assert(false);
    } else if more.len() <= at {
        assert forall|i: int| 0 <= i < more.len() - 1 implies #[trigger] pair_counts(
            pairs[i],
            backend,
            more[i],
            more[i + 1],
        ) by {
            assert(pair_counts(longer[i], backend, more[i], more[i + 1]));
        }
        assert(longer[more.len() - 1] == pairs[more.len() - 1]);
        assert(run_ends_with(pairs, backend, more, out));
    } else {
        let steps = more.remove(at + 1);
        assert(pair_counts(longer[at], backend, more[at], more[at + 1]));
        assert(more[at + 1] == more[at]);
        assert forall|i: int| 0 <= i < steps.len() - 1 implies #[trigger] pair_counts(
            pairs[i],
            backend,
            steps[i],
            steps[i + 1],
        ) by {
            if i < at {
                assert(pair_counts(longer[i], backend, more[i], more[i + 1]));
            } else {
                assert(pair_counts(longer[i + 1], backend, more[i + 1], more[i + 1 + 1]));
            }
        }
        assert(steps.last() == more.last());
        if out is Err {
            assert(longer[more.len() - 1] == pairs[steps.len() - 1]);
        }
        assert(run_ends_with(pairs, backend, steps, out));
    }
}

/// A pair that can be read and has a point at infinity changes no pairing check, wherever it is
/// put in.
pub proof fn trivial_pair_changes_nothing<T, P, M, E>(
    pairs: Seq<(Seq<u8>, Seq<u8>)>,
    backend: PairingBackend<T, P, M, E>,
    out: Result<bool, Bn254Error>,
    at: int,
    pair: (Seq<u8>, Seq<u8>),
) where
    P: Fn(G1Operand, G2Operand) -> Result<T, String>,
    M: Fn(T, T) -> T,
    E: Fn(&T) -> bool,

    requires
        0 <= at <= pairs.len(),
        is_trivial_pair(pair),
    ensures
        is_pairing_result(pairs.insert(at, pair), backend, out) == is_pairing_result(
            pairs,
            backend,
            out,
        ),
{
    let longer = pairs.insert(at, pair);
    if is_pairing_result(pairs, backend, out) {
        let steps = choose|steps: Seq<PairingProgress<T>>|
            run_ends_with(pairs, backend, steps, out);
        lemma_run_with_trivial_pair(pairs, backend, steps, out, at, pair);
    }
    if is_pairing_result(longer, backend, out) {
        let more = choose|more: Seq<PairingProgress<T>>|
            run_ends_with(longer, backend, more, out);
        lemma_run_without_trivial_pair(pairs, backend, more, out, at, pair);
    }
}

/// A pairing check is true, and the backend is not asked, where each pair has a point at infinity;
/// so is the check of no pairs.
pub proof fn trivial_pairs_check<T, P, M, E>(
    pairs: Seq<(Seq<u8>, Seq<u8>)>,
    backend: PairingBackend<T, P, M, E>,
    out: Result<bool, Bn254Error>,
) where
    P: Fn(G1Operand, G2Operand) -> Result<T, String>,
    M: Fn(T, T) -> T,
    E: Fn(&T) -> bool,

    requires
        is_pairing_result(pairs, backend, out),
        forall|i: int| 0 <= i < pairs.len() ==> is_trivial_pair(#[trigger] pairs[i]),
    ensures
        out == Ok::<bool, Bn254Error>(true),
{
    let steps = choose|steps: Seq<PairingProgress<T>>|
        run_ends_with(pairs, backend, steps, out);
    lemma_trivial_run(pairs, backend, steps, steps.len() - 1);
}

/// Trivial pairs leave the progress as it is.
proof fn lemma_trivial_run<T, P, M, E>(
    pairs: Seq<(Seq<u8>, Seq<u8>)>,
    backend: PairingBackend<T, P, M, E>,
    steps: Seq<PairingProgress<T>>,
    i: int,
) where
    P: Fn(G1Operand, G2Operand) -> Result<T, String>,
    M: Fn(T, T) -> T,
    E: Fn(&T) -> bool,

    requires
        is_pairing_run(pairs, backend, steps),
        0 <= i < steps.len(),
        forall|i: int| 0 <= i < pairs.len() ==> is_trivial_pair(#[trigger] pairs[i]),
    ensures
        !steps[i].any,
    decreases i,
{
    if i > 0 {
        lemma_trivial_run(pairs, backend, steps, i - 1);
        assert(pair_counts(pairs[i - 1], backend, steps[i - 1], steps[i - 1 + 1]));
    }
}

/// The point at infinity, or one with the coordinates of a point of the twist and its subgroup.
pub open spec fn is_g2(point: G2View) -> bool {
    match point {
        G2View::Infinity => true,
        G2View::Affine(x, y) => {
            &&& x.0 < modulus() && x.1 < modulus() && y.0 < modulus() && y.1 < modulus()
            &&& g2_point(x, y) == Some(point)
        },
    }
}

/// What is read from the bytes of a pair are points.
proof fn lemma_decoded_are_points(pair: (Seq<u8>, Seq<u8>))
    requires
        is_pair(pair),
    ensures
        is_g1(decoded_g1(pair.0)->Ok_0),
        is_g2(decoded_g2(pair.1)->Ok_0),
{
}

/// A product that is commutative and associative.
pub open spec fn is_product<T>(product: spec_fn(T, T) -> T) -> bool {
    &&& forall|a: T, b: T| #[trigger] product(a, b) == product(b, a)
    &&& forall|a: T, b: T, c: T| #[trigger]
        product(product(a, b), c) == product(a, product(b, c))
}

/// The backend computes this pairing and this product, and tells the neutral element from the
/// others; it never fails.
pub open spec fn pairs_with<T, P, M, E>(
    backend: PairingBackend<T, P, M, E>,
    pairing: spec_fn(G1View, G2View) -> T,
    product: spec_fn(T, T) -> T,
) -> bool where
    P: Fn(G1Operand, G2Operand) -> Result<T, String>,
    M: Fn(T, T) -> T,
    E: Fn(&T) -> bool,
 {
    &&& forall|left: G1Operand, right: G2Operand, reply: Result<T, String>| #[trigger]
        call_ensures(backend.pair, (left, right), reply) && is_g1(left@) && is_g2(right@)
            ==> reply == Ok::<T, String>(pairing(left@, right@))
    &&& forall|left: T, right: T, reply: T| #[trigger]
        call_ensures(backend.multiply, (left, right), reply) ==> reply == product(left, right)
    &&& forall|value: &T, yes: bool| #[trigger]
        call_ensures(backend.is_one, (value,), yes) ==> yes == (*value == backend.one)
}

/// The product with the pairing of one more pair, which counts nothing where a point is at
/// infinity.
pub open spec fn with_pair<T>(
    pairing: spec_fn(G1View, G2View) -> T,
    product: spec_fn(T, T) -> T,
    so_far: T,
    pair: (Seq<u8>, Seq<u8>),
) -> T {
    if is_trivial_pair(pair) {
        so_far
    } else {
        product(so_far, pairing(decoded_g1(pair.0)->Ok_0, decoded_g2(pair.1)->Ok_0))
    }
}

/// The product of the pairings of the pairs.
pub open spec fn pairing_product<T>(
    one: T,
    pairing: spec_fn(G1View, G2View) -> T,
    product: spec_fn(T, T) -> T,
    pairs: Seq<(Seq<u8>, Seq<u8>)>,
) -> T {
    pairs.fold_left(
        one,
        |so_far: T, pair: (Seq<u8>, Seq<u8>)| with_pair(pairing, product, so_far, pair),
    )
}

/// The progress of a run is the product of the pairs so far.
proof fn lemma_run_computes_the_product<T, P, M, E>(
    pairs: Seq<(Seq<u8>, Seq<u8>)>,
    backend: PairingBackend<T, P, M, E>,
    pairing: spec_fn(G1View, G2View) -> T,
    product: spec_fn(T, T) -> T,
    steps: Seq<PairingProgress<T>>,
    i: int,
) where
    P: Fn(G1Operand, G2Operand) -> Result<T, String>,
    M: Fn(T, T) -> T,
    E: Fn(&T) -> bool,

    requires
        pairs_with(backend, pairing, product),
        is_pairing_run(pairs, backend, steps),
        0 <= i < steps.len(),
    ensures
        steps[i].product == pairing_product(backend.one, pairing, product, pairs.take(i)),
        !steps[i].any ==> steps[i].product == backend.one,
    decreases i,
{
    if i > 0 {
        lemma_run_computes_the_product(pairs, backend, pairing, product, steps, i - 1);
        assert(pair_counts(pairs[i - 1], backend, steps[i - 1], steps[i - 1 + 1]));
        lemma_decoded_are_points(pairs[i - 1]);
        assert(pairs.take(i).drop_last() =~= pairs.take(i - 1));
        assert(pairs.take(i).last() == pairs[i - 1]);
    }
}

/// With a backend that computes a pairing, a check of pairs that can all be read tells whether the
/// product of their pairings is the neutral element.
pub proof fn pairing_check_tells_the_product<T, P, M, E>(
    pairs: Seq<(Seq<u8>, Seq<u8>)>,
    backend: PairingBackend<T, P, M, E>,
    pairing: spec_fn(G1View, G2View) -> T,
    product: spec_fn(T, T) -> T,
    out: Result<bool, Bn254Error>,
) where
    P: Fn(G1Operand, G2Operand) -> Result<T, String>,
    M: Fn(T, T) -> T,
    E: Fn(&T) -> bool,

    requires
        pairs_with(backend, pairing, product),
        forall|i: int| 0 <= i < pairs.len() ==> is_pair(#[trigger] pairs[i]),
        is_pairing_result(pairs, backend, out),
    ensures
        out == Ok::<bool, Bn254Error>(
            pairing_product(backend.one, pairing, product, pairs) == backend.one,
        ),
{
    let steps = choose|steps: Seq<PairingProgress<T>>|
        run_ends_with(pairs, backend, steps, out);
    lemma_run_computes_the_product(pairs, backend, pairing, product, steps, steps.len() - 1);
    if out is Err {
        assert(is_pair(pairs[steps.len() - 1]));
        lemma_decoded_are_points(pairs[steps.len() - 1]);
    } else {
        assert(pairs.take(pairs.len() as int) =~= pairs);
    }
}

/// With a backend that computes a pairing, the order of the pairs does not matter.
pub proof fn order_of_pairs_does_not_matter<T, P, M, E>(
    pairs: Seq<(Seq<u8>, Seq<u8>)>,
    reordered: Seq<(Seq<u8>, Seq<u8>)>,
    backend: PairingBackend<T, P, M, E>,
    pairing: spec_fn(G1View, G2View) -> T,
    product: spec_fn(T, T) -> T,
    out: Result<bool, Bn254Error>,
    reordered_out: Result<bool, Bn254Error>,
) where
    P: Fn(G1Operand, G2Operand) -> Result<T, String>,
    M: Fn(T, T) -> T,
    E: Fn(&T) -> bool,

    requires
        is_product(product),
        pairs_with(backend, pairing, product),
        forall|i: int| 0 <= i < pairs.len() ==> is_pair(#[trigger] pairs[i]),
        pairs.to_multiset() == reordered.to_multiset(),
        is_pairing_result(pairs, backend, out),
        is_pairing_result(reordered, backend, reordered_out),
    ensures
        out == reordered_out,
{
    broadcast use vstd::seq_lib::group_to_multiset_ensures;

    assert forall|i: int| 0 <= i < reordered.len() implies is_pair(#[trigger] reordered[i]) by {
        assert(reordered.contains(reordered[i]));
        assert(reordered.to_multiset().count(reordered[i]) > 0);
        assert(pairs.contains(reordered[i]));
        let k = choose|k: int| 0 <= k < pairs.len() && pairs[k] == reordered[i];
        assert(is_pair(pairs[k]));
    }
    let step = |so_far: T, pair: (Seq<u8>, Seq<u8>)| with_pair(pairing, product, so_far, pair);
    assert(vstd::seq_lib::commutative_foldl(step)) by {
        assert forall|x: (Seq<u8>, Seq<u8>), y: (Seq<u8>, Seq<u8>), v: T| #[trigger]
            step(step(v, x), y) == step(step(v, y), x) by {
            let a = pairing(decoded_g1(x.0)->Ok_0, decoded_g2(x.1)->Ok_0);
            let b = pairing(decoded_g1(y.0)->Ok_0, decoded_g2(y.1)->Ok_0);
            assert(product(product(v, a), b) == product(v, product(a, b)));
            assert(product(product(v, b), a) == product(v, product(b, a)));
            assert(product(a, b) == product(b, a));
        }
    }
    vstd::seq_lib::lemma_fold_left_permutation(pairs, reordered, step, backend.one);
    pairing_check_tells_the_product(pairs, backend, pairing, product, out);
    pairing_check_tells_the_product(reordered, backend, pairing, product, reordered_out);
}

/// The number of elements of the field.
pub open spec fn field_size() -> nat {
    21888242871839275222246405745257275088696311157297823662689037894645226208583nat
}

/// A field element is a number of 32 bytes, most significant byte first, below the number of
/// elements; it is zero only if that number is, and it is written as the same number.
pub proof fn field_elements_are_small_numbers(
    input: &[u8],
    out: Result<Fq, Bn254Error>,
    element: &Fq,
    zero: bool,
    bytes: [u8; 32],
    written: [u8; 32],
)
    requires
        call_ensures(read_fq, (input,), out),
        call_ensures(Fq::is_zero, (element,), zero),
        call_ensures(Fq::to_bytes_le, (element,), bytes),
        call_ensures(fq_to_bytes_le, (element,), written),
    ensures
        modulus() == field_size(),
        out is Ok <==> input@.len() == 32 && be_nat(input@) < field_size(),
        out is Ok ==> out->Ok_0@ == be_nat(input@),
        out is Err ==> out->Err_0 is InvalidFieldElement,
        zero <==> element@ == 0,
        le_nat(bytes@) == element@,
        le_nat(written@) == element@,
        element@ < field_size(),
{
}

/// An element of the extension is read with the factor of `u` first, and handed on with the part
/// without `u` first.
pub proof fn extension_elements_turn_around(
    input: &[u8],
    out: Result<Fq2, Bn254Error>,
    element: &Fq2,
    bytes: [u8; 64],
)
    requires
        call_ensures(read_fq2, (input,), out),
        call_ensures(fq2_to_bytes_le, (element,), bytes),
    ensures
        out is Ok <==> input@.len() == 64 && be_nat(input@.take(32)) < field_size() && be_nat(
            input@.skip(32),
        ) < field_size(),
        out is Ok ==> out->Ok_0.c1@ == be_nat(input@.take(32)) && out->Ok_0.c0@ == be_nat(
            input@.skip(32),
        ),
        out is Err ==> out->Err_0 is InvalidFieldElement,
        le_nat(bytes@.take(32)) == element.c0@,
        le_nat(bytes@.skip(32)) == element.c1@,
{
    if input@.len() == 64 {
        assert(input@.subrange(0, 32) =~= input@.take(32));
        assert(input@.subrange(32, 64) =~= input@.skip(32));
    }
}

/// A scalar is read with its most significant byte first and handed on with the least significant
/// one first: it stays the same number. What the backend gives is turned around in the same way.
/// Missing bytes count as zeros behind the others.
pub proof fn scalars_and_replies_turn_around(
    input: &[u8],
    scalar: [u8; 32],
    reply: &Vec<u8>,
    bytes: [u8; 32],
    first: &[u8; 32],
    second: &[u8; 32],
    both: [u8; 64],
)
    requires
        call_ensures(read_scalar, (input,), scalar),
        call_ensures(field_to_be_32, (reply,), bytes),
        call_ensures(joined, (first, second), both),
    ensures
        input@.len() == 32 ==> le_nat(scalar@) == be_nat(input@),
        input@.len() > 32 ==> le_nat(scalar@) == be_nat(input@.take(32)),
        input@.len() < 32 ==> le_nat(scalar@) == be_nat(
            input@ + Seq::new((32 - input@.len()) as nat, |i: int| 0u8),
        ),
        reply@.len() == 32 ==> be_nat(bytes@) == le_nat(reply@),
        reply@.len() > 32 ==> be_nat(bytes@) == le_nat(reply@.take(32)),
        reply@.len() < 32 ==> be_nat(bytes@) == le_nat(
            reply@ + Seq::new((32 - reply@.len()) as nat, |i: int| 0u8),
        ),
        both@ == first@ + second@,
{
    lemma_padded(input@);
    lemma_padded(reply@);
    let padded = right_padded(reply@, 32);
    assert(padded.reverse().reverse() =~= padded);
}

/// What filling up to 32 bytes gives.
proof fn lemma_padded(s: Seq<u8>)
    ensures
        s.len() == 32 ==> right_padded(s, 32) == s,
        s.len() > 32 ==> right_padded(s, 32) == s.take(32),
        s.len() < 32 ==> right_padded(s, 32) == s + Seq::new((32 - s.len()) as nat, |i: int| 0u8),
{
    if s.len() == 32 {
        assert(right_padded(s, 32) =~= s);
    } else if s.len() > 32 {
        assert(right_padded(s, 32) =~= s.take(32));
    } else {
        assert(right_padded(s, 32) =~= s + Seq::new((32 - s.len()) as nat, |i: int| 0u8));
    }
}

/// Bytes are a point of the curve where they are two field elements, most significant byte first,
/// with `y^2 = x^3 + 3`; 64 zero bytes are infinity. Whether they are field elements is looked at
/// before whether they are a point.
pub open spec fn is_g1_read(input: Seq<u8>, point: Result<G1View, Bn254Error>) -> bool {
    let x = be_nat(input.take(32));
    let y = be_nat(input.skip(32));
    if input.len() != 64 || x >= field_size() || y >= field_size() {
        point is Err && point->Err_0 is InvalidFieldElement
    } else if x == 0 && y == 0 {
        point == Ok::<G1View, Bn254Error>(G1View::Infinity)
    } else if (y * y) % field_size() == (x * x * x + 3) % field_size() {
        point == Ok::<G1View, Bn254Error>(G1View::Affine(x, y))
    } else {
        point is Err && point->Err_0 is InvalidPoint
    }
}

/// Points of the curve are read from their two coordinates.
pub proof fn points_are_read_from_their_coordinates(
    input: &[u8],
    out: Result<G1Point, Bn254Error>,
    x: Fq,
    y: Fq,
    made: Result<G1Point, Bn254Error>,
)
    requires
        call_ensures(read_g1_point, (input,), out),
        call_ensures(new_g1_point, (x, y), made),
    ensures
        is_g1_read(input@, decoded_g1(input@)),
        match decoded_g1(input@) {
            Ok(G1View::Infinity) => out is Ok && out->Ok_0 is Infinity,
            Ok(G1View::Affine(x, y)) => {
                &&& out is Ok
                &&& out->Ok_0 is Affine
                &&& out->Ok_0->Affine_0@ == x
                &&& out->Ok_0->Affine_1@ == y
            },
            Err(err) => out is Err && out->Err_0 == err,
        },
        if x@ == 0 && y@ == 0 {
            made is Ok && made->Ok_0 is Infinity
        } else if (y@ * y@) % field_size() == (x@ * x@ * x@ + 3) % field_size() {
            made is Ok && made->Ok_0@ == G1View::Affine(x@, y@)
        } else {
            made is Err && made->Err_0 is InvalidPoint
        },
{
    lemma_is_g1_read(input@);
}

/// What is read is a point of the curve.
pub proof fn lemma_is_g1_read(input: Seq<u8>)
    ensures
        is_g1_read(input, decoded_g1(input)),
{
    if input.len() == 64 {
        assert(input.subrange(0, 32) =~= input.take(32));
        assert(input.subrange(32, 64) =~= input.skip(32));
    }
}

/// Arithmetic in the extension: the parts are added one by one, and `u` times `u` is minus one. The
/// number in the equation of the twist is three divided by `u + 9`.
pub proof fn extension_arithmetic(a: (nat, nat), b: (nat, nat))
    ensures
        fq2_sum(a, b).0 == (a.0 + b.0) % field_size(),
        fq2_sum(a, b).1 == (a.1 + b.1) % field_size(),
        fq2_product(a, b).0 == (a.0 * b.0 - a.1 * b.1) % field_size() as int,
        fq2_product(a, b).1 == (a.0 * b.1 + a.1 * b.0) % field_size(),
        fq2_product(twist_coefficient(), (9, 1)) == (3nat, 0nat),
        on_twist(a, b) <==> fq2_product(b, b) == fq2_sum(
            fq2_product(fq2_product(a, a), a),
            twist_coefficient(),
        ),
{
    let p = field_size() as int;
    let (c0, c1) = twist_coefficient();
    assert(c0 * 9 - c1 * 1 == p * 8 + 3);
    assert(c0 * 1 + c1 * 9 == p * 1 + 0);
    lemma_mod_multiples_vanish(8, 3, p);
    lemma_mod_multiples_vanish(1, 0, p);
    lemma_small_mod(3, field_size());
    lemma_small_mod(0, field_size());
}

/// Bytes are a point of the twist where they are four field elements, in each coordinate the factor
/// of `u` first, that fulfil its equation and lie in the subgroup; 128 zero bytes are infinity.
pub proof fn points_of_the_twist_are_read_from_their_coordinates(
    input: &[u8],
    out: Result<G2Point, Bn254Error>,
)
    requires
        call_ensures(read_g2_point, (input,), out),
    ensures
        ({
            let x1 = be_nat(input@.subrange(0, 32));
            let x0 = be_nat(input@.subrange(32, 64));
            let y1 = be_nat(input@.subrange(64, 96));
            let y0 = be_nat(input@.subrange(96, 128));
            let p = field_size();
            if input@.len() != 128 || x0 >= p || x1 >= p || y0 >= p || y1 >= p {
                out is Err && out->Err_0 is InvalidFieldElement
            } else if x0 == 0 && x1 == 0 && y0 == 0 && y1 == 0 {
                out is Ok && out->Ok_0 is Infinity
            } else if on_twist((x0, x1), (y0, y1)) && in_twist_subgroup((x0, x1), (y0, y1)) {
                &&& out is Ok
                &&& out->Ok_0 is Affine
                &&& out->Ok_0->Affine_0.c0@ == x0
                &&& out->Ok_0->Affine_0.c1@ == x1
                &&& out->Ok_0->Affine_1.c0@ == y0
                &&& out->Ok_0->Affine_1.c1@ == y1
            } else {
                out is Err && out->Err_0 is InvalidPoint
            }
        }),
        match decoded_g2(input@) {
            Ok(G2View::Infinity) => out is Ok && out->Ok_0 is Infinity,
            Ok(G2View::Affine(x, y)) => {
                &&& out is Ok
                &&& out->Ok_0 is Affine
                &&& (out->Ok_0->Affine_0.c0@, out->Ok_0->Affine_0.c1@) == x
                &&& (out->Ok_0->Affine_1.c0@, out->Ok_0->Affine_1.c1@) == y
            },
            Err(err) => out is Err && out->Err_0 == err,
        },
{
    if input@.len() == 128 {
        let x = input@.subrange(0, 64);
        let y = input@.subrange(64, 128);
        assert(x.subrange(0, 32) =~= input@.subrange(0, 32));
        assert(x.subrange(32, 64) =~= input@.subrange(32, 64));
        assert(y.subrange(0, 32) =~= input@.subrange(64, 96));
        assert(y.subrange(32, 64) =~= input@.subrange(96, 128));
    }
}

/// Points are handed to the backend with their own coordinates, as numbers whose least significant
/// byte comes first, and infinity as such.
pub proof fn points_are_handed_on_unchanged(
    point: &G1Point,
    operand: G1Operand,
    twisted: &G2Point,
    twisted_operand: G2Operand,
)
    requires
        call_ensures(ark_g1_to_icicle, (point,), operand),
        call_ensures(ark_g2_to_icicle, (twisted,), twisted_operand),
    ensures
        match *point {
            G1Point::Infinity => operand is Zero,
            G1Point::Affine(x, y) => match operand {
                G1Operand::Affine { x: a, y: b } => le_nat(a@) == x@ && le_nat(b@) == y@,
                G1Operand::Zero => false,
            },
        },
        match *twisted {
            G2Point::Infinity => twisted_operand is Zero,
            G2Point::Affine(x, y) => match twisted_operand {
                G2Operand::Affine { x: a, y: b } => {
                    &&& le_nat(a@.take(32)) == x.c0@
                    &&& le_nat(a@.skip(32)) == x.c1@
                    &&& le_nat(b@.take(32)) == y.c0@
                    &&& le_nat(b@.skip(32)) == y.c1@
                },
                G2Operand::Zero => false,
            },
        },
{
}

/// The bytes are those of the point: its coordinates, most significant byte first, or zeros for
/// infinity.
pub open spec fn is_written(bytes: Seq<u8>, point: G1View) -> bool {
    &&& bytes.len() == 64
    &&& match point {
        G1View::Infinity => forall|i: int| 0 <= i < 64 ==> #[trigger] bytes[i] == 0,
        G1View::Affine(x, y) => be_nat(bytes.take(32)) == x && be_nat(bytes.skip(32)) == y,
    }
}

/// The backend's reply is the point: its coordinates in 32 bytes each, least significant byte
/// first, or infinity.
pub open spec fn is_reply(reply: G1Reply, point: G1View) -> bool {
    match (reply, point) {
        (G1Reply::Zero, G1View::Infinity) => true,
        (G1Reply::Affine { x, y }, G1View::Affine(a, b)) => {
            &&& x@.len() == 32
            &&& y@.len() == 32
            &&& le_nat(x@) == a
            &&& le_nat(y@) == b
        },
        _ => false,
    }
}

/// The bytes of the backend's reply are those of the point that it is.
proof fn lemma_reply_is_written(reply: G1Reply, point: G1View)
    requires
        is_reply(reply, point),
    ensures
        is_written(encoded_g1(reply@), point),
{
    let bytes = encoded_g1(reply@);
    if let G1Reply::Affine { x, y } = reply {
        lemma_padded(x@);
        lemma_padded(y@);
        assert(bytes == x@.reverse() + y@.reverse());
        assert(bytes.take(32) =~= x@.reverse());
        assert(bytes.skip(32) =~= y@.reverse());
        assert(x@.reverse().reverse() =~= x@);
        assert(y@.reverse().reverse() =~= y@);
    }
}

/// The backend's reply is written as the point that it is.
pub proof fn replies_are_written_as_their_points(reply: &G1Reply, point: G1View, output: [u8; 64])
    requires
        is_reply(*reply, point),
        call_ensures(encode_g1_point, (reply,), output),
    ensures
        is_written(output@, point),
{
    lemma_reply_is_written(*reply, point);
}

/// The backend gives sums of points.
pub open spec fn gives_sums<F>(adder: F, sum: spec_fn(G1View, G1View) -> G1View) -> bool where
    F: Fn(G1Operand, G1Operand) -> G1Reply,
 {
    forall|left: G1Operand, right: G1Operand, reply: G1Reply| #[trigger]
        call_ensures(adder, (left, right), reply) && is_g1(left@) && is_g1(right@) ==> is_reply(
            reply,
            sum(left@, right@),
        )
}

/// The backend gives multiples of points, for a scalar whose least significant byte comes first.
pub open spec fn gives_multiples<F>(
    multiplier: F,
    multiple: spec_fn(G1View, nat) -> G1View,
) -> bool where F: Fn(G1Operand, [u8; 32]) -> G1Reply {
    forall|operand: G1Operand, scalar: [u8; 32], reply: G1Reply| #[trigger]
        call_ensures(multiplier, (operand, scalar), reply) && is_g1(operand@) ==> is_reply(
            reply,
            multiple(operand@, le_nat(scalar@)),
        )
}

/// The outcome is the error of the first of the two points that cannot be read, and otherwise the
/// bytes of the result.
pub open spec fn is_sum_written(
    p: Seq<u8>,
    q: Seq<u8>,
    sum: spec_fn(G1View, G1View) -> G1View,
    out: Result<[u8; 64], Bn254Error>,
) -> bool {
    match (decoded_g1(p), decoded_g1(q)) {
        (Err(err), _) => out is Err && out->Err_0 == err,
        (Ok(_), Err(err)) => out is Err && out->Err_0 == err,
        (Ok(a), Ok(b)) => out is Ok && is_written(out->Ok_0@, sum(a, b)),
    }
}

/// What an addition gives with a backend that gives sums.
pub proof fn lemma_sum_is_written<F>(
    p: Seq<u8>,
    q: Seq<u8>,
    adder: F,
    sum: spec_fn(G1View, G1View) -> G1View,
    out: Result<[u8; 64], Bn254Error>,
) where F: Fn(G1Operand, G1Operand) -> G1Reply
    requires
        gives_sums(adder, sum),
        is_sum(p, q, adder, out),
    ensures
        is_sum_written(p, q, sum, out),
{
    if let (Ok(a), Ok(b)) = (decoded_g1(p), decoded_g1(q)) {
        let (left, right, reply) = choose|left: G1Operand, right: G1Operand, reply: G1Reply|
            {
                &&& left@ == a
                &&& right@ == b
                &&& #[trigger] call_ensures(adder, (left, right), reply)
                &&& out->Ok_0@ == encoded_g1(reply@)
            };
        lemma_decoded_is_g1(p);
        lemma_decoded_is_g1(q);
        lemma_reply_is_written(reply, sum(a, b));
    }
}

/// Adding gives the bytes of the sum of the two points, or refuses the first one that is none.
/// Without a backend nothing is read.
pub proof fn adding_gives_the_sum<F>(
    p: &[u8],
    q: &[u8],
    adder: &F,
    sum: spec_fn(G1View, G1View) -> G1View,
    out: Result<[u8; 64], Bn254Error>,
    without: Result<[u8; 64], Bn254Error>,
) where F: Fn(G1Operand, G1Operand) -> G1Reply
    requires
        gives_sums(*adder, sum),
        call_ensures(bn254_g1_add::<F>, (p, q, Some(adder)), out) || call_ensures(
            g1_add::<F>,
            (p, q, adder),
            out,
        ),
        call_ensures(bn254_g1_add::<F>, (p, q, None), without),
    ensures
        is_sum_written(p@, q@, sum, out),
        without is Err,
        without->Err_0 is Backend,
        without->Err_0->Backend_0@ == "icicle feature not enabled"@,
{
    lemma_sum_is_written(p@, q@, *adder, sum, out);
}

/// The scalar that is read from bytes: most significant byte first, with zeros for those that are
/// missing behind the others, and cut off after 32.
pub open spec fn scalar_number(scalar: Seq<u8>) -> nat {
    if scalar.len() >= 32 {
        be_nat(scalar.take(32))
    } else {
        be_nat(scalar + Seq::new((32 - scalar.len()) as nat, |i: int| 0u8))
    }
}

/// The outcome is the error of a point that cannot be read, and otherwise the bytes of the
/// multiple.
pub open spec fn is_multiple_written(
    point: Seq<u8>,
    scalar: Seq<u8>,
    multiple: spec_fn(G1View, nat) -> G1View,
    out: Result<[u8; 64], Bn254Error>,
) -> bool {
    match decoded_g1(point) {
        Err(err) => out is Err && out->Err_0 == err,
        Ok(a) => out is Ok && is_written(out->Ok_0@, multiple(a, scalar_number(scalar))),
    }
}

/// What a multiplication gives with a backend that gives multiples.
pub proof fn lemma_multiple_is_written<F>(
    point: Seq<u8>,
    scalar: Seq<u8>,
    multiplier: F,
    multiple: spec_fn(G1View, nat) -> G1View,
    out: Result<[u8; 64], Bn254Error>,
) where F: Fn(G1Operand, [u8; 32]) -> G1Reply
    requires
        gives_multiples(multiplier, multiple),
        is_multiple(point, scalar, multiplier, out),
    ensures
        is_multiple_written(point, scalar, multiple, out),
{
    if let Ok(a) = decoded_g1(point) {
        let (operand, scalar_le, reply) = choose|
            operand: G1Operand,
            scalar_le: [u8; 32],
            reply: G1Reply,
        |
            {
                &&& operand@ == a
                &&& scalar_le@ == right_padded(scalar, SCALAR_LEN as nat).reverse()
                &&& #[trigger] call_ensures(multiplier, (operand, scalar_le), reply)
                &&& out->Ok_0@ == encoded_g1(reply@)
            };
        lemma_padded(scalar);
        if scalar.len() == 32 {
            assert(scalar.take(32) =~= scalar);
        }
        assert(le_nat(scalar_le@) == scalar_number(scalar));
        lemma_decoded_is_g1(point);
        lemma_reply_is_written(reply, multiple(a, scalar_number(scalar)));
    }
}

/// Multiplying gives the bytes of the multiple of the point, or refuses bytes that are no point.
/// Without a backend nothing is read.
pub proof fn multiplying_gives_the_multiple<F>(
    point: &[u8],
    scalar: &[u8],
    multiplier: &F,
    multiple: spec_fn(G1View, nat) -> G1View,
    out: Result<[u8; 64], Bn254Error>,
    without: Result<[u8; 64], Bn254Error>,
) where F: Fn(G1Operand, [u8; 32]) -> G1Reply
    requires
        gives_multiples(*multiplier, multiple),
        call_ensures(bn254_g1_mul::<F>, (point, scalar, Some(multiplier)), out) || call_ensures(
            g1_mul::<F>,
            (point, scalar, multiplier),
            out,
        ),
        call_ensures(bn254_g1_mul::<F>, (point, scalar, None), without),
    ensures
        is_multiple_written(point@, scalar@, multiple, out),
        without is Err,
        without->Err_0 is Backend,
        without->Err_0->Backend_0@ == "icicle feature not enabled"@,
{
    lemma_multiple_is_written(point@, scalar@, *multiplier, multiple, out);
}

/// The outcome of a check of the pairs: the error of the first pair that cannot be read, of its
/// first point before its second, and otherwise whether the product of all the pairings is the
/// neutral element.
pub open spec fn is_checked<T>(
    pairs: Seq<(Seq<u8>, Seq<u8>)>,
    one: T,
    pairing: spec_fn(G1View, G2View) -> T,
    product: spec_fn(T, T) -> T,
    out: Result<bool, Bn254Error>,
) -> bool {
    &&& (forall|i: int| 0 <= i < pairs.len() ==> is_pair(#[trigger] pairs[i])) ==> out == Ok::<
        bool,
        Bn254Error,
    >(pairing_product(one, pairing, product, pairs) == one)
    &&& forall|i: int|
        0 <= i < pairs.len() && !is_pair(pairs[i]) && (forall|j: int|
            0 <= j < i ==> is_pair(#[trigger] pairs[j])) ==> out is Err && out->Err_0 == (
        match #[trigger] decoded_g1(pairs[i].0) {
            Err(err) => err,
            Ok(_) => decoded_g2(pairs[i].1)->Err_0,
        })
}

/// What a check gives with a backend that computes a pairing.
pub proof fn lemma_is_checked<T, P, M, E>(
    pairs: Seq<(Seq<u8>, Seq<u8>)>,
    backend: PairingBackend<T, P, M, E>,
    pairing: spec_fn(G1View, G2View) -> T,
    product: spec_fn(T, T) -> T,
    out: Result<bool, Bn254Error>,
) where
    P: Fn(G1Operand, G2Operand) -> Result<T, String>,
    M: Fn(T, T) -> T,
    E: Fn(&T) -> bool,

    requires
        pairs_with(backend, pairing, product),
        is_pairing_result(pairs, backend, out),
    ensures
        is_checked(pairs, backend.one, pairing, product, out),
{
    if forall|i: int| 0 <= i < pairs.len() ==> is_pair(#[trigger] pairs[i]) {
        pairing_check_tells_the_product(pairs, backend, pairing, product, out);
    }
    let steps = choose|steps: Seq<PairingProgress<T>>|
        run_ends_with(pairs, backend, steps, out);
    assert forall|i: int|
        0 <= i < pairs.len() && !is_pair(pairs[i]) && (forall|j: int|
            0 <= j < i ==> is_pair(#[trigger] pairs[j])) implies out is Err && out->Err_0 == (
    match #[trigger] decoded_g1(pairs[i].0) {
        Err(err) => err,
        Ok(_) => decoded_g2(pairs[i].1)->Err_0,
    }) by {
        malformed_pairs_fail(pairs, backend, out, i);
        let f = steps.len() - 1;
        if f < i {
            assert(is_pair(pairs[f]));
            lemma_decoded_are_points(pairs[f]);
            assert(pair_fails(pairs[f], backend, out->Err_0));
        } else if f > i {
            assert(pair_counts(pairs[i], backend, steps[i], steps[i + 1]));
        }
    }
}

/// A pairing check is one of all the pairs that it is given, in their order. Without a backend
/// nothing is read.
pub proof fn pairing_checks_take_all_pairs<T, P, M, E>(
    pairs: &[(&[u8], &[u8])],
    views: Seq<(Seq<u8>, Seq<u8>)>,
    backend: PairingBackend<T, P, M, E>,
    pairing: spec_fn(G1View, G2View) -> T,
    product: spec_fn(T, T) -> T,
    out: Result<bool, Bn254Error>,
    without: Result<bool, Bn254Error>,
) where
    P: Fn(G1Operand, G2Operand) -> Result<T, String>,
    M: Fn(T, T) -> T,
    E: Fn(&T) -> bool,

    requires
        pairs_with(backend, pairing, product),
        views.len() == pairs@.len(),
        forall|i: int|
            0 <= i < pairs@.len() ==> (#[trigger] views[i]).0 == pairs@[i].0@ && views[i].1
                == pairs@[i].1@,
        call_ensures(bn254_pairing_check::<T, P, M, E>, (pairs, Some(backend)), out)
            || call_ensures(pairing_check::<T, P, M, E>, (pairs, backend), out),
        call_ensures(bn254_pairing_check::<T, P, M, E>, (pairs, None), without),
    ensures
        is_checked(views, backend.one, pairing, product, out),
        without is Err,
        without->Err_0 is Backend,
        without->Err_0->Backend_0@ == "icicle feature not enabled"@,
{
    assert(pair_views(pairs@) =~= views) by {
        assert forall|i: int| 0 <= i < views.len() implies pair_views(pairs@)[i] == views[i] by {
            assert(views[i].0 == pairs@[i].0@);
        }
    }
    lemma_is_checked(views, backend, pairing, product, out);
}

/// Each error has its own text, and a backend's error the backend's reason.
pub proof fn errors_have_their_texts(error: &Bn254Error, text: String)
    requires
        call_ensures(Bn254Error::message, (error,), text),
    ensures
        *error is InvalidFieldElement ==> text@ == "bn254 invalid field element"@,
        *error is InvalidPoint ==> text@ == "bn254 invalid curve point"@,
        *error is Backend ==> text@ == "bn254 backend error: "@ + error->Backend_0@,
{
}

/// A point of the twist is made of its coordinates: infinity of zeros, a point of the subgroup where
/// they fulfil the equation, and none otherwise.
pub proof fn points_of_the_twist_are_made_of_coordinates(
    x: Fq2,
    y: Fq2,
    made: Result<G2Point, Bn254Error>,
)
    requires
        call_ensures(new_g2_point, (x, y), made),
    ensures
        ({
            let a = (x.c0@, x.c1@);
            let b = (y.c0@, y.c1@);
            if x.c0@ == 0 && x.c1@ == 0 && y.c0@ == 0 && y.c1@ == 0 {
                made is Ok && made->Ok_0 is Infinity
            } else if on_twist(a, b) && in_twist_subgroup(a, b) {
                &&& made is Ok
                &&& made->Ok_0@ == G2View::Affine(a, b)
            } else {
                made is Err && made->Err_0 is InvalidPoint
            }
        }),
{
}

/// A coordinate that the backend gives in more or fewer bytes than 32 is cut off or filled up with
/// zeros at its most significant end.
pub proof fn replies_of_any_length_are_written(reply: &G1Reply, output: [u8; 64])
    requires
        call_ensures(encode_g1_point, (reply,), output),
    ensures
        match *reply {
            G1Reply::Zero => forall|i: int| 0 <= i < 64 ==> #[trigger] output@[i] == 0,
            G1Reply::Affine { x, y } => {
                &&& be_nat(output@.take(32)) == reply_number(x@)
                &&& be_nat(output@.skip(32)) == reply_number(y@)
            },
        },
{
    if let G1Reply::Affine { x, y } = *reply {
        lemma_padded(x@);
        lemma_padded(y@);
        let a = right_padded(x@, 32);
        let b = right_padded(y@, 32);
        if x@.len() == 32 {
            assert(x@.take(32) =~= x@);
        }
        if y@.len() == 32 {
            assert(y@.take(32) =~= y@);
        }
        assert(output@.take(32) =~= a.reverse());
        assert(output@.skip(32) =~= b.reverse());
        assert(a.reverse().reverse() =~= a);
        assert(b.reverse().reverse() =~= b);
    }
}

/// The number that a coordinate of the backend counts as.
pub open spec fn reply_number(bytes: Seq<u8>) -> nat {
    if bytes.len() >= 32 {
        le_nat(bytes.take(32))
    } else {
        le_nat(bytes + Seq::new((32 - bytes.len()) as nat, |i: int| 0u8))
    }
}

/// With a backend that fails on every pair, a check ends with the first pair that is not trivial:
/// with its error where it cannot be read, and with the backend's reason where it can. Where all
/// pairs are trivial the backend is not asked.
pub proof fn failing_backend_fails_the_check<T, P, M, E>(
    pairs: &[(&[u8], &[u8])],
    views: Seq<(Seq<u8>, Seq<u8>)>,
    backend: PairingBackend<T, P, M, E>,
    reason: String,
    out: Result<bool, Bn254Error>,
    first: int,
) where
    P: Fn(G1Operand, G2Operand) -> Result<T, String>,
    M: Fn(T, T) -> T,
    E: Fn(&T) -> bool,

    requires
        views.len() == pairs@.len(),
        forall|i: int|
            0 <= i < pairs@.len() ==> (#[trigger] views[i]).0 == pairs@[i].0@ && views[i].1
                == pairs@[i].1@,
        forall|left: G1Operand, right: G2Operand, reply: Result<T, String>| #[trigger]
            call_ensures(backend.pair, (left, right), reply) ==> reply == Err::<T, String>(reason),
        call_ensures(bn254_pairing_check::<T, P, M, E>, (pairs, Some(backend)), out),
        0 <= first <= views.len(),
        forall|i: int| 0 <= i < first ==> is_trivial_pair(#[trigger] views[i]),
        first < views.len() ==> !is_trivial_pair(views[first]),
    ensures
        first == views.len() ==> out == Ok::<bool, Bn254Error>(true),
        first < views.len() ==> out is Err && match (
            decoded_g1(views[first].0),
            decoded_g2(views[first].1),
        ) {
            (Err(err), _) => out->Err_0 == err,
            (Ok(_), Err(err)) => out->Err_0 == err,
            (Ok(_), Ok(_)) => out->Err_0 == Bn254Error::Backend(reason),
        },
{
    assert(pair_views(pairs@) =~= views) by {
        assert forall|i: int| 0 <= i < views.len() implies pair_views(pairs@)[i] == views[i] by {
            assert(views[i].0 == pairs@[i].0@);
        }
    }
    if first == views.len() {
        trivial_pairs_check(views, backend, out);
    } else {
        let steps = choose|steps: Seq<PairingProgress<T>>|
            run_ends_with(views, backend, steps, out);
        let f = steps.len() - 1;
        if f > first {
            assert(pair_counts(views[first], backend, steps[first], steps[first + 1]));
        } else if f < first {
            assert(is_trivial_pair(views[f]));
        }
    }
}

} // verus!
