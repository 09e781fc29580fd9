//! The points of the curve and of its twist, as they are read from bytes.

use crate::bn254::Bn254Error;
use crate::bn254::field::FQ2_LEN;
use crate::bn254::field::FQ_LEN;
use crate::bn254::field::Fq;
use crate::bn254::field::Fq2;
use crate::bn254::field::extension_element;
use crate::bn254::field::field_element;
use crate::bn254::field::fq_to_bytes_le;
use crate::bn254::field::modulus;
use crate::bn254::field::read_fq;
use crate::bn254::field::read_fq2;
use crate::bytes::le_nat;
use ark_ff::PrimeField;
use vstd::prelude::*;
use vstd::slice::slice_subrange;

verus! {

/// Length of a point of the curve in bytes.
pub const G1_LEN: usize = 64;

/// Length of a point of the twist in bytes.
pub const G2_LEN: usize = 128;

/// A point of the curve as numbers.
pub enum G1View {
    /// The point at infinity.
    Infinity,
    /// The point with these coordinates.
    Affine(nat, nat),
}

/// A point of the twist as numbers, the part without `u` first.
pub enum G2View {
    /// The point at infinity.
    Infinity,
    /// The point with these coordinates.
    Affine((nat, nat), (nat, nat)),
}

/// The coordinates are those of a point of the curve `y^2 = x^3 + 3`.
pub open spec fn on_curve(x: nat, y: nat) -> bool {
    (y * y) % modulus() == (x * x * x + 3) % modulus()
}

/// The sum in the extension.
pub open spec fn fq2_sum(a: (nat, nat), b: (nat, nat)) -> (nat, nat) {
    ((a.0 + b.0) % modulus(), (a.1 + b.1) % modulus())
}

/// The product in the extension, where `u * u` is `-1`.
pub open spec fn fq2_product(a: (nat, nat), b: (nat, nat)) -> (nat, nat) {
    (
        ((a.0 * b.0 - a.1 * b.1) % modulus() as int) as nat,
        (a.0 * b.1 + a.1 * b.0) % modulus(),
    )
}

/// The number that is added in the equation of the twist: `3 / (u + 9)`.
pub open spec fn twist_coefficient() -> (nat, nat) {
    (
        19485874751759354771024239261021720505790618469301721065564631296452457478373nat,
        266929791119991161246907387137283842545076965332900288569378510910307636690nat,
    )
}

/// The coordinates are those of a point of the twist `y^2 = x^3 + 3 / (u + 9)`.
pub open spec fn on_twist(x: (nat, nat), y: (nat, nat)) -> bool {
    fq2_product(y, y) == fq2_sum(fq2_product(fq2_product(x, x), x), twist_coefficient())
}

/// What `is_in_correct_subgroup_assuming_on_curve` of `ark_bn254::G2Affine` gives for the point
/// of the twist with these coordinates, the part without `u` first: whether it is in the subgroup
/// of prime order.
pub uninterp spec fn in_twist_subgroup(x: (nat, nat), y: (nat, nat)) -> bool;

/// `is_on_curve` of `ark_bn254::G1Affine`: whether the coordinates, least significant byte first,
/// are those of a point of the curve.
#[verifier::external_body]
fn g1_is_on_curve(x_le: &[u8; 32], y_le: &[u8; 32]) -> (yes: bool)
    requires
        le_nat(x_le@) < modulus(),
        le_nat(y_le@) < modulus(),
    ensures
        yes == on_curve(le_nat(x_le@), le_nat(y_le@)),
{
    let x = ark_bn254::Fq::from_le_bytes_mod_order(&x_le[..]);
    let y = ark_bn254::Fq::from_le_bytes_mod_order(&y_le[..]);
    ark_bn254::G1Affine::new_unchecked(x, y).is_on_curve()
}

/// `is_in_correct_subgroup_assuming_on_curve` of `ark_bn254::G1Affine`: whether a point of the
/// curve, coordinates least significant byte first, is in the subgroup of prime order. All of
/// them are.
#[verifier::external_body]
fn g1_is_in_subgroup(x_le: &[u8; 32], y_le: &[u8; 32]) -> (yes: bool)
    requires
        le_nat(x_le@) < modulus(),
        le_nat(y_le@) < modulus(),
        on_curve(le_nat(x_le@), le_nat(y_le@)),
    ensures
        yes,
{
    let x = ark_bn254::Fq::from_le_bytes_mod_order(&x_le[..]);
    let y = ark_bn254::Fq::from_le_bytes_mod_order(&y_le[..]);
    ark_bn254::G1Affine::new_unchecked(x, y).is_in_correct_subgroup_assuming_on_curve()
}

/// `is_on_curve` of `ark_bn254::G2Affine`: whether the coordinates, least significant byte first
/// and the part without `u` before the other, are those of a point of the twist.
#[verifier::external_body]
fn g2_is_on_curve(
    x0_le: &[u8; 32],
    x1_le: &[u8; 32],
    y0_le: &[u8; 32],
    y1_le: &[u8; 32],
) -> (yes: bool)
    requires
        le_nat(x0_le@) < modulus(),
        le_nat(x1_le@) < modulus(),
        le_nat(y0_le@) < modulus(),
        le_nat(y1_le@) < modulus(),
    ensures
        yes == on_twist(
            (le_nat(x0_le@), le_nat(x1_le@)),
            (le_nat(y0_le@), le_nat(y1_le@)),
        ),
{
    let x0 = ark_bn254::Fq::from_le_bytes_mod_order(&x0_le[..]);
    let x1 = ark_bn254::Fq::from_le_bytes_mod_order(&x1_le[..]);
    let y0 = ark_bn254::Fq::from_le_bytes_mod_order(&y0_le[..]);
    let y1 = ark_bn254::Fq::from_le_bytes_mod_order(&y1_le[..]);
    let x = ark_bn254::Fq2::new(x0, x1);
    let y = ark_bn254::Fq2::new(y0, y1);
    ark_bn254::G2Affine::new_unchecked(x, y).is_on_curve()
}

/// `is_in_correct_subgroup_assuming_on_curve` of `ark_bn254::G2Affine`: whether a point of the
/// twist, coordinates least significant byte first and the part without `u` before the other, is
/// in the subgroup of prime order.
#[verifier::external_body]
fn g2_is_in_subgroup(
    x0_le: &[u8; 32],
    x1_le: &[u8; 32],
    y0_le: &[u8; 32],
    y1_le: &[u8; 32],
) -> (yes: bool)
    requires
        le_nat(x0_le@) < modulus(),
        le_nat(x1_le@) < modulus(),
        le_nat(y0_le@) < modulus(),
        le_nat(y1_le@) < modulus(),
        on_twist((le_nat(x0_le@), le_nat(x1_le@)), (le_nat(y0_le@), le_nat(y1_le@))),
    ensures
        yes == in_twist_subgroup(
            (le_nat(x0_le@), le_nat(x1_le@)),
            (le_nat(y0_le@), le_nat(y1_le@)),
        ),
{
    let x0 = ark_bn254::Fq::from_le_bytes_mod_order(&x0_le[..]);
    let x1 = ark_bn254::Fq::from_le_bytes_mod_order(&x1_le[..]);
    let y0 = ark_bn254::Fq::from_le_bytes_mod_order(&y0_le[..]);
    let y1 = ark_bn254::Fq::from_le_bytes_mod_order(&y1_le[..]);
    let x = ark_bn254::Fq2::new(x0, x1);
    let y = ark_bn254::Fq2::new(y0, y1);
    ark_bn254::G2Affine::new_unchecked(x, y).is_in_correct_subgroup_assuming_on_curve()
}

/// A point of the curve.
#[derive(Clone, Copy)]
pub enum G1Point {
    /// The point at infinity.
    Infinity,
    /// The point with these coordinates.
    Affine(Fq, Fq),
}

impl View for G1Point {
    type V = G1View;

    open spec fn view(&self) -> G1View {
        match self {
            G1Point::Infinity => G1View::Infinity,
            G1Point::Affine(x, y) => G1View::Affine(x@, y@),
        }
    }
}

/// A point of the twist.
#[derive(Clone, Copy)]
pub enum G2Point {
    /// The point at infinity.
    Infinity,
    /// The point with these coordinates.
    Affine(Fq2, Fq2),
}

impl View for G2Point {
    type V = G2View;

    open spec fn view(&self) -> G2View {
        match self {
            G2Point::Infinity => G2View::Infinity,
            G2Point::Affine(x, y) => G2View::Affine((x.c0@, x.c1@), (y.c0@, y.c1@)),
        }
    }
}

/// The point of the curve with these coordinates, where `(0, 0)` stands for infinity.
pub open spec fn g1_point(x: nat, y: nat) -> Option<G1View> {
    if x == 0 && y == 0 {
        Some(G1View::Infinity)
    } else if on_curve(x, y) {
        Some(G1View::Affine(x, y))
    } else {
        None
    }
}

/// The point of the twist with these coordinates, where `(0, 0)` stands for infinity.
pub open spec fn g2_point(x: (nat, nat), y: (nat, nat)) -> Option<G2View> {
    if x == (0nat, 0nat) && y == (0nat, 0nat) {
        Some(G2View::Infinity)
    } else if on_twist(x, y) && in_twist_subgroup(x, y) {
        Some(G2View::Affine(x, y))
    } else {
        None
    }
}

/// The point of the curve that bytes stand for.
pub open spec fn decoded_g1(input: Seq<u8>) -> Result<G1View, Bn254Error> {
    if input.len() != G1_LEN {
        Err(Bn254Error::InvalidFieldElement)
    } else {
        match (
            field_element(input.subrange(0, FQ_LEN as int)),
            field_element(input.subrange(FQ_LEN as int, G1_LEN as int)),
        ) {
            (Some(x), Some(y)) => match g1_point(x, y) {
                Some(point) => Ok(point),
                None => Err(Bn254Error::InvalidPoint),
            },
            _ => Err(Bn254Error::InvalidFieldElement),
        }
    }
}

/// The point of the twist that bytes stand for.
pub open spec fn decoded_g2(input: Seq<u8>) -> Result<G2View, Bn254Error> {
    if input.len() != G2_LEN {
        Err(Bn254Error::InvalidFieldElement)
    } else {
        match (
            extension_element(input.subrange(0, FQ2_LEN as int)),
            extension_element(input.subrange(FQ2_LEN as int, G2_LEN as int)),
        ) {
            (Some(x), Some(y)) => match g2_point(x, y) {
                Some(point) => Ok(point),
                None => Err(Bn254Error::InvalidPoint),
            },
            _ => Err(Bn254Error::InvalidFieldElement),
        }
    }
}

/// The point of the curve with these coordinates, where `(0, 0)` stands for infinity.
pub fn new_g1_point(px: Fq, py: Fq) -> (out: Result<G1Point, Bn254Error>)
    ensures
        match g1_point(px@, py@) {
            Some(point) => out is Ok && out->Ok_0@ == point,
            None => out is Err && out->Err_0 is InvalidPoint,
        },
{
    if px.is_zero() && py.is_zero() {
        return Ok(G1Point::Infinity);
    }
    let x: [u8; 32] = fq_to_bytes_le(&px);
    let y: [u8; 32] = fq_to_bytes_le(&py);
    if !g1_is_on_curve(&x, &y) || !g1_is_in_subgroup(&x, &y) {
        return Err(Bn254Error::InvalidPoint);
    }
    Ok(G1Point::Affine(px, py))
}

/// The point of the twist with these coordinates, where `(0, 0)` stands for infinity.
pub fn new_g2_point(x: Fq2, y: Fq2) -> (out: Result<G2Point, Bn254Error>)
    ensures
        match g2_point((x.c0@, x.c1@), (y.c0@, y.c1@)) {
            Some(point) => out is Ok && out->Ok_0@ == point,
            None => out is Err && out->Err_0 is InvalidPoint,
        },
{
    if x.c0.is_zero() && x.c1.is_zero() && y.c0.is_zero() && y.c1.is_zero() {
        return Ok(G2Point::Infinity);
    }
    let x0: [u8; 32] = fq_to_bytes_le(&x.c0);
    let x1: [u8; 32] = fq_to_bytes_le(&x.c1);
    let y0: [u8; 32] = fq_to_bytes_le(&y.c0);
    let y1: [u8; 32] = fq_to_bytes_le(&y.c1);
    if !g2_is_on_curve(&x0, &x1, &y0, &y1) || !g2_is_in_subgroup(&x0, &x1, &y0, &y1) {
        return Err(Bn254Error::InvalidPoint);
    }
    Ok(G2Point::Affine(x, y))
}

/// Reads a point of the curve.
pub fn read_g1_point(input: &[u8]) -> (out: Result<G1Point, Bn254Error>)
    ensures
        match decoded_g1(input@) {
            Ok(point) => out is Ok && out->Ok_0@ == point,
            Err(err) => out == Err::<G1Point, Bn254Error>(err),
        },
{
    if input.len() != G1_LEN {
        return Err(Bn254Error::InvalidFieldElement);
    }
    let px: Fq = match read_fq(slice_subrange(input, 0, FQ_LEN)) {
        Ok(px) => px,
        Err(err) => return Err(err),
    };
    let py: Fq = match read_fq(slice_subrange(input, FQ_LEN, G1_LEN)) {
        Ok(py) => py,
        Err(err) => return Err(err),
    };
    new_g1_point(px, py)
}

/// Reads a point of the twist.
pub fn read_g2_point(input: &[u8]) -> (out: Result<G2Point, Bn254Error>)
    ensures
        match decoded_g2(input@) {
            Ok(point) => out is Ok && out->Ok_0@ == point,
            Err(err) => out == Err::<G2Point, Bn254Error>(err),
        },
{
    if input.len() != G2_LEN {
        return Err(Bn254Error::InvalidFieldElement);
    }
    let x: Fq2 = match read_fq2(slice_subrange(input, 0, FQ2_LEN)) {
        Ok(x) => x,
        Err(err) => return Err(err),
    };
    let y: Fq2 = match read_fq2(slice_subrange(input, FQ2_LEN, G2_LEN)) {
        Ok(y) => y,
        Err(err) => return Err(err),
    };
    new_g2_point(x, y)
}

} // verus!
