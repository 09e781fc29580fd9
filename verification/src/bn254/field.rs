//! The field that the coordinates of points are in.

use crate::bn254::Bn254Error;
use crate::bytes::be_nat;
use crate::bytes::le_nat;
use crate::bytes::reversed;
use crate::bytes::right_pad;
use crate::bytes::right_padded;
use ark_ff::BigInteger;
use ark_ff::PrimeField;
use ark_serialize::CanonicalDeserialize;
use vstd::prelude::*;
use vstd::slice::slice_subrange;

verus! {

/// Length of a field element in bytes.
pub const FQ_LEN: usize = 32;

/// Length of an element of the quadratic extension in bytes.
pub const FQ2_LEN: usize = 64;

/// Length of a scalar in bytes.
pub const SCALAR_LEN: usize = 32;

/// The number of elements of the field.
pub open spec fn modulus() -> nat {
    21888242871839275222246405745257275088696311157297823662689037894645226208583nat
}

/// `ark_serialize::SerializationError`: why bytes are no field element, carried through unread.
#[verifier::external_type_specification]
#[verifier::external_body]
pub struct ExSerializationError(ark_serialize::SerializationError);

/// `ark_bn254::Fq::deserialize_uncompressed` on 32 bytes, least significant byte first. It takes
/// every number below the modulus and refuses the others; the element that it gives is the number
/// that was read, here again as 32 bytes.
#[verifier::external_body]
fn deserialize_fq(input_le: &[u8; 32]) -> (out: Result<
    [u8; 32],
    ark_serialize::SerializationError,
>)
    ensures
        out is Ok <==> le_nat(input_le@) < modulus(),
        out is Ok ==> out->Ok_0@ == input_le@,
{
    let element = ark_bn254::Fq::deserialize_uncompressed(&input_le[..])?;
    let mut bytes = [0u8; 32];
    bytes.copy_from_slice(&element.into_bigint().to_bytes_le());
    Ok(bytes)
}

/// An element of the field.
#[derive(Clone, Copy)]
pub struct Fq {
    bytes: [u8; 32],
}

impl Fq {
    /// The bytes are those of a number below the modulus.
    #[verifier::type_invariant]
    spec fn well_formed(self) -> bool {
        le_nat(self.bytes@) < modulus()
    }
}

impl View for Fq {
    type V = nat;

    closed spec fn view(&self) -> nat {
        le_nat(self.bytes@)
    }
}

/// An element `c0 + c1 * u` of the quadratic extension of the field, where `u * u` is `-1`.
#[derive(Clone, Copy)]
pub struct Fq2 {
    /// The part without `u`.
    pub c0: Fq,
    /// The factor of `u`.
    pub c1: Fq,
}

/// The number that is read from bytes, most significant byte first, if it is below the modulus.
pub open spec fn field_element(input_be: Seq<u8>) -> Option<nat> {
    if input_be.len() == FQ_LEN && be_nat(input_be) < modulus() {
        Some(be_nat(input_be))
    } else {
        None
    }
}

/// The element of the extension that is read from bytes: the factor of `u` stands first.
pub open spec fn extension_element(input: Seq<u8>) -> Option<(nat, nat)> {
    if input.len() != FQ2_LEN {
        None
    } else {
        match (
            field_element(input.subrange(0, FQ_LEN as int)),
            field_element(input.subrange(FQ_LEN as int, FQ2_LEN as int)),
        ) {
            (Some(c1), Some(c0)) => Some((c0, c1)),
            _ => None,
        }
    }
}

impl Fq {
    /// Whether this is zero.
    pub fn is_zero(&self) -> (zero: bool)
        ensures
            zero == (self@ == 0),
    {
        let mut i: usize = 32;
        assert(self.bytes@.skip(32) =~= Seq::<u8>::empty());
        while i > 0
            invariant
                i <= 32,
                le_nat(self.bytes@.skip(i as int)) == 0,
            decreases i,
        {
            i -= 1;
            proof {
                lemma_zero_below(self.bytes@, i as int);
            }
            if self.bytes[i] != 0 {
                return false;
            }
        }
        assert(self.bytes@.skip(0) =~= self.bytes@);
        true
    }

    /// The element as bytes, least significant byte first.
    pub fn to_bytes_le(&self) -> (bytes: [u8; 32])
        ensures
            le_nat(bytes@) == self@,
            self@ < modulus(),
    {
        proof {
            use_type_invariant(self);
        }
        self.bytes
    }
}

/// A number is zero only if all its digits are.
proof fn lemma_zero_below(digits: Seq<u8>, i: int)
    requires
        0 <= i < digits.len(),
        le_nat(digits.skip(i + 1)) == 0,
    ensures
        le_nat(digits.skip(i)) == digits[i] as nat,
        digits[i] != 0 ==> le_nat(digits) != 0,
    decreases i,
{
    let rest = digits.skip(i);
    assert(rest.drop_first() =~= digits.skip(i + 1));
    if digits[i] != 0 {
        lemma_not_zero(digits, i);
    }
}

/// A number with a digit that is not zero is not zero.
proof fn lemma_not_zero(digits: Seq<u8>, i: int)
    requires
        0 <= i < digits.len(),
        digits[i] != 0,
    ensures
        le_nat(digits) != 0,
    decreases i,
{
    if i > 0 {
        lemma_not_zero(digits.drop_first(), i - 1);
    }
}

/// Reads a field element, most significant byte first.
pub fn read_fq(input_be: &[u8]) -> (out: Result<Fq, Bn254Error>)
    ensures
        match field_element(input_be@) {
            Some(value) => out is Ok && out->Ok_0@ == value,
            None => out is Err && out->Err_0 is InvalidFieldElement,
        },
{
    if input_be.len() != FQ_LEN {
        return Err(Bn254Error::InvalidFieldElement);
    }
    let input: [u8; 32] = right_pad::<32>(input_be);
    assert(input@ =~= input_be@);
    let input_le: [u8; 32] = reversed(&input);
    match deserialize_fq(&input_le) {
        Ok(bytes) => Ok(Fq { bytes }),
        Err(_) => Err(Bn254Error::InvalidFieldElement),
    }
}

/// Reads an element of the extension: the factor of `u` stands first.
pub fn read_fq2(input: &[u8]) -> (out: Result<Fq2, Bn254Error>)
    ensures
        match extension_element(input@) {
            Some(value) => out is Ok && (out->Ok_0.c0@, out->Ok_0.c1@) == value,
            None => out is Err && out->Err_0 is InvalidFieldElement,
        },
{
    if input.len() != FQ2_LEN {
        return Err(Bn254Error::InvalidFieldElement);
    }
    let y: Fq = match read_fq(slice_subrange(input, 0, FQ_LEN)) {
        Ok(y) => y,
        Err(err) => return Err(err),
    };
    let x: Fq = match read_fq(slice_subrange(input, FQ_LEN, FQ2_LEN)) {
        Ok(x) => x,
        Err(err) => return Err(err),
    };
    Ok(Fq2 { c0: x, c1: y })
}

/// Reads a scalar, most significant byte first; what is missing at the end is zero. The bytes of
/// the result are those of the scalar, least significant byte first.
pub fn read_scalar(input_be: &[u8]) -> (scalar_le: [u8; 32])
    ensures
        scalar_le@ == right_padded(input_be@, SCALAR_LEN as nat).reverse(),
{
    let padded: [u8; 32] = right_pad::<32>(input_be);
    reversed(&padded)
}

/// The element as bytes, least significant byte first.
pub fn fq_to_bytes_le(fq: &Fq) -> (bytes: [u8; 32])
    ensures
        le_nat(bytes@) == fq@,
        fq@ < modulus(),
{
    fq.to_bytes_le()
}

/// The element of the extension as bytes, each part least significant byte first; the part
/// without `u` stands first.
pub fn fq2_to_bytes_le(fq2: &Fq2) -> (bytes: [u8; 64])
    ensures
        le_nat(bytes@.take(FQ_LEN as int)) == fq2.c0@,
        le_nat(bytes@.skip(FQ_LEN as int)) == fq2.c1@,
{
    let c0: [u8; 32] = fq_to_bytes_le(&fq2.c0);
    let c1: [u8; 32] = fq_to_bytes_le(&fq2.c1);
    let bytes: [u8; 64] = joined(&c0, &c1);
    assert(bytes@.take(FQ_LEN as int) =~= c0@);
    assert(bytes@.skip(FQ_LEN as int) =~= c1@);
    bytes
}

/// The bytes of the one and then those of the other.
pub fn joined(first: &[u8; 32], second: &[u8; 32]) -> (out: [u8; 64])
    ensures
        out@ == first@ + second@,
{
    let mut out: [u8; 64] = [0u8;64];
    let mut i: usize = 0;
    while i < FQ_LEN
        invariant
            i <= FQ_LEN,
            out@.len() == 2 * FQ_LEN,
            forall|j: int| 0 <= j < i ==> out@[j] == first@[j],
            forall|j: int| 0 <= j < i ==> #[trigger] out@[FQ_LEN + j] == second@[j],
        decreases FQ_LEN - i,
    {
        out[i] = first[i];
        out[FQ_LEN + i] = second[i];
        i += 1;
    }
    assert forall|j: int| 0 <= j < 64 implies out@[j] == (first@ + second@)[j] by {
        if j >= FQ_LEN {
            assert(out@[FQ_LEN + (j - FQ_LEN)] == second@[j - FQ_LEN]);
        }
    }
    assert(out@ =~= first@ + second@);
    out
}

/// A field element of the backend as bytes, most significant byte first. `bytes_le` is cut off
/// or filled up with zeros at its most significant end.
pub fn field_to_be_32(bytes_le: &Vec<u8>) -> (bytes: [u8; 32])
    ensures
        bytes@ == right_padded(bytes_le@, FQ_LEN as nat).reverse(),
{
    let padded: [u8; 32] = right_pad::<32>(bytes_le.as_slice());
    reversed(&padded)
}

} // verus!
