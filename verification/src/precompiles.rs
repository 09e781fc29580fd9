//! The BN254 precompiles of the EVM, done by the GPU backend.

use crate::bn254::Bn254Error;
use crate::bn254::backend::G1Operand;
use crate::bn254::backend::G1Reply;
use crate::bn254::backend::G2Operand;
use crate::bn254::backend::PairingBackend;
use crate::bn254::backend::bn254_g1_add;
use crate::bn254::backend::bn254_g1_mul;
use crate::bn254::backend::bn254_pairing_check;
use crate::bn254::backend::can_pair;
use crate::bn254::backend::is_add_outcome;
use crate::bn254::backend::is_mul_outcome;
use crate::bn254::backend::is_pairing_outcome;
use crate::bn254::backend::pair_views;
use crate::bn254::curve::G1View;
use crate::bn254::curve::G1_LEN;
use crate::bn254::curve::G2View;
use crate::bn254::curve::G2_LEN;
use crate::bn254::curve::decoded_g1;
use crate::bn254::curve::decoded_g2;
use crate::bn254::laws::gives_multiples;
use crate::bn254::laws::gives_sums;
use crate::bn254::laws::is_pair;
use crate::bn254::laws::is_written;
use crate::bn254::laws::lemma_is_checked;
use crate::bn254::laws::lemma_multiple_is_written;
use crate::bn254::laws::lemma_sum_is_written;
use crate::bn254::laws::pairing_product;
use crate::bn254::laws::pairs_with;
use crate::bytes::be_nat;
use crate::bytes::bytes_are_digits_to_the_base_256;
use crate::bytes::lemma_cut_and_joined;
use crate::bytes::lemma_joined_parts;
use crate::bytes::right_pad;
use crate::bytes::right_padded;
use crate::forks::ChainSpec;
use crate::forks::is_istanbul;
use crate::forks::istanbul_number;
use crate::icicle::IcicleState;
use crate::icicle::precompiles;
use crate::icicle::precompiles_enabled;
use vstd::prelude::*;
use vstd::slice::slice_subrange;
use vstd::slice::slice_to_vec;

verus! {

/// Length of the input of an addition: two points.
pub const ADD_INPUT_LEN: usize = 128;

/// Length of the input of a multiplication: a point and a scalar.
pub const MUL_INPUT_LEN: usize = 96;

/// Length of a pair of points in the input of a pairing check.
pub const PAIR_ELEMENT_LEN: usize = 192;

/// Price of an addition since Istanbul.
pub const ISTANBUL_ADD_GAS_COST: u64 = 150;

/// Price of an addition before Istanbul.
pub const BYZANTIUM_ADD_GAS_COST: u64 = 500;

/// Price of a multiplication since Istanbul.
pub const ISTANBUL_MUL_GAS_COST: u64 = 6_000;

/// Price of a multiplication before Istanbul.
pub const BYZANTIUM_MUL_GAS_COST: u64 = 40_000;

/// Price of each pair since Istanbul.
pub const ISTANBUL_PAIR_PER_POINT: u64 = 34_000;

/// Price of a pairing check of no pairs since Istanbul.
pub const ISTANBUL_PAIR_BASE: u64 = 45_000;

/// Price of each pair before Istanbul.
pub const BYZANTIUM_PAIR_PER_POINT: u64 = 80_000;

/// Price of a pairing check of no pairs before Istanbul.
pub const BYZANTIUM_PAIR_BASE: u64 = 100_000;

/// EVM factory wrapper that can inject Icicle-accelerated precompiles.
#[derive(Debug, Clone, Copy, Default)]
pub struct IcicleEvmFactory<F> {
    inner: F,
}

impl<F> IcicleEvmFactory<F> {
    /// The wrapped factory.
    pub closed spec fn wrapped(self) -> F {
        self.inner
    }

    /// Create a new wrapper around the inner EVM factory.
    pub fn new(inner: F) -> (factory: Self)
        ensures
            factory.wrapped() == inner,
    {
        IcicleEvmFactory { inner }
    }

    /// The wrapped factory.
    pub fn inner(&self) -> (inner: &F)
        ensures
            *inner == self.wrapped(),
    {
        &self.inner
    }
}

/// One of the BN254 precompiles.
#[derive(Debug, Clone, Copy, PartialEq, Eq, Structural)]
pub enum Bn254Kind {
    /// Addition.
    Add,
    /// Multiplication.
    Mul,
    /// Pairing check.
    Pair,
}

/// Why a precompile refuses its input.
#[derive(Debug, Clone, Copy, PartialEq, Eq, Structural)]
pub enum PrecompileError {
    /// The price is above the gas limit.
    OutOfGas,
    /// A coordinate is not a field element.
    Bn254FieldPointNotAMember,
    /// A point is not on the curve.
    Bn254AffineGFailedToCreate,
    /// The input of a pairing check is too long, or no whole number of pairs.
    Bn254PairLength,
}

/// Why a precompile gave no output.
#[derive(Debug, Clone, Copy, PartialEq, Eq, Structural)]
pub enum Bn254PrecompileError {
    /// The input is refused.
    Precompile(PrecompileError),
    /// The backend failed.
    Backend,
}

/// What a precompile gives.
#[derive(Debug)]
pub struct PrecompileOutput {
    /// The price.
    pub gas_used: u64,
    /// The output.
    pub bytes: Vec<u8>,
}

/// What the GPU backend is asked for.
pub struct Bn254Backend<A, S, T, P, M, E> {
    /// The sum of two points.
    pub adder: A,
    /// The product of a point and a scalar.
    pub multiplier: S,
    /// What a pairing check needs.
    pub pairing: PairingBackend<T, P, M, E>,
}

/// What an error of the curve operations means for a precompile.
pub open spec fn mapped_error(err: Bn254Error) -> Bn254PrecompileError {
    match err {
        Bn254Error::InvalidFieldElement => Bn254PrecompileError::Precompile(
            PrecompileError::Bn254FieldPointNotAMember,
        ),
        Bn254Error::InvalidPoint => Bn254PrecompileError::Precompile(
            PrecompileError::Bn254AffineGFailedToCreate,
        ),
        Bn254Error::Backend(_) => Bn254PrecompileError::Backend,
    }
}

/// What an error of the curve operations means for a precompile.
pub fn map_bn254_error(err: Bn254Error) -> (mapped: Bn254PrecompileError)
    ensures
        mapped == mapped_error(err),
{
    match err {
        Bn254Error::InvalidFieldElement => Bn254PrecompileError::Precompile(
            PrecompileError::Bn254FieldPointNotAMember,
        ),
        Bn254Error::InvalidPoint => Bn254PrecompileError::Precompile(
            PrecompileError::Bn254AffineGFailedToCreate,
        ),
        Bn254Error::Backend(_) => Bn254PrecompileError::Backend,
    }
}

/// Price of an addition.
pub open spec fn add_gas(is_istanbul: bool) -> u64 {
    if is_istanbul {
        ISTANBUL_ADD_GAS_COST
    } else {
        BYZANTIUM_ADD_GAS_COST
    }
}

/// Price of a multiplication.
pub open spec fn mul_gas(is_istanbul: bool) -> u64 {
    if is_istanbul {
        ISTANBUL_MUL_GAS_COST
    } else {
        BYZANTIUM_MUL_GAS_COST
    }
}

/// Price of a pairing check: one for the check and one for each whole pair of the input.
pub open spec fn pair_gas(len: nat, is_istanbul: bool) -> int {
    let pairs = len as int / PAIR_ELEMENT_LEN as int;
    if is_istanbul {
        pairs * ISTANBUL_PAIR_PER_POINT + ISTANBUL_PAIR_BASE
    } else {
        pairs * BYZANTIUM_PAIR_PER_POINT + BYZANTIUM_PAIR_BASE
    }
}

/// The precompile ends as the curve operation does: with the price and the operation's output, or
/// with what its error means.
pub open spec fn carries_over(
    operation: Result<[u8; 64], Bn254Error>,
    gas: u64,
    out: Result<PrecompileOutput, Bn254PrecompileError>,
) -> bool {
    match operation {
        Ok(bytes) => out is Ok && out->Ok_0.gas_used == gas && out->Ok_0.bytes@ == bytes@,
        Err(err) => out == Err::<PrecompileOutput, Bn254PrecompileError>(mapped_error(err)),
    }
}

/// The precompile refuses its input for this reason.
pub open spec fn refuses(
    out: Result<PrecompileOutput, Bn254PrecompileError>,
    reason: PrecompileError,
) -> bool {
    out == Err::<PrecompileOutput, Bn254PrecompileError>(Bn254PrecompileError::Precompile(reason))
}

/// The outcome of the addition precompile. Input that is missing is zero, and what is left over
/// is ignored.
pub open spec fn is_add_run<A>(
    input: Seq<u8>,
    gas_limit: u64,
    is_istanbul: bool,
    adder: Option<&A>,
    out: Result<PrecompileOutput, Bn254PrecompileError>,
) -> bool where A: Fn(G1Operand, G1Operand) -> G1Reply {
    let padded = right_padded(input, ADD_INPUT_LEN as nat);
    if add_gas(is_istanbul) > gas_limit {
        refuses(out, PrecompileError::OutOfGas)
    } else {
        exists|operation: Result<[u8; 64], Bn254Error>|
            {
                &&& #[trigger] is_add_outcome(
                    padded.subrange(0, G1_LEN as int),
                    padded.subrange(G1_LEN as int, ADD_INPUT_LEN as int),
                    adder,
                    operation,
                )
                &&& carries_over(operation, add_gas(is_istanbul), out)
            }
    }
}

/// The outcome of the multiplication precompile. Input that is missing is zero, and what is left
/// over is ignored.
pub open spec fn is_mul_run<S>(
    input: Seq<u8>,
    gas_limit: u64,
    is_istanbul: bool,
    multiplier: Option<&S>,
    out: Result<PrecompileOutput, Bn254PrecompileError>,
) -> bool where S: Fn(G1Operand, [u8; 32]) -> G1Reply {
    let padded = right_padded(input, MUL_INPUT_LEN as nat);
    if mul_gas(is_istanbul) > gas_limit {
        refuses(out, PrecompileError::OutOfGas)
    } else {
        exists|operation: Result<[u8; 64], Bn254Error>|
            {
                &&& #[trigger] is_mul_outcome(
                    padded.subrange(0, G1_LEN as int),
                    padded.subrange(G1_LEN as int, MUL_INPUT_LEN as int),
                    multiplier,
                    operation,
                )
                &&& carries_over(operation, mul_gas(is_istanbul), out)
            }
    }
}

/// The pairs of the input of a pairing check.
pub open spec fn input_pairs(input: Seq<u8>) -> Seq<(Seq<u8>, Seq<u8>)> {
    Seq::new(
        input.len() / PAIR_ELEMENT_LEN as nat,
        |i: int|
            (
                input.subrange(i * PAIR_ELEMENT_LEN, i * PAIR_ELEMENT_LEN + G1_LEN),
                input.subrange(
                    i * PAIR_ELEMENT_LEN + G1_LEN,
                    i * PAIR_ELEMENT_LEN + PAIR_ELEMENT_LEN,
                ),
            ),
    )
}

/// The output of a pairing check: the number one or the number zero, most significant byte first.
pub open spec fn truth_word(yes: bool) -> Seq<u8> {
    Seq::new(
        32,
        |i: int|
            if i == 31 && yes {
                1u8
            } else {
                0u8
            },
    )
}

/// The input of a pairing check is above the fork's limit.
pub open spec fn is_too_long(len: nat, max_input: Option<usize>) -> bool {
    max_input is Some && len > max_input->0
}

/// The outcome of the pairing precompile. The fork's limit is checked before the price, and the
/// price before whether the input is a whole number of pairs.
pub open spec fn is_pair_run<T, P, M, E>(
    input: Seq<u8>,
    gas_limit: u64,
    is_istanbul: bool,
    max_input: Option<usize>,
    pairing: Option<PairingBackend<T, P, M, E>>,
    out: Result<PrecompileOutput, Bn254PrecompileError>,
) -> bool where
    P: Fn(G1Operand, G2Operand) -> Result<T, String>,
    M: Fn(T, T) -> T,
    E: Fn(&T) -> bool,
 {
    if is_too_long(input.len(), max_input) {
        refuses(out, PrecompileError::Bn254PairLength)
    } else if pair_gas(input.len(), is_istanbul) > gas_limit {
        refuses(out, PrecompileError::OutOfGas)
    } else if input.len() % PAIR_ELEMENT_LEN as nat != 0 {
        refuses(out, PrecompileError::Bn254PairLength)
    } else {
        exists|check: Result<bool, Bn254Error>|
            {
                &&& #[trigger] is_pairing_outcome(input_pairs(input), pairing, check)
                &&& match check {
                    Ok(yes) => {
                        &&& out is Ok
                        &&& out->Ok_0.gas_used == pair_gas(input.len(), is_istanbul)
                        &&& out->Ok_0.bytes@ == truth_word(yes)
                    },
                    Err(err) => out == Err::<PrecompileOutput, Bn254PrecompileError>(
                        mapped_error(err),
                    ),
                }
            }
    }
}

/// The addition precompile.
pub fn run_bn254_add<A>(
    input: &[u8],
    gas_limit: u64,
    is_istanbul: bool,
    adder: Option<&A>,
) -> (out: Result<PrecompileOutput, Bn254PrecompileError>) where
    A: Fn(G1Operand, G1Operand) -> G1Reply,

    requires
        adder is Some ==> forall|left: G1Operand, right: G1Operand| #[trigger]
            call_requires(*adder->0, (left, right)),
    ensures
        is_add_run(input@, gas_limit, is_istanbul, adder, out),
{
    let gas_cost: u64 = if is_istanbul {
        ISTANBUL_ADD_GAS_COST
    } else {
        BYZANTIUM_ADD_GAS_COST
    };
    if gas_cost > gas_limit {
        return Err(Bn254PrecompileError::Precompile(PrecompileError::OutOfGas));
    }
    let padded: [u8; 128] = right_pad::<128>(input);
    let p1_bytes: &[u8] = slice_subrange(padded.as_slice(), 0, G1_LEN);
    let p2_bytes: &[u8] = slice_subrange(padded.as_slice(), G1_LEN, ADD_INPUT_LEN);
    match bn254_g1_add(p1_bytes, p2_bytes, adder) {
        Ok(output) => Ok(
            PrecompileOutput { gas_used: gas_cost, bytes: slice_to_vec(output.as_slice()) },
        ),
        Err(err) => Err(map_bn254_error(err)),
    }
}

/// The multiplication precompile.
pub fn run_bn254_mul<S>(
    input: &[u8],
    gas_limit: u64,
    is_istanbul: bool,
    multiplier: Option<&S>,
) -> (out: Result<PrecompileOutput, Bn254PrecompileError>) where
    S: Fn(G1Operand, [u8; 32]) -> G1Reply,

    requires
        multiplier is Some ==> forall|operand: G1Operand, scalar: [u8; 32]| #[trigger]
            call_requires(*multiplier->0, (operand, scalar)),
    ensures
        is_mul_run(input@, gas_limit, is_istanbul, multiplier, out),
{
    let gas_cost: u64 = if is_istanbul {
        ISTANBUL_MUL_GAS_COST
    } else {
        BYZANTIUM_MUL_GAS_COST
    };
    if gas_cost > gas_limit {
        return Err(Bn254PrecompileError::Precompile(PrecompileError::OutOfGas));
    }
    let padded: [u8; 96] = right_pad::<96>(input);
    let point_bytes: &[u8] = slice_subrange(padded.as_slice(), 0, G1_LEN);
    let scalar_bytes: &[u8] = slice_subrange(padded.as_slice(), G1_LEN, MUL_INPUT_LEN);
    match bn254_g1_mul(point_bytes, scalar_bytes, multiplier) {
        Ok(output) => Ok(
            PrecompileOutput { gas_used: gas_cost, bytes: slice_to_vec(output.as_slice()) },
        ),
        Err(err) => Err(map_bn254_error(err)),
    }
}

/// Cuts the input of a pairing check into pairs.
pub fn split_pairs<'a>(input: &'a [u8]) -> (pairs: Vec<(&'a [u8], &'a [u8])>)
    ensures
        pair_views(pairs@) == input_pairs(input@),
{
    let elements: usize = input.len() / PAIR_ELEMENT_LEN;
    let mut pairs: Vec<(&'a [u8], &'a [u8])> = Vec::new();
    let mut i: usize = 0;
    while i < elements
        invariant
            i <= elements,
            elements == input@.len() / PAIR_ELEMENT_LEN as nat,
            elements * PAIR_ELEMENT_LEN <= input.len(),
            pairs@.len() == i,
            forall|j: int|
                0 <= j < i ==> ((#[trigger] pairs@[j]).0@, pairs@[j].1@) == input_pairs(input@)[j],
        decreases elements - i,
    {
        assert(i * PAIR_ELEMENT_LEN + PAIR_ELEMENT_LEN <= elements * PAIR_ELEMENT_LEN);
        let start: usize = i * PAIR_ELEMENT_LEN;
        let middle: usize = start + G1_LEN;
        let g1: &[u8] = slice_subrange(input, start, middle);
        let g2: &[u8] = slice_subrange(input, middle, middle + G2_LEN);
        pairs.push((g1, g2));
        i += 1;
    }
    assert(pair_views(pairs@) =~= input_pairs(input@));
    pairs
}

/// The pairing precompile.
pub fn run_bn254_pair<T, P, M, E>(
    input: &[u8],
    gas_limit: u64,
    is_istanbul: bool,
    max_input: Option<usize>,
    pairing: Option<PairingBackend<T, P, M, E>>,
) -> (out: Result<PrecompileOutput, Bn254PrecompileError>) where
    P: Fn(G1Operand, G2Operand) -> Result<T, String>,
    M: Fn(T, T) -> T,
    E: Fn(&T) -> bool,

    requires
        is_too_long(input@.len(), max_input) || pair_gas(input@.len(), is_istanbul) <= u64::MAX,
        pairing is Some ==> can_pair(pairing->0),
    ensures
        is_pair_run(input@, gas_limit, is_istanbul, max_input, pairing, out),
{
    if let Some(max) = max_input {
        if input.len() > max {
            return Err(Bn254PrecompileError::Precompile(PrecompileError::Bn254PairLength));
        }
    }
    let elements: usize = input.len() / PAIR_ELEMENT_LEN;
    let gas_used: u64 = if is_istanbul {
        elements as u64 * ISTANBUL_PAIR_PER_POINT + ISTANBUL_PAIR_BASE
    } else {
        elements as u64 * BYZANTIUM_PAIR_PER_POINT + BYZANTIUM_PAIR_BASE
    };
    if gas_used > gas_limit {
        return Err(Bn254PrecompileError::Precompile(PrecompileError::OutOfGas));
    }
    if input.len() % PAIR_ELEMENT_LEN != 0 {
        return Err(Bn254PrecompileError::Precompile(PrecompileError::Bn254PairLength));
    }
    let pairs: Vec<(&[u8], &[u8])> = split_pairs(input);
    match bn254_pairing_check(pairs.as_slice(), pairing) {
        Ok(yes) => {
            let mut output: [u8; 32] = [0u8;32];
            if yes {
                output[31] = 1;
            }
            let bytes: Vec<u8> = slice_to_vec(output.as_slice());
            assert(bytes@ =~= truth_word(yes));
            Ok(PrecompileOutput { gas_used, bytes })
        },
        Err(err) => Err(map_bn254_error(err)),
    }
}

/// The backend can be asked for everything.
pub open spec fn can_compute<A, S, T, P, M, E>(backend: Bn254Backend<A, S, T, P, M, E>) -> bool where
    A: Fn(G1Operand, G1Operand) -> G1Reply,
    S: Fn(G1Operand, [u8; 32]) -> G1Reply,
    P: Fn(G1Operand, G2Operand) -> Result<T, String>,
    M: Fn(T, T) -> T,
    E: Fn(&T) -> bool,
 {
    &&& forall|left: G1Operand, right: G1Operand| #[trigger]
        call_requires(backend.adder, (left, right))
    &&& forall|operand: G1Operand, scalar: [u8; 32]| #[trigger]
        call_requires(backend.multiplier, (operand, scalar))
    &&& can_pair(backend.pairing)
}

/// The outcome of a precompile.
pub open spec fn is_run<A, S, T, P, M, E>(
    kind: Bn254Kind,
    input: Seq<u8>,
    gas_limit: u64,
    is_istanbul: bool,
    pair_max_input: Option<usize>,
    backend: Option<Bn254Backend<A, S, T, P, M, E>>,
    out: Result<PrecompileOutput, Bn254PrecompileError>,
) -> bool where
    A: Fn(G1Operand, G1Operand) -> G1Reply,
    S: Fn(G1Operand, [u8; 32]) -> G1Reply,
    P: Fn(G1Operand, G2Operand) -> Result<T, String>,
    M: Fn(T, T) -> T,
    E: Fn(&T) -> bool,
 {
    match kind {
        Bn254Kind::Add => is_add_run(
            input,
            gas_limit,
            is_istanbul,
            match backend {
                Some(backend) => Some(&backend.adder),
                None => None,
            },
            out,
        ),
        Bn254Kind::Mul => is_mul_run(
            input,
            gas_limit,
            is_istanbul,
            match backend {
                Some(backend) => Some(&backend.multiplier),
                None => None,
            },
            out,
        ),
        Bn254Kind::Pair => is_pair_run(
            input,
            gas_limit,
            is_istanbul,
            pair_max_input,
            match backend {
                Some(backend) => Some(backend.pairing),
                None => None,
            },
            out,
        ),
    }
}

/// Runs a precompile. `None` stands for a node that was built without the backend.
pub fn run_bn254_precompile<A, S, T, P, M, E>(
    kind: Bn254Kind,
    input: &[u8],
    gas_limit: u64,
    is_istanbul: bool,
    pair_max_input: Option<usize>,
    backend: Option<Bn254Backend<A, S, T, P, M, E>>,
) -> (out: Result<PrecompileOutput, Bn254PrecompileError>) where
    A: Fn(G1Operand, G1Operand) -> G1Reply,
    S: Fn(G1Operand, [u8; 32]) -> G1Reply,
    P: Fn(G1Operand, G2Operand) -> Result<T, String>,
    M: Fn(T, T) -> T,
    E: Fn(&T) -> bool,

    requires
        kind is Pair ==> is_too_long(input@.len(), pair_max_input) || pair_gas(
            input@.len(),
            is_istanbul,
        ) <= u64::MAX,
        backend is Some ==> can_compute(backend->0),
    ensures
        is_run(kind, input@, gas_limit, is_istanbul, pair_max_input, backend, out),
{
    match backend {
        Some(Bn254Backend { adder, multiplier, pairing }) => match kind {
            Bn254Kind::Add => run_bn254_add(input, gas_limit, is_istanbul, Some(&adder)),
            Bn254Kind::Mul => run_bn254_mul(input, gas_limit, is_istanbul, Some(&multiplier)),
            Bn254Kind::Pair => run_bn254_pair(
                input,
                gas_limit,
                is_istanbul,
                pair_max_input,
                Some(pairing),
            ),
        },
        None => match kind {
            Bn254Kind::Add => run_bn254_add::<A>(input, gas_limit, is_istanbul, None),
            Bn254Kind::Mul => run_bn254_mul::<S>(input, gas_limit, is_istanbul, None),
            Bn254Kind::Pair => run_bn254_pair::<T, P, M, E>(
                input,
                gas_limit,
                is_istanbul,
                pair_max_input,
                None,
            ),
        },
    }
}

/// What an accelerated precompile answers.
#[derive(Debug)]
pub enum Bn254Answer {
    /// The call ends with this.
    Final(Result<PrecompileOutput, PrecompileError>),
    /// The precompile that was there before is called.
    Fallback,
}

/// What an accelerated precompile answers after a run: only where the backend failed is the
/// precompile called that was there before.
pub fn answer_after_run(run: Result<PrecompileOutput, Bn254PrecompileError>) -> (answer:
    Bn254Answer)
    ensures
        answer == (match run {
            Ok(output) => Bn254Answer::Final(Ok(output)),
            Err(Bn254PrecompileError::Precompile(err)) => Bn254Answer::Final(Err(err)),
            Err(Bn254PrecompileError::Backend) => Bn254Answer::Fallback,
        }),
{
    match run {
        Ok(output) => Bn254Answer::Final(Ok(output)),
        Err(Bn254PrecompileError::Precompile(err)) => Bn254Answer::Final(Err(err)),
        Err(Bn254PrecompileError::Backend) => Bn254Answer::Fallback,
    }
}

/// The address of a precompile: all its bytes but the last are zero.
pub open spec fn address_view(last_byte: u8) -> Seq<u8> {
    Seq::new(
        20,
        |i: int|
            if i == 19 {
                last_byte
            } else {
                0u8
            },
    )
}

/// The address of a precompile.
pub fn precompile_address(last_byte: u8) -> (address: [u8; 20])
    ensures
        address@ == address_view(last_byte),
{
    let mut bytes: [u8; 20] = [0u8;20];
    bytes[19] = last_byte;
    assert(bytes@ =~= address_view(last_byte));
    bytes
}

/// A precompile that is to be accelerated.
#[derive(Debug, Clone, Copy)]
pub struct WrappedPrecompile {
    /// Its address.
    pub address: [u8; 20],
    /// What it computes.
    pub kind: Bn254Kind,
    /// Whether it has the prices of Istanbul.
    pub is_istanbul: bool,
    /// The longest input of the pairing check.
    pub pair_max_input: Option<usize>,
}

/// The precompile of this kind at this address, with the rules of the fork.
pub open spec fn wraps(
    wrapped: WrappedPrecompile,
    last_byte: u8,
    kind: Bn254Kind,
    spec_id: u8,
    chain: ChainSpec,
) -> bool {
    &&& wrapped.address@ == address_view(last_byte)
    &&& wrapped.kind == kind
    &&& wrapped.is_istanbul == (spec_id >= istanbul_number())
    &&& wrapped.pair_max_input == chain.pairing_limit()
}

/// The precompiles that are accelerated in an EVM of this fork. `spec_id` is the Ethereum fork
/// whose prices hold, and `chain` the fork of the chain itself.
pub fn maybe_wrap_bn254_precompiles(
    state: Option<&IcicleState>,
    spec_id: u8,
    chain: ChainSpec,
) -> (wrapped: Vec<WrappedPrecompile>)
    ensures
        if precompiles(state) {
            &&& wrapped@.len() == 3
            &&& wraps(wrapped@[0], 6, Bn254Kind::Add, spec_id, chain)
            &&& wraps(wrapped@[1], 7, Bn254Kind::Mul, spec_id, chain)
            &&& wraps(wrapped@[2], 8, Bn254Kind::Pair, spec_id, chain)
        } else {
            wrapped@.len() == 0
        },
{
    let mut wrapped: Vec<WrappedPrecompile> = Vec::new();
    if !precompiles_enabled(state) {
        return wrapped;
    }
    let is_istanbul: bool = is_istanbul(spec_id);
    let pair_max_input: Option<usize> = chain.bn254_pairing_max_input();
    wrapped.push(
        WrappedPrecompile {
            address: precompile_address(6),
            kind: Bn254Kind::Add,
            is_istanbul,
            pair_max_input,
        },
    );
    wrapped.push(
        WrappedPrecompile {
            address: precompile_address(7),
            kind: Bn254Kind::Mul,
            is_istanbul,
            pair_max_input,
        },
    );
    wrapped.push(
        WrappedPrecompile {
            address: precompile_address(8),
            kind: Bn254Kind::Pair,
            is_istanbul,
            pair_max_input,
        },
    );
    wrapped
}

/// Price of a precompile.
pub open spec fn price(kind: Bn254Kind, len: nat, is_istanbul: bool) -> int {
    match kind {
        Bn254Kind::Add => add_gas(is_istanbul) as int,
        Bn254Kind::Mul => mul_gas(is_istanbul) as int,
        Bn254Kind::Pair => pair_gas(len, is_istanbul),
    }
}

/// A precompile that gives an output takes exactly its price, and never more than the gas limit;
/// the output is a point of 64 bytes, or the 32 bytes of a pairing check.
pub proof fn output_is_paid_for<A, S, T, P, M, E>(
    kind: Bn254Kind,
    input: Seq<u8>,
    gas_limit: u64,
    is_istanbul: bool,
    pair_max_input: Option<usize>,
    backend: Option<Bn254Backend<A, S, T, P, M, E>>,
    out: Result<PrecompileOutput, Bn254PrecompileError>,
) where
    A: Fn(G1Operand, G1Operand) -> G1Reply,
    S: Fn(G1Operand, [u8; 32]) -> G1Reply,
    P: Fn(G1Operand, G2Operand) -> Result<T, String>,
    M: Fn(T, T) -> T,
    E: Fn(&T) -> bool,

    requires
        is_run(kind, input, gas_limit, is_istanbul, pair_max_input, backend, out),
        out is Ok,
    ensures
        out->Ok_0.gas_used == price(kind, input.len(), is_istanbul),
        out->Ok_0.gas_used <= gas_limit,
        out->Ok_0.bytes@.len() == (if kind is Pair {
            32
        } else {
            64int
        }),
{
}

/// Running out of gas does not depend on the backend nor on what the input holds.
pub proof fn price_above_limit_is_refused<A, S, T, P, M, E>(
    kind: Bn254Kind,
    input: Seq<u8>,
    gas_limit: u64,
    is_istanbul: bool,
    pair_max_input: Option<usize>,
    backend: Option<Bn254Backend<A, S, T, P, M, E>>,
    out: Result<PrecompileOutput, Bn254PrecompileError>,
) where
    A: Fn(G1Operand, G1Operand) -> G1Reply,
    S: Fn(G1Operand, [u8; 32]) -> G1Reply,
    P: Fn(G1Operand, G2Operand) -> Result<T, String>,
    M: Fn(T, T) -> T,
    E: Fn(&T) -> bool,

    requires
        is_run(kind, input, gas_limit, is_istanbul, pair_max_input, backend, out),
        price(kind, input.len(), is_istanbul) > gas_limit,
        kind is Pair ==> !is_too_long(input.len(), pair_max_input),
    ensures
        refuses(out, PrecompileError::OutOfGas),
{
}

/// Without the backend no input is computed on: a run is refused for its price or its length, or
/// the precompile is called that was there before.
pub proof fn without_backend_falls_back<A, S, T, P, M, E>(
    kind: Bn254Kind,
    input: Seq<u8>,
    gas_limit: u64,
    is_istanbul: bool,
    pair_max_input: Option<usize>,
    out: Result<PrecompileOutput, Bn254PrecompileError>,
) where
    A: Fn(G1Operand, G1Operand) -> G1Reply,
    S: Fn(G1Operand, [u8; 32]) -> G1Reply,
    P: Fn(G1Operand, G2Operand) -> Result<T, String>,
    M: Fn(T, T) -> T,
    E: Fn(&T) -> bool,

    requires
        is_run::<A, S, T, P, M, E>(
            kind,
            input,
            gas_limit,
            is_istanbul,
            pair_max_input,
            None,
            out,
        ),
    ensures
        ({
            ||| refuses(out, PrecompileError::OutOfGas)
            ||| refuses(out, PrecompileError::Bn254PairLength)
            ||| out == Err::<PrecompileOutput, Bn254PrecompileError>(Bn254PrecompileError::Backend)
        }),
{
}

/// Filling up to a length or cutting off there changes nothing the second time.
proof fn lemma_padded_twice(input: Seq<u8>, n: nat)
    ensures
        right_padded(right_padded(input, n), n) == right_padded(input, n),
{
    assert(right_padded(right_padded(input, n), n) =~= right_padded(input, n));
}

/// Additions and multiplications read a fixed number of bytes: an input that ends early counts as
/// if zeros followed, and what comes after those bytes does not count.
pub proof fn input_is_read_to_a_fixed_length<A, S>(
    input: Seq<u8>,
    gas_limit: u64,
    is_istanbul: bool,
    adder: Option<&A>,
    multiplier: Option<&S>,
    out: Result<PrecompileOutput, Bn254PrecompileError>,
) where A: Fn(G1Operand, G1Operand) -> G1Reply, S: Fn(G1Operand, [u8; 32]) -> G1Reply
    ensures
        is_add_run(input, gas_limit, is_istanbul, adder, out) == is_add_run(
            right_padded(input, ADD_INPUT_LEN as nat),
            gas_limit,
            is_istanbul,
            adder,
            out,
        ),
        is_mul_run(input, gas_limit, is_istanbul, multiplier, out) == is_mul_run(
            right_padded(input, MUL_INPUT_LEN as nat),
            gas_limit,
            is_istanbul,
            multiplier,
            out,
        ),
{
    lemma_padded_twice(input, ADD_INPUT_LEN as nat);
    lemma_padded_twice(input, MUL_INPUT_LEN as nat);
}

/// Istanbul made every precompile cheaper.
pub proof fn istanbul_is_cheaper(kind: Bn254Kind, len: nat)
    ensures
        price(kind, len, true) < price(kind, len, false),
{
}

/// What follows the input up to a length are zeros, and what is beyond it does not count.
pub open spec fn filled_up(input: Seq<u8>, n: nat) -> Seq<u8> {
    if input.len() >= n {
        input.take(n as int)
    } else {
        input + Seq::new((n - input.len()) as nat, |i: int| 0u8)
    }
}

/// Filling up is filling up.
proof fn lemma_filled_up(input: Seq<u8>, n: nat)
    ensures
        right_padded(input, n) == filled_up(input, n),
{
    assert(right_padded(input, n) =~= filled_up(input, n));
}

/// The input is refused, for this reason.
pub open spec fn is_refused_for(
    out: Result<PrecompileOutput, Bn254PrecompileError>,
    reason: PrecompileError,
) -> bool {
    &&& out is Err
    &&& out->Err_0 is Precompile
    &&& out->Err_0->Precompile_0 == reason
}

/// The precompile gives these bytes for this price.
pub open spec fn pays_for(
    out: Result<PrecompileOutput, Bn254PrecompileError>,
    gas: int,
    bytes: Seq<u8>,
) -> bool {
    out is Ok && out->Ok_0.gas_used == gas && out->Ok_0.bytes@ == bytes
}

/// The precompile ends with what the error means for it: a coordinate that is no field element, a
/// point that is none, or a failure of the backend.
pub open spec fn ends_with_error(
    out: Result<PrecompileOutput, Bn254PrecompileError>,
    err: Bn254Error,
) -> bool {
    &&& out is Err
    &&& err is InvalidFieldElement ==> out->Err_0 == Bn254PrecompileError::Precompile(
        PrecompileError::Bn254FieldPointNotAMember,
    )
    &&& err is InvalidPoint ==> out->Err_0 == Bn254PrecompileError::Precompile(
        PrecompileError::Bn254AffineGFailedToCreate,
    )
    &&& err is Backend ==> out->Err_0 == Bn254PrecompileError::Backend
}

/// Each error of the curve operations means one thing for a precompile.
pub proof fn errors_keep_their_meaning(err: Bn254Error, mapped: Bn254PrecompileError)
    requires
        call_ensures(map_bn254_error, (err,), mapped),
    ensures
        err is InvalidFieldElement <==> mapped == Bn254PrecompileError::Precompile(
            PrecompileError::Bn254FieldPointNotAMember,
        ),
        err is InvalidPoint <==> mapped == Bn254PrecompileError::Precompile(
            PrecompileError::Bn254AffineGFailedToCreate,
        ),
        err is Backend <==> mapped == Bn254PrecompileError::Backend,
{
}

/// The addition precompile reads two points of 64 bytes each, for 150 gas since Istanbul and 500
/// before, and gives the bytes of their sum. What is missing of the input is zero. Where the gas
/// does not suffice, nothing is read.
pub proof fn addition_precompile_adds<A, S, T, P, M, E>(
    input: &[u8],
    gas_limit: u64,
    is_istanbul: bool,
    max_input: Option<usize>,
    backend: Bn254Backend<A, S, T, P, M, E>,
    sum: spec_fn(G1View, G1View) -> G1View,
    out: Result<PrecompileOutput, Bn254PrecompileError>,
) where
    A: Fn(G1Operand, G1Operand) -> G1Reply,
    S: Fn(G1Operand, [u8; 32]) -> G1Reply,
    P: Fn(G1Operand, G2Operand) -> Result<T, String>,
    M: Fn(T, T) -> T,
    E: Fn(&T) -> bool,

    requires
        gives_sums(backend.adder, sum),
        call_ensures(
            run_bn254_add::<A>,
            (input, gas_limit, is_istanbul, Some(&backend.adder)),
            out,
        ) || call_ensures(
            run_bn254_precompile::<A, S, T, P, M, E>,
            (Bn254Kind::Add, input, gas_limit, is_istanbul, max_input, Some(backend)),
            out,
        ),
    ensures
        ({
            let gas: int = if is_istanbul {
                150
            } else {
                500
            };
            let points = filled_up(input@, 128);
            if gas_limit < gas {
                is_refused_for(out, PrecompileError::OutOfGas)
            } else {
                match (decoded_g1(points.take(64)), decoded_g1(points.skip(64))) {
                    (Err(err), _) => ends_with_error(out, err),
                    (Ok(_), Err(err)) => ends_with_error(out, err),
                    (Ok(a), Ok(b)) => out is Ok && pays_for(out, gas, out->Ok_0.bytes@)
                        && is_written(out->Ok_0.bytes@, sum(a, b)),
                }
            }
        }),
{
    lemma_filled_up(input@, 128);
    let padded = right_padded(input@, ADD_INPUT_LEN as nat);
    let p = padded.subrange(0, G1_LEN as int);
    let q = padded.subrange(G1_LEN as int, ADD_INPUT_LEN as int);
    assert(p =~= padded.take(64));
    assert(q =~= padded.skip(64));
    if add_gas(is_istanbul) <= gas_limit {
        let operation = choose|operation: Result<[u8; 64], Bn254Error>|
            {
                &&& #[trigger] is_add_outcome(p, q, Some(&backend.adder), operation)
                &&& carries_over(operation, add_gas(is_istanbul), out)
            };
        lemma_sum_is_written(p, q, backend.adder, sum, operation);
    }
}

/// The multiplication precompile reads a point of 64 bytes and a scalar of 32, for 6000 gas since
/// Istanbul and 40000 before, and gives the bytes of the multiple. What is missing of the input is
/// zero. Where the gas does not suffice, nothing is read.
pub proof fn multiplication_precompile_multiplies<A, S, T, P, M, E>(
    input: &[u8],
    gas_limit: u64,
    is_istanbul: bool,
    max_input: Option<usize>,
    backend: Bn254Backend<A, S, T, P, M, E>,
    multiple: spec_fn(G1View, nat) -> G1View,
    out: Result<PrecompileOutput, Bn254PrecompileError>,
) where
    A: Fn(G1Operand, G1Operand) -> G1Reply,
    S: Fn(G1Operand, [u8; 32]) -> G1Reply,
    P: Fn(G1Operand, G2Operand) -> Result<T, String>,
    M: Fn(T, T) -> T,
    E: Fn(&T) -> bool,

    requires
        gives_multiples(backend.multiplier, multiple),
        call_ensures(
            run_bn254_mul::<S>,
            (input, gas_limit, is_istanbul, Some(&backend.multiplier)),
            out,
        ) || call_ensures(
            run_bn254_precompile::<A, S, T, P, M, E>,
            (Bn254Kind::Mul, input, gas_limit, is_istanbul, max_input, Some(backend)),
            out,
        ),
    ensures
        ({
            let gas: int = if is_istanbul {
                6_000
            } else {
                40_000
            };
            let parts = filled_up(input@, 96);
            if gas_limit < gas {
                is_refused_for(out, PrecompileError::OutOfGas)
            } else {
                match decoded_g1(parts.take(64)) {
                    Err(err) => ends_with_error(out, err),
                    Ok(a) => out is Ok && pays_for(out, gas, out->Ok_0.bytes@) && is_written(
                        out->Ok_0.bytes@,
                        multiple(a, be_nat(parts.skip(64))),
                    ),
                }
            }
        }),
{
    lemma_filled_up(input@, 96);
    let padded = right_padded(input@, MUL_INPUT_LEN as nat);
    let p = padded.subrange(0, G1_LEN as int);
    let k = padded.subrange(G1_LEN as int, MUL_INPUT_LEN as int);
    assert(p =~= padded.take(64));
    assert(k =~= padded.skip(64));
    assert(k.take(32) =~= k);
    if mul_gas(is_istanbul) <= gas_limit {
        let operation = choose|operation: Result<[u8; 64], Bn254Error>|
            {
                &&& #[trigger] is_mul_outcome(p, k, Some(&backend.multiplier), operation)
                &&& carries_over(operation, mul_gas(is_istanbul), out)
            };
        lemma_multiple_is_written(p, k, backend.multiplier, multiple, operation);
    }
}

/// The bytes of every pair, its first point before its second, one pair after the other, are the
/// input.
pub open spec fn are_pairs_of(pairs: Seq<(Seq<u8>, Seq<u8>)>, input: Seq<u8>) -> bool {
    &&& forall|i: int|
        0 <= i < pairs.len() ==> (#[trigger] pairs[i]).0.len() == 64 && pairs[i].1.len() == 128
    &&& input == pairs.map_values(|pair: (Seq<u8>, Seq<u8>)| pair.0 + pair.1).flatten()
}

/// Cutting into pairs undoes joining pairs: an input that is made up of pairs is cut into exactly
/// these pairs, none of them left out, and an input of whole pairs is made up of what it is cut
/// into.
pub proof fn pairs_are_the_whole_input(input: Seq<u8>, pairs: Seq<(Seq<u8>, Seq<u8>)>)
    ensures
        are_pairs_of(pairs, input) ==> input_pairs(input) == pairs && input.len() == 192
            * pairs.len(),
        input.len() % 192 == 0 ==> are_pairs_of(input_pairs(input), input),
        input_pairs(input).len() == input.len() / 192,
{
    if are_pairs_of(pairs, input) {
        let parts = pairs.map_values(|pair: (Seq<u8>, Seq<u8>)| pair.0 + pair.1);
        assert forall|i: int| 0 <= i < parts.len() implies (#[trigger] parts[i]).len() == 192 by {
            assert(parts[i] == pairs[i].0 + pairs[i].1);
        }
        lemma_joined_parts(parts, 192);
        assert(input.len() == 192 * pairs.len());
        let cut = input_pairs(input);
        assert forall|i: int| 0 <= i < pairs.len() implies cut[i] == pairs[i] by {
            let part = parts[i];
            assert(part == pairs[i].0 + pairs[i].1);
            assert(part == input.subrange(i * 192, i * 192 + part.len()));
            assert(cut[i].0 =~= part.subrange(0, 64));
            assert(cut[i].1 =~= part.subrange(64, 192));
            assert(part.subrange(0, 64) =~= pairs[i].0);
            assert(part.subrange(64, 192) =~= pairs[i].1);
        }
        assert(cut =~= pairs);
    }
    if input.len() % 192 == 0 {
        let cut = input_pairs(input);
        let parts = cut.map_values(|pair: (Seq<u8>, Seq<u8>)| pair.0 + pair.1);
        assert forall|i: int| 0 <= i < parts.len() implies #[trigger] parts[i] == input.subrange(
            i * 192,
            i * 192 + 192,
        ) by {
            assert(parts[i] == cut[i].0 + cut[i].1);
            assert(parts[i] =~= input.subrange(i * 192, i * 192 + 192));
        }
        lemma_cut_and_joined(input, parts, 192);
        assert(input.take(input.len() as int) =~= input);
        assert forall|i: int| 0 <= i < cut.len() implies (#[trigger] cut[i]).0.len() == 64
            && cut[i].1.len() == 128 by {
            assert((i + 1) * 192 <= cut.len() * 192);
        }
    }
}

/// The cutting of the input of a pairing check is that one.
pub proof fn split_pairs_are_the_whole_input(
    input: &[u8],
    pairs: Vec<(&[u8], &[u8])>,
    views: Seq<(Seq<u8>, Seq<u8>)>,
)
    requires
        call_ensures(split_pairs, (input,), pairs),
        views.len() == pairs@.len(),
        forall|i: int|
            0 <= i < pairs@.len() ==> (#[trigger] views[i]).0 == pairs@[i].0@ && views[i].1
                == pairs@[i].1@,
    ensures
        pairs@.len() == input@.len() / 192,
        input@.len() % 192 == 0 ==> are_pairs_of(views, input@),
{
    pairs_are_the_whole_input(input@, views);
    assert(pair_views(pairs@) =~= views) by {
        assert forall|i: int| 0 <= i < views.len() implies pair_views(pairs@)[i] == views[i] by {
            assert(views[i].0 == pairs@[i].0@);
        }
    }
}

/// The output of a pairing check is the number one for yes and the number zero for no.
pub open spec fn is_yes_or_no(bytes: Seq<u8>, yes: bool) -> bool {
    &&& bytes.len() == 32
    &&& be_nat(bytes) == (if yes {
        1nat
    } else {
        0
    })
}

/// The output is one or zero.
proof fn lemma_truth_word(yes: bool)
    ensures
        is_yes_or_no(truth_word(yes), yes),
{
    let word = truth_word(yes);
    let front = word.drop_last();
    lemma_all_zero(front);
    assert(word =~= front.push(word.last()));
    bytes_are_digits_to_the_base_256(front, word.last());
}

/// Zeros make up zero.
proof fn lemma_all_zero(s: Seq<u8>)
    requires
        forall|i: int| 0 <= i < s.len() ==> #[trigger] s[i] == 0,
    ensures
        be_nat(s) == 0,
    decreases s.len(),
{
    if s.len() > 0 {
        lemma_all_zero(s.drop_last());
        assert(s =~= s.drop_last().push(s.last()));
        bytes_are_digits_to_the_base_256(s.drop_last(), s.last());
    } else {
        assert(s =~= Seq::empty());
        bytes_are_digits_to_the_base_256(s, 0);
    }
}

/// The pairing precompile checks all the pairs of its input, for 34000 gas each and 45000 for the
/// check since Istanbul, and 80000 and 100000 before: it says whether the product of their pairings
/// is the neutral element, or refuses the first pair that is none. Before that it refuses an input
/// above the limit, and before the pairs are read one that the gas does not suffice for.
pub proof fn pairing_precompile_checks_every_pair<A, S, T, P, M, E>(
    input: &[u8],
    pairs: Seq<(Seq<u8>, Seq<u8>)>,
    gas_limit: u64,
    is_istanbul: bool,
    max_input: Option<usize>,
    backend: Bn254Backend<A, S, T, P, M, E>,
    pairing: spec_fn(G1View, G2View) -> T,
    product: spec_fn(T, T) -> T,
    out: Result<PrecompileOutput, Bn254PrecompileError>,
) where
    A: Fn(G1Operand, G1Operand) -> G1Reply,
    S: Fn(G1Operand, [u8; 32]) -> G1Reply,
    P: Fn(G1Operand, G2Operand) -> Result<T, String>,
    M: Fn(T, T) -> T,
    E: Fn(&T) -> bool,

    requires
        are_pairs_of(pairs, input@),
        pairs_with(backend.pairing, pairing, product),
        call_ensures(
            run_bn254_pair::<T, P, M, E>,
            (input, gas_limit, is_istanbul, max_input, Some(backend.pairing)),
            out,
        ) || call_ensures(
            run_bn254_precompile::<A, S, T, P, M, E>,
            (Bn254Kind::Pair, input, gas_limit, is_istanbul, max_input, Some(backend)),
            out,
        ),
    ensures
        ({
            let gas = if is_istanbul {
                45_000 + 34_000 * pairs.len()
            } else {
                100_000 + 80_000 * pairs.len()
            };
            if max_input is Some && 192 * pairs.len() > max_input->0 {
                is_refused_for(out, PrecompileError::Bn254PairLength)
            } else if gas_limit < gas {
                is_refused_for(out, PrecompileError::OutOfGas)
            } else {
                &&& (forall|i: int| 0 <= i < pairs.len() ==> is_pair(#[trigger] pairs[i])) ==> {
                    let one = backend.pairing.one;
                    &&& out is Ok
                    &&& pays_for(out, gas as int, out->Ok_0.bytes@)
                    &&& is_yes_or_no(
                        out->Ok_0.bytes@,
                        pairing_product(one, pairing, product, pairs) == one,
                    )
                }
                &&& forall|i: int|
                    0 <= i < pairs.len() && !is_pair(pairs[i]) && (forall|j: int|
                        0 <= j < i ==> is_pair(#[trigger] pairs[j])) ==> ends_with_error(
                        out,
                        match #[trigger] decoded_g1(pairs[i].0) {
                            Err(err) => err,
                            Ok(_) => decoded_g2(pairs[i].1)->Err_0,
                        },
                    )
            }
        }),
{
    pairs_are_the_whole_input(input@, pairs);
    let len = input@.len();
    assert(len as int / 192 == pairs.len());
    if !is_too_long(len, max_input) && pair_gas(len, is_istanbul) <= gas_limit {
        let check = choose|check: Result<bool, Bn254Error>|
            {
                &&& #[trigger] is_pairing_outcome(
                    input_pairs(input@),
                    Some(backend.pairing),
                    check,
                )
                &&& match check {
                    Ok(yes) => {
                        &&& out is Ok
                        &&& out->Ok_0.gas_used == pair_gas(input@.len(), is_istanbul)
                        &&& out->Ok_0.bytes@ == truth_word(yes)
                    },
                    Err(err) => out == Err::<PrecompileOutput, Bn254PrecompileError>(
                        mapped_error(err),
                    ),
                }
            };
        lemma_is_checked(pairs, backend.pairing, pairing, product, check);
        lemma_truth_word(true);
        lemma_truth_word(false);
        assert forall|i: int|
            0 <= i < pairs.len() && !is_pair(pairs[i]) && (forall|j: int|
                0 <= j < i ==> is_pair(#[trigger] pairs[j])) implies ends_with_error(
            out,
            match #[trigger] decoded_g1(pairs[i].0) {
                Err(err) => err,
                Ok(_) => decoded_g2(pairs[i].1)->Err_0,
            },
        ) by {
            assert(check is Err);
        }
    }
}

/// An input of the pairing precompile that is no whole number of pairs is refused for its length,
/// though for the gas where the gas does not suffice for its whole pairs.
pub proof fn incomplete_pairs_are_refused<A, S, T, P, M, E>(
    input: &[u8],
    gas_limit: u64,
    is_istanbul: bool,
    max_input: Option<usize>,
    backend: Option<Bn254Backend<A, S, T, P, M, E>>,
    out: Result<PrecompileOutput, Bn254PrecompileError>,
) where
    A: Fn(G1Operand, G1Operand) -> G1Reply,
    S: Fn(G1Operand, [u8; 32]) -> G1Reply,
    P: Fn(G1Operand, G2Operand) -> Result<T, String>,
    M: Fn(T, T) -> T,
    E: Fn(&T) -> bool,

    requires
        input@.len() % 192 != 0,
        call_ensures(
            run_bn254_precompile::<A, S, T, P, M, E>,
            (Bn254Kind::Pair, input, gas_limit, is_istanbul, max_input, backend),
            out,
        ),
    ensures
        ({
            let whole = input@.len() / 192;
            let gas = if is_istanbul {
                45_000 + 34_000 * whole
            } else {
                100_000 + 80_000 * whole
            };
            let too_long = max_input is Some && input@.len() > max_input->0;
            if !too_long && gas_limit < gas {
                is_refused_for(out, PrecompileError::OutOfGas)
            } else {
                is_refused_for(out, PrecompileError::Bn254PairLength)
            }
        }),
{
}

/// An output ends the call, and so does a refusal of the input; only a failure of the backend lets
/// the precompile be called that was there before.
pub proof fn only_backend_failures_fall_back(
    run: Result<PrecompileOutput, Bn254PrecompileError>,
    answer: Bn254Answer,
)
    requires
        call_ensures(answer_after_run, (run,), answer),
    ensures
        answer is Fallback <==> run == Err::<PrecompileOutput, Bn254PrecompileError>(
            Bn254PrecompileError::Backend,
        ),
        run is Ok ==> answer == Bn254Answer::Final(Ok(run->Ok_0)),
        run is Err && run->Err_0 is Precompile ==> answer == Bn254Answer::Final(
            Err(run->Err_0->Precompile_0),
        ),
{
}

/// The bytes are those of the small number, as an address.
pub open spec fn is_small_address(address: Seq<u8>, number: u8) -> bool {
    &&& address.len() == 20
    &&& be_nat(address) == number
}

/// A small address is a small number.
proof fn lemma_small_address(number: u8)
    ensures
        is_small_address(address_view(number), number),
{
    let address = address_view(number);
    let front = address.drop_last();
    lemma_all_zero(front);
    assert(address =~= front.push(number));
    bytes_are_digits_to_the_base_256(front, number);
}

/// Where precompiles are accelerated, three are: addition at address 6, multiplication at 7 and
/// pairing at 8, with the prices of Istanbul from that fork on and with the chain's limit. Where
/// they are not, none is.
pub proof fn three_precompiles_are_accelerated(
    state: Option<&IcicleState>,
    spec_id: u8,
    chain: ChainSpec,
    enabled: bool,
    cheaper: bool,
    limit: Option<usize>,
    wrapped: Vec<WrappedPrecompile>,
    number: u8,
    address: [u8; 20],
)
    requires
        call_ensures(precompiles_enabled, (state,), enabled),
        call_ensures(is_istanbul, (spec_id,), cheaper),
        call_ensures(ChainSpec::bn254_pairing_max_input, (chain,), limit),
        call_ensures(maybe_wrap_bn254_precompiles, (state, spec_id, chain), wrapped),
        call_ensures(precompile_address, (number,), address),
    ensures
        !enabled ==> wrapped@.len() == 0,
        enabled ==> {
            &&& wrapped@.len() == 3
            &&& is_small_address(wrapped@[0].address@, 6) && wrapped@[0].kind == Bn254Kind::Add
            &&& is_small_address(wrapped@[1].address@, 7) && wrapped@[1].kind == Bn254Kind::Mul
            &&& is_small_address(wrapped@[2].address@, 8) && wrapped@[2].kind == Bn254Kind::Pair
        },
        forall|i: int|
            0 <= i < wrapped@.len() ==> (#[trigger] wrapped@[i]).is_istanbul == cheaper
                && wrapped@[i].pair_max_input == limit,
        is_small_address(address@, number),
{
    lemma_small_address(6);
    lemma_small_address(7);
    lemma_small_address(8);
    lemma_small_address(number);
    assert forall|i: int| 0 <= i < wrapped@.len() implies (#[trigger] wrapped@[i]).is_istanbul
        == cheaper && wrapped@[i].pair_max_input == limit by {
        assert(i == 0 || i == 1 || i == 2);
    }
}

/// A wrapped factory is the one that was wrapped.
pub proof fn wrapping_keeps_the_factory<F>(
    inner: F,
    factory: IcicleEvmFactory<F>,
    wrapped: &F,
)
    requires
        call_ensures(IcicleEvmFactory::<F>::new, (inner,), factory),
        call_ensures(IcicleEvmFactory::<F>::inner, (&factory,), wrapped),
    ensures
        *wrapped == inner,
{
}

/// Without a backend every input that the price and the length do not rule out is left to the
/// precompile that was there before.
pub proof fn without_backend_nothing_is_computed<A, S, T, P, M, E>(
    kind: Bn254Kind,
    input: &[u8],
    gas_limit: u64,
    is_istanbul: bool,
    max_input: Option<usize>,
    out: Result<PrecompileOutput, Bn254PrecompileError>,
) where
    A: Fn(G1Operand, G1Operand) -> G1Reply,
    S: Fn(G1Operand, [u8; 32]) -> G1Reply,
    P: Fn(G1Operand, G2Operand) -> Result<T, String>,
    M: Fn(T, T) -> T,
    E: Fn(&T) -> bool,

    requires
        call_ensures(
            run_bn254_precompile::<A, S, T, P, M, E>,
            (kind, input, gas_limit, is_istanbul, max_input, None),
            out,
        ),
        gas_limit >= 500,
        kind == Bn254Kind::Mul ==> gas_limit >= 40_000,
        kind == Bn254Kind::Pair ==> {
            &&& input@.len() % 192 == 0
            &&& max_input is None || input@.len() <= max_input->0
            &&& gas_limit >= 100_000 + 80_000 * (input@.len() / 192)
        },
    ensures
        out == Err::<PrecompileOutput, Bn254PrecompileError>(Bn254PrecompileError::Backend),
{
}

} // verus!
