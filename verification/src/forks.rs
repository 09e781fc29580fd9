//! The rules of a chain that depend on its fork.

use vstd::prelude::*;

verus! {

/// The Ethereum fork that made the BN254 precompiles cheaper.
pub open spec fn istanbul_number() -> u8 {
    9
}

/// The Optimism fork that limited the input of the pairing check.
pub open spec fn granite_number() -> u8 {
    105
}

/// The Optimism fork that lowered the limit.
pub open spec fn jovian_number() -> u8 {
    108
}

/// The limit since Granite.
pub open spec fn granite_limit() -> usize {
    112687
}

/// The limit since Jovian.
pub open spec fn jovian_limit() -> usize {
    81984
}

/// `revm::primitives::hardfork::SpecId::ISTANBUL` as a number.
#[verifier::external_body]
fn istanbul_spec() -> (number: u8)
    ensures
        number == istanbul_number(),
{
    revm::primitives::hardfork::SpecId::ISTANBUL as u8
}

/// `op_revm::OpSpecId::GRANITE` as a number.
#[verifier::external_body]
fn granite_spec() -> (number: u8)
    ensures
        number == granite_number(),
{
    op_revm::OpSpecId::GRANITE as u8
}

/// `op_revm::OpSpecId::JOVIAN` as a number.
#[verifier::external_body]
fn jovian_spec() -> (number: u8)
    ensures
        number == jovian_number(),
{
    op_revm::OpSpecId::JOVIAN as u8
}

/// `op_revm::precompiles::bn254_pair::GRANITE_MAX_INPUT_SIZE`.
#[verifier::external_body]
fn granite_max_input_size() -> (limit: usize)
    ensures
        limit == granite_limit(),
{
    op_revm::precompiles::bn254_pair::GRANITE_MAX_INPUT_SIZE
}

/// `op_revm::precompiles::bn254_pair::JOVIAN_MAX_INPUT_SIZE`.
#[verifier::external_body]
fn jovian_max_input_size() -> (limit: usize)
    ensures
        limit == jovian_limit(),
{
    op_revm::precompiles::bn254_pair::JOVIAN_MAX_INPUT_SIZE
}

/// A fork of a chain, by its number in the order of the chain's forks.
#[derive(Debug, Clone, Copy, PartialEq, Eq, Structural)]
pub enum ChainSpec {
    /// A fork of Ethereum: a `SpecId` of `revm` as a number.
    Ethereum(u8),
    /// A fork of Optimism: an `OpSpecId` of `op_revm` as a number.
    Optimism(u8),
}

/// Whether a fork comes with the rules of another one: forks come in the order of their numbers.
pub fn is_enabled_in(fork: u8, other: u8) -> (yes: bool)
    ensures
        yes == (other <= fork),
{
    other <= fork
}

/// Whether the Ethereum fork has the prices of Istanbul.
pub fn is_istanbul(spec_id: u8) -> (yes: bool)
    ensures
        yes == (spec_id >= istanbul_number()),
{
    is_enabled_in(spec_id, istanbul_spec())
}

impl ChainSpec {
    /// The longest input of the pairing check.
    pub open spec fn pairing_limit(self) -> Option<usize> {
        match self {
            ChainSpec::Ethereum(_) => None,
            ChainSpec::Optimism(fork) => if fork >= jovian_number() {
                Some(jovian_limit())
            } else if fork >= granite_number() {
                Some(granite_limit())
            } else {
                None
            },
        }
    }

    /// The longest input of the pairing check, if the fork limits it.
    pub fn bn254_pairing_max_input(self) -> (limit: Option<usize>)
        ensures
            limit == self.pairing_limit(),
    {
        match self {
            ChainSpec::Ethereum(_) => None,
            ChainSpec::Optimism(fork) => {
                if is_enabled_in(fork, jovian_spec()) {
                    Some(jovian_max_input_size())
                } else if is_enabled_in(fork, granite_spec()) {
                    Some(granite_max_input_size())
                } else {
                    None
                }
            },
        }
    }
}

/// The limit is never raised: what a later fork of Optimism accepts, an earlier one accepts.
pub proof fn pairing_limit_only_falls(earlier: u8, later: u8, len: usize)
    requires
        earlier <= later,
        match ChainSpec::Optimism(later).pairing_limit() {
            Some(limit) => len <= limit,
            None => true,
        },
    ensures
        match ChainSpec::Optimism(earlier).pairing_limit() {
            Some(limit) => len <= limit,
            None => true,
        },
{
}

/// Ethereum never limits the input of the pairing check. Optimism limits it to 112687 bytes since
/// Granite, and to 81984 bytes since Jovian; Jovian came after Granite.
pub proof fn only_optimism_limits_pairings(
    ethereum: u8,
    optimism: u8,
    unlimited: Option<usize>,
    limit: Option<usize>,
)
    requires
        call_ensures(
            ChainSpec::bn254_pairing_max_input,
            (ChainSpec::Ethereum(ethereum),),
            unlimited,
        ),
        call_ensures(ChainSpec::bn254_pairing_max_input, (ChainSpec::Optimism(optimism),), limit),
    ensures
        unlimited is None,
        optimism < 105 ==> limit is None,
        105 <= optimism < 108 ==> limit == Some(112687usize),
        108 <= optimism ==> limit == Some(81984usize),
{
}

/// A fork has its own rules and those of every earlier fork, and so it has those of all the forks
/// that a fork before it has. Istanbul is the tenth fork of Ethereum.
pub proof fn forks_keep_earlier_rules(
    fork: u8,
    later: u8,
    rules: u8,
    own: bool,
    has: bool,
    still_has: bool,
    cheaper: bool,
)
    requires
        fork <= later,
        call_ensures(is_enabled_in, (fork, fork), own),
        call_ensures(is_enabled_in, (fork, rules), has),
        call_ensures(is_enabled_in, (later, rules), still_has),
        call_ensures(is_istanbul, (fork,), cheaper),
    ensures
        own,
        has ==> still_has,
        has <==> rules <= fork,
        cheaper <==> fork >= 9,
{
}

} // verus!
