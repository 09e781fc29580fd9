//! The state after a block, keyed by the hashes of addresses and storage slots.

use crate::bytes::lemma_joined_parts;
use crate::hash_table::HashTable;
use crate::icicle::IcicleError;
use crate::icicle::IcicleState;
use crate::icicle::roots;
use crate::icicle::should_use_keccak_batch_state_root;
use crate::icicle::state_root_enabled;
use crate::keccak::Digest;
use crate::keccak::answers_with_hashes;
use crate::keccak::answers_with_hashes_of;
use crate::keccak::are_hashes_of;
use crate::keccak::chunk;
use crate::keccak::chunk_digests;
use crate::keccak::gives_hashes_of;
use crate::keccak::gpu_hashing_is_transparent;
use crate::keccak::hash_views;
use crate::keccak::is_batch_result;
use crate::keccak::keccak256;
use crate::keccak::keccak256_batch_fixed_or_cpu_state_root;
use crate::keccak::keccak256_digest;
use crate::keccak::lemma_batch_len;
use crate::keccak::lemma_gives_hashes;
use crate::keccak::lemma_items_are_chunks;
use crate::keccak::lemma_joined_hashes;
use crate::keccak::lemma_whole_chunks;
use crate::keccak::split_digests;
use vstd::prelude::*;

verus! {

/// Length of an address in bytes.
pub const ADDRESS_LEN: usize = 20;

/// Length of a storage slot in bytes.
pub const SLOT_LEN: usize = 32;

/// A 256-bit number, most significant byte first.
pub type Word = [u8; 32];

/// What became of an account since it was loaded from the database.
#[derive(Debug, Clone, Copy, PartialEq, Eq, Structural)]
pub enum AccountStatus {
    /// The account does not exist.
    LoadedNotExisting,
    /// The account exists.
    Loaded,
    /// The account is empty.
    LoadedEmptyEIP161,
    /// There are changes in memory only.
    InMemoryChange,
    /// The account was modified.
    Changed,
    /// The account was destroyed.
    Destroyed,
    /// The account was destroyed and then modified.
    DestroyedChanged,
    /// The account was destroyed again.
    DestroyedAgain,
}

impl AccountStatus {
    /// The account was destroyed, so that its storage begins anew.
    pub open spec fn destroyed(self) -> bool {
        self is Destroyed || self is DestroyedChanged || self is DestroyedAgain
    }

    /// Whether the account was destroyed.
    pub fn was_destroyed(&self) -> (yes: bool)
        ensures
            yes == self.destroyed(),
    {
        match self {
            AccountStatus::Destroyed => true,
            AccountStatus::DestroyedChanged => true,
            AccountStatus::DestroyedAgain => true,
            _ => false,
        }
    }
}

/// An account that a block changed.
pub struct BundleAccount<A> {
    /// Its address.
    pub address: [u8; 20],
    /// Its nonce, balance and code, unless it does not exist any more.
    pub info: Option<A>,
    /// What became of it.
    pub status: AccountStatus,
    /// Its changed storage slots, each with its present value.
    pub storage: Vec<(Word, Word)>,
}

/// The storage of an account, keyed by the hashes of its slots.
pub struct HashedStorage {
    /// Whether what was there before is to be dropped.
    pub wiped: bool,
    /// The changed slots.
    pub storage: HashTable<Word>,
}

/// [`HashedStorage`] as a map.
#[verifier::ext_equal]
pub struct StorageView {
    /// Whether what was there before is to be dropped.
    pub wiped: bool,
    /// The changed slots.
    pub slots: Map<Seq<u8>, Word>,
}

impl View for HashedStorage {
    type V = StorageView;

    open spec fn view(&self) -> StorageView {
        StorageView { wiped: self.wiped, slots: self.storage@ }
    }
}

/// The state after a block, keyed by hashes.
pub struct HashedPostState<A> {
    /// The accounts by the hashes of their addresses.
    pub accounts: HashTable<Option<A>>,
    /// The storages by the hashes of the addresses.
    pub storages: HashTable<HashedStorage>,
}

/// [`HashedPostState`] as maps.
#[verifier::ext_equal]
#[verifier::reject_recursive_types(A)]
pub struct HashedView<A> {
    /// The accounts by the hashes of their addresses.
    pub accounts: Map<Seq<u8>, Option<A>>,
    /// The storages by the hashes of the addresses.
    pub storages: Map<Seq<u8>, StorageView>,
}

impl<A> View for HashedPostState<A> {
    type V = HashedView<A>;

    open spec fn view(&self) -> HashedView<A> {
        HashedView {
            accounts: self.accounts@,
            storages: self.storages@.map_values(|s: HashedStorage| s@),
        }
    }
}

/// The state in which nothing changed.
pub open spec fn nothing_changed<A>() -> HashedView<A> {
    HashedView { accounts: Map::empty(), storages: Map::empty() }
}

/// The present values of the slots, keyed by the hashes of the slots.
pub open spec fn hashed_slots(storage: Seq<(Word, Word)>, hashes: Seq<Seq<u8>>) -> Map<
    Seq<u8>,
    Word,
>
    decreases storage.len(),
{
    if storage.len() == 0 {
        Map::empty()
    } else {
        hashed_slots(storage.drop_last(), hashes).insert(
            hashes[storage.len() - 1],
            storage.last().1,
        )
    }
}

/// The state with one more account, given the hashes of its address and of its slots. The storage
/// is there only where slots changed or the account was destroyed.
pub open spec fn with_account<A>(
    state: HashedView<A>,
    account: BundleAccount<A>,
    address_hash: Seq<u8>,
    slot_hashes: Seq<Seq<u8>>,
) -> HashedView<A> {
    HashedView {
        accounts: state.accounts.insert(address_hash, account.info),
        storages: if account.storage@.len() > 0 || account.status.destroyed() {
            state.storages.insert(
                address_hash,
                StorageView {
                    wiped: account.status.destroyed(),
                    slots: hashed_slots(account.storage@, slot_hashes),
                },
            )
        } else {
            state.storages
        },
    }
}

/// The hashes of the slots.
pub open spec fn slot_digests(storage: Seq<(Word, Word)>) -> Seq<Seq<u8>> {
    storage.map_values(|entry: (Word, Word)| keccak256_digest(entry.0@))
}

/// The state that the accounts make up.
pub open spec fn hashed_state<A>(bundle: Seq<BundleAccount<A>>) -> HashedView<A>
    decreases bundle.len(),
{
    if bundle.len() == 0 {
        nothing_changed()
    } else {
        with_account(
            hashed_state(bundle.drop_last()),
            bundle.last(),
            keccak256_digest(bundle.last().address@),
            slot_digests(bundle.last().storage@),
        )
    }
}

/// Number of changed slots in all the accounts.
pub open spec fn slot_count<A>(bundle: Seq<BundleAccount<A>>) -> nat
    decreases bundle.len(),
{
    if bundle.len() == 0 {
        0
    } else {
        slot_count(bundle.drop_last()) + bundle.last().storage@.len()
    }
}

/// The addresses one after the other.
pub open spec fn flat_addresses<A>(bundle: Seq<BundleAccount<A>>) -> Seq<u8>
    decreases bundle.len(),
{
    if bundle.len() == 0 {
        Seq::empty()
    } else {
        flat_addresses(bundle.drop_last()) + bundle.last().address@
    }
}

/// The slots of an account one after the other.
pub open spec fn flat_storage(storage: Seq<(Word, Word)>) -> Seq<u8>
    decreases storage.len(),
{
    if storage.len() == 0 {
        Seq::empty()
    } else {
        flat_storage(storage.drop_last()) + storage.last().0@
    }
}

/// The slots of all the accounts one after the other.
pub open spec fn flat_slots<A>(bundle: Seq<BundleAccount<A>>) -> Seq<u8>
    decreases bundle.len(),
{
    if bundle.len() == 0 {
        Seq::empty()
    } else {
        flat_slots(bundle.drop_last()) + flat_storage(bundle.last().storage@)
    }
}

/// The state that the accounts make up, given the hashes of all the addresses and of all the
/// slots.
pub open spec fn assembled<A>(
    bundle: Seq<BundleAccount<A>>,
    address_hashes: Seq<Seq<u8>>,
    slot_hashes: Seq<Seq<u8>>,
) -> HashedView<A>
    decreases bundle.len(),
{
    if bundle.len() == 0 {
        nothing_changed()
    } else {
        with_account(
            assembled(bundle.drop_last(), address_hashes, slot_hashes),
            bundle.last(),
            address_hashes[bundle.len() - 1],
            slot_hashes.subrange(
                slot_count(bundle.drop_last()) as int,
                slot_count(bundle) as int,
            ),
        )
    }
}

/// Batches of this size are hashed on the GPU for the state root.
pub open spec fn batches(state: Option<&IcicleState>, size: int) -> bool {
    roots(state) && size >= state->0.config.min_batch
}

/// The state after a block: where the GPU is used, it is put together from the hashes of a batch
/// of all the addresses and a batch of all the slots.
pub open spec fn is_hashed_post_state<A, G>(
    state: Option<&IcicleState>,
    bundle: Seq<BundleAccount<A>>,
    gpu: G,
    result: HashedView<A>,
) -> bool where G: Fn(&[u8], usize) -> Result<Vec<u8>, IcicleError> {
    if bundle.len() == 0 || (!batches(state, bundle.len() as int) && !batches(
        state,
        slot_count(bundle) as int,
    )) {
        result == hashed_state(bundle)
    } else {
        exists|addresses: &[u8], slots: &[u8], address_hashes: Seq<Seq<u8>>, slot_hashes: Seq<
            Seq<u8>,
        >|
            {
                &&& addresses@ == flat_addresses(bundle)
                &&& slots@ == flat_slots(bundle)
                &&& #[trigger] is_batch_result(
                    addresses,
                    ADDRESS_LEN,
                    batches(state, bundle.len() as int),
                    gpu,
                    address_hashes,
                )
                &&& #[trigger] is_batch_result(
                    slots,
                    SLOT_LEN,
                    batches(state, slot_count(bundle) as int),
                    gpu,
                    slot_hashes,
                )
                &&& result == assembled(bundle, address_hashes, slot_hashes)
            }
    }
}

impl HashedStorage {
    /// The storage that the slots make up, given their hashes.
    pub fn from_iter(wiped: bool, hashes: &[Digest], storage: &Vec<(Word, Word)>) -> (out: Self)
        requires
            hashes@.len() == storage@.len(),
        ensures
            out@ == (StorageView {
                wiped,
                slots: hashed_slots(storage@, hash_views(hashes@)),
            }),
    {
        let mut slots: HashTable<Word> = HashTable::new();
        let mut i: usize = 0;
        assert(storage@.take(0).len() == 0);
        while i < storage.len()
            invariant
                i <= storage@.len(),
                hashes@.len() == storage@.len(),
                slots@ == hashed_slots(storage@.take(i as int), hash_views(hashes@)),
            decreases storage.len() - i,
        {
            assert(storage@.take(i + 1).drop_last() =~= storage@.take(i as int));
            slots.insert(hashes[i], storage[i].1);
            i += 1;
        }
        assert(storage@.take(i as int) =~= storage@);
        HashedStorage { wiped, storage: slots }
    }

    /// Whether there is nothing to write.
    pub fn is_empty(&self) -> (empty: bool)
        ensures
            empty == (!self.wiped && self.storage@ == Map::<Seq<u8>, Word>::empty()),
    {
        !self.wiped && self.storage.is_empty()
    }
}

/// A storage has slots where slots are put into it.
proof fn lemma_slots_are_there(storage: Seq<(Word, Word)>, hashes: Seq<Seq<u8>>)
    ensures
        (hashed_slots(storage, hashes) == Map::<Seq<u8>, Word>::empty()) == (storage.len() == 0),
{
    if storage.len() > 0 {
        assert(hashed_slots(storage, hashes).contains_key(hashes[storage.len() - 1]));
    }
}

impl<A: Copy> HashedPostState<A> {
    /// The state in which nothing changed.
    pub fn new() -> (out: Self)
        ensures
            out@ == nothing_changed::<A>(),
    {
        let out: Self = HashedPostState { accounts: HashTable::new(), storages: HashTable::new() };
        assert(out@ =~= nothing_changed::<A>());
        out
    }

    /// Puts an account in, given the hashes of its address and of its slots.
    fn insert_account(
        &mut self,
        account: &BundleAccount<A>,
        address_hash: Digest,
        slot_hashes: &[Digest],
    )
        requires
            slot_hashes@.len() == account.storage@.len(),
        ensures
            final(self)@ == with_account(
                old(self)@,
                *account,
                address_hash@,
                hash_views(slot_hashes@),
            ),
    {
        self.accounts.insert(address_hash, account.info);
        let wiped: bool = account.status.was_destroyed();
        if account.storage.len() > 0 || wiped {
            let storage: HashedStorage = HashedStorage::from_iter(
                wiped,
                slot_hashes,
                &account.storage,
            );
            proof {
                lemma_slots_are_there(account.storage@, hash_views(slot_hashes@));
            }
            if !storage.is_empty() {
                self.storages.insert(address_hash, storage);
            }
        }
        assert(self@ =~= with_account(
            old(self)@,
            *account,
            address_hash@,
            hash_views(slot_hashes@),
        ));
    }

    /// The state that the accounts make up, hashed on the CPU one by one.
    pub fn from_bundle_state(bundle: &Vec<BundleAccount<A>>) -> (out: Self)
        ensures
            out@ == hashed_state(bundle@),
    {
        let mut out: Self = HashedPostState::new();
        let mut i: usize = 0;
        assert(bundle@.take(0).len() == 0);
        while i < bundle.len()
            invariant
                i <= bundle@.len(),
                out@ == hashed_state(bundle@.take(i as int)),
            decreases bundle.len() - i,
        {
            let account: &BundleAccount<A> = &bundle[i];
            let mut hashes: Vec<Digest> = Vec::new();
            let mut k: usize = 0;
            while k < account.storage.len()
                invariant
                    k <= account.storage@.len(),
                    hashes@.len() == k,
                    forall|j: int|
                        0 <= j < k ==> (#[trigger] hashes@[j])@ == keccak256_digest(
                            account.storage@[j].0@,
                        ),
                decreases account.storage.len() - k,
            {
                hashes.push(keccak256(account.storage[k].0.as_slice()));
                k += 1;
            }
            assert(hash_views(hashes@) =~= slot_digests(account.storage@));
            assert(bundle@.take(i + 1).drop_last() =~= bundle@.take(i as int));
            let address_hash: Digest = keccak256(account.address.as_slice());
            out.insert_account(account, address_hash, hashes.as_slice());
            i += 1;
        }
        assert(bundle@.take(i as int) =~= bundle@);
        out
    }
}

/// Appends bytes.
fn append_bytes(out: &mut Vec<u8>, bytes: &[u8])
    ensures
        final(out)@ == old(out)@ + bytes@,
{
    let mut i: usize = 0;
    assert(out@ =~= old(out)@ + bytes@.take(0));
    while i < bytes.len()
        invariant
            i <= bytes@.len(),
            out@ == old(out)@ + bytes@.take(i as int),
        decreases bytes.len() - i,
    {
        out.push(bytes[i]);
        i += 1;
        assert(out@ =~= old(out)@ + bytes@.take(i as int));
    }
    assert(bytes@.take(i as int) =~= bytes@);
}

/// The slots of an account take up a whole number of items.
proof fn lemma_flat_storage(storage: Seq<(Word, Word)>)
    ensures
        flat_storage(storage).len() == storage.len() * SLOT_LEN,
        forall|i: int|
            0 <= i < storage.len() ==> #[trigger] flat_storage(storage).subrange(
                i * SLOT_LEN,
                (i + 1) * SLOT_LEN,
            ) == storage[i].0@,
    decreases storage.len(),
{
    if storage.len() > 0 {
        lemma_flat_storage(storage.drop_last());
        let before = flat_storage(storage.drop_last());
        let whole = flat_storage(storage);
        assert forall|i: int| 0 <= i < storage.len() implies #[trigger] whole.subrange(
            i * SLOT_LEN,
            (i + 1) * SLOT_LEN,
        ) == storage[i].0@ by {
            if i < storage.len() - 1 {
                assert(whole.subrange(i * SLOT_LEN, (i + 1) * SLOT_LEN) =~= before.subrange(
                    i * SLOT_LEN,
                    (i + 1) * SLOT_LEN,
                ));
                assert(storage.drop_last()[i] == storage[i]);
            } else {
                assert(whole.subrange(i * SLOT_LEN, (i + 1) * SLOT_LEN) =~= storage[i].0@);
            }
        }
    }
}

/// The addresses take up a whole number of items.
proof fn lemma_flat_addresses<A>(bundle: Seq<BundleAccount<A>>)
    ensures
        flat_addresses(bundle).len() == bundle.len() * ADDRESS_LEN,
        forall|i: int|
            0 <= i < bundle.len() ==> #[trigger] flat_addresses(bundle).subrange(
                i * ADDRESS_LEN,
                (i + 1) * ADDRESS_LEN,
            ) == bundle[i].address@,
    decreases bundle.len(),
{
    if bundle.len() > 0 {
        lemma_flat_addresses(bundle.drop_last());
        let before = flat_addresses(bundle.drop_last());
        let whole = flat_addresses(bundle);
        assert forall|i: int| 0 <= i < bundle.len() implies #[trigger] whole.subrange(
            i * ADDRESS_LEN,
            (i + 1) * ADDRESS_LEN,
        ) == bundle[i].address@ by {
            if i < bundle.len() - 1 {
                assert(whole.subrange(i * ADDRESS_LEN, (i + 1) * ADDRESS_LEN) =~= before.subrange(
                    i * ADDRESS_LEN,
                    (i + 1) * ADDRESS_LEN,
                ));
                assert(bundle.drop_last()[i] == bundle[i]);
            } else {
                assert(whole.subrange(i * ADDRESS_LEN, (i + 1) * ADDRESS_LEN)
                    =~= bundle[i].address@);
            }
        }
    }
}

/// All the slots take up a whole number of items.
proof fn lemma_flat_slots_len<A>(bundle: Seq<BundleAccount<A>>)
    ensures
        flat_slots(bundle).len() == slot_count(bundle) * SLOT_LEN,
    decreases bundle.len(),
{
    if bundle.len() > 0 {
        lemma_flat_slots_len(bundle.drop_last());
        lemma_flat_storage(bundle.last().storage@);
    }
}

/// Fewer accounts have no more slots.
proof fn lemma_slot_count_grows<A>(bundle: Seq<BundleAccount<A>>, n: int)
    requires
        0 <= n <= bundle.len(),
    ensures
        slot_count(bundle.take(n)) <= slot_count(bundle),
    decreases bundle.len(),
{
    if n < bundle.len() {
        lemma_slot_count_grows(bundle.drop_last(), n);
        assert(bundle.drop_last().take(n) =~= bundle.take(n));
    } else {
        assert(bundle.take(n) =~= bundle);
    }
}

/// Number of changed slots in all the accounts, or the largest number where that is larger.
fn count_slots<A>(bundle: &Vec<BundleAccount<A>>) -> (total: usize)
    ensures
        total == (if slot_count(bundle@) <= usize::MAX {
            slot_count(bundle@)
        } else {
            usize::MAX as nat
        }),
{
    let mut total: usize = 0;
    let mut i: usize = 0;
    assert(bundle@.take(0).len() == 0);
    while i < bundle.len()
        invariant
            i <= bundle@.len(),
            total == slot_count(bundle@.take(i as int)),
        decreases bundle.len() - i,
    {
        proof {
            lemma_slot_count_grows(bundle@, i + 1);
            assert(bundle@.take(i + 1).drop_last() =~= bundle@.take(i as int));
        }
        let len: usize = bundle[i].storage.len();
        if len > usize::MAX - total {
            return usize::MAX;
        }
        total += len;
        i += 1;
    }
    assert(bundle@.take(i as int) =~= bundle@);
    total
}

/// The addresses one after the other, and the slots one after the other.
fn flatten<A>(bundle: &Vec<BundleAccount<A>>) -> (out: (Vec<u8>, Vec<u8>))
    ensures
        out.0@ == flat_addresses(bundle@),
        out.1@ == flat_slots(bundle@),
{
    let mut addresses: Vec<u8> = Vec::new();
    let mut slots: Vec<u8> = Vec::new();
    let mut i: usize = 0;
    assert(bundle@.take(0).len() == 0);
    while i < bundle.len()
        invariant
            i <= bundle@.len(),
            addresses@ == flat_addresses(bundle@.take(i as int)),
            slots@ == flat_slots(bundle@.take(i as int)),
        decreases bundle.len() - i,
    {
        let account: &BundleAccount<A> = &bundle[i];
        append_bytes(&mut addresses, account.address.as_slice());
        let ghost before = slots@;
        let ghost storage = account.storage@;
        let mut k: usize = 0;
        proof {
            assert(storage.take(0).len() == 0);
            assert(before + flat_storage(storage.take(0)) =~= before);
        }
        while k < account.storage.len()
            invariant
                k <= storage.len(),
                storage == account.storage@,
                slots@ == before + flat_storage(storage.take(k as int)),
            decreases account.storage.len() - k,
        {
            append_bytes(&mut slots, account.storage[k].0.as_slice());
            proof {
                assert(storage.take(k + 1).drop_last() =~= storage.take(k as int));
                assert(slots@ =~= before + flat_storage(storage.take(k + 1)));
            }
            k += 1;
        }
        proof {
            assert(storage.take(k as int) =~= storage);
            assert(bundle@.take(i + 1).drop_last() =~= bundle@.take(i as int));
        }
        i += 1;
    }
    assert(bundle@.take(i as int) =~= bundle@);
    (addresses, slots)
}

/// Puts the state together, given the hashes of all the addresses and of all the slots.
pub fn assemble<A: Copy>(
    bundle: &Vec<BundleAccount<A>>,
    address_hashes: &Vec<Digest>,
    slot_hashes: &Vec<Digest>,
) -> (out: HashedPostState<A>)
    requires
        address_hashes@.len() == bundle@.len(),
        slot_hashes@.len() == slot_count(bundle@),
    ensures
        out@ == assembled(bundle@, hash_views(address_hashes@), hash_views(slot_hashes@)),
{
    let mut out: HashedPostState<A> = HashedPostState::new();
    let mut start: usize = 0;
    let mut i: usize = 0;
    assert(bundle@.take(0).len() == 0);
    while i < bundle.len()
        invariant
            i <= bundle@.len(),
            address_hashes@.len() == bundle@.len(),
            slot_hashes@.len() == slot_count(bundle@),
            start == slot_count(bundle@.take(i as int)),
            out@ == assembled(
                bundle@.take(i as int),
                hash_views(address_hashes@),
                hash_views(slot_hashes@),
            ),
        decreases bundle.len() - i,
    {
        let account: &BundleAccount<A> = &bundle[i];
        proof {
            lemma_slot_count_grows(bundle@, i + 1);
            assert(bundle@.take(i + 1).drop_last() =~= bundle@.take(i as int));
            assert(slot_hashes@.len() == slot_hashes.len());
        }
        let end: usize = start + account.storage.len();
        let hashes: &[Digest] = vstd::slice::slice_subrange(slot_hashes.as_slice(), start, end);
        assert(hash_views(hashes@) =~= hash_views(slot_hashes@).subrange(
            start as int,
            end as int,
        ));
        out.insert_account(account, address_hashes[i], hashes);
        start = end;
        i += 1;
    }
    assert(bundle@.take(i as int) =~= bundle@);
    out
}

/// Hash bundle state into a [`HashedPostState`], using Icicle for batching when enabled.
pub fn hashed_post_state_from_bundle_state<A: Copy, G>(
    state: Option<&IcicleState>,
    bundle: &Vec<BundleAccount<A>>,
    gpu: &G,
) -> (out: HashedPostState<A>) where G: Fn(&[u8], usize) -> Result<Vec<u8>, IcicleError>
    requires
        forall|inputs: &[u8], item_len: usize| #[trigger]
            call_requires(*gpu, (inputs, item_len)),
    ensures
        is_hashed_post_state(state, bundle@, *gpu, out@),
        answers_with_hashes(*gpu) ==> out@ == hashed_state(bundle@),
        bundle@.len() == 0 ==> out@ == (HashedView::<A> {
            accounts: Map::empty(),
            storages: Map::empty(),
        }),
{
    if !state_root_enabled(state) {
        return HashedPostState::from_bundle_state(bundle);
    }
    if bundle.len() == 0 {
        return HashedPostState::new();
    }
    let total_slots: usize = count_slots(bundle);
    if !should_use_keccak_batch_state_root(state, bundle.len())
        && !should_use_keccak_batch_state_root(state, total_slots) {
        return HashedPostState::from_bundle_state(bundle);
    }
    let (address_bytes, slot_bytes) = flatten(bundle);
    proof {
        lemma_flat_addresses(bundle@);
        lemma_flat_slots_len(bundle@);
    }
    let addresses: &[u8] = address_bytes.as_slice();
    let slots: &[u8] = slot_bytes.as_slice();
    let address_hashes: Vec<Digest> = keccak256_batch_fixed_or_cpu_state_root(
        state,
        addresses,
        ADDRESS_LEN,
        gpu,
    );
    let slot_hashes: Vec<Digest> = keccak256_batch_fixed_or_cpu_state_root(
        state,
        slots,
        SLOT_LEN,
        gpu,
    );
    proof {
        lemma_batch_len(
            addresses,
            ADDRESS_LEN,
            batches(state, bundle@.len() as int),
            *gpu,
            hash_views(address_hashes@),
        );
        lemma_batch_len(
            slots,
            SLOT_LEN,
            batches(state, slot_count(bundle@) as int),
            *gpu,
            hash_views(slot_hashes@),
        );
        assert(hash_views(address_hashes@).len() == bundle@.len());
        assert(hash_views(slot_hashes@).len() == slot_count(bundle@));
    }
    let out: HashedPostState<A> = assemble(bundle, &address_hashes, &slot_hashes);
    proof {
        if answers_with_hashes(*gpu) {
            gpu_state_hashing_is_transparent(state, bundle@, *gpu, out@);
        }
    }
    out
}

/// The hashes of the addresses, one by one or as a batch.
proof fn lemma_address_digests<A>(bundle: Seq<BundleAccount<A>>)
    ensures
        chunk_digests(flat_addresses(bundle), ADDRESS_LEN as int) == bundle.map_values(
            |account: BundleAccount<A>| keccak256_digest(account.address@),
        ),
{
    lemma_flat_addresses(bundle);
    let bytes = flat_addresses(bundle);
    let digests = chunk_digests(bytes, ADDRESS_LEN as int);
    lemma_whole_chunks(bundle.len() as int, ADDRESS_LEN as int);
    assert forall|i: int| 0 <= i < bundle.len() implies digests[i] == keccak256_digest(
        bundle[i].address@,
    ) by {
        assert(chunk(bytes, ADDRESS_LEN as int, i) == bytes.subrange(
            i * ADDRESS_LEN,
            (i + 1) * ADDRESS_LEN,
        ));
    }
    assert(digests =~= bundle.map_values(
        |account: BundleAccount<A>| keccak256_digest(account.address@),
    ));
}

/// The hashes of all the slots as a batch are those of each account, one account after the other.
proof fn lemma_slot_digests<A>(bundle: Seq<BundleAccount<A>>)
    requires
        bundle.len() > 0,
    ensures
        chunk_digests(flat_slots(bundle), SLOT_LEN as int) == chunk_digests(
            flat_slots(bundle.drop_last()),
            SLOT_LEN as int,
        ) + slot_digests(bundle.last().storage@),
{
    lemma_flat_slots_len(bundle);
    lemma_flat_slots_len(bundle.drop_last());
    let storage = bundle.last().storage@;
    lemma_flat_storage(storage);
    let whole = flat_slots(bundle);
    let before = flat_slots(bundle.drop_last());
    let tail = flat_storage(storage);
    let digests = chunk_digests(whole, SLOT_LEN as int);
    let first = chunk_digests(before, SLOT_LEN as int);
    let expected = first + slot_digests(storage);
    let n = slot_count(bundle.drop_last()) as int;
    lemma_whole_chunks(n, SLOT_LEN as int);
    lemma_whole_chunks(slot_count(bundle) as int, SLOT_LEN as int);
    assert forall|i: int| 0 <= i < digests.len() implies digests[i] == expected[i] by {
        if i < n {
            assert(chunk(whole, SLOT_LEN as int, i) =~= chunk(before, SLOT_LEN as int, i));
        } else {
            assert(chunk(whole, SLOT_LEN as int, i) =~= tail.subrange(
                (i - n) * SLOT_LEN,
                (i - n + 1) * SLOT_LEN,
            ));
        }
    }
    assert(digests =~= expected);
}

/// More hashes than are needed change nothing.
proof fn lemma_assembled_prefix<A>(
    bundle: Seq<BundleAccount<A>>,
    address_hashes: Seq<Seq<u8>>,
    slot_hashes: Seq<Seq<u8>>,
    more_addresses: Seq<Seq<u8>>,
    more_slots: Seq<Seq<u8>>,
)
    requires
        address_hashes.len() == bundle.len(),
        slot_hashes.len() == slot_count(bundle),
    ensures
        assembled(bundle, address_hashes + more_addresses, slot_hashes + more_slots) == assembled(
            bundle,
            address_hashes,
            slot_hashes,
        ),
    decreases bundle.len(),
{
    if bundle.len() > 0 {
        let n = bundle.len() - 1;
        let k = slot_count(bundle.drop_last()) as int;
        let a = address_hashes.take(n as int);
        let s = slot_hashes.take(k);
        lemma_assembled_prefix(
            bundle.drop_last(),
            a,
            s,
            address_hashes.skip(n as int) + more_addresses,
            slot_hashes.skip(k) + more_slots,
        );
        lemma_assembled_prefix(
            bundle.drop_last(),
            a,
            s,
            address_hashes.skip(n as int),
            slot_hashes.skip(k),
        );
        assert(a + (address_hashes.skip(n as int) + more_addresses) =~= address_hashes
            + more_addresses);
        assert(s + (slot_hashes.skip(k) + more_slots) =~= slot_hashes + more_slots);
        assert(a + address_hashes.skip(n as int) =~= address_hashes);
        assert(s + slot_hashes.skip(k) =~= slot_hashes);
        assert((slot_hashes + more_slots).subrange(k, slot_count(bundle) as int)
            =~= slot_hashes.subrange(k, slot_count(bundle) as int));
    }
}

/// With the right hashes, the state that is put together is the one that is hashed one by one.
proof fn lemma_assembled_from_digests<A>(bundle: Seq<BundleAccount<A>>)
    ensures
        assembled(
            bundle,
            chunk_digests(flat_addresses(bundle), ADDRESS_LEN as int),
            chunk_digests(flat_slots(bundle), SLOT_LEN as int),
        ) == hashed_state(bundle),
    decreases bundle.len(),
{
    if bundle.len() > 0 {
        let rest = bundle.drop_last();
        lemma_assembled_from_digests(rest);
        lemma_address_digests(bundle);
        lemma_address_digests(rest);
        lemma_slot_digests(bundle);
        lemma_flat_slots_len(rest);
        let addresses = chunk_digests(flat_addresses(rest), ADDRESS_LEN as int);
        let slots = chunk_digests(flat_slots(rest), SLOT_LEN as int);
        let last_address = seq![keccak256_digest(bundle.last().address@)];
        let last_slots = slot_digests(bundle.last().storage@);
        let all_addresses = chunk_digests(flat_addresses(bundle), ADDRESS_LEN as int);
        let all_slots = chunk_digests(flat_slots(bundle), SLOT_LEN as int);
        assert(all_addresses =~= addresses + last_address);
        lemma_assembled_prefix(rest, addresses, slots, last_address, last_slots);
        assert(all_slots.subrange(slot_count(rest) as int, slot_count(bundle) as int)
            =~= last_slots);
    }
}

/// The GPU need answer rightly only for what it is asked.
proof fn lemma_state_hashing_is_transparent<A, G>(
    state: Option<&IcicleState>,
    bundle: Seq<BundleAccount<A>>,
    gpu: G,
    result: HashedView<A>,
) where G: Fn(&[u8], usize) -> Result<Vec<u8>, IcicleError>
    requires
        is_hashed_post_state(state, bundle, gpu, result),
        forall|inputs: &[u8]|
            #![trigger inputs@]
            inputs@ == flat_addresses(bundle) ==> answers_with_hashes_of(gpu, inputs, ADDRESS_LEN),
        forall|inputs: &[u8]|
            #![trigger inputs@]
            inputs@ == flat_slots(bundle) ==> answers_with_hashes_of(gpu, inputs, SLOT_LEN),
    ensures
        result == hashed_state(bundle),
{
    let by_accounts = batches(state, bundle.len() as int);
    let by_slots = batches(state, slot_count(bundle) as int);
    if bundle.len() > 0 && (by_accounts || by_slots) {
        let (addresses, slots, address_hashes, slot_hashes) = choose|
            addresses: &[u8],
            slots: &[u8],
            address_hashes: Seq<Seq<u8>>,
            slot_hashes: Seq<Seq<u8>>,
        |
            {
                &&& addresses@ == flat_addresses(bundle)
                &&& slots@ == flat_slots(bundle)
                &&& #[trigger] is_batch_result(
                    addresses,
                    ADDRESS_LEN,
                    by_accounts,
                    gpu,
                    address_hashes,
                )
                &&& #[trigger] is_batch_result(slots, SLOT_LEN, by_slots, gpu, slot_hashes)
                &&& result == assembled(bundle, address_hashes, slot_hashes)
            };
        gpu_hashing_is_transparent(addresses, ADDRESS_LEN, by_accounts, gpu, address_hashes);
        gpu_hashing_is_transparent(slots, SLOT_LEN, by_slots, gpu, slot_hashes);
        lemma_assembled_from_digests(bundle);
    }
}

/// Using the GPU changes nothing but the speed: where its answers are the hashes of the items or
/// no answer, the state after a block is the one that the CPU computes.
pub proof fn gpu_state_hashing_is_transparent<A, G>(
    state: Option<&IcicleState>,
    bundle: Seq<BundleAccount<A>>,
    gpu: G,
    result: HashedView<A>,
) where G: Fn(&[u8], usize) -> Result<Vec<u8>, IcicleError>
    requires
        is_hashed_post_state(state, bundle, gpu, result),
        answers_with_hashes(gpu),
    ensures
        result == hashed_state(bundle),
{
    lemma_state_hashing_is_transparent(state, bundle, gpu, result);
}

/// The hash of the address of account `i`.
pub open spec fn address_digest<A>(bundle: Seq<BundleAccount<A>>, i: int) -> Seq<u8> {
    keccak256_digest(bundle[i].address@)
}

/// No two addresses have the same hash.
pub open spec fn digests_differ<A>(bundle: Seq<BundleAccount<A>>) -> bool {
    forall|i: int, j: int|
        0 <= i < j < bundle.len() ==> #[trigger] address_digest(bundle, i)
            != #[trigger] address_digest(bundle, j)
}

/// The state after a block is what the accounts say, in whatever order they come: it holds each
/// account under the hash of its address, a storage for each account that was destroyed or has
/// changed slots, and nothing else.
pub proof fn hashed_state_holds_each_account<A>(bundle: Seq<BundleAccount<A>>)
    requires
        digests_differ(bundle),
    ensures
        forall|i: int|
            0 <= i < bundle.len() ==> {
                let key = #[trigger] address_digest(bundle, i);
                let state = hashed_state(bundle);
                &&& state.accounts.contains_key(key)
                &&& state.accounts[key] == bundle[i].info
                &&& state.storages.contains_key(key) == (bundle[i].storage@.len() > 0
                    || bundle[i].status.destroyed())
                &&& state.storages.contains_key(key) ==> state.storages[key] == (StorageView {
                    wiped: bundle[i].status.destroyed(),
                    slots: hashed_slots(bundle[i].storage@, slot_digests(bundle[i].storage@)),
                })
            },
        forall|key: Seq<u8>| #[trigger]
            hashed_state(bundle).accounts.contains_key(key) ==> exists|i: int|
                0 <= i < bundle.len() && #[trigger] address_digest(bundle, i) == key,
        forall|key: Seq<u8>| #[trigger]
            hashed_state(bundle).storages.contains_key(key) ==> hashed_state(
                bundle,
            ).accounts.contains_key(key),
    decreases bundle.len(),
{
    if bundle.len() > 0 {
        let shorter = bundle.drop_last();
        let n = bundle.len() - 1;
        let before = hashed_state(shorter);
        let after = hashed_state(bundle);
        let own = address_digest(bundle, n);
        assert forall|i: int, j: int| 0 <= i < j < shorter.len() implies #[trigger] address_digest(
            shorter,
            i,
        ) != #[trigger] address_digest(shorter, j) by {
            assert(address_digest(bundle, i) != address_digest(bundle, j));
        }
        hashed_state_holds_each_account(shorter);
        assert(!before.accounts.contains_key(own)) by {
            if before.accounts.contains_key(own) {
                let i = choose|i: int|
                    0 <= i < shorter.len() && #[trigger] address_digest(shorter, i) == own;
                assert(address_digest(bundle, i) != address_digest(bundle, n));
            }
        }
        assert forall|i: int| 0 <= i < bundle.len() implies {
            let key = #[trigger] address_digest(bundle, i);
            &&& after.accounts.contains_key(key)
            &&& after.accounts[key] == bundle[i].info
            &&& after.storages.contains_key(key) == (bundle[i].storage@.len() > 0
                || bundle[i].status.destroyed())
            &&& after.storages.contains_key(key) ==> after.storages[key] == (StorageView {
                wiped: bundle[i].status.destroyed(),
                slots: hashed_slots(bundle[i].storage@, slot_digests(bundle[i].storage@)),
            })
        } by {
            if i < n {
                assert(address_digest(shorter, i) == address_digest(bundle, i));
                assert(address_digest(bundle, i) != own);
            }
        }
        assert forall|key: Seq<u8>| #[trigger]
            after.accounts.contains_key(key) implies exists|i: int|
            0 <= i < bundle.len() && #[trigger] address_digest(bundle, i) == key by {
            if key == own {
                assert(address_digest(bundle, n) == key);
            } else {
                let i = choose|i: int|
                    0 <= i < shorter.len() && #[trigger] address_digest(shorter, i) == key;
                assert(address_digest(bundle, i) == key);
            }
        }
    }
}

/// A storage holds the present value of each slot under the slot's hash, in whatever order the
/// slots come, and nothing else.
pub proof fn hashed_slots_hold_each_slot(storage: Seq<(Word, Word)>, hashes: Seq<Seq<u8>>)
    requires
        hashes.len() >= storage.len(),
        hashes.no_duplicates(),
    ensures
        forall|i: int|
            0 <= i < storage.len() ==> hashed_slots(storage, hashes).contains_key(
                #[trigger] hashes[i],
            ) && hashed_slots(storage, hashes)[hashes[i]] == storage[i].1,
        forall|key: Seq<u8>| #[trigger]
            hashed_slots(storage, hashes).contains_key(key) ==> exists|i: int|
                0 <= i < storage.len() && #[trigger] hashes[i] == key,
    decreases storage.len(),
{
    if storage.len() > 0 {
        let shorter = storage.drop_last();
        hashed_slots_hold_each_slot(shorter, hashes);
        let slots = hashed_slots(storage, hashes);
        let n = storage.len() - 1;
        assert forall|i: int| 0 <= i < storage.len() implies slots.contains_key(
            #[trigger] hashes[i],
        ) && slots[hashes[i]] == storage[i].1 by {
            if i < n {
                assert(shorter[i] == storage[i]);
                assert(hashes[i] != hashes[n as int]);
            }
        }
        assert forall|key: Seq<u8>| #[trigger] slots.contains_key(key) implies exists|i: int|
            0 <= i < storage.len() && #[trigger] hashes[i] == key by {
            if key == hashes[n as int] {
                assert(hashes[n as int] == key);
            } else {
                assert(hashed_slots(shorter, hashes).contains_key(key));
                let i = choose|i: int| 0 <= i < shorter.len() && #[trigger] hashes[i] == key;
                assert(hashes[i] == key);
            }
        }
    }
}

/// An account was destroyed in three of the states that it can be in, and in no other.
pub proof fn destroyed_accounts_are_known(status: &AccountStatus, destroyed: bool)
    requires
        call_ensures(AccountStatus::was_destroyed, (status,), destroyed),
    ensures
        destroyed <==> *status == AccountStatus::Destroyed || *status
            == AccountStatus::DestroyedChanged || *status == AccountStatus::DestroyedAgain,
{
}

/// The storage holds the value of each slot under the hash of the slot, and nothing else.
pub open spec fn holds_slots(storage: Map<Seq<u8>, Word>, slots: Seq<(Word, Word)>) -> bool {
    &&& forall|k: int|
        0 <= k < slots.len() ==> storage.contains_key(keccak256_digest((#[trigger] slots[k]).0@))
            && storage[keccak256_digest(slots[k].0@)] == slots[k].1
    &&& forall|key: Seq<u8>| #[trigger]
        storage.contains_key(key) ==> exists|k: int|
            0 <= k < slots.len() && keccak256_digest((#[trigger] slots[k]).0@) == key
}

/// No two slots have the same hash.
pub open spec fn slot_hashes_differ(slots: Seq<(Word, Word)>) -> bool {
    forall|k: int, m: int|
        0 <= k < m < slots.len() ==> keccak256_digest((#[trigger] slots[k]).0@) != keccak256_digest(
            (#[trigger] slots[m]).0@,
        )
}

/// The state holds the account under the hash of its address, with its storage where it has
/// changed slots or was destroyed, and marks that storage as wiped where it was destroyed.
pub open spec fn holds_account<A>(out: HashedPostState<A>, account: BundleAccount<A>) -> bool {
    let key = keccak256_digest(account.address@);
    let wiped = account.status == AccountStatus::Destroyed || account.status
        == AccountStatus::DestroyedChanged || account.status == AccountStatus::DestroyedAgain;
    &&& out.accounts@.contains_key(key)
    &&& out.accounts@[key] == account.info
    &&& out.storages@.contains_key(key) <==> wiped || account.storage@.len() > 0
    &&& out.storages@.contains_key(key) ==> out.storages@[key].wiped == wiped
    &&& out.storages@.contains_key(key) && slot_hashes_differ(account.storage@) ==> holds_slots(
        out.storages@[key].storage@,
        account.storage@,
    )
}

/// No two accounts have addresses with the same hash.
pub open spec fn address_hashes_differ<A>(bundle: Seq<BundleAccount<A>>) -> bool {
    forall|i: int, j: int|
        0 <= i < j < bundle.len() ==> keccak256_digest((#[trigger] bundle[i]).address@)
            != keccak256_digest((#[trigger] bundle[j]).address@)
}

/// A storage that is made of slots and their hashes holds them.
proof fn lemma_holds_slots(slots: Seq<(Word, Word)>)
    requires
        slot_hashes_differ(slots),
    ensures
        holds_slots(hashed_slots(slots, slot_digests(slots)), slots),
{
    let hashes = slot_digests(slots);
    assert(hashes.no_duplicates()) by {
        assert forall|i: int, j: int| 0 <= i < hashes.len() && 0 <= j < hashes.len() && i
            != j implies hashes[i] != hashes[j] by {
            assert(hashes[i] == keccak256_digest(slots[i].0@));
            assert(hashes[j] == keccak256_digest(slots[j].0@));
        }
    }
    hashed_slots_hold_each_slot(slots, hashes);
    let storage = hashed_slots(slots, hashes);
    assert forall|k: int| 0 <= k < slots.len() implies storage.contains_key(
        keccak256_digest((#[trigger] slots[k]).0@),
    ) && storage[keccak256_digest(slots[k].0@)] == slots[k].1 by {
        assert(hashes[k] == keccak256_digest(slots[k].0@));
    }
    assert forall|key: Seq<u8>| #[trigger] storage.contains_key(key) implies exists|k: int|
        0 <= k < slots.len() && keccak256_digest((#[trigger] slots[k]).0@) == key by {
        let k = choose|k: int| 0 <= k < slots.len() && #[trigger] hashes[k] == key;
        assert(keccak256_digest(slots[k].0@) == key);
    }
}

/// The state that the accounts make up holds each of them, and nothing else.
proof fn lemma_state_holds_accounts<A>(out: HashedPostState<A>, bundle: Seq<BundleAccount<A>>)
    requires
        out@ == hashed_state(bundle),
        address_hashes_differ(bundle),
    ensures
        forall|i: int| 0 <= i < bundle.len() ==> holds_account(out, #[trigger] bundle[i]),
        forall|key: Seq<u8>| #[trigger]
            out.accounts@.contains_key(key) ==> exists|i: int|
                0 <= i < bundle.len() && keccak256_digest((#[trigger] bundle[i]).address@) == key,
        forall|key: Seq<u8>| #[trigger]
            out.storages@.contains_key(key) ==> out.accounts@.contains_key(key),
{
    assert forall|i: int, j: int| 0 <= i < j < bundle.len() implies #[trigger] address_digest(
        bundle,
        i,
    ) != #[trigger] address_digest(bundle, j) by {
        assert(keccak256_digest(bundle[i].address@) != keccak256_digest(bundle[j].address@));
    }
    hashed_state_holds_each_account(bundle);
    let state = hashed_state(bundle);
    assert forall|i: int| 0 <= i < bundle.len() implies holds_account(out, #[trigger] bundle[i]) by {
        let key = address_digest(bundle, i);
        let account = bundle[i];
        assert(state.accounts.contains_key(key));
        assert(state.storages.contains_key(key) <==> out.storages@.contains_key(key));
        if out.storages@.contains_key(key) {
            assert(state.storages[key] == out.storages@[key]@);
            if slot_hashes_differ(account.storage@) {
                lemma_holds_slots(account.storage@);
            }
        }
    }
    assert forall|key: Seq<u8>| #[trigger] out.accounts@.contains_key(key) implies exists|i: int|
        0 <= i < bundle.len() && keccak256_digest((#[trigger] bundle[i]).address@) == key by {
        assert(state.accounts.contains_key(key));
        let i = choose|i: int| 0 <= i < bundle.len() && #[trigger] address_digest(bundle, i) == key;
        assert(keccak256_digest(bundle[i].address@) == key);
    }
    assert forall|key: Seq<u8>| #[trigger] out.storages@.contains_key(key) implies
        out.accounts@.contains_key(key) by {
        assert(state.storages.contains_key(key));
    }
}

/// The addresses of the accounts, and the slots of all accounts, one account after the other.
pub open spec fn are_hashed_items<A>(
    bundle: Seq<BundleAccount<A>>,
    addresses: Seq<Seq<u8>>,
    slots: Seq<Seq<u8>>,
    slot_lists: Seq<Seq<Seq<u8>>>,
) -> bool {
    &&& addresses.len() == bundle.len()
    &&& slot_lists.len() == bundle.len()
    &&& slots == slot_lists.flatten()
    &&& forall|i: int| 0 <= i < bundle.len() ==> #[trigger] addresses[i] == bundle[i].address@
    &&& forall|i: int|
        0 <= i < bundle.len() ==> (#[trigger] slot_lists[i]).len() == bundle[i].storage@.len()
    &&& forall|i: int, k: int|
        0 <= i < bundle.len() && 0 <= k < bundle[i].storage@.len() ==> #[trigger] slot_lists[i][k]
            == bundle[i].storage@[k].0@
}

/// The addresses one after the other are what they are joined to.
proof fn lemma_addresses_joined<A>(bundle: Seq<BundleAccount<A>>, addresses: Seq<Seq<u8>>)
    requires
        addresses.len() == bundle.len(),
        forall|i: int| 0 <= i < bundle.len() ==> #[trigger] addresses[i] == bundle[i].address@,
    ensures
        flat_addresses(bundle) == addresses.flatten(),
    decreases bundle.len(),
{
    addresses.lemma_flatten_and_flatten_alt_are_equivalent();
    if bundle.len() > 0 {
        let fewer = addresses.drop_last();
        fewer.lemma_flatten_and_flatten_alt_are_equivalent();
        assert forall|i: int| 0 <= i < fewer.len() implies #[trigger] fewer[i]
            == bundle.drop_last()[i].address@ by {
            assert(addresses[i] == bundle[i].address@);
        }
        lemma_addresses_joined(bundle.drop_last(), fewer);
        assert(addresses[bundle.len() - 1] == bundle.last().address@);
    }
}

/// The slots of an account one after the other are what they are joined to.
proof fn lemma_storage_joined(storage: Seq<(Word, Word)>, list: Seq<Seq<u8>>)
    requires
        list.len() == storage.len(),
        forall|k: int| 0 <= k < storage.len() ==> #[trigger] list[k] == storage[k].0@,
    ensures
        flat_storage(storage) == list.flatten(),
    decreases storage.len(),
{
    list.lemma_flatten_and_flatten_alt_are_equivalent();
    if storage.len() > 0 {
        let fewer = list.drop_last();
        fewer.lemma_flatten_and_flatten_alt_are_equivalent();
        assert forall|k: int| 0 <= k < fewer.len() implies #[trigger] fewer[k]
            == storage.drop_last()[k].0@ by {
            assert(list[k] == storage[k].0@);
        }
        lemma_storage_joined(storage.drop_last(), fewer);
        assert(list[storage.len() - 1] == storage.last().0@);
    }
}

/// The slots of all accounts one after the other are what they are joined to.
proof fn lemma_slots_joined<A>(
    bundle: Seq<BundleAccount<A>>,
    addresses: Seq<Seq<u8>>,
    slots: Seq<Seq<u8>>,
    slot_lists: Seq<Seq<Seq<u8>>>,
)
    requires
        are_hashed_items(bundle, addresses, slots, slot_lists),
    ensures
        flat_slots(bundle) == slots.flatten(),
        forall|m: int| 0 <= m < slots.len() ==> (#[trigger] slots[m]).len() == 32,
    decreases bundle.len(),
{
    slot_lists.lemma_flatten_and_flatten_alt_are_equivalent();
    if bundle.len() > 0 {
        let n = bundle.len() - 1;
        let fewer = slot_lists.drop_last();
        fewer.lemma_flatten_and_flatten_alt_are_equivalent();
        let earlier = fewer.flatten();
        let own = slot_lists.last();
        assert(slots == earlier + own);
        let shorter = bundle.drop_last();
        assert(are_hashed_items(shorter, addresses.drop_last(), earlier, fewer)) by {
            assert forall|i: int| 0 <= i < shorter.len() implies #[trigger] addresses.drop_last()[i]
                == shorter[i].address@ by {
                assert(addresses[i] == bundle[i].address@);
            }
            assert forall|i: int| 0 <= i < shorter.len() implies (#[trigger] fewer[i]).len()
                == shorter[i].storage@.len() by {
                assert(slot_lists[i].len() == bundle[i].storage@.len());
            }
            assert forall|i: int, k: int|
                0 <= i < shorter.len() && 0 <= k
                    < shorter[i].storage@.len() implies #[trigger] fewer[i][k]
                == shorter[i].storage@[k].0@ by {
                assert(slot_lists[i][k] == bundle[i].storage@[k].0@);
            }
        }
        lemma_slots_joined(shorter, addresses.drop_last(), earlier, fewer);
        let storage = bundle[n as int].storage@;
        assert(slot_lists[n as int].len() == storage.len());
        assert forall|k: int| 0 <= k < storage.len() implies #[trigger] own[k] == storage[k].0@ by {
            assert(slot_lists[n as int][k] == bundle[n as int].storage@[k].0@);
        }
        lemma_storage_joined(storage, own);
        vstd::seq_lib::lemma_flatten_concat(earlier, own);
        assert forall|m: int| 0 <= m < slots.len() implies (#[trigger] slots[m]).len() == 32 by {
            if m < earlier.len() {
                assert(slots[m] == earlier[m]);
            } else {
                assert(slots[m] == own[m - earlier.len()]);
                assert(own[m - earlier.len()] == storage[m - earlier.len()].0@);
            }
        }
    } else {
        assert(slots.len() == 0);
        assert(slots.flatten() =~= flat_slots(bundle));
    }
}

/// The state after a block holds every account under the Keccak-256 hash of its address, and every
/// changed slot under the hash of the slot, whether the GPU is used or not: what the GPU gives for
/// the addresses, and for the slots of all accounts, are their hashes one after the other, or it
/// fails.
pub proof fn state_is_keyed_by_the_hashes<A: Copy, G>(
    state: Option<&IcicleState>,
    bundle: &Vec<BundleAccount<A>>,
    gpu: &G,
    out: HashedPostState<A>,
    addresses: Seq<Seq<u8>>,
    slots: Seq<Seq<u8>>,
    slot_lists: Seq<Seq<Seq<u8>>>,
    address_hashes: Seq<Digest>,
    slot_hashes: Seq<Digest>,
) where G: Fn(&[u8], usize) -> Result<Vec<u8>, IcicleError>
    requires
        call_ensures(hashed_post_state_from_bundle_state::<A, G>, (state, bundle, gpu), out),
        are_hashed_items(bundle@, addresses, slots, slot_lists),
        are_hashes_of(address_hashes, addresses),
        are_hashes_of(slot_hashes, slots),
        forall|inputs: &[u8]|
            #![trigger inputs@]
            inputs@ == addresses.flatten() ==> gives_hashes_of(*gpu, inputs, 20, address_hashes),
        forall|inputs: &[u8]|
            #![trigger inputs@]
            inputs@ == slots.flatten() ==> gives_hashes_of(*gpu, inputs, 32, slot_hashes),
        address_hashes_differ(bundle@),
    ensures
        forall|i: int| 0 <= i < bundle@.len() ==> holds_account(out, #[trigger] bundle@[i]),
        forall|key: Seq<u8>| #[trigger]
            out.accounts@.contains_key(key) ==> exists|i: int|
                0 <= i < bundle@.len() && keccak256_digest((#[trigger] bundle@[i]).address@) == key,
        forall|key: Seq<u8>| #[trigger]
            out.storages@.contains_key(key) ==> out.accounts@.contains_key(key),
{
    lemma_addresses_joined(bundle@, addresses);
    lemma_slots_joined(bundle@, addresses, slots, slot_lists);
    lemma_flat_addresses(bundle@);
    lemma_flat_slots_len(bundle@);
    assert forall|i: int| 0 <= i < addresses.len() implies (#[trigger] addresses[i]).len() == 20 by {
        assert(addresses[i] == bundle@[i].address@);
    }
    assert forall|inputs: &[u8]|
        #![trigger inputs@]
        inputs@ == flat_addresses(bundle@) implies answers_with_hashes_of(
        *gpu,
        inputs,
        ADDRESS_LEN,
    ) by {
        lemma_gives_hashes(*gpu, inputs, 20, addresses, address_hashes);
    }
    assert forall|inputs: &[u8]|
        #![trigger inputs@]
        inputs@ == flat_slots(bundle@) implies answers_with_hashes_of(*gpu, inputs, SLOT_LEN) by {
        lemma_gives_hashes(*gpu, inputs, 32, slots, slot_hashes);
    }
    lemma_state_hashing_is_transparent(state, bundle@, *gpu, out@);
    lemma_state_holds_accounts(out, bundle@);
}

/// The CPU alone gives the same state, and no accounts make up a state of nothing.
pub proof fn cpu_state_is_keyed_by_the_hashes<A: Copy>(
    bundle: &Vec<BundleAccount<A>>,
    out: HashedPostState<A>,
    fresh: HashedPostState<A>,
    key: Seq<u8>,
)
    requires
        call_ensures(HashedPostState::<A>::from_bundle_state, (bundle,), out),
        call_ensures(HashedPostState::<A>::new, (), fresh),
        address_hashes_differ(bundle@),
    ensures
        forall|i: int| 0 <= i < bundle@.len() ==> holds_account(out, #[trigger] bundle@[i]),
        forall|key: Seq<u8>| #[trigger]
            out.accounts@.contains_key(key) ==> exists|i: int|
                0 <= i < bundle@.len() && keccak256_digest((#[trigger] bundle@[i]).address@) == key,
        forall|key: Seq<u8>| #[trigger]
            out.storages@.contains_key(key) ==> out.accounts@.contains_key(key),
        !fresh.accounts@.contains_key(key),
        !fresh.storages@.contains_key(key),
{
    lemma_state_holds_accounts(out, bundle@);
    assert(fresh@.accounts == Map::<Seq<u8>, Option<A>>::empty());
    assert(!fresh@.storages.contains_key(key));
}

/// A storage that is made of slots and given hashes, no two of them the same, holds the value of
/// each slot under its hash, and nothing else; it is empty where it holds none and is not wiped.
pub proof fn storage_holds_what_it_is_made_of(
    wiped: bool,
    hashes: &[Digest],
    storage: &Vec<(Word, Word)>,
    out: HashedStorage,
    empty: bool,
)
    requires
        hashes@.len() == storage@.len(),
        forall|i: int, j: int|
            0 <= i < j < hashes@.len() ==> (#[trigger] hashes@[i])@ != (#[trigger] hashes@[j])@,
        call_ensures(HashedStorage::from_iter, (wiped, hashes, storage), out),
        call_ensures(HashedStorage::is_empty, (&out,), empty),
    ensures
        out.wiped == wiped,
        forall|i: int|
            0 <= i < storage@.len() ==> out.storage@.contains_key((#[trigger] hashes@[i])@)
                && out.storage@[hashes@[i]@] == storage@[i].1,
        forall|key: Seq<u8>| #[trigger]
            out.storage@.contains_key(key) ==> exists|i: int|
                0 <= i < storage@.len() && (#[trigger] hashes@[i])@ == key,
        empty <==> !wiped && storage@.len() == 0,
{
    let views = hash_views(hashes@);
    assert(views.no_duplicates()) by {
        assert forall|i: int, j: int| 0 <= i < views.len() && 0 <= j < views.len() && i != j implies
            views[i] != views[j] by {
            assert(views[i] == hashes@[i]@ && views[j] == hashes@[j]@);
        }
    }
    hashed_slots_hold_each_slot(storage@, views);
    lemma_slots_are_there(storage@, views);
    assert forall|i: int| 0 <= i < storage@.len() implies out.storage@.contains_key(
        (#[trigger] hashes@[i])@,
    ) && out.storage@[hashes@[i]@] == storage@[i].1 by {
        assert(views[i] == hashes@[i]@);
    }
    assert forall|key: Seq<u8>| #[trigger] out.storage@.contains_key(key) implies exists|i: int|
        0 <= i < storage@.len() && (#[trigger] hashes@[i])@ == key by {
        let i = choose|i: int| 0 <= i < storage@.len() && #[trigger] views[i] == key;
        assert(hashes@[i]@ == key);
    }
}

/// What the accounts make up with given hashes: each account under its own hash, and its slots
/// under its own part of the hashes of the slots.
proof fn lemma_assembled_holds<A>(
    bundle: Seq<BundleAccount<A>>,
    address_hashes: Seq<Seq<u8>>,
    slot_hashes: Seq<Seq<u8>>,
    i: int,
)
    requires
        address_hashes.len() >= bundle.len(),
        forall|j: int, k: int|
            0 <= j < k < bundle.len() ==> #[trigger] address_hashes[j]
                != #[trigger] address_hashes[k],
        0 <= i < bundle.len(),
    ensures
        ({
            let state = assembled(bundle, address_hashes, slot_hashes);
            let key = address_hashes[i];
            let account = bundle[i];
            &&& state.accounts.contains_key(key)
            &&& state.accounts[key] == account.info
            &&& state.storages.contains_key(key) ==> account.storage@.len() > 0
                || account.status.destroyed()
            &&& account.storage@.len() > 0 || account.status.destroyed() ==> {
                &&& state.storages.contains_key(key)
                &&& state.storages[key] == (StorageView {
                    wiped: account.status.destroyed(),
                    slots: hashed_slots(
                        account.storage@,
                        slot_hashes.subrange(
                            slot_count(bundle.take(i)) as int,
                            slot_count(bundle.take(i + 1)) as int,
                        ),
                    ),
                })
            }
        }),
    decreases bundle.len(),
{
    let shorter = bundle.drop_last();
    let n = bundle.len() - 1;
    if i < n {
        assert(address_hashes[i] != address_hashes[n as int]);
        lemma_assembled_holds(shorter, address_hashes, slot_hashes, i);
        assert(shorter.take(i) =~= bundle.take(i));
        assert(shorter.take(i + 1) =~= bundle.take(i + 1));
    } else {
        assert(bundle.take(i) =~= shorter);
        assert(bundle.take(i + 1) =~= bundle);
        lemma_no_other_key(shorter, address_hashes, slot_hashes, address_hashes[n as int]);
    }
}

/// The accounts that are put in have no other keys.
proof fn lemma_no_other_key<A>(
    bundle: Seq<BundleAccount<A>>,
    address_hashes: Seq<Seq<u8>>,
    slot_hashes: Seq<Seq<u8>>,
    key: Seq<u8>,
)
    requires
        forall|j: int| 0 <= j < bundle.len() ==> #[trigger] address_hashes[j] != key,
    ensures
        !assembled(bundle, address_hashes, slot_hashes).accounts.contains_key(key),
        !assembled(bundle, address_hashes, slot_hashes).storages.contains_key(key),
    decreases bundle.len(),
{
    if bundle.len() > 0 {
        assert(address_hashes[bundle.len() - 1] != key);
        lemma_no_other_key(bundle.drop_last(), address_hashes, slot_hashes, key);
    }
}

/// Where the slots of an account are among those of all accounts.
proof fn lemma_slots_of_account<A>(
    bundle: Seq<BundleAccount<A>>,
    hashes: Seq<Seq<u8>>,
    lists: Seq<Seq<Seq<u8>>>,
    i: int,
)
    requires
        lists.len() == bundle.len(),
        hashes == lists.flatten(),
        forall|j: int|
            0 <= j < bundle.len() ==> (#[trigger] lists[j]).len() == bundle[j].storage@.len(),
        0 <= i < bundle.len(),
    ensures
        hashes.len() == slot_count(bundle),
        slot_count(bundle.take(i + 1)) <= hashes.len(),
        slot_count(bundle.take(i)) <= slot_count(bundle.take(i + 1)),
        hashes.subrange(
            slot_count(bundle.take(i)) as int,
            slot_count(bundle.take(i + 1)) as int,
        ) == lists[i],
    decreases bundle.len(),
{
    let n = bundle.len() - 1;
    let shorter = bundle.drop_last();
    let fewer = lists.drop_last();
    lists.lemma_flatten_and_flatten_alt_are_equivalent();
    fewer.lemma_flatten_and_flatten_alt_are_equivalent();
    let earlier = fewer.flatten();
    assert(hashes == earlier + lists.last());
    assert(lists[n as int].len() == bundle[n as int].storage@.len());
    assert forall|j: int| 0 <= j < shorter.len() implies (#[trigger] fewer[j]).len()
        == shorter[j].storage@.len() by {
        assert(lists[j].len() == bundle[j].storage@.len());
    }
    if n > 0 {
        lemma_slots_of_account(
            shorter,
            earlier,
            fewer,
            if i < n {
                i
            } else {
                0
            },
        );
    } else {
        assert(earlier.len() == 0);
    }
    assert(bundle.take(n as int) =~= shorter);
    assert(bundle.take(n + 1) =~= bundle);
    if i < n {
        assert(shorter.take(i) =~= bundle.take(i));
        assert(shorter.take(i + 1) =~= bundle.take(i + 1));
        let a = slot_count(bundle.take(i)) as int;
        let b = slot_count(bundle.take(i + 1)) as int;
        assert(hashes.subrange(a, b) =~= earlier.subrange(a, b));
    } else {
        assert(hashes.subrange(earlier.len() as int, hashes.len() as int) =~= lists.last());
    }
}

/// The state holds the account under the given hash, and its slots under the given hashes.
pub open spec fn holds_account_under<A>(
    out: HashedPostState<A>,
    account: BundleAccount<A>,
    key: Seq<u8>,
    slot_keys: Seq<Seq<u8>>,
) -> bool {
    let wiped = account.status == AccountStatus::Destroyed || account.status
        == AccountStatus::DestroyedChanged || account.status == AccountStatus::DestroyedAgain;
    &&& out.accounts@.contains_key(key)
    &&& out.accounts@[key] == account.info
    &&& out.storages@.contains_key(key) <==> wiped || account.storage@.len() > 0
    &&& out.storages@.contains_key(key) ==> out.storages@[key].wiped == wiped
    &&& out.storages@.contains_key(key) && slot_keys.no_duplicates() ==> forall|k: int|
        0 <= k < account.storage@.len() ==> out.storages@[key].storage@.contains_key(
            #[trigger] slot_keys[k],
        ) && out.storages@[key].storage@[slot_keys[k]] == account.storage@[k].1
}

/// What is put together holds its accounts.
proof fn lemma_holds_account_under<A>(
    out: HashedPostState<A>,
    bundle: Seq<BundleAccount<A>>,
    address_hashes: Seq<Seq<u8>>,
    slot_hashes: Seq<Seq<u8>>,
    lists: Seq<Seq<Seq<u8>>>,
    i: int,
)
    requires
        out@ == assembled(bundle, address_hashes, slot_hashes),
        address_hashes.len() >= bundle.len(),
        forall|j: int, k: int|
            0 <= j < k < bundle.len() ==> #[trigger] address_hashes[j]
                != #[trigger] address_hashes[k],
        lists.len() == bundle.len(),
        slot_hashes == lists.flatten(),
        forall|j: int|
            0 <= j < bundle.len() ==> (#[trigger] lists[j]).len() == bundle[j].storage@.len(),
        0 <= i < bundle.len(),
    ensures
        holds_account_under(out, bundle[i], address_hashes[i], lists[i]),
{
    lemma_assembled_holds(bundle, address_hashes, slot_hashes, i);
    lemma_slots_of_account(bundle, slot_hashes, lists, i);
    let key = address_hashes[i];
    let state = assembled(bundle, address_hashes, slot_hashes);
    assert(state.storages.contains_key(key) <==> out.storages@.contains_key(key));
    if out.storages@.contains_key(key) {
        assert(state.storages[key] == out.storages@[key]@);
        if lists[i].no_duplicates() {
            assert(lists[i].len() == bundle[i].storage@.len());
            hashed_slots_hold_each_slot(bundle[i].storage@, lists[i]);
        }
    }
}

/// Putting a state together from hashes puts each account under its own hash, and its slots under
/// their own: the hashes of the slots come one account after the other.
pub proof fn assembling_keeps_accounts_and_hashes_together<A: Copy>(
    bundle: &Vec<BundleAccount<A>>,
    address_hashes: &Vec<Digest>,
    slot_hashes: &Vec<Digest>,
    out: HashedPostState<A>,
    lists: Seq<Seq<Seq<u8>>>,
    i: int,
)
    requires
        address_hashes@.len() == bundle@.len(),
        forall|j: int, k: int|
            0 <= j < k < address_hashes@.len() ==> (#[trigger] address_hashes@[j])@ != (
            #[trigger] address_hashes@[k])@,
        slot_hashes@.map_values(|h: Digest| h@) == lists.flatten(),
        lists.len() == bundle@.len(),
        forall|j: int|
            0 <= j < bundle@.len() ==> (#[trigger] lists[j]).len() == bundle@[j].storage@.len(),
        call_ensures(assemble::<A>, (bundle, address_hashes, slot_hashes), out),
        0 <= i < bundle@.len(),
    ensures
        holds_account_under(out, bundle@[i], address_hashes@[i]@, lists[i]),
{
    let keys = hash_views(address_hashes@);
    let slots = hash_views(slot_hashes@);
    assert(slot_hashes@.map_values(|h: Digest| h@) =~= slots);
    assert forall|j: int, k: int| 0 <= j < k < bundle@.len() implies #[trigger] keys[j]
        != #[trigger] keys[k] by {
        assert(keys[j] == address_hashes@[j]@ && keys[k] == address_hashes@[k]@);
    }
    assert(keys[i] == address_hashes@[i]@);
    lemma_holds_account_under(out, bundle@, keys, slots, lists, i);
}

/// A batch has the hashes that the GPU gave, where it is used, and those of the CPU, where not.
proof fn lemma_batch_hashes<G>(
    inputs: &[u8],
    item_len: usize,
    use_gpu: bool,
    gpu: G,
    result: Seq<Seq<u8>>,
    items: Seq<Seq<u8>>,
    given: Seq<Digest>,
) where G: Fn(&[u8], usize) -> Result<Vec<u8>, IcicleError>
    requires
        item_len > 0,
        is_batch_result(inputs, item_len, use_gpu, gpu, result),
        inputs@ == items.flatten(),
        forall|i: int| 0 <= i < items.len() ==> (#[trigger] items[i]).len() == item_len,
        given.len() == items.len(),
        forall|reply: Result<Vec<u8>, IcicleError>| #[trigger]
            call_ensures(gpu, (inputs, item_len), reply) ==> reply is Ok && reply->Ok_0@
                == given.map_values(|h: Digest| h@).flatten(),
    ensures
        result == (if use_gpu {
            given.map_values(|h: Digest| h@)
        } else {
            items.map_values(|item: Seq<u8>| keccak256_digest(item))
        }),
{
    lemma_joined_parts(items, item_len as int);
    lemma_items_are_chunks(items, inputs@, item_len as int);
    let parts = given.map_values(|h: Digest| h@);
    lemma_joined_hashes(given);
    if items.len() == 0 {
        assert(result =~= parts);
        assert(result =~= items.map_values(|item: Seq<u8>| keccak256_digest(item)));
    } else {
        let n = items.len() as int;
        assert((n - 1) * item_len + item_len == n * item_len) by (nonlinear_arith);
        lemma_whole_chunks(n, item_len as int);
        if use_gpu {
            let bytes = parts.flatten();
            assert(split_digests(bytes) =~= parts) by {
                assert forall|i: int| 0 <= i < n implies split_digests(bytes)[i] == parts[i] by {
                    assert(parts[i] == bytes.subrange(i * 32, i * 32 + 32));
                }
            }
        }
    }
}

/// Where the state root is accelerated and there are enough accounts or enough slots, the GPU is
/// asked for the hashes of the addresses where there are enough accounts, and for those of the
/// slots where there are enough slots, and what it gives are the keys of the state. Where neither
/// is enough, or the state root is not accelerated, the GPU has no say.
pub proof fn gpu_hashes_are_the_keys<A: Copy, G>(
    state: Option<&IcicleState>,
    bundle: &Vec<BundleAccount<A>>,
    gpu: &G,
    out: HashedPostState<A>,
    addresses: Seq<Seq<u8>>,
    slots: Seq<Seq<u8>>,
    slot_lists: Seq<Seq<Seq<u8>>>,
    address_hashes: Seq<Digest>,
    slot_hashes: Seq<Digest>,
    keys: Seq<Seq<u8>>,
    key_lists: Seq<Seq<Seq<u8>>>,
    i: int,
) where G: Fn(&[u8], usize) -> Result<Vec<u8>, IcicleError>
    requires
        call_ensures(hashed_post_state_from_bundle_state::<A, G>, (state, bundle, gpu), out),
        are_hashed_items(bundle@, addresses, slots, slot_lists),
        address_hashes.len() == addresses.len(),
        slot_hashes.len() == slots.len(),
        forall|inputs: &[u8], reply: Result<Vec<u8>, IcicleError>| #[trigger]
            call_ensures(*gpu, (inputs, 20), reply) && inputs@ == addresses.flatten() ==> reply
                is Ok && reply->Ok_0@ == address_hashes.map_values(|h: Digest| h@).flatten(),
        forall|inputs: &[u8], reply: Result<Vec<u8>, IcicleError>| #[trigger]
            call_ensures(*gpu, (inputs, 32), reply) && inputs@ == slots.flatten() ==> reply is Ok
                && reply->Ok_0@ == slot_hashes.map_values(|h: Digest| h@).flatten(),
        state is Some && state->0.available && state->0.config.enabled
            && state->0.config.state_root,
        ({
            let min = state->0.config.min_batch;
            &&& addresses.len() >= min || slots.len() >= min
            &&& keys == (if addresses.len() >= min {
                address_hashes.map_values(|h: Digest| h@)
            } else {
                addresses.map_values(|item: Seq<u8>| keccak256_digest(item))
            })
            &&& key_lists.flatten() == (if slots.len() >= min {
                slot_hashes.map_values(|h: Digest| h@)
            } else {
                slots.map_values(|item: Seq<u8>| keccak256_digest(item))
            })
        }),
        key_lists.len() == bundle@.len(),
        forall|j: int|
            0 <= j < bundle@.len() ==> (#[trigger] key_lists[j]).len() == bundle@[j].storage@.len(),
        keys.no_duplicates(),
        0 <= i < bundle@.len(),
    ensures
        holds_account_under(out, bundle@[i], keys[i], key_lists[i]),
{
    lemma_addresses_joined(bundle@, addresses);
    lemma_slots_joined(bundle@, addresses, slots, slot_lists);
    lemma_flat_slots_len(bundle@);
    lemma_joined_parts(slots, 32);
    assert(slots.len() == slot_count(bundle@)) by {
        if slots.len() > 0 {
            assert(slots[slots.len() - 1].len() == 32);
        }
    }
    assert forall|j: int| 0 <= j < addresses.len() implies (#[trigger] addresses[j]).len() == 20 by {
        assert(addresses[j] == bundle@[j].address@);
    }
    let by_accounts = batches(state, bundle@.len() as int);
    let by_slots = batches(state, slot_count(bundle@) as int);
    let (a, s, ah, sh) = choose|
        a: &[u8],
        s: &[u8],
        ah: Seq<Seq<u8>>,
        sh: Seq<Seq<u8>>,
    |
        {
            &&& a@ == flat_addresses(bundle@)
            &&& s@ == flat_slots(bundle@)
            &&& #[trigger] is_batch_result(a, ADDRESS_LEN, by_accounts, *gpu, ah)
            &&& #[trigger] is_batch_result(s, SLOT_LEN, by_slots, *gpu, sh)
            &&& out@ == assembled(bundle@, ah, sh)
        };
    lemma_batch_hashes(a, 20, by_accounts, *gpu, ah, addresses, address_hashes);
    lemma_batch_hashes(s, 32, by_slots, *gpu, sh, slots, slot_hashes);
    lemma_holds_account_under(out, bundle@, keys, key_lists.flatten(), key_lists, i);
}

/// Where the state root is not accelerated, or there are neither enough accounts nor enough slots,
/// the state is that of the CPU, whatever the GPU would give.
pub proof fn gpu_has_no_say_in_small_states<A: Copy, G>(
    state: Option<&IcicleState>,
    bundle: &Vec<BundleAccount<A>>,
    gpu: &G,
    out: HashedPostState<A>,
    addresses: Seq<Seq<u8>>,
    slots: Seq<Seq<u8>>,
    slot_lists: Seq<Seq<Seq<u8>>>,
) where G: Fn(&[u8], usize) -> Result<Vec<u8>, IcicleError>
    requires
        call_ensures(hashed_post_state_from_bundle_state::<A, G>, (state, bundle, gpu), out),
        are_hashed_items(bundle@, addresses, slots, slot_lists),
        ({
            ||| state is None
            ||| !state->0.available
            ||| !state->0.config.enabled
            ||| !state->0.config.state_root
            ||| addresses.len() < state->0.config.min_batch && slots.len()
                < state->0.config.min_batch
        }),
        address_hashes_differ(bundle@),
    ensures
        forall|i: int| 0 <= i < bundle@.len() ==> holds_account(out, #[trigger] bundle@[i]),
        forall|key: Seq<u8>| #[trigger]
            out.accounts@.contains_key(key) ==> exists|i: int|
                0 <= i < bundle@.len() && keccak256_digest((#[trigger] bundle@[i]).address@) == key,
{
    lemma_slots_joined(bundle@, addresses, slots, slot_lists);
    lemma_flat_slots_len(bundle@);
    lemma_joined_parts(slots, 32);
    assert(slots.len() == slot_count(bundle@)) by {
        if slots.len() > 0 {
            assert(slots[slots.len() - 1].len() == 32);
        }
    }
    lemma_state_holds_accounts(out, bundle@);
}

} // verus!
