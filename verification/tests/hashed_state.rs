use reth_accel::config::IcicleBackend;
use reth_accel::config::IcicleConfig;
use reth_accel::hash_table::HashTable;
use reth_accel::hashed_state::AccountStatus;
use reth_accel::hashed_state::BundleAccount;
use reth_accel::hashed_state::HashedPostState;
use reth_accel::hashed_state::HashedStorage;
use reth_accel::hashed_state::hashed_post_state_from_bundle_state;
use reth_accel::icicle::IcicleError;
use reth_accel::icicle::IcicleState;
use reth_accel::keccak::Digest;
use reth_accel::keccak::keccak256_chunks;

fn state(min_batch: usize, state_root: bool) -> IcicleState {
    IcicleState {
        config: IcicleConfig {
            enabled: true,
            backend: IcicleBackend::Auto,
            backend_dir: None,
            device: None,
            min_batch,
            hashing: true,
            state_root,
            precompiles: false,
            sender_recovery: false,
            kzg: false,
        },
        available: true,
    }
}

fn hash(bytes: &[u8]) -> Digest {
    keccak256_chunks(bytes, bytes.len())[0]
}

fn account(
    address: u8,
    info: Option<u64>,
    status: AccountStatus,
    storage: &[(u8, u8)],
) -> BundleAccount<u64> {
    BundleAccount {
        address: [address; 20],
        info,
        status,
        storage: storage.iter().map(|(slot, value)| ([*slot; 32], [*value; 32])).collect(),
    }
}

fn bundle() -> Vec<BundleAccount<u64>> {
    vec![
        account(1, Some(10), AccountStatus::Changed, &[(1, 11), (2, 12)]),
        account(2, None, AccountStatus::Destroyed, &[]),
        account(3, Some(30), AccountStatus::Loaded, &[]),
        account(4, Some(40), AccountStatus::DestroyedChanged, &[(7, 77)]),
    ]
}

type StorageList = Vec<(Digest, [u8; 32])>;

/// The state as plain lists.
fn listed(
    state: &HashedPostState<u64>,
) -> (Vec<(Digest, Option<u64>)>, Vec<(Digest, bool, StorageList)>) {
    (
        state.accounts.entries().clone(),
        state
            .storages
            .entries()
            .iter()
            .map(|(key, storage)| (*key, storage.wiped, storage.storage.entries().clone()))
            .collect(),
    )
}

fn right_gpu(inputs: &[u8], item_len: usize) -> Result<Vec<u8>, IcicleError> {
    Ok(keccak256_chunks(inputs, item_len).concat())
}

fn marking_gpu(inputs: &[u8], item_len: usize) -> Result<Vec<u8>, IcicleError> {
    Ok(inputs.chunks(item_len).map(|item| [item[0]; 32]).collect::<Vec<[u8; 32]>>().concat())
}

fn no_gpu(_inputs: &[u8], _item_len: usize) -> Result<Vec<u8>, IcicleError> {
    Err(IcicleError("no GPU".to_string()))
}

#[test]
fn accounts_and_slots_are_keyed_by_their_hashes() {
    let (accounts, storages) = listed(&HashedPostState::from_bundle_state(&bundle()));
    assert_eq!(accounts.len(), 4);
    for (address, info) in [(1u8, Some(10)), (2, None), (3, Some(30)), (4, Some(40))] {
        let key = hash(&[address; 20]);
        assert!(accounts.contains(&(key, info)));
    }
    assert_eq!(storages.len(), 3);
    let first = storages.iter().find(|(key, _, _)| *key == hash(&[1u8; 20])).unwrap();
    assert!(!first.1);
    assert_eq!(first.2.len(), 2);
    assert!(first.2.contains(&(hash(&[1u8; 32]), [11u8; 32])));
    assert!(first.2.contains(&(hash(&[2u8; 32]), [12u8; 32])));
    let wiped = storages.iter().find(|(key, _, _)| *key == hash(&[2u8; 20])).unwrap();
    assert!(wiped.1);
    assert!(wiped.2.is_empty());
    assert!(storages.iter().all(|(key, _, _)| *key != hash(&[3u8; 20])));
    let both = storages.iter().find(|(key, _, _)| *key == hash(&[4u8; 20])).unwrap();
    assert!(both.1);
    assert_eq!(both.2, vec![(hash(&[7u8; 32]), [77u8; 32])]);
}

#[test]
fn entries_are_in_order() {
    let (accounts, _) = listed(&HashedPostState::from_bundle_state(&bundle()));
    assert!(accounts.windows(2).all(|pair| pair[0].0 < pair[1].0));
}

#[test]
fn right_or_missing_gpu_changes_no_state() {
    let plain = listed(&HashedPostState::from_bundle_state(&bundle()));
    for min_batch in [0, 1, 3, 4, 5, 100] {
        let on = state(min_batch, true);
        let with_gpu = hashed_post_state_from_bundle_state(Some(&on), &bundle(), &right_gpu);
        assert_eq!(listed(&with_gpu), plain);
        let without = hashed_post_state_from_bundle_state(Some(&on), &bundle(), &no_gpu);
        assert_eq!(listed(&without), plain);
    }
    let none = hashed_post_state_from_bundle_state(None, &bundle(), &marking_gpu);
    assert_eq!(listed(&none), plain);
    let off = state(0, false);
    let off = hashed_post_state_from_bundle_state(Some(&off), &bundle(), &marking_gpu);
    assert_eq!(listed(&off), plain);
}

#[test]
fn each_batch_is_handed_out_by_its_own_size() {
    let on = state(4, true);
    let out = hashed_post_state_from_bundle_state(Some(&on), &bundle(), &marking_gpu);
    let (accounts, storages) = listed(&out);
    let keys: Vec<u8> = accounts.iter().map(|(key, _)| key[0]).collect();
    assert_eq!(keys, vec![1, 2, 3, 4]);
    assert_eq!(storages[0].2.len(), 2);
    assert!(storages[0].2.contains(&(hash(&[1u8; 32]), [11u8; 32])));
    let on = state(3, true);
    let out = hashed_post_state_from_bundle_state(Some(&on), &bundle(), &marking_gpu);
    let (_, storages) = listed(&out);
    assert_eq!(storages[0].2, vec![([1u8; 32], [11u8; 32]), ([2u8; 32], [12u8; 32])]);
    assert_eq!(storages[2].2, vec![([7u8; 32], [77u8; 32])]);
}

#[test]
fn empty_bundle_changes_nothing() {
    let on = state(0, true);
    let out = hashed_post_state_from_bundle_state(Some(&on), &Vec::new(), &marking_gpu);
    assert_eq!(listed(&out), (vec![], vec![]));
}

#[test]
fn destroyed_statuses() {
    assert!(AccountStatus::Destroyed.was_destroyed());
    assert!(AccountStatus::DestroyedAgain.was_destroyed());
    assert!(AccountStatus::DestroyedChanged.was_destroyed());
    assert!(!AccountStatus::InMemoryChange.was_destroyed());
    assert!(!AccountStatus::LoadedNotExisting.was_destroyed());
}

#[test]
fn later_entries_replace_earlier_ones() {
    let mut table: HashTable<u8> = HashTable::new();
    assert!(table.is_empty());
    for key in [5u8, 1, 9, 5, 3, 9] {
        table.insert([key; 32], key + table.entries().len() as u8);
    }
    let keys: Vec<u8> = table.entries().iter().map(|(key, _)| key[0]).collect();
    assert_eq!(keys, vec![1, 3, 5, 9]);
    assert_eq!(table.entries()[2].1, 5 + 3);
    assert_eq!(table.entries()[3].1, 9 + 4);
    assert!(!table.is_empty());
}

#[test]
fn storage_is_empty_unless_wiped_or_filled() {
    assert!(HashedStorage::from_iter(false, &[], &Vec::new()).is_empty());
    assert!(!HashedStorage::from_iter(true, &[], &Vec::new()).is_empty());
    assert!(!HashedStorage::from_iter(false, &[[1; 32]], &vec![([2; 32], [3; 32])]).is_empty());
}
