use reth_accel::config::IcicleBackend;
use reth_accel::config::IcicleConfig;
use reth_accel::icicle::IcicleError;
use reth_accel::icicle::IcicleState;
use reth_accel::keccak::keccak256_batch_fixed_gpu;
use reth_accel::keccak::keccak256_batch_fixed_or_cpu;
use reth_accel::keccak::keccak256_batch_fixed_or_cpu_force;
use reth_accel::keccak::keccak256_batch_fixed_or_cpu_state_root;
use reth_accel::keccak::keccak256_chunks;
use reth_accel::keccak::split_hashes;

fn unhex(text: &str) -> Vec<u8> {
    (0..text.len() / 2).map(|i| u8::from_str_radix(&text[2 * i..2 * i + 2], 16).unwrap()).collect()
}

fn state(min_batch: usize, hashing: bool, state_root: bool, available: bool) -> IcicleState {
    IcicleState {
        config: IcicleConfig {
            enabled: true,
            backend: IcicleBackend::Auto,
            backend_dir: None,
            device: None,
            min_batch,
            hashing,
            state_root,
            precompiles: false,
            sender_recovery: false,
            kzg: false,
        },
        available,
    }
}

fn no_gpu(_inputs: &[u8], _item_len: usize) -> Result<Vec<u8>, IcicleError> {
    Err(IcicleError("no GPU".to_string()))
}

/// Marks each item: a hash of the item's first byte, repeated.
fn marking_gpu(inputs: &[u8], item_len: usize) -> Result<Vec<u8>, IcicleError> {
    let mut out = Vec::new();
    for item in inputs.chunks(item_len) {
        out.extend_from_slice(&[item[0]; 32]);
    }
    Ok(out)
}

#[test]
fn hash_of_known_texts() {
    let hashes = keccak256_chunks(b"hello world", 11);
    assert_eq!(hashes.len(), 1);
    assert_eq!(
        hashes[0].to_vec(),
        unhex("47173285a8d7341e5e972fc677286384f802f8ef42a5ec5f03bbfa254cb01fad")
    );
}

#[test]
fn last_item_may_be_shorter() {
    let hashes = keccak256_chunks(&[7u8; 50], 20);
    assert_eq!(hashes.len(), 3);
    assert_eq!(hashes[0], hashes[1]);
    assert_eq!(hashes[2], keccak256_chunks(&[7u8; 10], 10)[0]);
}

#[test]
fn no_items_have_no_hashes() {
    assert!(keccak256_chunks(&[], 20).is_empty());
    let on = state(0, true, true, true);
    assert!(keccak256_batch_fixed_or_cpu(Some(&on), &[], 20, &marking_gpu).is_empty());
    assert!(keccak256_batch_fixed_or_cpu(Some(&on), &[1, 2], 0, &marking_gpu).is_empty());
}

#[test]
fn gpu_is_used_from_the_smallest_batch_on() {
    let on = state(2, true, false, true);
    let one = [5u8; 32];
    let two = [5u8; 64];
    let cpu = keccak256_chunks(&one, 32)[0];
    assert_eq!(keccak256_batch_fixed_or_cpu(Some(&on), &one, 32, &marking_gpu), vec![cpu]);
    assert_eq!(
        keccak256_batch_fixed_or_cpu(Some(&on), &two, 32, &marking_gpu),
        vec![[5u8; 32], [5u8; 32]]
    );
    assert_eq!(
        keccak256_batch_fixed_or_cpu_force(Some(&on), &one, 32, &marking_gpu),
        vec![[5u8; 32]]
    );
    assert_eq!(
        keccak256_batch_fixed_or_cpu_state_root(Some(&on), &two, 32, &marking_gpu),
        vec![cpu, cpu]
    );
}

#[test]
fn state_root_has_its_own_switch() {
    let on = state(2, false, true, true);
    let two = [5u8; 64];
    let cpu = keccak256_chunks(&two, 32);
    assert_eq!(keccak256_batch_fixed_or_cpu(Some(&on), &two, 32, &marking_gpu), cpu);
    assert_eq!(
        keccak256_batch_fixed_or_cpu_state_root(Some(&on), &two, 32, &marking_gpu),
        vec![[5u8; 32], [5u8; 32]]
    );
}

#[test]
fn items_of_different_lengths_are_hashed_by_the_cpu() {
    let on = state(0, true, true, true);
    let bytes = [5u8; 50];
    assert_eq!(
        keccak256_batch_fixed_or_cpu_force(Some(&on), &bytes, 32, &marking_gpu),
        keccak256_chunks(&bytes, 32)
    );
}

#[test]
fn failing_gpu_changes_nothing() {
    let on = state(0, true, true, true);
    let bytes = [9u8; 96];
    let cpu = keccak256_chunks(&bytes, 32);
    assert_eq!(keccak256_batch_fixed_or_cpu(Some(&on), &bytes, 32, &no_gpu), cpu);
    assert_eq!(keccak256_batch_fixed_or_cpu_force(Some(&on), &bytes, 32, &no_gpu), cpu);
    assert_eq!(keccak256_batch_fixed_or_cpu_state_root(Some(&on), &bytes, 32, &no_gpu), cpu);
    let short = |_inputs: &[u8], _item_len: usize| -> Result<Vec<u8>, IcicleError> {
        Ok(vec![0u8; 33])
    };
    assert_eq!(keccak256_batch_fixed_or_cpu(Some(&on), &bytes, 32, &short), cpu);
}

#[test]
fn right_gpu_changes_nothing() {
    let on = state(0, true, true, true);
    let bytes: Vec<u8> = (0..200u8).collect();
    let right = |inputs: &[u8], item_len: usize| -> Result<Vec<u8>, IcicleError> {
        Ok(keccak256_chunks(inputs, item_len).concat())
    };
    let cpu = keccak256_chunks(&bytes, 20);
    assert_eq!(keccak256_batch_fixed_or_cpu(Some(&on), &bytes, 20, &right), cpu);
    assert_eq!(keccak256_batch_fixed_or_cpu(None, &bytes, 20, &right), cpu);
}

#[test]
fn gpu_hashes_alone() {
    assert!(keccak256_batch_fixed_gpu(&[1, 2], 3, &marking_gpu).unwrap().is_empty());
    assert_eq!(keccak256_batch_fixed_gpu(&[1, 2], 1, &marking_gpu).unwrap(), [[1u8; 32], [2u8; 32]]);
    let err = keccak256_batch_fixed_gpu(&[1, 2], 1, &no_gpu).unwrap_err();
    assert_eq!(err.message(), "icicle error: no GPU");
}

#[test]
fn output_is_cut_into_hashes() {
    let mut bytes = vec![1u8; 32];
    bytes.extend_from_slice(&[2u8; 40]);
    assert_eq!(split_hashes(&bytes), vec![[1u8; 32], [2u8; 32]]);
}
