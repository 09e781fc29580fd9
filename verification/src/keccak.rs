//! Keccak-256 of many equally long items, on the GPU where it is worth it.

use crate::bytes::lemma_cut_and_joined;
use crate::bytes::lemma_joined_parts;
use crate::icicle::IcicleError;
use crate::icicle::IcicleState;
use crate::icicle::hashes;
use crate::icicle::hashing_enabled;
use crate::icicle::roots;
use crate::icicle::should_use_keccak_batch;
use crate::icicle::should_use_keccak_batch_state_root;
use vstd::arithmetic::div_mod::lemma_div_by_multiple;
use vstd::arithmetic::div_mod::lemma_fundamental_div_mod;
use vstd::arithmetic::div_mod::lemma_mod_multiples_basic;
use vstd::prelude::*;
use vstd::slice::slice_subrange;

verus! {

/// Length of a hash in bytes.
pub const HASH_LEN: usize = 32;

/// A Keccak-256 hash.
pub type Digest = [u8; 32];

/// What `alloy_primitives::keccak256` gives for some bytes: their Keccak-256 hash.
pub uninterp spec fn keccak256_digest(data: Seq<u8>) -> Seq<u8>;

/// `alloy_primitives::keccak256`: the Keccak-256 hash of the bytes, 32 bytes long.
#[verifier::external_body]
pub(crate) fn keccak256(data: &[u8]) -> (hash: Digest)
    ensures
        hash@ == keccak256_digest(data@),
{
    alloy_primitives::keccak256(data).0
}

/// The hashes as byte strings.
pub open spec fn hash_views(list: Seq<Digest>) -> Seq<Seq<u8>> {
    list.map_values(|h: Digest| h@)
}

/// Number of items of `item_len` bytes in `total` bytes, where the last one may be shorter.
pub open spec fn chunk_count(total: int, item_len: int) -> int {
    if total % item_len == 0 {
        total / item_len
    } else {
        total / item_len + 1
    }
}

/// Item `i` of the bytes.
pub open spec fn chunk(inputs: Seq<u8>, item_len: int, i: int) -> Seq<u8> {
    let end = (i + 1) * item_len;
    inputs.subrange(
        i * item_len,
        if end < inputs.len() {
            end
        } else {
            inputs.len() as int
        },
    )
}

/// The hash of each item.
pub open spec fn chunk_digests(inputs: Seq<u8>, item_len: int) -> Seq<Seq<u8>> {
    Seq::new(
        chunk_count(inputs.len() as int, item_len) as nat,
        |i: int| keccak256_digest(chunk(inputs, item_len, i)),
    )
}

/// Bytes as a list of hashes.
pub open spec fn split_digests(bytes: Seq<u8>) -> Seq<Seq<u8>> {
    Seq::new(
        bytes.len() / HASH_LEN as nat,
        |i: int| bytes.subrange(i * HASH_LEN, (i + 1) * HASH_LEN),
    )
}

/// What the GPU's answer to `batch` items counts for: its bytes as hashes, if it gave an answer
/// of the right size.
pub open spec fn gpu_digests(batch: int, reply: Result<Vec<u8>, IcicleError>) -> Option<
    Seq<Seq<u8>>,
> {
    match reply {
        Ok(bytes) => if bytes@.len() == batch * HASH_LEN {
            Some(split_digests(bytes@))
        } else {
            None
        },
        Err(_) => None,
    }
}

/// The hashes of a batch: none of no items, and otherwise the GPU's where it is used and gave
/// them, and the CPU's where not. The GPU is never used for items of different lengths.
pub open spec fn is_batch_result<G>(
    inputs: &[u8],
    item_len: usize,
    use_gpu: bool,
    gpu: G,
    result: Seq<Seq<u8>>,
) -> bool where G: Fn(&[u8], usize) -> Result<Vec<u8>, IcicleError> {
    if inputs@.len() == 0 || item_len == 0 {
        result.len() == 0
    } else if inputs@.len() as int % item_len as int != 0 || !use_gpu {
        result == chunk_digests(inputs@, item_len as int)
    } else {
        exists|reply: Result<Vec<u8>, IcicleError>|
            #[trigger] call_ensures(gpu, (inputs, item_len), reply) && result == (match gpu_digests(
                inputs@.len() as int / item_len as int,
                reply,
            ) {
                Some(digests) => digests,
                None => chunk_digests(inputs@, item_len as int),
            })
    }
}

/// A whole number of items is that number of items.
pub proof fn lemma_whole_chunks(count: int, item_len: int)
    requires
        count >= 0,
        item_len > 0,
    ensures
        (count * item_len) % item_len == 0,
        (count * item_len) / item_len == count,
        chunk_count(count * item_len, item_len) == count,
        count * item_len >= 0,
{
    lemma_mod_multiples_basic(count, item_len);
    lemma_div_by_multiple(count, item_len);
    assert(count * item_len >= 0) by (nonlinear_arith)
        requires
            count >= 0,
            item_len > 0,
    ;
}

/// The place of an item is within the bytes.
proof fn lemma_chunk_bounds(total: int, item_len: int, i: int)
    requires
        total >= 0,
        item_len > 0,
        0 <= i < chunk_count(total, item_len),
    ensures
        0 <= i * item_len < total,
        i * item_len < (i + 1) * item_len,
        (i + 1) * item_len == i * item_len + item_len,
{
    lemma_fundamental_div_mod(total, item_len);
    let q = total / item_len;
    let r = total % item_len;
    assert(i * item_len <= q * item_len) by (nonlinear_arith)
        requires
            i <= q,
            item_len > 0,
    ;
    assert(q * item_len == item_len * q) by (nonlinear_arith);
    assert((i + 1) * item_len == i * item_len + item_len) by (nonlinear_arith);
    assert(0 <= i * item_len) by (nonlinear_arith)
        requires
            0 <= i,
            item_len > 0,
    ;
    if r == 0 {
        assert((i + 1) * item_len <= q * item_len) by (nonlinear_arith)
            requires
                i + 1 <= q,
                item_len > 0,
        ;
    }
}

/// Hashes the items on the CPU.
pub fn keccak256_chunks(inputs: &[u8], item_len: usize) -> (out: Vec<Digest>)
    requires
        item_len > 0,
    ensures
        hash_views(out@) == chunk_digests(inputs@, item_len as int),
{
    let mut out: Vec<Digest> = Vec::new();
    let ghost total = inputs@.len() as int;
    let ghost expected = chunk_digests(inputs@, item_len as int);
    let mut start: usize = 0;
    proof {
        lemma_fundamental_div_mod(total, item_len as int);
        assert(0 * item_len == 0 && item_len * 0 == 0) by (nonlinear_arith);
        if expected.len() == 0 {
            assert(total / item_len as int == 0);
            assert(total == 0);
        }
    }
    while start < inputs.len()
        invariant
            item_len > 0,
            total == inputs@.len(),
            expected == chunk_digests(inputs@, item_len as int),
            out@.len() <= expected.len(),
            start == (if out@.len() < expected.len() {
                out@.len() * item_len
            } else {
                total
            }),
            forall|j: int| 0 <= j < out@.len() ==> (#[trigger] out@[j])@ == expected[j],
        decreases inputs.len() - start,
    {
        let ghost i = out@.len() as int;
        proof {
            if i >= expected.len() {
                assert(start == total);
            }
            lemma_chunk_bounds(total, item_len as int, i);
        }
        let end: usize = if inputs.len() - start > item_len {
            start + item_len
        } else {
            inputs.len()
        };
        let item: &[u8] = slice_subrange(inputs, start, end);
        assert(item@ =~= chunk(inputs@, item_len as int, i));
        out.push(keccak256(item));
        proof {
            if i + 1 < expected.len() {
                lemma_chunk_bounds(total, item_len as int, i + 1);
            } else {
                lemma_last_chunk_reaches_end(total, item_len as int, i);
            }
        }
        start = end;
    }
    proof {
        if out@.len() < expected.len() {
            lemma_chunk_bounds(total, item_len as int, out@.len() as int);
        }
        assert(hash_views(out@) =~= expected);
    }
    out
}

/// The last item ends with the bytes.
proof fn lemma_last_chunk_reaches_end(total: int, item_len: int, i: int)
    requires
        total >= 0,
        item_len > 0,
        i + 1 == chunk_count(total, item_len),
    ensures
        (i + 1) * item_len >= total,
{
    lemma_fundamental_div_mod(total, item_len);
    let q = total / item_len;
    assert(q * item_len == item_len * q) by (nonlinear_arith);
    if total % item_len == 0 {
        assert((i + 1) * item_len == q * item_len) by (nonlinear_arith)
            requires
                i + 1 == q,
        ;
    } else {
        assert((i + 1) * item_len == q * item_len + item_len) by (nonlinear_arith)
            requires
                i == q,
        ;
    }
}

/// Cuts the GPU's output into hashes; what is left over at the end is dropped.
pub fn split_hashes(output: &[u8]) -> (out: Vec<Digest>)
    ensures
        hash_views(out@) == split_digests(output@),
{
    let count: usize = output.len() / HASH_LEN;
    let mut out: Vec<Digest> = Vec::new();
    let mut i: usize = 0;
    while i < count
        invariant
            i <= count,
            count == output@.len() / HASH_LEN as nat,
            count * HASH_LEN <= output.len(),
            out@.len() == i,
            forall|j: int|
                0 <= j < i ==> (#[trigger] out@[j])@ == output@.subrange(
                    j * HASH_LEN,
                    (j + 1) * HASH_LEN,
                ),
        decreases count - i,
    {
        assert(i * HASH_LEN + HASH_LEN <= count * HASH_LEN);
        let start: usize = i * HASH_LEN;
        let mut hash: Digest = [0u8;32];
        let mut k: usize = 0;
        while k < HASH_LEN
            invariant
                k <= HASH_LEN,
                start + HASH_LEN <= output.len(),
                hash@.len() == HASH_LEN,
                forall|m: int| 0 <= m < k ==> hash@[m] == output@[start + m],
            decreases HASH_LEN - k,
        {
            hash[k] = output[start + k];
            k += 1;
        }
        assert(hash@ =~= output@.subrange(i * HASH_LEN, (i + 1) * HASH_LEN));
        out.push(hash);
        i += 1;
    }
    assert(hash_views(out@) =~= split_digests(output@));
    out
}

/// Hashes the items on the GPU. `gpu` is handed the bytes and the length of an item, and gives
/// back the hashes one after the other.
pub fn keccak256_batch_fixed_gpu<G>(inputs: &[u8], item_len: usize, gpu: &G) -> (out: Result<
    Vec<Digest>,
    IcicleError,
>) where G: Fn(&[u8], usize) -> Result<Vec<u8>, IcicleError>
    requires
        item_len > 0,
        call_requires(*gpu, (inputs, item_len)),
    ensures
        inputs@.len() < item_len ==> out is Ok && out->Ok_0@.len() == 0,
        inputs@.len() >= item_len ==> exists|reply: Result<Vec<u8>, IcicleError>|
            #[trigger] call_ensures(*gpu, (inputs, item_len), reply) && (match gpu_digests(
                inputs@.len() as int / item_len as int,
                reply,
            ) {
                Some(digests) => out is Ok && hash_views(out->Ok_0@) == digests,
                None => out is Err && match reply {
                    Ok(_) => out->Err_0.0@ == "keccak output has the wrong length"@,
                    Err(err) => out->Err_0 == err,
                },
            }),
{
    let batch: usize = inputs.len() / item_len;
    proof {
        lemma_fundamental_div_mod(inputs@.len() as int, item_len as int);
        assert(batch == 0 ==> inputs@.len() < item_len) by (nonlinear_arith)
            requires
                inputs@.len() == item_len * batch + inputs@.len() as int % item_len as int,
                0 <= inputs@.len() as int % item_len as int,
                (inputs@.len() as int % item_len as int) < item_len,
        ;
        assert(inputs@.len() < item_len ==> batch == 0) by (nonlinear_arith)
            requires
                inputs@.len() == item_len * batch + inputs@.len() as int % item_len as int,
                0 <= inputs@.len() as int % item_len as int,
                item_len > 0,
                batch >= 0,
        ;
    }
    if batch == 0 {
        return Ok(Vec::new());
    }
    let reply: Result<Vec<u8>, IcicleError> = (*gpu)(inputs, item_len);
    match reply {
        Ok(bytes) => {
            if bytes.len() % HASH_LEN == 0 && bytes.len() / HASH_LEN == batch {
                let out: Vec<Digest> = split_hashes(bytes.as_slice());
                Ok(out)
            } else {
                Err(IcicleError("keccak output has the wrong length".to_owned()))
            }
        },
        Err(err) => Err(err),
    }
}

/// Hashes a batch on the GPU where `use_gpu` says so, and on the CPU where not or where the GPU
/// fails.
fn keccak256_batch<G>(inputs: &[u8], item_len: usize, use_gpu: bool, gpu: &G) -> (out: Vec<
    Digest,
>) where G: Fn(&[u8], usize) -> Result<Vec<u8>, IcicleError>
    requires
        call_requires(*gpu, (inputs, item_len)),
    ensures
        is_batch_result(inputs, item_len, use_gpu, *gpu, hash_views(out@)),
{
    if inputs.len() == 0 || item_len == 0 {
        return Vec::new();
    }
    if inputs.len() % item_len != 0 {
        return keccak256_chunks(inputs, item_len);
    }
    if use_gpu {
        proof {
            lemma_fundamental_div_mod(inputs@.len() as int, item_len as int);
            assert(inputs@.len() >= item_len) by (nonlinear_arith)
                requires
                    inputs@.len() > 0,
                    item_len > 0,
                    inputs@.len() == item_len as int * (inputs@.len() as int / item_len as int),
            ;
        }
        if let Ok(hashes) = keccak256_batch_fixed_gpu(inputs, item_len, gpu) {
            return hashes;
        }
    }
    keccak256_chunks(inputs, item_len)
}

/// A batch has as many hashes as items.
pub proof fn lemma_batch_len<G>(
    inputs: &[u8],
    item_len: usize,
    use_gpu: bool,
    gpu: G,
    result: Seq<Seq<u8>>,
) where G: Fn(&[u8], usize) -> Result<Vec<u8>, IcicleError>
    requires
        item_len > 0,
        inputs@.len() as int % item_len as int == 0,
        is_batch_result(inputs, item_len, use_gpu, gpu, result),
    ensures
        result.len() == inputs@.len() as int / item_len as int,
{
    if inputs@.len() == 0 {
        lemma_fundamental_div_mod(0, item_len as int);
        assert(0int / item_len as int == 0) by (nonlinear_arith)
            requires
                item_len > 0,
        ;
    } else {
        lemma_fundamental_div_mod(inputs@.len() as int, item_len as int);
        assert(inputs@.len() as int / item_len as int >= 0) by (nonlinear_arith)
            requires
                inputs@.len() >= 0,
                item_len > 0,
        ;
    }
}

/// Compute Keccak-256 for a fixed-size batch using Icicle when available, falling back to CPU.
pub fn keccak256_batch_fixed_or_cpu<G>(
    state: Option<&IcicleState>,
    inputs: &[u8],
    item_len: usize,
    gpu: &G,
) -> (out: Vec<Digest>) where G: Fn(&[u8], usize) -> Result<Vec<u8>, IcicleError>
    requires
        call_requires(*gpu, (inputs, item_len)),
    ensures
        is_batch_result(
            inputs,
            item_len,
            hashes(state) && inputs@.len() as int / item_len as int >= state->0.config.min_batch,
            *gpu,
            hash_views(out@),
        ),
{
    let use_gpu: bool = item_len > 0 && should_use_keccak_batch(state, inputs.len() / item_len);
    keccak256_batch(inputs, item_len, use_gpu, gpu)
}

/// Compute Keccak-256 for a fixed-size batch, always attempting Icicle when hashing is enabled.
pub fn keccak256_batch_fixed_or_cpu_force<G>(
    state: Option<&IcicleState>,
    inputs: &[u8],
    item_len: usize,
    gpu: &G,
) -> (out: Vec<Digest>) where G: Fn(&[u8], usize) -> Result<Vec<u8>, IcicleError>
    requires
        call_requires(*gpu, (inputs, item_len)),
    ensures
        is_batch_result(
            inputs,
            item_len,
            hashes(state),
            *gpu,
            hash_views(out@),
        ),
{
    let use_gpu: bool = hashing_enabled(state);
    keccak256_batch(inputs, item_len, use_gpu, gpu)
}

/// Compute Keccak-256 for a fixed-size batch using Icicle for state root work, falling back to
/// CPU.
pub fn keccak256_batch_fixed_or_cpu_state_root<G>(
    state: Option<&IcicleState>,
    inputs: &[u8],
    item_len: usize,
    gpu: &G,
) -> (out: Vec<Digest>) where G: Fn(&[u8], usize) -> Result<Vec<u8>, IcicleError>
    requires
        call_requires(*gpu, (inputs, item_len)),
    ensures
        is_batch_result(
            inputs,
            item_len,
            roots(state) && inputs@.len() as int / item_len as int >= state->0.config.min_batch,
            *gpu,
            hash_views(out@),
        ),
{
    let use_gpu: bool = item_len > 0 && should_use_keccak_batch_state_root(
        state,
        inputs.len() / item_len,
    );
    keccak256_batch(inputs, item_len, use_gpu, gpu)
}

/// The GPU answers with the hashes of these items, or does not answer.
pub open spec fn answers_with_hashes_of<G>(gpu: G, inputs: &[u8], item_len: usize) -> bool where
    G: Fn(&[u8], usize) -> Result<Vec<u8>, IcicleError>,
 {
    forall|reply: Result<Vec<u8>, IcicleError>| #[trigger]
        call_ensures(gpu, (inputs, item_len), reply) ==> match gpu_digests(
            inputs@.len() as int / item_len as int,
            reply,
        ) {
            Some(digests) => digests == chunk_digests(inputs@, item_len as int),
            None => true,
        }
}

/// The GPU answers with the hashes of the items, whatever they are, or does not answer.
pub open spec fn answers_with_hashes<G>(gpu: G) -> bool where
    G: Fn(&[u8], usize) -> Result<Vec<u8>, IcicleError>,
 {
    forall|inputs: &[u8], item_len: usize|
        item_len > 0 ==> #[trigger] answers_with_hashes_of(gpu, inputs, item_len)
}

/// Using the GPU changes nothing but the speed: where its answers are the hashes of the items or
/// no answer, a batch has the hashes that the CPU computes.
pub proof fn gpu_hashing_is_transparent<G>(
    inputs: &[u8],
    item_len: usize,
    use_gpu: bool,
    gpu: G,
    result: Seq<Seq<u8>>,
) where G: Fn(&[u8], usize) -> Result<Vec<u8>, IcicleError>
    requires
        item_len > 0,
        is_batch_result(inputs, item_len, use_gpu, gpu, result),
        answers_with_hashes_of(gpu, inputs, item_len),
    ensures
        result == chunk_digests(inputs@, item_len as int),
{
    if inputs@.len() == 0 {
        lemma_fundamental_div_mod(0, item_len as int);
        assert(0int / item_len as int == 0) by (nonlinear_arith)
            requires
                item_len > 0,
        ;
        assert(result =~= chunk_digests(inputs@, item_len as int));
    }
}

/// The items, one after the other, are the bytes: all but the last have `item_len` bytes, and the
/// last one has between one and `item_len`.
pub open spec fn are_items_of(items: Seq<Seq<u8>>, inputs: Seq<u8>, item_len: int) -> bool {
    &&& items.flatten() == inputs
    &&& forall|i: int| 0 <= i < items.len() - 1 ==> (#[trigger] items[i]).len() == item_len
    &&& items.len() > 0 ==> 0 < items.last().len() <= item_len
}

/// The list holds the Keccak-256 hash of each item, in the order of the items.
pub open spec fn are_hashes_of(list: Seq<Digest>, items: Seq<Seq<u8>>) -> bool {
    &&& list.len() == items.len()
    &&& forall|i: int| 0 <= i < items.len() ==> (#[trigger] list[i])@ == keccak256_digest(items[i])
}

/// The items are the ones that the bytes are cut into.
pub proof fn lemma_items_are_chunks(items: Seq<Seq<u8>>, inputs: Seq<u8>, item_len: int)
    requires
        item_len > 0,
        are_items_of(items, inputs, item_len),
    ensures
        chunk_digests(inputs, item_len) == items.map_values(|item: Seq<u8>| keccak256_digest(item)),
        inputs.len() as int / item_len == items.len() || inputs.len() as int % item_len != 0,
        items.len() > 0 && items.last().len() == item_len ==> inputs.len() as int % item_len == 0,
        inputs.len() == 0 <==> items.len() == 0,
{
    lemma_joined_parts(items, item_len);
    let n = items.len() as int;
    let total = inputs.len() as int;
    lemma_fundamental_div_mod(total, item_len);
    let q = total / item_len;
    let r = total % item_len;
    assert(q * item_len == item_len * q) by (nonlinear_arith);
    assert(q * item_len + r == total);
    if n == 0 {
        assert(q == 0) by (nonlinear_arith)
            requires
                q * item_len + r == 0,
                0 <= r < item_len,
        ;
    } else {
        assert(n - 1 <= q <= n) by (nonlinear_arith)
            requires
                (n - 1) * item_len < q * item_len + r <= n * item_len,
                0 <= r < item_len,
        ;
        assert(r == 0 ==> q == n) by (nonlinear_arith)
            requires
                (n - 1) * item_len < q * item_len + r <= n * item_len,
                n - 1 <= q <= n,
                0 <= r < item_len,
        ;
        assert(r != 0 ==> q == n - 1) by (nonlinear_arith)
            requires
                (n - 1) * item_len < q * item_len + r <= n * item_len,
                n - 1 <= q <= n,
                0 <= r < item_len,
        ;
        if items.last().len() == item_len {
            assert((n - 1) * item_len + item_len == n * item_len) by (nonlinear_arith);
            lemma_whole_chunks(n, item_len);
        }
    }
    assert(chunk_count(total, item_len) == n);
    let digests = chunk_digests(inputs, item_len);
    let expected = items.map_values(|item: Seq<u8>| keccak256_digest(item));
    assert forall|i: int| 0 <= i < n implies digests[i] == expected[i] by {
        assert(items[i] == inputs.subrange(i * item_len, i * item_len + items[i].len()));
        assert((i + 1) * item_len == i * item_len + item_len) by (nonlinear_arith);
        if i < n - 1 {
            assert((i + 1) * item_len <= (n - 1) * item_len) by (nonlinear_arith)
                requires
                    i + 1 <= n - 1,
                    item_len > 0,
            ;
        } else {
            assert(i * item_len + items[i].len() == inputs.len());
        }
        assert(chunk(inputs, item_len, i) =~= items[i]);
    }
    assert(digests =~= expected);
}

/// The CPU hashes each item, the last and shorter one too, and keeps their order.
pub proof fn cpu_hashes_every_item(
    inputs: &[u8],
    item_len: usize,
    items: Seq<Seq<u8>>,
    out: Vec<Digest>,
)
    requires
        item_len > 0,
        are_items_of(items, inputs@, item_len as int),
        call_ensures(keccak256_chunks, (inputs, item_len), out),
    ensures
        are_hashes_of(out@, items),
{
    lemma_items_are_chunks(items, inputs@, item_len as int);
    lemma_views_are_hashes(out@, items, hash_views(out@));
}

/// What the hashes are as byte strings, they are themselves.
proof fn lemma_views_are_hashes(list: Seq<Digest>, items: Seq<Seq<u8>>, views: Seq<Seq<u8>>)
    requires
        views == hash_views(list),
        views == items.map_values(|item: Seq<u8>| keccak256_digest(item)),
    ensures
        are_hashes_of(list, items),
{
    assert(views.len() == list.len());
    assert forall|i: int| 0 <= i < items.len() implies (#[trigger] list[i])@ == keccak256_digest(
        items[i],
    ) by {
        assert(views[i] == list[i]@);
    }
}

/// Cutting undoes joining: what is cut into hashes is, when the hashes are joined again, what was
/// there before, up to the last whole hash; and hashes that were joined come out one by one.
pub proof fn cutting_undoes_joining(output: &[u8], out: Vec<Digest>, list: Seq<Digest>)
    requires
        call_ensures(split_hashes, (output,), out),
    ensures
        out@.len() == output@.len() / 32,
        out@.map_values(|h: Digest| h@).flatten() == output@.take(32 * (output@.len() as int / 32)),
        output@.len() % 32 == 0 ==> out@.map_values(|h: Digest| h@).flatten() == output@,
        list.map_values(|h: Digest| h@).flatten() == output@ ==> out@.len() == list.len() && forall|
            i: int,
        |
            0 <= i < list.len() ==> (#[trigger] out@[i])@ == list[i]@,
{
    let views = hash_views(out@);
    assert(out@.map_values(|h: Digest| h@) =~= views);
    assert forall|i: int| 0 <= i < views.len() implies #[trigger] views[i] == output@.subrange(
        i * 32,
        i * 32 + 32,
    ) by {
        assert(split_digests(output@)[i] == output@.subrange(i * HASH_LEN, (i + 1) * HASH_LEN));
    }
    lemma_cut_and_joined(output@, views, 32);
    assert(output@.take(output@.len() as int) =~= output@);
    let parts = list.map_values(|h: Digest| h@);
    if parts.flatten() == output@ {
        lemma_joined_hashes(list);
        assert forall|i: int| 0 <= i < list.len() implies (#[trigger] out@[i])@ == list[i]@ by {
            assert(views[i] == out@[i]@);
            assert(parts[i] == list[i]@);
        }
    }
}

/// Where each hash is when hashes are joined.
pub proof fn lemma_joined_hashes(list: Seq<Digest>)
    ensures
        ({
            let parts = list.map_values(|h: Digest| h@);
            &&& parts.flatten().len() == list.len() * 32
            &&& forall|i: int|
                0 <= i < list.len() ==> #[trigger] parts[i] == parts.flatten().subrange(
                    i * 32,
                    i * 32 + 32,
                )
        }),
{
    let parts = list.map_values(|h: Digest| h@);
    assert forall|i: int| 0 <= i < parts.len() implies (#[trigger] parts[i]).len() == 32 by {
        assert(parts[i] == list[i]@);
    }
    lemma_joined_parts(parts, 32);
}

/// The GPU gives the hashes of the items, one after the other, or it fails, or what it gives has
/// not the length of as many hashes.
pub open spec fn gives_hashes_of<G>(
    gpu: G,
    inputs: &[u8],
    item_len: usize,
    hashes: Seq<Digest>,
) -> bool where G: Fn(&[u8], usize) -> Result<Vec<u8>, IcicleError> {
    forall|reply: Result<Vec<u8>, IcicleError>| #[trigger]
        call_ensures(gpu, (inputs, item_len), reply) ==> match reply {
            Ok(bytes) => bytes@.len() == 32 * hashes.len() ==> bytes@ == hashes.map_values(
                |h: Digest| h@,
            ).flatten(),
            Err(_) => true,
        }
}

/// A GPU that gives the bytes of the hashes answers with the hashes.
pub proof fn lemma_gives_hashes<G>(
    gpu: G,
    inputs: &[u8],
    item_len: usize,
    items: Seq<Seq<u8>>,
    hashes: Seq<Digest>,
) where G: Fn(&[u8], usize) -> Result<Vec<u8>, IcicleError>
    requires
        item_len > 0,
        inputs@.len() as int % item_len as int == 0,
        are_items_of(items, inputs@, item_len as int),
        are_hashes_of(hashes, items),
        gives_hashes_of(gpu, inputs, item_len, hashes),
    ensures
        answers_with_hashes_of(gpu, inputs, item_len),
{
    lemma_items_are_chunks(items, inputs@, item_len as int);
    lemma_joined_hashes(hashes);
    let n = inputs@.len() as int / item_len as int;
    let digests = chunk_digests(inputs@, item_len as int);
    let parts = hashes.map_values(|h: Digest| h@);
    assert forall|reply: Result<Vec<u8>, IcicleError>| #[trigger]
        call_ensures(gpu, (inputs, item_len), reply) implies match gpu_digests(n, reply) {
        Some(list) => list == digests,
        None => true,
    } by {
        if let Ok(bytes) = reply {
            if bytes@.len() == n * HASH_LEN {
                assert(bytes@ == parts.flatten());
                let list = split_digests(bytes@);
                assert forall|i: int| 0 <= i < list.len() implies list[i] == digests[i] by {
                    assert(parts[i] == hashes[i]@);
                    assert(parts[i] == parts.flatten().subrange(i * 32, i * 32 + 32));
                    assert(digests[i] == keccak256_digest(items[i]));
                }
                assert(list =~= digests);
            }
        }
    }
}

/// Hashing a batch gives the Keccak-256 hash of every item, in the order of the items, whether the
/// GPU is used or not: its bytes are the hashes one after the other, or it fails.
pub proof fn batch_is_the_hash_of_every_item<G>(
    state: Option<&IcicleState>,
    inputs: &[u8],
    item_len: usize,
    gpu: &G,
    items: Seq<Seq<u8>>,
    hashes: Seq<Digest>,
    out: Vec<Digest>,
) where G: Fn(&[u8], usize) -> Result<Vec<u8>, IcicleError>
    requires
        item_len > 0,
        are_items_of(items, inputs@, item_len as int),
        are_hashes_of(hashes, items),
        gives_hashes_of(*gpu, inputs, item_len, hashes),
        ({
            ||| call_ensures(keccak256_batch_fixed_or_cpu::<G>, (state, inputs, item_len, gpu), out)
            ||| call_ensures(
                keccak256_batch_fixed_or_cpu_force::<G>,
                (state, inputs, item_len, gpu),
                out,
            )
            ||| call_ensures(
                keccak256_batch_fixed_or_cpu_state_root::<G>,
                (state, inputs, item_len, gpu),
                out,
            )
        }),
    ensures
        are_hashes_of(out@, items),
{
    lemma_items_are_chunks(items, inputs@, item_len as int);
    if inputs@.len() > 0 && inputs@.len() as int % item_len as int == 0 {
        lemma_gives_hashes(*gpu, inputs, item_len, items, hashes);
    }
    if inputs@.len() == 0 {
        assert(hash_views(out@) =~= chunk_digests(inputs@, item_len as int));
    }
    assert(hash_views(out@) == chunk_digests(inputs@, item_len as int));
    lemma_views_are_hashes(out@, items, hash_views(out@));
}

/// No items, or items of no bytes, have no hashes.
pub proof fn nothing_has_no_hashes<G>(
    state: Option<&IcicleState>,
    inputs: &[u8],
    item_len: usize,
    gpu: &G,
    out: Vec<Digest>,
) where G: Fn(&[u8], usize) -> Result<Vec<u8>, IcicleError>
    requires
        item_len == 0 || inputs@.len() == 0,
        ({
            ||| call_ensures(keccak256_batch_fixed_or_cpu::<G>, (state, inputs, item_len, gpu), out)
            ||| call_ensures(
                keccak256_batch_fixed_or_cpu_force::<G>,
                (state, inputs, item_len, gpu),
                out,
            )
            ||| call_ensures(
                keccak256_batch_fixed_or_cpu_state_root::<G>,
                (state, inputs, item_len, gpu),
                out,
            )
        }),
    ensures
        out@.len() == 0,
{
    assert(hash_views(out@).len() == 0);
}

/// The GPU is loaded and acceleration is on.
pub open spec fn gpu_is_on(state: Option<&IcicleState>) -> bool {
    match state {
        Some(state) => state.available && state.config.enabled,
        None => false,
    }
}

/// The GPU hashes a batch exactly where its use is asked for: hashing, or the state root, is
/// accelerated, the items are equally long, and there are as many as it is worth it for. There
/// what the GPU gives is what comes back, and elsewhere the GPU has no say. Where hashing is to be
/// forced, any number of items is worth it.
pub proof fn gpu_is_used_where_it_is_worth_it<G>(
    state: Option<&IcicleState>,
    inputs: &[u8],
    item_len: usize,
    gpu: &G,
    items: Seq<Seq<u8>>,
    answer: Seq<u8>,
    plain: Vec<Digest>,
    forced: Vec<Digest>,
    root: Vec<Digest>,
) where G: Fn(&[u8], usize) -> Result<Vec<u8>, IcicleError>
    requires
        item_len > 0,
        items.len() > 0,
        are_items_of(items, inputs@, item_len as int),
        answer.len() == 32 * items.len(),
        forall|reply: Result<Vec<u8>, IcicleError>| #[trigger]
            call_ensures(*gpu, (inputs, item_len), reply) ==> reply is Ok && reply->Ok_0@ == answer,
        call_ensures(keccak256_batch_fixed_or_cpu::<G>, (state, inputs, item_len, gpu), plain),
        call_ensures(
            keccak256_batch_fixed_or_cpu_force::<G>,
            (state, inputs, item_len, gpu),
            forced,
        ),
        call_ensures(
            keccak256_batch_fixed_or_cpu_state_root::<G>,
            (state, inputs, item_len, gpu),
            root,
        ),
    ensures
        ({
            let on = gpu_is_on(state) && items.last().len() == item_len;
            let worth = items.len() >= state->0.config.min_batch;
            &&& if on && state->0.config.hashing && worth {
                plain@.map_values(|h: Digest| h@).flatten() == answer
            } else {
                are_hashes_of(plain@, items)
            }
            &&& if on && state->0.config.hashing {
                forced@.map_values(|h: Digest| h@).flatten() == answer
            } else {
                are_hashes_of(forced@, items)
            }
            &&& if on && state->0.config.state_root && worth {
                root@.map_values(|h: Digest| h@).flatten() == answer
            } else {
                are_hashes_of(root@, items)
            }
        }),
{
    let total = inputs@.len() as int;
    let n = items.len() as int;
    lemma_items_are_chunks(items, inputs@, item_len as int);
    lemma_joined_parts(items, item_len as int);
    let whole = total % item_len as int == 0;
    assert(whole <==> items.last().len() == item_len) by {
        if whole {
            lemma_fundamental_div_mod(total, item_len as int);
            assert(total == item_len * n);
            assert((n - 1) * item_len + item_len == item_len * n) by (nonlinear_arith);
        }
    }
    lemma_answer_is_joined(plain@, answer);
    lemma_answer_is_joined(forced@, answer);
    lemma_answer_is_joined(root@, answer);
    let digests = chunk_digests(inputs@, item_len as int);
    if hash_views(plain@) == digests {
        lemma_views_are_hashes(plain@, items, digests);
    }
    if hash_views(forced@) == digests {
        lemma_views_are_hashes(forced@, items, digests);
    }
    if hash_views(root@) == digests {
        lemma_views_are_hashes(root@, items, digests);
    }
}

/// Hashes that an answer was cut into are the answer when they are joined.
proof fn lemma_answer_is_joined(list: Seq<Digest>, answer: Seq<u8>)
    requires
        answer.len() % 32 == 0,
    ensures
        hash_views(list) == split_digests(answer) ==> list.map_values(|h: Digest| h@).flatten()
            == answer,
{
    if hash_views(list) == split_digests(answer) {
        let views = hash_views(list);
        assert(list.map_values(|h: Digest| h@) =~= views);
        assert forall|i: int| 0 <= i < views.len() implies #[trigger] views[i] == answer.subrange(
            i * 32,
            i * 32 + 32,
        ) by {
            assert(split_digests(answer)[i] == answer.subrange(i * HASH_LEN, (i + 1) * HASH_LEN));
        }
        lemma_cut_and_joined(answer, views, 32);
        assert(answer.take(answer.len() as int) =~= answer);
    }
}

/// The GPU's answer comes back as hashes where it has the length of as many hashes as there are
/// items, and is an error where it has another length or where the GPU failed.
pub proof fn gpu_answer_is_taken_or_refused<G>(
    inputs: &[u8],
    item_len: usize,
    gpu: &G,
    answer: Result<Vec<u8>, IcicleError>,
    out: Result<Vec<Digest>, IcicleError>,
) where G: Fn(&[u8], usize) -> Result<Vec<u8>, IcicleError>
    requires
        item_len > 0,
        call_ensures(keccak256_batch_fixed_gpu::<G>, (inputs, item_len, gpu), out),
        forall|reply: Result<Vec<u8>, IcicleError>| #[trigger]
            call_ensures(*gpu, (inputs, item_len), reply) ==> reply == answer,
    ensures
        inputs@.len() < item_len ==> out is Ok && out->Ok_0@.len() == 0,
        inputs@.len() >= item_len ==> match answer {
            Ok(bytes) => if bytes@.len() == 32 * (inputs@.len() as int / item_len as int) {
                out is Ok && out->Ok_0@.map_values(|h: Digest| h@).flatten() == bytes@
            } else {
                out is Err && out->Err_0.0@ == "keccak output has the wrong length"@
            },
            Err(err) => out is Err && out->Err_0 == err,
        },
{
    if inputs@.len() >= item_len {
        if let Ok(bytes) = answer {
            if out is Ok {
                let n = inputs@.len() as int / item_len as int;
                if bytes@.len() == 32 * n {
                    lemma_answer_is_joined(out->Ok_0@, bytes@);
                }
            }
        }
    }
}

} // verus!
