//! Numbers as byte strings, and byte strings of a fixed length.

use vstd::prelude::*;

verus! {

/// The order in which the bytes of a number are written down.
#[derive(Debug, Clone, Copy, PartialEq, Eq, Structural)]
pub enum ByteOrder {
    /// Least significant byte first.
    Little,
    /// Most significant byte first.
    Big,
}

/// `256` to the power of `n`.
pub open spec fn pow256(n: nat) -> nat
    decreases n,
{
    if n == 0 {
        1
    } else {
        256 * pow256((n - 1) as nat)
    }
}

/// The number whose base-256 digits are `s`, least significant digit first.
pub open spec fn le_nat(s: Seq<u8>) -> nat
    decreases s.len(),
{
    if s.len() == 0 {
        0
    } else {
        s[0] as nat + 256 * le_nat(s.drop_first())
    }
}

/// The number whose base-256 digits are `s`, most significant digit first.
pub open spec fn be_nat(s: Seq<u8>) -> nat {
    le_nat(s.reverse())
}

/// The number that `s` stands for in the given order.
pub open spec fn nat_of_bytes(order: ByteOrder, s: Seq<u8>) -> nat {
    match order {
        ByteOrder::Little => le_nat(s),
        ByteOrder::Big => be_nat(s),
    }
}

/// The `n` least significant base-256 digits of `v`, least significant digit first.
pub open spec fn le_digits(v: nat, n: nat) -> Seq<u8>
    decreases n,
{
    if n == 0 {
        Seq::empty()
    } else {
        seq![(v % 256) as u8] + le_digits(v / 256, (n - 1) as nat)
    }
}

/// The `n` least significant base-256 digits of `v` in the given order.
pub open spec fn digits_of_nat(order: ByteOrder, v: nat, n: nat) -> Seq<u8> {
    match order {
        ByteOrder::Little => le_digits(v, n),
        ByteOrder::Big => le_digits(v, n).reverse(),
    }
}

/// `s` cut off after `n` bytes, or filled up to `n` bytes with zeros.
pub open spec fn right_padded(s: Seq<u8>, n: nat) -> Seq<u8> {
    Seq::new(
        n,
        |i: int|
            if i < s.len() {
                s[i]
            } else {
                0u8
            },
    )
}

/// `n` zero bytes.
pub open spec fn zeros(n: nat) -> Seq<u8> {
    Seq::new(n, |i: int| 0u8)
}

/// A number of `n` digits is below `256^n`.
pub proof fn lemma_le_nat_bound(s: Seq<u8>)
    ensures
        le_nat(s) < pow256(s.len()),
    decreases s.len(),
{
    if s.len() > 0 {
        lemma_le_nat_bound(s.drop_first());
    }
}

/// `256^8` is `2^64`.
pub proof fn lemma_pow256_8()
    ensures
        pow256(8) == 0x1_0000_0000_0000_0000,
{
    reveal_with_fuel(pow256, 9);
}

/// The digits of a number have the asked length, and stand for the number where it fits.
pub proof fn lemma_le_digits(v: nat, n: nat)
    ensures
        le_digits(v, n).len() == n,
        v < pow256(n) ==> le_nat(le_digits(v, n)) == v,
    decreases n,
{
    if n > 0 {
        lemma_le_digits(v / 256, (n - 1) as nat);
        let rest = le_digits(v / 256, (n - 1) as nat);
        assert(le_digits(v, n).drop_first() =~= rest);
    }
}

/// A byte string is the digits of the number that it stands for.
pub proof fn lemma_le_digits_of_le_nat(s: Seq<u8>)
    ensures
        le_digits(le_nat(s), s.len()) == s,
    decreases s.len(),
{
    if s.len() > 0 {
        lemma_le_digits_of_le_nat(s.drop_first());
        assert(le_nat(s) % 256 == s[0] as nat);
        assert(le_nat(s) / 256 == le_nat(s.drop_first()));
        assert(seq![s[0]] + s.drop_first() =~= s);
    } else {
        assert(s =~= Seq::<u8>::empty());
    }
}

/// Writing a number down and reading it back gives the number, in either order.
pub proof fn lemma_digits_round_trip(order: ByteOrder, v: nat, n: nat)
    requires
        v < pow256(n),
    ensures
        digits_of_nat(order, v, n).len() == n,
        nat_of_bytes(order, digits_of_nat(order, v, n)) == v,
{
    lemma_le_digits(v, n);
    assert(le_digits(v, n).reverse().reverse() =~= le_digits(v, n));
}

/// `input` cut off after `N` bytes, or filled up to `N` bytes with zeros.
pub fn right_pad<const N: usize>(input: &[u8]) -> (padded: [u8; N])
    ensures
        padded@ == right_padded(input@, N as nat),
{
    let mut padded: [u8; N] = [0u8;N];
    let len: usize = if input.len() < N {
        input.len()
    } else {
        N
    };
    let mut i: usize = 0;
    while i < len
        invariant
            i <= len,
            len <= N,
            len <= input@.len(),
            len == N || len == input@.len(),
            padded@.len() == N,
            forall|j: int| 0 <= j < i ==> padded@[j] == input@[j],
            forall|j: int| i <= j < N ==> padded@[j] == 0,
        decreases len - i,
    {
        padded[i] = input[i];
        i += 1;
    }
    assert(padded@ =~= right_padded(input@, N as nat));
    padded
}

/// The bytes of `input` from the last to the first.
pub fn reversed<const N: usize>(input: &[u8; N]) -> (out: [u8; N])
    ensures
        out@ == input@.reverse(),
{
    let mut out: [u8; N] = [0u8;N];
    let mut i: usize = 0;
    while i < N
        invariant
            i <= N,
            out@.len() == N,
            input@.len() == N,
            forall|j: int| 0 <= j < i ==> out@[j] == input@[N - 1 - j],
        decreases N - i,
    {
        out[i] = input[N - 1 - i];
        i += 1;
    }
    assert(out@ =~= input@.reverse());
    out
}

/// The number that the eight bytes stand for in the given order.
pub fn u64_of_bytes(order: ByteOrder, bytes: &[u8; 8]) -> (v: u64)
    ensures
        v == nat_of_bytes(order, bytes@),
{
    let little: [u8; 8] = match order {
        ByteOrder::Little => *bytes,
        ByteOrder::Big => reversed(bytes),
    };
    let mut v: u64 = 0;
    let mut i: usize = 8;
    proof {
        assert(little@.skip(8) =~= Seq::<u8>::empty());
    }
    while i > 0
        invariant
            i <= 8,
            little@.len() == 8,
            v == le_nat(little@.skip(i as int)),
        decreases i,
    {
        i -= 1;
        proof {
            let rest = little@.skip(i as int);
            assert(rest.drop_first() =~= little@.skip(i + 1));
            assert(rest[0] == little@[i as int]);
            lemma_le_nat_bound(rest);
            lemma_pow256_8();
            lemma_pow256_monotone(rest.len(), 8);
        }
        v = v * 256 + little[i] as u64;
    }
    assert(little@.skip(0) =~= little@);
    v
}

/// A longer number has a larger bound.
pub proof fn lemma_pow256_monotone(m: nat, n: nat)
    requires
        m <= n,
    ensures
        1 <= pow256(m) <= pow256(n),
    decreases n,
{
    if m < n {
        lemma_pow256_monotone(m, (n - 1) as nat);
    } else if n > 0 {
        lemma_pow256_monotone((m - 1) as nat, (n - 1) as nat);
    }
}

/// The eight bytes of `v` in the given order.
pub fn bytes_of_u64(order: ByteOrder, v: u64) -> (bytes: [u8; 8])
    ensures
        bytes@ == digits_of_nat(order, v as nat, 8),
{
    let mut little: [u8; 8] = [0u8;8];
    let mut rest: u64 = v;
    let mut i: usize = 0;
    while i < 8
        invariant
            i <= 8,
            little@.len() == 8,
            little@.take(i as int) + le_digits(rest as nat, (8 - i) as nat) == le_digits(
                v as nat,
                8,
            ),
        decreases 8 - i,
    {
        let ghost before = little@;
        little[i] = (rest % 256) as u8;
        proof {
            let digit = (rest % 256) as u8;
            assert(little@.take(i + 1) =~= before.take(i as int).push(digit));
            assert(before.take(i as int) + (seq![digit] + le_digits(
                (rest / 256) as nat,
                (8 - i - 1) as nat,
            )) =~= little@.take(i + 1) + le_digits((rest / 256) as nat, (8 - i - 1) as nat));
        }
        rest = rest / 256;
        i += 1;
    }
    assert(little@.take(8) + le_digits(rest as nat, 0) =~= little@);
    match order {
        ByteOrder::Little => little,
        ByteOrder::Big => reversed(&little),
    }
}

/// Where all the parts but the last have `n` bytes, and the last one between one and `n`, part `i`
/// of what they make up when joined begins at byte `i * n`.
pub proof fn lemma_joined_parts(parts: Seq<Seq<u8>>, n: int)
    requires
        n > 0,
        forall|i: int| 0 <= i < parts.len() - 1 ==> (#[trigger] parts[i]).len() == n,
        parts.len() > 0 ==> 0 < parts.last().len() <= n,
    ensures
        parts.len() > 0 ==> (parts.len() - 1) * n < parts.flatten().len() <= parts.len() * n,
        parts.len() > 0 ==> parts.flatten().len() == (parts.len() - 1) * n + parts.last().len(),
        parts.len() == 0 ==> parts.flatten().len() == 0,
        forall|i: int|
            0 <= i < parts.len() ==> {
                &&& 0 <= i * n
                &&& i * n + parts[i].len() <= parts.flatten().len()
                &&& #[trigger] parts[i] == parts.flatten().subrange(i * n, i * n + parts[i].len())
            },
    decreases parts.len(),
{
    parts.lemma_flatten_and_flatten_alt_are_equivalent();
    if parts.len() > 0 {
        let shorter = parts.drop_last();
        let k = parts.len() - 1;
        shorter.lemma_flatten_and_flatten_alt_are_equivalent();
        assert forall|i: int| 0 <= i < shorter.len() - 1 implies (#[trigger] shorter[i]).len()
            == n by {
            assert(parts[i].len() == n);
        }
        if shorter.len() > 0 {
            assert(parts[k - 1].len() == n);
        }
        lemma_joined_parts(shorter, n);
        assert(shorter.flatten().len() == k * n) by {
            if k > 0 {
                assert((k - 1) * n + n == k * n) by (nonlinear_arith);
            } else {
                assert(0 * n == 0) by (nonlinear_arith);
            }
        }
        assert(k * n + n == (k + 1) * n) by (nonlinear_arith);
        assert(k * n >= 0) by (nonlinear_arith)
            requires
                k >= 0,
                n > 0,
        ;
        let whole = parts.flatten();
        assert(whole == shorter.flatten() + parts.last());
        assert forall|i: int| 0 <= i < parts.len() implies {
            &&& 0 <= i * n
            &&& i * n + parts[i].len() <= whole.len()
            &&& #[trigger] parts[i] == whole.subrange(i * n, i * n + parts[i].len())
        } by {
            if i < k {
                let part = shorter[i];
                assert(part == parts[i]);
                assert(part == shorter.flatten().subrange(i * n, i * n + part.len()));
                assert(whole.subrange(i * n, i * n + part.len()) =~= part);
            } else {
                assert(whole.subrange(k * n, k * n + parts[k].len()) =~= parts[k]);
            }
        }
    }
}

/// Cutting bytes into parts of `n` bytes and joining them again gives the bytes that were cut.
pub proof fn lemma_cut_and_joined(bytes: Seq<u8>, parts: Seq<Seq<u8>>, n: int)
    requires
        n > 0,
        parts.len() * n <= bytes.len(),
        forall|i: int|
            0 <= i < parts.len() ==> #[trigger] parts[i] == bytes.subrange(i * n, i * n + n),
    ensures
        parts.flatten() == bytes.take(parts.len() * n),
    decreases parts.len(),
{
    parts.lemma_flatten_and_flatten_alt_are_equivalent();
    let k = parts.len() as int;
    assert(0 * n == 0) by (nonlinear_arith);
    if k > 0 {
        let shorter = parts.drop_last();
        shorter.lemma_flatten_and_flatten_alt_are_equivalent();
        assert((k - 1) * n + n == k * n) by (nonlinear_arith);
        assert(0 <= (k - 1) * n) by (nonlinear_arith)
            requires
                k >= 1,
                n > 0,
        ;
        assert forall|i: int| 0 <= i < shorter.len() implies #[trigger] shorter[i]
            == bytes.subrange(i * n, i * n + n) by {
            assert(parts[i] == bytes.subrange(i * n, i * n + n));
        }
        lemma_cut_and_joined(bytes, shorter, n);
        assert(parts[k - 1] == bytes.subrange((k - 1) * n, (k - 1) * n + n));
        assert(bytes.take((k - 1) * n) + bytes.subrange((k - 1) * n, k * n) =~= bytes.take(k * n));
    } else {
        assert(bytes.take(0) =~= parts.flatten());
    }
}

/// What a number becomes when a byte is written behind it: most significant byte first, the number
/// times 256 and the byte; and no bytes are zero. Read from the other end it is the same number.
pub proof fn bytes_are_digits_to_the_base_256(s: Seq<u8>, byte: u8)
    ensures
        be_nat(Seq::empty()) == 0,
        be_nat(s.push(byte)) == 256 * be_nat(s) + byte,
        le_nat(seq![byte] + s) == byte + 256 * le_nat(s),
        le_nat(s.reverse()) == be_nat(s),
        nat_of_bytes(ByteOrder::Big, s) == be_nat(s),
        nat_of_bytes(ByteOrder::Little, s) == le_nat(s),
        le_nat(s) < vstd::arithmetic::power::pow(256, s.len()),
{
    assert(s.push(byte).reverse() =~= seq![byte] + s.reverse());
    assert((seq![byte] + s.reverse()).drop_first() =~= s.reverse());
    assert((seq![byte] + s).drop_first() =~= s);
    lemma_le_nat_bound(s);
    lemma_pow256_is_power(s.len());
}

/// Powers of 256 are powers.
proof fn lemma_pow256_is_power(n: nat)
    ensures
        pow256(n) == vstd::arithmetic::power::pow(256, n),
    decreases n,
{
    reveal(vstd::arithmetic::power::pow);
    if n > 0 {
        lemma_pow256_is_power((n - 1) as nat);
    }
}

/// Filling up puts zeros behind the bytes until there are enough, and cuts off what is too much.
pub proof fn filling_up_adds_zeros_behind<const N: usize>(input: &[u8], padded: [u8; N])
    requires
        call_ensures(right_pad::<N>, (input,), padded),
    ensures
        input@.len() >= N ==> padded@ == input@.take(N as int),
        input@.len() <= N ==> padded@ == input@ + Seq::new((N - input@.len()) as nat, |i: int| 0u8),
        forall|s: Seq<u8>, n: nat|
            s.len() <= n ==> #[trigger] right_padded(s, n) == s + Seq::new(
                (n - s.len()) as nat,
                |i: int| 0u8,
            ),
        forall|s: Seq<u8>, n: nat| s.len() >= n ==> #[trigger] right_padded(s, n) == s.take(n as int),
        forall|n: nat| #[trigger] zeros(n) == Seq::new(n, |i: int| 0u8),
{
    assert forall|s: Seq<u8>, n: nat| s.len() <= n implies #[trigger] right_padded(s, n) == s
        + Seq::new((n - s.len()) as nat, |i: int| 0u8) by {
        assert(right_padded(s, n) =~= s + Seq::new((n - s.len()) as nat, |i: int| 0u8));
    }
    assert forall|s: Seq<u8>, n: nat| s.len() >= n implies #[trigger] right_padded(s, n) == s.take(
        n as int,
    ) by {
        assert(right_padded(s, n) =~= s.take(n as int));
    }
}

/// The bytes of a number in the other order are the same bytes from the last to the first.
pub proof fn orders_are_each_other_reversed<const N: usize>(input: &[u8; N], out: [u8; N])
    requires
        call_ensures(reversed::<N>, (input,), out),
    ensures
        out@.len() == N,
        forall|i: int| 0 <= i < N ==> #[trigger] out@[i] == input@[N - 1 - i],
        be_nat(out@) == le_nat(input@),
        le_nat(out@) == be_nat(input@),
{
    assert(input@.reverse().reverse() =~= input@);
}

/// A 64-bit number that is written down in some order and read in the same order is the number
/// again, and its last eight bits are the byte at its least significant end.
pub proof fn numbers_survive_as_bytes(order: ByteOrder, v: u64, bytes: [u8; 8], again: u64)
    requires
        call_ensures(bytes_of_u64, (order, v), bytes),
        call_ensures(u64_of_bytes, (order, &bytes), again),
    ensures
        again == v,
        order is Little ==> bytes@[0] == v % 256 && le_nat(bytes@) == v,
        order is Big ==> bytes@[7] == v % 256 && be_nat(bytes@) == v,
{
    lemma_pow256_8();
    lemma_digits_round_trip(order, v as nat, 8);
    let digits = le_digits(v as nat, 8);
    assert(digits[0] == (v as nat % 256) as u8);
    lemma_le_digits(v as nat, 8);
}

} // verus!
