//! Fixed-width unsigned integers as bytes, little and big endian.

use vstd::prelude::*;

verus! {

/// 256 to the power `k`: the number of values that `k` bytes can hold.
pub open spec fn pow256(k: nat) -> nat
    decreases k,
{
    if k == 0 {
        1
    } else {
        256 * pow256((k - 1) as nat)
    }
}

/// The number whose little-endian bytes are `s`.
pub open spec fn le_value(s: Seq<u8>) -> nat
    decreases s.len(),
{
    if s.len() == 0 {
        0
    } else {
        s[0] as nat + 256 * le_value(s.skip(1))
    }
}

/// The `k` low-order bytes of `n`, least significant first.
pub open spec fn le_bytes(n: nat, k: nat) -> Seq<u8>
    decreases k,
{
    if k == 0 {
        Seq::empty()
    } else {
        seq![(n % 256) as u8] + le_bytes(n / 256, (k - 1) as nat)
    }
}

/// The number whose big-endian bytes are `s`.
pub open spec fn be_value(s: Seq<u8>) -> nat
    decreases s.len(),
{
    if s.len() == 0 {
        0
    } else {
        256 * be_value(s.drop_last()) + s.last() as nat
    }
}

/// The `k` low-order bytes of `n`, most significant first.
pub open spec fn be_bytes(n: nat, k: nat) -> Seq<u8>
    decreases k,
{
    if k == 0 {
        Seq::empty()
    } else {
        be_bytes(n / 256, (k - 1) as nat).push((n % 256) as u8)
    }
}

pub proof fn lemma_le_bytes_len(n: nat, k: nat)
    ensures
        le_bytes(n, k).len() == k,
    decreases k,
{
    if k > 0 {
        lemma_le_bytes_len(n / 256, (k - 1) as nat);
    }
}

pub proof fn lemma_be_bytes_len(n: nat, k: nat)
    ensures
        be_bytes(n, k).len() == k,
    decreases k,
{
    if k > 0 {
        lemma_be_bytes_len(n / 256, (k - 1) as nat);
    }
}

/// Reading back `k` little-endian bytes gives the number that was written.
pub proof fn law_le_roundtrip(n: nat, k: nat)
    requires
        n < pow256(k),
    ensures
        le_value(le_bytes(n, k)) == n,
    decreases k,
{
    if k > 0 {
        law_le_roundtrip(n / 256, (k - 1) as nat);
        assert(le_bytes(n, k).skip(1) =~= le_bytes(n / 256, (k - 1) as nat));
    }
}

/// Reading back `k` big-endian bytes gives the number that was written.
pub proof fn law_be_roundtrip(n: nat, k: nat)
    requires
        n < pow256(k),
    ensures
        be_value(be_bytes(n, k)) == n,
    decreases k,
{
    if k > 0 {
        law_be_roundtrip(n / 256, (k - 1) as nat);
        assert(be_bytes(n, k).drop_last() =~= be_bytes(n / 256, (k - 1) as nat));
    }
}

pub proof fn lemma_le_value_bound(s: Seq<u8>)
    ensures
        le_value(s) < pow256(s.len()),
    decreases s.len(),
{
    if s.len() > 0 {
        lemma_le_value_bound(s.skip(1));
    }
}

pub proof fn lemma_be_value_bound(s: Seq<u8>)
    ensures
        be_value(s) < pow256(s.len()),
    decreases s.len(),
{
    if s.len() > 0 {
        lemma_be_value_bound(s.drop_last());
    }
}

pub proof fn lemma_pow256_values()
    ensures
        pow256(1) == 0x100,
        pow256(2) == 0x1_0000,
        pow256(4) == 0x1_0000_0000,
        pow256(8) == 0x1_0000_0000_0000_0000,
{
    reveal_with_fuel(pow256, 9);
}

proof fn lemma_pow256_monotonic(a: nat, b: nat)
    requires
        a <= b,
    ensures
        pow256(a) <= pow256(b),
    decreases b,
{
    if a < b {
        lemma_pow256_monotonic(a, (b - 1) as nat);
    }
}

/// Reads `k` little-endian bytes at `off`.
pub fn read_le(buf: &[u8], off: usize, k: usize) -> (r: u64)
    requires
        k <= 8,
        off + k <= buf@.len(),
    ensures
        r as nat == le_value(buf@.subrange(off as int, off + k)),
        r < pow256(k as nat),
{
    let n: usize = buf.len();
    let mut acc: u64 = 0;
    let mut i: usize = k;
    assert(buf@.subrange(off + k, off + k) =~= Seq::empty());
    while i > 0
        invariant
            i <= k <= 8,
            off + k <= n == buf@.len(),
            acc as nat == le_value(buf@.subrange(off + i, off + k)),
        decreases i,
    {
        proof {
            let s = buf@.subrange(off + i, off + k);
            let t = buf@.subrange(off + i - 1, off + k);
            assert(t.skip(1) =~= s);
            lemma_le_value_bound(t);
            lemma_pow256_monotonic(t.len(), 8);
            lemma_pow256_values();
        }
        acc = buf[off + i - 1] as u64 + 256 * acc;
        i -= 1;
    }
    proof {
        lemma_le_value_bound(buf@.subrange(off as int, off + k));
    }
    acc
}

/// Reads `k` big-endian bytes at `off`.
pub fn read_be(buf: &[u8], off: usize, k: usize) -> (r: u64)
    requires
        k <= 8,
        off + k <= buf@.len(),
    ensures
        r as nat == be_value(buf@.subrange(off as int, off + k)),
        r < pow256(k as nat),
{
    let n: usize = buf.len();
    let mut acc: u64 = 0;
    let mut i: usize = 0;
    assert(buf@.subrange(off as int, off as int) =~= Seq::empty());
    while i < k
        invariant
            i <= k <= 8,
            off + k <= n == buf@.len(),
            acc as nat == be_value(buf@.subrange(off as int, off + i)),
        decreases k - i,
    {
        proof {
            let s = buf@.subrange(off as int, off + i);
            let t = buf@.subrange(off as int, off + i + 1);
            assert(t.drop_last() =~= s);
            lemma_be_value_bound(t);
            lemma_pow256_monotonic(t.len(), 8);
            lemma_pow256_values();
        }
        acc = 256 * acc + buf[off + i] as u64;
        i += 1;
    }
    proof {
        lemma_be_value_bound(buf@.subrange(off as int, off + k));
    }
    acc
}

/// Appends the `k` low-order bytes of `n`, least significant first.
pub fn push_le(buf: &mut Vec<u8>, n: u64, k: usize)
    ensures
        final(buf)@ == old(buf)@ + le_bytes(n as nat, k as nat),
    decreases k,
{
    if k > 0 {
        buf.push((n % 256) as u8);
        push_le(buf, n / 256, k - 1);
    }
    assert(buf@ =~= old(buf)@ + le_bytes(n as nat, k as nat));
}

/// Appends the `k` low-order bytes of `n`, most significant first.
pub fn push_be(buf: &mut Vec<u8>, n: u64, k: usize)
    ensures
        final(buf)@ == old(buf)@ + be_bytes(n as nat, k as nat),
    decreases k,
{
    if k > 0 {
        push_be(buf, n / 256, k - 1);
        buf.push((n % 256) as u8);
    }
    assert(buf@ =~= old(buf)@ + be_bytes(n as nat, k as nat));
}

/// Bytes stand in their order: byte `i` of the little-endian form holds the
/// multiples of 256 to the power `i`, and the big-endian form is the same bytes
/// in reverse.
pub proof fn law_bytes_stand_in_order(n: nat, k: nat, i: nat)
    requires
        i < k,
    ensures
        le_bytes(n, k)[i as int] == n / pow256(i) % 256,
        be_bytes(n, k)[k - 1 - i] == n / pow256(i) % 256,
    decreases k,
{
    lemma_le_bytes_len(n, k);
    lemma_be_bytes_len(n, k);
    lemma_le_bytes_len(n / 256, (k - 1) as nat);
    lemma_be_bytes_len(n / 256, (k - 1) as nat);
    if i == 0 {
        assert(pow256(0) == 1);
        assert(n / 1 == n);
    } else {
        let j = (i - 1) as nat;
        law_bytes_stand_in_order(n / 256, (k - 1) as nat, j);
        lemma_pow256_pos(j);
        let p = pow256(j) as int;
        assert(pow256(i) == 256 * pow256(j));
        vstd::arithmetic::div_mod::lemma_div_denominator(n as int, 256, p);
        assert(le_bytes(n, k)[i as int] == le_bytes(n / 256, (k - 1) as nat)[j as int]);
        assert(be_bytes(n, k)[k - 1 - i] == be_bytes(n / 256, (k - 1) as nat)[k - 1 - i]);
    }
}

proof fn lemma_pow256_pos(k: nat)
    ensures
        pow256(k) > 0,
    decreases k,
{
    if k > 0 {
        lemma_pow256_pos((k - 1) as nat);
    }
}

} // verus!
