//! Fixed-width integers as bytes, in either byte order.
use vstd::prelude::*;

verus! {

/// The low `k` bytes of `n`, most significant first.
pub open spec fn be(n: nat, k: nat) -> Seq<u8>
    decreases k,
{
    if k == 0 {
        Seq::empty()
    } else {
        be(n / 256, (k - 1) as nat).push((n % 256) as u8)
    }
}

/// The number whose bytes, most significant first, are `s`.
pub open spec fn be_value(s: Seq<u8>) -> nat
    decreases s.len(),
{
    if s.len() == 0 {
        0
    } else {
        256 * be_value(s.drop_last()) + s.last() as nat
    }
}

/// The low `k` bytes of `n`, least significant first.
pub open spec fn le(n: nat, k: nat) -> Seq<u8>
    decreases k,
{
    if k == 0 {
        Seq::empty()
    } else {
        seq![(n % 256) as u8] + le(n / 256, (k - 1) as nat)
    }
}

/// The number whose bytes, least significant first, are `s`.
pub open spec fn le_value(s: Seq<u8>) -> nat
    decreases s.len(),
{
    if s.len() == 0 {
        0
    } else {
        s[0] as nat + 256 * le_value(s.skip(1))
    }
}

/// 256 to the power of `k`.
pub open spec fn bytes_limit(k: nat) -> nat
    decreases k,
{
    if k == 0 {
        1
    } else {
        256 * bytes_limit((k - 1) as nat)
    }
}

pub proof fn lemma_limits()
    ensures
        bytes_limit(2) == 0x1_0000,
        bytes_limit(4) == 0x1_0000_0000,
        bytes_limit(8) == 0x1_0000_0000_0000_0000,
{
    reveal_with_fuel(bytes_limit, 9);
}

/// A number that fits reads back from its bytes, in either order.
pub proof fn law_bytes_round_trip(n: nat, k: nat)
    requires
        n < bytes_limit(k),
    ensures
        be(n, k).len() == k,
        be_value(be(n, k)) == n,
        le(n, k).len() == k,
        le_value(le(n, k)) == n,
    decreases k,
{
    if k > 0 {
        law_bytes_round_trip(n / 256, (k - 1) as nat);
        assert(be(n, k).drop_last() =~= be(n / 256, (k - 1) as nat));
        assert(le(n, k).skip(1) =~= le(n / 256, (k - 1) as nat));
    }
}

pub proof fn lemma_be_len(n: nat, k: nat)
    ensures
        be(n, k).len() == k,
    decreases k,
{
    if k > 0 {
        lemma_be_len(n / 256, (k - 1) as nat);
    }
}

pub proof fn lemma_le_len(n: nat, k: nat)
    ensures
        le(n, k).len() == k,
    decreases k,
{
    if k > 0 {
        lemma_le_len(n / 256, (k - 1) as nat);
    }
}

pub proof fn lemma_be_value_bound(s: Seq<u8>)
    ensures
        be_value(s) < bytes_limit(s.len()),
    decreases s.len(),
{
    if s.len() > 0 {
        lemma_be_value_bound(s.drop_last());
    }
}

pub proof fn lemma_le_value_bound(s: Seq<u8>)
    ensures
        le_value(s) < bytes_limit(s.len()),
    decreases s.len(),
{
    if s.len() > 0 {
        lemma_le_value_bound(s.skip(1));
    }
}

/// Appends the low `k` bytes of `n`, most significant first.
pub fn push_be(out: &mut Vec<u8>, n: u64, k: usize)
    ensures
        final(out)@ == old(out)@ + be(n as nat, k as nat),
    decreases k,
{
    if k > 0 {
        push_be(out, n / 256, k - 1);
        out.push((n % 256) as u8);
    }
    proof {
        assert(out@ =~= old(out)@ + be(n as nat, k as nat));
    }
}

/// Appends the low `k` bytes of `n`, least significant first.
pub fn push_le(out: &mut Vec<u8>, n: u64, k: usize)
    ensures
        final(out)@ == old(out)@ + le(n as nat, k as nat),
    decreases k,
{
    if k > 0 {
        out.push((n % 256) as u8);
        push_le(out, n / 256, k - 1);
    }
    proof {
        assert(out@ =~= old(out)@ + le(n as nat, k as nat));
    }
}

/// The number in `buf[at..at + k]`, most significant byte first.
pub fn read_be(buf: &[u8], at: usize, k: usize) -> (r: u64)
    requires
        k <= 8,
        at + k <= buf@.len(),
    ensures
        r == be_value(buf@.subrange(at as int, at + k)),
        r < bytes_limit(k as nat),
    decreases k,
{
    let ghost s = buf@.subrange(at as int, at + k);
    let size: usize = buf.len();
    assert(at + k <= size);
    proof {
        lemma_be_value_bound(s);
        lemma_limits();
        reveal_with_fuel(bytes_limit, 9);
    }
    if k == 0 {
        return 0;
    }
    let head: u64 = read_be(buf, at, k - 1);
    proof {
        assert(s.drop_last() =~= buf@.subrange(at as int, at + k - 1));
        assert(s.last() == buf@[at + k - 1]);
    }
    head * 256 + buf[at + k - 1] as u64
}

/// The number in `buf[at..at + k]`, least significant byte first.
pub fn read_le(buf: &[u8], at: usize, k: usize) -> (r: u64)
    requires
        k <= 8,
        at + k <= buf@.len(),
    ensures
        r == le_value(buf@.subrange(at as int, at + k)),
        r < bytes_limit(k as nat),
    decreases k,
{
    let ghost s = buf@.subrange(at as int, at + k);
    let size: usize = buf.len();
    assert(at + k <= size);
    proof {
        lemma_le_value_bound(s);
        lemma_limits();
        reveal_with_fuel(bytes_limit, 9);
    }
    if k == 0 {
        return 0;
    }
    let tail: u64 = read_le(buf, at + 1, k - 1);
    proof {
        assert(s.skip(1) =~= buf@.subrange(at + 1, at + k));
        assert(s[0] == buf@[at as int]);
    }
    buf[at] as u64 + tail * 256
}

/// The first of the bytes is the most significant where that order is meant, and the last is the
/// least significant one; the other order is the same bytes from the other end.
pub proof fn law_byte_orders(n: nat, k: nat)
    requires
        k > 0,
        n < bytes_limit(k),
    ensures
        be(n, k)[0] == n / bytes_limit((k - 1) as nat),
        be(n, k)[k - 1] == n % 256,
        le(n, k)[0] == n % 256,
        forall|i: int| 0 <= i < k ==> #[trigger] le(n, k)[i] == be(n, k)[k - 1 - i],
    decreases k,
{
    law_bytes_round_trip(n, k);
    lemma_limit_positive((k - 1) as nat);
    if k > 1 {
        let m = n / 256;
        let j = (k - 1) as nat;
        let p = bytes_limit((j - 1) as nat);
        lemma_limit_positive((j - 1) as nat);
        assert(m < bytes_limit(j));
        law_byte_orders(m, j);
        law_bytes_round_trip(m, j);
        vstd::arithmetic::div_mod::lemma_div_denominator(n as int, 256, p as int);
        assert(m / p == n / (256 * p));
        assert forall|i: int| 0 <= i < k implies #[trigger] le(n, k)[i] == be(n, k)[k - 1 - i] by {
            if i > 0 {
                assert(le(n, k)[i] == le(m, j)[i - 1]);
                assert(be(n, k)[k - 1 - i] == be(m, j)[j - 1 - (i - 1)]);
            }
        }
    } else {
        assert(bytes_limit(0) == 1);
        assert(be(n, k) =~= seq![(n % 256) as u8]);
        assert(n / 1 == n);
    }
}

proof fn lemma_limit_positive(k: nat)
    ensures
        bytes_limit(k) >= 1,
    decreases k,
{
    if k > 0 {
        lemma_limit_positive((k - 1) as nat);
    }
}

/// Of two numbers, the bytes of the smaller one come first in the order of keys: up to some place
/// they are equal, and there the smaller number has the smaller byte.
pub proof fn law_big_endian_keeps_order(a: nat, b: nat, k: nat)
    requires
        a < b < bytes_limit(k),
    ensures
        exists|i: int|
            0 <= i < k && (#[trigger] be(a, k)[i]) < be(b, k)[i] && be(a, k).take(i) == be(
                b,
                k,
            ).take(i),
    decreases k,
{
    law_bytes_round_trip(a, k);
    law_bytes_round_trip(b, k);
    let (x, y) = (a / 256, b / 256);
    let j = (k - 1) as nat;
    law_bytes_round_trip(x, j);
    law_bytes_round_trip(y, j);
    if x == y {
        assert(be(a, k)[k - 1] < be(b, k)[k - 1]);
        assert(be(a, k).take(k - 1) =~= be(x, j));
        assert(be(b, k).take(k - 1) =~= be(y, j));
    } else {
        law_big_endian_keeps_order(x, y, j);
        let i = choose|i: int|
            0 <= i < j && (#[trigger] be(x, j)[i]) < be(y, j)[i] && be(x, j).take(i) == be(
                y,
                j,
            ).take(i);
        assert(be(a, k)[i] == be(x, j)[i] && be(b, k)[i] == be(y, j)[i]);
        assert(be(a, k).take(i) =~= be(x, j).take(i));
        assert(be(b, k).take(i) =~= be(y, j).take(i));
    }
}

} // verus!
