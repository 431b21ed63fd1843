//! Ordering: the order of floating-point numbers by their bits, and a stable sort.
use vstd::prelude::*;

verus! {

/// An integer that orders the numbers an `f32` holds, given by their bits: sign and
/// magnitude, so that both zeros are equal. A bit pattern that is no number stands
/// beyond the infinity of its sign.
pub open spec fn float_key(bits: u32) -> int {
    if bits >= 0x8000_0000 {
        -(bits - 0x8000_0000)
    } else {
        bits as int
    }
}

/// Whether the bits of an `f32` hold no number.
pub open spec fn is_nan(bits: u32) -> bool {
    bits % 0x8000_0000 > 0x7f80_0000
}

/// The integer that orders an `f32` by its bits.
pub fn key_of(bits: u32) -> (r: i128)
    ensures
        r == float_key(bits),
{
    if bits >= 0x8000_0000 {
        -((bits - 0x8000_0000) as i128)
    } else {
        bits as i128
    }
}

/// Whether the place `a` comes before `b`: by key, then by place.
pub open spec fn before(keys: Seq<i128>, a: usize, b: usize) -> bool {
    keys[a as int] < keys[b as int] || (keys[a as int] == keys[b as int] && a < b)
}

pub open spec fn in_order(keys: Seq<i128>, r: Seq<usize>) -> bool {
    forall|i: int, j: int| 0 <= i < j < r.len() ==> before(keys, #[trigger] r[i], #[trigger] r[j])
}

/// `r` lists all places of `keys` once, by key, equal keys in the order of their places.
pub open spec fn stable_order(keys: Seq<i128>, r: Seq<usize>) -> bool {
    &&& r.len() == keys.len() <= usize::MAX
    &&& forall|i: int| 0 <= i < r.len() ==> (#[trigger] r[i]) < keys.len()
    &&& in_order(keys, r)
    &&& forall|k: usize| k < keys.len() ==> #[trigger] r.contains(k)
}

proof fn lemma_contains_push(s: Seq<usize>, x: usize)
    ensures
        forall|y: usize| #[trigger] s.push(x).contains(y) <==> s.contains(y) || y == x,
{
    assert forall|y: usize| #[trigger] s.push(x).contains(y) <==> s.contains(y) || y == x by {
        if s.contains(y) {
            let p = choose|p: int| 0 <= p < s.len() && s[p] == y;
            assert(s.push(x)[p] == y);
        }
        if y == x {
            assert(s.push(x)[s.len() as int] == x);
        }
        if s.push(x).contains(y) {
            let p = choose|p: int| 0 <= p < s.push(x).len() && s.push(x)[p] == y;
            if p < s.len() {
                assert(s[p] == y);
            }
        }
    }
}

/// The places of one run, ordered.
pub open spec fn run_sorted(keys: Seq<i128>, r: Seq<usize>, lo: int, hi: int) -> bool {
    &&& r.len() == hi - lo
    &&& forall|i: int| 0 <= i < r.len() ==> lo <= (#[trigger] r[i]) < hi
    &&& in_order(keys, r)
    &&& forall|k: usize| lo <= k < hi ==> #[trigger] r.contains(k)
}

fn merge_runs(keys: &Vec<i128>, a: Vec<usize>, b: Vec<usize>, lo: usize, mid: usize, hi: usize) -> (r:
    Vec<usize>)
    requires
        lo <= mid <= hi <= keys@.len(),
        run_sorted(keys@, a@, lo as int, mid as int),
        run_sorted(keys@, b@, mid as int, hi as int),
    ensures
        run_sorted(keys@, r@, lo as int, hi as int),
{
    let mut out: Vec<usize> = Vec::new();
    let mut i: usize = 0;
    let mut j: usize = 0;
    while i < a.len() || j < b.len()
        invariant
            lo <= mid <= hi <= keys@.len(),
            run_sorted(keys@, a@, lo as int, mid as int),
            run_sorted(keys@, b@, mid as int, hi as int),
            i <= a@.len(),
            j <= b@.len(),
            out@.len() == i + j,
            in_order(keys@, out@),
            forall|p: int| 0 <= p < out@.len() ==> lo <= (#[trigger] out@[p]) < hi,
            forall|p: int, q: int|
                0 <= p < out@.len() && i <= q < a@.len() ==> before(
                    keys@,
                    #[trigger] out@[p],
                    #[trigger] a@[q],
                ),
            forall|p: int, q: int|
                0 <= p < out@.len() && j <= q < b@.len() ==> before(
                    keys@,
                    #[trigger] out@[p],
                    #[trigger] b@[q],
                ),
            forall|p: int| 0 <= p < i ==> out@.contains(#[trigger] a@[p]),
            forall|p: int| 0 <= p < j ==> out@.contains(#[trigger] b@[p]),
        decreases a@.len() + b@.len() - i - j,
    {
        let left = j >= b.len() || (i < a.len() && keys[a[i]] <= keys[b[j]]);
        proof {
            let x = if left { a@[i as int] } else { b@[j as int] };
            lemma_contains_push(out@, x);
        }
        if left {
            out.push(a[i]);
            i = i + 1;
        } else {
            out.push(b[j]);
            j = j + 1;
        }
    }
    proof {
        assert forall|k: usize| lo <= k < hi implies #[trigger] out@.contains(k) by {
            if k < mid {
                assert(a@.contains(k));
                let p = choose|p: int| 0 <= p < a@.len() && a@[p] == k;
                assert(out@.contains(a@[p]));
            } else {
                assert(b@.contains(k));
                let p = choose|p: int| 0 <= p < b@.len() && b@[p] == k;
                assert(out@.contains(b@[p]));
            }
        }
    }
    out
}

fn sort_run(keys: &Vec<i128>, lo: usize, hi: usize) -> (r: Vec<usize>)
    requires
        lo <= hi <= keys@.len(),
    ensures
        run_sorted(keys@, r@, lo as int, hi as int),
    decreases hi - lo,
{
    if hi - lo == 0 {
        return Vec::new();
    }
    if hi - lo == 1 {
        let mut one: Vec<usize> = Vec::new();
        one.push(lo);
        proof {
            assert(one@[0] == lo);
        }
        return one;
    }
    let mid: usize = lo + (hi - lo) / 2;
    let a = sort_run(keys, lo, mid);
    let b = sort_run(keys, mid, hi);
    merge_runs(keys, a, b, lo, mid, hi)
}

/// The places of `keys` in the order of their keys, equal keys in their own order.
pub fn sort_places(keys: &Vec<i128>) -> (r: Vec<usize>)
    ensures
        stable_order(keys@, r@),
{
    sort_run(keys, 0, keys.len())
}

/// There is only one stable order of given keys.
pub proof fn law_stable_order_unique(keys: Seq<i128>, r: Seq<usize>, s: Seq<usize>)
    requires
        stable_order(keys, r),
        stable_order(keys, s),
    ensures
        r == s,
{
    assert forall|n: int| 0 <= n <= r.len() implies #[trigger] r.take(n) =~= s.take(n) by {
        lemma_same_prefix(keys, r, s, n);
    }
    assert(r.take(r.len() as int) =~= s.take(r.len() as int));
    assert(r.take(r.len() as int) =~= r);
    assert(s.take(s.len() as int) =~= s);
}

proof fn lemma_same_prefix(keys: Seq<i128>, r: Seq<usize>, s: Seq<usize>, n: int)
    requires
        stable_order(keys, r),
        stable_order(keys, s),
        0 <= n <= r.len(),
    ensures
        forall|i: int| 0 <= i < n ==> r[i] == s[i],
    decreases n,
{
    if n > 0 {
        lemma_same_prefix(keys, r, s, n - 1);
        let i = n - 1;
        let x = r[i];
        let y = s[i];
        assert(s.contains(x));
        assert(r.contains(y));
        let p = choose|p: int| 0 <= p < s.len() && s[p] == x;
        let q = choose|q: int| 0 <= q < r.len() && r[q] == y;
        if p < i {
            assert(r[p] == s[p]);
            assert(before(keys, r[p], r[i]));
        }
        if q < i {
            assert(r[q] == s[q]);
            assert(before(keys, s[q], s[i]));
        }
        if x != y {
            assert(before(keys, s[i], s[p]));
            assert(before(keys, r[i], r[q]));
        }
    }
}

/// Whether the number with the bits `a` is less than that with the bits `b`; no order
/// holds where either is no number.
pub open spec fn less(a: u32, b: u32) -> bool {
    !is_nan(a) && !is_nan(b) && float_key(a) < float_key(b)
}

/// Compares two numbers, given by their bits.
pub fn is_less(a: u32, b: u32) -> (r: bool)
    ensures
        r == less(a, b),
{
    a % 0x8000_0000 <= 0x7f80_0000 && b % 0x8000_0000 <= 0x7f80_0000 && key_of(a) < key_of(b)
}

/// Keys that put the lowest number first.
pub open spec fn low_keys(bits: Seq<u32>) -> Seq<i128> {
    Seq::new(bits.len(), |i: int| float_key(bits[i]) as i128)
}

/// Keys that put the highest number first.
pub open spec fn high_keys(bits: Seq<u32>) -> Seq<i128> {
    Seq::new(bits.len(), |i: int| (-float_key(bits[i])) as i128)
}

/// `r` is the first `k` places in the order of `keys`.
pub open spec fn first_places(keys: Seq<i128>, k: nat, r: Seq<usize>) -> bool {
    exists|p: Seq<usize>| #[trigger]
        stable_order(keys, p) && r == p.take(
            (if k < p.len() {
                k
            } else {
                p.len()
            }) as int,
        )
}

fn take_places(p: Vec<usize>, k: usize) -> (r: Vec<usize>)
    ensures
        r@ == p@.take(
            (if k < p@.len() {
                k as nat
            } else {
                p@.len()
            }) as int,
        ),
{
    let n: usize = if k < p.len() { k } else { p.len() };
    let mut out: Vec<usize> = Vec::new();
    let mut i: usize = 0;
    while i < n
        invariant
            i <= n <= p@.len(),
            out@ == p@.take(i as int),
        decreases n - i,
    {
        out.push(p[i]);
        i = i + 1;
        proof {
            assert(out@ =~= p@.take(i as int));
        }
    }
    out
}

/// The places of the `k` lowest numbers, lowest first.
pub fn lowest(bits: &Vec<u32>, k: usize) -> (r: Vec<usize>)
    ensures
        first_places(low_keys(bits@), k as nat, r@),
{
    let mut keys: Vec<i128> = Vec::new();
    let mut i: usize = 0;
    while i < bits.len()
        invariant
            i <= bits@.len(),
            keys@.len() == i,
            forall|x: int| 0 <= x < i ==> #[trigger] keys@[x] == float_key(bits@[x]),
        decreases bits@.len() - i,
    {
        keys.push(key_of(bits[i]));
        i = i + 1;
    }
    proof {
        assert(keys@ =~= low_keys(bits@));
    }
    take_places(sort_places(&keys), k)
}

/// The places of the `k` highest numbers, highest first.
pub fn highest(bits: &Vec<u32>, k: usize) -> (r: Vec<usize>)
    ensures
        first_places(high_keys(bits@), k as nat, r@),
{
    let mut keys: Vec<i128> = Vec::new();
    let mut i: usize = 0;
    while i < bits.len()
        invariant
            i <= bits@.len(),
            keys@.len() == i,
            forall|x: int| 0 <= x < i ==> #[trigger] keys@[x] == -float_key(bits@[x]),
        decreases bits@.len() - i,
    {
        keys.push(-key_of(bits[i]));
        i = i + 1;
    }
    proof {
        assert(keys@ =~= high_keys(bits@));
    }
    take_places(sort_places(&keys), k)
}

/// The first places are distinct, and no place left out comes before one of them.
pub proof fn law_first_places_are_best(keys: Seq<i128>, k: nat, r: Seq<usize>)
    requires
        first_places(keys, k, r),
    ensures
        r.len() == (if k < keys.len() {
            k
        } else {
            keys.len()
        }),
        r.no_duplicates(),
        forall|i: int| 0 <= i < r.len() ==> (#[trigger] r[i]) < keys.len(),
        forall|i: int, x: usize|
            0 <= i < r.len() && x < keys.len() && !(#[trigger] r.contains(x)) ==> before(
                keys,
                #[trigger] r[i],
                x,
            ),
{
    let p = choose|p: Seq<usize>| #[trigger]
        stable_order(keys, p) && r == p.take(
            (if k < p.len() {
                k
            } else {
                p.len()
            }) as int,
        );
    assert forall|i: int, j: int| 0 <= i < j < r.len() implies r[i] != r[j] by {
        assert(before(keys, p[i], p[j]));
    }
    assert forall|i: int, x: usize|
        0 <= i < r.len() && x < keys.len() && !(#[trigger] r.contains(x)) implies before(
        keys,
        #[trigger] r[i],
        x,
    ) by {
        assert(p.contains(x));
        let y = choose|y: int| 0 <= y < p.len() && p[y] == x;
        if y < r.len() {
            assert(r[y] == x);
        }
        assert(before(keys, p[i], p[y]));
    }
}

/// The places of the lowest numbers, lowest first: no number that is left out is lower than one
/// that is listed, and of equal ones the earlier is taken.
pub proof fn law_lowest_are_lowest(bits: Seq<u32>, k: nat, r: Seq<usize>)
    requires
        first_places(low_keys(bits), k, r),
    ensures
        r.len() == (if k < bits.len() {
            k
        } else {
            bits.len()
        }),
        r.no_duplicates(),
        forall|i: int| 0 <= i < r.len() ==> (#[trigger] r[i]) < bits.len(),
        forall|i: int, j: int|
            0 <= i < j < r.len() ==> {
                let (x, y) = (#[trigger] r[i], #[trigger] r[j]);
                let (a, b) = (float_key(bits[x as int]), float_key(bits[y as int]));
                a < b || (a == b && x < y)
            },
        forall|i: int, x: usize|
            0 <= i < r.len() && x < bits.len() && !(#[trigger] r.contains(x)) ==> float_key(
                bits[(#[trigger] r[i]) as int],
            ) <= float_key(bits[x as int]),
{
    let keys = low_keys(bits);
    law_first_places_are_best(keys, k, r);
    let p = choose|p: Seq<usize>| #[trigger]
        stable_order(keys, p) && r == p.take(
            (if k < p.len() {
                k
            } else {
                p.len()
            }) as int,
        );
    assert forall|i: int, j: int| 0 <= i < j < r.len() implies {
        let (x, y) = (#[trigger] r[i], #[trigger] r[j]);
        let (a, b) = (float_key(bits[x as int]), float_key(bits[y as int]));
        a < b || (a == b && x < y)
    } by {
        assert(r[i] == p[i] && r[j] == p[j]);
        assert(before(keys, p[i], p[j]));
    }
    assert forall|i: int, x: usize|
        0 <= i < r.len() && x < bits.len() && !(#[trigger] r.contains(x)) implies float_key(
        bits[(#[trigger] r[i]) as int],
    ) <= float_key(bits[x as int]) by {
        assert(before(keys, r[i], x));
    }
}

/// The places of the highest numbers, highest first: no number that is left out is higher than
/// one that is listed, and of equal ones the earlier is taken.
pub proof fn law_highest_are_highest(bits: Seq<u32>, k: nat, r: Seq<usize>)
    requires
        first_places(high_keys(bits), k, r),
    ensures
        r.len() == (if k < bits.len() {
            k
        } else {
            bits.len()
        }),
        r.no_duplicates(),
        forall|i: int| 0 <= i < r.len() ==> (#[trigger] r[i]) < bits.len(),
        forall|i: int, j: int|
            0 <= i < j < r.len() ==> {
                let (x, y) = (#[trigger] r[i], #[trigger] r[j]);
                let (a, b) = (float_key(bits[x as int]), float_key(bits[y as int]));
                a > b || (a == b && x < y)
            },
        forall|i: int, x: usize|
            0 <= i < r.len() && x < bits.len() && !(#[trigger] r.contains(x)) ==> float_key(
                bits[(#[trigger] r[i]) as int],
            ) >= float_key(bits[x as int]),
{
    let keys = high_keys(bits);
    law_first_places_are_best(keys, k, r);
    let p = choose|p: Seq<usize>| #[trigger]
        stable_order(keys, p) && r == p.take(
            (if k < p.len() {
                k
            } else {
                p.len()
            }) as int,
        );
    assert forall|i: int, j: int| 0 <= i < j < r.len() implies {
        let (x, y) = (#[trigger] r[i], #[trigger] r[j]);
        let (a, b) = (float_key(bits[x as int]), float_key(bits[y as int]));
        a > b || (a == b && x < y)
    } by {
        assert(r[i] == p[i] && r[j] == p[j]);
        assert(before(keys, p[i], p[j]));
    }
    assert forall|i: int, x: usize|
        0 <= i < r.len() && x < bits.len() && !(#[trigger] r.contains(x)) implies float_key(
        bits[(#[trigger] r[i]) as int],
    ) >= float_key(bits[x as int]) by {
        assert(before(keys, r[i], x));
    }
}

/// A stable order lists every place once; a key never comes before a lower one, and of equal keys
/// the earlier place comes first.
pub proof fn law_stable_order_sorts(keys: Seq<i128>, r: Seq<usize>)
    requires
        stable_order(keys, r),
    ensures
        r.len() == keys.len(),
        r.no_duplicates(),
        forall|k: usize| k < keys.len() <==> #[trigger] r.contains(k),
        forall|i: int, j: int|
            0 <= i < j < r.len() ==> {
                let (x, y) = (#[trigger] r[i], #[trigger] r[j]);
                keys[x as int] < keys[y as int] || (keys[x as int] == keys[y as int] && x < y)
            },
{
    assert forall|i: int, j: int| 0 <= i < j < r.len() implies {
        let (x, y) = (#[trigger] r[i], #[trigger] r[j]);
        keys[x as int] < keys[y as int] || (keys[x as int] == keys[y as int] && x < y)
    } by {
        assert(before(keys, r[i], r[j]));
    }
    assert(r.no_duplicates()) by {
        assert forall|i: int, j: int| 0 <= i < j < r.len() implies r[i] != r[j] by {
            assert(before(keys, r[i], r[j]));
        }
    }
}

} // verus!
