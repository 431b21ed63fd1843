//! Latency samples: percentiles, spreads and the lines that report them.
use crate::layout;
use crate::layout::{push_left, push_right};
use crate::order;
use crate::order::sort_places;
use crate::rounding;
use crate::rounding::hundredths_of;
use crate::text;
use crate::text::dec_string;
use vstd::prelude::*;
use vstd::string::*;

verus! {

/// The samples from the least to the greatest.
pub open spec fn sorted_samples(s: Seq<u64>) -> Seq<u64> {
    s.sort_by(|a: u64, b: u64| a <= b)
}

proof fn lemma_picked_multiset(s: Seq<u64>, r: Seq<usize>, out: Seq<u64>)
    requires
        r.len() == s.len() == out.len() <= usize::MAX,
        forall|i: int| 0 <= i < r.len() ==> (#[trigger] r[i]) < s.len(),
        forall|i: int, j: int| 0 <= i < j < r.len() ==> #[trigger] r[i] != #[trigger] r[j],
        forall|k: usize| k < s.len() ==> #[trigger] r.contains(k),
        forall|i: int| 0 <= i < r.len() ==> #[trigger] out[i] == s[r[i] as int],
    ensures
        out.to_multiset() == s.to_multiset(),
    decreases s.len(),
{
    broadcast use vstd::seq_lib::group_to_multiset_ensures;

    if s.len() == 0 {
        assert(out =~= s);
    } else {
        let last = (s.len() - 1) as usize;
        assert(r.contains(last));
        let p = choose|p: int| 0 <= p < r.len() && r[p] == last;
        let s1 = s.drop_last();
        let r1 = r.remove(p);
        let o1 = out.remove(p);
        assert forall|i: int| 0 <= i < r1.len() implies (#[trigger] r1[i]) < s1.len() by {
            let j = if i < p {
                i
            } else {
                i + 1
            };
            assert(r1[i] == r[j]);
            assert(r[j] != r[p]) by {
                if j < p {
                    assert(r[j] != r[p]);
                } else {
                    assert(r[p] != r[j]);
                }
            }
        }
        assert forall|i: int, j: int| 0 <= i < j < r1.len() implies #[trigger] r1[i]
            != #[trigger] r1[j] by {
            let a = if i < p {
                i
            } else {
                i + 1
            };
            let b = if j < p {
                j
            } else {
                j + 1
            };
            assert(r1[i] == r[a] && r1[j] == r[b]);
        }
        assert forall|k: usize| k < s1.len() implies #[trigger] r1.contains(k) by {
            assert(r.contains(k));
            let q = choose|q: int| 0 <= q < r.len() && r[q] == k;
            if q < p {
                assert(r1[q] == k);
            } else {
                assert(r1[q - 1] == k);
            }
        }
        assert forall|i: int| 0 <= i < r1.len() implies #[trigger] o1[i] == s1[r1[i] as int] by {
            let j = if i < p {
                i
            } else {
                i + 1
            };
            assert(o1[i] == out[j]);
            assert(r1[i] == r[j]);
            assert(r1[i] < s1.len());
        }
        lemma_picked_multiset(s1, r1, o1);
        assert(s =~= s1.push(s[last as int]));
        assert(out =~= o1.insert(p, out[p]));
        vstd::seq_lib::to_multiset_insert(o1, p, out[p]);
    }
}

/// Sorts samples, the least first.
pub fn sort_samples(s: &Vec<u64>) -> (r: Vec<u64>)
    ensures
        r@ == sorted_samples(s@),
        r@.len() == s@.len(),
{
    let n: usize = s.len();
    let mut keys: Vec<i128> = Vec::new();
    let mut i: usize = 0;
    while i < n
        invariant
            i <= n == s@.len(),
            keys@.len() == i,
            forall|j: int| 0 <= j < i ==> #[trigger] keys@[j] == s@[j],
        decreases n - i,
    {
        keys.push(s[i] as i128);
        i = i + 1;
    }
    let places = sort_places(&keys);
    let mut out: Vec<u64> = Vec::new();
    let mut k: usize = 0;
    while k < n
        invariant
            k <= n == s@.len() == places@.len(),
            order::stable_order(keys@, places@),
            keys@.len() == n,
            out@.len() == k,
            forall|j: int| 0 <= j < k ==> #[trigger] out@[j] == s@[places@[j] as int],
        decreases n - k,
    {
        out.push(s[places[k]]);
        k = k + 1;
    }
    proof {
        let leq = |a: u64, b: u64| a <= b;
        assert forall|a: int, b: int| 0 <= a < b < places@.len() implies #[trigger] places@[a]
            != #[trigger] places@[b] by {
            assert(order::before(keys@, places@[a], places@[b]));
        }
        lemma_picked_multiset(s@, places@, out@);
        s@.lemma_sort_by_ensures(leq);
        assert(vstd::relations::sorted_by(out@, leq)) by {
            assert forall|a: int, b: int| 0 <= a < b < out@.len() implies #[trigger] leq(
                out@[a],
                out@[b],
            ) by {
                assert(order::before(keys@, places@[a], places@[b]));
            }
        }
        vstd::seq_lib::lemma_sorted_unique(out@, s@.sort_by(leq), leq);
        assert(sorted_samples(s@) =~= s@.sort_by(leq));
    }
    out
}

/// The place of a percentile among `n` sorted samples: `p` hundredths of the way from the
/// first to the last, rounded to the nearest place.
pub open spec fn rank(n: nat, p: nat) -> int {
    let k = rounding::hundredths(p, n);
    if k < n {
        k as int
    } else {
        n - 1
    }
}

/// The sample at a percentile; 0 where there are none.
pub open spec fn percentile(s: Seq<u64>, p: nat) -> u64 {
    if s.len() == 0 {
        0
    } else {
        sorted_samples(s)[rank(s.len(), p)]
    }
}

fn pick(sorted: &Vec<u64>, p: u64) -> (r: u64)
    requires
        sorted@.len() > 0,
    ensures
        r == sorted@[rank(sorted@.len(), p as nat)],
{
    let n: usize = sorted.len();
    let k: u64 = hundredths_of(p, n as u64);
    sorted[k as usize]
}

/// The sample at a percentile.
pub fn pctl(samples: &Vec<u64>, p: u64) -> (r: u64)
    ensures
        r == percentile(samples@, p as nat),
{
    if samples.len() == 0 {
        return 0;
    }
    let sorted = sort_samples(samples);
    pick(&sorted, p)
}

/// The sample that all but one in a hundred come before.
pub open spec fn tail(s: Seq<u64>) -> u64 {
    sorted_samples(s)[s.len() as int * 99 / 100]
}

/// The 99th percentile by position alone, of at least one sample.
pub fn tail_sample(samples: &Vec<u64>) -> (r: u64)
    requires
        samples@.len() > 0,
    ensures
        r == tail(samples@),
{
    let sorted = sort_samples(samples);
    let n: usize = sorted.len();
    let k: u128 = n as u128 * 99 / 100;
    sorted[k as usize]
}

/// What a run of samples came to.
#[derive(Clone, Copy, Debug, PartialEq, Eq, Structural)]
pub struct Spread {
    pub n: usize,
    pub p50: u64,
    pub p90: u64,
    pub p99: u64,
    pub max: u64,
}

/// The spread of samples by percentile.
pub open spec fn spread_of(s: Seq<u64>) -> Spread {
    Spread {
        n: s.len() as usize,
        p50: percentile(s, 50),
        p90: percentile(s, 90),
        p99: percentile(s, 99),
        max: sorted_samples(s)[s.len() - 1],
    }
}

/// Sums up samples, if there are any.
pub fn spread(samples: &Vec<u64>) -> (r: Option<Spread>)
    ensures
        match r {
            Some(x) => samples@.len() > 0 && x == spread_of(samples@),
            None => samples@.len() == 0,
        },
{
    let n: usize = samples.len();
    if n == 0 {
        return None;
    }
    let sorted = sort_samples(samples);
    Some(
        Spread {
            n,
            p50: pick(&sorted, 50),
            p90: pick(&sorted, 90),
            p99: pick(&sorted, 99),
            max: sorted[n - 1],
        },
    )
}

/// The spread of samples by position: the middle, nine tenths and ninety-nine hundredths of
/// the way through.
pub open spec fn positions_of(s: Seq<u64>) -> Spread {
    let t = sorted_samples(s);
    let n = s.len() as int;
    Spread {
        n: s.len() as usize,
        p50: t[n / 2],
        p90: t[n * 9 / 10],
        p99: t[n * 99 / 100],
        max: t[n - 1],
    }
}

/// Sums up samples by position, if there are any.
pub fn spread_by_position(samples: &Vec<u64>) -> (r: Option<Spread>)
    ensures
        match r {
            Some(x) => samples@.len() > 0 && x == positions_of(samples@),
            None => samples@.len() == 0,
        },
{
    let n: usize = samples.len();
    if n == 0 {
        return None;
    }
    let sorted = sort_samples(samples);
    let a: u128 = n as u128 * 9 / 10;
    let b: u128 = n as u128 * 99 / 100;
    Some(
        Spread {
            n,
            p50: sorted[n / 2],
            p90: sorted[a as usize],
            p99: sorted[b as usize],
            max: sorted[n - 1],
        },
    )
}

pub open spec fn micros(label: Seq<char>, v: u64) -> Seq<char> {
    label + layout::at_right(text::dec_text(v as nat), 7)
}

/// The line that reports a spread.
pub open spec fn report_of(name: Seq<char>, x: Spread) -> Seq<char> {
    "  "@ + layout::at_left(name, 28) + " n="@ + layout::at_left(text::dec_text(x.n as nat), 6)
        + micros(" p50="@, x.p50) + micros(" µs  p90="@, x.p90) + micros(" µs  p99="@, x.p99)
        + micros(" µs  max="@, x.max) + " µs"@
}

fn push_micros(out: &mut String, label: &str, v: u64)
    ensures
        final(out)@ == old(out)@ + micros(label@, v),
{
    out.append(label);
    push_right(out, dec_string(v).as_str(), 7);
    proof {
        assert(out@ =~= old(out)@ + micros(label@, v));
    }
}

/// The line that reports samples, if there are any.
pub fn latency_report(name: &str, samples: &Vec<u64>) -> (r: Option<String>)
    ensures
        match r {
            Some(s) => samples@.len() > 0 && s@ == report_of(name@, spread_of(samples@)),
            None => samples@.len() == 0,
        },
{
    match spread(samples) {
        None => None,
        Some(x) => {
            let mut s: String = "  ".to_owned();
            push_left(&mut s, name, 28);
            s.append(" n=");
            push_left(&mut s, dec_string(x.n as u64).as_str(), 6);
            push_micros(&mut s, " p50=", x.p50);
            push_micros(&mut s, " µs  p90=", x.p90);
            push_micros(&mut s, " µs  p99=", x.p99);
            push_micros(&mut s, " µs  max=", x.max);
            s.append(" µs");
            Some(s)
        },
    }
}

/// The sum of the first `n` samples.
pub open spec fn total(s: Seq<u64>, n: int) -> int
    decreases n,
{
    if n <= 0 {
        0
    } else {
        total(s, n - 1) + s[n - 1]
    }
}

proof fn lemma_total(s: Seq<u64>, n: int)
    requires
        0 <= n <= s.len(),
    ensures
        0 <= total(s, n) <= n * u64::MAX,
    decreases n,
{
    if n > 0 {
        lemma_total(s, n - 1);
        assert((n - 1) * u64::MAX + u64::MAX == n * u64::MAX) by (nonlinear_arith);
    }
}

/// The mean of the samples, rounded down.
pub fn mean(samples: &Vec<u64>) -> (r: u64)
    requires
        samples@.len() > 0,
    ensures
        r == total(samples@, samples@.len() as int) / (samples@.len() as int),
{
    let n: usize = samples.len();
    let mut sum: u128 = 0;
    let mut i: usize = 0;
    proof {
        assert(n * u64::MAX <= 0xffff_ffff_ffff_ffff * 0xffff_ffff_ffff_ffff) by (nonlinear_arith)
            requires
                n <= 0xffff_ffff_ffff_ffff,
        ;
    }
    while i < n
        invariant
            i <= n == samples@.len(),
            sum == total(samples@, i as int),
            n * u64::MAX <= 0xffff_ffff_ffff_ffff * 0xffff_ffff_ffff_ffff,
        decreases n - i,
    {
        proof {
            lemma_total(samples@, i + 1);
            assert((i + 1) * u64::MAX <= n * u64::MAX) by (nonlinear_arith)
                requires
                    i + 1 <= n,
            ;
        }
        sum = sum + samples[i] as u128;
        i = i + 1;
    }
    proof {
        lemma_total(samples@, n as int);
        let t = total(samples@, n as int);
        let m = n as int;
        assert(t / m <= u64::MAX) by (nonlinear_arith)
            requires
                0 <= t <= m * u64::MAX,
                m > 0,
        ;
    }
    (sum / n as u128) as u64
}

// ── laws ──────────────────────────────────────────────────────────────────

proof fn lemma_sorted(s: Seq<u64>)
    ensures
        sorted_samples(s).len() == s.len(),
        sorted_samples(s).to_multiset() == s.to_multiset(),
        forall|i: int, j: int|
            0 <= i <= j < s.len() ==> #[trigger] sorted_samples(s)[i]
                <= #[trigger] sorted_samples(s)[j],
{
    broadcast use vstd::seq_lib::group_to_multiset_ensures;

    let leq = |a: u64, b: u64| a <= b;
    s.lemma_sort_by_ensures(leq);
    let t = sorted_samples(s);
    assert(t =~= s.sort_by(leq));
    assert(t.len() == t.to_multiset().len());
    assert(s.len() == s.to_multiset().len());
    assert forall|i: int, j: int| 0 <= i <= j < s.len() implies #[trigger] t[i] <= #[trigger] t[j] by {
        if i < j {
            assert(leq(t[i], t[j]));
        }
    }
}

/// A percentile of at least one sample is one of the samples.
pub proof fn law_percentile_is_a_sample(s: Seq<u64>, p: nat)
    requires
        s.len() > 0,
    ensures
        s.contains(percentile(s, p)),
{
    broadcast use vstd::seq_lib::group_to_multiset_ensures;

    lemma_sorted(s);
    let t = sorted_samples(s);
    let x = t[rank(s.len(), p)];
    assert(t.contains(x));
    assert(t.to_multiset().count(x) > 0);
}

/// A higher percentile is never less than a lower one.
pub proof fn law_percentiles_grow(s: Seq<u64>, p: nat, q: nat)
    requires
        p <= q,
    ensures
        percentile(s, p) <= percentile(s, q),
{
    if s.len() > 0 {
        lemma_sorted(s);
        rounding::lemma_hundredths_grow(p, q, s.len());
    }
}

/// The greatest sample of a spread is a sample, and none is greater.
pub proof fn law_spread_has_the_greatest(s: Seq<u64>)
    requires
        s.len() > 0,
    ensures
        s.contains(spread_of(s).max),
        forall|x: u64| s.contains(x) ==> x <= spread_of(s).max,
{
    broadcast use vstd::seq_lib::group_to_multiset_ensures;

    lemma_sorted(s);
    let t = sorted_samples(s);
    let top = t[s.len() - 1];
    assert(t.contains(top));
    assert(t.to_multiset().count(top) > 0);
    assert forall|x: u64| s.contains(x) implies x <= top by {
        assert(s.to_multiset().count(x) > 0);
        assert(t.contains(x));
        let i = choose|i: int| 0 <= i < t.len() && t[i] == x;
        assert(t[i] <= t[s.len() - 1]);
    }
}

/// Sorted samples are the samples themselves, each as often as it was taken, none before a
/// smaller one.
pub proof fn law_sorting_keeps_the_samples(s: Seq<u64>)
    ensures
        sorted_samples(s).len() == s.len(),
        forall|x: u64| #[trigger]
            sorted_samples(s).to_multiset().count(x) == s.to_multiset().count(x),
        forall|i: int, j: int|
            0 <= i <= j < s.len() ==> #[trigger] sorted_samples(s)[i]
                <= #[trigger] sorted_samples(s)[j],
{
    lemma_sorted(s);
}

/// One more sample adds itself to the sum, and nothing adds nothing.
pub proof fn law_sum_takes_every_sample(s: Seq<u64>, x: u64)
    ensures
        total(Seq::empty(), 0) == 0,
        total(s.push(x), s.len() as int + 1) == total(s, s.len() as int) + x,
{
    lemma_total_prefix(s, s.push(x), s.len() as int);
}

proof fn lemma_total_prefix(s: Seq<u64>, t: Seq<u64>, n: int)
    requires
        n <= s.len() <= t.len(),
        forall|i: int| 0 <= i < s.len() ==> s[i] == #[trigger] t[i],
    ensures
        total(s, n) == total(t, n),
    decreases n,
{
    if n > 0 {
        lemma_total_prefix(s, t, n - 1);
    }
}

/// Of the samples in their order, as many as the share asks for come before the one that stands
/// for it: half, nine tenths, and ninety-nine hundredths, rounded down.
pub proof fn law_positions_leave_the_share_below(s: Seq<u64>, below: int)
    requires
        s.len() > 0,
        below >= 0,
    ensures
        2 * below <= s.len() < 2 * (below + 1) ==> positions_of(s).p50 == sorted_samples(s)[below],
        10 * below <= 9 * s.len() < 10 * (below + 1) ==> positions_of(s).p90
            == sorted_samples(s)[below],
        100 * below <= 99 * s.len() < 100 * (below + 1) ==> positions_of(s).p99
            == sorted_samples(s)[below] && tail(s) == sorted_samples(s)[below],
        s.contains(positions_of(s).max),
        forall|x: u64| s.contains(x) ==> x <= positions_of(s).max,
        positions_of(s).n as nat == s.len() || s.len() > usize::MAX,
{
    law_spread_has_the_greatest(s);
}

/// A percentile is the sample at the place nearest to that share of the way from the least to the
/// greatest.
pub proof fn law_percentile_is_at_the_nearest_place(s: Seq<u64>, p: nat)
    requires
        1 <= s.len() <= 0x1_0000_0000,
        p <= 100,
    ensures
        0 <= rank(s.len(), p) < s.len(),
        rounding::distance(100 * rank(s.len(), p), (p * (s.len() - 1)) as int) <= 50,
        percentile(s, p) == sorted_samples(s)[rank(s.len(), p)],
        s.len() % 2 == 1 ==> percentile(s, 50) == sorted_samples(s)[s.len() as int / 2],
        forall|x: u64| s.contains(x) ==> percentile(s, 0) <= x <= percentile(s, 100),
{
    let n = s.len();
    rounding::law_hundredths_are_nearest(p, n);
    rounding::law_hundredths_are_nearest(50, n);
    rounding::law_hundredths_are_nearest(0, n);
    rounding::law_hundredths_are_nearest(100, n);
    assert(p * (n - 1) <= 100 * (n - 1)) by (nonlinear_arith)
        requires
            p <= 100,
            n >= 1,
    ;
    lemma_sorted(s);
    law_spread_has_the_greatest(s);
    let t = sorted_samples(s);
    assert forall|x: u64| s.contains(x) implies percentile(s, 0) <= x <= percentile(s, 100) by {
        broadcast use vstd::seq_lib::group_to_multiset_ensures;

        assert(s.to_multiset().count(x) > 0);
        assert(t.contains(x));
        let i = choose|i: int| 0 <= i < t.len() && t[i] == x;
        assert(t[0] <= t[i] <= t[n - 1]);
    }
}

} // verus!
