//! Compute allocation by token importance: which tokens, heads and channels to keep.
//!
//! Scores and ratios are held as the bits of an `f32`. Sums over the scores (an entropy, a mean)
//! come in as numbers.
use crate::order;
use crate::order::{highest, is_less, lowest};
use crate::ratios;
use crate::ratios::{parts_up_of, share_down_of, share_up_of};
use crate::rounding::SINGLE;
use vstd::prelude::*;

verus! {

/// A model's architecture.
#[derive(Debug, Clone, Copy, PartialEq, Eq, Structural)]
pub enum ArchType {
    Dense,
    Hybrid,
    MoE,
}

/// How a signal was computed.
#[derive(Debug, Clone, Copy, PartialEq, Eq, Structural)]
pub enum SignalSource {
    /// The selectivity of a state-space model.
    NativeDelta,
    /// The drift of the hidden state.
    ProxyDelta,
    /// The confidence of a router.
    RouterIR,
}

/// Importance of each token.
#[derive(Clone, Debug)]
pub struct DeltaSignal {
    pub scores: Vec<u32>,
    pub source: SignalSource,
    pub seq_len: usize,
}

/// The bits of 1.
pub const WHOLE: u32 = 0x3F80_0000;

/// Whether the bits hold a number between 0 and 1.
pub open spec fn is_ratio(bits: u32) -> bool {
    bits <= WHOLE || bits == 0x8000_0000
}

/// How many of `n` tokens a ratio makes.
pub open spec fn part(n: usize, ratio: u32) -> nat {
    ratios::share_down(n as nat, ratio as nat, SINGLE as nat, usize::MAX as nat)
}

fn part_of(n: usize, ratio: u32) -> (r: usize)
    ensures
        r == part(n, ratio),
{
    share_down_of(n as u64, ratio as u64, SINGLE, usize::MAX as u64) as usize
}

impl DeltaSignal {
    /// The `k` most important tokens, most important first.
    pub fn top_k(&self, k: usize) -> (r: Vec<usize>)
        ensures
            order::first_places(order::high_keys(self.scores@), k as nat, r@),
    {
        highest(&self.scores, k)
    }

    /// The least important tokens, a ratio `p` of the sequence, least important first.
    pub fn bottom_percent(&self, p: u32) -> (r: Vec<usize>)
        requires
            is_ratio(p),
        ensures
            order::first_places(order::low_keys(self.scores@), part(self.seq_len, p), r@),
    {
        lowest(&self.scores, part_of(self.seq_len, p))
    }
}

/// The numbers from `a` up to `b`.
pub open spec fn span(a: int, b: int) -> Seq<usize> {
    Seq::new(
        if a < b {
            (b - a) as nat
        } else {
            0
        },
        |i: int| (a + i) as usize,
    )
}

/// The numbers below `n` that are not in `out`, rising.
pub open spec fn without(n: int, out: Seq<usize>) -> Seq<usize>
    decreases n,
{
    if n <= 0 {
        Seq::empty()
    } else if out.contains((n - 1) as usize) {
        without(n - 1, out)
    } else {
        without(n - 1, out).push((n - 1) as usize)
    }
}

fn listed(s: &Vec<usize>, x: usize) -> (r: bool)
    ensures
        r == s@.contains(x),
{
    let mut i: usize = 0;
    while i < s.len()
        invariant
            i <= s@.len(),
            forall|k: int| 0 <= k < i ==> #[trigger] s@[k] != x,
        decreases s@.len() - i,
    {
        if s[i] == x {
            return true;
        }
        i = i + 1;
    }
    false
}

fn retained_of(n: usize, evicted: &Vec<usize>) -> (r: Vec<usize>)
    ensures
        r@ == without(n as int, evicted@),
{
    let mut out: Vec<usize> = Vec::new();
    let mut i: usize = 0;
    while i < n
        invariant
            i <= n,
            out@ == without(i as int, evicted@),
        decreases n - i,
    {
        if !listed(evicted, i) {
            out.push(i);
        }
        i = i + 1;
    }
    out
}

/// The numbers from `a` up to `b`.
pub fn run(a: usize, b: usize) -> (r: Vec<usize>)
    requires
        a <= b,
    ensures
        r@ == span(a as int, b as int),
{
    let mut out: Vec<usize> = Vec::new();
    let mut i: usize = a;
    while i < b
        invariant
            a <= i <= b,
            out@ == span(a as int, i as int),
        decreases b - i,
    {
        out.push(i);
        i = i + 1;
        proof {
            assert(out@ =~= span(a as int, i as int));
        }
    }
    out
}

/// Eviction from a key-value cache.
pub struct SelKV;

/// The tokens that stay and those that leave.
#[derive(Debug)]
pub struct EvictionResult {
    pub retained_indices: Vec<usize>,
    pub evicted_indices: Vec<usize>,
}

impl SelKV {
    /// Evicts the least important tokens, a ratio of the sequence, whatever the size of the
    /// cache.
    pub fn evict(delta: &DeltaSignal, ratio: u32, _cache_size: usize) -> (r: EvictionResult)
        requires
            is_ratio(ratio),
        ensures
            order::first_places(
                order::low_keys(delta.scores@),
                part(delta.seq_len, ratio),
                r.evicted_indices@,
            ),
            r.retained_indices@ == without(delta.seq_len as int, r.evicted_indices@),
    {
        let evicted = delta.bottom_percent(ratio);
        let retained = retained_of(delta.seq_len, &evicted);
        EvictionResult { retained_indices: retained, evicted_indices: evicted }
    }
}

/// Sparse attention within a window.
pub struct Smsa;

impl Smsa {
    /// The window of a base width at a scale: at least one token.
    pub fn adaptive_window(scale: u32, base_window: usize) -> (r: usize)
        ensures
            r == (if part(base_window, scale) == 0 {
                1
            } else {
                part(base_window, scale)
            }),
    {
        let n: usize = part_of(base_window, scale);
        if n == 0 {
            1
        } else {
            n
        }
    }
}

/// Attention routing.
pub struct DeltaAR;

impl DeltaAR {
    /// Routes to the `k` most important keys, all of them if there are fewer.
    pub fn route(delta: &DeltaSignal, k: usize) -> (r: Vec<usize>)
        ensures
            order::first_places(
                order::high_keys(delta.scores@),
                if k < delta.seq_len {
                    k as nat
                } else {
                    delta.seq_len as nat
                },
                r@,
            ),
    {
        let n: usize = if k < delta.seq_len { k } else { delta.seq_len };
        delta.top_k(n)
    }
}

/// Head gating.
pub struct HeadDeactivate;

/// The heads that work and those that rest.
#[derive(Debug)]
pub struct HeadGateResult {
    pub active_heads: Vec<usize>,
    pub deactivated_heads: Vec<usize>,
}

/// The bits of 0.5, 1.5 and 2.5.
pub const LOW_ENTROPY: u32 = 0x3F00_0000;

pub const MEDIUM_ENTROPY: u32 = 0x3FC0_0000;

pub const HIGH_ENTROPY: u32 = 0x4020_0000;

/// The number of heads that an entropy calls for, none for all of them.
pub open spec fn heads_for(entropy: u32) -> Option<usize> {
    if order::less(entropy, LOW_ENTROPY) {
        Some(4)
    } else if order::less(entropy, MEDIUM_ENTROPY) {
        Some(16)
    } else if order::less(entropy, HIGH_ENTROPY) {
        Some(24)
    } else {
        None
    }
}

/// `count` brought to at least one and at most `total`.
pub open spec fn bounded(count: nat, total: usize) -> usize {
    let some = if count == 0 {
        1
    } else {
        count
    };
    if some < total {
        some as usize
    } else {
        total
    }
}

fn bound(count: usize, total: usize) -> (r: usize)
    ensures
        r == bounded(count as nat, total),
{
    let some: usize = if count == 0 { 1 } else { count };
    if some < total {
        some
    } else {
        total
    }
}

/// How many of `total` heads work at an entropy.
pub open spec fn active(entropy: u32, total: usize) -> usize {
    bounded(
        match heads_for(entropy) {
            Some(n) => if total == 0 {
                0
            } else {
                ratios::parts_up(n as nat, total as nat)
            },
            None => ratios::share_up(
                total as nat,
                WHOLE as nat,
                SINGLE as nat,
                usize::MAX as nat,
            ),
        },
        total,
    )
}

impl HeadDeactivate {
    /// The number of heads that an entropy calls for, none for all of them.
    pub fn wanted(entropy: u32) -> (r: Option<usize>)
        ensures
            r == heads_for(entropy),
    {
        if is_less(entropy, LOW_ENTROPY) {
            Some(4)
        } else if is_less(entropy, MEDIUM_ENTROPY) {
            Some(16)
        } else if is_less(entropy, HIGH_ENTROPY) {
            Some(24)
        } else {
            None
        }
    }

    /// Keeps the first heads, as many as the entropy calls for and at least one, and rests the
    /// others.
    pub fn gate(entropy: u32, total_heads: usize) -> (r: HeadGateResult)
        ensures
            r.active_heads@ == span(0, active(entropy, total_heads) as int),
            r.deactivated_heads@ == span(
                active(entropy, total_heads) as int,
                total_heads as int,
            ),
    {
        let all: u64 = total_heads as u64;
        let most: u64 = usize::MAX as u64;
        let count: u64 = match HeadDeactivate::wanted(entropy) {
            Some(n) => if total_heads == 0 {
                0
            } else {
                parts_up_of(n as u64, all, most)
            },
            None => share_up_of(all, WHOLE as u64, SINGLE, most),
        };
        let n: usize = bound(count as usize, total_heads);
        HeadGateResult { active_heads: run(0, n), deactivated_heads: run(n, total_heads) }
    }
}

/// Hidden-state compression.
pub struct StateCompress;

/// How many channels stay and how many are zeroed.
#[derive(Debug, Clone, Copy, PartialEq, Eq, Structural)]
pub struct CompressionResult {
    pub channels_kept: usize,
    pub channels_zeroed: usize,
}

/// Whether the number with the bits `a` is at least that with the bits `b`.
pub open spec fn reaches(a: u32, b: u32) -> bool {
    !order::is_nan(a) && !order::is_nan(b) && !order::less(a, b)
}

fn does_reach(a: u32, b: u32) -> (r: bool)
    ensures
        r == reaches(a, b),
{
    a % 0x8000_0000 <= 0x7f80_0000 && b % 0x8000_0000 <= 0x7f80_0000 && !is_less(a, b)
}

/// How many of `total` channels a ratio keeps.
pub open spec fn kept(total: usize, keep_ratio: u32) -> usize {
    bounded(
        ratios::share_up(total as nat, keep_ratio as nat, SINGLE as nat, usize::MAX as nat),
        total,
    )
}

impl StateCompress {
    /// Keeps a ratio of `total` channels, rounded up and at least one, where the score is below
    /// the threshold; keeps all where it is not.
    pub fn compress(total: usize, delta_score: u32, threshold: u32, keep_ratio: u32) -> (r:
        CompressionResult)
        ensures
            r.channels_kept == (if reaches(delta_score, threshold) || total == 0 {
                total
            } else {
                kept(total, keep_ratio)
            }),
            r.channels_kept + r.channels_zeroed == total,
    {
        if does_reach(delta_score, threshold) || total == 0 {
            return CompressionResult { channels_kept: total, channels_zeroed: 0 };
        }
        let count: u64 = share_up_of(total as u64, keep_ratio as u64, SINGLE, usize::MAX as u64);
        let n: usize = bound(count as usize, total);
        CompressionResult { channels_kept: n, channels_zeroed: total - n }
    }
}

/// Eviction that protects the first tokens.
pub struct DenseEvic;

/// The tokens that stay, those that leave, and the number of protected ones.
#[derive(Debug)]
pub struct DenseEvictionResult {
    pub retained: Vec<usize>,
    pub evicted: Vec<usize>,
    pub protected_boundary: usize,
}

/// `p`, moved up by `by`.
pub open spec fn shifted(p: Seq<usize>, by: int) -> Seq<usize> {
    Seq::new(p.len(), |i: int| (p[i] + by) as usize)
}

/// `r` is the `count` least important tokens behind the first `protected`.
pub open spec fn evicted_behind(
    scores: Seq<u32>,
    protected: int,
    count: nat,
    r: Seq<usize>,
) -> bool {
    exists|p: Seq<usize>| #[trigger]
        order::first_places(
            order::low_keys(scores.subrange(protected, scores.len() as int)),
            count,
            p,
        ) && r == shifted(p, protected)
}

impl DenseEvic {
    /// Evicts the least important tokens behind the first `protected`, a ratio of those behind.
    pub fn evict(delta: &DeltaSignal, ratio: u32, protected: usize) -> (r: DenseEvictionResult)
        requires
            protected <= delta.seq_len,
            protected <= delta.scores@.len(),
        ensures
            evicted_behind(
                delta.scores@,
                protected as int,
                part((delta.seq_len - protected) as usize, ratio),
                r.evicted@,
            ),
            r.retained@ == without(delta.seq_len as int, r.evicted@),
            r.protected_boundary == protected,
    {
        let count: usize = part_of(delta.seq_len - protected, ratio);
        let size: usize = delta.scores.len();
        let mut pool: Vec<u32> = Vec::new();
        let mut i: usize = protected;
        while i < size
            invariant
                protected <= i <= size == delta.scores@.len(),
                pool@ == delta.scores@.subrange(protected as int, i as int),
            decreases size - i,
        {
            pool.push(delta.scores[i]);
            i = i + 1;
            proof {
                assert(pool@ =~= delta.scores@.subrange(protected as int, i as int));
            }
        }
        let p = lowest(&pool, count);
        proof {
            order::law_first_places_are_best(order::low_keys(pool@), count as nat, p@);
        }
        let mut evicted: Vec<usize> = Vec::new();
        let mut j: usize = 0;
        while j < p.len()
            invariant
                j <= p@.len(),
                protected + pool@.len() == size,
                forall|x: int| 0 <= x < p@.len() ==> (#[trigger] p@[x]) < pool@.len(),
                evicted@ == shifted(p@.take(j as int), protected as int),
            decreases p@.len() - j,
        {
            evicted.push(p[j] + protected);
            j = j + 1;
            proof {
                assert(evicted@ =~= shifted(p@.take(j as int), protected as int));
            }
        }
        proof {
            assert(p@.take(j as int) =~= p@);
        }
        let retained = retained_of(delta.seq_len, &evicted);
        DenseEvictionResult { retained, evicted, protected_boundary: protected }
    }
}

/// Low-rank projection.
pub struct DeltaRank;

/// The bits of 0.16, 0.32 and 0.64.
pub const RANK_16: u32 = 0x3E23_D70A;

pub const RANK_32: u32 = 0x3EA3_D70A;

pub const RANK_64: u32 = 0x3F23_D70A;

/// `n`, at most `max`.
pub open spec fn capped(n: usize, max: usize) -> usize {
    if n < max {
        n
    } else {
        max
    }
}

/// The rank that a score calls for.
pub open spec fn rank_for(score: u32, max_rank: usize) -> usize {
    if order::less(score, RANK_16) {
        capped(16, max_rank)
    } else if order::less(score, RANK_32) {
        capped(32, max_rank)
    } else if order::less(score, RANK_64) {
        capped(64, max_rank)
    } else {
        max_rank
    }
}

impl DeltaRank {
    /// The rank for a score, at most `max_rank`.
    pub fn score_to_rank(delta_score: u32, max_rank: usize) -> (r: usize)
        ensures
            r == rank_for(delta_score, max_rank),
    {
        let n: usize = if is_less(delta_score, RANK_16) {
            16
        } else if is_less(delta_score, RANK_32) {
            32
        } else if is_less(delta_score, RANK_64) {
            64
        } else {
            max_rank
        };
        if n < max_rank {
            n
        } else {
            max_rank
        }
    }
}

/// Budget by output entropy.
pub struct Ebar;

impl Ebar {
    /// The scaled budget, brought between a tenth of the base budget and the base budget.
    pub fn compute_budget(scaled: u32, low: u32, base: u32) -> (r: u32)
        requires
            !order::is_nan(low),
            !order::is_nan(base),
            !order::less(base, low),
        ensures
            r == (if order::less(scaled, low) {
                low
            } else if order::less(base, scaled) {
                base
            } else {
                scaled
            }),
    {
        if is_less(scaled, low) {
            low
        } else if is_less(base, scaled) {
            base
        } else {
            scaled
        }
    }
}

/// Head salience.
pub struct Ipss;

impl Ipss {
    /// Whether a head is quiet enough for the linear fallback.
    pub fn should_fallback(salience: u32, threshold: u32) -> (r: bool)
        ensures
            r == order::less(salience, threshold),
    {
        is_less(salience, threshold)
    }
}

// ── laws ──────────────────────────────────────────────────────────────────

proof fn lemma_without(n: int, out: Seq<usize>, x: usize)
    requires
        n <= usize::MAX,
    ensures
        without(n, out).contains(x) <==> (x < n && !out.contains(x)),
        without(n, out).no_duplicates(),
        forall|i: int| 0 <= i < without(n, out).len() ==> (#[trigger] without(n, out)[i]) < n,
    decreases n,
{
    if n > 0 {
        lemma_without(n - 1, out, x);
        let rest = without(n - 1, out);
        let all = without(n, out);
        if !out.contains((n - 1) as usize) {
            assert(all[rest.len() as int] == n - 1);
            if rest.contains(x) {
                let p = choose|p: int| 0 <= p < rest.len() && rest[p] == x;
                assert(all[p] == x);
            }
            if all.contains(x) && x != n - 1 {
                let p = choose|p: int| 0 <= p < all.len() && all[p] == x;
                assert(rest[p] == x);
            }
            assert forall|i: int, j: int| 0 <= i < j < all.len() implies all[i] != all[j] by {
                if j < rest.len() {
                    assert(rest[i] != rest[j]);
                } else {
                    assert(rest[i] < n - 1);
                }
            }
            assert forall|i: int| 0 <= i < all.len() implies (#[trigger] all[i]) < n by {
                if i < rest.len() {
                    assert(rest[i] < n - 1);
                }
            }
        } else {
            assert forall|i: int| 0 <= i < all.len() implies (#[trigger] all[i]) < n by {
                assert(rest[i] < n - 1);
            }
        }
    }
}

/// Every token of the sequence either stays or leaves, and none does both.
pub proof fn law_eviction_partitions(seq_len: usize, evicted: Seq<usize>, token: usize)
    requires
        token < seq_len,
    ensures
        without(seq_len as int, evicted).contains(token) <==> !evicted.contains(token),
        without(seq_len as int, evicted).no_duplicates(),
{
    lemma_without(seq_len as int, evicted, token);
}

/// An evicted token never scores above one that stays.
pub proof fn law_evicted_are_least(
    scores: Seq<u32>,
    count: nat,
    evicted: Seq<usize>,
    out: usize,
    stays: usize,
)
    requires
        order::first_places(order::low_keys(scores), count, evicted),
        evicted.contains(out),
        stays < scores.len(),
        !evicted.contains(stays),
    ensures
        order::float_key(scores[out as int]) <= order::float_key(scores[stays as int]),
{
    let keys = order::low_keys(scores);
    order::law_first_places_are_best(keys, count, evicted);
    let i = choose|i: int| 0 <= i < evicted.len() && evicted[i] == out;
    assert(order::before(keys, evicted[i], stays));
}

/// A protected token is never evicted.
pub proof fn law_boundary_is_protected(
    scores: Seq<u32>,
    protected: int,
    count: nat,
    evicted: Seq<usize>,
    i: int,
)
    requires
        0 <= protected <= scores.len() <= usize::MAX,
        evicted_behind(scores, protected, count, evicted),
        0 <= i < evicted.len(),
    ensures
        protected <= evicted[i] < scores.len(),
{
    let pool = scores.subrange(protected, scores.len() as int);
    let keys = order::low_keys(pool);
    let p = choose|p: Seq<usize>| #[trigger]
        order::first_places(keys, count, p) && evicted == shifted(p, protected);
    order::law_first_places_are_best(keys, count, p);
    assert(p[i] < keys.len());
}

/// Every head either works or rests, in their order.
pub proof fn law_heads_are_split(entropy: u32, total: usize)
    ensures
        span(0, active(entropy, total) as int) + span(active(entropy, total) as int, total as int)
            == span(0, total as int),
{
    let n = active(entropy, total) as int;
    assert(span(0, n) + span(n, total as int) =~= span(0, total as int));
}

/// A higher score never gets a lower rank.
pub proof fn law_rank_grows(low: u32, high: u32, max_rank: usize)
    requires
        order::less(low, high),
    ensures
        rank_for(low, max_rank) <= rank_for(high, max_rank),
{
}

/// What stays is listed in the order of the sequence.
pub proof fn law_retained_keep_their_order(n: int, out: Seq<usize>, i: int, j: int)
    requires
        n <= usize::MAX,
        0 <= i < j < without(n, out).len(),
    ensures
        without(n, out)[i] < without(n, out)[j] < n,
    decreases n,
{
    lemma_without(n, out, 0);
    lemma_without(n - 1, out, 0);
    let rest = without(n - 1, out);
    if j < rest.len() {
        law_retained_keep_their_order(n - 1, out, i, j);
        assert(without(n, out)[i] == rest[i] && without(n, out)[j] == rest[j]);
    } else {
        assert(without(n, out)[i] == rest[i]);
    }
}

/// A span holds the numbers from its first up to its end, in their order.
pub proof fn law_spans_count_up(a: usize, b: usize, i: int, x: usize)
    requires
        a <= b,
        0 <= i < b - a,
    ensures
        span(a as int, b as int).len() == b - a,
        span(a as int, b as int)[i] == a + i,
        span(a as int, b as int).contains(x) <==> a <= x < b,
{
    if a <= x < b {
        assert(span(a as int, b as int)[x - a] == x);
    }
}

/// Of the tokens behind the protected ones the least important leave, as many as asked for, and
/// none twice.
pub proof fn law_evicted_behind_are_least(
    scores: Seq<u32>,
    protected: int,
    count: nat,
    evicted: Seq<usize>,
    out: int,
    stays: usize,
)
    requires
        0 <= protected <= scores.len() <= usize::MAX,
        evicted_behind(scores, protected, count, evicted),
        0 <= out < evicted.len(),
        protected <= stays < scores.len(),
        !evicted.contains(stays),
    ensures
        order::float_key(scores[evicted[out] as int]) <= order::float_key(scores[stays as int]),
        evicted.len() == (if count < scores.len() - protected {
            count as int
        } else {
            scores.len() - protected
        }),
        evicted.no_duplicates(),
{
    let sub = scores.subrange(protected, scores.len() as int);
    let p = choose|p: Seq<usize>| #[trigger]
        order::first_places(
            order::low_keys(scores.subrange(protected, scores.len() as int)),
            count,
            p,
        ) && evicted == shifted(p, protected);
    order::law_lowest_are_lowest(sub, count, p);
    let x = (stays - protected) as usize;
    if p.contains(x) {
        let i = choose|i: int| 0 <= i < p.len() && p[i] == x;
        assert(evicted[i] == stays);
    }
    assert(sub[x as int] == scores[stays as int]);
    assert(p[out] < sub.len());
    assert(sub[p[out] as int] == scores[evicted[out] as int]);
    assert forall|i: int, j: int| 0 <= i < j < evicted.len() implies evicted[i] != evicted[j] by {
        assert(p[i] != p[j]);
        assert(p[i] < sub.len() && p[j] < sub.len());
    }
}

/// At least one head or channel is kept where there is any, never more than there are, and as many
/// as asked for where that lies between.
pub proof fn law_counts_are_brought_in_bounds(count: nat, total: usize)
    ensures
        bounded(count, total) <= total,
        total > 0 ==> bounded(count, total) >= 1,
        1 <= count <= total ==> bounded(count, total) == count,
        count > total ==> bounded(count, total) == total,
{
}

/// A number reaches another exactly where it is not below it, and what is no number reaches
/// nothing and is reached by nothing.
pub proof fn law_reaching_is_not_being_less(a: u32, b: u32)
    ensures
        !order::is_nan(a) && !order::is_nan(b) ==> reaches(a, b) == !order::less(a, b),
        !order::is_nan(a) && !order::is_nan(b) ==> reaches(a, b) || reaches(b, a),
        order::is_nan(a) || order::is_nan(b) ==> !reaches(a, b),
        reaches(a, b) ==> order::float_key(a) >= order::float_key(b),
{
}

/// More entropy never rests more heads, and from the highest step on all of them work.
pub proof fn law_entropy_wakes_heads(low: u32, high: u32)
    requires
        order::less(low, high),
    ensures
        heads_for(high) matches Some(h) ==> (heads_for(low) matches Some(l) && l <= h),
        order::less(low, LOW_ENTROPY) ==> heads_for(low) == Some(4usize),
        reaches(low, HIGH_ENTROPY) ==> heads_for(low) is None,
{
}

/// A rank is never above the most, and reaches it from the highest step on.
pub proof fn law_ranks_are_capped(score: u32, max_rank: usize)
    ensures
        rank_for(score, max_rank) <= max_rank,
        reaches(score, RANK_64) ==> rank_for(score, max_rank) == max_rank,
        order::less(score, RANK_16) && max_rank >= 16 ==> rank_for(score, max_rank) == 16,
        max_rank <= 16 ==> rank_for(score, max_rank) == max_rank,
{
}

/// Half of the tokens or channels are half of them, rounded down for those that leave and up for
/// those that are kept, and a whole is all of them.
pub proof fn law_halves_and_wholes(n: usize)
    requires
        0 < n < SINGLE,
    ensures
        part(n, WHOLE) == n,
        part(n, LOW_ENTROPY) == n as nat / 2,
        part(n, 0x3E80_0000) == n as nat / 4,
        kept(n, WHOLE) == n,
        kept(n, LOW_ENTROPY) == (n as nat + 1) / 2,
        part(n, 0) == 0,
        kept(n, 0) >= 1,
{
    ratios::law_shares_of_one_and_a_half(n as nat, usize::MAX as nat, 0);
}

/// Of a power of two as many heads work as the entropy calls for, or all of them where there are
/// fewer.
pub proof fn law_heads_work_as_called_for(entropy: u32, total: usize, j: nat)
    requires
        j <= 20,
        total == vstd::arithmetic::power2::pow2(j),
    ensures
        heads_for(entropy) matches Some(h) ==> active(entropy, total) == (if h < total {
            h
        } else {
            total
        }),
        heads_for(entropy) is None ==> active(entropy, total) == total,
{
    vstd::arithmetic::power2::lemma2_to64();
    vstd::arithmetic::power2::lemma_pow2_pos(j);
    if j < 20 {
        vstd::arithmetic::power2::lemma_pow2_strictly_increases(j, 20);
    }
    ratios::law_parts_come_out_again(4, j, 1, 1);
    ratios::law_parts_come_out_again(16, j, 1, 1);
    ratios::law_parts_come_out_again(24, j, 1, 1);
    ratios::law_shares_of_one_and_a_half(total as nat, usize::MAX as nat, 0);
}

} // verus!
