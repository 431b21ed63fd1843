//! Deterministic workloads: pseudo-random draws, key-value operations, and how vectors and
//! queries are dealt out to clients.
use crate::text;
use crate::text::{chars_of, dec_string, parse_unsigned};
use vstd::prelude::*;
use vstd::string::*;

verus! {

// ── draws ─────────────────────────────────────────────────────────────────

/// One step of the generator.
pub open spec fn shifted(s: u64) -> u64 {
    let a = s ^ (s << 13);
    let b = a ^ (a >> 7);
    b ^ (b << 17)
}

fn shift(s: u64) -> (r: u64)
    ensures
        r == shifted(s),
{
    let a: u64 = s ^ (s << 13);
    let b: u64 = a ^ (a >> 7);
    b ^ (b << 17)
}

/// A pseudo-random generator that never leaves the non-zero states.
#[derive(Clone, Copy, Debug, PartialEq, Eq, Structural)]
pub struct XRng {
    pub state: u64,
}

impl XRng {
    /// A generator from a seed; its lowest bit is set.
    pub fn new(seed: u64) -> (r: Self)
        ensures
            r.state == seed | 1,
            r.state != 0,
    {
        proof {
            assert(seed | 1 != 0) by (bit_vector);
        }
        XRng { state: seed | 1 }
    }

    /// The next draw.
    pub fn next(&mut self) -> (r: u64)
        ensures
            final(self).state == shifted(old(self).state),
            r == final(self).state,
    {
        self.state = shift(self.state);
        self.state
    }

    /// The next draw below `n`.
    pub fn range(&mut self, n: u64) -> (r: u64)
        requires
            n > 0,
        ensures
            final(self).state == shifted(old(self).state),
            r == final(self).state % n,
    {
        self.next() % n
    }

    /// The next draw between 0 and 1, in parts of which 2^53 make one.
    pub fn ratio_parts(&mut self) -> (r: u64)
        ensures
            final(self).state == shifted(old(self).state),
            r == final(self).state >> 11,
    {
        self.next() >> 11
    }
}

/// The state that a vector's seed begins with.
pub open spec fn vector_state(seed: u64) -> u64 {
    ((seed as int * 0x9E37_79B9_7F4A_7C15 + 1) % 0x1_0000_0000_0000_0000) as u64
}

/// The state after `n` steps.
pub open spec fn state_after(s: u64, n: nat) -> u64
    decreases n,
{
    if n == 0 {
        s
    } else {
        shifted(state_after(s, (n - 1) as nat))
    }
}

/// The components of a vector before they are scaled, as numbers of 24 bits.
pub open spec fn raw_components(seed: u64, dim: nat) -> Seq<u64> {
    Seq::new(dim, |i: int| state_after(vector_state(seed), (i + 1) as nat) >> 40)
}

/// Draws the components of a vector.
pub fn vector_draws(seed: u64, dim: usize) -> (r: Vec<u64>)
    ensures
        r@ == raw_components(seed, dim as nat),
{
    let first: u64 = seed.wrapping_mul(0x9E37_79B9_7F4A_7C15).wrapping_add(1);
    proof {
        let a = seed as int * 0x9E37_79B9_7F4A_7C15;
        let m = 0x1_0000_0000_0000_0000int;
        vstd::arithmetic::div_mod::lemma_add_mod_noop(a, 1, m);
    }
    assert(first == vector_state(seed));
    let mut s: u64 = first;
    let mut out: Vec<u64> = Vec::new();
    let mut i: usize = 0;
    while i < dim
        invariant
            i <= dim,
            s == state_after(vector_state(seed), i as nat),
            out@ == raw_components(seed, i as nat),
        decreases dim - i,
    {
        s = shift(s);
        out.push(s >> 40);
        i = i + 1;
        proof {
            assert(out@ =~= raw_components(seed, i as nat));
        }
    }
    out
}

/// The seeds of a clustered vector: of its cluster's centre, and of its own noise.
pub fn cluster_seeds(id: u64, n_clusters: u64) -> (r: (u64, u64))
    requires
        n_clusters > 0,
    ensures
        r.0 == ((id % n_clusters) as int * 0xDEAD_BEEF) % 0x1_0000_0000_0000_0000,
        r.1 == (id as int * 0xCAFE_BABE) % 0x1_0000_0000_0000_0000,
{
    let c: u64 = id % n_clusters;
    (c.wrapping_mul(0xDEAD_BEEF), id.wrapping_mul(0xCAFE_BABE))
}

// ── key-value operations ──────────────────────────────────────────────────

/// What one operation of a key-value workload does.
#[derive(Clone, Copy, Debug, PartialEq, Eq, Structural)]
pub enum KvOp {
    Read,
    ReadModifyWrite,
    Write,
}

/// The shares of a workload, in parts of which 2^53 make one. What is left is writes.
#[derive(Clone, Copy, Debug, PartialEq, Eq, Structural)]
pub struct Mix {
    pub read: u64,
    pub modify: u64,
}

/// The operation that a draw falls on.
pub open spec fn op_of(mix: Mix, roll: u64) -> KvOp {
    if roll < mix.read {
        KvOp::Read
    } else if roll < mix.read + mix.modify {
        KvOp::ReadModifyWrite
    } else {
        KvOp::Write
    }
}

/// The operation that a draw falls on.
pub fn pick_op(mix: &Mix, roll: u64) -> (r: KvOp)
    ensures
        r == op_of(*mix, roll),
{
    if roll < mix.read {
        KvOp::Read
    } else if (roll as u128) < mix.read as u128 + mix.modify as u128 {
        KvOp::ReadModifyWrite
    } else {
        KvOp::Write
    }
}

/// The generator of a workload, by the first letter of its name.
pub fn workload_rng(letter: u8) -> (r: XRng)
    ensures
        r.state == (0xC0FFEEu64 ^ letter as u64) | 1,
{
    XRng::new(0xC0FFEE ^ letter as u64)
}

/// One operation: the record it touches, and what it does to it.
pub fn next_op(rng: &mut XRng, records: u64, mix: &Mix) -> (r: (u64, KvOp))
    requires
        records > 0,
    ensures
        final(rng).state == shifted(shifted(old(rng).state)),
        r.0 == shifted(old(rng).state) % records,
        r.1 == op_of(*mix, shifted(shifted(old(rng).state)) >> 11),
{
    let id: u64 = rng.range(records);
    let roll: u64 = rng.ratio_parts();
    (id, pick_op(mix, roll))
}

/// The key of a record.
pub fn record_key(id: u64) -> (r: String)
    ensures
        r@ == "ycsb:"@ + text::dec_text(id as nat),
{
    let mut s: String = "ycsb:".to_owned();
    s.append(dec_string(id).as_str());
    s
}

/// Whether an operation reads first, and whether it writes.
pub fn op_commands(op: KvOp) -> (r: (bool, bool))
    ensures
        r == (match op {
            KvOp::Read => (true, false),
            KvOp::ReadModifyWrite => (true, true),
            KvOp::Write => (false, true),
        }),
{
    match op {
        KvOp::Read => (true, false),
        KvOp::ReadModifyWrite => (true, true),
        KvOp::Write => (false, true),
    }
}

// ── dealing out vectors ───────────────────────────────────────────────────

/// How many ids each of several clients takes, rounded up.
pub open spec fn share_size(n: int, clients: int) -> int {
    if n % clients > 0 {
        n / clients + 1
    } else {
        n / clients
    }
}

/// The ids of one client: the first, and the one behind the last. Where there are more
/// clients than ids, the last ones take none.
pub open spec fn share_of(lo: int, n: int, clients: int, tid: int) -> (int, int) {
    let per = share_size(n, clients);
    let end = if (tid + 1) * per < n {
        (tid + 1) * per
    } else {
        n
    };
    (lo + tid * per, lo + end)
}

/// The ids of one client.
pub fn client_share(lo: u64, n: u64, clients: u64, tid: u64) -> (r: (u64, u64))
    requires
        0 < clients,
        tid < clients,
        lo + n <= u64::MAX,
        lo + tid * share_size(n as int, clients as int) <= u64::MAX,
        (tid + 1) * share_size(n as int, clients as int) <= u64::MAX,
    ensures
        (r.0 as int, r.1 as int) == share_of(lo as int, n as int, clients as int, tid as int),
{
    proof {
        let a = n as int;
        let b = clients as int;
        assert(a % b > 0 ==> a / b < a) by (nonlinear_arith)
            requires
                a >= 0,
                b > 0,
        ;
    }
    let per: u64 = if n % clients > 0 {
        n / clients + 1
    } else {
        n / clients
    };
    proof {
        lemma_share(n as int, clients as int, tid as int);
        assert(per == share_size(n as int, clients as int));
        assert((tid + 1) * per == tid * per + per) by (nonlinear_arith);
    }
    let start: u64 = tid * per;
    let upto: u64 = start + per;
    let end: u64 = if upto < n {
        upto
    } else {
        n
    };
    (lo + start, lo + end)
}

proof fn lemma_share(n: int, clients: int, tid: int)
    requires
        n >= 0,
        0 <= tid < clients,
    ensures
        0 <= tid * share_size(n, clients),
        (tid + 1) * share_size(n, clients) <= n + clients * clients,
        tid * share_size(n, clients) + share_size(n, clients) <= n + clients * clients,
        share_size(n, clients) >= 0,
        clients * share_size(n, clients) >= n,
        n > 0 ==> share_size(n, clients) > 0,
{
    let per = share_size(n, clients);
    let q = n / clients;
    let r = n % clients;
    assert(n == clients * q + r && 0 <= r < clients && q >= 0) by (nonlinear_arith)
        requires
            n >= 0,
            clients > 0,
            q == n / clients,
            r == n % clients,
    ;
    assert(clients * (q + 1) == clients * q + clients) by (nonlinear_arith);
    assert(0 <= tid * per) by (nonlinear_arith)
        requires
            tid >= 0,
            per >= 0,
    ;
    assert((tid + 1) * per <= clients * per) by (nonlinear_arith)
        requires
            tid + 1 <= clients,
            per >= 0,
    ;
    assert(clients * per <= clients * (q + 1)) by (nonlinear_arith)
        requires
            per <= q + 1,
            clients > 0,
    ;
    assert(clients <= clients * clients) by (nonlinear_arith)
        requires
            clients >= 1,
    ;
    assert(tid * per + per == (tid + 1) * per) by (nonlinear_arith);
    if n > 0 && per == 0 {
        assert(clients * 0 == 0);
    }
}

/// The size of a batch: the one that is set, where it can be read and is not 0.
pub fn batch_size(set: Option<&str>, default: usize) -> (r: usize)
    ensures
        r == (match set {
            Some(s) => match text::unsigned_of(s@, usize::MAX as nat) {
                Some(n) => if n > 0 {
                    n
                } else {
                    default as nat
                },
                None => default as nat,
            },
            None => default as nat,
        }),
{
    match set {
        Some(s) => match parse_unsigned(&chars_of(s), usize::MAX as u64) {
            Some(n) => if n > 0 {
                n as usize
            } else {
                default
            },
            None => default,
        },
        None => default,
    }
}

/// The ranges that the ids from `lo` up to `hi` fall into, `size` at a time.
pub open spec fn ranges_of(lo: int, hi: int, size: int) -> Seq<(int, int)>
    decreases hi - lo,
{
    if lo >= hi || size <= 0 {
        Seq::empty()
    } else if lo + size >= hi {
        seq![(lo, hi)]
    } else {
        seq![(lo, lo + size)] + ranges_of(lo + size, hi, size)
    }
}

pub open spec fn range_views(v: Seq<(u64, u64)>) -> Seq<(int, int)> {
    Seq::new(v.len(), |i: int| (v[i].0 as int, v[i].1 as int))
}

/// Cuts a range of ids into batches.
pub fn id_ranges(lo: u64, hi: u64, size: u64) -> (r: Vec<(u64, u64)>)
    requires
        size > 0,
    ensures
        range_views(r@) == ranges_of(lo as int, hi as int, size as int),
{
    let mut out: Vec<(u64, u64)> = Vec::new();
    let mut at: u64 = lo;
    let ghost want = ranges_of(lo as int, hi as int, size as int);
    proof {
        assert(range_views(out@) + want =~= want);
    }
    while at < hi
        invariant
            size > 0,
            lo <= at,
            at <= hi || at == lo,
            want == ranges_of(lo as int, hi as int, size as int),
            want == range_views(out@) + ranges_of(at as int, hi as int, size as int),
        decreases hi - at,
    {
        let next: u64 = if hi - at > size {
            at + size
        } else {
            hi
        };
        let ghost before = out@;
        let ghost start = at as int;
        out.push((at, next));
        at = next;
        proof {
            let item = (start, next as int);
            let rest = ranges_of(at as int, hi as int, size as int);
            assert(ranges_of(start, hi as int, size as int) =~= seq![item] + rest);
            assert(range_views(out@) =~= range_views(before) + seq![item]);
            assert(range_views(before) + (seq![item] + rest) =~= range_views(out@) + rest);
        }
    }
    proof {
        assert(want =~= range_views(out@));
    }
    out
}

/// The stages that an ingest is walked in: five at most.
pub open spec fn stage_size(n: int) -> int {
    share_size(n, 5)
}

/// The stages of an ingest of `n` vectors.
pub fn ingest_stages(n: u64) -> (r: Vec<(u64, u64)>)
    ensures
        range_views(r@) == ranges_of(0, n as int, stage_size(n as int)),
{
    if n == 0 {
        let out: Vec<(u64, u64)> = Vec::new();
        proof {
            assert(range_views(out@) =~= ranges_of(0, 0, stage_size(0)));
        }
        return out;
    }
    let per: u64 = if n % 5 > 0 {
        n / 5 + 1
    } else {
        n / 5
    };
    id_ranges(0, n, per)
}

// ── queries ───────────────────────────────────────────────────────────────

/// The row that a query takes, moving on by `step` from `offset` and starting over at `n`.
pub fn query_row(i: usize, step: usize, offset: usize, n: usize) -> (r: usize)
    requires
        n > 0,
        i * step + offset <= usize::MAX,
    ensures
        r == (i * step + offset) % n as int,
{
    proof {
        assert(0 <= i * step) by (nonlinear_arith)
            requires
                i >= 0,
                step >= 0,
        ;
    }
    (i * step + offset) % n
}

/// The number of a client's query, apart from those of other clients.
pub fn client_query(tid: u64, i: u64) -> (r: u64)
    requires
        tid * 100_000 + i <= u64::MAX,
    ensures
        r == tid * 100_000 + i,
{
    tid * 100_000 + i
}

/// How many connections measure recall: one a query, and eight at most.
pub fn recall_workers(queries: usize) -> (r: usize)
    ensures
        r == (if queries < 1 {
            1
        } else if queries < 8 {
            queries as int
        } else {
            8
        }),
{
    if queries < 1 {
        1
    } else if queries < 8 {
        queries
    } else {
        8
    }
}

// ── laws ──────────────────────────────────────────────────────────────────

/// A generator never reaches the state 0, from which it could not leave.
pub proof fn law_draws_never_stall(s: u64)
    requires
        s != 0,
    ensures
        shifted(s) != 0,
{
    assert(({
        let a = s ^ (s << 13);
        let b = a ^ (a >> 7);
        b ^ (b << 17)
    }) != 0) by (bit_vector)
        requires
            s != 0,
    ;
}

/// Every id of a range belongs to exactly one client.
pub proof fn law_shares_partition(lo: int, n: int, clients: int, id: int)
    requires
        n >= 0,
        clients > 0,
        lo <= id < lo + n,
    ensures
        exists|t: int|
            0 <= t < clients && #[trigger] in_share(lo, n, clients, t, id) && (forall|u: int|
                0 <= u < clients && #[trigger] in_share(lo, n, clients, u, id) ==> u == t),
{
    let per = share_size(n, clients);
    lemma_share(n, clients, 0);
    let x = id - lo;
    let t = x / per;
    assert(per > 0);
    assert(t * per <= x < (t + 1) * per && t >= 0) by (nonlinear_arith)
        requires
            x >= 0,
            per > 0,
            t == x / per,
    ;
    assert(t < clients) by (nonlinear_arith)
        requires
            t * per <= x,
            x < n,
            n <= clients * per,
            per > 0,
    ;
    assert(in_share(lo, n, clients, t, id));
    assert forall|u: int| 0 <= u < clients && #[trigger] in_share(lo, n, clients, u, id) implies u
        == t by {
        assert(u == t) by (nonlinear_arith)
            requires
                u * per <= x,
                x < (u + 1) * per,
                t * per <= x,
                x < (t + 1) * per,
                per > 0,
        ;
    }
}

/// Whether an id belongs to a client.
pub open spec fn in_share(lo: int, n: int, clients: int, tid: int, id: int) -> bool {
    share_of(lo, n, clients, tid).0 <= id < share_of(lo, n, clients, tid).1
}

/// Batches follow one another without a gap from the first id to the last, and none is empty
/// or larger than asked.
pub proof fn law_ranges_cover(lo: int, hi: int, size: int)
    requires
        lo < hi,
        size > 0,
    ensures
        ({
            let r = ranges_of(lo, hi, size);
            &&& r.len() > 0
            &&& r[0].0 == lo
            &&& r.last().1 == hi
            &&& forall|i: int| 0 <= i < r.len() ==> 0 < (#[trigger] r[i]).1 - r[i].0 <= size
            &&& forall|i: int| 0 < i < r.len() ==> (#[trigger] r[i]).0 == r[i - 1].1
        }),
    decreases hi - lo,
{
    let r = ranges_of(lo, hi, size);
    if lo + size < hi {
        law_ranges_cover(lo + size, hi, size);
        let rest = ranges_of(lo + size, hi, size);
        assert(r =~= seq![(lo, lo + size)] + rest);
        assert forall|i: int| 0 <= i < r.len() implies 0 < (#[trigger] r[i]).1 - r[i].0 <= size by {
            if i > 0 {
                assert(r[i] == rest[i - 1]);
            }
        }
        assert forall|i: int| 0 < i < r.len() implies (#[trigger] r[i]).0 == r[i - 1].1 by {
            assert(r[i] == rest[i - 1]);
            if i > 1 {
                assert(r[i - 1] == rest[i - 2]);
            }
        }
        assert(r.last() == rest.last());
    }
}

/// No more than five stages walk an ingest.
pub proof fn law_stages_are_few(n: int)
    requires
        n >= 0,
    ensures
        ranges_of(0, n, stage_size(n)).len() <= 5,
{
    if n > 0 {
        let per = stage_size(n);
        lemma_share(n, 5, 0);
        lemma_range_count(0, n, per, 5);
    }
}

proof fn lemma_range_count(lo: int, hi: int, size: int, k: int)
    requires
        size > 0,
        k >= 0,
        hi - lo <= k * size,
    ensures
        ranges_of(lo, hi, size).len() <= k,
    decreases k,
{
    if lo < hi {
        assert(k > 0) by (nonlinear_arith)
            requires
                0 < hi - lo,
                hi - lo <= k * size,
                size > 0,
                k >= 0,
        ;
        if lo + size < hi {
            assert((k - 1) * size == k * size - size) by (nonlinear_arith);
            lemma_range_count(lo + size, hi, size, k - 1);
        }
    }
}

/// Reads and changes take the share of the draws that the mix gives them.
pub proof fn law_mix_splits_draws(mix: Mix, roll: u64)
    ensures
        op_of(mix, roll) == KvOp::Read <==> roll < mix.read,
        op_of(mix, roll) == KvOp::Write <==> roll >= mix.read + mix.modify,
{
}

/// Clients take their ids in their own order, one behind the other, and none takes more than an
/// even share, rounded up.
pub proof fn law_shares_are_even(lo: int, n: int, clients: int, tid: int)
    requires
        n >= 0,
        0 <= tid < clients,
    ensures
        share_of(lo, n, clients, 0).0 == lo,
        share_of(lo, n, clients, tid).1 < lo + n ==> share_of(lo, n, clients, tid).1 == share_of(
            lo,
            n,
            clients,
            tid + 1,
        ).0,
        clients * (share_of(lo, n, clients, tid).1 - share_of(lo, n, clients, tid).0 - 1) < n
            || n == 0,
        share_of(lo, n, clients, tid).1 <= lo + n,
{
    let per = share_size(n, clients);
    lemma_share(n, clients, tid);
    let q = n / clients;
    let w = share_of(lo, n, clients, tid).1 - share_of(lo, n, clients, tid).0;
    assert(0 * per == 0) by (nonlinear_arith);
    assert(n == clients * q + n % clients && 0 <= n % clients < clients) by (nonlinear_arith)
        requires
            clients > 0,
            q == n / clients,
    ;
    assert((tid + 1) * per == tid * per + per) by (nonlinear_arith);
    assert(w <= per);
    if n > 0 {
        assert(clients * (per - 1) < n) by (nonlinear_arith)
            requires
                n > 0,
                clients > 0,
                n == clients * q + n % clients,
                0 <= n % clients,
                per == (if n % clients > 0 {
                    q + 1
                } else {
                    q
                }),
        ;
        assert(clients * (w - 1) <= clients * (per - 1)) by (nonlinear_arith)
            requires
                w <= per,
                clients > 0,
        ;
    }
}

/// Every batch but the last is as large as asked.
pub proof fn law_batches_are_full(lo: int, hi: int, size: int, i: int)
    requires
        size > 0,
        0 <= i < ranges_of(lo, hi, size).len() - 1,
    ensures
        ranges_of(lo, hi, size)[i].1 - ranges_of(lo, hi, size)[i].0 == size,
    decreases hi - lo,
{
    if i > 0 {
        law_batches_are_full(lo + size, hi, size, i - 1);
        assert(ranges_of(lo, hi, size)[i] == ranges_of(lo + size, hi, size)[i - 1]);
    }
}

/// A stage takes a fifth of an ingest, rounded up.
pub proof fn law_stages_are_fifths(n: int)
    requires
        n >= 0,
    ensures
        n <= 5 * stage_size(n) < n + 5,
{
}

/// Steps of the generator go through sums bit by bit, and a small state is multiplied.
pub proof fn law_draws_are_linear(s: u64, t: u64)
    ensures
        shifted(s ^ t) == shifted(s) ^ shifted(t),
        s < 16 ==> shifted(s) == s * 8257 * 131073,
{
    assert({
        let a = s ^ (s << 13);
        let b = a ^ (a >> 7);
        let c = t ^ (t << 13);
        let d = c ^ (c >> 7);
        let u = s ^ t;
        let e = u ^ (u << 13);
        let f = e ^ (e >> 7);
        f ^ (f << 17) == (b ^ (b << 17)) ^ (d ^ (d << 17))
    }) by (bit_vector);
    assert(s < 16 ==> ({
        let a = s ^ (s << 13);
        let b = a ^ (a >> 7);
        b ^ (b << 17) == s * 8257 * 131073
    })) by (bit_vector);
}

/// Drawing on from a state is drawing again from where it has come to.
pub proof fn law_draws_go_on(s: u64, m: nat, n: nat)
    ensures
        state_after(s, 0) == s,
        state_after(s, 1) == shifted(s),
        state_after(s, m + n) == state_after(state_after(s, m), n),
    decreases n,
{
    assert(state_after(s, 0) == s);
    assert(state_after(s, 1) == shifted(state_after(s, 0)));
    if n > 0 {
        law_draws_go_on(s, m, (n - 1) as nat);
        assert(m + n - 1 == m + (n - 1));
    }
}

/// A shorter vector of the same seed is the front of a longer one, and a component is what the
/// first 24 bits of its draw make.
pub proof fn law_vectors_share_their_front(seed: u64, m: nat, n: nat, i: int)
    requires
        m <= n,
        0 <= i < m,
    ensures
        raw_components(seed, m).len() == m,
        raw_components(seed, m)[i] == raw_components(seed, n)[i],
        ({
            let draw = state_after(vector_state(seed), (i + 1) as nat) as int;
            let c = raw_components(seed, m)[i] as int;
            c * 0x100_0000_0000 <= draw < (c + 1) * 0x100_0000_0000
        }),
        vector_state(0) == 1,
{
    let draw = state_after(vector_state(seed), (i + 1) as nat);
    assert(draw >> 40 == draw / 0x100_0000_0000) by (bit_vector);
}

} // verus!
