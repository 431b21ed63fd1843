//! Fusing concurrent single-query searches into one wide launch: callers queue their query,
//! and whoever finds a free stream leads a batch of compatible ones.
use crate::maps::KeyMap;
use vstd::prelude::*;

verus! {

/// What a search found: the nodes and the bits of their distances.
#[derive(Debug, PartialEq)]
pub struct Hits {
    pub indices: Vec<i32>,
    pub distances: Vec<u32>,
}

impl View for Hits {
    type V = (Seq<i32>, Seq<u32>);

    open spec fn view(&self) -> (Seq<i32>, Seq<u32>) {
        (self.indices@, self.distances@)
    }
}

/// The launch geometry of a search. Only requests that agree on it share a launch.
#[derive(Clone, Copy, Debug, PartialEq, Eq, Structural)]
pub struct Geometry {
    pub k: usize,
    pub itopk: usize,
    pub iters: usize,
    pub entry: usize,
}

/// A queued query: quantized, and exact as the bits of `f32` components.
#[derive(Debug)]
pub struct CoReq {
    pub ticket: u64,
    pub q_i8: Vec<i8>,
    pub q_f32: Vec<u32>,
    pub shape: Geometry,
}

/// What a queued query says.
pub struct ReqView {
    pub ticket: u64,
    pub q_i8: Seq<i8>,
    pub q_f32: Seq<u32>,
    pub shape: Geometry,
}

impl View for CoReq {
    type V = ReqView;

    open spec fn view(&self) -> ReqView {
        ReqView {
            ticket: self.ticket,
            q_i8: self.q_i8@,
            q_f32: self.q_f32@,
            shape: self.shape,
        }
    }
}

pub open spec fn req_views(s: Seq<CoReq>) -> Seq<ReqView> {
    Seq::new(s.len(), |i: int| s[i]@)
}

/// The requests among the first `n` that a batch of a geometry takes, at most `cap`.
pub open spec fn taken(p: Seq<ReqView>, g: Geometry, cap: int, n: int) -> Seq<ReqView>
    decreases n,
{
    if n <= 0 {
        Seq::empty()
    } else {
        let t = taken(p, g, cap, n - 1);
        if t.len() < cap && p[n - 1].shape == g {
            t.push(p[n - 1])
        } else {
            t
        }
    }
}

/// The requests among the first `n` that it leaves.
pub open spec fn left(p: Seq<ReqView>, g: Geometry, cap: int, n: int) -> Seq<ReqView>
    decreases n,
{
    if n <= 0 {
        Seq::empty()
    } else {
        let rest = left(p, g, cap, n - 1);
        if taken(p, g, cap, n - 1).len() < cap && p[n - 1].shape == g {
            rest
        } else {
            rest.push(p[n - 1])
        }
    }
}

/// What the state of a coalescer says.
pub struct CoView {
    pub pending: Seq<ReqView>,
    pub ready: Map<u64, (Seq<i32>, Seq<u32>)>,
    pub next_ticket: u64,
    pub leaders: nat,
}

pub open spec fn ready_view(m: Map<u64, Hits>) -> Map<u64, (Seq<i32>, Seq<u32>)> {
    Map::new(|t: u64| m.contains_key(t), |t: u64| m[t]@)
}

/// The queue of a coalescer.
pub struct QueryCoalescer {
    pending: Vec<CoReq>,
    ready: KeyMap<u64, Hits>,
    next_ticket: u64,
    leaders: usize,
}

impl View for QueryCoalescer {
    type V = CoView;

    closed spec fn view(&self) -> CoView {
        CoView {
            pending: req_views(self.pending@),
            ready: ready_view(self.ready@),
            next_ticket: self.next_ticket,
            leaders: self.leaders as nat,
        }
    }
}

/// What a caller does next.
#[derive(Debug)]
pub enum CoStep {
    /// Its result is there.
    Done(Hits),
    /// Wait until something changes.
    Wait,
    /// Lead this batch.
    Lead(Vec<CoReq>),
}

/// How a batch ended for the caller that led it.
#[derive(Debug)]
pub enum CoEnd {
    /// Its own query was in the batch, with this result.
    Mine(Hits),
    /// Its own query was in the batch and has no result.
    Failed,
    /// Its own query was not in the batch.
    Again,
}

/// The number of leaders at a time: one per stream, at least one.
pub open spec fn leader_cap(slots: usize) -> nat {
    if slots == 0 {
        1
    } else {
        slots as nat
    }
}

/// The size of a batch: at most what a slot carries and what the index was made for.
pub open spec fn batch_cap(slot_batch: usize, max_q: usize) -> usize {
    let most: usize = if max_q == 0 {
        1
    } else {
        max_q
    };
    if slot_batch < most {
        slot_batch
    } else {
        most
    }
}

/// Whether the results reach as far as member `i` of a batch.
pub open spec fn reaches(found: (Seq<i32>, Seq<u32>), k: int, i: int) -> bool {
    (i + 1) * k <= found.0.len() && (i + 1) * k <= found.1.len()
}

/// The result of member `i` of a batch.
pub open spec fn share_of(found: (Seq<i32>, Seq<u32>), k: int, i: int) -> (Seq<i32>, Seq<u32>) {
    (found.0.subrange(i * k, i * k + k), found.1.subrange(i * k, i * k + k))
}

/// The results that are handed to the first `n` members of a batch but the leader.
pub open spec fn handed(
    ready: Map<u64, (Seq<i32>, Seq<u32>)>,
    batch: Seq<ReqView>,
    own: u64,
    found: (Seq<i32>, Seq<u32>),
    k: int,
    n: int,
) -> Map<u64, (Seq<i32>, Seq<u32>)>
    decreases n,
{
    if n <= 0 {
        ready
    } else {
        let rest = handed(ready, batch, own, found, k, n - 1);
        if reaches(found, k, n - 1) && batch[n - 1].ticket != own {
            rest.insert(batch[n - 1].ticket, share_of(found, k, n - 1))
        } else {
            rest
        }
    }
}

/// The leader's own result among the first `n` members of a batch.
pub open spec fn own_share(
    batch: Seq<ReqView>,
    own: u64,
    found: (Seq<i32>, Seq<u32>),
    k: int,
    n: int,
) -> Option<(Seq<i32>, Seq<u32>)>
    decreases n,
{
    if n <= 0 {
        None
    } else if reaches(found, k, n - 1) && batch[n - 1].ticket == own {
        Some(share_of(found, k, n - 1))
    } else {
        own_share(batch, own, found, k, n - 1)
    }
}

/// The members of a batch other than the leader, in their order.
pub open spec fn followers(batch: Seq<ReqView>, own: u64, n: int) -> Seq<ReqView>
    decreases n,
{
    if n <= 0 {
        Seq::empty()
    } else if batch[n - 1].ticket == own {
        followers(batch, own, n - 1)
    } else {
        followers(batch, own, n - 1).push(batch[n - 1])
    }
}

/// Whether a request with this ticket is in the list.
pub open spec fn queued(s: Seq<ReqView>, ticket: u64) -> bool {
    exists|i: int| 0 <= i < s.len() && (#[trigger] s[i]).ticket == ticket
}

impl QueryCoalescer {
    pub closed spec fn wf(&self) -> bool {
        self.ready.wf()
    }

    pub fn new() -> (r: Self)
        ensures
            r.wf(),
            r@.pending == Seq::<ReqView>::empty(),
            r@.ready == Map::<u64, (Seq<i32>, Seq<u32>)>::empty(),
            r@.next_ticket == 0,
            r@.leaders == 0,
    {
        let r = QueryCoalescer {
            pending: Vec::new(),
            ready: KeyMap::new(),
            next_ticket: 0,
            leaders: 0,
        };
        proof {
            assert(r@.pending =~= Seq::<ReqView>::empty());
            assert(r@.ready =~= Map::<u64, (Seq<i32>, Seq<u32>)>::empty());
        }
        r
    }

    /// Queues a query and gives out its ticket.
    pub fn submit(&mut self, q_i8: Vec<i8>, q_f32: Vec<u32>, shape: Geometry) -> (r: u64)
        requires
            old(self).wf(),
        ensures
            final(self).wf(),
            r == old(self)@.next_ticket,
            final(self)@.pending == old(self)@.pending.push(
                ReqView { ticket: r, q_i8: q_i8@, q_f32: q_f32@, shape },
            ),
            final(self)@.ready == old(self)@.ready,
            final(self)@.next_ticket == old(self)@.next_ticket.wrapping_add(1),
            final(self)@.leaders == old(self)@.leaders,
    {
        let ticket: u64 = self.next_ticket;
        self.next_ticket = self.next_ticket.wrapping_add(1);
        let ghost before = self.pending@;
        let req = CoReq { ticket, q_i8, q_f32, shape };
        let ghost v = req@;
        self.pending.push(req);
        proof {
            assert(req_views(self.pending@) =~= req_views(before).push(v));
        }
        ticket
    }

    /// What the caller with this ticket does next: take its result, wait while every stream
    /// is busy or nothing is queued, or lead a batch of the oldest request's geometry.
    pub fn poll(&mut self, ticket: u64, slots: usize, slot_batch: usize, max_q: usize) -> (r: CoStep)
        requires
            old(self).wf(),
            slot_batch > 0,
            old(self)@.leaders < usize::MAX,
        ensures
            final(self).wf(),
            final(self)@.next_ticket == old(self)@.next_ticket,
            ({
                let b = old(self)@;
                let a = final(self)@;
                if b.ready.contains_key(ticket) {
                    r matches CoStep::Done(h) && h@ == b.ready[ticket] && a.ready
                        == b.ready.remove(ticket) && a.pending == b.pending && a.leaders
                        == b.leaders
                } else if b.leaders >= leader_cap(slots) || b.pending.len() == 0 {
                    r is Wait && a.ready == b.ready && a.pending == b.pending && a.leaders
                        == b.leaders
                } else {
                    let g = b.pending[0].shape;
                    let cap = batch_cap(slot_batch, max_q) as int;
                    let n = b.pending.len() as int;
                    r matches CoStep::Lead(batch) && req_views(batch@) == taken(b.pending, g, cap, n)
                        && a.pending == left(b.pending, g, cap, n) && a.ready == b.ready
                        && a.leaders == b.leaders + 1
                }
            }),
    {
        let ghost b = self@;
        match self.ready.remove(&ticket) {
            Some(e) => {
                proof {
                    assert(ready_view(self.ready@) =~= b.ready.remove(ticket));
                }
                return CoStep::Done(e.1);
            },
            None => {
                proof {
                    assert(ready_view(self.ready@) =~= b.ready);
                }
            },
        }
        let most: usize = if slots == 0 { 1 } else { slots };
        if self.leaders >= most || self.pending.len() == 0 {
            return CoStep::Wait;
        }
        let g: Geometry = self.pending[0].shape;
        let limit: usize = if max_q == 0 { 1 } else { max_q };
        let cap: usize = if slot_batch < limit { slot_batch } else { limit };
        let n: usize = self.pending.len();
        let mut batch: Vec<CoReq> = Vec::new();
        let mut i: usize = 0;
        let mut j: usize = 0;
        proof {
            assert(req_views(batch@) =~= taken(b.pending, g, cap as int, 0));
            assert(req_views(self.pending@) =~= left(b.pending, g, cap as int, 0)
                + b.pending.skip(0));
        }
        while j < n
            invariant
                n == b.pending.len(),
                j <= n,
                i == left(b.pending, g, cap as int, j as int).len(),
                req_views(batch@) == taken(b.pending, g, cap as int, j as int),
                req_views(self.pending@) == left(b.pending, g, cap as int, j as int)
                    + b.pending.skip(j as int),
                self.ready.wf(),
                ready_view(self.ready@) == b.ready,
                self.next_ticket == b.next_ticket,
                self.leaders == b.leaders,
            decreases n - j,
        {
            let ghost p = self.pending@;
            proof {
                assert(req_views(p).len() == i + (n - j));
                assert(p.len() == req_views(p).len());
                assert(req_views(p)[i as int] == b.pending[j as int]);
                assert(p[i as int]@ == b.pending[j as int]);
            }
            let size: usize = self.pending.len();
            assert(i < size);
            let s: Geometry = self.pending[i].shape;
            if batch.len() < cap && s.k == g.k && s.itopk == g.itopk && s.iters == g.iters
                && s.entry == g.entry {
                let ghost t = batch@;
                let req = self.pending.remove(i);
                let ghost v = req@;
                batch.push(req);
                proof {
                    assert(req_views(batch@) =~= req_views(t).push(v));
                    assert(self.pending@ == p.remove(i as int));
                    assert(req_views(self.pending@) =~= req_views(p).remove(i as int));
                    assert(req_views(self.pending@) =~= left(
                        b.pending,
                        g,
                        cap as int,
                        j + 1,
                    ) + b.pending.skip(j + 1));
                }
            } else {
                i = i + 1;
                proof {
                    assert(req_views(self.pending@) =~= left(
                        b.pending,
                        g,
                        cap as int,
                        j + 1,
                    ) + b.pending.skip(j + 1));
                }
            }
            j = j + 1;
        }
        proof {
            assert(b.pending.skip(n as int) =~= Seq::<ReqView>::empty());
            assert(req_views(self.pending@) =~= left(b.pending, g, cap as int, n as int));
        }
        self.leaders = self.leaders + 1;
        CoStep::Lead(batch)
    }

    /// Ends a batch that the caller with ticket `own` led: hands the results out, or queues
    /// the followers again where the launch failed.
    pub fn complete(&mut self, own: u64, batch: Vec<CoReq>, found: Option<Hits>) -> (r: CoEnd)
        requires
            old(self).wf(),
            old(self)@.leaders > 0,
            batch@.len() > 0,
            found matches Some(h) ==> batch@.len() * batch@[0].shape.k <= usize::MAX,
        ensures
            final(self).wf(),
            final(self)@.next_ticket == old(self)@.next_ticket,
            final(self)@.leaders == old(self)@.leaders - 1,
            ({
                let b = old(self)@;
                let a = final(self)@;
                let m = req_views(batch@);
                let n = m.len() as int;
                match found {
                    Some(h) => {
                        let k = m[0].shape.k as int;
                        &&& a.pending == b.pending
                        &&& a.ready == handed(b.ready, m, own, h@, k, n)
                        &&& match own_share(m, own, h@, k, n) {
                            Some(x) => r matches CoEnd::Mine(y) && y@ == x,
                            None => if queued(m, own) {
                                r is Failed
                            } else {
                                r is Again
                            },
                        }
                    },
                    None => {
                        &&& a.pending == b.pending + followers(m, own, n)
                        &&& a.ready == b.ready
                        &&& if queued(m, own) {
                            r is Failed
                        } else {
                            r is Again
                        }
                    },
                }
            }),
    {
        let ghost b = self@;
        let ghost m = req_views(batch@);
        let n: usize = batch.len();
        self.leaders = self.leaders - 1;
        let k: usize = batch[0].shape.k;
        let mut mine_here: bool = false;
        let mut i: usize = 0;
        while i < n
            invariant
                i <= n == batch@.len(),
                m == req_views(batch@),
                mine_here == exists|x: int| 0 <= x < i && (#[trigger] m[x]).ticket == own,
            decreases n - i,
        {
            assert(m[i as int] == batch@[i as int]@);
            if batch[i].ticket == own {
                mine_here = true;
            }
            i = i + 1;
        }
        proof {
            assert(mine_here == queued(m, own));
        }
        match found {
            Some(h) => {
                let mine = self.hand_out(own, &batch, &h, k);
                match mine {
                    Some(x) => CoEnd::Mine(x),
                    None => if mine_here {
                        CoEnd::Failed
                    } else {
                        CoEnd::Again
                    },
                }
            },
            None => {
                self.queue_again(own, batch);
                if mine_here {
                    CoEnd::Failed
                } else {
                    CoEnd::Again
                }
            },
        }
    }

    fn hand_out(&mut self, own: u64, batch: &Vec<CoReq>, h: &Hits, k: usize) -> (r: Option<Hits>)
        requires
            old(self).wf(),
            batch@.len() * k <= usize::MAX,
        ensures
            final(self).wf(),
            final(self)@.pending == old(self)@.pending,
            final(self)@.next_ticket == old(self)@.next_ticket,
            final(self)@.leaders == old(self)@.leaders,
            final(self)@.ready == handed(
                old(self)@.ready,
                req_views(batch@),
                own,
                h@,
                k as int,
                batch@.len() as int,
            ),
            match own_share(req_views(batch@), own, h@, k as int, batch@.len() as int) {
                Some(x) => r matches Some(y) && y@ == x,
                None => r is None,
            },
    {
        let ghost b = self@;
        let ghost m = req_views(batch@);
        let n: usize = batch.len();
        let mut mine: Option<Hits> = None;
        let mut i: usize = 0;
        while i < n
            invariant
                i <= n == batch@.len(),
                n * k <= usize::MAX,
                m == req_views(batch@),
                self.ready.wf(),
                self@.pending == b.pending,
                self@.next_ticket == b.next_ticket,
                self@.leaders == b.leaders,
                self@.ready == handed(b.ready, m, own, h@, k as int, i as int),
                match own_share(m, own, h@, k as int, i as int) {
                    Some(x) => mine matches Some(y) && y@ == x,
                    None => mine is None,
                },
            decreases n - i,
        {
            proof {
                assert(0 <= i * k && (i + 1) * k == i * k + k && (i + 1) * k <= n * k)
                    by (nonlinear_arith)
                    requires
                        0 <= i < n,
                        0 <= k,
                ;
            }
            let lo: usize = i * k;
            let hi: usize = lo + k;
            assert(m[i as int] == batch@[i as int]@);
            if hi <= h.indices.len() && hi <= h.distances.len() {
                let part = cut(h, lo, k);
                if batch[i].ticket == own {
                    mine = Some(part);
                } else {
                    let ghost before = self.ready@;
                    let ghost v = part@;
                    self.ready.insert(batch[i].ticket, part);
                    proof {
                        assert(ready_view(self.ready@) =~= ready_view(before).insert(
                            m[i as int].ticket,
                            v,
                        ));
                    }
                }
            }
            i = i + 1;
        }
        mine
    }

    fn queue_again(&mut self, own: u64, batch: Vec<CoReq>)
        requires
            old(self).wf(),
        ensures
            final(self).wf(),
            final(self)@.ready == old(self)@.ready,
            final(self)@.next_ticket == old(self)@.next_ticket,
            final(self)@.leaders == old(self)@.leaders,
            final(self)@.pending == old(self)@.pending + followers(
                req_views(batch@),
                own,
                batch@.len() as int,
            ),
    {
        let ghost b = self@;
        let ghost m = req_views(batch@);
        let n: usize = batch.len();
        let mut rest = batch;
        let mut i: usize = 0;
        proof {
            assert(req_views(self.pending@) =~= b.pending + followers(m, own, 0));
            assert(req_views(rest@) =~= m.skip(0));
        }
        while i < n
            invariant
                i <= n == m.len(),
                req_views(rest@) == m.skip(i as int),
                self.ready.wf(),
                ready_view(self.ready@) == b.ready,
                self.next_ticket == b.next_ticket,
                self.leaders == b.leaders,
                req_views(self.pending@) == b.pending + followers(m, own, i as int),
            decreases n - i,
        {
            let ghost before = rest@;
            proof {
                assert(req_views(before).len() == n - i);
                assert(before.len() == req_views(before).len());
                assert(req_views(before)[0] == m[i as int]);
                assert(before[0]@ == m[i as int]);
            }
            let req = rest.remove(0);
            let ghost v = req@;
            proof {
                assert(rest@ == before.remove(0));
                assert(req_views(rest@) =~= req_views(before).remove(0));
                assert(req_views(rest@) =~= m.skip(i + 1));
            }
            if req.ticket != own {
                let ghost p = self.pending@;
                self.pending.push(req);
                proof {
                    assert(req_views(self.pending@) =~= req_views(p).push(v));
                    assert(req_views(self.pending@) =~= b.pending + followers(m, own, i + 1));
                }
            }
            i = i + 1;
        }
    }
}

fn cut(h: &Hits, lo: usize, k: usize) -> (r: Hits)
    requires
        lo + k <= h.indices@.len(),
        lo + k <= h.distances@.len(),
    ensures
        r@ == (h.indices@.subrange(lo as int, lo + k), h.distances@.subrange(lo as int, lo + k)),
{
    let size: usize = h.indices.len();
    let mut indices: Vec<i32> = Vec::new();
    let mut distances: Vec<u32> = Vec::new();
    let mut i: usize = 0;
    while i < k
        invariant
            i <= k,
            lo + k <= size == h.indices@.len(),
            lo + k <= h.distances@.len(),
            indices@ == h.indices@.subrange(lo as int, lo + i),
            distances@ == h.distances@.subrange(lo as int, lo + i),
        decreases k - i,
    {
        indices.push(h.indices[lo + i]);
        distances.push(h.distances[lo + i]);
        i = i + 1;
        proof {
            assert(indices@ =~= h.indices@.subrange(lo as int, lo + i));
            assert(distances@ =~= h.distances@.subrange(lo as int, lo + i));
        }
    }
    Hits { indices, distances }
}

// ── the launch buffer ─────────────────────────────────────────────────────

/// A row of exactly `dim` components: cut, or filled with zeros.
pub open spec fn fitted(q: Seq<i8>, dim: int) -> Seq<i8> {
    Seq::new(
        dim as nat,
        |i: int|
            if i < q.len() {
                q[i]
            } else {
                0
            },
    )
}

/// The quantized rows of a batch, one after the other.
pub open spec fn packed_i8(batch: Seq<ReqView>, dim: int, n: int) -> Seq<i8>
    decreases n,
{
    if n <= 0 {
        Seq::empty()
    } else {
        packed_i8(batch, dim, n - 1) + fitted(batch[n - 1].q_i8, dim)
    }
}

/// The exact rows of a batch, one after the other.
pub open spec fn packed_f32(batch: Seq<ReqView>, dim: int, n: int) -> Seq<u32>
    decreases n,
{
    if n <= 0 {
        Seq::empty()
    } else {
        packed_f32(batch, dim, n - 1) + batch[n - 1].q_f32.take(dim)
    }
}

/// Whether every member of a batch has an exact query.
pub open spec fn all_exact(batch: Seq<ReqView>, dim: int) -> bool {
    forall|i: int| 0 <= i < batch.len() ==> (#[trigger] batch[i]).q_f32.len() >= dim
}

/// Packs the queries of a batch for one launch. The exact ones go along only where every
/// member has one.
pub fn pack(batch: &Vec<CoReq>, dim: usize) -> (r: (Vec<i8>, Vec<u32>))
    ensures
        r.0@ == packed_i8(req_views(batch@), dim as int, batch@.len() as int),
        r.1@ == (if all_exact(req_views(batch@), dim as int) {
            packed_f32(req_views(batch@), dim as int, batch@.len() as int)
        } else {
            Seq::empty()
        }),
{
    let ghost m = req_views(batch@);
    let mut exact: bool = true;
    let mut i: usize = 0;
    while i < batch.len()
        invariant
            i <= batch@.len(),
            m == req_views(batch@),
            exact == forall|x: int| 0 <= x < i ==> (#[trigger] m[x]).q_f32.len() >= dim,
        decreases batch@.len() - i,
    {
        assert(m[i as int] == batch@[i as int]@);
        if batch[i].q_f32.len() < dim {
            exact = false;
        }
        i = i + 1;
    }
    let mut qi8: Vec<i8> = Vec::new();
    let mut qf32: Vec<u32> = Vec::new();
    let mut j: usize = 0;
    while j < batch.len()
        invariant
            j <= batch@.len(),
            m == req_views(batch@),
            exact == all_exact(m, dim as int),
            qi8@ == packed_i8(m, dim as int, j as int),
            qf32@ == (if exact {
                packed_f32(m, dim as int, j as int)
            } else {
                Seq::empty()
            }),
        decreases batch@.len() - j,
    {
        assert(m[j as int] == batch@[j as int]@);
        let q = &batch[j].q_i8;
        let ghost before = qi8@;
        let mut d: usize = 0;
        proof {
            assert(qi8@ =~= before + fitted(q@, 0));
        }
        while d < dim
            invariant
                d <= dim,
                qi8@ == before + fitted(q@, d as int),
            decreases dim - d,
        {
            if d < q.len() {
                qi8.push(q[d]);
            } else {
                qi8.push(0);
            }
            d = d + 1;
            proof {
                assert(qi8@ =~= before + fitted(q@, d as int));
            }
        }
        if exact {
            let f = &batch[j].q_f32;
            let ghost prior = qf32@;
            proof {
                assert(m[j as int].q_f32.len() >= dim);
                assert(qf32@ =~= prior + f@.take(0));
            }
            let mut e: usize = 0;
            while e < dim
                invariant
                    e <= dim <= f@.len(),
                    qf32@ == prior + f@.take(e as int),
                decreases dim - e,
            {
                qf32.push(f[e]);
                e = e + 1;
                proof {
                    assert(qf32@ =~= prior + f@.take(e as int));
                }
            }
        }
        j = j + 1;
    }
    (qi8, qf32)
}

// ── laws ──────────────────────────────────────────────────────────────────

proof fn lemma_taken_and_left(p: Seq<ReqView>, g: Geometry, cap: int, n: int, ticket: u64)
    requires
        0 <= n <= p.len(),
    ensures
        taken(p, g, cap, n).len() + left(p, g, cap, n).len() == n,
        queued(p.take(n), ticket) <==> queued(taken(p, g, cap, n), ticket) || queued(
            left(p, g, cap, n),
            ticket,
        ),
    decreases n,
{
    if n > 0 {
        lemma_taken_and_left(p, g, cap, n - 1, ticket);
        let t0 = taken(p, g, cap, n - 1);
        let l0 = left(p, g, cap, n - 1);
        lemma_queued_push(p.take(n - 1), p[n - 1], ticket);
        assert(p.take(n) =~= p.take(n - 1).push(p[n - 1]));
        lemma_queued_push(t0, p[n - 1], ticket);
        lemma_queued_push(l0, p[n - 1], ticket);
    } else {
        assert(p.take(0) =~= Seq::<ReqView>::empty());
    }
}

proof fn lemma_queued_push(s: Seq<ReqView>, x: ReqView, ticket: u64)
    ensures
        queued(s.push(x), ticket) <==> queued(s, ticket) || x.ticket == ticket,
{
    if queued(s, ticket) {
        let i = choose|i: int| 0 <= i < s.len() && (#[trigger] s[i]).ticket == ticket;
        assert(s.push(x)[i].ticket == ticket);
    }
    if x.ticket == ticket {
        assert(s.push(x)[s.len() as int].ticket == ticket);
    }
    if queued(s.push(x), ticket) {
        let i = choose|i: int|
            0 <= i < s.push(x).len() && (#[trigger] s.push(x)[i]).ticket == ticket;
        if i < s.len() {
            assert(s[i].ticket == ticket);
        }
    }
}

/// Leading a batch loses no request: each is in the batch or still queued.
pub proof fn law_leading_loses_nothing(p: Seq<ReqView>, g: Geometry, cap: int, ticket: u64)
    ensures
        queued(p, ticket) <==> queued(taken(p, g, cap, p.len() as int), ticket) || queued(
            left(p, g, cap, p.len() as int),
            ticket,
        ),
        taken(p, g, cap, p.len() as int).len() + left(p, g, cap, p.len() as int).len() == p.len(),
{
    lemma_taken_and_left(p, g, cap, p.len() as int, ticket);
    assert(p.take(p.len() as int) =~= p);
}

proof fn lemma_taken(p: Seq<ReqView>, g: Geometry, cap: int, n: int)
    requires
        0 < n <= p.len(),
        p[0].shape == g,
        cap > 0,
    ensures
        0 < taken(p, g, cap, n).len() <= cap,
        taken(p, g, cap, n)[0] == p[0],
        forall|i: int|
            0 <= i < taken(p, g, cap, n).len() ==> (#[trigger] taken(p, g, cap, n)[i]).shape == g,
    decreases n,
{
    if n > 1 {
        lemma_taken(p, g, cap, n - 1);
        let t0 = taken(p, g, cap, n - 1);
        let t = taken(p, g, cap, n);
        assert forall|i: int| 0 <= i < t.len() implies (#[trigger] t[i]).shape == g by {
            if i < t0.len() {
                assert(t[i] == t0[i]);
            }
        }
    } else {
        assert(taken(p, g, cap, 0) =~= Seq::<ReqView>::empty());
    }
}

/// The oldest request is in every batch, so that none waits behind newer ones for ever; a
/// batch holds one geometry and never more than its size.
pub proof fn law_oldest_goes_first(p: Seq<ReqView>, cap: int)
    requires
        p.len() > 0,
        cap > 0,
    ensures
        0 < taken(p, p[0].shape, cap, p.len() as int).len() <= cap,
        taken(p, p[0].shape, cap, p.len() as int)[0] == p[0],
        forall|i: int|
            0 <= i < taken(p, p[0].shape, cap, p.len() as int).len() ==> (#[trigger] taken(
                p,
                p[0].shape,
                cap,
                p.len() as int,
            )[i]).shape == p[0].shape,
{
    lemma_taken(p, p[0].shape, cap, p.len() as int);
}

/// A failed launch loses no request: every follower is queued again.
pub proof fn law_failure_requeues(batch: Seq<ReqView>, own: u64, ticket: u64)
    requires
        ticket != own,
        queued(batch, ticket),
    ensures
        queued(followers(batch, own, batch.len() as int), ticket),
{
    lemma_followers(batch, own, batch.len() as int, ticket);
    assert(batch.take(batch.len() as int) =~= batch);
}

proof fn lemma_followers(batch: Seq<ReqView>, own: u64, n: int, ticket: u64)
    requires
        0 <= n <= batch.len(),
        ticket != own,
    ensures
        queued(batch.take(n), ticket) ==> queued(followers(batch, own, n), ticket),
    decreases n,
{
    if n > 0 {
        lemma_followers(batch, own, n - 1, ticket);
        assert(batch.take(n) =~= batch.take(n - 1).push(batch[n - 1]));
        lemma_queued_push(batch.take(n - 1), batch[n - 1], ticket);
        lemma_queued_push(followers(batch, own, n - 1), batch[n - 1], ticket);
    }
}

proof fn lemma_handed(
    ready: Map<u64, (Seq<i32>, Seq<u32>)>,
    batch: Seq<ReqView>,
    own: u64,
    found: (Seq<i32>, Seq<u32>),
    k: int,
    n: int,
    ticket: u64,
)
    requires
        0 <= n <= batch.len(),
        ticket != own,
        forall|i: int| 0 <= i < n ==> #[trigger] reaches(found, k, i),
    ensures
        queued(batch.take(n), ticket) ==> handed(ready, batch, own, found, k, n).contains_key(
            ticket,
        ),
    decreases n,
{
    if n > 0 {
        lemma_handed(ready, batch, own, found, k, n - 1, ticket);
        assert(batch.take(n) =~= batch.take(n - 1).push(batch[n - 1]));
        lemma_queued_push(batch.take(n - 1), batch[n - 1], ticket);
        assert(reaches(found, k, n - 1));
    }
}

/// A launch that gave `k` results for each query answers every follower.
pub proof fn law_success_answers_all(
    ready: Map<u64, (Seq<i32>, Seq<u32>)>,
    batch: Seq<ReqView>,
    own: u64,
    found: (Seq<i32>, Seq<u32>),
    k: int,
    ticket: u64,
)
    requires
        k >= 0,
        found.0.len() == batch.len() * k,
        found.1.len() == batch.len() * k,
        ticket != own,
        queued(batch, ticket),
    ensures
        handed(ready, batch, own, found, k, batch.len() as int).contains_key(ticket),
{
    assert forall|i: int| 0 <= i < batch.len() implies #[trigger] reaches(found, k, i) by {
        assert((i + 1) * k <= batch.len() * k) by (nonlinear_arith)
            requires
                i + 1 <= batch.len(),
                k >= 0,
        ;
    }
    lemma_handed(ready, batch, own, found, k, batch.len() as int, ticket);
    assert(batch.take(batch.len() as int) =~= batch);
}

/// The first `cap` of a list, or all of it.
pub open spec fn first_few(s: Seq<ReqView>, cap: int) -> Seq<ReqView> {
    if cap <= 0 {
        Seq::empty()
    } else if cap < s.len() {
        s.take(cap)
    } else {
        s
    }
}

/// A batch is the oldest requests of its geometry, as many as it may hold, in the order in which
/// they came.
pub proof fn law_batch_is_the_oldest_of_its_kind(p: Seq<ReqView>, g: Geometry, cap: int, n: int)
    requires
        0 <= n <= p.len(),
        cap >= 0,
    ensures
        taken(p, g, cap, n) == first_few(p.take(n).filter(|r: ReqView| r.shape == g), cap),
    decreases n,
{
    reveal(Seq::filter);
    let f = |r: ReqView| r.shape == g;
    if n > 0 {
        law_batch_is_the_oldest_of_its_kind(p, g, cap, n - 1);
        assert(p.take(n).drop_last() =~= p.take(n - 1));
        assert(p.take(n).last() == p[n - 1]);
        assert(taken(p, g, cap, n) =~= first_few(p.take(n).filter(f), cap));
    } else {
        assert(p.take(0) =~= Seq::<ReqView>::empty());
        assert(taken(p, g, cap, n) =~= first_few(p.take(n).filter(f), cap));
    }
}

/// What a batch leaves are the requests of another geometry, all of them, and those of its own
/// beyond what it holds; each kind stays in its order.
pub proof fn law_rest_keeps_its_order(p: Seq<ReqView>, g: Geometry, cap: int, n: int)
    requires
        0 <= n <= p.len(),
        cap >= 0,
    ensures
        left(p, g, cap, n).filter(|r: ReqView| r.shape != g) == p.take(n).filter(
            |r: ReqView| r.shape != g,
        ),
        taken(p, g, cap, n) + left(p, g, cap, n).filter(|r: ReqView| r.shape == g) == p.take(
            n,
        ).filter(|r: ReqView| r.shape == g),
    decreases n,
{
    reveal(Seq::filter);
    let own = |r: ReqView| r.shape == g;
    let other = |r: ReqView| r.shape != g;
    if n > 0 {
        law_rest_keeps_its_order(p, g, cap, n - 1);
        assert(p.take(n).drop_last() =~= p.take(n - 1));
        assert(p.take(n).last() == p[n - 1]);
        let r = left(p, g, cap, n - 1);
        let x = p[n - 1];
        assert(r.push(x).drop_last() =~= r);
        law_batch_is_the_oldest_of_its_kind(p, g, cap, n - 1);
        let t = taken(p, g, cap, n - 1);
        if own(x) && t.len() < cap {
            assert(r.filter(own).len() == 0);
            assert(t.push(x) + r.filter(own) =~= (t + r.filter(own)).push(x));
        } else if own(x) {
            assert(r.push(x).filter(own) == r.filter(own).push(x));
            assert(t + r.filter(own).push(x) =~= (t + r.filter(own)).push(x));
        } else {
            assert(r.push(x).filter(own) == r.filter(own));
        }
    } else {
        assert(p.take(0) =~= Seq::<ReqView>::empty());
        assert(taken(p, g, cap, 0) + Seq::<ReqView>::empty() =~= Seq::<ReqView>::empty());
    }
}

/// There is a leader for each stream and always one, and a batch is no larger than what a slot
/// carries and than the index was made for, but holds one where a slot does.
pub proof fn law_limits_leave_room_for_one(slots: usize, slot_batch: usize, max_q: usize)
    ensures
        leader_cap(slots) >= 1,
        slots >= 1 ==> leader_cap(slots) == slots,
        batch_cap(slot_batch, max_q) <= slot_batch,
        max_q >= 1 ==> batch_cap(slot_batch, max_q) <= max_q,
        slot_batch >= 1 ==> batch_cap(slot_batch, max_q) >= 1,
        max_q >= 1 ==> batch_cap(slot_batch, max_q) == slot_batch || batch_cap(slot_batch, max_q)
            == max_q,
{
}

/// Whether no two members of a batch have the same ticket.
pub open spec fn tickets_differ(batch: Seq<ReqView>) -> bool {
    forall|i: int, j: int|
        0 <= i < j < batch.len() ==> (#[trigger] batch[i]).ticket != (#[trigger] batch[j]).ticket
}

/// Every follower is handed its own results, those of its place in the batch, and the leader gets
/// those of its own place; whoever is not in the batch keeps what there was.
pub proof fn law_results_go_to_their_callers(
    ready: Map<u64, (Seq<i32>, Seq<u32>)>,
    batch: Seq<ReqView>,
    own: u64,
    found: (Seq<i32>, Seq<u32>),
    k: int,
    n: int,
    i: int,
    j: int,
    stranger: u64,
)
    requires
        tickets_differ(batch),
        k > 0,
        0 <= i < n <= batch.len(),
        0 <= j < k,
        found.0.len() >= n * k,
        found.1.len() >= n * k,
        !queued(batch, stranger),
    ensures
        batch[i].ticket != own ==> ({
            let all = handed(ready, batch, own, found, k, n);
            let t = batch[i].ticket;
            &&& all.contains_key(t)
            &&& all[t].0.len() == k && all[t].1.len() == k
            &&& all[t].0[j] == found.0[i * k + j]
            &&& all[t].1[j] == found.1[i * k + j]
        }),
        batch[i].ticket == own ==> (own_share(batch, own, found, k, n) matches Some(s) && s.0.len()
            == k && s.1.len() == k && s.0[j] == found.0[i * k + j] && s.1[j] == found.1[i * k + j]),
        handed(ready, batch, own, found, k, n).contains_key(stranger) == ready.contains_key(
            stranger,
        ),
        ready.contains_key(stranger) ==> handed(ready, batch, own, found, k, n)[stranger]
            == ready[stranger],
    decreases n,
{
    assert(n * k == (n - 1) * k + k && (i + 1) * k == i * k + k) by (nonlinear_arith);
    assert(0 <= i * k && (i + 1) * k <= n * k) by (nonlinear_arith)
        requires
            0 <= i < n,
            k > 0,
    ;
    assert(reaches(found, k, n - 1));
    assert(reaches(found, k, i));
    assert(batch[n - 1].ticket != stranger);
    if i < n - 1 {
        law_results_go_to_their_callers(ready, batch, own, found, k, n - 1, i, j, stranger);
        assert(batch[i].ticket != batch[n - 1].ticket);
    } else if n > 1 {
        law_results_go_to_their_callers(ready, batch, own, found, k, n - 1, 0, j, stranger);
    } else {
        assert(handed(ready, batch, own, found, k, 0) == ready);
    }
}

/// The followers are the members of a batch but the leader, in their order.
pub proof fn law_followers_are_the_others(batch: Seq<ReqView>, own: u64, n: int)
    requires
        0 <= n <= batch.len(),
    ensures
        followers(batch, own, n) == batch.take(n).filter(|r: ReqView| r.ticket != own),
    decreases n,
{
    reveal(Seq::filter);
    let f = |r: ReqView| r.ticket != own;
    if n > 0 {
        law_followers_are_the_others(batch, own, n - 1);
        assert(batch.take(n).drop_last() =~= batch.take(n - 1));
        assert(batch.take(n).last() == batch[n - 1]);
    } else {
        assert(batch.take(0) =~= Seq::<ReqView>::empty());
    }
}

/// Each row of a launch holds the query of its own member: component by component, zeros behind a
/// short one, and nothing of one that is too long.
pub proof fn law_rows_hold_their_queries(batch: Seq<ReqView>, dim: int, n: int, i: int, j: int)
    requires
        0 <= i < n <= batch.len(),
        0 <= j < dim,
    ensures
        packed_i8(batch, dim, n).len() == n * dim,
        packed_i8(batch, dim, n)[i * dim + j] == (if j < batch[i].q_i8.len() {
            batch[i].q_i8[j]
        } else {
            0
        }),
        all_exact(batch, dim) ==> packed_f32(batch, dim, n).len() == n * dim && packed_f32(
            batch,
            dim,
            n,
        )[i * dim + j] == batch[i].q_f32[j],
    decreases n,
{
    assert(n * dim == (n - 1) * dim + dim) by (nonlinear_arith);
    assert(0 <= i * dim && i * dim + j < n * dim) by (nonlinear_arith)
        requires
            0 <= i < n,
            0 <= j < dim,
    ;
    lemma_packed_len(batch, dim, n - 1);
    assert(batch[n - 1].q_f32.len() >= dim || !all_exact(batch, dim));
    if i < n - 1 {
        law_rows_hold_their_queries(batch, dim, n - 1, i, j);
        assert(i * dim + j < (n - 1) * dim) by (nonlinear_arith)
            requires
                0 <= i < n - 1,
                0 <= j < dim,
        ;
    }
}

proof fn lemma_packed_len(batch: Seq<ReqView>, dim: int, n: int)
    requires
        0 <= n <= batch.len(),
        dim > 0,
    ensures
        packed_i8(batch, dim, n).len() == n * dim,
        all_exact(batch, dim) ==> packed_f32(batch, dim, n).len() == n * dim,
    decreases n,
{
    if n > 0 {
        lemma_packed_len(batch, dim, n - 1);
        assert(n * dim == (n - 1) * dim + dim) by (nonlinear_arith);
        assert(batch[n - 1].q_f32.len() >= dim || !all_exact(batch, dim));
    } else {
        assert(0 * dim == 0) by (nonlinear_arith);
    }
}

} // verus!
