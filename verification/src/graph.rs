//! The memory graph: typed, weighted edges between memories, and traversal.
use crate::codec;
use crate::codec::{push_be, push_le, read_be, read_le};
use crate::memory::Memory;
use crate::memory_keys as keys;
use crate::memory_keys::{edge_key, redge_key};
use crate::reply;
use crate::reply::text_of;
use crate::scan::{copy_range, push_all};
use crate::store;
use crate::store::{Store, Value};
use vstd::prelude::*;

verus! {

/// An edge as seen from one of its ends: the other end, the relation, and the bits of
/// the weight.
pub struct EdgeView {
    pub id: u64,
    pub rel: Seq<char>,
    pub weight: u32,
}

/// An edge as seen from one of its ends. The weight is the bits of an `f32`.
#[derive(Debug, PartialEq)]
pub struct Edge {
    pub id: u64,
    pub rel: String,
    pub weight: u32,
}

impl View for Edge {
    type V = EdgeView;

    open spec fn view(&self) -> EdgeView {
        EdgeView { id: self.id, rel: self.rel@, weight: self.weight }
    }
}

/// The bits of 1.0, the weight of an edge that has none of its own.
pub const UNIT_WEIGHT: u32 = 0x3F80_0000;

pub open spec fn edge_at(from: u64, rel: Seq<char>, to: u64) -> Seq<u8> {
    keys::id_text_id(keys::edge_head(), from, rel, to)
}

pub open spec fn redge_at(to: u64, rel: Seq<char>, from: u64) -> Seq<u8> {
    keys::id_text_id(keys::redge_head(), to, rel, from)
}

/// The prefix of the edges at one end, of one relation, or of all where `rel` is empty.
pub open spec fn edge_prefix(head: Seq<u8>, id: u64, rel: Seq<char>) -> Seq<u8> {
    let all = head + keys::id_bytes(id) + seq![58u8];
    if rel.len() == 0 {
        all
    } else {
        all + vstd::utf8::encode_utf8(rel) + seq![58u8]
    }
}

/// The weight in a stored value.
pub open spec fn weight_of(v: store::ValueView) -> u32 {
    match v {
        store::ValueView::Bytes(b) => if b.len() == 4 {
            codec::le_value(b) as u32
        } else {
            UNIT_WEIGHT
        },
        _ => UNIT_WEIGHT,
    }
}

/// The edge in a row: the last eight bytes of the key are the other end, what stands
/// between the ends is the relation. `skip` is the length of the key up to the relation.
pub open spec fn edge_in(row: store::Row, skip: int) -> Option<EdgeView> {
    let n = row.0.len();
    if n < 9 || n - 9 <= skip {
        None
    } else {
        Some(
            EdgeView {
                id: codec::be_value(row.0.skip(n - 8)) as u64,
                rel: reply::shown(row.0.subrange(skip, n - 9)),
                weight: weight_of(row.1),
            },
        )
    }
}

/// Whether an edge is of a relation; every edge is where that has no name.
pub open spec fn of_relation(e: EdgeView, rel: Seq<char>) -> bool {
    rel.len() == 0 || e.rel == rel
}

/// The edges of a relation in some rows, in their order.
pub open spec fn edges_in(rows: Seq<store::Row>, skip: int, rel: Seq<char>) -> Seq<EdgeView>
    decreases rows.len(),
{
    if rows.len() == 0 {
        Seq::empty()
    } else {
        let rest = edges_in(rows.drop_last(), skip, rel);
        match edge_in(rows.last(), skip) {
            Some(e) => if of_relation(e, rel) {
                rest.push(e)
            } else {
                rest
            },
            None => rest,
        }
    }
}

/// The edges of a relation are of no other.
pub proof fn lemma_edges_of_relation(rows: Seq<store::Row>, skip: int, rel: Seq<char>)
    ensures
        forall|i: int|
            0 <= i < edges_in(rows, skip, rel).len() ==> of_relation(
                #[trigger] edges_in(rows, skip, rel)[i],
                rel,
            ),
    decreases rows.len(),
{
    if rows.len() > 0 {
        lemma_edges_of_relation(rows.drop_last(), skip, rel);
        let all = edges_in(rows, skip, rel);
        let rest = edges_in(rows.drop_last(), skip, rel);
        assert forall|i: int| 0 <= i < all.len() implies of_relation(#[trigger] all[i], rel) by {
            if i < rest.len() {
                assert(all[i] == rest[i]);
            }
        }
    }
}

/// The edges that leave `from`.
pub open spec fn edges_from(rows: Seq<store::Row>, from: u64, rel: Seq<char>) -> Seq<EdgeView> {
    edges_in(store::rows_under(rows, edge_prefix(keys::edge_head(), from, rel)), 18, rel)
}

/// The edges that arrive at `to`.
pub open spec fn edges_to(rows: Seq<store::Row>, to: u64, rel: Seq<char>) -> Seq<EdgeView> {
    edges_in(store::rows_under(rows, edge_prefix(keys::redge_head(), to, rel)), 19, rel)
}

pub open spec fn edge_views(s: Seq<Edge>) -> Seq<EdgeView> {
    Seq::new(s.len(), |i: int| s[i]@)
}

impl Memory {
    /// Makes or replaces the edge `from -> to`. `weight` is the bits of an `f32`.
    pub fn link(&self, s: &mut Store, from: u64, to: u64, rel: &str, weight: u32)
        requires
            old(s).wf(),
        ensures
            final(s).wf(),
            final(s)@ == old(s)@.insert(
                edge_at(from, rel@, to),
                store::ValueView::Bytes(codec::le(weight as nat, 4)),
            ).insert(
                redge_at(to, rel@, from),
                store::ValueView::Bytes(codec::le(weight as nat, 4)),
            ),
    {
        let mut w: Vec<u8> = Vec::new();
        push_le(&mut w, weight as u64, 4);
        let mut v: Vec<u8> = Vec::new();
        push_le(&mut v, weight as u64, 4);
        proof {
            assert(w@ =~= codec::le(weight as nat, 4));
            assert(v@ =~= codec::le(weight as nat, 4));
        }
        s.put(edge_key(from, rel, to), Value::Bytes(w));
        s.put(redge_key(to, rel, from), Value::Bytes(v));
    }

    /// Removes an edge.
    pub fn unlink(&self, s: &mut Store, from: u64, to: u64, rel: &str)
        requires
            old(s).wf(),
        ensures
            final(s).wf(),
            final(s)@ == old(s)@.remove(edge_at(from, rel@, to)).remove(redge_at(to, rel@, from)),
    {
        let _e = s.delete(&edge_key(from, rel, to));
        let _r = s.delete(&redge_key(to, rel, from));
    }
}

fn push_end(b: &mut Vec<u8>, id: u64, rel: &str)
    ensures
        final(b)@ == edge_prefix(old(b)@, id, rel@),
{
    push_be(b, id, 8);
    b.push(58);
    if !rel.is_empty() {
        push_all(b, rel.as_bytes());
        b.push(58);
    }
    proof {
        assert(b@ =~= edge_prefix(old(b)@, id, rel@));
    }
}

fn read_edges(found: &Vec<(Vec<u8>, Value)>, skip: usize, rel: &str) -> (r: Vec<Edge>)
    requires
        skip <= 64,
    ensures
        edge_views(r@) == edges_in(store::rows_of(found@), skip as int, rel@),
{
    let every: bool = rel.is_empty();
    let wanted: String = rel.to_owned();
    let mut out: Vec<Edge> = Vec::new();
    let mut i: usize = 0;
    let ghost rows = store::rows_of(found@);
    proof {
        codec::lemma_limits();
        assert(edge_views(out@) =~= Seq::<EdgeView>::empty());
    }
    while i < found.len()
        invariant
            skip <= 64,
            rows == store::rows_of(found@),
            i <= found@.len(),
            edge_views(out@) == edges_in(rows.take(i as int), skip as int, rel@),
            every == (rel@.len() == 0),
            wanted@ == rel@,
            codec::bytes_limit(8) == 0x1_0000_0000_0000_0000,
            codec::bytes_limit(4) == 0x1_0000_0000,
        decreases found@.len() - i,
    {
        let ghost row = rows[i as int];
        proof {
            let t = rows.take(i + 1);
            assert(t.drop_last() =~= rows.take(i as int));
            assert(t.last() == row);
            assert(row == store::row_of(found@[i as int]));
        }
        let k = &found[i].0;
        let n: usize = k.len();
        if n >= 9 && n - 9 > skip {
            let id: u64 = read_be(k.as_slice(), n - 8, 8);
            let named = text_of(copy_range(k.as_slice(), skip, n - 9).as_slice());
            let weight: u32 = match &found[i].1 {
                Value::Bytes(b) => {
                    if b.len() == 4 {
                        proof {
                            assert(b@.subrange(0, 4) =~= b@);
                        }
                        read_le(b.as_slice(), 0, 4) as u32
                    } else {
                        UNIT_WEIGHT
                    }
                },
                Value::Int(_) => UNIT_WEIGHT,
            };
            let fits: bool = every || named == wanted;
            let e = Edge { id, rel: named, weight };
            let ghost before = out@;
            let ghost v = e@;
            proof {
                assert(k@.subrange(n - 8, n as int) =~= row.0.skip(n - 8));
                assert(edge_in(row, skip as int) == Some(v));
            }
            if fits {
                out.push(e);
                proof {
                    assert(edge_views(out@) =~= edge_views(before).push(v));
                }
            }
        }
        i = i + 1;
    }
    proof {
        assert(rows.take(i as int) =~= rows);
    }
    out
}

impl Memory {
    /// The edges that leave `from`, of one relation, or of all where `rel` is empty.
    pub fn neighbors(&self, s: &Store, from: u64, rel: &str) -> (r: Vec<Edge>)
        requires
            s.wf(),
        ensures
            edge_views(r@) == edges_from(s.rows(), from, rel@),
            rel@.len() > 0 ==> forall|i: int| 0 <= i < r@.len() ==> (#[trigger] r@[i]).rel@ == rel@,
    {
        let mut prefix: Vec<u8> = vec![109u8, 101u8, 109u8, 58u8, 101u8, 100u8, 103u8, 101u8, 58u8];
        assert(prefix@ =~= keys::edge_head());
        push_end(&mut prefix, from, rel);
        let r = read_edges(&s.scan_prefix(&prefix), 18, rel);
        proof {
            let rows = store::rows_under(s.rows(), prefix@);
            lemma_edges_of_relation(rows, 18, rel@);
            assert forall|i: int| rel@.len() > 0 && 0 <= i < r@.len() implies (
            #[trigger] r@[i]).rel@ == rel@ by {
                assert(edge_views(r@)[i] == r@[i]@);
            }
        }
        r
    }

    /// The edges that arrive at `to`, of one relation, or of all where `rel` is empty.
    pub fn incoming(&self, s: &Store, to: u64, rel: &str) -> (r: Vec<Edge>)
        requires
            s.wf(),
        ensures
            edge_views(r@) == edges_to(s.rows(), to, rel@),
            rel@.len() > 0 ==> forall|i: int| 0 <= i < r@.len() ==> (#[trigger] r@[i]).rel@ == rel@,
    {
        let mut prefix: Vec<u8> = vec![
            109u8,
            101u8,
            109u8,
            58u8,
            114u8,
            101u8,
            100u8,
            103u8,
            101u8,
            58u8,
        ];
        assert(prefix@ =~= keys::redge_head());
        push_end(&mut prefix, to, rel);
        let r = read_edges(&s.scan_prefix(&prefix), 19, rel);
        proof {
            let rows = store::rows_under(s.rows(), prefix@);
            lemma_edges_of_relation(rows, 19, rel@);
            assert forall|i: int| rel@.len() > 0 && 0 <= i < r@.len() implies (
            #[trigger] r@[i]).rel@ == rel@ by {
                assert(edge_views(r@)[i] == r@[i]@);
            }
        }
        r
    }
}

/// Whether an edge leads from `a` to `b`.
pub open spec fn leads(rows: Seq<store::Row>, rel: Seq<char>, a: u64, b: u64) -> bool {
    exists|i: int|
        0 <= i < edges_from(rows, a, rel).len() && (#[trigger] edges_from(rows, a, rel)[i]).id == b
}

/// Whether `b` can be reached from `a` over exactly `n` edges.
pub open spec fn reaches(rows: Seq<store::Row>, rel: Seq<char>, a: u64, b: u64, n: nat) -> bool
    decreases n,
{
    if n == 0 {
        a == b
    } else {
        exists|m: u64|
            reaches(rows, rel, a, m, (n - 1) as nat) && #[trigger] leads(rows, rel, m, b)
    }
}

/// Whether `b` can be reached from `a` over at most `n` edges.
pub open spec fn within(rows: Seq<store::Row>, rel: Seq<char>, a: u64, b: u64, n: nat) -> bool {
    exists|k: nat| k <= n && #[trigger] reaches(rows, rel, a, b, k)
}

/// The places of a breadth-first walk: each id once, with its distance from the start;
/// distances never fall along the walk; an id at a distance `d > 0` was found from one
/// at `d - 1`.
pub open spec fn walk_ok(
    rows: Seq<store::Row>,
    rel: Seq<char>,
    start: u64,
    ids: Seq<u64>,
    dist: Seq<nat>,
) -> bool {
    &&& ids.len() == dist.len()
    &&& ids.len() > 0
    &&& ids[0] == start
    &&& dist[0] == 0
    &&& forall|i: int, j: int| 0 <= i < j < ids.len() ==> #[trigger] ids[i] != #[trigger] ids[j]
    &&& forall|i: int, j: int| 0 <= i < j < ids.len() ==> #[trigger] dist[i] <= #[trigger] dist[j]
    &&& forall|i: int| 0 <= i < ids.len() ==> reaches(rows, rel, start, #[trigger] ids[i], dist[i])
}

/// No id can be reached over fewer edges than its distance.
pub open spec fn shortest(
    rows: Seq<store::Row>,
    rel: Seq<char>,
    start: u64,
    ids: Seq<u64>,
    dist: Seq<nat>,
) -> bool {
    forall|i: int, k: nat|
        0 <= i < ids.len() && #[trigger] reaches(rows, rel, start, ids[i], k) ==> dist[i] <= k
}

/// Everything that an edge leads to from the first `head` places is on the walk, at most
/// one step further out.
pub open spec fn expanded(
    rows: Seq<store::Row>,
    rel: Seq<char>,
    ids: Seq<u64>,
    dist: Seq<nat>,
    head: int,
    max_depth: nat,
) -> bool {
    forall|i: int, b: u64|
        #![trigger leads(rows, rel, ids[i], b)]
        0 <= i < head && dist[i] < max_depth && leads(rows, rel, ids[i], b) ==> exists|j: int|
            0 <= j < ids.len() && #[trigger] ids[j] == b && dist[j] <= dist[i] + 1
}

/// `ids` with the far ends of some edges behind them, as far as they are new, in the order of
/// the edges.
pub open spec fn with_new(ids: Seq<u64>, es: Seq<EdgeView>) -> Seq<u64>
    decreases es.len(),
{
    if es.len() == 0 {
        ids
    } else {
        let rest = with_new(ids, es.drop_last());
        if rest.contains(es.last().id) {
            rest
        } else {
            rest.push(es.last().id)
        }
    }
}

/// The places of a walk and their distances from the start.
pub struct WalkView {
    pub ids: Seq<u64>,
    pub dist: Seq<nat>,
}

/// The walk once its first `n` places have been left over all their edges, in turn.
pub open spec fn walked(
    rows: Seq<store::Row>,
    rel: Seq<char>,
    start: u64,
    max_depth: nat,
    n: nat,
) -> WalkView
    decreases n,
{
    if n == 0 {
        WalkView { ids: seq![start], dist: seq![0nat] }
    } else {
        let w = walked(rows, rel, start, max_depth, (n - 1) as nat);
        if n - 1 < w.ids.len() && w.dist[n - 1] < max_depth {
            let ids = with_new(w.ids, edges_from(rows, w.ids[n - 1], rel));
            WalkView {
                ids,
                dist: Seq::new(
                    ids.len(),
                    |i: int|
                        if i < w.dist.len() {
                            w.dist[i]
                        } else {
                            w.dist[n - 1] + 1
                        },
                ),
            }
        } else {
            w
        }
    }
}

impl Memory {
    /// A breadth-first walk over the outgoing edges, up to `max_depth` edges from the start:
    /// each id once, nearer ids before those further away, and those at one distance in the
    /// order in which the edges lead to them. The distances are the least there are.
    pub fn traverse(&self, s: &Store, start: u64, max_depth: usize, rel: &str) -> (r: Vec<u64>)
        requires
            s.wf(),
        ensures
            exists|dist: Seq<nat>| #[trigger]
                walk_ok(s.rows(), rel@, start, r@, dist) && shortest(
                    s.rows(),
                    rel@,
                    start,
                    r@,
                    dist,
                ) && dist == walked(s.rows(), rel@, start, max_depth as nat, r@.len()).dist,
            forall|b: u64|
                #[trigger] r@.contains(b) == within(s.rows(), rel@, start, b, max_depth as nat),
            r@ == walked(s.rows(), rel@, start, max_depth as nat, r@.len()).ids,
    {
        let ghost rows = s.rows();
        let mut ids: Vec<u64> = Vec::new();
        let mut depth: Vec<usize> = Vec::new();
        ids.push(start);
        depth.push(0);
        let ghost mut dist: Seq<nat> = seq![0nat];
        let mut head: usize = 0;
        proof {
            assert(reaches(rows, rel@, start, start, 0));
        }
        while head < ids.len()
            invariant
                s.wf(),
                rows == s.rows(),
                head <= ids@.len(),
                ids@ == walked(rows, rel@, start, max_depth as nat, head as nat).ids,
                dist == walked(rows, rel@, start, max_depth as nat, head as nat).dist,
                walk_ok(rows, rel@, start, ids@, dist),
                expanded(rows, rel@, ids@, dist, head as int, max_depth as nat),
                depth@.len() == ids@.len(),
                forall|i: int| 0 <= i < ids@.len() ==> #[trigger] depth@[i] == dist[i],
                forall|i: int| 0 <= i < ids@.len() ==> #[trigger] dist[i] <= max_depth,
                head < ids@.len() ==> forall|i: int|
                    0 <= i < ids@.len() ==> #[trigger] dist[i] <= dist[head as int] + 1,
            decreases usize::MAX - head,
        {
            let cur: u64 = ids[head];
            let d: usize = depth[head];
            let ghost old_ids = ids@;
            let ghost old_dist = dist;
            if d < max_depth {
                let near = self.neighbors(s, cur, rel);
                let ghost out = edges_from(rows, cur, rel@);
                let mut k: usize = 0;
                proof {
                    assert(out.take(0).len() == 0);
                }
                while k < near.len()
                    invariant
                        s.wf(),
                        rows == s.rows(),
                        out == edges_from(rows, cur, rel@),
                        out == edge_views(near@),
                        k <= near@.len(),
                        ids@ == with_new(old_ids, out.take(k as int)),
                        dist.len() == ids@.len(),
                        head < old_ids.len() <= ids@.len(),
                        old_dist.len() == old_ids.len(),
                        d == dist[head as int],
                        d < max_depth,
                        ids@[head as int] == cur,
                        walk_ok(rows, rel@, start, ids@, dist),
                        depth@.len() == ids@.len(),
                        forall|i: int| 0 <= i < old_ids.len() ==> #[trigger] ids@[i] == old_ids[i],
                        forall|i: int| 0 <= i < old_ids.len() ==> #[trigger] dist[i] == old_dist[i],
                        forall|i: int| 0 <= i < ids@.len() ==> #[trigger] depth@[i] == dist[i],
                        forall|i: int| 0 <= i < ids@.len() ==> #[trigger] dist[i] <= d + 1,
                        forall|i: int| old_ids.len() <= i < ids@.len() ==> #[trigger] dist[i] == d + 1,
                        forall|q: int|
                            0 <= q < k ==> exists|j: int|
                                0 <= j < ids@.len() && #[trigger] ids@[j] == (#[trigger] out[q]).id,
                    decreases near@.len() - k,
                {
                    let n: u64 = near[k].id;
                    assert(out[k as int].id == n);
                    let mut seen: bool = false;
                    let mut j: usize = 0;
                    while j < ids.len() && !seen
                        invariant
                            j <= ids@.len(),
                            seen ==> exists|x: int| 0 <= x < ids@.len() && #[trigger] ids@[x] == n,
                            !seen ==> forall|x: int| 0 <= x < j ==> #[trigger] ids@[x] != n,
                        decreases ids@.len() - j, (if seen { 0int } else { 1int }),
                    {
                        if ids[j] == n {
                            seen = true;
                        } else {
                            j = j + 1;
                        }
                    }
                    let ghost before = ids@;
                    proof {
                        assert(out.take(k + 1).drop_last() =~= out.take(k as int));
                        assert(seen == before.contains(n));
                    }
                    if !seen {
                        ids.push(n);
                        depth.push(d + 1);
                        proof {
                            dist = dist.push((d + 1) as nat);
                            assert(leads(rows, rel@, cur, n));
                            assert(reaches(rows, rel@, start, cur, d as nat));
                            assert(reaches(rows, rel@, start, n, (d + 1) as nat));
                            assert(ids@[before.len() as int] == n);
                        }
                    }
                    proof {
                        assert forall|q: int| 0 <= q < k + 1 implies exists|x: int|
                            0 <= x < ids@.len() && #[trigger] ids@[x] == (#[trigger] out[q]).id by {
                            if q < k {
                                let x = choose|x: int|
                                    0 <= x < before.len() && #[trigger] before[x] == out[q].id;
                                assert(ids@[x] == out[q].id);
                            } else if seen {
                                let x = choose|x: int| 0 <= x < before.len() && #[trigger] before[x] == n;
                                assert(ids@[x] == out[q].id);
                            } else {
                                assert(ids@[before.len() as int] == out[q].id);
                            }
                        }
                    }
                    k = k + 1;
                }
                proof {
                    assert forall|b: u64|
                        #![trigger leads(rows, rel@, cur, b)]
                        leads(rows, rel@, cur, b) implies exists|j: int|
                        0 <= j < ids@.len() && #[trigger] ids@[j] == b && dist[j] <= d + 1 by {
                        let q = choose|q: int| 0 <= q < out.len() && (#[trigger] out[q]).id == b;
                        let x = choose|x: int| 0 <= x < ids@.len() && #[trigger] ids@[x] == out[q].id;
                        assert(ids@[x] == b && dist[x] <= d + 1);
                    }
                    assert(out.take(k as int) =~= out);
                    assert(ids@ == with_new(old_ids, out));
                }
            }
            proof {
                let w = walked(rows, rel@, start, max_depth as nat, (head + 1) as nat);
                assert(w.ids == ids@);
                assert(w.dist =~= dist);
                assert forall|i: int, b: u64|
                    #![trigger leads(rows, rel@, ids@[i], b)]
                    0 <= i < head + 1 && dist[i] < max_depth && leads(
                        rows,
                        rel@,
                        ids@[i],
                        b,
                    ) implies exists|j: int|
                    0 <= j < ids@.len() && #[trigger] ids@[j] == b && dist[j] <= dist[i] + 1 by {
                    if i < head {
                        assert(leads(rows, rel@, old_ids[i], b));
                        let j = choose|j: int|
                            0 <= j < old_ids.len() && #[trigger] old_ids[j] == b && old_dist[j]
                                <= old_dist[i] + 1;
                        assert(ids@[j] == b && dist[j] <= dist[i] + 1);
                    } else {
                        assert(leads(rows, rel@, cur, b));
                    }
                }
                assert(dist[head as int] == d);
            }
            head = head + 1;
            proof {
                if head < ids@.len() {
                    assert(dist[head - 1] <= dist[head as int]);
                }
            }
        }
        proof {
            assert(walk_ok(rows, rel@, start, ids@, dist));
            assert forall|i: int, k: nat|
                0 <= i < ids@.len() && #[trigger] reaches(
                    rows,
                    rel@,
                    start,
                    ids@[i],
                    k,
                ) implies dist[i] <= k by {
                assert(dist[i] <= max_depth);
                if k <= max_depth {
                    lemma_walk_complete(rows, rel@, start, ids@, dist, max_depth as nat, ids@[i], k);
                    let j = choose|j: int|
                        0 <= j < ids@.len() && #[trigger] ids@[j] == ids@[i] && dist[j] <= k;
                    assert(i == j);
                }
            }
            assert forall|b: u64|
                #[trigger] ids@.contains(b) == within(rows, rel@, start, b, max_depth as nat) by {
                if ids@.contains(b) {
                    let i = choose|i: int| 0 <= i < ids@.len() && ids@[i] == b;
                    assert(reaches(rows, rel@, start, ids@[i], dist[i]));
                    assert(dist[i] <= max_depth);
                }
                if within(rows, rel@, start, b, max_depth as nat) {
                    let k = choose|k: nat|
                        k <= max_depth && #[trigger] reaches(rows, rel@, start, b, k);
                    lemma_walk_complete(rows, rel@, start, ids@, dist, max_depth as nat, b, k);
                }
            }
        }
        ids
    }
}

proof fn lemma_walk_complete(
    rows: Seq<store::Row>,
    rel: Seq<char>,
    start: u64,
    ids: Seq<u64>,
    dist: Seq<nat>,
    max_depth: nat,
    b: u64,
    k: nat,
)
    requires
        walk_ok(rows, rel, start, ids, dist),
        expanded(rows, rel, ids, dist, ids.len() as int, max_depth),
        reaches(rows, rel, start, b, k),
        k <= max_depth,
    ensures
        exists|j: int| 0 <= j < ids.len() && #[trigger] ids[j] == b && dist[j] <= k,
    decreases k,
{
    if k == 0 {
        assert(ids[0] == b && dist[0] <= k);
    } else {
        let m = choose|m: u64|
            reaches(rows, rel, start, m, (k - 1) as nat) && #[trigger] leads(rows, rel, m, b);
        lemma_walk_complete(rows, rel, start, ids, dist, max_depth, m, (k - 1) as nat);
        let i = choose|i: int| 0 <= i < ids.len() && #[trigger] ids[i] == m && dist[i] <= k - 1;
        assert(leads(rows, rel, ids[i], b));
        let j = choose|j: int|
            0 <= j < ids.len() && #[trigger] ids[j] == b && dist[j] <= dist[i] + 1;
        assert(ids[j] == b && dist[j] <= k);
    }
}

/// An edge that was made is seen from both its ends with its relation and weight, unless
/// the relation has no name.
pub proof fn law_edge_is_seen(from: u64, rel: Seq<char>, to: u64, weight: u32)
    requires
        rel.len() > 0,
    ensures
        edge_prefix(keys::edge_head(), from, rel).is_prefix_of(edge_at(from, rel, to)),
        edge_prefix(keys::edge_head(), from, Seq::empty()).is_prefix_of(edge_at(from, rel, to)),
        edge_in(
            (edge_at(from, rel, to), store::ValueView::Bytes(codec::le(weight as nat, 4))),
            18,
        ) == Some(EdgeView { id: to, rel, weight }),
        edge_prefix(keys::redge_head(), to, rel).is_prefix_of(redge_at(to, rel, from)),
        edge_in(
            (redge_at(to, rel, from), store::ValueView::Bytes(codec::le(weight as nat, 4))),
            19,
        ) == Some(EdgeView { id: from, rel, weight }),
{
    codec::lemma_limits();
    codec::law_bytes_round_trip(to as nat, 8);
    codec::law_bytes_round_trip(from as nat, 8);
    codec::law_bytes_round_trip(weight as nat, 4);
    let e = vstd::utf8::encode_utf8(rel);
    vstd::utf8::encode_utf8_valid_utf8(rel);
    vstd::utf8::encode_utf8_decode_utf8(rel);
    assert(e.len() > 0) by {
        vstd::utf8::encode_utf8_first_scalar(rel);
    }
    let k1 = edge_at(from, rel, to);
    let p1 = edge_prefix(keys::edge_head(), from, rel);
    let p0 = edge_prefix(keys::edge_head(), from, Seq::empty());
    assert(k1.subrange(0, p1.len() as int) =~= p1);
    assert(k1.subrange(0, p0.len() as int) =~= p0);
    assert(k1.skip(k1.len() - 8) =~= keys::id_bytes(to));
    assert(k1.subrange(18, k1.len() - 9) =~= e);
    let k2 = redge_at(to, rel, from);
    let p2 = edge_prefix(keys::redge_head(), to, rel);
    assert(k2.subrange(0, p2.len() as int) =~= p2);
    assert(k2.skip(k2.len() - 8) =~= keys::id_bytes(from));
    assert(k2.subrange(19, k2.len() - 9) =~= e);
}

/// The edges in some rows are those that the rows hold, of the relation that is asked for or of
/// any where none is named, in the order of the rows.
pub proof fn law_rows_make_edges(rows: Seq<store::Row>, skip: int, rel: Seq<char>)
    ensures
        edges_in(rows, skip, rel) == rows.filter_map(|r: store::Row| edge_in(r, skip)).filter(
            |e: EdgeView| rel == Seq::<char>::empty() || e.rel == rel,
        ),
    decreases rows.len(),
{
    let f = |r: store::Row| edge_in(r, skip);
    let p = |e: EdgeView| rel == Seq::<char>::empty() || e.rel == rel;
    reveal(Seq::filter_map);
    reveal(Seq::filter);
    if rel.len() == 0 {
        assert(rel =~= Seq::<char>::empty());
    }
    if rows.len() > 0 {
        let front = rows.drop_last();
        law_rows_make_edges(front, skip, rel);
        if let Some(e) = edge_in(rows.last(), skip) {
            let rest = front.filter_map(f);
            assert(rest + seq![e] =~= rest.push(e));
            rest.lemma_filter_push(e, p);
        }
    }
}

/// A walk of no steps stays at its start; every id of a walk is found once, and over the fewest
/// edges there are.
pub proof fn law_walks_begin_at_the_start(
    rows: Seq<store::Row>,
    rel: Seq<char>,
    start: u64,
    b: u64,
)
    ensures
        within(rows, rel, start, b, 0) <==> b == start,
        leads(rows, rel, start, b) ==> within(rows, rel, start, b, 1),
        within(rows, rel, start, b, 1) && b != start ==> leads(rows, rel, start, b),
{
    reveal_with_fuel(reaches, 2);
    if within(rows, rel, start, b, 0) {
        let k = choose|k: nat| k <= 0 && #[trigger] reaches(rows, rel, start, b, k);
        assert(k == 0);
    }
    assert(reaches(rows, rel, start, start, 0));
    if leads(rows, rel, start, b) {
        assert(reaches(rows, rel, start, b, 1));
    }
    if within(rows, rel, start, b, 1) && b != start {
        let k = choose|k: nat| k <= 1 && #[trigger] reaches(rows, rel, start, b, k);
        assert(k == 1);
        let m = choose|m: u64|
            reaches(rows, rel, start, m, 0) && #[trigger] leads(rows, rel, m, b);
        assert(m == start);
    }
}

/// An edge of another memory is not listed for this one: the rows under a memory's edges name it.
pub proof fn law_edges_are_their_memorys(from: u64, other: u64, rel: Seq<char>, to: u64)
    requires
        edge_prefix(keys::edge_head(), from, Seq::empty()).is_prefix_of(edge_at(other, rel, to)),
    ensures
        from == other,
{
    let p = edge_prefix(keys::edge_head(), from, Seq::empty());
    let e = edge_at(other, rel, to);
    codec::lemma_limits();
    codec::law_bytes_round_trip(from as nat, 8);
    codec::law_bytes_round_trip(other as nat, 8);
    assert(p.subrange(9, 17) =~= keys::id_bytes(from));
    assert(e.subrange(9, 17) =~= keys::id_bytes(other));
    assert(e.subrange(0, p.len() as int).subrange(9, 17) =~= e.subrange(9, 17));
}

/// Ways can be put one behind the other: what is reached over some edges from a place that is itself
/// reached is reached over all of them, and more edges reach no less.
pub proof fn law_ways_add_up(
    rows: Seq<store::Row>,
    rel: Seq<char>,
    a: u64,
    b: u64,
    c: u64,
    m: nat,
    n: nat,
)
    requires
        within(rows, rel, a, b, m),
        within(rows, rel, b, c, n),
    ensures
        within(rows, rel, a, c, m + n),
        within(rows, rel, a, b, m + 1),
{
    let i = choose|i: nat| i <= m && #[trigger] reaches(rows, rel, a, b, i);
    let j = choose|j: nat| j <= n && #[trigger] reaches(rows, rel, b, c, j);
    lemma_ways_join(rows, rel, a, b, c, i, j);
    assert(reaches(rows, rel, a, c, i + j));
    assert(i <= m + 1);
}

proof fn lemma_ways_join(
    rows: Seq<store::Row>,
    rel: Seq<char>,
    a: u64,
    b: u64,
    c: u64,
    i: nat,
    j: nat,
)
    requires
        reaches(rows, rel, a, b, i),
        reaches(rows, rel, b, c, j),
    ensures
        reaches(rows, rel, a, c, i + j),
    decreases j,
{
    if j > 0 {
        let m = choose|m: u64|
            reaches(rows, rel, b, m, (j - 1) as nat) && #[trigger] leads(rows, rel, m, c);
        lemma_ways_join(rows, rel, a, b, m, i, (j - 1) as nat);
        assert((i + j - 1) as nat == i + (j - 1) as nat);
        assert(reaches(rows, rel, a, m, (i + j - 1) as nat) && leads(rows, rel, m, c));
    }
}

/// An edge that a row of the store holds is listed among those that leave its one end and among
/// those that arrive at its other, under its relation.
pub proof fn law_stored_edges_are_listed(
    rows: Seq<store::Row>,
    from: u64,
    rel: Seq<char>,
    to: u64,
    weight: u32,
)
    requires
        rel.len() > 0,
        rows.contains(
            (edge_at(from, rel, to), store::ValueView::Bytes(codec::le(weight as nat, 4))),
        ),
        rows.contains(
            (redge_at(to, rel, from), store::ValueView::Bytes(codec::le(weight as nat, 4))),
        ),
    ensures
        edges_from(rows, from, rel).contains(EdgeView { id: to, rel, weight }),
        edges_to(rows, to, rel).contains(EdgeView { id: from, rel, weight }),
        leads(rows, rel, from, to),
{
    law_edge_is_seen(from, rel, to, weight);
    let v = store::ValueView::Bytes(codec::le(weight as nat, 4));
    lemma_row_is_listed(
        rows,
        (edge_at(from, rel, to), v),
        edge_prefix(keys::edge_head(), from, rel),
        18,
        rel,
        EdgeView { id: to, rel, weight },
    );
    lemma_row_is_listed(
        rows,
        (redge_at(to, rel, from), v),
        edge_prefix(keys::redge_head(), to, rel),
        19,
        rel,
        EdgeView { id: from, rel, weight },
    );
    let es = edges_from(rows, from, rel);
    let i = choose|i: int| 0 <= i < es.len() && es[i] == EdgeView { id: to, rel, weight };
    assert(edges_from(rows, from, rel)[i].id == to);
}

proof fn lemma_row_is_listed(
    rows: Seq<store::Row>,
    row: store::Row,
    prefix: Seq<u8>,
    skip: int,
    rel: Seq<char>,
    e: EdgeView,
)
    requires
        rows.contains(row),
        prefix.is_prefix_of(row.0),
        edge_in(row, skip) == Some(e),
        e.rel == rel,
    ensures
        edges_in(store::rows_under(rows, prefix), skip, rel).contains(e),
{
    let p = |r: store::Row| prefix.is_prefix_of(r.0);
    let under = store::rows_under(rows, prefix);
    assert(under == rows.filter(p));
    let i = choose|i: int| 0 <= i < rows.len() && rows[i] == row;
    assert(p(rows[i]));
    rows.lemma_filter_contains(p, i);
    lemma_listed(under, row, skip, rel, e);
}

proof fn lemma_listed(rows: Seq<store::Row>, row: store::Row, skip: int, rel: Seq<char>, e: EdgeView)
    requires
        rows.contains(row),
        edge_in(row, skip) == Some(e),
        e.rel == rel,
    ensures
        edges_in(rows, skip, rel).contains(e),
    decreases rows.len(),
{
    let all = edges_in(rows, skip, rel);
    let rest = edges_in(rows.drop_last(), skip, rel);
    if rows.last() == row {
        assert(all.last() == e);
    } else {
        let i = choose|i: int| 0 <= i < rows.len() && rows[i] == row;
        assert(rows.drop_last()[i] == row);
        lemma_listed(rows.drop_last(), row, skip, rel, e);
        let j = choose|j: int| 0 <= j < rest.len() && rest[j] == e;
        assert(all[j] == e);
    }
}

} // verus!
