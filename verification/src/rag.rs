//! Retrieval for generation: dense and sparse ranks of the recalled memories, a query
//! cache that a changed corpus invalidates, and the prompt's context block.
use crate::codec;
use crate::codec::{push_le, read_le};
use crate::memory;
use crate::memory::{Memory, MemoryView};
use crate::memory_keys as keys;
use crate::mitm;
use crate::mitm::{CacheDebugger, DebugView};
use crate::order;
use crate::order::{key_of, sort_places};
use crate::recall;
use crate::recall::{RecallHit, Scored};
use crate::reply;
use crate::reply::text_of;
use crate::store;
use crate::store::Store;
use crate::text;
use crate::text::{chars_of, dec_string, parse_unsigned, push_dec};
use crate::tokens;
use crate::tokens::tokenize;
use crate::words::same_text;
use vstd::prelude::*;
use vstd::string::*;

verus! {

/// The bits of 0.5, the salience of what is ingested.
pub const INGEST_SALIENCE: u32 = 0x3F00_0000;

/// A retrieved chunk. The score is the bits of an `f32`.
#[derive(Debug, PartialEq)]
pub struct Retrieved {
    pub id: u64,
    pub text: String,
    pub score: u32,
    pub source: String,
    pub dense_rank: Option<usize>,
    pub sparse_rank: Option<usize>,
}

/// What a retrieved chunk says.
pub struct RetrievedView {
    pub id: u64,
    pub text: Seq<char>,
    pub score: u32,
    pub source: Seq<char>,
    pub dense_rank: Option<usize>,
    pub sparse_rank: Option<usize>,
}

impl View for Retrieved {
    type V = RetrievedView;

    open spec fn view(&self) -> RetrievedView {
        RetrievedView {
            id: self.id,
            text: self.text@,
            score: self.score,
            source: self.source@,
            dense_rank: self.dense_rank,
            sparse_rank: self.sparse_rank,
        }
    }
}

pub open spec fn retrieved_views(s: Seq<Retrieved>) -> Seq<RetrievedView> {
    Seq::new(s.len(), |i: int| s[i]@)
}

impl Clone for Retrieved {
    fn clone(&self) -> (r: Self)
        ensures
            r@ == self@,
    {
        Retrieved {
            id: self.id,
            text: self.text.clone(),
            score: self.score,
            source: self.source.clone(),
            dense_rank: self.dense_rank,
            sparse_rank: self.sparse_rank,
        }
    }
}

// ── ranks ─────────────────────────────────────────────────────────────────

/// The number of hits that are recalled for `k` results.
pub fn pool_size(k: usize) -> (r: usize)
    requires
        4 * k <= usize::MAX,
    ensures
        r == pool_of(k as nat),
{
    let n: usize = 4 * k;
    if n > 20 {
        n
    } else {
        20
    }
}

/// A chunk with its rank in the dense or the sparse list, and the number of query tokens
/// that its text holds.
#[derive(Debug, PartialEq)]
pub struct Ranked {
    pub id: u64,
    pub text: String,
    pub source: String,
    pub dense_rank: Option<usize>,
    pub sparse_rank: Option<usize>,
    pub overlap: usize,
}

pub open spec fn is_dense(h: recall::HitView) -> bool {
    h.kind == "semantic"@
}

pub open spec fn is_sparse(h: recall::HitView) -> bool {
    h.kind == "keyword"@
}

/// The number of the first `n` query tokens that occur among `doc`.
pub open spec fn overlap_of(query: Seq<Seq<char>>, doc: Seq<Seq<char>>, n: int) -> nat
    decreases n,
{
    if n <= 0 {
        0
    } else {
        overlap_of(query, doc, n - 1) + (if doc.contains(query[n - 1]) {
            1nat
        } else {
            0
        })
    }
}

/// The number of query tokens that occur in a document.
pub fn token_overlap(query: &Vec<String>, doc: &Vec<String>) -> (r: usize)
    ensures
        r == overlap_of(
            tokens::text_views(query@),
            tokens::text_views(doc@),
            query@.len() as int,
        ),
{
    let ghost q = tokens::text_views(query@);
    let ghost d = tokens::text_views(doc@);
    let mut n: usize = 0;
    let mut i: usize = 0;
    while i < query.len()
        invariant
            q == tokens::text_views(query@),
            d == tokens::text_views(doc@),
            i <= query@.len(),
            n <= i,
            n == overlap_of(q, d, i as int),
        decreases query@.len() - i,
    {
        let mut held: bool = false;
        let mut j: usize = 0;
        while j < doc.len() && !held
            invariant
                i < query@.len(),
                q == tokens::text_views(query@),
                d == tokens::text_views(doc@),
                j <= doc@.len(),
                held ==> d.contains(q[i as int]),
                !held ==> forall|x: int| 0 <= x < j ==> #[trigger] d[x] != q[i as int],
            decreases doc@.len() - j, (if held { 0int } else { 1int }),
        {
            assert(d[j as int] == doc@[j as int]@);
            if doc[j] == query[i] {
                held = true;
            } else {
                j = j + 1;
            }
        }
        if held {
            n = n + 1;
        }
        i = i + 1;
    }
    n
}

/// The ranks of the hits: dense ones as they come, sparse ones by score.
#[derive(Debug, PartialEq)]
pub struct Ranks {
    /// Places of the dense hits, in rank order.
    pub dense: Vec<usize>,
    /// Places of the sparse hits, in rank order.
    pub sparse: Vec<usize>,
}

/// The places of the hits of a kind among the first `n`, in their order.
pub open spec fn places_of(hits: Seq<recall::HitView>, dense: bool, n: int) -> Seq<usize>
    decreases n,
{
    if n <= 0 {
        Seq::empty()
    } else {
        let rest = places_of(hits, dense, n - 1);
        let mine = if dense { is_dense(hits[n - 1]) } else { is_sparse(hits[n - 1]) };
        if mine {
            rest.push((n - 1) as usize)
        } else {
            rest
        }
    }
}

/// The scores at some places, as keys that put the highest first.
pub open spec fn keys_at(hits: Seq<recall::HitView>, at: Seq<usize>) -> Seq<i128> {
    Seq::new(at.len(), |i: int| (-order::float_key(hits[at[i] as int].score)) as i128)
}

/// Splits recalled hits into a dense and a sparse ranking.
pub fn rank_lists(hits: &Vec<RecallHit>) -> (r: Ranks)
    ensures
        r.dense@ == places_of(recall::hit_views(hits@), true, hits@.len() as int),
        sparse_ranking(recall::hit_views(hits@), r.sparse@),
        forall|i: int| 0 <= i < r.dense@.len() ==> (#[trigger] r.dense@[i]) < hits@.len(),
        forall|i: int| 0 <= i < r.sparse@.len() ==> (#[trigger] r.sparse@[i]) < hits@.len(),
{
    let ghost h = recall::hit_views(hits@);
    let mut dense: Vec<usize> = Vec::new();
    let mut places: Vec<usize> = Vec::new();
    let mut sort_keys: Vec<i128> = Vec::new();
    let mut i: usize = 0;
    proof {
        assert(sort_keys@ =~= keys_at(h, places@));
    }
    while i < hits.len()
        invariant
            h == recall::hit_views(hits@),
            i <= hits@.len(),
            dense@ == places_of(h, true, i as int),
            places@ == places_of(h, false, i as int),
            sort_keys@ == keys_at(h, places@),
            forall|k: int| 0 <= k < dense@.len() ==> (#[trigger] dense@[k]) < i,
            forall|k: int| 0 <= k < places@.len() ==> (#[trigger] places@[k]) < i,
        decreases hits@.len() - i,
    {
        let x = &hits[i];
        assert(h[i as int] == x@);
        if same_text(x.kind, "semantic") {
            dense.push(i);
        }
        if same_text(x.kind, "keyword") {
            places.push(i);
            sort_keys.push(-key_of(x.score));
            proof {
                assert(sort_keys@ =~= keys_at(h, places@));
            }
        }
        i = i + 1;
    }
    let p = sort_places(&sort_keys);
    let mut sparse: Vec<usize> = Vec::new();
    let mut j: usize = 0;
    while j < p.len()
        invariant
            order::stable_order(sort_keys@, p@),
            sort_keys@.len() == places@.len(),
            forall|k: int| 0 <= k < places@.len() ==> (#[trigger] places@[k]) < hits@.len(),
            j <= p@.len(),
            sparse@ == Seq::new(j as nat, |x: int| places@[p@[x] as int]),
            forall|k: int| 0 <= k < sparse@.len() ==> (#[trigger] sparse@[k]) < hits@.len(),
        decreases p@.len() - j,
    {
        sparse.push(places[p[j]]);
        j = j + 1;
        proof {
            assert(sparse@ =~= Seq::new(j as nat, |x: int| places@[p@[x] as int]));
        }
    }
    proof {
        let sp = places_of(h, false, h.len() as int);
        assert(sp == places@);
        assert(order::stable_order(keys_at(h, sp), p@));
        assert(sparse@ =~= Seq::new(sp.len(), |x: int| sp[p@[x] as int]));
    }
    Ranks { dense, sparse }
}

/// The last rank below `n` at which an id stands in a ranked list.
pub open spec fn rank_of(
    hits: Seq<recall::HitView>,
    places: Seq<usize>,
    id: u64,
    n: int,
) -> Option<usize>
    decreases n,
{
    if n <= 0 {
        None
    } else if hits[places[n - 1] as int].id == id {
        Some((n - 1) as usize)
    } else {
        rank_of(hits, places, id, n - 1)
    }
}

/// An id with its dense and its sparse rank.
#[derive(Clone, Copy, Debug, PartialEq, Eq, Structural)]
pub struct Fused {
    pub id: u64,
    pub dense_rank: Option<usize>,
    pub sparse_rank: Option<usize>,
}

pub open spec fn fused_under(r: Seq<Fused>, id: u64) -> bool {
    exists|i: int| 0 <= i < r.len() && (#[trigger] r[i]).id == id
}

/// `r` lists each id that stands in one of the two rankings once, with its ranks.
pub open spec fn fused_ranks(
    hits: Seq<recall::HitView>,
    dense: Seq<usize>,
    sparse: Seq<usize>,
    r: Seq<Fused>,
) -> bool {
    &&& forall|i: int|
        0 <= i < r.len() ==> {
            &&& (#[trigger] r[i]).dense_rank == rank_of(hits, dense, r[i].id, dense.len() as int)
            &&& r[i].sparse_rank == rank_of(hits, sparse, r[i].id, sparse.len() as int)
            &&& r[i].dense_rank is Some || r[i].sparse_rank is Some
        }
    &&& forall|i: int, j: int|
        0 <= i < j < r.len() ==> (#[trigger] r[i]).id != (#[trigger] r[j]).id
    &&& forall|i: int| 0 <= i < dense.len() ==> fused_under(r, hits[#[trigger] dense[i] as int].id)
    &&& forall|i: int|
        0 <= i < sparse.len() ==> fused_under(r, hits[#[trigger] sparse[i] as int].id)
}

fn find_rank(hits: &Vec<RecallHit>, places: &Vec<usize>, id: u64) -> (r: Option<usize>)
    requires
        forall|i: int| 0 <= i < places@.len() ==> (#[trigger] places@[i]) < hits@.len(),
    ensures
        r == rank_of(recall::hit_views(hits@), places@, id, places@.len() as int),
{
    let ghost h = recall::hit_views(hits@);
    let mut n: usize = places.len();
    while n > 0
        invariant
            h == recall::hit_views(hits@),
            n <= places@.len(),
            forall|i: int| 0 <= i < places@.len() ==> (#[trigger] places@[i]) < hits@.len(),
            rank_of(h, places@, id, places@.len() as int) == rank_of(h, places@, id, n as int),
        decreases n,
    {
        let p: usize = places[n - 1];
        assert(h[p as int] == hits@[p as int]@);
        if hits[p].id == id {
            return Some(n - 1);
        }
        n = n - 1;
    }
    None
}

proof fn lemma_ranked(hits: Seq<recall::HitView>, places: Seq<usize>, i: int, n: int)
    requires
        0 <= i < n <= places.len(),
    ensures
        rank_of(hits, places, hits[places[i] as int].id, n) is Some,
    decreases n,
{
    if i < n - 1 {
        lemma_ranked(hits, places, i, n - 1);
    }
}

/// Adds the ids of one ranking that are not listed yet.
fn fuse_list(
    hits: &Vec<RecallHit>,
    dense: &Vec<usize>,
    sparse: &Vec<usize>,
    from: &Vec<usize>,
    out: &mut Vec<Fused>,
)
    requires
        forall|i: int| 0 <= i < dense@.len() ==> (#[trigger] dense@[i]) < hits@.len(),
        forall|i: int| 0 <= i < sparse@.len() ==> (#[trigger] sparse@[i]) < hits@.len(),
        from@ == dense@ || from@ == sparse@,
        forall|i: int|
            0 <= i < old(out)@.len() ==> {
                &&& (#[trigger] old(out)@[i]).dense_rank == rank_of(
                    recall::hit_views(hits@),
                    dense@,
                    old(out)@[i].id,
                    dense@.len() as int,
                )
                &&& old(out)@[i].sparse_rank == rank_of(
                    recall::hit_views(hits@),
                    sparse@,
                    old(out)@[i].id,
                    sparse@.len() as int,
                )
                &&& old(out)@[i].dense_rank is Some || old(out)@[i].sparse_rank is Some
            },
        forall|i: int, j: int|
            0 <= i < j < old(out)@.len() ==> (#[trigger] old(out)@[i]).id != (#[trigger] old(
                out,
            )@[j]).id,
    ensures
        forall|i: int|
            0 <= i < final(out)@.len() ==> {
                &&& (#[trigger] final(out)@[i]).dense_rank == rank_of(
                    recall::hit_views(hits@),
                    dense@,
                    final(out)@[i].id,
                    dense@.len() as int,
                )
                &&& final(out)@[i].sparse_rank == rank_of(
                    recall::hit_views(hits@),
                    sparse@,
                    final(out)@[i].id,
                    sparse@.len() as int,
                )
                &&& final(out)@[i].dense_rank is Some || final(out)@[i].sparse_rank is Some
            },
        forall|i: int, j: int|
            0 <= i < j < final(out)@.len() ==> (#[trigger] final(out)@[i]).id != (#[trigger] final(out)@[j]).id,
        forall|id: u64| fused_under(old(out)@, id) ==> #[trigger] fused_under(final(out)@, id),
        forall|i: int|
            0 <= i < from@.len() ==> fused_under(
                final(out)@,
                recall::hit_views(hits@)[#[trigger] from@[i] as int].id,
            ),
{
    let ghost h = recall::hit_views(hits@);
    let ghost start = out@;
    let mut i: usize = 0;
    while i < from.len()
        invariant
            h == recall::hit_views(hits@),
            i <= from@.len(),
            forall|x: int| 0 <= x < dense@.len() ==> (#[trigger] dense@[x]) < hits@.len(),
            forall|x: int| 0 <= x < sparse@.len() ==> (#[trigger] sparse@[x]) < hits@.len(),
            from@ == dense@ || from@ == sparse@,
            forall|x: int|
                0 <= x < out@.len() ==> {
                    &&& (#[trigger] out@[x]).dense_rank == rank_of(
                        h,
                        dense@,
                        out@[x].id,
                        dense@.len() as int,
                    )
                    &&& out@[x].sparse_rank == rank_of(
                        h,
                        sparse@,
                        out@[x].id,
                        sparse@.len() as int,
                    )
                    &&& out@[x].dense_rank is Some || out@[x].sparse_rank is Some
                },
            forall|x: int, y: int|
                0 <= x < y < out@.len() ==> (#[trigger] out@[x]).id != (#[trigger] out@[y]).id,
            forall|id: u64| fused_under(start, id) ==> #[trigger] fused_under(out@, id),
            forall|x: int| 0 <= x < i ==> fused_under(out@, h[#[trigger] from@[x] as int].id),
        decreases from@.len() - i,
    {
        assert(from@[i as int] < hits@.len());
        let id: u64 = hits[from[i]].id;
        assert(h[from@[i as int] as int].id == id);
        let mut known: bool = false;
        let mut j: usize = 0;
        while j < out.len() && !known
            invariant
                j <= out@.len(),
                known ==> fused_under(out@, id),
                !known ==> forall|x: int| 0 <= x < j ==> (#[trigger] out@[x]).id != id,
            decreases out@.len() - j, (if known { 0int } else { 1int }),
        {
            if out[j].id == id {
                assert(out@[j as int].id == id);
                known = true;
            } else {
                j = j + 1;
            }
        }
        if !known {
            let ghost before = out@;
            proof {
                lemma_ranked(h, from@, i as int, from@.len() as int);
            }
            out.push(
                Fused {
                    id,
                    dense_rank: find_rank(hits, dense, id),
                    sparse_rank: find_rank(hits, sparse, id),
                },
            );
            proof {
                assert forall|q: u64| fused_under(before, q) implies #[trigger] fused_under(
                    out@,
                    q,
                ) by {
                    let x = choose|x: int| 0 <= x < before.len() && (#[trigger] before[x]).id == q;
                    assert(out@[x].id == q);
                }
                assert(out@[before.len() as int].id == id);
                assert(fused_under(out@, id));
                assert forall|x: int| 0 <= x < i implies fused_under(
                    out@,
                    h[#[trigger] from@[x] as int].id,
                ) by {
                    assert(fused_under(before, h[from@[x] as int].id));
                }
            }
        }
        i = i + 1;
    }
}

/// Fuses the two rankings: each id once, with its place in either.
pub fn fuse_ranks(hits: &Vec<RecallHit>, ranks: &Ranks) -> (r: Vec<Fused>)
    requires
        forall|i: int| 0 <= i < ranks.dense@.len() ==> (#[trigger] ranks.dense@[i]) < hits@.len(),
        forall|i: int| 0 <= i < ranks.sparse@.len() ==> (#[trigger] ranks.sparse@[i]) < hits@.len(),
    ensures
        fused_ranks(recall::hit_views(hits@), ranks.dense@, ranks.sparse@, r@),
{
    let ghost h = recall::hit_views(hits@);
    let mut out: Vec<Fused> = Vec::new();
    fuse_list(hits, &ranks.dense, &ranks.sparse, &ranks.dense, &mut out);
    let ghost mid = out@;
    fuse_list(hits, &ranks.dense, &ranks.sparse, &ranks.sparse, &mut out);
    proof {
        assert forall|i: int| 0 <= i < ranks.dense@.len() implies fused_under(
            out@,
            h[#[trigger] ranks.dense@[i] as int].id,
        ) by {
            assert(fused_under(mid, h[ranks.dense@[i] as int].id));
        }
    }
    out
}

/// A hit that still stands in the store, with its ranks and its token overlap.
pub fn rank_hit(
    mem: &Memory,
    s: &Store,
    query: &str,
    id: u64,
    dense_rank: Option<usize>,
    sparse_rank: Option<usize>,
) -> (r: Option<Ranked>)
    requires
        s.wf(),
    ensures
        match memory::ltm_for(s@, id) {
            None => r is None,
            Some((t, m)) => r matches Some(x) && x.id == id && x.text@ == t && x.source@ == m.source
                && x.dense_rank == dense_rank && x.sparse_rank == sparse_rank && x.overlap
                == overlap_of(
                tokens::tokens(query@),
                tokens::tokens(t),
                tokens::tokens(query@).len() as int,
            ),
        },
{
    match mem.ltm_get(s, id) {
        None => None,
        Some(rec) => {
            let q = tokenize(query);
            let d = tokenize(rec.text.as_str());
            let overlap = token_overlap(&q, &d);
            Some(
                Ranked {
                    id,
                    text: rec.text,
                    source: rec.meta.source,
                    dense_rank,
                    sparse_rank,
                    overlap,
                },
            )
        },
    }
}

/// What a ranked chunk says.
pub struct RankedView {
    pub id: u64,
    pub text: Seq<char>,
    pub source: Seq<char>,
    pub dense_rank: Option<usize>,
    pub sparse_rank: Option<usize>,
    pub overlap: nat,
}

impl View for Ranked {
    type V = RankedView;

    open spec fn view(&self) -> RankedView {
        RankedView {
            id: self.id,
            text: self.text@,
            source: self.source@,
            dense_rank: self.dense_rank,
            sparse_rank: self.sparse_rank,
            overlap: self.overlap as nat,
        }
    }
}

pub open spec fn ranked_views(s: Seq<Ranked>) -> Seq<RankedView> {
    Seq::new(s.len(), |i: int| s[i]@)
}

/// The chunks of a fused ranking that still stand in the store.
pub open spec fn materialised(s: memory::Rows, query: Seq<char>, f: Seq<Fused>) -> Seq<RankedView>
    decreases f.len(),
{
    if f.len() == 0 {
        Seq::empty()
    } else {
        let rest = materialised(s, query, f.drop_last());
        let c = f.last();
        match memory::ltm_for(s, c.id) {
            None => rest,
            Some((t, m)) => rest.push(
                RankedView {
                    id: c.id,
                    text: t,
                    source: m.source,
                    dense_rank: c.dense_rank,
                    sparse_rank: c.sparse_rank,
                    overlap: overlap_of(
                        tokens::tokens(query),
                        tokens::tokens(t),
                        tokens::tokens(query).len() as int,
                    ),
                },
            ),
        }
    }
}

/// The places of the sparse hits, best score first.
pub open spec fn sparse_ranking(h: Seq<recall::HitView>, sparse: Seq<usize>) -> bool {
    let sp = places_of(h, false, h.len() as int);
    exists|p: Seq<usize>|
        #![trigger order::stable_order(keys_at(h, sp), p)]
        order::stable_order(keys_at(h, sp), p) && sparse == Seq::new(
            sp.len(),
            |i: int| sp[p[i] as int],
        )
}

pub open spec fn pool_of(k: nat) -> nat {
    if 4 * k > 20 {
        4 * k
    } else {
        20
    }
}

/// `r` comes from recalling `h`, ranking it, and fusing the ranks to `f`.
pub open spec fn fused_from(
    s: memory::Rows,
    scope: Seq<char>,
    now: u64,
    query: Seq<char>,
    all: Seq<recall::Scored>,
    k: nat,
    h: Seq<recall::HitView>,
    sparse: Seq<usize>,
    f: Seq<Fused>,
    r: Seq<RankedView>,
) -> bool {
    &&& recall::recalled(s, scope, now, all, pool_of(k), h)
    &&& sparse_ranking(h, sparse)
    &&& fused_ranks(h, places_of(h, true, h.len() as int), sparse, f)
    &&& r == materialised(s, query, f)
}

pub open spec fn result_keys(s: Seq<RetrievedView>) -> Seq<i128> {
    Seq::new(s.len(), |i: int| (-order::float_key(s[i].score)) as i128)
}

/// `r` is the `k` best of `all`, best first, equal scores in their order.
pub open spec fn best_of(all: Seq<RetrievedView>, k: nat, r: Seq<RetrievedView>) -> bool {
    exists|p: Seq<usize>|
        #![trigger order::stable_order(result_keys(all), p)]
        order::stable_order(result_keys(all), p) && r == Seq::new(
            recall::at_most(all.len(), k),
            |i: int| all[p[i] as int],
        )
}

/// Keeps the `k` results with the highest scores, highest first.
pub fn top_results(all: &Vec<Retrieved>, k: usize) -> (r: Vec<Retrieved>)
    ensures
        best_of(retrieved_views(all@), k as nat, retrieved_views(r@)),
{
    let ghost v = retrieved_views(all@);
    let mut sort_keys: Vec<i128> = Vec::new();
    let mut i: usize = 0;
    while i < all.len()
        invariant
            i <= all@.len(),
            sort_keys@.len() == i,
            forall|x: int|
                0 <= x < i ==> #[trigger] sort_keys@[x] == -order::float_key(all@[x].score),
        decreases all@.len() - i,
    {
        sort_keys.push(-key_of(all[i].score));
        i = i + 1;
    }
    proof {
        assert(sort_keys@ =~= result_keys(v));
    }
    let p = sort_places(&sort_keys);
    let n: usize = if all.len() < k { all.len() } else { k };
    let mut out: Vec<Retrieved> = Vec::new();
    let mut j: usize = 0;
    proof {
        assert(retrieved_views(out@) =~= Seq::<RetrievedView>::empty());
    }
    while j < n
        invariant
            v == retrieved_views(all@),
            order::stable_order(sort_keys@, p@),
            sort_keys@.len() == all@.len(),
            j <= n <= all@.len(),
            retrieved_views(out@) == Seq::new(j as nat, |x: int| v[p@[x] as int]),
        decreases n - j,
    {
        let c = all[p[j]].clone();
        let ghost before = out@;
        let ghost w = c@;
        out.push(c);
        j = j + 1;
        proof {
            assert(w == v[p@[j - 1] as int]);
            assert(retrieved_views(out@) =~= retrieved_views(before).push(w));
            assert(retrieved_views(out@) =~= Seq::new(j as nat, |x: int| v[p@[x] as int]));
        }
    }
    proof {
        assert(order::stable_order(result_keys(v), p@));
    }
    out
}

/// The context block of the first `n` results: their number, source and text.
pub open spec fn context_of(hits: Seq<RetrievedView>, n: int) -> Seq<char>
    decreases n,
{
    if n <= 0 {
        Seq::empty()
    } else {
        context_of(hits, n - 1) + "["@ + text::dec_text(n as nat) + "] ("@ + hits[n - 1].source
            + ") "@ + hits[n - 1].text + "\n"@
    }
}

/// Writes results as the prompt's context block.
fn write_context(hits: &Vec<Retrieved>) -> (r: String)
    ensures
        r@ == context_of(retrieved_views(hits@), hits@.len() as int),
{
    let ghost v = retrieved_views(hits@);
    let mut s: String = String::new();
    let mut i: usize = 0;
    while i < hits.len()
        invariant
            v == retrieved_views(hits@),
            i <= hits@.len(),
            s@ == context_of(v, i as int),
        decreases hits@.len() - i,
    {
        s.append("[");
        s.append(dec_string(i as u64 + 1).as_str());
        s.append("] (");
        s.append(hits[i].source.as_str());
        s.append(") ");
        s.append(hits[i].text.as_str());
        s.append("\n");
        i = i + 1;
        proof {
            assert(v[i - 1] == hits@[i - 1]@);
        }
    }
    s
}

// ── the cached form of a result list ──────────────────────────────────────

/// An id and the bits of a score.
pub open spec fn pair_bytes(p: (u64, u32)) -> Seq<u8> {
    codec::le(p.0 as nat, 8) + codec::le(p.1 as nat, 4)
}

pub open spec fn pairs_bytes(ps: Seq<(u64, u32)>) -> Seq<u8>
    decreases ps.len(),
{
    if ps.len() == 0 {
        Seq::empty()
    } else {
        pairs_bytes(ps.drop_last()) + pair_bytes(ps.last())
    }
}

/// The low four bytes of the number of pairs, then the pairs.
pub open spec fn list_bytes(ps: Seq<(u64, u32)>) -> Seq<u8> {
    codec::le(ps.len(), 4) + pairs_bytes(ps)
}

pub open spec fn pairs_in(v: Seq<RetrievedView>) -> Seq<(u64, u32)> {
    Seq::new(v.len(), |i: int| (v[i].id, v[i].score))
}

/// The pair at `p`.
pub open spec fn pair_at(buf: Seq<u8>, p: int) -> (u64, u32) {
    (
        codec::le_value(buf.subrange(p, p + 8)) as u64,
        codec::le_value(buf.subrange(p + 8, p + 12)) as u32,
    )
}

/// The pairs of a stored list, where all that it announces are there.
pub open spec fn list_of(buf: Seq<u8>) -> Option<Seq<(u64, u32)>> {
    if buf.len() < 4 {
        None
    } else {
        let n = codec::le_value(buf.subrange(0, 4));
        if 4 + 12 * n > buf.len() {
            None
        } else {
            Some(Seq::new(n, |i: int| pair_at(buf, 4 + 12 * i)))
        }
    }
}

/// Encodes the ids and scores of a result list.
pub fn encode_ids(items: &Vec<Retrieved>) -> (r: Vec<u8>)
    ensures
        r@ == list_bytes(pairs_in(retrieved_views(items@))),
{
    let ghost ps = pairs_in(retrieved_views(items@));
    let mut out: Vec<u8> = Vec::new();
    push_le(&mut out, items.len() as u64, 4);
    let ghost head = out@;
    let mut i: usize = 0;
    proof {
        assert(head =~= codec::le(ps.len(), 4));
        assert(ps.take(0).len() == 0);
        assert(out@ =~= head + pairs_bytes(ps.take(0)));
    }
    while i < items.len()
        invariant
            ps == pairs_in(retrieved_views(items@)),
            i <= items@.len(),
            out@ == head + pairs_bytes(ps.take(i as int)),
        decreases items@.len() - i,
    {
        push_le(&mut out, items[i].id, 8);
        push_le(&mut out, items[i].score as u64, 4);
        i = i + 1;
        proof {
            let t = ps.take(i as int);
            assert(t.drop_last() =~= ps.take(i - 1));
            assert(t.last() == ps[i - 1]);
            assert(out@ =~= head + pairs_bytes(t));
        }
    }
    proof {
        assert(ps.take(i as int) =~= ps);
    }
    out
}

/// Decodes the ids and scores of a result list.
pub fn decode_ids(buf: &Vec<u8>) -> (r: Option<Vec<(u64, u32)>>)
    ensures
        match r {
            Some(v) => list_of(buf@) == Some(v@),
            None => list_of(buf@) is None,
        },
{
    proof {
        codec::lemma_limits();
    }
    if buf.len() < 4 {
        return None;
    }
    let n: u64 = read_le(buf.as_slice(), 0, 4);
    if n > ((buf.len() - 4) / 12) as u64 {
        return None;
    }
    let mut out: Vec<(u64, u32)> = Vec::new();
    let mut p: usize = 4;
    let mut i: u64 = 0;
    while i < n
        invariant
            4 + 12 * n <= buf@.len(),
            i <= n,
            p == 4 + 12 * i,
            out@ == Seq::new(i as nat, |k: int| pair_at(buf@, 4 + 12 * k)),
            codec::bytes_limit(8) == 0x1_0000_0000_0000_0000,
            codec::bytes_limit(4) == 0x1_0000_0000,
        decreases n - i,
    {
        let size: usize = buf.len();
        assert(p + 12 <= size);
        let id: u64 = read_le(buf.as_slice(), p, 8);
        let score: u32 = read_le(buf.as_slice(), p + 8, 4) as u32;
        out.push((id, score));
        p = p + 12;
        i = i + 1;
        proof {
            assert(out@ =~= Seq::new(i as nat, |k: int| pair_at(buf@, 4 + 12 * k)));
        }
    }
    Some(out)
}

proof fn lemma_pairs_bytes(ps: Seq<(u64, u32)>, i: int)
    ensures
        pairs_bytes(ps).len() == 12 * ps.len(),
        0 <= i < ps.len() ==> pairs_bytes(ps).subrange(12 * i, 12 * i + 12) == pair_bytes(ps[i]),
    decreases ps.len(),
{
    if ps.len() > 0 {
        let front = ps.drop_last();
        lemma_pairs_bytes(front, i);
        codec::lemma_le_len(ps.last().0 as nat, 8);
        codec::lemma_le_len(ps.last().1 as nat, 4);
        let all = pairs_bytes(ps);
        if 0 <= i < front.len() {
            assert(all.subrange(12 * i, 12 * i + 12) =~= pairs_bytes(front).subrange(
                12 * i,
                12 * i + 12,
            ));
        } else if i == front.len() {
            assert(all.subrange(12 * i, 12 * i + 12) =~= pair_bytes(ps.last()));
        }
    }
}

/// A result list reads back as it was cached.
pub proof fn law_list_round_trip(ps: Seq<(u64, u32)>)
    requires
        ps.len() < 0x1_0000_0000,
    ensures
        list_of(list_bytes(ps)) == Some(ps),
{
    let buf = list_bytes(ps);
    codec::lemma_limits();
    codec::law_bytes_round_trip(ps.len(), 4);
    lemma_pairs_bytes(ps, 0);
    assert(buf.subrange(0, 4) =~= codec::le(ps.len(), 4));
    assert forall|i: int| 0 <= i < ps.len() implies #[trigger] pair_at(buf, 4 + 12 * i) == ps[i] by {
        lemma_pairs_bytes(ps, i);
        let b = pair_bytes(ps[i]);
        let p = 4 + 12 * i;
        codec::law_bytes_round_trip(ps[i].0 as nat, 8);
        codec::law_bytes_round_trip(ps[i].1 as nat, 4);
        assert(buf.subrange(p, p + 12) =~= b) by {
            assert(buf.subrange(p, p + 12) =~= pairs_bytes(ps).subrange(12 * i, 12 * i + 12));
        }
        assert(buf.subrange(p, p + 8) =~= buf.subrange(p, p + 12).subrange(0, 8));
        assert(buf.subrange(p + 8, p + 12) =~= buf.subrange(p, p + 12).subrange(8, 12));
        assert(b.subrange(0, 8) =~= codec::le(ps[i].0 as nat, 8));
        assert(b.subrange(8, 12) =~= codec::le(ps[i].1 as nat, 4));
    }
    assert(list_of(buf)->0 =~= ps);
}

// ── the engine ────────────────────────────────────────────────────────────

/// The name under which the source keeps the corpus generation.
pub open spec fn gen_name() -> Seq<char> {
    "rag:corpus_gen"@
}

/// The generation of the corpus, 0 where none can be read.
pub open spec fn generation(s: memory::Rows) -> u64 {
    match mitm::source_value(s, gen_name()) {
        Some(b) => match text::unsigned_of(reply::shown(b), u64::MAX as nat) {
            Some(n) => n as u64,
            None => 0,
        },
        None => 0,
    }
}

/// The name of a cached query: the generation, the asking agent with the length of its name,
/// the number of results, and the query.
pub open spec fn query_name(gen: u64, scope: Seq<char>, k: nat, query: Seq<char>) -> Seq<char> {
    "rag:q:"@ + text::dec_text(gen as nat) + ":"@ + text::dec_text(scope.len()) + ":"@ + scope
        + ":"@ + text::dec_text(k) + ":"@ + query
}

/// The cached results that the store still holds and whose validity has not ended.
pub open spec fn revived(s: memory::Rows, now: u64, ps: Seq<(u64, u32)>) -> Seq<RetrievedView>
    decreases ps.len(),
{
    if ps.len() == 0 {
        Seq::empty()
    } else {
        let rest = revived(s, now, ps.drop_last());
        match memory::ltm_for(s, ps.last().0) {
            Some((t, m)) => if recall::ended(m, now) {
                rest
            } else {
                rest.push(
                    RetrievedView {
                        id: ps.last().0,
                        text: t,
                        score: ps.last().1,
                        source: m.source,
                        dense_rank: None,
                        sparse_rank: None,
                    },
                )
            },
            None => rest,
        }
    }
}

/// What the cache serves for a query, if anything: not what is stale, and not what cannot
/// be decoded.
pub open spec fn served(d: DebugView, s: memory::Rows, now: u64, name: Seq<char>) -> Option<
    Seq<RetrievedView>,
> {
    match mitm::cached_value(d.cache, name) {
        None => None,
        Some(b) => if mitm::verdict_of(Some(b), mitm::source_value(s, name)).bug() {
            None
        } else {
            match list_of(b) {
                None => None,
                Some(ps) => Some(revived(s, now, ps)),
            }
        },
    }
}

/// The retrieval engine: agent memory, and a query cache that is watched.
pub struct Rag {
    memory: Memory,
    cache: CacheDebugger,
}

impl View for Rag {
    type V = (MemoryView, DebugView);

    closed spec fn view(&self) -> (MemoryView, DebugView) {
        (self.memory@, self.cache@)
    }
}

impl Rag {
    pub closed spec fn wf(&self) -> bool {
        self.memory.wf() && self.cache.wf()
    }

    /// Takes up what the store holds.
    pub fn open(s: &Store) -> (r: Self)
        requires
            s.wf(),
            memory::max_id(memory::ltm_rows(s.rows())) < u64::MAX,
        ensures
            r.wf(),
            r@.0 == (MemoryView {
                next_id: (memory::max_id(memory::ltm_rows(s.rows())) + 1) as u64,
                ltm_count: memory::ltm_rows(s.rows()).len() as u64,
                ep_seq: 0,
                ep_least: memory::episodes_left(s.rows()),
                salience: memory::saliences(memory::ltm_rows(s.rows()), s@),
            }),
            r@.1 == (DebugView {
                cache: Map::empty(),
                ver: Map::empty(),
                traces: Seq::empty(),
                seq: 0,
                max_traces: 4096,
            }),
    {
        Rag { memory: Memory::open(s), cache: CacheDebugger::new(4096) }
    }

    /// The agent memory beneath.
    pub fn memory(&self) -> (r: &Memory)
        ensures
            r@ == self@.0,
            self.wf() ==> r.wf(),
    {
        &self.memory
    }

    /// The watched query cache.
    pub fn cache(&self) -> (r: &CacheDebugger)
        ensures
            r@ == self@.1,
            self.wf() ==> r.wf(),
    {
        &self.cache
    }

    fn corpus_gen(&self, s: &Store) -> (r: u64)
        requires
            s.wf(),
        ensures
            r == generation(s@),
    {
        match self.cache.source_get(s, "rag:corpus_gen") {
            Some(b) => match parse_unsigned(
                &chars_of(text_of(b.as_slice()).as_str()),
                u64::MAX,
            ) {
                Some(n) => n,
                None => 0,
            },
            None => 0,
        }
    }

    /// Whether the counters leave room for another document.
    pub fn can_ingest(&self, s: &Store) -> (r: bool)
        requires
            self.wf(),
            s.wf(),
        ensures
            r == (self@.0.next_id < u64::MAX && generation(s@) < u64::MAX && mitm::version_of(
                self@.1.ver,
                gen_name(),
            ) < u64::MAX),
    {
        self.memory.has_room() && self.corpus_gen(s) < u64::MAX && self.cache.has_room(
            "rag:corpus_gen",
        )
    }

    /// Whether the counters leave room for the results of a query.
    pub fn can_remember(&self, s: &Store, scope: &str, query: &str, k: usize) -> (r: bool)
        requires
            self.wf(),
            s.wf(),
        ensures
            r == (mitm::version_of(
                self@.1.ver,
                query_name(generation(s@), scope@, k as nat, query@),
            ) < u64::MAX),
    {
        let name = self.cache_name(s, scope, query, k);
        self.cache.has_room(name.as_str())
    }

    /// Raises the corpus generation, so that no cached result is served any more.
    pub fn invalidate_query_cache(&mut self, s: &mut Store)
        requires
            old(self).wf(),
            old(s).wf(),
            generation(old(s)@) < u64::MAX,
            mitm::version_of(old(self)@.1.ver, gen_name()) < u64::MAX,
        ensures
            final(self).wf(),
            final(s).wf(),
            final(self)@.0 == old(self)@.0,
            final(self)@.1 == (DebugView {
                ver: old(self)@.1.ver.insert(
                    gen_name(),
                    (mitm::version_of(old(self)@.1.ver, gen_name()) + 1) as u64,
                ),
                ..old(self)@.1
            }),
            final(s)@ == old(s)@.insert(
                mitm::source_key(gen_name()),
                store::ValueView::Bytes(text::dec((generation(old(s)@) + 1) as nat)),
            ),
            generation(final(s)@) == generation(old(s)@) + 1,
    {
        let gen: u64 = self.corpus_gen(s);
        let mut d: Vec<u8> = Vec::new();
        push_dec(&mut d, gen + 1);
        proof {
            assert(d@ =~= text::dec((gen + 1) as nat));
            text::lemma_dec_decodes((gen + 1) as nat);
            text::lemma_dec_text_unsigned((gen + 1) as nat, u64::MAX as nat);
        }
        let _v = self.cache.source_set(s, "rag:corpus_gen", d.as_slice());
    }

    /// Stores a chunk and raises the corpus generation. The caller puts the embedding
    /// into the vector index under the id that comes back.
    pub fn ingest(&mut self, s: &mut Store, text: &str, source: &str, owner: &str, ts: u64) -> (r:
        u64)
        requires
            old(self).wf(),
            old(s).wf(),
            old(self)@.0.next_id < u64::MAX,
            mitm::version_of(old(self)@.1.ver, gen_name()) < u64::MAX,
            generation(old(s)@) < u64::MAX,
        ensures
            final(self).wf(),
            final(s).wf(),
            r == old(self)@.0.next_id,
            final(self)@.0 == (MemoryView {
                next_id: (r + 1) as u64,
                ltm_count: old(self)@.0.ltm_count.wrapping_add(1),
                salience: old(self)@.0.salience.insert(r, INGEST_SALIENCE),
                ..old(self)@.0
            }),
            final(self)@.1 == (DebugView {
                ver: old(self)@.1.ver.insert(
                    gen_name(),
                    (mitm::version_of(old(self)@.1.ver, gen_name()) + 1) as u64,
                ),
                ..old(self)@.1
            }),
            ({
                let m = keys::MetaView {
                    source: source@,
                    created_ts: ts,
                    salience: INGEST_SALIENCE,
                    lineage: "rag:ingest"@,
                    valid_from: ts,
                    valid_to: 0,
                    owner: owner@,
                };
                final(s)@ == memory::stored(old(s)@, r, text@, m).insert(
                    mitm::source_key(gen_name()),
                    store::ValueView::Bytes(text::dec((generation(old(s)@) + 1) as nat)),
                )
            }),
            generation(final(s)@) == generation(old(s)@) + 1,
    {
        let ghost before = s@;
        let id = self.memory.ltm_store(
            s,
            text,
            source,
            INGEST_SALIENCE,
            "rag:ingest",
            owner,
            ts,
        );
        proof {
            lemma_store_keeps_generation(before, s@, id, text@);
        }
        self.invalidate_query_cache(s);
        id
    }

    /// Retrieves for an agent: of the index and keyword candidates with their scores, the
    /// chunks that the agent may see and that have not ended by `now`, each once, with its dense and sparse rank and its
    /// token overlap. The fused scores follow from these, and [`top_results`] keeps the best.
    pub fn retrieve_scoped(
        &self,
        s: &Store,
        scope: &str,
        query: &str,
        all: &Vec<Scored>,
        k: usize,
        now: u64,
    ) -> (r: Vec<Ranked>)
        requires
            s.wf(),
            12 * k <= usize::MAX,
        ensures
            exists|h: Seq<recall::HitView>, sparse: Seq<usize>, f: Seq<Fused>| #[trigger]
                fused_from(
                    s@,
                    scope@,
                    now,
                    query@,
                    all@,
                    k as nat,
                    h,
                    sparse,
                    f,
                    ranked_views(r@),
                ),
    {
        let pool: usize = pool_size(k);
        let hits = self.memory.recall_scoped(s, scope, all, pool, now);
        let ranks = rank_lists(&hits);
        let fused = fuse_ranks(&hits, &ranks);
        let mut out: Vec<Ranked> = Vec::new();
        let mut i: usize = 0;
        proof {
            assert(fused@.take(0).len() == 0);
            assert(ranked_views(out@) =~= Seq::<RankedView>::empty());
        }
        while i < fused.len()
            invariant
                s.wf(),
                i <= fused@.len(),
                ranked_views(out@) == materialised(s@, query@, fused@.take(i as int)),
            decreases fused@.len() - i,
        {
            proof {
                let t = fused@.take(i + 1);
                assert(t.drop_last() =~= fused@.take(i as int));
                assert(t.last() == fused@[i as int]);
            }
            let f: Fused = fused[i];
            match rank_hit(&self.memory, s, query, f.id, f.dense_rank, f.sparse_rank) {
                Some(x) => {
                    let ghost before = out@;
                    let ghost v = x@;
                    out.push(x);
                    proof {
                        assert(ranked_views(out@) =~= ranked_views(before).push(v));
                    }
                },
                None => {},
            }
            i = i + 1;
        }
        proof {
            assert(fused@.take(i as int) =~= fused@);
            let h = recall::hit_views(hits@);
            assert(fused_from(
                s@,
                scope@,
                now,
                query@,
                all@,
                k as nat,
                h,
                ranks.sparse@,
                fused@,
                ranked_views(out@),
            ));
        }
        out
    }

    /// The prompt's context block: the `k` best of the scored chunks, numbered from 1.
    pub fn context_block(&self, scored: &Vec<Retrieved>, k: usize) -> (r: String)
        ensures
            exists|top: Seq<RetrievedView>| #[trigger]
                best_of(retrieved_views(scored@), k as nat, top) && r@ == context_of(
                    top,
                    top.len() as int,
                ),
    {
        let hits = top_results(scored, k);
        let r = write_context(&hits);
        proof {
            assert(best_of(retrieved_views(scored@), k as nat, retrieved_views(hits@)));
        }
        r
    }

    /// Looks a query up in the cache: the results, where the cache may serve them, without
    /// those whose validity has ended by `now`.
    pub fn retrieve_cached(
        &mut self,
        s: &Store,
        scope: &str,
        query: &str,
        k: usize,
        now: u64,
    ) -> (r: Option<Vec<Retrieved>>)
        requires
            old(self).wf(),
            s.wf(),
        ensures
            final(self).wf(),
            final(self)@.0 == old(self)@.0,
            ({
                let name = query_name(generation(s@), scope@, k as nat, query@);
                &&& final(self)@.1 == (DebugView {
                    seq: old(self)@.1.seq.wrapping_add(1),
                    traces: mitm::recorded(
                        old(self)@.1.traces,
                        mitm::get_trace(old(self)@.1, s@, name),
                        old(self)@.1.max_traces,
                    ),
                    ..old(self)@.1
                })
                &&& match r {
                    Some(v) => served(old(self)@.1, s@, now, name) == Some(retrieved_views(v@)),
                    None => served(old(self)@.1, s@, now, name) is None,
                }
            }),
    {
        let name = self.cache_name(s, scope, query, k);
        let (cached, verdict) = self.cache.cache_get(s, name.as_str());
        match cached {
            None => None,
            Some(b) => {
                if verdict.is_bug() {
                    return None;
                }
                match decode_ids(&b) {
                    None => None,
                    Some(ps) => Some(self.revive(s, &ps, now)),
                }
            },
        }
    }

    fn cache_name(&self, s: &Store, scope: &str, query: &str, k: usize) -> (r: String)
        requires
            s.wf(),
        ensures
            r@ == query_name(generation(s@), scope@, k as nat, query@),
    {
        let mut name: String = "rag:q:".to_owned();
        name.append(dec_string(self.corpus_gen(s)).as_str());
        name.append(":");
        name.append(dec_string(scope.unicode_len() as u64).as_str());
        name.append(":");
        name.append(scope);
        name.append(":");
        name.append(dec_string(k as u64).as_str());
        name.append(":");
        name.append(query);
        name
    }

    fn revive(&self, s: &Store, ps: &Vec<(u64, u32)>, now: u64) -> (r: Vec<Retrieved>)
        requires
            s.wf(),
        ensures
            retrieved_views(r@) == revived(s@, now, ps@),
    {
        let mut out: Vec<Retrieved> = Vec::new();
        let mut i: usize = 0;
        proof {
            assert(retrieved_views(out@) =~= Seq::<RetrievedView>::empty());
        }
        while i < ps.len()
            invariant
                s.wf(),
                i <= ps@.len(),
                retrieved_views(out@) == revived(s@, now, ps@.take(i as int)),
            decreases ps@.len() - i,
        {
            proof {
                let t = ps@.take(i + 1);
                assert(t.drop_last() =~= ps@.take(i as int));
                assert(t.last() == ps@[i as int]);
            }
            let (id, score) = ps[i];
            match self.memory.ltm_get(s, id) {
                Some(rec) => if rec.meta.valid_to == 0 || rec.meta.valid_to > now {
                    let x = Retrieved {
                        id,
                        text: rec.text,
                        score,
                        source: rec.meta.source,
                        dense_rank: None,
                        sparse_rank: None,
                    };
                    let ghost before = out@;
                    let ghost v = x@;
                    out.push(x);
                    proof {
                        assert(retrieved_views(out@) =~= retrieved_views(before).push(v));
                    }
                },
                None => {},
            }
            i = i + 1;
        }
        proof {
            assert(ps@.take(i as int) =~= ps@);
        }
        out
    }

    /// Caches the results of a query under the present generation, and tells the source,
    /// so that staleness can be noticed.
    pub fn remember(
        &mut self,
        s: &mut Store,
        scope: &str,
        query: &str,
        k: usize,
        results: &Vec<Retrieved>,
    )
        requires
            old(self).wf(),
            old(s).wf(),
            mitm::version_of(
                old(self)@.1.ver,
                query_name(generation(old(s)@), scope@, k as nat, query@),
            ) < u64::MAX,
        ensures
            final(self).wf(),
            final(s).wf(),
            final(self)@.0 == old(self)@.0,
            ({
                let name = query_name(generation(old(s)@), scope@, k as nat, query@);
                let payload = list_bytes(pairs_in(retrieved_views(results@)));
                let ver = (mitm::version_of(old(self)@.1.ver, name) + 1) as u64;
                &&& final(s)@ == old(s)@.insert(
                    mitm::source_key(name),
                    store::ValueView::Bytes(payload),
                )
                &&& final(self)@.1.cache == old(self)@.1.cache.insert(name, (payload, ver))
                &&& final(self)@.1.ver == old(self)@.1.ver.insert(name, ver)
                &&& final(self)@.1.seq == old(self)@.1.seq.wrapping_add(1)
                &&& final(self)@.1.max_traces == old(self)@.1.max_traces
                &&& final(self)@.1.traces == mitm::recorded(
                    old(self)@.1.traces,
                    (mitm::TraceView {
                        seq: old(self)@.1.seq.wrapping_add(1),
                        op: "SET"@,
                        key: name,
                        verdict: mitm::Verdict::Hit,
                        cached_ver: ver,
                        engine_ver: ver,
                        note: "cache populated"@,
                    }),
                    old(self)@.1.max_traces,
                )
            }),
    {
        let name = self.cache_name(s, scope, query, k);
        let payload = encode_ids(results);
        let _v = self.cache.source_set(s, name.as_str(), payload.as_slice());
        self.cache.cache_set(name.as_str(), payload.as_slice());
    }
}

/// Storing a memory leaves the corpus generation as it was.
proof fn lemma_store_keeps_generation(before: memory::Rows, after: memory::Rows, id: u64, t: Seq<char>)
    requires
        exists|m: keys::MetaView| after == #[trigger] memory::stored(before, id, t, m),
    ensures
        generation(after) == generation(before),
{
    let m = choose|m: keys::MetaView| after == #[trigger] memory::stored(before, id, t, m);
    let k = mitm::source_key(gen_name());
    assert(k[0] == 115);
    let base = before.insert(
        memory::ltm_at(id),
        store::ValueView::Bytes(vstd::utf8::encode_utf8(t)),
    ).insert(memory::meta_at(id), store::ValueView::Bytes(keys::meta_bytes(m)));
    assert(memory::ltm_at(id)[0] == 109 && memory::meta_at(id)[0] == 109);
    lemma_postings_leave_source(base, tokens::tokens(t), id, k);
}

proof fn lemma_postings_leave_source(s: memory::Rows, toks: Seq<Seq<char>>, id: u64, key: Seq<u8>)
    requires
        key.len() > 0,
        key[0] == 115,
    ensures
        memory::with_postings(s, toks, id).contains_key(key) == s.contains_key(key),
        s.contains_key(key) ==> memory::with_postings(s, toks, id)[key] == s[key],
    decreases toks.len(),
{
    if toks.len() > 0 {
        lemma_postings_leave_source(s, toks.drop_last(), id, key);
        assert(memory::kw_at(toks.last(), id)[0] == 109);
    }
}

/// What was cached is served as long as the generation stays: the same list, in the same
/// order, of the chunks that are still stored and have not ended.
pub proof fn law_cached_results_are_served(
    d: DebugView,
    s: memory::Rows,
    now: u64,
    name: Seq<char>,
    ps: Seq<(u64, u32)>,
    ver: u64,
)
    requires
        ps.len() < 0x1_0000_0000,
        d.cache.contains_key(name),
        d.cache[name] == (list_bytes(ps), ver),
        mitm::source_value(s, name) == Some(list_bytes(ps)),
    ensures
        served(d, s, now, name) == Some(revived(s, now, ps)),
{
    law_list_round_trip(ps);
}

proof fn lemma_revived_sound(s: memory::Rows, now: u64, ps: Seq<(u64, u32)>, i: int)
    requires
        0 <= i < revived(s, now, ps).len(),
    ensures
        ({
            let x = revived(s, now, ps)[i];
            &&& memory::ltm_for(s, x.id) matches Some((t, m)) && t == x.text && m.source == x.source
                && !recall::ended(m, now)
            &&& exists|j: int| 0 <= j < ps.len() && #[trigger] ps[j] == (x.id, x.score)
        }),
    decreases ps.len(),
{
    let front = ps.drop_last();
    if i < revived(s, now, front).len() {
        lemma_revived_sound(s, now, front, i);
        let x = revived(s, now, ps)[i];
        let j = choose|j: int| 0 <= j < front.len() && #[trigger] front[j] == (x.id, x.score);
        assert(ps[j] == (x.id, x.score));
    } else {
        assert(ps[ps.len() - 1] == (ps.last().0, ps.last().1));
    }
}

/// The cache serves no memory that is forgotten or that has ended, any more than recall does,
/// and each as it is stored now.
pub proof fn law_cache_serves_what_holds(d: DebugView, s: memory::Rows, now: u64, name: Seq<char>)
    ensures
        served(d, s, now, name) matches Some(r) ==> forall|i: int|
            0 <= i < r.len() ==> (memory::ltm_for(s, (#[trigger] r[i]).id) matches Some((t, m)) && t
                == r[i].text && m.source == r[i].source && !recall::ended(m, now)),
{
    if let Some(r) = served(d, s, now, name) {
        let b = mitm::cached_value(d.cache, name)->0;
        let ps = list_of(b)->0;
        assert forall|i: int| 0 <= i < r.len() implies (memory::ltm_for(s, (#[trigger] r[i]).id) matches Some(
            (t, m),
        ) && t == r[i].text && m.source == r[i].source && !recall::ended(m, now)) by {
            lemma_revived_sound(s, now, ps, i);
        }
    }
}

/// Whether a name is that of a query under generation `gen` or an earlier one.
pub open spec fn named_under(name: Seq<char>, gen: u64) -> bool {
    exists|g: u64, scope: Seq<char>, k: nat, q: Seq<char>|
        g <= gen && name == #[trigger] query_name(g, scope, k, q)
}

/// Every cached query is of generation `gen` or earlier.
pub open spec fn cached_up_to(d: DebugView, gen: u64) -> bool {
    forall|name: Seq<char>| #[trigger] d.cache.contains_key(name) ==> named_under(name, gen)
}

/// Once the generation is raised, nothing cached before is served, whoever asks.
pub proof fn law_raised_generation_serves_nothing(
    d: DebugView,
    s: memory::Rows,
    now: u64,
    gen: u64,
    scope: Seq<char>,
    k: nat,
    query: Seq<char>,
)
    requires
        cached_up_to(d, gen),
        generation(s) > gen,
    ensures
        served(d, s, now, query_name(generation(s), scope, k, query)) is None,
{
    let present = generation(s);
    let name = query_name(present, scope, k, query);
    if d.cache.contains_key(name) {
        let (g, s2, k2, q2) = choose|g: u64, s2: Seq<char>, k2: nat, q2: Seq<char>|
            g <= gen && name == #[trigger] query_name(g, s2, k2, q2);
        lemma_generation_of_name(present, scope, k, query, g, s2, k2, q2);
    }
}

/// Caching a result keeps every cached query of the present generation or earlier.
pub proof fn law_remembering_stays_current(
    before: DebugView,
    after: DebugView,
    gen: u64,
    scope: Seq<char>,
    k: nat,
    query: Seq<char>,
    entry: (Seq<u8>, u64),
)
    requires
        cached_up_to(before, gen),
        after.cache == before.cache.insert(query_name(gen, scope, k, query), entry),
    ensures
        cached_up_to(after, gen),
{
}

proof fn lemma_join(x: Seq<char>, y: Seq<char>, z: Seq<char>)
    ensures
        (x + y) + z == x + (y + z),
{
    assert((x + y) + z =~= x + (y + z));
}

/// A name, read from its front.
proof fn lemma_name_parts(gen: u64, scope: Seq<char>, k: nat, query: Seq<char>)
    ensures
        query_name(gen, scope, k, query) == "rag:q:"@ + (text::dec_text(gen as nat) + (":"@ + (
        text::dec_text(scope.len()) + (":"@ + (scope + (":"@ + (text::dec_text(k) + (":"@
            + query)))))))),
{
    let h = "rag:q:"@;
    let c = ":"@;
    let a = text::dec_text(gen as nat);
    let n = text::dec_text(scope.len());
    let b = text::dec_text(k);
    let x1 = h + a;
    let x2 = x1 + c;
    let x3 = x2 + n;
    let x4 = x3 + c;
    let x5 = x4 + scope;
    let x6 = x5 + c;
    let x7 = x6 + b;
    let y1 = c + query;
    let y2 = b + y1;
    let y3 = c + y2;
    let y4 = scope + y3;
    let y5 = c + y4;
    let y6 = n + y5;
    let y7 = c + y6;
    lemma_join(x7, c, query);
    lemma_join(x6, b, y1);
    lemma_join(x5, c, y2);
    lemma_join(x4, scope, y3);
    lemma_join(x3, c, y4);
    lemma_join(x2, n, y5);
    lemma_join(x1, c, y6);
    lemma_join(h, a, y7);
}

proof fn lemma_generation_of_name(
    g1: u64,
    s1: Seq<char>,
    k1: nat,
    q1: Seq<char>,
    g2: u64,
    s2: Seq<char>,
    k2: nat,
    q2: Seq<char>,
)
    requires
        query_name(g1, s1, k1, q1) == query_name(g2, s2, k2, q2),
    ensures
        g1 == g2,
        text::dec_text(s1.len()) + (":"@ + (s1 + (":"@ + (text::dec_text(k1) + (":"@ + q1)))))
            == text::dec_text(s2.len()) + (":"@ + (s2 + (":"@ + (text::dec_text(k2) + (":"@
            + q2))))),
{
    reveal_strlit(":");
    let c = ":"@;
    assert(c =~= seq![':']);
    let h = "rag:q:"@;
    let a1 = text::dec_text(g1 as nat);
    let a2 = text::dec_text(g2 as nat);
    text::lemma_dec_text_unsigned(g1 as nat, g1 as nat);
    text::lemma_dec_text_unsigned(g2 as nat, g2 as nat);
    let t1 = text::dec_text(s1.len()) + (c + (s1 + (c + (text::dec_text(k1) + (c + q1)))));
    let t2 = text::dec_text(s2.len()) + (c + (s2 + (c + (text::dec_text(k2) + (c + q2)))));
    let r1 = a1 + (c + t1);
    let r2 = a2 + (c + t2);
    lemma_name_parts(g1, s1, k1, q1);
    lemma_name_parts(g2, s2, k2, q2);
    assert((h + r1).skip(h.len() as int) =~= r1);
    assert((h + r2).skip(h.len() as int) =~= r2);
    lemma_cut_at_colon(a1, t1, a2, t2);
}

/// Two queries share a cached result only if they come from the same agent, ask for the
/// same number of results to the same query, and see the same corpus.
pub proof fn law_cache_names_apart(
    g1: u64,
    s1: Seq<char>,
    k1: nat,
    q1: Seq<char>,
    g2: u64,
    s2: Seq<char>,
    k2: nat,
    q2: Seq<char>,
)
    requires
        query_name(g1, s1, k1, q1) == query_name(g2, s2, k2, q2),
    ensures
        g1 == g2,
        s1 == s2,
        k1 == k2,
        q1 == q2,
{
    reveal_strlit(":");
    let c = ":"@;
    assert(c =~= seq![':']);
    let b1 = text::dec_text(k1);
    let b2 = text::dec_text(k2);
    text::lemma_dec_text_unsigned(k1, k1);
    text::lemma_dec_text_unsigned(k2, k2);
    let n1 = text::dec_text(s1.len());
    let n2 = text::dec_text(s2.len());
    text::lemma_dec_text_unsigned(s1.len(), s1.len());
    text::lemma_dec_text_unsigned(s2.len(), s2.len());
    lemma_generation_of_name(g1, s1, k1, q1, g2, s2, k2, q2);
    let r1 = s1 + (c + (b1 + (c + q1)));
    let r2 = s2 + (c + (b2 + (c + q2)));
    lemma_cut_at_colon(n1, r1, n2, r2);
    assert(s1.len() == s2.len()) by {
        text::lemma_dec_text_unsigned(s1.len(), s1.len() + s2.len());
        text::lemma_dec_text_unsigned(s2.len(), s1.len() + s2.len());
    }
    assert(r1.take(s1.len() as int) =~= s1);
    assert(r2.take(s2.len() as int) =~= s2);
    assert(r1.skip(s1.len() as int + 1) =~= b1 + (c + q1));
    assert(r2.skip(s2.len() as int + 1) =~= b2 + (c + q2));
    lemma_cut_at_colon(b1, q1, b2, q2);
}

/// A text without colons, a colon, and a rest can be told apart again.
proof fn lemma_cut_at_colon(a1: Seq<char>, r1: Seq<char>, a2: Seq<char>, r2: Seq<char>)
    requires
        !a1.contains(':'),
        !a2.contains(':'),
        a1 + (seq![':'] + r1) == a2 + (seq![':'] + r2),
    ensures
        a1 == a2,
        r1 == r2,
{
    let x = a1 + (seq![':'] + r1);
    let y = a2 + (seq![':'] + r2);
    if a1.len() < a2.len() {
        assert(x[a1.len() as int] == ':');
        assert(y[a1.len() as int] == a2[a1.len() as int]);
        assert(a2.contains(':'));
    } else if a2.len() < a1.len() {
        assert(y[a2.len() as int] == ':');
        assert(x[a2.len() as int] == a1[a2.len() as int]);
        assert(a1.contains(':'));
    }
    assert(x.take(a1.len() as int) =~= a1);
    assert(y.take(a2.len() as int) =~= a2);
    assert(x.skip(a1.len() as int + 1) =~= r1);
    assert(y.skip(a2.len() as int + 1) =~= r2);
}

// ── what the ranks are ────────────────────────────────────────────────────

proof fn lemma_places_of(h: Seq<recall::HitView>, dense: bool, n: int)
    requires
        0 <= n <= h.len() <= usize::MAX,
    ensures
        forall|x: usize|
            #![trigger places_of(h, dense, n).contains(x)]
            places_of(h, dense, n).contains(x) <==> x < n && h[x as int].kind == (if dense {
                "semantic"@
            } else {
                "keyword"@
            }),
        forall|i: int, j: int|
            0 <= i < j < places_of(h, dense, n).len() ==> #[trigger] places_of(h, dense, n)[i]
                < #[trigger] places_of(h, dense, n)[j],
        forall|i: int|
            0 <= i < places_of(h, dense, n).len() ==> #[trigger] places_of(h, dense, n)[i] < n,
    decreases n,
{
    if n > 0 {
        lemma_places_of(h, dense, n - 1);
        let rest = places_of(h, dense, n - 1);
        let all = places_of(h, dense, n);
        let word = if dense {
            "semantic"@
        } else {
            "keyword"@
        };
        assert forall|i: int| 0 <= i < all.len() implies #[trigger] all[i] < n by {
            if i < rest.len() {
                assert(all[i] == rest[i]);
            }
        }
        assert forall|i: int, j: int| 0 <= i < j < all.len() implies #[trigger] all[i]
            < #[trigger] all[j] by {
            assert(all[i] == rest[i]);
            if j < rest.len() {
                assert(all[j] == rest[j]);
            }
        }
        assert forall|x: usize|
            #![trigger all.contains(x)]
            all.contains(x) <==> x < n && h[x as int].kind == word by {
            if rest.contains(x) {
                let i = choose|i: int| 0 <= i < rest.len() && rest[i] == x;
                assert(all[i] == x);
            }
            if all.contains(x) {
                let i = choose|i: int| 0 <= i < all.len() && all[i] == x;
                if i < rest.len() {
                    assert(rest[i] == x);
                    assert(rest.contains(x));
                }
            }
            if x == n - 1 && h[x as int].kind == word {
                assert(all[all.len() - 1] == x);
            }
        }
    }
}

/// The dense list names each hit that the index found once, in the order of recall, and no other.
pub proof fn law_dense_hits_keep_their_order(h: Seq<recall::HitView>)
    requires
        h.len() <= usize::MAX,
    ensures
        ({
            let d = places_of(h, true, h.len() as int);
            &&& forall|x: usize|
                #![trigger d.contains(x)]
                d.contains(x) <==> x < h.len() && h[x as int].kind == "semantic"@
            &&& forall|i: int, j: int| 0 <= i < j < d.len() ==> #[trigger] d[i] < #[trigger] d[j]
        }),
{
    lemma_places_of(h, true, h.len() as int);
}

/// The sparse list names each hit that a keyword found once, and no other. No score in it is below
/// that of a later rank, and of equal scores the one recalled first has the better rank.
pub proof fn law_sparse_ranks_follow_scores(h: Seq<recall::HitView>, sparse: Seq<usize>)
    requires
        sparse_ranking(h, sparse),
        h.len() <= usize::MAX,
    ensures
        sparse.no_duplicates(),
        forall|x: usize|
            #![trigger sparse.contains(x)]
            sparse.contains(x) <==> x < h.len() && h[x as int].kind == "keyword"@,
        forall|i: int, j: int|
            0 <= i < j < sparse.len() ==> {
                let (x, y) = (#[trigger] sparse[i], #[trigger] sparse[j]);
                let (a, b) = (
                    order::float_key(h[x as int].score),
                    order::float_key(h[y as int].score),
                );
                a > b || (a == b && x < y)
            },
{
    let sp = places_of(h, false, h.len() as int);
    let keys = keys_at(h, sp);
    lemma_places_of(h, false, h.len() as int);
    let p = choose|p: Seq<usize>|
        #![trigger order::stable_order(keys_at(h, sp), p)]
        order::stable_order(keys_at(h, sp), p) && sparse == Seq::new(
            sp.len(),
            |i: int| sp[p[i] as int],
        );
    order::law_stable_order_sorts(keys, p);
    assert forall|i: int, j: int| 0 <= i < j < sparse.len() implies {
        let (x, y) = (#[trigger] sparse[i], #[trigger] sparse[j]);
        let (a, b) = (order::float_key(h[x as int].score), order::float_key(h[y as int].score));
        (a > b || (a == b && x < y)) && x != y
    } by {
        let (c, d) = (p[i] as int, p[j] as int);
        assert(sparse[i] == sp[c] && sparse[j] == sp[d]);
        assert(keys[c] <= keys[d]);
        if c < d {
            assert(sp[c] < sp[d]);
        } else {
            assert(c != d);
            assert(sp[d] < sp[c]);
        }
    }
    assert forall|x: usize|
        #![trigger sparse.contains(x)]
        sparse.contains(x) <==> x < h.len() && h[x as int].kind == "keyword"@ by {
        if sparse.contains(x) {
            let i = choose|i: int| 0 <= i < sparse.len() && sparse[i] == x;
            assert(sp[p[i] as int] == x);
            assert(sp.contains(x));
        }
        if sp.contains(x) {
            let k = choose|k: int| 0 <= k < sp.len() && sp[k] == x;
            assert(p.contains(k as usize));
            let i = choose|i: int| 0 <= i < p.len() && p[i] == k as usize;
            assert(sparse[i] == x);
        }
        assert(sp.contains(x) <==> x < h.len() && h[x as int].kind == "keyword"@);
    }
}

/// The rank of an id is the last place at which the list names it, and it has none where the list
/// does not.
pub proof fn law_rank_is_the_place(
    hits: Seq<recall::HitView>,
    places: Seq<usize>,
    id: u64,
    n: int,
)
    requires
        0 <= n <= places.len() <= usize::MAX,
    ensures
        match rank_of(hits, places, id, n) {
            Some(r) => r < n && hits[places[r as int] as int].id == id && forall|x: int|
                r < x < n ==> hits[(#[trigger] places[x]) as int].id != id,
            None => forall|x: int| 0 <= x < n ==> hits[(#[trigger] places[x]) as int].id != id,
        },
    decreases n,
{
    if n > 0 && hits[places[n - 1] as int].id != id {
        law_rank_is_the_place(hits, places, id, n - 1);
    }
}

/// The overlap is the number of query tokens that the document holds, each counted as often as
/// the query holds it.
pub proof fn law_overlap_counts_tokens(query: Seq<Seq<char>>, doc: Seq<Seq<char>>)
    ensures
        overlap_of(query, doc, query.len() as int) == query.filter(
            |t: Seq<char>| doc.contains(t),
        ).len(),
        overlap_of(query, query, query.len() as int) == query.len(),
        overlap_of(query, doc, query.len() as int) <= query.len(),
{
    lemma_overlap(query, doc, query.len() as int);
    lemma_overlap(query, query, query.len() as int);
    assert(query.take(query.len() as int) =~= query);
}

proof fn lemma_overlap(query: Seq<Seq<char>>, doc: Seq<Seq<char>>, n: int)
    requires
        0 <= n <= query.len(),
    ensures
        overlap_of(query, doc, n) == query.take(n).filter(|t: Seq<char>| doc.contains(t)).len(),
        overlap_of(query, doc, n) <= n,
        (forall|i: int| 0 <= i < n ==> doc.contains(#[trigger] query[i])) ==> overlap_of(
            query,
            doc,
            n,
        ) == n,
    decreases n,
{
    reveal(Seq::filter);
    if n > 0 {
        lemma_overlap(query, doc, n - 1);
        assert(query.take(n).drop_last() =~= query.take(n - 1));
        assert(query.take(n).last() == query[n - 1]);
    }
}

/// Of the fused chunks, those that are stored come out, in their order: each with the text and
/// the source that are stored, its own ranks, and the number of query tokens that its text holds.
pub proof fn law_chunks_are_filled_in(s: memory::Rows, query: Seq<char>, f: Seq<Fused>)
    ensures
        Seq::new(
            materialised(s, query, f).len(),
            |i: int|
                Fused {
                    id: materialised(s, query, f)[i].id,
                    dense_rank: materialised(s, query, f)[i].dense_rank,
                    sparse_rank: materialised(s, query, f)[i].sparse_rank,
                },
        ) == f.filter(|x: Fused| memory::ltm_for(s, x.id) is Some),
        forall|i: int|
            0 <= i < materialised(s, query, f).len() ==> {
                let c = #[trigger] materialised(s, query, f)[i];
                &&& memory::ltm_for(s, c.id) matches Some((t, m)) && t == c.text && m.source
                    == c.source
                &&& c.overlap == tokens::tokens(query).filter(
                    |t: Seq<char>| tokens::tokens(c.text).contains(t),
                ).len()
            },
    decreases f.len(),
{
    reveal(Seq::filter);
    let p = |x: Fused| memory::ltm_for(s, x.id) is Some;
    let all = materialised(s, query, f);
    let got = Seq::new(
        all.len(),
        |i: int|
            Fused {
                id: all[i].id,
                dense_rank: all[i].dense_rank,
                sparse_rank: all[i].sparse_rank,
            },
    );
    if f.len() > 0 {
        let rest = materialised(s, query, f.drop_last());
        let before = Seq::new(
            rest.len(),
            |i: int|
                Fused {
                    id: rest[i].id,
                    dense_rank: rest[i].dense_rank,
                    sparse_rank: rest[i].sparse_rank,
                },
        );
        law_chunks_are_filled_in(s, query, f.drop_last());
        assert forall|i: int| 0 <= i < all.len() implies {
            let c = #[trigger] all[i];
            &&& memory::ltm_for(s, c.id) matches Some((t, m)) && t == c.text && m.source
                == c.source
            &&& c.overlap == tokens::tokens(query).filter(
                |t: Seq<char>| tokens::tokens(c.text).contains(t),
            ).len()
        } by {
            if i < rest.len() {
                assert(all[i] == rest[i]);
            } else {
                law_overlap_counts_tokens(tokens::tokens(query), tokens::tokens(all[i].text));
            }
        }
        if p(f.last()) {
            assert(got =~= before.push(f.last()));
        } else {
            assert(got =~= before);
        }
    } else {
        assert(got =~= Seq::<Fused>::empty());
    }
}

/// The best results are as many as were asked for, or all: results of the list, each place of it
/// at most once, no score below that of a later one, and none left out that scores higher.
pub proof fn law_best_results_score_highest(
    all: Seq<RetrievedView>,
    k: nat,
    r: Seq<RetrievedView>,
)
    requires
        best_of(all, k, r),
    ensures
        r.len() == (if k < all.len() {
            k
        } else {
            all.len()
        }),
        exists|at: Seq<usize>| #[trigger]
            at.no_duplicates() && at.len() == r.len() && (forall|i: int|
                0 <= i < r.len() ==> (#[trigger] at[i]) < all.len() && r[i] == all[at[i] as int])
                && (forall|i: int, j: int|
                0 <= i < j < r.len() ==> {
                    let (a, b) = (
                        order::float_key((#[trigger] r[i]).score),
                        order::float_key((#[trigger] r[j]).score),
                    );
                    a > b || (a == b && at[i] < at[j])
                }) && (forall|i: int, x: usize|
                0 <= i < r.len() && x < all.len() && !(#[trigger] at.contains(x))
                    ==> order::float_key((#[trigger] r[i]).score) >= order::float_key(
                    all[x as int].score,
                )),
{
    let keys = result_keys(all);
    let p = choose|p: Seq<usize>|
        #![trigger order::stable_order(result_keys(all), p)]
        order::stable_order(result_keys(all), p) && r == Seq::new(
            recall::at_most(all.len(), k),
            |i: int| all[p[i] as int],
        );
    order::law_stable_order_sorts(keys, p);
    let at = p.take(r.len() as int);
    assert(at.no_duplicates());
    assert forall|i: int, j: int| 0 <= i < j < r.len() implies {
        let (a, b) = (
            order::float_key((#[trigger] r[i]).score),
            order::float_key((#[trigger] r[j]).score),
        );
        a > b || (a == b && at[i] < at[j])
    } by {
        assert(at[i] == p[i] && at[j] == p[j]);
        assert(keys[p[i] as int] <= keys[p[j] as int]);
    }
    assert forall|i: int, x: usize|
        0 <= i < r.len() && x < all.len() && !(#[trigger] at.contains(x)) implies order::float_key(
        (#[trigger] r[i]).score,
    ) >= order::float_key(all[x as int].score) by {
        assert(p.contains(x));
        let j = choose|j: int| 0 <= j < p.len() && p[j] == x;
        if j < at.len() {
            assert(at[j] == x);
        }
        assert(p[i] == at[i]);
        assert(keys[p[i] as int] <= keys[p[j] as int]);
    }
    assert forall|i: int| 0 <= i < r.len() implies (#[trigger] at[i]) < all.len() && r[i]
        == all[at[i] as int] by {
        assert(at[i] == p[i]);
    }
}

/// Recall is asked for at least four times as many hits as results, never for fewer than twenty,
/// and for no more than the larger of the two.
pub proof fn law_pool_is_wide_enough(k: nat)
    ensures
        pool_of(k) >= 4 * k,
        pool_of(k) >= 20,
        pool_of(k) == 4 * k || pool_of(k) == 20,
{
}

/// The cache serves every cached pair whose memory is stored and has not ended, in their order
/// and with their scores.
pub proof fn law_cache_serves_all_that_holds(s: memory::Rows, now: u64, ps: Seq<(u64, u32)>)
    ensures
        pairs_in(revived(s, now, ps)) == ps.filter(
            |p: (u64, u32)|
                memory::ltm_for(s, p.0) matches Some((t, m)) && (m.valid_to == 0 || now
                    < m.valid_to),
        ),
    decreases ps.len(),
{
    reveal(Seq::filter);
    let q = |p: (u64, u32)|
        memory::ltm_for(s, p.0) matches Some((t, m)) && (m.valid_to == 0 || now < m.valid_to);
    let all = revived(s, now, ps);
    if ps.len() > 0 {
        let rest = revived(s, now, ps.drop_last());
        law_cache_serves_all_that_holds(s, now, ps.drop_last());
        if q(ps.last()) {
            assert(pairs_in(all) =~= pairs_in(rest).push(ps.last()));
        } else {
            assert(pairs_in(all) =~= pairs_in(rest));
        }
    } else {
        assert(pairs_in(all) =~= Seq::<(u64, u32)>::empty());
    }
}

/// The context block says each result in its turn: its number counted from 1, its source and its
/// text, on a line that ends with the text; and nothing else comes before, between or behind.
pub proof fn law_context_numbers_results(hits: Seq<RetrievedView>, n: int)
    requires
        0 < n <= hits.len(),
    ensures
        context_of(hits, 0) == Seq::<char>::empty(),
        ({
            let line = context_of(hits, n).skip(context_of(hits, n - 1).len() as int);
            let number = text::dec_text(n as nat);
            let (source, words) = (hits[n - 1].source, hits[n - 1].text);
            &&& context_of(hits, n - 1) == context_of(hits, n).take(
                context_of(hits, n - 1).len() as int,
            )
            &&& line.len() == number.len() + source.len() + words.len() + 7
            &&& line[0] == '[' && line.last() == '\n'
            &&& line.subrange(1, 1 + number.len() as int) == number
            &&& line.skip(1 + number.len() as int).take(3) == seq![']', ' ', '(']
            &&& line.skip(4 + number.len() as int).take(source.len() as int) == source
            &&& line.skip(4 + (number.len() + source.len()) as int).take(2) == seq![')', ' ']
            &&& line.skip(line.len() - words.len() - 1).take(words.len() as int) == words
        }),
{
    reveal_strlit("[");
    reveal_strlit("] (");
    reveal_strlit(") ");
    reveal_strlit("\n");
    let before = context_of(hits, n - 1);
    let number = text::dec_text(n as nat);
    let (source, words) = (hits[n - 1].source, hits[n - 1].text);
    let line = context_of(hits, n).skip(before.len() as int);
    let want = "["@ + number + "] ("@ + source + ") "@ + words + "\n"@;
    assert(context_of(hits, n) =~= before + want);
    assert(line =~= want);
    assert(context_of(hits, n).take(before.len() as int) =~= before);
    assert(line.subrange(1, 1 + number.len() as int) =~= number);
    assert(line.skip(1 + number.len() as int).take(3) =~= seq![']', ' ', '(']);
    assert(line.skip(4 + number.len() as int).take(source.len() as int) =~= source);
    assert(line.skip(4 + (number.len() + source.len()) as int).take(2) =~= seq![')', ' ']);
    assert(line.skip(line.len() - words.len() - 1).take(words.len() as int) =~= words);
}

/// Whether a fused list names an id with a given place in one of the two rankings.
pub open spec fn fused_at(r: Seq<Fused>, id: u64, x: int) -> bool {
    0 <= x < r.len() && r[x].id == id
}

/// Fusion loses nothing and adds nothing: every hit of either ranking is named once, each entry is a
/// hit of one of them, and the ranks that it carries are places at which the rankings name it.
pub proof fn law_fusion_names_every_hit(
    hits: Seq<recall::HitView>,
    dense: Seq<usize>,
    sparse: Seq<usize>,
    r: Seq<Fused>,
    i: int,
    x: int,
)
    requires
        fused_ranks(hits, dense, sparse, r),
        dense.len() <= usize::MAX,
        sparse.len() <= usize::MAX,
    ensures
        0 <= i < dense.len() ==> exists|y: int| #[trigger]
            fused_at(r, hits[dense[i] as int].id, y) && r[y].dense_rank is Some,
        0 <= i < sparse.len() ==> exists|y: int| #[trigger]
            fused_at(r, hits[sparse[i] as int].id, y) && r[y].sparse_rank is Some,
        0 <= x < r.len() ==> {
            &&& r[x].dense_rank matches Some(p) ==> p < dense.len() && hits[dense[p as int] as int].id
                == r[x].id
            &&& r[x].sparse_rank matches Some(p) ==> p < sparse.len()
                && hits[sparse[p as int] as int].id == r[x].id
            &&& r[x].dense_rank is Some || r[x].sparse_rank is Some
        },
        forall|a: int, b: int| 0 <= a < b < r.len() ==> (#[trigger] r[a]).id != (#[trigger] r[b]).id,
{
    if 0 <= i < dense.len() {
        let id = hits[dense[i] as int].id;
        lemma_ranked(hits, dense, i, dense.len() as int);
        let y = choose|y: int| 0 <= y < r.len() && (#[trigger] r[y]).id == id;
        assert(fused_at(r, id, y));
    }
    if 0 <= i < sparse.len() {
        let id = hits[sparse[i] as int].id;
        lemma_ranked(hits, sparse, i, sparse.len() as int);
        let y = choose|y: int| 0 <= y < r.len() && (#[trigger] r[y]).id == id;
        assert(fused_at(r, id, y));
    }
    if 0 <= x < r.len() {
        law_rank_is_the_place(hits, dense, r[x].id, dense.len() as int);
        law_rank_is_the_place(hits, sparse, r[x].id, sparse.len() as int);
    }
}

/// Retrieval gives every recalled chunk that is stored, whether the index or a keyword found it, and
/// with a rank in the list of whoever did.
pub proof fn law_retrieval_gives_every_hit(
    s: memory::Rows,
    scope: Seq<char>,
    now: u64,
    query: Seq<char>,
    all: Seq<recall::Scored>,
    k: nat,
    h: Seq<recall::HitView>,
    sparse: Seq<usize>,
    f: Seq<Fused>,
    r: Seq<RankedView>,
    x: int,
)
    requires
        fused_from(s, scope, now, query, all, k, h, sparse, f, r),
        h.len() <= usize::MAX,
        0 <= x < h.len(),
        memory::ltm_for(s, h[x].id) is Some,
        h[x].kind == "semantic"@ || h[x].kind == "keyword"@,
    ensures
        exists|y: int|
            0 <= y < r.len() && (#[trigger] r[y]).id == h[x].id && (h[x].kind == "semantic"@
                ==> r[y].dense_rank is Some) && (h[x].kind == "keyword"@ ==> r[y].sparse_rank
                is Some),
{
    let dense = places_of(h, true, h.len() as int);
    law_dense_hits_keep_their_order(h);
    law_sparse_ranks_follow_scores(h, sparse);
    let id = h[x].id;
    lemma_places_short(h, true, h.len() as int);
    lemma_places_short(h, false, h.len() as int);
    let want = if h[x].kind == "semantic"@ {
        dense
    } else {
        sparse
    };
    assert(want.contains(x as usize)) by {
        assert(dense.contains(x as usize) <==> h[x].kind == "semantic"@);
        assert(sparse.contains(x as usize) <==> h[x].kind == "keyword"@);
    }
    let i = choose|i: int| 0 <= i < want.len() && want[i] == x as usize;
    law_fusion_names_every_hit(h, dense, sparse, f, i, 0);
    let y = if h[x].kind == "semantic"@ {
        choose|y: int| #[trigger] fused_at(f, id, y) && f[y].dense_rank is Some
    } else {
        choose|y: int| #[trigger] fused_at(f, id, y) && f[y].sparse_rank is Some
    };
    // An id that both lists name has a rank in both.
    if h[x].kind == "keyword"@ && h[x].kind == "semantic"@ {
        assert(sparse.contains(x as usize));
        let j = choose|j: int| 0 <= j < sparse.len() && sparse[j] == x as usize;
        lemma_ranked(h, sparse, j, sparse.len() as int);
    }
    law_chunks_are_filled_in(s, query, f);
    let stored = |c: Fused| memory::ltm_for(s, c.id) is Some;
    let kept = Seq::new(
        materialised(s, query, f).len(),
        |i: int|
            Fused {
                id: materialised(s, query, f)[i].id,
                dense_rank: materialised(s, query, f)[i].dense_rank,
                sparse_rank: materialised(s, query, f)[i].sparse_rank,
            },
    );
    assert(kept =~= f.filter(stored));
    assert(stored(f[y]));
    f.lemma_filter_contains(stored, y);
    let z = choose|z: int| 0 <= z < kept.len() && kept[z] == f[y];
    assert(r[z].id == id);
}

proof fn lemma_places_short(h: Seq<recall::HitView>, dense: bool, n: int)
    requires
        0 <= n,
    ensures
        places_of(h, dense, n).len() <= n,
    decreases n,
{
    if n > 0 {
        lemma_places_short(h, dense, n - 1);
    }
}

} // verus!
