//! The query router: a cost-based choice between filtering before and after the
//! vector search, and the join of the ranked rows.
use crate::order;
use crate::order::{key_of, sort_places};
use crate::ratios;
use crate::ratios::quotient_bits;
use crate::rounding;
use crate::rounding::SINGLE;
use crate::text;
use crate::text::{chars_of, dec_string, parse_unsigned};
use vstd::arithmetic::power2::*;
use vstd::prelude::*;

verus! {

/// How a filtered similarity search is run.
#[derive(Clone, Copy, Debug, PartialEq, Eq, Structural)]
pub enum AnnPlan {
    /// Filter first, then rank the matching rows by distance.
    PreFilter,
    /// Query the index, then drop what does not match.
    PostFilter,
}

/// The bits of 0.05, the selectivity up to which filtering first is cheaper.
pub const SELECTIVE: u32 = 0x3D4C_CCCD;

/// The plan for a selectivity, given by the bits of an `f32`.
pub open spec fn planned(selectivity: u32) -> AnnPlan {
    if !order::is_nan(selectivity) && order::float_key(selectivity) <= order::float_key(
        SELECTIVE,
    ) {
        AnnPlan::PreFilter
    } else {
        AnnPlan::PostFilter
    }
}

/// A hit: the row's id, the bits of its distance, and the place of the row.
#[derive(Clone, Copy, Debug, PartialEq, Eq, Structural)]
pub struct RagHit {
    pub id: u64,
    pub distance: u32,
    pub row: usize,
}

/// The planner.
#[derive(Clone, Copy, Debug, PartialEq, Eq, Structural)]
pub struct Router;

impl Router {
    /// A planner.
    pub fn new() -> (r: Self)
        ensures
            r == Router,
    {
        Router
    }

    /// Chooses a plan from the estimated selectivity, the bits of an `f32`.
    pub fn plan_ann(&self, selectivity: u32) -> (r: AnnPlan)
        ensures
            r == planned(selectivity),
    {
        if selectivity % 0x8000_0000 <= 0x7f80_0000 && key_of(selectivity) <= key_of(SELECTIVE) {
            AnnPlan::PreFilter
        } else {
            AnnPlan::PostFilter
        }
    }
}

/// The vector id that a primary key spells.
pub open spec fn id_of(pk: Seq<char>) -> Option<nat> {
    text::unsigned_of(pk, u64::MAX as nat)
}

/// The ids of the rows, as far as their keys spell one, with their places.
pub open spec fn candidates_of(pks: Seq<String>) -> Seq<(usize, u64)>
    decreases pks.len(),
{
    if pks.len() == 0 {
        Seq::empty()
    } else {
        let rest = candidates_of(pks.drop_last());
        match id_of(pks.last()@) {
            Some(id) => rest.push(((pks.len() - 1) as usize, id as u64)),
            None => rest,
        }
    }
}

fn id_in(pk: &String) -> (r: Option<u64>)
    ensures
        match r {
            Some(v) => id_of(pk@) == Some(v as nat),
            None => id_of(pk@) is None,
        },
{
    parse_unsigned(&chars_of(pk.as_str()), u64::MAX)
}

/// The ids of the matching rows whose key spells one, with their places.
pub fn rag_candidates(pks: &Vec<String>) -> (r: Vec<(usize, u64)>)
    ensures
        r@ == candidates_of(pks@),
        forall|i: int| 0 <= i < r@.len() ==> (#[trigger] r@[i]).0 < pks@.len(),
{
    let mut out: Vec<(usize, u64)> = Vec::new();
    let mut i: usize = 0;
    while i < pks.len()
        invariant
            i <= pks@.len(),
            out@ == candidates_of(pks@.take(i as int)),
            forall|k: int| 0 <= k < out@.len() ==> (#[trigger] out@[k]).0 < i,
        decreases pks@.len() - i,
    {
        proof {
            let t = pks@.take(i + 1);
            assert(t.drop_last() =~= pks@.take(i as int));
            assert(t.last() == pks@[i as int]);
        }
        match id_in(&pks[i]) {
            Some(id) => {
                out.push((i, id));
            },
            None => {},
        }
        i = i + 1;
    }
    proof {
        assert(pks@.take(i as int) =~= pks@);
    }
    out
}

/// The candidates that have a vector, as hits in their order. `dists` holds, for each
/// candidate, the bits of its distance.
pub open spec fn measured(cands: Seq<(usize, u64)>, dists: Seq<Option<u32>>) -> Seq<RagHit>
    decreases cands.len(),
{
    if cands.len() == 0 {
        Seq::empty()
    } else {
        let n = cands.len() - 1;
        let rest = measured(cands.drop_last(), dists);
        match dists[n] {
            Some(d) => rest.push(RagHit { id: cands[n].1, distance: d, row: cands[n].0 }),
            None => rest,
        }
    }
}

pub open spec fn distance_keys(hits: Seq<RagHit>) -> Seq<i128> {
    Seq::new(hits.len(), |i: int| order::float_key(hits[i].distance) as i128)
}

/// `r` is the `k` nearest of `hits`, nearest first, equal distances in their order.
pub open spec fn nearest(hits: Seq<RagHit>, k: nat, r: Seq<RagHit>) -> bool {
    exists|p: Seq<usize>|
        #![trigger order::stable_order(distance_keys(hits), p)]
        order::stable_order(distance_keys(hits), p) && r == Seq::new(
            if k < hits.len() {
                k
            } else {
                hits.len()
            },
            |i: int| hits[p[i] as int],
        )
}

/// Ranks the matching rows by distance and keeps the first `k`.
pub fn rag_rank(cands: &Vec<(usize, u64)>, dists: &Vec<Option<u32>>, k: usize) -> (r: Vec<RagHit>)
    requires
        dists@.len() == cands@.len(),
        forall|i: int|
            0 <= i < dists@.len() ==> (#[trigger] dists@[i] matches Some(d) ==> !order::is_nan(d)),
    ensures
        nearest(measured(cands@, dists@), k as nat, r@),
{
    let mut hits: Vec<RagHit> = Vec::new();
    let mut keys: Vec<i128> = Vec::new();
    let mut i: usize = 0;
    while i < cands.len()
        invariant
            i <= cands@.len(),
            dists@.len() == cands@.len(),
            hits@ == measured(cands@.take(i as int), dists@),
            keys@ == distance_keys(hits@),
        decreases cands@.len() - i,
    {
        proof {
            let t = cands@.take(i + 1);
            assert(t.drop_last() =~= cands@.take(i as int));
        }
        match dists[i] {
            Some(d) => {
                hits.push(RagHit { id: cands[i].1, distance: d, row: cands[i].0 });
                keys.push(key_of(d));
            },
            None => {},
        }
        i = i + 1;
        proof {
            assert(keys@ =~= distance_keys(hits@));
        }
    }
    proof {
        assert(cands@.take(i as int) =~= cands@);
    }
    let p = sort_places(&keys);
    let n: usize = if k < hits.len() { k } else { hits.len() };
    let mut out: Vec<RagHit> = Vec::new();
    let mut j: usize = 0;
    while j < n
        invariant
            j <= n <= hits@.len(),
            order::stable_order(keys@, p@),
            keys@.len() == hits@.len(),
            out@ == Seq::new(j as nat, |x: int| hits@[p@[x] as int]),
        decreases n - j,
    {
        out.push(hits[p[j]]);
        j = j + 1;
        proof {
            assert(out@ =~= Seq::new(j as nat, |x: int| hits@[p@[x] as int]));
        }
    }
    proof {
        assert(order::stable_order(distance_keys(hits@), p@));
    }
    out
}

/// The place of the row whose key is the digits of `id`, or the number of rows.
pub open spec fn row_with_id(pks: Seq<String>, id: u64) -> int
    decreases pks.len(),
{
    if pks.len() == 0 {
        0
    } else if pks[0]@ == text::dec_text(id as nat) {
        0
    } else {
        1 + row_with_id(pks.skip(1), id)
    }
}

/// The hits of the index whose row the table still holds, in the order of the index.
pub open spec fn joined(found: Seq<(u64, u32)>, pks: Seq<String>) -> Seq<RagHit>
    decreases found.len(),
{
    if found.len() == 0 {
        Seq::empty()
    } else {
        let rest = joined(found.drop_last(), pks);
        let row = row_with_id(pks, found.last().0);
        if row < pks.len() {
            rest.push(RagHit { id: found.last().0, distance: found.last().1, row: row as usize })
        } else {
            rest
        }
    }
}

proof fn lemma_row_with_id(pks: Seq<String>, id: u64, at: int)
    requires
        0 <= at <= pks.len(),
        at < pks.len() ==> pks[at]@ == text::dec_text(id as nat),
        forall|i: int| 0 <= i < at ==> (#[trigger] pks[i])@ != text::dec_text(id as nat),
    ensures
        row_with_id(pks, id) == at,
    decreases pks.len(),
{
    if at > 0 {
        assert(pks[0]@ != text::dec_text(id as nat));
        assert forall|i: int| 0 <= i < at - 1 implies (#[trigger] pks.skip(1)[i])@
            != text::dec_text(id as nat) by {
            assert(pks[i + 1]@ != text::dec_text(id as nat));
        }
        lemma_row_with_id(pks.skip(1), id, at - 1);
    }
}

fn find_row(pks: &Vec<String>, id: u64) -> (r: usize)
    ensures
        r == row_with_id(pks@, id),
        r <= pks@.len(),
{
    let want = dec_string(id);
    let mut i: usize = 0;
    while i < pks.len()
        invariant
            i <= pks@.len(),
            want@ == text::dec_text(id as nat),
            forall|k: int| 0 <= k < i ==> (#[trigger] pks@[k])@ != text::dec_text(id as nat),
        decreases pks@.len() - i,
    {
        if pks[i] == want {
            proof {
                lemma_row_with_id(pks@, id, i as int);
            }
            return i;
        }
        i = i + 1;
    }
    proof {
        lemma_row_with_id(pks@, id, i as int);
    }
    i
}

/// Joins what the index found with the rows of the table. `pks` holds the keys of all
/// rows of the table.
pub fn rag_join(found: &Vec<(u64, u32)>, pks: &Vec<String>) -> (r: Vec<RagHit>)
    ensures
        r@ == joined(found@, pks@),
{
    let mut out: Vec<RagHit> = Vec::new();
    let mut i: usize = 0;
    while i < found.len()
        invariant
            i <= found@.len(),
            out@ == joined(found@.take(i as int), pks@),
        decreases found@.len() - i,
    {
        proof {
            let t = found@.take(i + 1);
            assert(t.drop_last() =~= found@.take(i as int));
        }
        let (id, d) = found[i];
        let row = find_row(pks, id);
        if row < pks.len() {
            out.push(RagHit { id, distance: d, row });
        }
        i = i + 1;
    }
    proof {
        assert(found@.take(i as int) =~= found@);
    }
    out
}

/// The outside work that a planned search needs.
#[derive(Debug, PartialEq)]
pub enum RagNeed {
    /// The distances of these rows' vectors.
    Distances(Vec<(usize, u64)>),
    /// A search of the index, in which only these ids may come back.
    Search(Vec<u64>),
}

/// Whether so many of a table's rows are at most a twentieth of them, by nearest numbers.
pub open spec fn few(matching: nat, total: nat) -> bool {
    let rows = if total == 0 {
        1
    } else {
        total
    };
    rounding::quotient(matching, rows, SINGLE as nat) <= rounding::literal(5, 100, SINGLE as nat)
}

/// The bits of 0.05 hold the nearest number to it.
proof fn lemma_selective()
    ensures
        ratios::units(SELECTIVE as nat, SINGLE as nat) == rounding::literal(5, 100, SINGLE as nat) * pow2(21),
{
    let lim = SINGLE as nat;
    let n: nat = 5 * 0x1000_0000;
    lemma2_to64();
    lemma_pow2_adds(28, 100);
    assert(n / 100 == 13_421_772 && n % 100 == 80);
    assert(rounding::spacing(n / 100, lim) == 1);
    assert(rounding::rounded(n, 100, lim) == 13_421_773);
    rounding::lemma_shifted(n, 100, lim, 100);
    assert(n * pow2(100) == 5 * rounding::one()) by (nonlinear_arith)
        requires
            n == 5 * 0x1000_0000,
            rounding::one() == 0x1000_0000 * pow2(100),
    ;
    lemma_pow2_adds(100, 21);
    assert(SELECTIVE as nat / 0x80_0000 == 122 && SELECTIVE as nat % 0x80_0000 + 0x80_0000
        == 13_421_773);
    assert(13_421_773 * pow2(121) == (13_421_773 * pow2(100)) * pow2(21)) by (nonlinear_arith)
        requires
            pow2(121) == pow2(100) * pow2(21),
    ;
}

/// A share of the rows that is given by its bits is planned by the shares themselves.
proof fn lemma_planned(bits: u32, share: nat)
    requires
        ratios::plain(bits as nat, SINGLE as nat),
        ratios::units(bits as nat, SINGLE as nat) == share * pow2(21),
    ensures
        planned(bits) == (if share <= rounding::literal(5, 100, SINGLE as nat) {
            AnnPlan::PreFilter
        } else {
            AnnPlan::PostFilter
        }),
{
    let bar = rounding::literal(5, 100, SINGLE as nat);
    let p = pow2(21);
    lemma_selective();
    lemma_pow2_pos(21);
    ratios::lemma_units_order(bits as nat, SELECTIVE as nat, SINGLE as nat);
    assert((share * p <= bar * p) == (share <= bar)) by (nonlinear_arith)
        requires
            p >= 1,
    ;
}

impl Router {
    /// Plans "the `k` most similar rows that match" in a table of `total` rows: `matching` holds
    /// the keys of the rows that match.
    pub fn rag_search(&self, matching: &Vec<String>, total: usize) -> (r: RagNeed)
        ensures
            if few(matching@.len(), total as nat) {
                r matches RagNeed::Distances(c) && c@ == candidates_of(matching@)
            } else {
                r matches RagNeed::Search(ids) && ids@ == Seq::new(
                    candidates_of(matching@).len(),
                    |i: int| candidates_of(matching@)[i].1,
                )
            },
    {
        let cands = rag_candidates(matching);
        let rows: u64 = if total == 0 { 1 } else { total as u64 };
        let selectivity: u32 = quotient_bits(matching.len() as u64, rows);
        proof {
            lemma_planned(
                selectivity,
                rounding::quotient(matching@.len(), rows as nat, SINGLE as nat),
            );
        }
        match self.plan_ann(selectivity) {
            AnnPlan::PreFilter => RagNeed::Distances(cands),
            AnnPlan::PostFilter => {
                let mut ids: Vec<u64> = Vec::new();
                let mut i: usize = 0;
                while i < cands.len()
                    invariant
                        i <= cands@.len(),
                        ids@ == Seq::new(i as nat, |k: int| cands@[k].1),
                    decreases cands@.len() - i,
                {
                    ids.push(cands[i].1);
                    i = i + 1;
                    proof {
                        assert(ids@ =~= Seq::new(i as nat, |k: int| cands@[k].1));
                    }
                }
                RagNeed::Search(ids)
            },
        }
    }
}

/// No more than `k` rows come back, each of them one of the matching rows, and no row
/// that was left out is nearer than one that came back.
pub proof fn law_ranked_rows_match(hits: Seq<RagHit>, k: nat, r: Seq<RagHit>)
    requires
        nearest(hits, k, r),
    ensures
        r.len() <= k,
        forall|i: int| 0 <= i < r.len() ==> hits.contains(#[trigger] r[i]),
        forall|i: int, j: int|
            0 <= i < j < r.len() ==> order::float_key((#[trigger] r[i]).distance)
                <= order::float_key((#[trigger] r[j]).distance),
        forall|h: RagHit, i: int|
            #![trigger hits.contains(h), r[i]]
            hits.contains(h) && !r.contains(h) && 0 <= i < r.len() ==> order::float_key(
                r[i].distance,
            ) <= order::float_key(h.distance),
{
    let keys = distance_keys(hits);
    let p = choose|p: Seq<usize>|
        #![trigger order::stable_order(distance_keys(hits), p)]
        order::stable_order(distance_keys(hits), p) && r == Seq::new(
            if k < hits.len() {
                k
            } else {
                hits.len()
            },
            |i: int| hits[p[i] as int],
        );
    assert forall|i: int| 0 <= i < r.len() implies hits.contains(#[trigger] r[i]) by {
        assert(r[i] == hits[p[i] as int]);
    }
    assert forall|i: int, j: int| 0 <= i < j < r.len() implies order::float_key(
        (#[trigger] r[i]).distance,
    ) <= order::float_key((#[trigger] r[j]).distance) by {
        assert(order::before(keys, p[i], p[j]));
    }
    assert forall|h: RagHit, i: int|
        #![trigger hits.contains(h), r[i]]
        hits.contains(h) && !r.contains(h) && 0 <= i < r.len() implies order::float_key(
        r[i].distance,
    ) <= order::float_key(h.distance) by {
        let q = choose|q: int| 0 <= q < hits.len() && hits[q] == h;
        assert(p.contains(q as usize));
        let s = choose|s: int| 0 <= s < p.len() && p[s] == q as usize;
        if s < r.len() {
            assert(r[s] == h);
        } else {
            assert(order::before(keys, p[i], p[s]));
        }
    }
}

/// Whether a table's rows hold the key that spells an id.
pub open spec fn keyed(pks: Seq<String>, id: u64) -> bool {
    exists|i: int| 0 <= i < pks.len() && (#[trigger] pks[i])@ == text::dec_text(id as nat)
}

proof fn lemma_row_found(pks: Seq<String>, id: u64)
    ensures
        0 <= row_with_id(pks, id) <= pks.len(),
        row_with_id(pks, id) < pks.len() <==> keyed(pks, id),
        row_with_id(pks, id) < pks.len() ==> pks[row_with_id(pks, id)]@ == text::dec_text(
            id as nat,
        ),
        forall|i: int|
            0 <= i < row_with_id(pks, id) ==> (#[trigger] pks[i])@ != text::dec_text(id as nat),
    decreases pks.len(),
{
    if pks.len() > 0 && pks[0]@ != text::dec_text(id as nat) {
        let rest = pks.skip(1);
        lemma_row_found(rest, id);
        let at = row_with_id(rest, id);
        assert forall|i: int| 0 <= i < 1 + at implies (#[trigger] pks[i])@ != text::dec_text(
            id as nat,
        ) by {
            if i > 0 {
                assert(rest[i - 1]@ != text::dec_text(id as nat));
            }
        }
        if keyed(pks, id) {
            let i = choose|i: int|
                0 <= i < pks.len() && (#[trigger] pks[i])@ == text::dec_text(id as nat);
            assert(rest[i - 1] == pks[i]);
        }
        if keyed(rest, id) {
            let i = choose|i: int|
                0 <= i < rest.len() && (#[trigger] rest[i])@ == text::dec_text(id as nat);
            assert(pks[i + 1] == rest[i]);
        }
    }
}

/// Every joined hit stands with the row whose key spells its id, the first such row; the hits are
/// those of the index that have a row, in its order and with its distances, and none is missing.
pub proof fn law_join_finds_the_rows(found: Seq<(u64, u32)>, pks: Seq<String>)
    requires
        pks.len() <= usize::MAX,
    ensures
        forall|i: int|
            0 <= i < joined(found, pks).len() ==> {
                let h = #[trigger] joined(found, pks)[i];
                &&& h.row < pks.len()
                &&& pks[h.row as int]@ == text::dec_text(h.id as nat)
                &&& forall|x: int|
                    0 <= x < h.row ==> (#[trigger] pks[x])@ != text::dec_text(h.id as nat)
            },
        Seq::new(
            joined(found, pks).len(),
            |i: int| (joined(found, pks)[i].id, joined(found, pks)[i].distance),
        ) == found.filter(|f: (u64, u32)| keyed(pks, f.0)),
    decreases found.len(),
{
    let p = |f: (u64, u32)| keyed(pks, f.0);
    let all = joined(found, pks);
    let pairs = Seq::new(all.len(), |i: int| (all[i].id, all[i].distance));
    reveal(Seq::filter);
    if found.len() > 0 {
        let front = found.drop_last();
        let rest = joined(front, pks);
        let before = Seq::new(rest.len(), |i: int| (rest[i].id, rest[i].distance));
        law_join_finds_the_rows(front, pks);
        lemma_row_found(pks, found.last().0);
        assert forall|i: int| 0 <= i < all.len() implies {
            let h = #[trigger] all[i];
            &&& h.row < pks.len()
            &&& pks[h.row as int]@ == text::dec_text(h.id as nat)
            &&& forall|x: int|
                0 <= x < h.row ==> (#[trigger] pks[x])@ != text::dec_text(h.id as nat)
        } by {
            if i < rest.len() {
                assert(all[i] == rest[i]);
            }
        }
        if p(found.last()) {
            assert(pairs =~= before.push(found.last()));
        } else {
            assert(pairs =~= before);
        }
    } else {
        assert(pairs =~= Seq::<(u64, u32)>::empty());
    }
}

/// The rows whose key spells an id are the candidates, each with its place and that id, in the
/// order of the rows; no other row is one.
pub proof fn law_candidates_spell_ids(pks: Seq<String>)
    requires
        pks.len() <= usize::MAX,
    ensures
        forall|i: int|
            0 <= i < candidates_of(pks).len() ==> {
                let c = #[trigger] candidates_of(pks)[i];
                c.0 < pks.len() && text::unsigned_of(pks[c.0 as int]@, u64::MAX as nat) == Some(
                    c.1 as nat,
                )
            },
        forall|i: int, j: int|
            0 <= i < j < candidates_of(pks).len() ==> (#[trigger] candidates_of(pks)[i]).0 < (
            #[trigger] candidates_of(pks)[j]).0,
        forall|x: usize, id: u64|
            x < pks.len() && text::unsigned_of(pks[x as int]@, u64::MAX as nat) == Some(id as nat)
                ==> #[trigger] candidates_of(pks).contains((x, id)),
    decreases pks.len(),
{
    let all = candidates_of(pks);
    if pks.len() > 0 {
        let front = pks.drop_last();
        let rest = candidates_of(front);
        law_candidates_spell_ids(front);
        assert forall|i: int| 0 <= i < all.len() implies {
            let c = #[trigger] all[i];
            c.0 < pks.len() && text::unsigned_of(pks[c.0 as int]@, u64::MAX as nat) == Some(
                c.1 as nat,
            )
        } by {
            if i < rest.len() {
                assert(all[i] == rest[i]);
                assert(front[rest[i].0 as int] == pks[rest[i].0 as int]);
            } else {
                assert(text::unsigned_of(pks.last()@, u64::MAX as nat) == id_of(pks.last()@));
            }
        }
        assert forall|i: int, j: int| 0 <= i < j < all.len() implies (#[trigger] all[i]).0 < (
        #[trigger] all[j]).0 by {
            assert(all[i] == rest[i]);
            if j < rest.len() {
                assert(all[j] == rest[j]);
            }
        }
        assert forall|x: usize, id: u64|
            x < pks.len() && text::unsigned_of(pks[x as int]@, u64::MAX as nat) == Some(
                id as nat,
            ) implies #[trigger] all.contains((x, id)) by {
            if x < front.len() {
                assert(front[x as int] == pks[x as int]);
                assert(rest.contains((x, id)));
                let k = choose|k: int| 0 <= k < rest.len() && rest[k] == (x, id);
                assert(all[k] == rest[k]);
            } else {
                assert(all[all.len() - 1] == (x, id));
            }
        }
    }
}

/// The candidates that have a vector come out with that vector's distance, their own id and their
/// own row, in their order; those without one do not come out.
pub proof fn law_measured_candidates(cands: Seq<(usize, u64)>, dists: Seq<Option<u32>>)
    requires
        cands.len() <= dists.len(),
    ensures
        forall|i: int|
            0 <= i < measured(cands, dists).len() ==> exists|c: int|
                0 <= c < cands.len() && #[trigger] dists[c] == Some(
                    (#[trigger] measured(cands, dists)[i]).distance,
                ) && cands[c] == (measured(cands, dists)[i].row, measured(cands, dists)[i].id),
        forall|c: int, d: u32|
            0 <= c < cands.len() && dists[c] == Some(d) ==> #[trigger] measured(
                cands,
                dists,
            ).contains((RagHit { id: cands[c].1, distance: d, row: cands[c].0 })),
        measured(cands, dists).len() <= cands.len(),
    decreases cands.len(),
{
    let all = measured(cands, dists);
    if cands.len() > 0 {
        let n = cands.len() - 1;
        let front = cands.drop_last();
        let rest = measured(front, dists);
        law_measured_candidates(front, dists);
        assert forall|i: int| 0 <= i < all.len() implies exists|c: int|
            0 <= c < cands.len() && #[trigger] dists[c] == Some((#[trigger] all[i]).distance)
                && cands[c] == (all[i].row, all[i].id) by {
            if i < rest.len() {
                assert(all[i] == rest[i]);
                let c = choose|c: int|
                    0 <= c < front.len() && #[trigger] dists[c] == Some(rest[i].distance)
                        && front[c] == (rest[i].row, rest[i].id);
                assert(cands[c] == front[c]);
                assert(dists[c] == Some(all[i].distance));
            } else {
                assert(dists[n] == Some(all[i].distance));
                assert(cands[n] == (all[i].row, all[i].id));
            }
        }
        assert forall|c: int, d: u32|
            0 <= c < cands.len() && dists[c] == Some(d) implies #[trigger] all.contains(
            (RagHit { id: cands[c].1, distance: d, row: cands[c].0 }),
        ) by {
            let h = RagHit { id: cands[c].1, distance: d, row: cands[c].0 };
            if c < n {
                assert(front[c] == cands[c]);
                assert(rest.contains(h));
                let k = choose|k: int| 0 <= k < rest.len() && rest[k] == h;
                assert(all[k] == h);
            } else {
                assert(all[all.len() - 1] == h);
            }
        }
    }
}

/// Rows are few where they are at most a twentieth of a table.
pub proof fn law_few_is_a_twentieth(p: nat, m: nat)
    requires
        m > 0,
        100 * m <= SINGLE,
        p <= 100,
    ensures
        few(p * m, 100 * m) <==> p <= 5,
{
    let lim = SINGLE as nat;
    assert(p * m <= 100 * m) by (nonlinear_arith)
        requires
            p <= 100,
    ;
    crate::bench_checks::lemma_percents(p, m, lim);
    if p <= 5 {
        rounding::lemma_literal_grows(p, 5, 100, lim);
    } else {
        crate::bench_checks::lemma_literals_rise(5, p, 100, lim);
    }
}

} // verus!
