//! Recall: the candidates of a query, the best of them that the asking agent may see,
//! and what was known at some time. The caller searches the vector index and scores.
use crate::memory;
use crate::memory::{Memory, Rows};
use crate::memory_keys as keys;
use crate::memory_keys::Meta;
use crate::order;
use crate::order::{key_of, sort_places};
use crate::scan::push_all;
use crate::store;
use crate::store::Store;
use crate::tokens;
use crate::tokens::tokenize;
use vstd::prelude::*;

verus! {

/// The memories that a token of the query occurs in.
#[derive(Debug, PartialEq)]
pub struct Posting {
    pub token: String,
    pub ids: Vec<u64>,
}

pub open spec fn kw_prefix(token: Seq<char>) -> Seq<u8> {
    keys::kw_head() + vstd::utf8::encode_utf8(token) + seq![58u8]
}

/// The ids in the postings of a token, in the order of the rows.
pub open spec fn posted(rows: Seq<store::Row>, token: Seq<char>) -> Seq<u64> {
    let found = store::rows_under(rows, kw_prefix(token));
    Seq::new(found.len(), |i: int| memory::tail_id(found[i].0))
}

/// The ids posted under a token. Their number is the token's document frequency.
fn posted_ids(s: &Store, token: &str) -> (r: Vec<u64>)
    requires
        s.wf(),
    ensures
        r@ == posted(s.rows(), token@),
{
    let mut prefix: Vec<u8> = vec![109u8, 101u8, 109u8, 58u8, 107u8, 119u8, 58u8];
    push_all(&mut prefix, token.as_bytes());
    prefix.push(58);
    proof {
        assert(prefix@ =~= kw_prefix(token@));
    }
    let found = s.scan_prefix(&prefix);
    let ghost rows = store::rows_under(s.rows(), kw_prefix(token@));
    let mut out: Vec<u64> = Vec::new();
    let mut i: usize = 0;
    while i < found.len()
        invariant
            rows == store::rows_of(found@),
            rows == store::rows_under(s.rows(), kw_prefix(token@)),
            i <= found@.len(),
            out@ == Seq::new(i as nat, |k: int| memory::tail_id(rows[k].0)),
        decreases found@.len() - i,
    {
        proof {
            assert(rows[i as int].0 == found@[i as int].0@);
            s.rows().lemma_filter_pred(
                |r: store::Row| kw_prefix(token@).is_prefix_of(r.0),
                i as int,
            );
            assert(kw_prefix(token@).len() >= 8);
        }
        out.push(memory::last_id(&found[i].0));
        i = i + 1;
        proof {
            assert(out@ =~= Seq::new(i as nat, |k: int| memory::tail_id(rows[k].0)));
        }
    }
    proof {
        assert(out@ =~= posted(s.rows(), token@));
    }
    out
}

/// For each token of the query, the memories it occurs in.
pub fn postings(s: &Store, query: &str) -> (r: Vec<Posting>)
    requires
        s.wf(),
    ensures
        r@.len() == tokens::tokens(query@).len(),
        forall|i: int|
            0 <= i < r@.len() ==> (#[trigger] r@[i]).token@ == tokens::tokens(query@)[i]
                && r@[i].ids@ == posted(s.rows(), tokens::tokens(query@)[i]),
{
    let toks = tokenize(query);
    let ghost all = tokens::tokens(query@);
    let mut out: Vec<Posting> = Vec::new();
    let mut i: usize = 0;
    while i < toks.len()
        invariant
            s.wf(),
            all == tokens::text_views(toks@),
            i <= toks@.len(),
            out@.len() == i,
            forall|k: int|
                0 <= k < i ==> (#[trigger] out@[k]).token@ == all[k] && out@[k].ids@ == posted(
                    s.rows(),
                    all[k],
                ),
        decreases toks@.len() - i,
    {
        assert(all[i as int] == toks@[i as int]@);
        let ids = posted_ids(s, toks[i].as_str());
        out.push(Posting { token: toks[i].clone(), ids });
        i = i + 1;
    }
    out
}

/// A memory that the index or a token found: its place among the hits of the index, and
/// the query tokens that it is posted under.
#[derive(Debug, PartialEq)]
pub struct Candidate {
    pub id: u64,
    pub semantic: Option<usize>,
    pub tokens: Vec<usize>,
}

/// The last place of `id` among the first `n` of `hits`.
pub open spec fn last_place(hits: Seq<u64>, id: u64, n: int) -> Option<usize>
    decreases n,
{
    if n <= 0 {
        None
    } else if hits[n - 1] == id {
        Some((n - 1) as usize)
    } else {
        last_place(hits, id, n - 1)
    }
}

/// `t`, as often as `id` occurs among the first `n` of `ids`.
pub open spec fn repeats(ids: Seq<u64>, id: u64, t: usize, n: int) -> Seq<usize>
    decreases n,
{
    if n <= 0 {
        Seq::empty()
    } else if ids[n - 1] == id {
        repeats(ids, id, t, n - 1).push(t)
    } else {
        repeats(ids, id, t, n - 1)
    }
}

/// The places of the first `n` postings that hold `id`, once for each time they hold it.
pub open spec fn posted_under(post: Seq<Posting>, id: u64, n: int) -> Seq<usize>
    decreases n,
{
    if n <= 0 {
        Seq::empty()
    } else {
        let ids = post[n - 1].ids@;
        posted_under(post, id, n - 1) + repeats(ids, id, (n - 1) as usize, ids.len() as int)
    }
}

/// Whether the index or some posting holds `id`.
pub open spec fn found(hits: Seq<u64>, post: Seq<Posting>, id: u64) -> bool {
    hits.contains(id) || exists|t: int| 0 <= t < post.len() && (#[trigger] post[t]).ids@.contains(id)
}

/// Whether `id` is among the candidates.
pub open spec fn listed(r: Seq<Candidate>, id: u64) -> bool {
    exists|i: int| 0 <= i < r.len() && (#[trigger] r[i]).id == id
}

/// No memory twice, each of them found, with everything that found it.
pub open spec fn sound(hits: Seq<u64>, post: Seq<Posting>, r: Seq<Candidate>) -> bool {
    &&& forall|i: int, j: int| 0 <= i < j < r.len() ==> (#[trigger] r[i]).id != (#[trigger] r[j]).id
    &&& forall|i: int|
        0 <= i < r.len() ==> {
            &&& found(hits, post, (#[trigger] r[i]).id)
            &&& r[i].semantic == last_place(hits, r[i].id, hits.len() as int)
            &&& r[i].tokens@ == posted_under(post, r[i].id, post.len() as int)
        }
}

/// Each memory that was found once, with everything that found it.
pub open spec fn fused(hits: Seq<u64>, post: Seq<Posting>, r: Seq<Candidate>) -> bool {
    sound(hits, post, r) && forall|id: u64| #[trigger] found(hits, post, id) ==> listed(r, id)
}

fn candidate(hits: &Vec<u64>, post: &Vec<Posting>, id: u64) -> (r: Candidate)
    ensures
        r.id == id,
        r.semantic == last_place(hits@, id, hits@.len() as int),
        r.tokens@ == posted_under(post@, id, post@.len() as int),
{
    let mut semantic: Option<usize> = None;
    let mut i: usize = 0;
    while i < hits.len()
        invariant
            i <= hits@.len(),
            semantic == last_place(hits@, id, i as int),
        decreases hits@.len() - i,
    {
        if hits[i] == id {
            semantic = Some(i);
        }
        i = i + 1;
    }
    let mut toks: Vec<usize> = Vec::new();
    let mut t: usize = 0;
    while t < post.len()
        invariant
            t <= post@.len(),
            toks@ == posted_under(post@, id, t as int),
        decreases post@.len() - t,
    {
        let ids = &post[t].ids;
        let mut j: usize = 0;
        let ghost before = toks@;
        proof {
            assert(before + repeats(ids@, id, t, 0) =~= before);
        }
        while j < ids.len()
            invariant
                j <= ids@.len(),
                toks@ == before + repeats(ids@, id, t, j as int),
            decreases ids@.len() - j,
        {
            if ids[j] == id {
                toks.push(t);
            }
            j = j + 1;
            proof {
                assert(toks@ =~= before + repeats(ids@, id, t, j as int));
            }
        }
        t = t + 1;
    }
    Candidate { id, semantic, tokens: toks }
}

fn add_candidate(out: &mut Vec<Candidate>, hits: &Vec<u64>, post: &Vec<Posting>, id: u64)
    requires
        found(hits@, post@, id),
        sound(hits@, post@, old(out)@),
    ensures
        sound(hits@, post@, final(out)@),
        listed(final(out)@, id),
        forall|x: u64| #[trigger] listed(old(out)@, x) ==> listed(final(out)@, x),
{
    let mut i: usize = 0;
    let ghost before = out@;
    let mut known: bool = false;
    while i < out.len() && !known
        invariant
            i <= out@.len(),
            out@ == before,
            known ==> listed(before, id),
            !known ==> forall|k: int| 0 <= k < i ==> (#[trigger] out@[k]).id != id,
        decreases out@.len() - i, (if known { 0int } else { 1int }),
    {
        if out[i].id == id {
            known = true;
        } else {
            i = i + 1;
        }
    }
    if !known {
        let c = candidate(hits, post, id);
        out.push(c);
        proof {
            assert(out@[before.len() as int].id == id);
            assert forall|x: u64| #[trigger] listed(before, x) implies listed(out@, x) by {
                let k = choose|k: int| 0 <= k < before.len() && (#[trigger] before[k]).id == x;
                assert(out@[k].id == x);
            }
        }
    }
}

/// The memories that the index or the query's tokens found. `hits` holds the ids that
/// the index found, best first.
pub fn recall_candidates(hits: &Vec<u64>, post: &Vec<Posting>) -> (r: Vec<Candidate>)
    ensures
        fused(hits@, post@, r@),
{
    let mut out: Vec<Candidate> = Vec::new();
    let mut i: usize = 0;
    while i < hits.len()
        invariant
            i <= hits@.len(),
            sound(hits@, post@, out@),
            forall|k: int| 0 <= k < i ==> #[trigger] listed(out@, hits@[k]),
        decreases hits@.len() - i,
    {
        let ghost before = out@;
        assert(hits@.contains(hits@[i as int]));
        add_candidate(&mut out, hits, post, hits[i]);
        proof {
            assert forall|k: int| 0 <= k < i + 1 implies #[trigger] listed(out@, hits@[k]) by {
                if k < i {
                    assert(listed(before, hits@[k]));
                }
            }
        }
        i = i + 1;
    }
    let mut t: usize = 0;
    while t < post.len()
        invariant
            t <= post@.len(),
            sound(hits@, post@, out@),
            forall|k: int| 0 <= k < hits@.len() ==> #[trigger] listed(out@, hits@[k]),
            forall|u: int, k: int|
                0 <= u < t && 0 <= k < post@[u].ids@.len() ==> #[trigger] listed(
                    out@,
                    post@[u].ids@[k],
                ),
        decreases post@.len() - t,
    {
        let ids = &post[t].ids;
        let mut j: usize = 0;
        while j < ids.len()
            invariant
                t < post@.len(),
                *ids == post@[t as int].ids,
                j <= ids@.len(),
                sound(hits@, post@, out@),
                forall|k: int| 0 <= k < hits@.len() ==> #[trigger] listed(out@, hits@[k]),
                forall|u: int, k: int|
                    0 <= u < t && 0 <= k < post@[u].ids@.len() ==> #[trigger] listed(
                        out@,
                        post@[u].ids@[k],
                    ),
                forall|k: int| 0 <= k < j ==> #[trigger] listed(out@, ids@[k]),
            decreases ids@.len() - j,
        {
            let ghost before = out@;
            assert(post@[t as int].ids@.contains(ids@[j as int]));
            add_candidate(&mut out, hits, post, ids[j]);
            proof {
                assert forall|k: int| 0 <= k < hits@.len() implies #[trigger] listed(
                    out@,
                    hits@[k],
                ) by {
                    assert(listed(before, hits@[k]));
                }
                assert forall|u: int, k: int|
                    0 <= u < t && 0 <= k < post@[u].ids@.len() implies #[trigger] listed(
                    out@,
                    post@[u].ids@[k],
                ) by {
                    assert(listed(before, post@[u].ids@[k]));
                }
                assert forall|k: int| 0 <= k < j + 1 implies #[trigger] listed(out@, ids@[k]) by {
                    if k < j {
                        assert(listed(before, ids@[k]));
                    }
                }
            }
            j = j + 1;
        }
        t = t + 1;
    }
    proof {
        assert forall|id: u64| #[trigger] found(hits@, post@, id) implies listed(out@, id) by {
            if hits@.contains(id) {
                let k = choose|k: int| 0 <= k < hits@.len() && hits@[k] == id;
                assert(listed(out@, hits@[k]));
            } else {
                let u = choose|u: int|
                    0 <= u < post@.len() && (#[trigger] post@[u]).ids@.contains(id);
                let k = choose|k: int| 0 <= k < post@[u].ids@.len() && post@[u].ids@[k] == id;
                assert(listed(out@, post@[u].ids@[k]));
            }
        }
    }
    out
}

/// A scored candidate: the bits of its score, and whether the index found it.
#[derive(Clone, Copy, Debug, PartialEq, Eq, Structural)]
pub struct Scored {
    pub id: u64,
    pub score: u32,
    pub semantic: bool,
}

/// A recalled memory.
#[derive(Clone, Debug, PartialEq)]
pub struct RecallHit {
    pub id: u64,
    pub text: String,
    pub score: u32,
    pub kind: &'static str,
    pub meta: Meta,
}

/// What a hit says.
pub struct HitView {
    pub id: u64,
    pub text: Seq<char>,
    pub score: u32,
    pub kind: Seq<char>,
    pub meta: keys::MetaView,
}

impl View for RecallHit {
    type V = HitView;

    open spec fn view(&self) -> HitView {
        HitView {
            id: self.id,
            text: self.text@,
            score: self.score,
            kind: self.kind@,
            meta: self.meta@,
        }
    }
}

pub open spec fn hit_views(s: Seq<RecallHit>) -> Seq<HitView> {
    Seq::new(s.len(), |i: int| s[i]@)
}

/// Keys that put the highest score first.
pub open spec fn score_keys(s: Seq<Scored>) -> Seq<i128> {
    Seq::new(s.len(), |i: int| (-order::float_key(s[i].score)) as i128)
}

/// Whether an agent may see a memory: its own, and those without an owner.
pub open spec fn may_see(owner: Seq<char>, scope: Seq<char>) -> bool {
    owner.len() == 0 || owner == scope
}

pub open spec fn kind_name(semantic: bool) -> Seq<char> {
    if semantic {
        "semantic"@
    } else {
        "keyword"@
    }
}

/// Whether the validity of a fact has ended by a time; 0 means that it has no end.
pub open spec fn ended(m: keys::MetaView, now: u64) -> bool {
    m.valid_to != 0 && m.valid_to <= now
}

/// The memories among `top` that are still stored, that the agent may see, and whose validity
/// has not ended.
pub open spec fn visible(s: Rows, scope: Seq<char>, now: u64, top: Seq<Scored>) -> Seq<HitView>
    decreases top.len(),
{
    if top.len() == 0 {
        Seq::empty()
    } else {
        let rest = visible(s, scope, now, top.drop_last());
        let c = top.last();
        match memory::ltm_for(s, c.id) {
            Some((text, meta)) => if may_see(meta.owner, scope) && !ended(meta, now) {
                rest.push(
                    HitView { id: c.id, text, score: c.score, kind: kind_name(c.semantic), meta },
                )
            } else {
                rest
            },
            None => rest,
        }
    }
}

pub open spec fn at_most(n: nat, k: nat) -> nat {
    if n < k {
        n
    } else {
        k
    }
}

/// The first `3 * k` of the candidates by score, highest first.
pub open spec fn best(all: Seq<Scored>, p: Seq<usize>, k: nat) -> Seq<Scored> {
    Seq::new(at_most(all.len(), 3 * k), |i: int| all[p[i] as int])
}

/// `r` is what a scoped recall of `k` memories gives: of the best `3 * k` candidates,
/// the first `k` that the agent may see and that have not ended.
pub open spec fn recalled(
    s: Rows,
    scope: Seq<char>,
    now: u64,
    all: Seq<Scored>,
    k: nat,
    r: Seq<HitView>,
) -> bool {
    exists|p: Seq<usize>|
        #![trigger order::stable_order(score_keys(all), p)]
        order::stable_order(score_keys(all), p) && {
            let v = visible(s, scope, now, best(all, p, k));
            r == v.take(at_most(v.len(), k) as int)
        }
}

impl Memory {
    /// Recalls for an agent: of the best `3 * k` candidates, the first `k` that are its own
    /// or nobody's and whose validity has not ended by `now`.
    pub fn recall_scoped(
        &self,
        s: &Store,
        scope: &str,
        all: &Vec<Scored>,
        k: usize,
        now: u64,
    ) -> (r: Vec<RecallHit>)
        requires
            s.wf(),
            3 * k <= usize::MAX,
        ensures
            recalled(s@, scope@, now, all@, k as nat, hit_views(r@)),
    {
        let mut sort_keys: Vec<i128> = Vec::new();
        let mut i: usize = 0;
        while i < all.len()
            invariant
                i <= all@.len(),
                sort_keys@.len() == i,
                forall|x: int|
                    0 <= x < i ==> #[trigger] sort_keys@[x] == -order::float_key(all@[x].score),
            decreases all@.len() - i,
        {
            sort_keys.push(-key_of(all[i].score));
            i = i + 1;
        }
        proof {
            assert(sort_keys@ =~= score_keys(all@));
        }
        let p = sort_places(&sort_keys);
        let fetch: usize = 3 * k;
        let n: usize = if all.len() < fetch { all.len() } else { fetch };
        let ghost top = best(all@, p@, k as nat);
        let ghost whole = visible(s@, scope@, now, top);
        let mut out: Vec<RecallHit> = Vec::new();
        let mut j: usize = 0;
        proof {
            assert(hit_views(out@) =~= Seq::<HitView>::empty());
            assert(top.take(0).len() == 0);
        }
        while j < n && out.len() < k
            invariant
                s.wf(),
                n == top.len(),
                top == best(all@, p@, k as nat),
                order::stable_order(sort_keys@, p@),
                sort_keys@.len() == all@.len(),
                n <= all@.len(),
                j <= n,
                out@.len() <= k,
                hit_views(out@) == visible(s@, scope@, now, top.take(j as int)),
            decreases n - j,
        {
            let c: Scored = all[p[j]];
            proof {
                let t = top.take(j + 1);
                assert(t.drop_last() =~= top.take(j as int));
                assert(t.last() == c);
            }
            match self.ltm_get_light(s, c.id) {
                Some((text, meta)) => {
                    let over: bool = meta.valid_to != 0 && meta.valid_to <= now;
                    if (meta.owner.as_str().is_empty() || meta.owner == scope.to_owned()) && !over {
                        let h = RecallHit {
                            id: c.id,
                            text,
                            score: c.score,
                            kind: if c.semantic {
                                "semantic"
                            } else {
                                "keyword"
                            },
                            meta,
                        };
                        let ghost before = out@;
                        let ghost v = h@;
                        out.push(h);
                        proof {
                            assert(hit_views(out@) =~= hit_views(before).push(v));
                        }
                    }
                },
                None => {},
            }
            j = j + 1;
        }
        proof {
            lemma_visible_prefix(s@, scope@, now, top, j as int);
            assert(top.take(n as int) =~= top);
            assert(hit_views(out@) =~= whole.take(at_most(whole.len(), k as nat) as int));
            assert(order::stable_order(score_keys(all@), p@));
        }
        out
    }
}

/// What is visible in a prefix of the candidates is a prefix of what is visible in all.
proof fn lemma_visible_prefix(s: Rows, scope: Seq<char>, now: u64, top: Seq<Scored>, j: int)
    requires
        0 <= j <= top.len(),
    ensures
        visible(s, scope, now, top.take(j)).is_prefix_of(visible(s, scope, now, top)),
    decreases top.len() - j,
{
    let a = visible(s, scope, now, top.take(j));
    let all = visible(s, scope, now, top);
    if j == top.len() {
        assert(top.take(j) =~= top);
        assert(all.subrange(0, all.len() as int) =~= all);
    } else {
        lemma_visible_prefix(s, scope, now, top, j + 1);
        let t = top.take(j + 1);
        let b = visible(s, scope, now, t);
        assert(t.drop_last() =~= top.take(j));
        assert(b.subrange(0, a.len() as int) =~= a);
        assert(all.subrange(0, a.len() as int) =~= all.subrange(0, b.len() as int).subrange(
            0,
            a.len() as int,
        ));
    }
}

impl Memory {
    /// Recalls for the default agent.
    pub fn recall(&self, s: &Store, all: &Vec<Scored>, k: usize, now: u64) -> (r: Vec<RecallHit>)
        requires
            s.wf(),
            3 * k <= usize::MAX,
        ensures
            recalled(s@, "default"@, now, all@, k as nat, hit_views(r@)),
    {
        self.recall_scoped(s, "default", all, k, now)
    }
}

/// Whether a fact holds at a time; 0 at either end of its interval means no bound.
pub open spec fn holds_at(m: keys::MetaView, t: u64) -> bool {
    (m.valid_from == 0 || m.valid_from <= t) && (m.valid_to == 0 || m.valid_to > t)
}

/// `r` is what a recall of `k` memories as of a time gives: of four times as many hits, whether or
/// not their validity has ended since, the first `k` that held then.
pub open spec fn recalled_as_of(
    s: Rows,
    scope: Seq<char>,
    all: Seq<Scored>,
    k: nat,
    as_of: u64,
    r: Seq<HitView>,
) -> bool {
    exists|wide: Seq<HitView>|
        #![trigger recalled(s, scope, 0, all, 4 * k, wide)]
        recalled(s, scope, 0, all, 4 * k, wide) && {
            let held = wide.filter(|h: HitView| holds_at(h.meta, as_of));
            r == held.take(at_most(held.len(), k) as int)
        }
}

impl Memory {
    /// Recalls what was known at a time: of four times as many hits, whether or not their
    /// validity has ended since, the first `k` that held then.
    pub fn recall_as_of(
        &self,
        s: &Store,
        scope: &str,
        all: &Vec<Scored>,
        k: usize,
        as_of: u64,
    ) -> (r: Vec<RecallHit>)
        requires
            s.wf(),
            12 * k <= usize::MAX,
        ensures
            recalled_as_of(s@, scope@, all@, k as nat, as_of, hit_views(r@)),
            exists|wide: Seq<HitView>|
                #![trigger recalled(s@, scope@, 0, all@, (4 * k) as nat, wide)]
                recalled(s@, scope@, 0, all@, (4 * k) as nat, wide) && {
                    let held = wide.filter(|h: HitView| holds_at(h.meta, as_of));
                    hit_views(r@) == held.take(at_most(held.len(), k as nat) as int)
                },
    {
        let wide = self.recall_scoped(s, scope, all, 4 * k, 0);
        let ghost w = hit_views(wide@);
        let ghost p = |h: HitView| holds_at(h.meta, as_of);
        let mut out: Vec<RecallHit> = Vec::new();
        let mut i: usize = 0;
        proof {
            assert(hit_views(out@) =~= Seq::<HitView>::empty());
            assert(w.take(0).filter(p) =~= Seq::<HitView>::empty());
        }
        while i < wide.len() && out.len() < k
            invariant
                w == hit_views(wide@),
                p == (|h: HitView| holds_at(h.meta, as_of)),
                i <= wide@.len(),
                out@.len() <= k,
                hit_views(out@) == w.take(i as int).filter(p),
            decreases wide@.len() - i,
        {
            let h = &wide[i];
            proof {
                assert(w.take(i + 1) =~= w.take(i as int).push(w[i as int]));
                w.take(i as int).lemma_filter_push(w[i as int], p);
                assert(w[i as int] == h@);
            }
            let m = &h.meta;
            if (m.valid_from == 0 || m.valid_from <= as_of) && (m.valid_to == 0 || m.valid_to > as_of) {
                let c = RecallHit {
                    id: h.id,
                    text: h.text.clone(),
                    score: h.score,
                    kind: h.kind,
                    meta: h.meta.clone(),
                };
                let ghost before = out@;
                let ghost v = c@;
                out.push(c);
                proof {
                    assert(v == h@);
                    assert(hit_views(out@) =~= hit_views(before).push(v));
                }
            }
            i = i + 1;
        }
        proof {
            let a = w.take(i as int);
            let b = w.skip(i as int);
            assert(a + b =~= w);
            Seq::filter_distributes_over_add(a, b, p);
            let held = w.filter(p);
            if i == wide@.len() {
                assert(b =~= Seq::<HitView>::empty());
                assert(b.filter(p) =~= Seq::<HitView>::empty());
            }
            assert(hit_views(out@) =~= held.take(at_most(held.len(), k as nat) as int));
            assert(recalled(s@, scope@, 0, all@, (4 * k) as nat, w));
        }
        out
    }
}

proof fn lemma_visible_sound(s: Rows, scope: Seq<char>, now: u64, top: Seq<Scored>, i: int)
    requires
        0 <= i < visible(s, scope, now, top).len(),
    ensures
        ({
            let h = visible(s, scope, now, top)[i];
            &&& may_see(h.meta.owner, scope)
            &&& !ended(h.meta, now)
            &&& memory::ltm_for(s, h.id) == Some((h.text, h.meta))
            &&& exists|c: int|
                0 <= c < top.len() && (#[trigger] top[c]).id == h.id && top[c].score == h.score
        }),
    decreases top.len(),
{
    let front = top.drop_last();
    let rest = visible(s, scope, now, front);
    if i < rest.len() {
        lemma_visible_sound(s, scope, now, front, i);
        let h = rest[i];
        let c = choose|c: int|
            0 <= c < front.len() && (#[trigger] front[c]).id == h.id && front[c].score == h.score;
        assert(top[c].id == h.id && top[c].score == h.score);
    } else {
        assert(top[top.len() - 1].id == visible(s, scope, now, top)[i].id);
    }
}

/// Whether two hits are those of two candidates, in their order.
pub open spec fn ranked_so(top: Seq<Scored>, a: HitView, b: HitView) -> bool {
    exists|c: int, d: int|
        0 <= c < d < top.len() && (#[trigger] top[c]).id == a.id && top[c].score == a.score && (
        #[trigger] top[d]).id == b.id && top[d].score == b.score
}

proof fn lemma_visible_ranked(s: Rows, scope: Seq<char>, now: u64, top: Seq<Scored>, i: int, j: int)
    requires
        0 <= i < j < visible(s, scope, now, top).len(),
    ensures
        ranked_so(top, visible(s, scope, now, top)[i], visible(s, scope, now, top)[j]),
    decreases top.len(),
{
    let front = top.drop_last();
    let rest = visible(s, scope, now, front);
    let v = visible(s, scope, now, top);
    if j < rest.len() {
        lemma_visible_ranked(s, scope, now, front, i, j);
        let (c, d) = choose|c: int, d: int|
            0 <= c < d < front.len() && (#[trigger] front[c]).id == v[i].id && front[c].score
                == v[i].score && (#[trigger] front[d]).id == v[j].id && front[d].score == v[j].score;
        assert(top[c] == front[c] && top[d] == front[d]);
    } else {
        lemma_visible_sound(s, scope, now, front, i);
        let c = choose|c: int|
            0 <= c < front.len() && (#[trigger] front[c]).id == v[i].id && front[c].score
                == v[i].score;
        assert(top[c] == front[c]);
        assert(top[top.len() - 1].id == v[j].id && top[top.len() - 1].score == v[j].score);
    }
}

/// An agent never recalls a memory that belongs to another one or that has ended, and no more
/// memories than it asked for; each is stored as it was returned. Scores never rise from one hit
/// to the next, and no memory comes twice where no candidate does.
pub proof fn law_recall_is_scoped(
    s: Rows,
    scope: Seq<char>,
    now: u64,
    all: Seq<Scored>,
    k: nat,
    r: Seq<HitView>,
)
    requires
        recalled(s, scope, now, all, k, r),
    ensures
        r.len() <= k,
        forall|i: int|
            0 <= i < r.len() ==> may_see((#[trigger] r[i]).meta.owner, scope) && !ended(
                r[i].meta,
                now,
            ) && memory::ltm_for(s, r[i].id) == Some((r[i].text, r[i].meta)),
        forall|i: int, j: int|
            0 <= i < j < r.len() ==> order::float_key((#[trigger] r[i]).score) >= order::float_key(
                (#[trigger] r[j]).score,
            ),
        (forall|i: int, j: int|
            0 <= i < j < all.len() ==> (#[trigger] all[i]).id != (#[trigger] all[j]).id)
            ==> forall|i: int, j: int|
            0 <= i < j < r.len() ==> (#[trigger] r[i]).id != (#[trigger] r[j]).id,
{
    let p = choose|p: Seq<usize>|
        #![trigger order::stable_order(score_keys(all), p)]
        order::stable_order(score_keys(all), p) && {
            let v = visible(s, scope, now, best(all, p, k));
            r == v.take(at_most(v.len(), k) as int)
        };
    let top = best(all, p, k);
    let v = visible(s, scope, now, top);
    assert forall|i: int| 0 <= i < r.len() implies may_see((#[trigger] r[i]).meta.owner, scope)
        && !ended(r[i].meta, now) && memory::ltm_for(s, r[i].id) == Some(
        (r[i].text, r[i].meta),
    ) by {
        lemma_visible_sound(s, scope, now, top, i);
        assert(r[i] == v[i]);
    }
    assert forall|i: int, j: int| 0 <= i < j < r.len() implies order::float_key(
        (#[trigger] r[i]).score,
    ) >= order::float_key((#[trigger] r[j]).score) && ((forall|x: int, y: int|
        0 <= x < y < all.len() ==> (#[trigger] all[x]).id != (#[trigger] all[y]).id) ==> r[i].id
        != r[j].id) by {
        lemma_visible_ranked(s, scope, now, top, i, j);
        assert(r[i] == v[i] && r[j] == v[j]);
        let (c, d) = choose|c: int, d: int|
            0 <= c < d < top.len() && (#[trigger] top[c]).id == v[i].id && top[c].score
                == v[i].score && (#[trigger] top[d]).id == v[j].id && top[d].score == v[j].score;
        let (x, y) = (p[c] as int, p[d] as int);
        assert(top[c] == all[x] && top[d] == all[y]);
        assert(x != y);
        assert(score_keys(all)[x] <= score_keys(all)[y]);
    }
}

/// A fact that was invalidated is not known from that time on, and is still known before.
pub proof fn law_invalidated_fact_fades(m: keys::MetaView, at: u64, t: u64)
    requires
        at > 0,
    ensures
        t >= at ==> !holds_at((keys::MetaView { valid_to: at, ..m }), t),
        t < at && (m.valid_to == 0 || m.valid_to > t) ==> holds_at(
            (keys::MetaView { valid_to: at, ..m }),
            t,
        ) == holds_at(m, t),
{
}

/// Whether an agent may be shown what is stored under an id: it is stored, it is the agent's own
/// or nobody's, and its validity has no end or one that lies ahead.
pub open spec fn qualifies(s: Rows, scope: Seq<char>, now: u64, id: u64) -> bool {
    memory::ltm_for(s, id) matches Some((t, m)) && (m.owner == Seq::<char>::empty() || m.owner
        == scope) && (m.valid_to == 0 || now < m.valid_to)
}

/// The hit that a candidate makes.
pub open spec fn hit_of(s: Rows, c: Scored, h: HitView) -> bool {
    &&& h.id == c.id
    &&& h.score == c.score
    &&& c.semantic ==> h.kind == "semantic"@
    &&& !c.semantic ==> h.kind == "keyword"@
    &&& memory::ltm_for(s, c.id) == Some((h.text, h.meta))
}

proof fn lemma_visible_complete(s: Rows, scope: Seq<char>, now: u64, top: Seq<Scored>, c: int)
    requires
        0 <= c < top.len(),
        qualifies(s, scope, now, top[c].id),
    ensures
        exists|i: int|
            0 <= i < visible(s, scope, now, top).len() && hit_of(
                s,
                top[c],
                #[trigger] visible(s, scope, now, top)[i],
            ),
    decreases top.len(),
{
    let front = top.drop_last();
    let rest = visible(s, scope, now, front);
    let v = visible(s, scope, now, top);
    let (t, m) = memory::ltm_for(s, top[c].id)->0;
    assert(m.owner == Seq::<char>::empty() ==> m.owner.len() == 0);
    if c < front.len() {
        lemma_visible_complete(s, scope, now, front, c);
        let i = choose|i: int|
            0 <= i < rest.len() && hit_of(s, front[c], #[trigger] rest[i]);
        assert(v[i] == rest[i]);
    } else {
        assert(hit_of(s, top[c], v[v.len() - 1]));
    }
}

proof fn lemma_visible_hits(s: Rows, scope: Seq<char>, now: u64, top: Seq<Scored>, i: int)
    requires
        0 <= i < visible(s, scope, now, top).len(),
    ensures
        exists|c: int|
            0 <= c < top.len() && hit_of(s, #[trigger] top[c], visible(s, scope, now, top)[i]),
        qualifies(s, scope, now, visible(s, scope, now, top)[i].id),
    decreases top.len(),
{
    let front = top.drop_last();
    let rest = visible(s, scope, now, front);
    let v = visible(s, scope, now, top);
    if i < rest.len() {
        lemma_visible_hits(s, scope, now, front, i);
        let c = choose|c: int| 0 <= c < front.len() && hit_of(s, #[trigger] front[c], rest[i]);
        assert(top[c] == front[c]);
    } else {
        assert(hit_of(s, top[top.len() - 1], v[i]));
        let (t, m) = memory::ltm_for(s, top.last().id)->0;
        if m.owner.len() == 0 {
            assert(m.owner =~= Seq::<char>::empty());
        }
    }
}

/// What is recalled comes from the candidates as it is stored, with the candidate's score and
/// named after what found it, and is what the agent may be shown. Nothing that qualifies is left
/// out, whether the index or a keyword found it, unless `k` memories came back already, or three
/// times as many candidates score no less.
pub proof fn law_recall_is_complete(
    s: Rows,
    scope: Seq<char>,
    now: u64,
    all: Seq<Scored>,
    k: nat,
    r: Seq<HitView>,
    c: int,
)
    requires
        recalled(s, scope, now, all, k, r),
        0 <= c < all.len(),
        qualifies(s, scope, now, all[c].id),
    ensures
        ({
            ||| exists|i: int| 0 <= i < r.len() && hit_of(s, all[c], #[trigger] r[i])
            ||| r.len() == k
            ||| exists|q: Seq<usize>| #[trigger]
                q.no_duplicates() && q.len() == 3 * k && forall|i: int|
                    0 <= i < q.len() ==> (#[trigger] q[i]) < all.len() && q[i] != c
                        && order::float_key(all[q[i] as int].score) >= order::float_key(
                        all[c].score,
                    )
        }),
        all.len() <= k ==> exists|i: int| 0 <= i < r.len() && hit_of(s, all[c], #[trigger] r[i]),
{
    let keys = score_keys(all);
    let p = choose|p: Seq<usize>|
        #![trigger order::stable_order(score_keys(all), p)]
        order::stable_order(score_keys(all), p) && {
            let v = visible(s, scope, now, best(all, p, k));
            r == v.take(at_most(v.len(), k) as int)
        };
    let top = best(all, p, k);
    let v = visible(s, scope, now, top);
    order::law_stable_order_sorts(keys, p);
    assert(p.contains(c as usize));
    let at = choose|at: int| 0 <= at < p.len() && p[at] == c as usize;
    if at < top.len() {
        assert(top[at] == all[c]);
        lemma_visible_complete(s, scope, now, top, at);
        let i = choose|i: int| 0 <= i < v.len() && hit_of(s, top[at], #[trigger] v[i]);
        if v.len() <= k {
            assert(r[i] == v[i]);
        } else if all.len() <= k {
            lemma_visible_short(s, scope, now, top);
        }
    } else {
        let q = p.take((3 * k) as int);
        assert(top.len() == 3 * k);
        assert(q.no_duplicates());
        assert forall|i: int| 0 <= i < q.len() implies (#[trigger] q[i]) < all.len() && q[i] != c
            && order::float_key(all[q[i] as int].score) >= order::float_key(all[c].score) by {
            assert(q[i] == p[i]);
            assert(p[i] != p[at]);
            assert(keys[p[i] as int] <= keys[p[at] as int]);
        }
    }
}

proof fn lemma_visible_short(s: Rows, scope: Seq<char>, now: u64, top: Seq<Scored>)
    ensures
        visible(s, scope, now, top).len() <= top.len(),
    decreases top.len(),
{
    if top.len() > 0 {
        lemma_visible_short(s, scope, now, top.drop_last());
    }
}

/// Every recalled memory is a candidate's, as it is stored, and one that the agent may be shown.
pub proof fn law_recall_is_sound(
    s: Rows,
    scope: Seq<char>,
    now: u64,
    all: Seq<Scored>,
    k: nat,
    r: Seq<HitView>,
    i: int,
)
    requires
        recalled(s, scope, now, all, k, r),
        0 <= i < r.len(),
    ensures
        r.len() <= k,
        exists|c: int| 0 <= c < all.len() && hit_of(s, #[trigger] all[c], r[i]),
        qualifies(s, scope, now, r[i].id),
{
    let p = choose|p: Seq<usize>|
        #![trigger order::stable_order(score_keys(all), p)]
        order::stable_order(score_keys(all), p) && {
            let v = visible(s, scope, now, best(all, p, k));
            r == v.take(at_most(v.len(), k) as int)
        };
    let top = best(all, p, k);
    lemma_visible_hits(s, scope, now, top, i);
    let c = choose|c: int|
        0 <= c < top.len() && hit_of(s, #[trigger] top[c], visible(s, scope, now, top)[i]);
    assert(top[c] == all[p[c] as int]);
}

/// A fact holds from its beginning up to but not including its end, and where either is open,
/// without that bound.
pub proof fn law_facts_hold_between(m: keys::MetaView, t: u64)
    ensures
        m.valid_from != 0 && m.valid_to != 0 ==> (holds_at(m, t) <==> m.valid_from <= t < m.valid_to),
        m.valid_from == 0 && m.valid_to != 0 ==> (holds_at(m, t) <==> t < m.valid_to),
        m.valid_from != 0 && m.valid_to == 0 ==> (holds_at(m, t) <==> m.valid_from <= t),
        m.valid_from == 0 && m.valid_to == 0 ==> holds_at(m, t),
{
}

proof fn lemma_last_place(hits: Seq<u64>, id: u64, n: int)
    requires
        0 <= n <= hits.len() <= usize::MAX,
    ensures
        match last_place(hits, id, n) {
            Some(p) => p < n && hits[p as int] == id && forall|x: int|
                p < x < n ==> #[trigger] hits[x] != id,
            None => forall|x: int| 0 <= x < n ==> #[trigger] hits[x] != id,
        },
    decreases n,
{
    if n > 0 && hits[n - 1] != id {
        lemma_last_place(hits, id, n - 1);
    }
}

proof fn lemma_repeats(ids: Seq<u64>, id: u64, t: usize, n: int, x: usize)
    requires
        0 <= n <= ids.len(),
    ensures
        repeats(ids, id, t, n).to_multiset().count(x) == (if x == t {
            ids.take(n).to_multiset().count(id)
        } else {
            0
        }),
    decreases n,
{
    broadcast use vstd::seq_lib::group_to_multiset_ensures;

    if n > 0 {
        lemma_repeats(ids, id, t, n - 1, x);
        assert(ids.take(n) =~= ids.take(n - 1).push(ids[n - 1]));
    }
}

proof fn lemma_posted_under(post: Seq<Posting>, id: u64, n: int, t: usize)
    requires
        0 <= n <= post.len() <= usize::MAX,
    ensures
        posted_under(post, id, n).to_multiset().count(t) == (if t < n {
            post[t as int].ids@.to_multiset().count(id)
        } else {
            0
        }),
    decreases n,
{
    broadcast use vstd::seq_lib::group_to_multiset_ensures;

    if n > 0 {
        let ids = post[n - 1].ids@;
        let front = posted_under(post, id, n - 1);
        let more = repeats(ids, id, (n - 1) as usize, ids.len() as int);
        lemma_posted_under(post, id, n - 1, t);
        lemma_repeats(ids, id, (n - 1) as usize, ids.len() as int, t);
        assert(ids.take(ids.len() as int) =~= ids);
        vstd::seq_lib::lemma_multiset_commutative(front, more);
    }
}

/// A candidate knows everything that found it: its last place among the hits of the index, if it
/// has one there, and each token as often as that token's posting names it. A memory is a
/// candidate, once, where the index or a posting found it, and else it is none.
pub proof fn law_candidates_know_their_finders(
    hits: Seq<u64>,
    post: Seq<Posting>,
    r: Seq<Candidate>,
    id: u64,
)
    requires
        fused(hits, post, r),
        hits.len() <= usize::MAX,
        post.len() <= usize::MAX,
    ensures
        (exists|i: int| 0 <= i < r.len() && (#[trigger] r[i]).id == id) <==> (hits.contains(id)
            || exists|t: int| 0 <= t < post.len() && (#[trigger] post[t]).ids@.contains(id)),
        forall|i: int, j: int|
            0 <= i < j < r.len() ==> (#[trigger] r[i]).id != (#[trigger] r[j]).id,
        forall|i: int|
            0 <= i < r.len() ==> match (#[trigger] r[i]).semantic {
                Some(p) => p < hits.len() && hits[p as int] == r[i].id && forall|x: int|
                    p < x < hits.len() ==> #[trigger] hits[x] != r[i].id,
                None => !hits.contains(r[i].id),
            },
        forall|i: int, t: usize|
            0 <= i < r.len() ==> #[trigger] r[i].tokens@.to_multiset().count(t) == (if t
                < post.len() {
                post[t as int].ids@.to_multiset().count(r[i].id)
            } else {
                0
            }),
{
    assert(found(hits, post, id) ==> listed(r, id));
    if listed(r, id) {
        let i = choose|i: int| 0 <= i < r.len() && (#[trigger] r[i]).id == id;
        assert(found(hits, post, r[i].id));
    }
    assert forall|i: int| 0 <= i < r.len() implies match (#[trigger] r[i]).semantic {
        Some(p) => p < hits.len() && hits[p as int] == r[i].id && forall|x: int|
            p < x < hits.len() ==> #[trigger] hits[x] != r[i].id,
        None => !hits.contains(r[i].id),
    } by {
        lemma_last_place(hits, r[i].id, hits.len() as int);
    }
    assert forall|i: int, t: usize| 0 <= i < r.len() implies #[trigger] r[i].tokens@.to_multiset(

    ).count(t) == (if t < post.len() {
        post[t as int].ids@.to_multiset().count(r[i].id)
    } else {
        0
    }) by {
        lemma_posted_under(post, r[i].id, post.len() as int, t);
    }
}

/// What is recalled as of a time is stored, the agent's own or nobody's, and held at that time,
/// though it may have ended since. Of no more than four times as many candidates as were asked
/// for, nothing that held is left out unless as many came back as were asked for.
pub proof fn law_past_recall_is_complete(
    s: Rows,
    scope: Seq<char>,
    all: Seq<Scored>,
    k: nat,
    as_of: u64,
    r: Seq<HitView>,
    c: int,
)
    requires
        recalled_as_of(s, scope, all, k, as_of, r),
    ensures
        r.len() <= k,
        forall|i: int|
            0 <= i < r.len() ==> {
                let m = (#[trigger] r[i]).meta;
                &&& memory::ltm_for(s, r[i].id) == Some((r[i].text, m))
                &&& m.owner == Seq::<char>::empty() || m.owner == scope
                &&& m.valid_from <= as_of
                &&& m.valid_to == 0 || as_of < m.valid_to
            },
        0 <= c < all.len() <= 4 * k ==> (memory::ltm_for(s, all[c].id) matches Some((t, m)) ==> (
        m.owner == Seq::<char>::empty() || m.owner == scope) && m.valid_from <= as_of && (
        m.valid_to == 0 || as_of < m.valid_to) ==> r.len() == k || exists|i: int|
            0 <= i < r.len() && hit_of(s, all[c], #[trigger] r[i])),
{
    let p = |h: HitView| holds_at(h.meta, as_of);
    let wide = choose|wide: Seq<HitView>|
        #![trigger recalled(s, scope, 0, all, 4 * k, wide)]
        recalled(s, scope, 0, all, 4 * k, wide) && {
            let held = wide.filter(p);
            r == held.take(at_most(held.len(), k) as int)
        };
    let held = wide.filter(p);
    assert forall|i: int| 0 <= i < r.len() implies {
        let m = (#[trigger] r[i]).meta;
        &&& memory::ltm_for(s, r[i].id) == Some((r[i].text, m))
        &&& m.owner == Seq::<char>::empty() || m.owner == scope
        &&& m.valid_from <= as_of
        &&& m.valid_to == 0 || as_of < m.valid_to
    } by {
        assert(r[i] == held[i]);
        wide.lemma_filter_pred(p, i);
        wide.lemma_filter_contains_rev(p, held[i]);
        let w = choose|w: int| 0 <= w < wide.len() && wide[w] == held[i];
        law_recall_is_sound(s, scope, 0, all, 4 * k, wide, w);
    }
    if 0 <= c < all.len() <= 4 * k && memory::ltm_for(s, all[c].id) is Some {
        let (t, m) = memory::ltm_for(s, all[c].id)->0;
        if (m.owner == Seq::<char>::empty() || m.owner == scope) && m.valid_from <= as_of && (
        m.valid_to == 0 || as_of < m.valid_to) {
            law_recall_is_complete(s, scope, 0, all, 4 * k, wide, c);
            let w = choose|w: int| 0 <= w < wide.len() && hit_of(s, all[c], #[trigger] wide[w]);
            assert(p(wide[w]));
            wide.lemma_filter_contains(p, w);
            let j = choose|j: int| 0 <= j < held.len() && held[j] == wide[w];
            if j < r.len() {
                assert(r[j] == held[j]);
            }
        }
    }
}

/// A memory is posted under a token where a row of that token's postings ends in its id, and as
/// often as such rows are.
pub proof fn law_postings_name_the_ids(rows: Seq<store::Row>, token: Seq<char>, id: u64)
    ensures
        posted(rows, token).contains(id) <==> exists|i: int|
            0 <= i < rows.len() && kw_prefix(token).is_prefix_of((#[trigger] rows[i]).0)
                && memory::tail_id(rows[i].0) == id,
{
    let p = |r: store::Row| kw_prefix(token).is_prefix_of(r.0);
    let found = store::rows_under(rows, kw_prefix(token));
    if posted(rows, token).contains(id) {
        let k = choose|k: int| 0 <= k < found.len() && posted(rows, token)[k] == id;
        rows.lemma_filter_pred(p, k);
        rows.lemma_filter_contains_rev(p, found[k]);
        let i = choose|i: int| 0 <= i < rows.len() && rows[i] == found[k];
        assert(kw_prefix(token).is_prefix_of(rows[i].0) && memory::tail_id(rows[i].0) == id);
    }
    if exists|i: int|
        0 <= i < rows.len() && kw_prefix(token).is_prefix_of((#[trigger] rows[i]).0)
            && memory::tail_id(rows[i].0) == id {
        let i = choose|i: int|
            0 <= i < rows.len() && kw_prefix(token).is_prefix_of((#[trigger] rows[i]).0)
                && memory::tail_id(rows[i].0) == id;
        rows.lemma_filter_contains(p, i);
        let k = choose|k: int| 0 <= k < found.len() && found[k] == rows[i];
        assert(posted(rows, token)[k] == id);
    }
}

} // verus!
