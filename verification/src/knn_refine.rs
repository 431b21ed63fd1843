//! Refining a neighbour graph: in each pass a node looks at its neighbours, at those that
//! point at it, and at the neighbours of both, and keeps the most similar.
use crate::knn;
use crate::knn::similarity_of;
use crate::knn_seed;
use crate::knn_seed::{assign_cell, first_list, locality_order, near_pivots, positions, Cell};
use crate::order;
use crate::order::sort_places;
use vstd::prelude::*;

verus! {

// ── who points at a node ──────────────────────────────────────────────────

/// `src`, once for each time that `u` stands among the first `j` entries.
pub open spec fn pointing(row: Seq<i32>, u: int, src: int, j: int) -> Seq<i32>
    decreases j,
{
    if j <= 0 {
        Seq::empty()
    } else if row[j - 1] == u {
        pointing(row, u, src, j - 1).push(src as i32)
    } else {
        pointing(row, u, src, j - 1)
    }
}

/// The nodes among the first `v` that point at `u`, in their order.
pub open spec fn pointers(g: Seq<Vec<i32>>, u: int, v: int) -> Seq<i32>
    decreases v,
{
    if v <= 0 {
        Seq::empty()
    } else {
        pointers(g, u, v - 1) + pointing(g[v - 1]@, u, v - 1, g[v - 1]@.len() as int)
    }
}

/// The nodes that point at each node, at most `cap` of them.
pub fn reverse_lists(g: &Vec<Vec<i32>>, cap: usize) -> (r: Vec<Vec<i32>>)
    requires
        g@.len() <= i32::MAX,
    ensures
        r@.len() == g@.len(),
        forall|u: int|
            0 <= u < g@.len() ==> (#[trigger] r@[u])@ == knn_seed::head_of(
                pointers(g@, u, g@.len() as int),
                cap as int,
            ),
{
    let n: usize = g.len();
    let mut rev: Vec<Vec<i32>> = Vec::new();
    let mut i: usize = 0;
    while i < n
        invariant
            i <= n,
            rev@.len() == i,
            forall|u: int| 0 <= u < i ==> (#[trigger] rev@[u])@ == Seq::<i32>::empty(),
        decreases n - i,
    {
        rev.push(Vec::new());
        i = i + 1;
    }
    let mut v: usize = 0;
    proof {
        assert forall|u: int| 0 <= u < n implies (#[trigger] rev@[u])@ == knn_seed::head_of(
            pointers(g@, u, 0),
            cap as int,
        ) by {
            assert(knn_seed::head_of(Seq::<i32>::empty(), cap as int) =~= Seq::<i32>::empty());
        }
    }
    while v < n
        invariant
            v <= n == g@.len() <= i32::MAX,
            rev@.len() == n,
            forall|u: int|
                0 <= u < n ==> (#[trigger] rev@[u])@ == knn_seed::head_of(
                    pointers(g@, u, v as int),
                    cap as int,
                ),
        decreases n - v,
    {
        let row = &g[v];
        let mut j: usize = 0;
        proof {
            assert forall|u: int| 0 <= u < n implies (#[trigger] rev@[u])@ == knn_seed::head_of(
                pointers(g@, u, v as int) + pointing(row@, u, v as int, 0),
                cap as int,
            ) by {
                assert(pointers(g@, u, v as int) + pointing(row@, u, v as int, 0) =~= pointers(
                    g@,
                    u,
                    v as int,
                ));
            }
        }
        while j < row.len()
            invariant
                v < n == g@.len() <= i32::MAX,
                row@ == g@[v as int]@,
                j <= row@.len(),
                rev@.len() == n,
                forall|u: int|
                    0 <= u < n ==> (#[trigger] rev@[u])@ == knn_seed::head_of(
                        pointers(g@, u, v as int) + pointing(row@, u, v as int, j as int),
                        cap as int,
                    ),
            decreases row@.len() - j,
        {
            let nb: i32 = row[j];
            let ghost before = rev@;
            if nb >= 0 && (nb as usize) < n {
                add_capped(&mut rev, nb as usize, v as i32, cap);
            }
            proof {
                assert forall|u: int| 0 <= u < n implies (#[trigger] rev@[u])@
                    == knn_seed::head_of(
                    pointers(g@, u, v as int) + pointing(row@, u, v as int, j + 1),
                    cap as int,
                ) by {
                    let all = pointers(g@, u, v as int) + pointing(row@, u, v as int, j as int);
                    assert(before[u]@ == knn_seed::head_of(all, cap as int));
                    if u == nb {
                        let more = pointers(g@, u, v as int) + pointing(
                            row@,
                            u,
                            v as int,
                            j + 1,
                        );
                        assert(more =~= all.push(v as i32));
                        assert(rev@[u]@ =~= knn_seed::head_of(more, cap as int));
                    }
                }
            }
            j = j + 1;
        }
        v = v + 1;
        proof {
            assert forall|u: int| 0 <= u < n implies (#[trigger] rev@[u])@ == knn_seed::head_of(
                pointers(g@, u, v as int),
                cap as int,
            ) by {}
        }
    }
    rev
}

fn add_capped(rev: &mut Vec<Vec<i32>>, u: usize, src: i32, cap: usize)
    requires
        u < old(rev)@.len(),
    ensures
        final(rev)@.len() == old(rev)@.len(),
        forall|x: int|
            0 <= x < old(rev)@.len() && x != u ==> (#[trigger] final(rev)@[x])@ == old(rev)@[x]@,
        final(rev)@[u as int]@ == (if old(rev)@[u as int]@.len() < cap {
            old(rev)@[u as int]@.push(src)
        } else {
            old(rev)@[u as int]@
        }),
{
    if rev[u].len() < cap {
        rev[u].push(src);
    }
}

// ── candidates ────────────────────────────────────────────────────────────

/// The lists of the first `m` entries of `row` that are nodes, one after the other.
pub open spec fn joined(g: Seq<Vec<i32>>, row: Seq<i32>, m: int) -> Seq<i32>
    decreases m,
{
    if m <= 0 {
        Seq::empty()
    } else if 0 <= row[m - 1] < g.len() {
        joined(g, row, m - 1) + g[row[m - 1] as int]@
    } else {
        joined(g, row, m - 1)
    }
}

pub open spec fn at_most(a: int, b: nat) -> int {
    if a < b {
        a
    } else {
        b as int
    }
}

/// What a node looks at: its neighbours, those that point at it, and the neighbours of the
/// first `expand` of both.
pub open spec fn gathered(
    g: Seq<Vec<i32>>,
    rev: Seq<Vec<i32>>,
    v: int,
    expand: int,
) -> Seq<i32> {
    g[v]@ + rev[v]@ + joined(g, g[v]@, at_most(expand, g[v]@.len())) + joined(
        g,
        rev[v]@,
        at_most(expand, rev[v]@.len()),
    )
}

fn push_list(out: &mut Vec<i32>, row: &Vec<i32>)
    ensures
        final(out)@ == old(out)@ + row@,
{
    let mut i: usize = 0;
    proof {
        assert(out@ =~= old(out)@ + row@.take(0));
    }
    while i < row.len()
        invariant
            i <= row@.len(),
            out@ == old(out)@ + row@.take(i as int),
        decreases row@.len() - i,
    {
        out.push(row[i]);
        i = i + 1;
        proof {
            assert(out@ =~= old(out)@ + row@.take(i as int));
        }
    }
    proof {
        assert(row@.take(i as int) =~= row@);
    }
}

fn push_joined(out: &mut Vec<i32>, g: &Vec<Vec<i32>>, row: &Vec<i32>, expand: usize)
    ensures
        final(out)@ == old(out)@ + joined(g@, row@, at_most(expand as int, row@.len())),
{
    let m: usize = if expand < row.len() { expand } else { row.len() };
    let mut i: usize = 0;
    proof {
        assert(out@ =~= old(out)@ + joined(g@, row@, 0));
    }
    while i < m
        invariant
            i <= m <= row@.len(),
            out@ == old(out)@ + joined(g@, row@, i as int),
        decreases m - i,
    {
        let nb: i32 = row[i];
        if nb >= 0 && (nb as usize) < g.len() {
            push_list(out, &g[nb as usize]);
            proof {
                assert(out@ =~= old(out)@ + joined(g@, row@, i + 1));
            }
        }
        i = i + 1;
    }
}

/// Collects what a node looks at.
pub fn gather(g: &Vec<Vec<i32>>, rev: &Vec<Vec<i32>>, v: usize, expand: usize) -> (r: Vec<i32>)
    requires
        v < g@.len(),
        v < rev@.len(),
    ensures
        r@ == gathered(g@, rev@, v as int, expand as int),
{
    let mut out: Vec<i32> = Vec::new();
    push_list(&mut out, &g[v]);
    push_list(&mut out, &rev[v]);
    push_joined(&mut out, g, &g[v], expand);
    push_joined(&mut out, g, &rev[v], expand);
    proof {
        assert(out@ =~= gathered(g@, rev@, v as int, expand as int));
    }
    out
}

// ── the most similar ──────────────────────────────────────────────────────

/// Whether `c` is a node other than `v`.
pub open spec fn eligible(c: i32, v: int, n: int) -> bool {
    0 <= c < n && c != v
}

/// An integer that orders candidates by similarity, highest first, then by number.
pub open spec fn rank_key(vectors: Seq<i8>, dim: int, v: int, c: i32) -> int {
    -knn::similarity(vectors, dim, v, c as int) * 0x1_0000_0000 + c
}

/// Every eligible candidate is in `r`, or `r` is full and the candidate ranks behind all
/// of it.
pub open spec fn settled(vectors: Seq<i8>, dim: int, v: int, c: i32, k: int, r: Seq<i32>) -> bool {
    r.contains(c) || (r.len() == k && forall|i: int|
        0 <= i < r.len() ==> rank_key(vectors, dim, v, #[trigger] r[i]) < rank_key(
            vectors,
            dim,
            v,
            c,
        ))
}

/// `r` is the `k` candidates most similar to `v`, most similar first, equal ones by
/// number, none twice.
pub open spec fn most_similar(
    vectors: Seq<i8>,
    n: int,
    dim: int,
    v: int,
    cand: Seq<i32>,
    k: int,
    r: Seq<i32>,
) -> bool {
    &&& r.len() <= k
    &&& forall|i: int|
        0 <= i < r.len() ==> cand.contains(#[trigger] r[i]) && eligible(r[i], v, n)
    &&& forall|i: int, j: int|
        0 <= i < j < r.len() ==> rank_key(vectors, dim, v, #[trigger] r[i]) < rank_key(
            vectors,
            dim,
            v,
            #[trigger] r[j],
        )
    &&& forall|c: i32|
        #[trigger] cand.contains(c) && eligible(c, v, n) ==> settled(vectors, dim, v, c, k, r)
}

proof fn lemma_similarity_bound(vectors: Seq<i8>, n: int, dim: int, a: int, b: int)
    requires
        knn::corpus_of(vectors, n, dim),
    ensures
        -0x8000_0000 < knn::similarity(vectors, dim, a, b) < 0x8000_0000,
{
    knn::lemma_dot_bound(knn::row_at(vectors, dim, a), knn::row_at(vectors, dim, b), dim);
}

/// Keeps the candidates that are most similar to a node.
pub fn keep_most_similar(
    vectors: &Vec<i8>,
    n: usize,
    dim: usize,
    v: usize,
    cand: &Vec<i32>,
    k: usize,
) -> (r: Vec<i32>)
    requires
        knn::corpus_of(vectors@, n as int, dim as int),
        v < n,
    ensures
        most_similar(vectors@, n as int, dim as int, v as int, cand@, k as int, r@),
{
    let mut ids: Vec<i32> = Vec::new();
    let mut keys: Vec<i128> = Vec::new();
    let mut i: usize = 0;
    while i < cand.len()
        invariant
            knn::corpus_of(vectors@, n as int, dim as int),
            v < n,
            i <= cand@.len(),
            keys@.len() == ids@.len(),
            forall|x: int|
                0 <= x < ids@.len() ==> #[trigger] keys@[x] == rank_key(
                    vectors@,
                    dim as int,
                    v as int,
                    ids@[x],
                ),
            forall|x: int|
                0 <= x < ids@.len() ==> cand@.contains(#[trigger] ids@[x]) && eligible(
                    ids@[x],
                    v as int,
                    n as int,
                ),
            forall|x: int|
                0 <= x < i && eligible(#[trigger] cand@[x], v as int, n as int) ==> ids@.contains(
                    cand@[x],
                ),
        decreases cand@.len() - i,
    {
        let c: i32 = cand[i];
        let ghost before = ids@;
        if c >= 0 && (c as usize) < n && c as usize != v {
            let s: i32 = similarity_of(vectors, n, dim, v, c as usize);
            proof {
                lemma_similarity_bound(vectors@, n as int, dim as int, v as int, c as int);
            }
            ids.push(c);
            keys.push(-(s as i128) * 0x1_0000_0000 + c as i128);
            proof {
                assert(ids@[before.len() as int] == c);
                assert(cand@[i as int] == c);
            }
        }
        proof {
            assert forall|x: int|
                0 <= x < i + 1 && eligible(
                    #[trigger] cand@[x],
                    v as int,
                    n as int,
                ) implies ids@.contains(cand@[x]) by {
                if x < i {
                    let y = choose|y: int| 0 <= y < before.len() && before[y] == cand@[x];
                    assert(ids@[y] == cand@[x]);
                }
            }
        }
        i = i + 1;
    }
    let p = sort_places(&keys);
    let ghost kk = |c: i32| rank_key(vectors@, dim as int, v as int, c);
    let mut out: Vec<i32> = Vec::new();
    let mut j: usize = 0;
    while j < p.len()
        invariant
            order::stable_order(keys@, p@),
            keys@.len() == ids@.len(),
            forall|x: int|
                0 <= x < ids@.len() ==> #[trigger] keys@[x] == rank_key(
                    vectors@,
                    dim as int,
                    v as int,
                    ids@[x],
                ),
            forall|x: int|
                0 <= x < ids@.len() ==> cand@.contains(#[trigger] ids@[x]) && eligible(
                    ids@[x],
                    v as int,
                    n as int,
                ),
            n <= i32::MAX,
            j <= p@.len(),
            out@.len() <= k,
            forall|x: int|
                0 <= x < out@.len() ==> cand@.contains(#[trigger] out@[x]) && eligible(
                    out@[x],
                    v as int,
                    n as int,
                ),
            forall|x: int, y: int|
                0 <= x < y < out@.len() ==> rank_key(
                    vectors@,
                    dim as int,
                    v as int,
                    #[trigger] out@[x],
                ) < rank_key(vectors@, dim as int, v as int, #[trigger] out@[y]),
            forall|x: int|
                0 <= x < j ==> settled(
                    vectors@,
                    dim as int,
                    v as int,
                    ids@[#[trigger] p@[x] as int],
                    k as int,
                    out@,
                ),
            forall|x: int|
                0 <= x < out@.len() ==> j > 0 && rank_key(
                    vectors@,
                    dim as int,
                    v as int,
                    #[trigger] out@[x],
                ) <= keys@[p@[j - 1] as int],
        decreases p@.len() - j,
    {
        let at: usize = p[j];
        let c: i32 = ids[at];
        let ghost before = out@;
        let ghost key = keys@[at as int];
        assert(key == rank_key(vectors@, dim as int, v as int, c));
        proof {
            if j > 0 {
                assert(order::before(keys@, p@[j - 1], p@[j as int]));
            }
        }
        let fresh: bool = out.len() == 0 || out[out.len() - 1] != c;
        if fresh && out.len() < k {
            proof {
                assert forall|x: int| 0 <= x < out@.len() implies rank_key(
                    vectors@,
                    dim as int,
                    v as int,
                    #[trigger] out@[x],
                ) < key by {
                    let last = out@[out@.len() - 1];
                    lemma_same_key(vectors@, n as int, dim as int, v as int, last, c);
                    if x < out@.len() - 1 {
                        assert(rank_key(vectors@, dim as int, v as int, out@[x]) < rank_key(
                            vectors@,
                            dim as int,
                            v as int,
                            last,
                        ));
                    }
                }
            }
            out.push(c);
            proof {
                assert(out@[before.len() as int] == c);
                assert forall|x: int| 0 <= x < j + 1 implies settled(
                    vectors@,
                    dim as int,
                    v as int,
                    ids@[#[trigger] p@[x] as int],
                    k as int,
                    out@,
                ) by {
                    if x < j {
                        let d = ids@[p@[x] as int];
                        assert(settled(vectors@, dim as int, v as int, d, k as int, before));
                        assert(before.contains(d));
                        let y = choose|y: int| 0 <= y < before.len() && before[y] == d;
                        assert(out@[y] == d);
                    } else {
                        assert(out@.contains(c));
                    }
                }
            }
        } else {
            proof {
                if !fresh {
                    assert(out@.contains(c));
                } else {
                    assert(out@.len() == k);
                    if k > 0 {
                        let last = out@[out@.len() - 1];
                        lemma_same_key(vectors@, n as int, dim as int, v as int, last, c);
                        assert forall|x: int| 0 <= x < out@.len() implies rank_key(
                            vectors@,
                            dim as int,
                            v as int,
                            #[trigger] out@[x],
                        ) < key by {
                            if x < out@.len() - 1 {
                                assert(rank_key(vectors@, dim as int, v as int, out@[x])
                                    < rank_key(vectors@, dim as int, v as int, last));
                            }
                        }
                    }
                }
                assert(settled(vectors@, dim as int, v as int, c, k as int, out@));
            }
        }
        j = j + 1;
    }
    proof {
        assert forall|c: i32| #[trigger]
            cand@.contains(c) && eligible(c, v as int, n as int) implies settled(
            vectors@,
            dim as int,
            v as int,
            c,
            k as int,
            out@,
        ) by {
            let x = choose|x: int| 0 <= x < cand@.len() && cand@[x] == c;
            assert(ids@.contains(cand@[x]));
            let y = choose|y: int| 0 <= y < ids@.len() && ids@[y] == c;
            assert(p@.contains(y as usize));
            let z = choose|z: int| 0 <= z < p@.len() && p@[z] == y as usize;
            assert(settled(vectors@, dim as int, v as int, ids@[p@[z] as int], k as int, out@));
        }
    }
    out
}

/// Different nodes never rank alike.
proof fn lemma_same_key(vectors: Seq<i8>, n: int, dim: int, v: int, a: i32, b: i32)
    requires
        n <= i32::MAX,
        eligible(a, v, n),
        eligible(b, v, n),
    ensures
        rank_key(vectors, dim, v, a) == rank_key(vectors, dim, v, b) ==> a == b,
{
    let x = knn::similarity(vectors, dim, v, a as int);
    let y = knn::similarity(vectors, dim, v, b as int);
    if -x * 0x1_0000_0000 + a == -y * 0x1_0000_0000 + b {
        assert(x == y);
    }
}

// ── passes ────────────────────────────────────────────────────────────────

/// Nodes that point at a node, as far as a pass looks at them.
pub const REVERSE_CAP: usize = 16;

/// How many neighbours a pass looks through: few in the first, more later.
pub open spec fn expand_of(pass: int) -> int {
    if pass == 0 {
        4
    } else {
        10
    }
}

/// `next` is what one pass makes of `prev`.
pub open spec fn refined(
    vectors: Seq<i8>,
    n: int,
    dim: int,
    k: int,
    pass: int,
    prev: Seq<Vec<i32>>,
    next: Seq<Vec<i32>>,
) -> bool {
    &&& next.len() == n
    &&& exists|rev: Seq<Vec<i32>>| #[trigger]
        reversed(prev, rev) && forall|v: int|
            0 <= v < n ==> most_similar(
                vectors,
                n,
                dim,
                v,
                gathered(prev, rev, v, expand_of(pass)),
                k,
                (#[trigger] next[v])@,
            )
}

/// `rev` lists for each node those that point at it.
pub open spec fn reversed(g: Seq<Vec<i32>>, rev: Seq<Vec<i32>>) -> bool {
    rev.len() == g.len() && forall|u: int|
        0 <= u < g.len() ==> (#[trigger] rev[u])@ == knn_seed::head_of(
            pointers(g, u, g.len() as int),
            REVERSE_CAP as int,
        )
}

/// Refines every node's list once.
pub fn refine_pass(
    vectors: &Vec<i8>,
    n: usize,
    dim: usize,
    k: usize,
    pass: usize,
    prev: &Vec<Vec<i32>>,
) -> (r: Vec<Vec<i32>>)
    requires
        knn::corpus_of(vectors@, n as int, dim as int),
        prev@.len() == n,
    ensures
        refined(vectors@, n as int, dim as int, k as int, pass as int, prev@, r@),
{
    let expand: usize = if pass == 0 { 4 } else { 10 };
    let rev = reverse_lists(prev, REVERSE_CAP);
    let mut next: Vec<Vec<i32>> = Vec::new();
    let mut v: usize = 0;
    while v < n
        invariant
            knn::corpus_of(vectors@, n as int, dim as int),
            prev@.len() == n,
            rev@.len() == n,
            expand == expand_of(pass as int),
            v <= n,
            next@.len() == v,
            forall|u: int|
                0 <= u < v ==> most_similar(
                    vectors@,
                    n as int,
                    dim as int,
                    u,
                    gathered(prev@, rev@, u, expand as int),
                    k as int,
                    (#[trigger] next@[u])@,
                ),
        decreases n - v,
    {
        let cand = gather(prev, &rev, v, expand);
        next.push(keep_most_similar(vectors, n, dim, v, &cand, k));
        v = v + 1;
    }
    proof {
        assert(reversed(prev@, rev@));
    }
    next
}

/// `steps` begins with `start` and goes from pass to pass.
pub open spec fn descent(
    vectors: Seq<i8>,
    n: int,
    dim: int,
    k: int,
    start: Seq<Vec<i32>>,
    steps: Seq<Seq<Vec<i32>>>,
) -> bool {
    &&& steps.len() > 0
    &&& steps[0] == start
    &&& forall|i: int|
        0 <= i < steps.len() - 1 ==> refined(
            vectors,
            n,
            dim,
            k,
            i,
            #[trigger] steps[i],
            steps[i + 1],
        )
}

/// Refines a graph in a number of passes.
pub fn nn_descent(
    vectors: &Vec<i8>,
    n: usize,
    dim: usize,
    k: usize,
    start: Vec<Vec<i32>>,
    passes: usize,
) -> (r: Vec<Vec<i32>>)
    requires
        knn::corpus_of(vectors@, n as int, dim as int),
        start@.len() == n,
    ensures
        r@.len() == n,
        exists|steps: Seq<Seq<Vec<i32>>>| #[trigger]
            descent(vectors@, n as int, dim as int, k as int, start@, steps) && steps.len()
                == passes + 1 && steps.last() == r@,
{
    let ghost first = start@;
    let mut g: Vec<Vec<i32>> = start;
    let ghost mut steps: Seq<Seq<Vec<i32>>> = seq![g@];
    let mut pass: usize = 0;
    while pass < passes
        invariant
            knn::corpus_of(vectors@, n as int, dim as int),
            g@.len() == n,
            pass <= passes,
            descent(vectors@, n as int, dim as int, k as int, first, steps),
            steps.len() == pass + 1,
            steps.last() == g@,
        decreases passes - pass,
    {
        let next = refine_pass(vectors, n, dim, k, pass, &g);
        proof {
            let more = steps.push(next@);
            assert forall|i: int| 0 <= i < more.len() - 1 implies refined(
                vectors@,
                n as int,
                dim as int,
                k as int,
                i,
                #[trigger] more[i],
                more[i + 1],
            ) by {
                if i < steps.len() - 1 {
                    assert(refined(
                        vectors@,
                        n as int,
                        dim as int,
                        k as int,
                        i,
                        steps[i],
                        steps[i + 1],
                    ));
                }
            }
            steps = more;
        }
        g = next;
        pass = pass + 1;
    }
    g
}

/// Passes for `n` nodes where none are asked for.
pub open spec fn default_passes(n: int) -> int {
    if n <= 50_000 {
        8
    } else {
        12
    }
}

/// The number of passes: what is asked for, or by the number of nodes.
pub fn descent_passes(asked: Option<usize>, n: usize) -> (r: usize)
    ensures
        r == (match asked {
            Some(p) => p as int,
            None => default_passes(n as int),
        }),
{
    match asked {
        Some(p) => p,
        None => if n <= 50_000 {
            8
        } else {
            12
        },
    }
}

// ── the flat graph ────────────────────────────────────────────────────────

/// Entry `j` of the row of node `v`: its neighbour, or the node itself behind the last.
pub open spec fn flat_entry(g: Seq<Vec<i32>>, v: int, j: int) -> int {
    if j < g[v]@.len() {
        g[v]@[j] as int
    } else {
        v
    }
}

/// Lays a graph out flat, `k` entries per node, short lists filled with the node itself.
pub fn flat_graph(g: &Vec<Vec<i32>>, k: usize) -> (r: Vec<usize>)
    requires
        g@.len() * k <= usize::MAX,
        forall|v: int, j: int|
            0 <= v < g@.len() && 0 <= j < g@[v]@.len() ==> (#[trigger] g@[v]@[j]) >= 0,
    ensures
        r@.len() == g@.len() * k,
        forall|v: int, j: int|
            #![trigger flat_entry(g@, v, j)]
            0 <= v < g@.len() && 0 <= j < k ==> r@[v * k + j] == flat_entry(g@, v, j),
{
    let n: usize = g.len();
    let mut out: Vec<usize> = Vec::new();
    let mut v: usize = 0;
    proof {
        assert(0 * k == 0) by (nonlinear_arith);
    }
    while v < n
        invariant
            v <= n == g@.len(),
            g@.len() * k <= usize::MAX,
            forall|x: int, y: int|
                0 <= x < g@.len() && 0 <= y < g@[x]@.len() ==> (#[trigger] g@[x]@[y]) >= 0,
            out@.len() == v * k,
            forall|x: int, y: int|
                #![trigger flat_entry(g@, x, y)]
                0 <= x < v && 0 <= y < k ==> out@[x * k + y] == flat_entry(g@, x, y),
        decreases n - v,
    {
        let row = &g[v];
        let mut j: usize = 0;
        while j < k
            invariant
                v < n == g@.len(),
                g@.len() * k <= usize::MAX,
                row@ == g@[v as int]@,
                forall|y: int| 0 <= y < row@.len() ==> (#[trigger] row@[y]) >= 0,
                j <= k,
                out@.len() == v * k + j,
                forall|x: int, y: int|
                    #![trigger flat_entry(g@, x, y)]
                    0 <= x < v && 0 <= y < k ==> out@[x * k + y] == flat_entry(g@, x, y),
                forall|y: int|
                    #![trigger flat_entry(g@, v as int, y)]
                    0 <= y < j ==> out@[v * k + y] == flat_entry(g@, v as int, y),
            decreases k - j,
        {
            let ghost before = out@;
            let e: usize = if j < row.len() { row[j] as usize } else { v };
            out.push(e);
            proof {
                assert forall|x: int, y: int|
                    #![trigger flat_entry(g@, x, y)]
                    0 <= x < v && 0 <= y < k implies out@[x * k + y] == flat_entry(g@, x, y) by {
                    lemma_before(x, v as int, k as int, y);
                    assert(before[x * k + y] == flat_entry(g@, x, y));
                }
                lemma_before(v as int, v + 1, k as int, j as int);
            }
            j = j + 1;
        }
        proof {
            assert((v + 1) * k == v * k + k) by (nonlinear_arith);
        }
        v = v + 1;
    }
    out
}

proof fn lemma_before(x: int, v: int, k: int, y: int)
    requires
        0 <= x < v,
        0 <= y < k,
    ensures
        0 <= x * k + y < v * k,
{
    assert(0 <= x * k && x * k + k <= v * k) by (nonlinear_arith)
        requires
            0 <= x < v,
            0 <= k,
    ;
}

// ── the whole build ───────────────────────────────────────────────────────

/// What a seeding search found near each node.
pub open spec fn near_of(
    numbers: Seq<Vec<i32>>,
    distances: Seq<Vec<u32>>,
    step: int,
    n: int,
    v: int,
) -> Seq<knn_seed::Pivot> {
    knn_seed::found_pivots(
        numbers[v]@,
        distances[v]@,
        step,
        n,
        v,
        numbers[v]@.len() as int,
    )
}

pub open spec fn nodes_of(near: Seq<knn_seed::Pivot>) -> Seq<i32> {
    Seq::new(near.len(), |i: int| near[i].node)
}

/// The cells of the nodes whose pivots, nearest first, are `near`.
pub open spec fn cells_of(near: Seq<Seq<knn_seed::Pivot>>) -> Seq<Cell> {
    Seq::new(near.len(), |v: int| knn_seed::cell_of(near[v]))
}

/// `r` is the graph that seeding gives: each node's nearest pivots, and the nodes around
/// it in locality order.
pub open spec fn seeded(
    numbers: Seq<Vec<i32>>,
    distances: Seq<Vec<u32>>,
    n: int,
    k: int,
    near: Seq<Seq<knn_seed::Pivot>>,
    line: Seq<usize>,
    r: Seq<Vec<i32>>,
) -> bool {
    &&& near.len() == n
    &&& r.len() == n
    &&& forall|v: int|
        0 <= v < n ==> knn_seed::by_distance(
            near_of(numbers, distances, knn::pivot_step(n), n, v),
            #[trigger] near[v],
        )
    &&& order::stable_order(cell_keys_of(near), line)
    &&& forall|p: int|
        0 <= p < n ==> r[(#[trigger] line[p]) as int]@ == first_of(near, line, p, k)
}

pub open spec fn cell_keys_of(near: Seq<Seq<knn_seed::Pivot>>) -> Seq<i128> {
    knn_seed::cell_keys(cells_of(near))
}

/// The first list of the node at place `p`.
pub open spec fn first_of(
    near: Seq<Seq<knn_seed::Pivot>>,
    line: Seq<usize>,
    p: int,
    k: int,
) -> Seq<i32> {
    knn_seed::head_of(
        knn_seed::spread(
            knn_seed::head_of(
                knn_seed::head_of(nodes_of(near[line[p] as int]), k),
                knn_seed::KEEP_PIVOTS as int,
            ),
            line,
            p,
            line[p] as int,
            k,
            knn_seed::reach_of(k),
        ),
        k,
    )
}

/// The neighbour graph to start from, given what a search for each node's nearest pivots
/// gave back: the pivots' numbers, negative where there is none, and the bits of their
/// distances.
pub fn seed_graph(numbers: &Vec<Vec<i32>>, distances: &Vec<Vec<u32>>, n: usize, k: usize) -> (r:
    Vec<Vec<i32>>)
    requires
        0 < n <= i32::MAX,
        k >= knn_seed::KEEP_PIVOTS,
        numbers@.len() == n,
        distances@.len() == n,
        forall|v: int| 0 <= v < n ==> (#[trigger] numbers@[v])@.len() == distances@[v]@.len(),
    ensures
        exists|near: Seq<Seq<knn_seed::Pivot>>, line: Seq<usize>| #[trigger]
            seeded(numbers@, distances@, n as int, k as int, near, line, r@),
{
    let (_count, step) = knn::seed_plan(n);
    let mut cells: Vec<Cell> = Vec::new();
    let mut pivots: Vec<Vec<i32>> = Vec::new();
    let ghost mut near: Seq<Seq<knn_seed::Pivot>> = Seq::empty();
    let mut v: usize = 0;
    while v < n
        invariant
            0 < n <= i32::MAX,
            step == knn::pivot_step(n as int),
            step <= n,
            numbers@.len() == n,
            distances@.len() == n,
            forall|x: int| 0 <= x < n ==> (#[trigger] numbers@[x])@.len() == distances@[x]@.len(),
            v <= n,
            near.len() == v,
            cells@.len() == v,
            pivots@.len() == v,
            forall|x: int|
                0 <= x < v ==> knn_seed::by_distance(
                    near_of(numbers@, distances@, step as int, n as int, x),
                    #[trigger] near[x],
                ),
            forall|x: int| 0 <= x < v ==> #[trigger] cells@[x] == knn_seed::cell_of(near[x]),
            forall|x: int|
                0 <= x < v ==> (#[trigger] pivots@[x])@ == knn_seed::head_of(
                    nodes_of(near[x]),
                    k as int,
                ),
        decreases n - v,
    {
        let found = near_pivots(&numbers[v], &distances[v], step, n, v);
        cells.push(assign_cell(&found));
        let mut nodes: Vec<i32> = Vec::new();
        let mut i: usize = 0;
        proof {
            assert(nodes@ =~= knn_seed::head_of(nodes_of(found@), 0));
        }
        while i < found.len() && i < k
            invariant
                i <= found@.len(),
                i <= k,
                nodes@ == knn_seed::head_of(nodes_of(found@), i as int),
            decreases found@.len() - i,
        {
            nodes.push(found[i].node);
            i = i + 1;
            proof {
                assert(nodes@ =~= knn_seed::head_of(nodes_of(found@), i as int));
            }
        }
        proof {
            assert(nodes@ =~= knn_seed::head_of(nodes_of(found@), k as int));
            near = near.push(found@);
        }
        pivots.push(nodes);
        v = v + 1;
    }
    proof {
        assert(cells@ =~= cells_of(near));
    }
    let line = locality_order(&cells);
    proof {
        assert forall|i: int, j: int| 0 <= i < j < line@.len() implies line@[i] != line@[j] by {
            assert(order::before(knn_seed::cell_keys(cells@), line@[i], line@[j]));
        }
    }
    let pos = positions(&line);
    let mut out: Vec<Vec<i32>> = Vec::new();
    let mut u: usize = 0;
    while u < n
        invariant
            0 < n <= i32::MAX,
            k >= knn_seed::KEEP_PIVOTS,
            pivots@.len() == n,
            near.len() == n,
            forall|x: int|
                0 <= x < n ==> (#[trigger] pivots@[x])@ == knn_seed::head_of(
                    nodes_of(near[x]),
                    k as int,
                ),
            line@.len() == n,
            order::stable_order(knn_seed::cell_keys(cells@), line@),
            cells@.len() == n,
            pos@.len() == n,
            forall|p: int| 0 <= p < n ==> #[trigger] pos@[line@[p] as int] == p,
            u <= n,
            out@.len() == u,
            forall|p: int|
                0 <= p < n && line@[p] < u ==> out@[(#[trigger] line@[p]) as int]@ == first_of(
                    near,
                    line@,
                    p,
                    k as int,
                ),
        decreases n - u,
    {
        proof {
            assert(line@.contains(u));
            let at = choose|at: int| 0 <= at < line@.len() && line@[at] == u;
            assert(pos@[line@[at] as int] == at);
        }
        let at: usize = pos[u];
        let ghost before = out@;
        out.push(first_list(&pivots[u], &line, at, u, k));
        proof {
            assert(line@[at as int] == u);
            assert forall|p: int| 0 <= p < n && line@[p] < u + 1 implies out@[(
            #[trigger] line@[p]) as int]@ == first_of(near, line@, p, k as int) by {
                if line@[p] == u {
                    assert(pos@[line@[p] as int] == p);
                } else {
                    assert(before[line@[p] as int]@ == first_of(near, line@, p, k as int));
                }
            }
        }
        u = u + 1;
    }
    proof {
        assert(seeded(numbers@, distances@, n as int, k as int, near, line@, out@));
    }
    out
}

/// A seeded graph holds nodes only.
pub proof fn lemma_seeded_are_nodes(
    numbers: Seq<Vec<i32>>,
    distances: Seq<Vec<u32>>,
    n: int,
    k: int,
    near: Seq<Seq<knn_seed::Pivot>>,
    line: Seq<usize>,
    r: Seq<Vec<i32>>,
)
    requires
        0 < n <= i32::MAX,
        k >= 0,
        seeded(numbers, distances, n, k, near, line, r),
    ensures
        forall|v: int, j: int|
            0 <= v < n && 0 <= j < r[v]@.len() ==> 0 <= (#[trigger] r[v]@[j]) < n,
{
    assert forall|v: int, j: int| 0 <= v < n && 0 <= j < r[v]@.len() implies 0 <= (
    #[trigger] r[v]@[j]) < n by {
        assert(cell_keys_of(near).len() == n);
        assert(line.contains(v as usize));
        let p = choose|p: int| 0 <= p < line.len() && line[p] == v as usize;
        assert(r[line[p] as int]@ == first_of(near, line, p, k));
        let step = knn::pivot_step(n);
        let raw = near_of(numbers, distances, step, n, v);
        assert(0 <= step) by (nonlinear_arith)
            requires
                step == n / (if knn::pivot_count(n) > 1 {
                    knn::pivot_count(n)
                } else {
                    1
                }),
                n > 0,
        ;
        knn_seed::lemma_found_are_nodes(
            numbers[v]@,
            distances[v]@,
            step,
            n,
            v,
            numbers[v]@.len() as int,
        );
        assert(knn_seed::by_distance(raw, near[v]));
        let q = choose|q: Seq<usize>| #[trigger]
            order::stable_order(order::low_keys(knn_seed::pivot_distances(raw)), q) && near[v]
                == Seq::new(raw.len(), |i: int| raw[q[i] as int]);
        let nodes = nodes_of(near[v]);
        assert forall|x: int| 0 <= x < nodes.len() implies 0 <= (#[trigger] nodes[x]) < n by {
            assert(near[v][x] == raw[q[x] as int]);
            assert(q[x] < raw.len());
        }
        let list = knn_seed::head_of(knn_seed::head_of(nodes, k), knn_seed::KEEP_PIVOTS as int);
        knn_seed::lemma_spread_are_nodes(list, line, p, v, k, knn_seed::reach_of(k), n);
        let all = knn_seed::spread(list, line, p, v, k, knn_seed::reach_of(k));
        assert(r[v]@[j] == all[j]);
    }
}

/// `g` comes from seeding `start` and refining it.
pub open spec fn built(
    vectors: Seq<i8>,
    n: int,
    dim: int,
    k: int,
    numbers: Seq<Vec<i32>>,
    distances: Seq<Vec<u32>>,
    passes: int,
    start: Seq<Vec<i32>>,
    g: Seq<Vec<i32>>,
) -> bool {
    &&& exists|near: Seq<Seq<knn_seed::Pivot>>, line: Seq<usize>| #[trigger]
        seeded(numbers, distances, n, k, near, line, start)
    &&& exists|steps: Seq<Seq<Vec<i32>>>| #[trigger]
        descent(vectors, n, dim, k, start, steps) && steps.len() == passes + 1 && steps.last() == g
}

/// A graph that was seeded and refined holds nodes only.
pub proof fn lemma_built_are_nodes(
    vectors: Seq<i8>,
    n: int,
    dim: int,
    k: int,
    numbers: Seq<Vec<i32>>,
    distances: Seq<Vec<u32>>,
    passes: int,
    start: Seq<Vec<i32>>,
    g: Seq<Vec<i32>>,
)
    requires
        0 < n <= i32::MAX,
        0 <= k,
        0 <= passes,
        g.len() == n,
        built(vectors, n, dim, k, numbers, distances, passes, start, g),
    ensures
        forall|v: int, j: int| 0 <= v < n && 0 <= j < g[v]@.len() ==> 0 <= (#[trigger] g[v]@[j]) < n,
{
    let steps = choose|steps: Seq<Seq<Vec<i32>>>| #[trigger]
        descent(vectors, n, dim, k, start, steps) && steps.len() == passes + 1 && steps.last() == g;
    if passes == 0 {
        let (near, line) = choose|near: Seq<Seq<knn_seed::Pivot>>, line: Seq<usize>| #[trigger]
            seeded(numbers, distances, n, k, near, line, start);
        lemma_seeded_are_nodes(numbers, distances, n, k, near, line, start);
    } else {
        let before = steps[passes - 1];
        assert(refined(vectors, n, dim, k, passes - 1, before, steps[passes - 1 + 1]));
        assert forall|v: int, j: int| 0 <= v < n && 0 <= j < g[v]@.len() implies 0 <= (
        #[trigger] g[v]@[j]) < n by {
            let rev = choose|rev: Seq<Vec<i32>>| #[trigger]
                reversed(before, rev) && forall|v: int|
                    0 <= v < n ==> most_similar(
                        vectors,
                        n,
                        dim,
                        v,
                        gathered(before, rev, v, expand_of(passes - 1)),
                        k,
                        (#[trigger] g[v])@,
                    );
            assert(eligible(g[v]@[j], v, n));
        }
    }
}

// ── laws ──────────────────────────────────────────────────────────────────

/// A refined list never holds the node itself, never holds a node twice, and never has
/// more than `k` entries.
pub proof fn law_refined_lists_are_sound(
    vectors: Seq<i8>,
    n: int,
    dim: int,
    v: int,
    cand: Seq<i32>,
    k: int,
    r: Seq<i32>,
)
    requires
        most_similar(vectors, n, dim, v, cand, k, r),
    ensures
        r.len() <= k,
        !r.contains(v as i32) || !(0 <= v < n <= i32::MAX),
        r.no_duplicates(),
        forall|i: int| 0 <= i < r.len() ==> 0 <= (#[trigger] r[i]) < n,
{
    assert forall|i: int, j: int| 0 <= i < j < r.len() implies r[i] != r[j] by {
        assert(rank_key(vectors, dim, v, r[i]) < rank_key(vectors, dim, v, r[j]));
    }
    assert forall|i: int| 0 <= i < r.len() implies 0 <= (#[trigger] r[i]) < n by {
        assert(eligible(r[i], v, n));
    }
    if r.contains(v as i32) && 0 <= v < n <= i32::MAX {
        let i = choose|i: int| 0 <= i < r.len() && r[i] == v as i32;
        assert(eligible(r[i], v, n));
    }
}

/// Refinement never loses similarity: a neighbour that leaves a list makes room for `k`
/// that rank before it.
pub proof fn law_refinement_improves(
    vectors: Seq<i8>,
    n: int,
    dim: int,
    k: int,
    pass: int,
    prev: Seq<Vec<i32>>,
    next: Seq<Vec<i32>>,
    v: int,
    c: i32,
)
    requires
        refined(vectors, n, dim, k, pass, prev, next),
        0 <= v < n,
        prev[v]@.contains(c),
        eligible(c, v, n),
        !next[v]@.contains(c),
    ensures
        next[v]@.len() == k,
        forall|i: int|
            0 <= i < next[v]@.len() ==> knn::similarity(
                vectors,
                dim,
                v,
                (#[trigger] next[v]@[i]) as int,
            ) >= knn::similarity(vectors, dim, v, c as int),
{
    let rev = choose|rev: Seq<Vec<i32>>| #[trigger]
        reversed(prev, rev) && forall|v: int|
            0 <= v < n ==> most_similar(
                vectors,
                n,
                dim,
                v,
                gathered(prev, rev, v, expand_of(pass)),
                k,
                (#[trigger] next[v])@,
            );
    let cand = gathered(prev, rev, v, expand_of(pass));
    let r = next[v]@;
    assert(most_similar(vectors, n, dim, v, cand, k, r));
    let x = choose|x: int| 0 <= x < prev[v]@.len() && prev[v]@[x] == c;
    assert(cand[x] == c);
    assert(cand.contains(c));
    assert(settled(vectors, dim, v, c, k, r));
    assert forall|i: int| 0 <= i < r.len() implies knn::similarity(
        vectors,
        dim,
        v,
        (#[trigger] r[i]) as int,
    ) >= knn::similarity(vectors, dim, v, c as int) by {
        assert(rank_key(vectors, dim, v, r[i]) < rank_key(vectors, dim, v, c));
        assert(eligible(r[i], v, n));
    }
}

/// The kept candidates come most similar first, equal ones by their number, and no node is among
/// them that was not a candidate. A candidate is left out only where `k` are kept and none of
/// them is less similar than it.
pub proof fn law_kept_are_most_similar(
    vectors: Seq<i8>,
    n: int,
    dim: int,
    v: int,
    cand: Seq<i32>,
    k: int,
    r: Seq<i32>,
)
    requires
        most_similar(vectors, n, dim, v, cand, k, r),
        n <= i32::MAX,
    ensures
        forall|i: int| 0 <= i < r.len() ==> cand.contains(#[trigger] r[i]),
        forall|i: int, j: int|
            0 <= i < j < r.len() ==> {
                let (x, y) = (#[trigger] r[i], #[trigger] r[j]);
                let (a, b) = (
                    knn::similarity(vectors, dim, v, x as int),
                    knn::similarity(vectors, dim, v, y as int),
                );
                a > b || (a == b && x < y)
            },
        forall|c: i32|
            #[trigger] cand.contains(c) && 0 <= c < n && c != v && !r.contains(c) ==> r.len() == k
                && forall|i: int|
                0 <= i < r.len() ==> knn::similarity(vectors, dim, v, (#[trigger] r[i]) as int)
                    >= knn::similarity(vectors, dim, v, c as int),
{
    assert forall|c: i32|
        #[trigger] cand.contains(c) && 0 <= c < n && c != v && !r.contains(c) implies r.len() == k
        && forall|i: int|
        0 <= i < r.len() ==> knn::similarity(vectors, dim, v, (#[trigger] r[i]) as int)
            >= knn::similarity(vectors, dim, v, c as int) by {
        assert(settled(vectors, dim, v, c, k, r));
        assert forall|i: int| 0 <= i < r.len() implies knn::similarity(
            vectors,
            dim,
            v,
            (#[trigger] r[i]) as int,
        ) >= knn::similarity(vectors, dim, v, c as int) by {
            assert(rank_key(vectors, dim, v, r[i]) < rank_key(vectors, dim, v, c));
        }
    }
}

proof fn lemma_pointing(row: Seq<i32>, u: int, src: int, j: int, x: i32)
    requires
        0 <= j <= row.len(),
        i32::MIN <= u <= i32::MAX,
        0 <= src <= i32::MAX,
    ensures
        pointing(row, u, src, j).to_multiset().count(x) == (if x == src {
            row.take(j).to_multiset().count(u as i32)
        } else {
            0
        }),
        forall|i: int|
            0 <= i < pointing(row, u, src, j).len() ==> #[trigger] pointing(row, u, src, j)[i]
                == src,
    decreases j,
{
    broadcast use vstd::seq_lib::group_to_multiset_ensures;

    if j > 0 {
        lemma_pointing(row, u, src, j - 1, x);
        assert(row.take(j) =~= row.take(j - 1).push(row[j - 1]));
    }
}

/// A node points at another as often as its row names it; those that point at a node are listed
/// in their order.
pub proof fn law_pointers_point(g: Seq<Vec<i32>>, u: int, v: int, x: i32)
    requires
        0 <= v <= g.len() <= i32::MAX,
        0 <= u <= i32::MAX,
    ensures
        pointers(g, u, v).to_multiset().count(x) == (if 0 <= x < v {
            g[x as int]@.to_multiset().count(u as i32)
        } else {
            0
        }),
        forall|i: int, j: int|
            0 <= i < j < pointers(g, u, v).len() ==> #[trigger] pointers(g, u, v)[i]
                <= #[trigger] pointers(g, u, v)[j],
        forall|i: int|
            0 <= i < pointers(g, u, v).len() ==> 0 <= #[trigger] pointers(g, u, v)[i] < v,
    decreases v,
{
    broadcast use vstd::seq_lib::group_to_multiset_ensures;

    if v > 0 {
        let row = g[v - 1]@;
        let front = pointers(g, u, v - 1);
        let more = pointing(row, u, v - 1, row.len() as int);
        let all = pointers(g, u, v);
        law_pointers_point(g, u, v - 1, x);
        lemma_pointing(row, u, v - 1, row.len() as int, x);
        assert(row.take(row.len() as int) =~= row);
        vstd::seq_lib::lemma_multiset_commutative(front, more);
        assert forall|i: int| 0 <= i < all.len() implies 0 <= #[trigger] all[i] < v by {
            if i < front.len() {
                assert(all[i] == front[i]);
            } else {
                assert(all[i] == more[i - front.len()]);
            }
        }
        assert forall|i: int, j: int| 0 <= i < j < all.len() implies #[trigger] all[i]
            <= #[trigger] all[j] by {
            if j < front.len() {
                assert(all[i] == front[i] && all[j] == front[j]);
            } else {
                assert(all[j] == more[j - front.len()]);
                if i < front.len() {
                    assert(all[i] == front[i]);
                } else {
                    assert(all[i] == more[i - front.len()]);
                }
            }
        }
    }
}

proof fn lemma_joined(g: Seq<Vec<i32>>, row: Seq<i32>, m: int, c: i32)
    requires
        0 <= m <= row.len(),
    ensures
        joined(g, row, m).contains(c) <==> exists|i: int|
            0 <= i < m && 0 <= (#[trigger] row[i]) < g.len() && g[row[i] as int]@.contains(c),
    decreases m,
{
    if m > 0 {
        lemma_joined(g, row, m - 1, c);
        let front = joined(g, row, m - 1);
        let all = joined(g, row, m);
        if front.contains(c) {
            let i = choose|i: int|
                0 <= i < m - 1 && 0 <= (#[trigger] row[i]) < g.len() && g[row[i] as int]@.contains(
                    c,
                );
            assert(0 <= row[i] < g.len());
            let x = choose|x: int| 0 <= x < front.len() && front[x] == c;
            assert(all[x] == c);
        }
        if 0 <= row[m - 1] < g.len() {
            let more = g[row[m - 1] as int]@;
            if more.contains(c) {
                let x = choose|x: int| 0 <= x < more.len() && more[x] == c;
                assert(all[front.len() + x] == c);
            }
            if all.contains(c) && !front.contains(c) {
                let x = choose|x: int| 0 <= x < all.len() && all[x] == c;
                if x < front.len() {
                    assert(front[x] == c);
                } else {
                    assert(more[x - front.len()] == c);
                }
            }
        }
    }
}

/// A node looks at its neighbours, at those that point at it, and at the neighbours of the first
/// `expand` of either kind; at nothing else.
pub proof fn law_neighbours_of_neighbours(
    g: Seq<Vec<i32>>,
    rev: Seq<Vec<i32>>,
    v: int,
    expand: int,
    c: i32,
)
    requires
        0 <= expand,
    ensures
        gathered(g, rev, v, expand).contains(c) <==> {
            ||| g[v]@.contains(c)
            ||| rev[v]@.contains(c)
            ||| exists|i: int|
                0 <= i < g[v]@.len() && i < expand && 0 <= (#[trigger] g[v]@[i]) < g.len()
                    && g[g[v]@[i] as int]@.contains(c)
            ||| exists|i: int|
                0 <= i < rev[v]@.len() && i < expand && 0 <= (#[trigger] rev[v]@[i]) < g.len()
                    && g[rev[v]@[i] as int]@.contains(c)
        },
{
    let a = g[v]@;
    let b = rev[v]@;
    let (p, q) = (at_most(expand, a.len()), at_most(expand, b.len()));
    let (x, y) = (joined(g, a, p), joined(g, b, q));
    lemma_joined(g, a, p, c);
    lemma_joined(g, b, q, c);
    let all = gathered(g, rev, v, expand);
    assert(all =~= a + b + x + y);
    if a.contains(c) {
        let i = choose|i: int| 0 <= i < a.len() && a[i] == c;
        assert(all[i] == c);
    }
    if b.contains(c) {
        let i = choose|i: int| 0 <= i < b.len() && b[i] == c;
        assert(all[a.len() + i] == c);
    }
    if x.contains(c) {
        let i = choose|i: int| 0 <= i < x.len() && x[i] == c;
        assert(all[a.len() + b.len() + i] == c);
    }
    if y.contains(c) {
        let i = choose|i: int| 0 <= i < y.len() && y[i] == c;
        assert(all[a.len() + b.len() + x.len() + i] == c);
    }
    if all.contains(c) {
        let i = choose|i: int| 0 <= i < all.len() && all[i] == c;
        if i < a.len() {
            assert(a[i] == c);
        } else if i < a.len() + b.len() {
            assert(b[i - a.len()] == c);
        } else if i < a.len() + b.len() + x.len() {
            assert(x[i - a.len() - b.len()] == c);
        } else {
            assert(y[i - a.len() - b.len() - x.len()] == c);
        }
    }
}

/// A later pass looks through no fewer neighbours than an earlier one, and a larger graph is
/// refined in no fewer passes than a smaller one.
pub proof fn law_later_passes_look_further(a: int, b: int)
    requires
        0 <= a <= b,
    ensures
        0 < expand_of(a) <= expand_of(b),
        0 < default_passes(a) <= default_passes(b),
{
}

} // verus!
