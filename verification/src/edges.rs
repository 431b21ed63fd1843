//! Merging neighbour graphs, and counting their edges by format.
use crate::precision::{Edge, PrecisionLevel};
use vstd::prelude::*;

verus! {

/// The first `k` of a list, or all of it.
pub open spec fn front(s: Seq<Edge>, k: nat) -> Seq<Edge> {
    if k < s.len() {
        s.take(k as int)
    } else {
        s
    }
}

/// The row of a graph, empty beyond its end.
pub open spec fn row_of(g: Seq<Vec<Edge>>, i: int) -> Seq<Edge> {
    if 0 <= i < g.len() {
        g[i]@
    } else {
        Seq::empty()
    }
}

/// The edge at a place of a list, alone; empty beyond its end.
pub open spec fn edge_at(s: Seq<Edge>, i: int) -> Seq<Edge> {
    if 0 <= i < s.len() {
        seq![s[i]]
    } else {
        Seq::empty()
    }
}

/// The first `n` edges of two lists, taken in turn: one of the first list, then one of the
/// second. Where one list ends, the other goes on alone.
pub open spec fn interleaved(a: Seq<Edge>, b: Seq<Edge>, n: nat) -> Seq<Edge>
    decreases n,
{
    if n == 0 {
        Seq::empty()
    } else {
        interleaved(a, b, (n - 1) as nat) + edge_at(a, n - 1) + edge_at(b, n - 1)
    }
}

proof fn lemma_interleaved_past_end(a: Seq<Edge>, b: Seq<Edge>, m: nat, n: nat)
    requires
        a.len() <= m,
        b.len() <= m,
        m <= n,
    ensures
        interleaved(a, b, n) == interleaved(a, b, m),
    decreases n,
{
    if m < n {
        lemma_interleaved_past_end(a, b, m, (n - 1) as nat);
        assert(interleaved(a, b, n) =~= interleaved(a, b, (n - 1) as nat));
    }
}

fn push_edge(out: &mut Vec<Edge>, graph: &Vec<Vec<Edge>>, i: usize, j: usize)
    ensures
        final(out)@ == old(out)@ + edge_at(row_of(graph@, i as int), j as int),
{
    if i < graph.len() && j < graph[i].len() {
        out.push(graph[i][j]);
    }
    proof {
        assert(out@ =~= old(out)@ + edge_at(row_of(graph@, i as int), j as int));
    }
}

fn row_len(graph: &Vec<Vec<Edge>>, i: usize) -> (r: usize)
    ensures
        r == row_of(graph@, i as int).len(),
{
    if i < graph.len() {
        graph[i].len()
    } else {
        0
    }
}

fn interleave(g1: &Vec<Vec<Edge>>, g2: &Vec<Vec<Edge>>, i: usize, half: usize) -> (r: Vec<Edge>)
    ensures
        r@ == interleaved(row_of(g1@, i as int), row_of(g2@, i as int), half as nat),
{
    let a: usize = row_len(g1, i);
    let b: usize = row_len(g2, i);
    let longer: usize = if a > b { a } else { b };
    let n: usize = if half < longer { half } else { longer };
    let mut out: Vec<Edge> = Vec::new();
    let mut j: usize = 0;
    while j < n
        invariant
            j <= n,
            out@ == interleaved(row_of(g1@, i as int), row_of(g2@, i as int), j as nat),
        decreases n - j,
    {
        push_edge(&mut out, g1, i, j);
        push_edge(&mut out, g2, i, j);
        j = j + 1;
    }
    proof {
        if n < half {
            lemma_interleaved_past_end(
                row_of(g1@, i as int),
                row_of(g2@, i as int),
                n as nat,
                half as nat,
            );
        }
    }
    out
}

/// Merges two graphs by interleaving: each node gets the first `k / 2` edges of the one and
/// of the other, taken in turn.
pub fn merge_graphs(g1_edges: &Vec<Vec<Edge>>, g2_edges: &Vec<Vec<Edge>>, k: usize) -> (r: Vec<
    Vec<Edge>,
>)
    ensures
        r@.len() == (if g1_edges@.len() > g2_edges@.len() {
            g1_edges@.len()
        } else {
            g2_edges@.len()
        }),
        forall|i: int|
            0 <= i < r@.len() ==> (#[trigger] r@[i])@ == interleaved(
                row_of(g1_edges@, i),
                row_of(g2_edges@, i),
                (k / 2) as nat,
            ),
{
    let n: usize = if g1_edges.len() > g2_edges.len() { g1_edges.len() } else { g2_edges.len() };
    let mut merged: Vec<Vec<Edge>> = Vec::new();
    let mut i: usize = 0;
    while i < n
        invariant
            i <= n,
            merged@.len() == i,
            forall|x: int|
                0 <= x < i ==> (#[trigger] merged@[x])@ == interleaved(
                    row_of(g1_edges@, x),
                    row_of(g2_edges@, x),
                    (k / 2) as nat,
                ),
        decreases n - i,
    {
        merged.push(interleave(g1_edges, g2_edges, i, k / 2));
        i = i + 1;
    }
    merged
}

/// A merged row holds exactly the first `n` edges of the one list and of the other, each as
/// often as they do.
pub proof fn law_merge_keeps_edges(a: Seq<Edge>, b: Seq<Edge>, n: nat)
    ensures
        interleaved(a, b, n).to_multiset() == (front(a, n) + front(b, n)).to_multiset(),
    decreases n,
{
    broadcast use vstd::seq_lib::group_to_multiset_ensures;

    if n == 0 {
        assert(front(a, n) + front(b, n) =~= Seq::empty());
    } else {
        let m: nat = (n - 1) as nat;
        law_merge_keeps_edges(a, b, m);
        assert(front(a, n) =~= front(a, m) + edge_at(a, m as int));
        assert(front(b, n) =~= front(b, m) + edge_at(b, m as int));
        vstd::seq_lib::lemma_multiset_commutative(
            interleaved(a, b, m) + edge_at(a, m as int),
            edge_at(b, m as int),
        );
        vstd::seq_lib::lemma_multiset_commutative(interleaved(a, b, m), edge_at(a, m as int));
        vstd::seq_lib::lemma_multiset_commutative(front(a, m), front(b, m));
        vstd::seq_lib::lemma_multiset_commutative(front(a, n), front(b, n));
        vstd::seq_lib::lemma_multiset_commutative(front(a, m), edge_at(a, m as int));
        vstd::seq_lib::lemma_multiset_commutative(front(b, m), edge_at(b, m as int));
        assert(interleaved(a, b, n).to_multiset() =~= (front(a, n) + front(b, n)).to_multiset());
    }
}

proof fn lemma_interleaved_len(a: Seq<Edge>, b: Seq<Edge>, n: nat)
    ensures
        interleaved(a, b, n).len() <= 2 * n,
    decreases n,
{
    if n > 0 {
        lemma_interleaved_len(a, b, (n - 1) as nat);
    }
}

/// A merged row never has more than `k` edges.
pub proof fn law_merged_rows_fit(a: Seq<Edge>, b: Seq<Edge>, k: usize)
    ensures
        interleaved(a, b, (k / 2) as nat).len() <= k,
{
    lemma_interleaved_len(a, b, (k / 2) as nat);
}

/// The number of edges of a format among the first `n` of a row.
pub open spec fn count_row(row: Seq<Edge>, p: PrecisionLevel, n: int) -> nat
    decreases n,
{
    if n <= 0 {
        0
    } else {
        count_row(row, p, n - 1) + (if row[n - 1].precision == p {
            1nat
        } else {
            0
        })
    }
}

/// The number of edges of a format in the first `n` rows.
pub open spec fn count_rows(rows: Seq<Vec<Edge>>, p: PrecisionLevel, n: int) -> nat
    decreases n,
{
    if n <= 0 {
        0
    } else {
        count_rows(rows, p, n - 1) + count_row(rows[n - 1]@, p, rows[n - 1]@.len() as int)
    }
}

/// The number of edges in the first `n` rows.
pub open spec fn edge_total(rows: Seq<Vec<Edge>>, n: int) -> nat
    decreases n,
{
    if n <= 0 {
        0
    } else {
        edge_total(rows, n - 1) + rows[n - 1]@.len()
    }
}

/// Every edge is counted under exactly one format.
pub proof fn law_counts_add_up(rows: Seq<Vec<Edge>>, n: int)
    requires
        0 <= n <= rows.len(),
    ensures
        count_rows(rows, PrecisionLevel::Fp32, n) + count_rows(rows, PrecisionLevel::Fp16, n)
            + count_rows(rows, PrecisionLevel::Bf16, n) + count_rows(rows, PrecisionLevel::Fp8, n)
            + count_rows(rows, PrecisionLevel::Int8, n) == edge_total(rows, n),
    decreases n,
{
    if n > 0 {
        law_counts_add_up(rows, n - 1);
        lemma_row_adds_up(rows[n - 1]@, rows[n - 1]@.len() as int);
    }
}

proof fn lemma_row_adds_up(row: Seq<Edge>, n: int)
    requires
        0 <= n <= row.len(),
    ensures
        count_row(row, PrecisionLevel::Fp32, n) + count_row(row, PrecisionLevel::Fp16, n)
            + count_row(row, PrecisionLevel::Bf16, n) + count_row(row, PrecisionLevel::Fp8, n)
            + count_row(row, PrecisionLevel::Int8, n) == n,
    decreases n,
{
    if n > 0 {
        lemma_row_adds_up(row, n - 1);
    }
}

proof fn lemma_total_rises(rows: Seq<Vec<Edge>>, n: int, m: int)
    requires
        n <= m,
    ensures
        edge_total(rows, n) <= edge_total(rows, m),
    decreases m,
{
    if n < m && m > 0 {
        lemma_total_rises(rows, n, m - 1);
    }
}

/// Counts the edges of each format: FP32, FP16, BF16, FP8, INT8.
pub fn precision_counts(edges: &Vec<Vec<Edge>>) -> (r: (usize, usize, usize, usize, usize))
    requires
        edge_total(edges@, edges@.len() as int) <= usize::MAX,
    ensures
        r.0 == count_rows(edges@, PrecisionLevel::Fp32, edges@.len() as int),
        r.1 == count_rows(edges@, PrecisionLevel::Fp16, edges@.len() as int),
        r.2 == count_rows(edges@, PrecisionLevel::Bf16, edges@.len() as int),
        r.3 == count_rows(edges@, PrecisionLevel::Fp8, edges@.len() as int),
        r.4 == count_rows(edges@, PrecisionLevel::Int8, edges@.len() as int),
{
    let mut fp32: usize = 0;
    let mut fp16: usize = 0;
    let mut bf16: usize = 0;
    let mut fp8: usize = 0;
    let mut int8: usize = 0;
    let mut i: usize = 0;
    while i < edges.len()
        invariant
            i <= edges@.len(),
            edge_total(edges@, edges@.len() as int) <= usize::MAX,
            fp32 == count_rows(edges@, PrecisionLevel::Fp32, i as int),
            fp16 == count_rows(edges@, PrecisionLevel::Fp16, i as int),
            bf16 == count_rows(edges@, PrecisionLevel::Bf16, i as int),
            fp8 == count_rows(edges@, PrecisionLevel::Fp8, i as int),
            int8 == count_rows(edges@, PrecisionLevel::Int8, i as int),
        decreases edges@.len() - i,
    {
        let row = &edges[i];
        let mut j: usize = 0;
        proof {
            law_counts_add_up(edges@, i as int);
            lemma_total_rises(edges@, i + 1, edges@.len() as int);
        }
        while j < row.len()
            invariant
                i < edges@.len(),
                row@ == edges@[i as int]@,
                j <= row@.len(),
                edge_total(edges@, i as int) + row@.len() <= usize::MAX,
                count_rows(edges@, PrecisionLevel::Fp32, i as int) + count_rows(
                    edges@,
                    PrecisionLevel::Fp16,
                    i as int,
                ) + count_rows(edges@, PrecisionLevel::Bf16, i as int) + count_rows(
                    edges@,
                    PrecisionLevel::Fp8,
                    i as int,
                ) + count_rows(edges@, PrecisionLevel::Int8, i as int) == edge_total(
                    edges@,
                    i as int,
                ),
                fp32 == count_rows(edges@, PrecisionLevel::Fp32, i as int) + count_row(
                    row@,
                    PrecisionLevel::Fp32,
                    j as int,
                ),
                fp16 == count_rows(edges@, PrecisionLevel::Fp16, i as int) + count_row(
                    row@,
                    PrecisionLevel::Fp16,
                    j as int,
                ),
                bf16 == count_rows(edges@, PrecisionLevel::Bf16, i as int) + count_row(
                    row@,
                    PrecisionLevel::Bf16,
                    j as int,
                ),
                fp8 == count_rows(edges@, PrecisionLevel::Fp8, i as int) + count_row(
                    row@,
                    PrecisionLevel::Fp8,
                    j as int,
                ),
                int8 == count_rows(edges@, PrecisionLevel::Int8, i as int) + count_row(
                    row@,
                    PrecisionLevel::Int8,
                    j as int,
                ),
            decreases row@.len() - j,
        {
            proof {
                lemma_row_adds_up(row@, j as int);
            }
            match row[j].precision {
                PrecisionLevel::Fp32 => {
                    fp32 = fp32 + 1;
                },
                PrecisionLevel::Fp16 => {
                    fp16 = fp16 + 1;
                },
                PrecisionLevel::Bf16 => {
                    bf16 = bf16 + 1;
                },
                PrecisionLevel::Fp8 => {
                    fp8 = fp8 + 1;
                },
                PrecisionLevel::Int8 => {
                    int8 = int8 + 1;
                },
            }
            j = j + 1;
        }
        i = i + 1;
    }
    (fp32, fp16, bf16, fp8, int8)
}

/// Where both lists are long enough, a merged row goes from one to the other and back: the edges
/// of the first list stand at the even places, those of the second at the odd ones.
pub proof fn law_merged_edges_alternate(a: Seq<Edge>, b: Seq<Edge>, n: nat, i: int)
    requires
        n <= a.len(),
        n <= b.len(),
        0 <= i < n,
    ensures
        interleaved(a, b, n).len() == 2 * n,
        interleaved(a, b, n)[2 * i] == a[i],
        interleaved(a, b, n)[2 * i + 1] == b[i],
    decreases n,
{
    if n > 1 {
        law_merged_edges_alternate(a, b, (n - 1) as nat, if i < n - 1 {
            i
        } else {
            0
        });
    } else {
        assert(interleaved(a, b, 0).len() == 0);
    }
}

/// A row's count is how many of its edges have the format, and every row adds its own.
pub proof fn law_counts_are_of_the_format(
    rows: Seq<Vec<Edge>>,
    row: Vec<Edge>,
    p: PrecisionLevel,
    n: int,
)
    requires
        0 <= n <= row@.len(),
    ensures
        count_row(row@, p, n) == row@.take(n).filter(|e: Edge| e.precision == p).len(),
        count_rows(rows.push(row), p, rows.len() as int + 1) == count_rows(
            rows,
            p,
            rows.len() as int,
        ) + count_row(row@, p, row@.len() as int),
        edge_total(rows.push(row), rows.len() as int + 1) == edge_total(rows, rows.len() as int)
            + row@.len(),
    decreases n,
{
    reveal(Seq::filter);
    let f = |e: Edge| e.precision == p;
    if n > 0 {
        law_counts_are_of_the_format(rows, row, p, n - 1);
        assert(row@.take(n).drop_last() =~= row@.take(n - 1));
        assert(row@.take(n).last() == row@[n - 1]);
    } else {
        assert(row@.take(0) =~= Seq::<Edge>::empty());
    }
    lemma_rows_front(rows, rows.push(row), p, rows.len() as int);
}

proof fn lemma_rows_front(a: Seq<Vec<Edge>>, b: Seq<Vec<Edge>>, p: PrecisionLevel, n: int)
    requires
        n <= a.len() <= b.len(),
        forall|i: int| 0 <= i < a.len() ==> a[i] == #[trigger] b[i],
    ensures
        count_rows(a, p, n) == count_rows(b, p, n),
        edge_total(a, n) == edge_total(b, n),
    decreases n,
{
    if n > 0 {
        lemma_rows_front(a, b, p, n - 1);
    }
}

} // verus!
