//! Building a neighbour graph: pivots, a locality order to start from, and refinement
//! through neighbours of neighbours.
use vstd::prelude::*;

verus! {

// ── similarity ────────────────────────────────────────────────────────────

/// The dot product of the first `m` components.
pub open spec fn dot_of(a: Seq<i8>, b: Seq<i8>, m: int) -> int
    decreases m,
{
    if m <= 0 {
        0
    } else {
        dot_of(a, b, m - 1) + a[m - 1] * b[m - 1]
    }
}

/// The shorter of two lengths.
pub open spec fn shorter(a: nat, b: nat) -> nat {
    if a < b {
        a
    } else {
        b
    }
}

pub proof fn lemma_product_bound(x: i8, y: i8)
    ensures
        -16384 <= x * y <= 16384,
{
    assert(-16384 <= x * y <= 16384) by (nonlinear_arith)
        requires
            -128 <= x <= 127,
            -128 <= y <= 127,
    ;
}

pub proof fn lemma_dot_bound(a: Seq<i8>, b: Seq<i8>, m: int)
    requires
        0 <= m,
    ensures
        -16384 * m <= dot_of(a, b, m) <= 16384 * m,
    decreases m,
{
    if m > 0 {
        lemma_dot_bound(a, b, m - 1);
        lemma_product_bound(a[m - 1], b[m - 1]);
    }
}

/// The dot product of two quantized vectors, over the shorter length.
pub fn dot_i8(a: &[i8], b: &[i8]) -> (r: i32)
    requires
        16384 * shorter(a@.len(), b@.len()) <= i32::MAX,
    ensures
        r == dot_of(a@, b@, shorter(a@.len(), b@.len()) as int),
{
    let n: usize = if a.len() < b.len() { a.len() } else { b.len() };
    let mut sum: i32 = 0;
    let mut i: usize = 0;
    while i < n
        invariant
            i <= n == shorter(a@.len(), b@.len()),
            16384 * n <= i32::MAX,
            sum == dot_of(a@, b@, i as int),
            -16384 * i <= sum <= 16384 * i,
        decreases n - i,
    {
        proof {
            lemma_product_bound(a@[i as int], b@[i as int]);
        }
        sum = sum + a[i] as i32 * b[i] as i32;
        i = i + 1;
    }
    sum
}

/// The vector of a node in a flat corpus.
pub open spec fn row_at(vectors: Seq<i8>, dim: int, v: int) -> Seq<i8> {
    vectors.subrange(v * dim, v * dim + dim)
}

/// The similarity of two nodes.
pub open spec fn similarity(vectors: Seq<i8>, dim: int, a: int, b: int) -> int {
    dot_of(row_at(vectors, dim, a), row_at(vectors, dim, b), dim)
}

/// A buffer that begins with `n` vectors of `dim` components, small enough for 32-bit sums.
pub open spec fn corpus_of(vectors: Seq<i8>, n: int, dim: int) -> bool {
    &&& 0 <= n <= i32::MAX
    &&& 0 <= dim
    &&& 16384 * dim <= i32::MAX
    &&& n * dim <= vectors.len() <= usize::MAX
}

proof fn lemma_row_fits(n: int, dim: int, v: int)
    requires
        0 <= v < n,
        0 <= dim,
    ensures
        0 <= v * dim,
        v * dim + dim <= n * dim,
{
    assert(0 <= v * dim && v * dim + dim <= n * dim) by (nonlinear_arith)
        requires
            0 <= v < n,
            0 <= dim,
    ;
}

pub fn similarity_of(vectors: &Vec<i8>, n: usize, dim: usize, a: usize, b: usize) -> (r: i32)
    requires
        corpus_of(vectors@, n as int, dim as int),
        a < n,
        b < n,
    ensures
        r == similarity(vectors@, dim as int, a as int, b as int),
{
    proof {
        lemma_row_fits(n as int, dim as int, a as int);
        lemma_row_fits(n as int, dim as int, b as int);
    }
    let ghost x = row_at(vectors@, dim as int, a as int);
    let ghost y = row_at(vectors@, dim as int, b as int);
    let oa: usize = a * dim;
    let ob: usize = b * dim;
    let mut sum: i32 = 0;
    let mut d: usize = 0;
    while d < dim
        invariant
            d <= dim,
            16384 * dim <= i32::MAX,
            oa + dim <= vectors@.len() <= usize::MAX,
            ob + dim <= vectors@.len(),
            x == vectors@.subrange(oa as int, oa + dim),
            y == vectors@.subrange(ob as int, ob + dim),
            sum == dot_of(x, y, d as int),
            -16384 * d <= sum <= 16384 * d,
        decreases dim - d,
    {
        proof {
            lemma_product_bound(x[d as int], y[d as int]);
            assert(x[d as int] == vectors@[oa + d]);
            assert(y[d as int] == vectors@[ob + d]);
        }
        sum = sum + vectors[oa + d] as i32 * vectors[ob + d] as i32;
        d = d + 1;
    }
    sum
}

// ── pivots ────────────────────────────────────────────────────────────────

/// The number of pivots for `n` nodes: a fiftieth, at least 64, at most 2048, and never
/// more than there are nodes.
pub open spec fn pivot_count(n: int) -> int {
    let share = if n / 50 > 64 {
        n / 50
    } else {
        64
    };
    let some = if share < n {
        share
    } else {
        n
    };
    if some < 2048 {
        some
    } else {
        2048
    }
}

/// The distance between two pivots.
pub open spec fn pivot_step(n: int) -> int {
    n / (if pivot_count(n) > 1 {
        pivot_count(n)
    } else {
        1
    })
}

/// The node of a pivot.
pub open spec fn pivot_node(n: int, i: int) -> int {
    if i * pivot_step(n) < n - 1 {
        i * pivot_step(n)
    } else {
        n - 1
    }
}

/// How many pivots a graph of `n` nodes is seeded from, and how far apart they lie.
pub fn seed_plan(n: usize) -> (r: (usize, usize))
    ensures
        r.0 == pivot_count(n as int),
        r.1 == pivot_step(n as int),
{
    let share: usize = if n / 50 > 64 { n / 50 } else { 64 };
    let some: usize = if share < n { share } else { n };
    let count: usize = if some < 2048 { some } else { 2048 };
    let step: usize = n / (if count > 1 { count } else { 1 });
    (count, step)
}

/// The nodes of the pivots, in their order.
pub fn pivot_nodes(n: usize) -> (r: Vec<usize>)
    requires
        n <= i32::MAX,
    ensures
        r@.len() == pivot_count(n as int),
        forall|i: int| 0 <= i < r@.len() ==> #[trigger] r@[i] == pivot_node(n as int, i),
{
    let (count, step) = seed_plan(n);
    let mut out: Vec<usize> = Vec::new();
    let mut i: usize = 0;
    while i < count
        invariant
            i <= count <= 2048,
            count <= n <= i32::MAX,
            step <= n,
            count == pivot_count(n as int),
            step == pivot_step(n as int),
            out@.len() == i,
            forall|x: int| 0 <= x < i ==> #[trigger] out@[x] == pivot_node(n as int, x),
        decreases count - i,
    {
        proof {
            assert(0 <= i * step <= 2048 * 0x7fff_ffff) by (nonlinear_arith)
                requires
                    0 <= i <= 2048,
                    0 <= step <= 0x7fff_ffff,
            ;
        }
        let at: u64 = i as u64 * step as u64;
        let node: usize = if at < n as u64 - 1 { at as usize } else { n - 1 };
        out.push(node);
        i = i + 1;
    }
    out
}

/// The pivots lie at different nodes, and each is a node of the graph.
pub proof fn law_pivots_are_apart(n: int, i: int, j: int)
    requires
        0 <= i < j < pivot_count(n),
    ensures
        0 <= pivot_node(n, i) < pivot_node(n, j) < n,
{
    let c = pivot_count(n);
    let s = pivot_step(n);
    assert(s >= 1 && c * s <= n) by (nonlinear_arith)
        requires
            s == n / c,
            1 <= c <= n,
    ;
    assert(0 <= i * s && i * s + s <= j * s && j * s + s <= c * s) by (nonlinear_arith)
        requires
            0 <= i < j < c,
            s >= 1,
    ;
}

// ── one launch or many ────────────────────────────────────────────────────

/// The most queries that one launch carries.
pub const MAX_ONE_SHOT_Q: usize = 65536;

/// Queries per launch where the corpus does not go in one.
pub const SEED_BATCH: usize = 8192;

/// The bytes that seeding all nodes in one launch takes: queries, two outputs, and the
/// corpus.
pub open spec fn full_bytes(n: int, dim: int, k: int) -> int {
    n * dim + n * k * 8 + n * dim
}

/// How seeding splits its queries: all of them in one launch, or so many per launch.
#[derive(Clone, Copy, Debug, PartialEq, Eq, Structural)]
pub enum SeedLaunch {
    Whole(usize),
    Batched(usize),
}

/// Queries per launch where they go in batches.
pub open spec fn batch_width(n: int) -> int {
    if n < SEED_BATCH {
        n
    } else {
        SEED_BATCH as int
    }
}

/// One launch for all queries where half as much again as the buffers need is free, and the
/// grid stays small; else batches.
pub open spec fn launch_of(n: int, dim: int, k: int, free: int) -> SeedLaunch {
    let thrice = full_bytes(n, dim, k) * 3;
    let wanted = if thrice < usize::MAX {
        thrice
    } else {
        usize::MAX as int
    };
    if wanted / 2 < free && n <= MAX_ONE_SHOT_Q {
        SeedLaunch::Whole(n as usize)
    } else {
        SeedLaunch::Batched(batch_width(n) as usize)
    }
}

/// How seeding splits its queries at first, given the free device memory.
pub fn seed_launch(n: usize, dim: usize, k: usize, free: usize) -> (r: SeedLaunch)
    requires
        full_bytes(n as int, dim as int, k as int) <= usize::MAX,
    ensures
        r == launch_of(n as int, dim as int, k as int, free as int),
{
    proof {
        assert(0 <= n * dim && 0 <= n * k && n * k * 8 == (n * k) * 8) by (nonlinear_arith)
            requires
                0 <= n,
                0 <= dim,
                0 <= k,
        ;
    }
    let corpus: usize = n * dim;
    let out: usize = n * k * 8;
    let full: usize = corpus + out + corpus;
    let wanted: usize = if full > usize::MAX / 3 { usize::MAX } else { full * 3 };
    if wanted / 2 < free && n <= MAX_ONE_SHOT_Q {
        SeedLaunch::Whole(n)
    } else {
        SeedLaunch::Batched(if n < SEED_BATCH { n } else { SEED_BATCH })
    }
}

impl SeedLaunch {
    pub open spec fn wide(self) -> usize {
        match self {
            SeedLaunch::Whole(w) => w,
            SeedLaunch::Batched(w) => w,
        }
    }

    /// Queries per launch.
    pub fn width(&self) -> (r: usize)
        ensures
            r == self.wide(),
    {
        match self {
            SeedLaunch::Whole(w) => *w,
            SeedLaunch::Batched(w) => *w,
        }
    }

    /// What to try where the buffers could not be had: after one launch for all queries,
    /// batches of them, even where a batch is no narrower; after batches, nothing.
    pub fn refused(&self) -> (r: Option<SeedLaunch>)
        ensures
            r == (match *self {
                SeedLaunch::Whole(n) => Some(SeedLaunch::Batched(batch_width(n as int) as usize)),
                SeedLaunch::Batched(_) => None,
            }),
    {
        match self {
            SeedLaunch::Whole(n) => Some(
                SeedLaunch::Batched(if *n < SEED_BATCH { *n } else { SEED_BATCH }),
            ),
            SeedLaunch::Batched(_) => None,
        }
    }
}

/// A launch never carries more queries than there are, and never none where there are some:
/// neither at first nor after a refusal.
pub proof fn law_launches_fit_the_corpus(n: int, dim: int, k: int, free: int)
    requires
        0 <= n <= usize::MAX,
    ensures
        launch_of(n, dim, k, free).wide() <= n,
        n > 0 ==> launch_of(n, dim, k, free).wide() > 0,
        0 <= batch_width(n) <= n,
        n > 0 ==> batch_width(n) > 0,
{
}

/// The bounds of the `i`-th batch of `n` items, `size` at a time.
pub open spec fn batch_at(n: int, size: int, i: int) -> (int, int) {
    (
        i * size,
        if (i + 1) * size < n {
            (i + 1) * size
        } else {
            n
        },
    )
}

/// Splits `n` items into batches of `size`.
pub fn batches(n: usize, size: usize) -> (r: Vec<(usize, usize)>)
    requires
        size > 0,
    ensures
        forall|i: int|
            0 <= i < r@.len() ==> (#[trigger] r@[i]).0 == batch_at(n as int, size as int, i).0
                && r@[i].1 == batch_at(n as int, size as int, i).1 && r@[i].0 < r@[i].1,
        (r@.len() - 1) * size < n <= r@.len() * size || (n == 0 && r@.len() == 0),
{
    let mut out: Vec<(usize, usize)> = Vec::new();
    let mut start: usize = 0;
    let mut more: bool = n > 0;
    proof {
        assert(0 * size == 0) by (nonlinear_arith);
    }
    while more
        invariant
            size > 0,
            more ==> start < n && start == out@.len() * size,
            !more ==> (out@.len() - 1) * size < n <= out@.len() * size || (n == 0 && out@.len()
                == 0),
            forall|i: int|
                0 <= i < out@.len() ==> (#[trigger] out@[i]).0 == batch_at(
                    n as int,
                    size as int,
                    i,
                ).0 && out@[i].1 == batch_at(n as int, size as int, i).1 && out@[i].0 < out@[i].1,
            more || out@.len() > 0 || n == 0,
        decreases (if more { n - start + 1 } else { 0int }),
    {
        let ghost c = out@.len() as int;
        proof {
            assert((c + 1) * size == c * size + size && (c + 1 - 1) * size == c * size)
                by (nonlinear_arith);
        }
        if n - start > size {
            out.push((start, start + size));
            start = start + size;
        } else {
            out.push((start, n));
            more = false;
        }
    }
    out
}

/// Every item is in one batch: where one ends, the next begins, the first begins at the
/// first item, and the last ends behind the last.
pub proof fn law_batches_cover(n: int, size: int, count: int, i: int)
    requires
        size > 0,
        0 <= i < count,
        (count - 1) * size < n <= count * size,
    ensures
        batch_at(n, size, 0).0 == 0,
        i + 1 < count ==> batch_at(n, size, i).1 == batch_at(n, size, i + 1).0,
        batch_at(n, size, count - 1).1 == n,
        batch_at(n, size, i).0 < batch_at(n, size, i).1 <= batch_at(n, size, i).0 + size,
{
    assert(0 * size == 0) by (nonlinear_arith);
    assert(i * size <= (count - 1) * size && (i + 1) * size == i * size + size) by (nonlinear_arith)
        requires
            size > 0,
            i <= count - 1,
    ;
    assert((count - 1 + 1) * size == count * size) by (nonlinear_arith);
    if i + 1 < count {
        assert((i + 1) * size <= (count - 1) * size) by (nonlinear_arith)
            requires
                size > 0,
                i + 1 <= count - 1,
        ;
    }
}

// ── what a similarity is ──────────────────────────────────────────────────

/// The similarity is additive in each vector: where the components of `c` are the sums of those
/// of `a` and `b`, its similarity to any vector is the sum of theirs.
pub proof fn law_similarity_adds(a: Seq<i8>, b: Seq<i8>, c: Seq<i8>, v: Seq<i8>, m: int)
    requires
        0 <= m <= a.len(),
        m <= b.len(),
        m <= c.len(),
        m <= v.len(),
        forall|i: int| 0 <= i < m ==> #[trigger] c[i] == a[i] + b[i],
    ensures
        dot_of(c, v, m) == dot_of(a, v, m) + dot_of(b, v, m),
        dot_of(v, c, m) == dot_of(v, a, m) + dot_of(v, b, m),
    decreases m,
{
    if m > 0 {
        law_similarity_adds(a, b, c, v, m - 1);
        let (x, y, z, w) = (a[m - 1] as int, b[m - 1] as int, c[m - 1] as int, v[m - 1] as int);
        assert(z * w == x * w + y * w && w * z == w * x + w * y) by (nonlinear_arith)
            requires
                z == x + y,
        ;
    }
}

/// Negating one of two vectors negates their similarity.
pub proof fn law_opposite_similarity(a: Seq<i8>, b: Seq<i8>, v: Seq<i8>, m: int)
    requires
        0 <= m <= a.len(),
        m <= b.len(),
        m <= v.len(),
        forall|i: int| 0 <= i < m ==> #[trigger] b[i] == -a[i],
    ensures
        dot_of(b, v, m) == -dot_of(a, v, m),
        dot_of(v, b, m) == -dot_of(v, a, m),
        dot_of(a, b, m) == -dot_of(a, a, m),
    decreases m,
{
    if m > 0 {
        law_opposite_similarity(a, b, v, m - 1);
        let (x, y, w) = (a[m - 1] as int, b[m - 1] as int, v[m - 1] as int);
        assert(y * w == -(x * w) && w * y == -(w * x) && x * y == -(x * x)) by (nonlinear_arith)
            requires
                y == -x,
        ;
    }
}

/// It makes no difference which vector comes first.
pub proof fn law_similarity_is_symmetric(a: Seq<i8>, b: Seq<i8>, m: int)
    ensures
        dot_of(a, b, m) == dot_of(b, a, m),
    decreases m,
{
    if m > 0 {
        law_similarity_is_symmetric(a, b, m - 1);
        let (x, y) = (a[m - 1] as int, b[m - 1] as int);
        assert(x * y == y * x) by (nonlinear_arith);
    }
}

/// A vector with at most one component that is not zero takes that component out of another,
/// times its own: nothing where the lengths end before it.
pub proof fn law_one_component(a: Seq<i8>, b: Seq<i8>, at: int, m: int)
    requires
        0 <= m <= a.len(),
        m <= b.len(),
        0 <= at,
        forall|i: int| 0 <= i < m && i != at ==> #[trigger] b[i] == 0,
    ensures
        dot_of(a, b, m) == (if at < m {
            a[at] * b[at]
        } else {
            0
        }),
    decreases m,
{
    if m > 0 {
        let (x, y) = (a[m - 1] as int, b[m - 1] as int);
        if at != m - 1 {
            assert(x * y == 0) by (nonlinear_arith)
                requires
                    y == 0,
            ;
            law_one_component(a, b, at, m - 1);
        } else {
            lemma_dot_zeros(a, b, m - 1);
        }
    }
}

proof fn lemma_dot_zeros(a: Seq<i8>, b: Seq<i8>, m: int)
    requires
        forall|i: int| 0 <= i < m ==> #[trigger] b[i] == 0,
    ensures
        dot_of(a, b, m) == 0,
    decreases m,
{
    if m > 0 {
        lemma_dot_zeros(a, b, m - 1);
        let (x, y) = (a[m - 1] as int, b[m - 1] as int);
        assert(x * y == 0) by (nonlinear_arith)
            requires
                y == 0,
        ;
    }
}

/// A vector's similarity to itself is never negative, and zero for none but the zero vector.
pub proof fn law_norms_are_positive(a: Seq<i8>, m: int)
    requires
        0 <= m <= a.len(),
    ensures
        dot_of(a, a, m) >= 0,
        dot_of(a, a, m) == 0 <==> forall|i: int| 0 <= i < m ==> #[trigger] a[i] == 0,
    decreases m,
{
    if m > 0 {
        law_norms_are_positive(a, m - 1);
        let x = a[m - 1] as int;
        assert(x * x >= 0 && (x * x == 0 <==> x == 0)) by (nonlinear_arith);
    }
}

/// The similarity of two nodes of a corpus is that of the rows that were laid out there one
/// behind the other, and the same either way round.
pub proof fn law_nodes_have_their_rows(
    rows: Seq<Seq<i8>>,
    vectors: Seq<i8>,
    dim: int,
    a: int,
    b: int,
)
    requires
        0 <= dim,
        0 <= a < rows.len(),
        0 <= b < rows.len(),
        vectors.len() >= rows.len() * dim,
        forall|v: int| 0 <= v < rows.len() ==> (#[trigger] rows[v]).len() == dim,
        forall|v: int, d: int|
            0 <= v < rows.len() && 0 <= d < dim ==> vectors[v * dim + d] == #[trigger] rows[v][d],
    ensures
        similarity(vectors, dim, a, b) == dot_of(rows[a], rows[b], dim),
        similarity(vectors, dim, b, a) == similarity(vectors, dim, a, b),
{
    lemma_row_fits(rows.len() as int, dim, a);
    lemma_row_fits(rows.len() as int, dim, b);
    assert(row_at(vectors, dim, a) =~= rows[a]) by {
        assert forall|d: int| 0 <= d < dim implies row_at(vectors, dim, a)[d] == rows[a][d] by {
            assert(vectors[a * dim + d] == rows[a][d]);
        }
    }
    assert(row_at(vectors, dim, b) =~= rows[b]) by {
        assert forall|d: int| 0 <= d < dim implies row_at(vectors, dim, b)[d] == rows[b][d] by {
            assert(vectors[b * dim + d] == rows[b][d]);
        }
    }
    law_similarity_is_symmetric(rows[a], rows[b], dim);
}

/// Vectors are compared over the length that both have.
pub proof fn law_both_lengths_count(a: nat, b: nat)
    ensures
        shorter(a, b) <= a,
        shorter(a, b) <= b,
        shorter(a, b) == a || shorter(a, b) == b,
{
}

/// There is a pivot for every fifty nodes, but never fewer than 64 where there are as many nodes,
/// and never more than 2048; they lie equally far apart, from the first node on.
pub proof fn law_pivots_are_spread(n: int, i: int)
    requires
        n > 0,
        0 <= i,
        i + 1 < pivot_count(n),
    ensures
        n <= 64 ==> pivot_count(n) == n,
        64 <= n < 3250 ==> pivot_count(n) == 64,
        3250 <= n < 102_450 ==> 50 * pivot_count(n) <= n < 50 * (pivot_count(n) + 1),
        n >= 102_400 ==> pivot_count(n) == 2048,
        pivot_node(n, 0) == 0,
        pivot_node(n, i + 1) - pivot_node(n, i) == pivot_step(n),
        pivot_step(n) * pivot_count(n) <= n < (pivot_step(n) + 1) * pivot_count(n),
{
    let c = pivot_count(n);
    let s = pivot_step(n);
    assert(c > 1);
    assert(s * c <= n < (s + 1) * c) by (nonlinear_arith)
        requires
            s == n / c,
            c > 0,
            n > 0,
    ;
    assert(s >= 1) by (nonlinear_arith)
        requires
            n < (s + 1) * c,
            n >= c,
            c > 0,
    ;
    assert((i + 1) * s == i * s + s) by (nonlinear_arith);
    assert((i + 1) * s <= (c - 1) * s && (c - 1) * s + s == s * c) by (nonlinear_arith)
        requires
            i + 1 <= c - 1,
            s >= 1,
    ;
    assert(0 * s == 0) by (nonlinear_arith);
    assert(i * s >= 0) by (nonlinear_arith)
        requires
            i >= 0,
            s >= 1,
    ;
}

/// All queries go in one launch exactly where half as much again as all buffers is free and there
/// are at most 65536 of them; in batches they go by 8192, or all where there are fewer.
pub proof fn law_one_launch_needs_room(n: int, dim: int, k: int, free: int)
    requires
        0 <= n <= usize::MAX,
        3 * (2 * (n * dim) + 8 * (n * k)) <= usize::MAX,
    ensures
        launch_of(n, dim, k, free) is Whole <==> (3 * (2 * (n * dim) + 8 * (n * k))) / 2 < free && n
            <= 65536,
        launch_of(n, dim, k, free) matches SeedLaunch::Batched(w) ==> w == (if n < 8192 {
            n
        } else {
            8192
        }),
        launch_of(n, dim, k, free) matches SeedLaunch::Whole(w) ==> w == n,
{
    assert(n * k * 8 == 8 * (n * k));
}

} // verus!
