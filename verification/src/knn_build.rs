//! The build of a neighbour graph on the device: what the seeding launches gave, the refinement
//! with its buffers and passes, and what is kept of its result.
use crate::knn;
use crate::knn_refine;
use crate::knn_refine::{flat_graph, nn_descent, seed_graph};
use crate::knn_seed;
use vstd::prelude::*;

verus! {

// ── what the device refined ───────────────────────────────────────────────

/// The entries of a row that name a node; the device writes negative ones behind the last.
pub open spec fn named(row: Seq<i32>) -> Seq<i32> {
    row.filter(|e: i32| e >= 0)
}

/// Row `v` of a flat graph.
pub open spec fn flat_row(flat: Seq<i32>, k: int, v: int) -> Seq<i32> {
    flat.subrange(v * k, v * k + k)
}

proof fn lemma_row_within(n: int, k: int, v: int)
    requires
        0 <= v < n,
        0 <= k,
    ensures
        0 <= v * k,
        v * k + k <= n * k,
        (v + 1) * k == v * k + k,
{
    assert(0 <= v * k && v * k + k <= n * k && (v + 1) * k == v * k + k) by (nonlinear_arith)
        requires
            0 <= v < n,
            0 <= k,
    ;
}

/// Reads back the graph that the device refined: each row without its negative entries.
pub fn keep_device_graph(flat: &Vec<i32>, n: usize, k: usize) -> (r: Vec<Vec<i32>>)
    requires
        n * k <= flat@.len(),
    ensures
        r@.len() == n,
        forall|v: int| 0 <= v < n ==> (#[trigger] r@[v])@ == named(flat_row(flat@, k as int, v)),
{
    let mut out: Vec<Vec<i32>> = Vec::new();
    let mut v: usize = 0;
    while v < n
        invariant
            n * k <= flat.len(),
            v <= n,
            out@.len() == v,
            forall|x: int|
                0 <= x < v ==> (#[trigger] out@[x])@ == named(flat_row(flat@, k as int, x)),
        decreases n - v,
    {
        proof {
            lemma_row_within(n as int, k as int, v as int);
        }
        let from: usize = v * k;
        let ghost whole = flat_row(flat@, k as int, v as int);
        let ghost p = |e: i32| e >= 0;
        let mut row: Vec<i32> = Vec::new();
        let mut j: usize = 0;
        proof {
            assert(whole.take(0).filter(p) =~= Seq::<i32>::empty());
        }
        while j < k
            invariant
                from == v * k,
                from + k <= flat.len(),
                j <= k,
                p == (|e: i32| e >= 0),
                whole == flat_row(flat@, k as int, v as int),
                whole.len() == k,
                row@ == whole.take(j as int).filter(p),
            decreases k - j,
        {
            let e: i32 = flat[from + j];
            proof {
                assert(whole.take(j + 1) =~= whole.take(j as int).push(e));
                whole.take(j as int).lemma_filter_push(e, p);
            }
            if e >= 0 {
                row.push(e);
            }
            j = j + 1;
        }
        proof {
            assert(whole.take(k as int) =~= whole);
        }
        out.push(row);
        v = v + 1;
    }
    out
}

/// Entry `j` of the row of node `v` on the device: its neighbour, or -1 behind the last.
pub open spec fn device_entry(g: Seq<Vec<i32>>, v: int, j: int) -> int {
    if j < g[v]@.len() {
        g[v]@[j] as int
    } else {
        -1
    }
}

/// Lays a graph out for the device: `k` entries per node, -1 behind the last.
pub fn device_graph(g: &Vec<Vec<i32>>, k: usize) -> (r: Vec<i32>)
    requires
        g@.len() * k <= usize::MAX,
    ensures
        r@.len() == g@.len() * k,
        forall|v: int, j: int|
            #![trigger device_entry(g@, v, j)]
            0 <= v < g@.len() && 0 <= j < k ==> r@[v * k + j] == device_entry(g@, v, j),
{
    let n: usize = g.len();
    let mut out: Vec<i32> = Vec::new();
    let mut v: usize = 0;
    proof {
        assert(0 * k == 0) by (nonlinear_arith);
    }
    while v < n
        invariant
            v <= n == g@.len(),
            g@.len() * k <= usize::MAX,
            out@.len() == v * k,
            forall|x: int, y: int|
                #![trigger device_entry(g@, x, y)]
                0 <= x < v && 0 <= y < k ==> out@[x * k + y] == device_entry(g@, x, y),
        decreases n - v,
    {
        let row = &g[v];
        let mut j: usize = 0;
        while j < k
            invariant
                v < n == g@.len(),
                row@ == g@[v as int]@,
                j <= k,
                out@.len() == v * k + j,
                forall|x: int, y: int|
                    #![trigger device_entry(g@, x, y)]
                    0 <= x < v && 0 <= y < k ==> out@[x * k + y] == device_entry(g@, x, y),
                forall|y: int|
                    #![trigger device_entry(g@, v as int, y)]
                    0 <= y < j ==> out@[v * k + y] == device_entry(g@, v as int, y),
            decreases k - j,
        {
            let ghost before = out@;
            out.push(
                if j < row.len() {
                    row[j]
                } else {
                    -1
                },
            );
            proof {
                assert forall|x: int, y: int|
                    #![trigger device_entry(g@, x, y)]
                    0 <= x < v && 0 <= y < k implies out@[x * k + y] == device_entry(g@, x, y) by {
                    lemma_row_within(v as int, k as int, x);
                    assert(before[x * k + y] == out@[x * k + y]);
                }
                assert(out@[v * k + j] == device_entry(g@, v as int, j as int));
            }
            j = j + 1;
        }
        proof {
            lemma_row_within(n as int, k as int, v as int);
        }
        v = v + 1;
    }
    out
}

/// Whether every entry of a flat graph is below `n`.
pub open spec fn below(flat: Seq<i32>, n: int) -> bool {
    forall|x: int| 0 <= x < flat.len() ==> (#[trigger] flat[x]) < n
}

// ── the refinement on the device ──────────────────────────────────────────

/// The neighbours through whose lists a pass on the device looks.
pub const DEVICE_EXPAND: i32 = 10;

/// The most nodes that a pass on the device notes as pointing at one.
pub const DEVICE_REV_CAP: usize = 48;

/// The buffers of a refinement: two graphs, who points at a node, and how many do.
pub const REFINE_BUFFERS: usize = 4;

/// A refinement on the device: the next call. `flipped` says that the second graph buffer is
/// the one to read from.
#[derive(Clone, Copy, Debug, PartialEq, Eq, Structural)]
pub enum RefineStage {
    /// Copy the corpus back over the pivots.
    Restore { passes: usize },
    /// Allocate a buffer; so many are there.
    Alloc { made: usize, passes: usize },
    /// Copy the first graph; what becomes of that shows in the passes.
    Upload { passes: usize },
    /// Clear the counts, and note who points at each node.
    Reverse { left: usize, flipped: bool },
    /// Refine from one graph buffer into the other.
    Descend { left: usize, flipped: bool },
    /// Wait for the device; `sound` is false once a launch was refused.
    Wait { sound: bool, flipped: bool },
    /// Copy the graph back.
    Read { flipped: bool },
    /// Free all buffers: the refinement has come to its end.
    Done,
    /// Free the buffers that are there, and refine on the processor.
    Failed { made: usize },
}

/// The stage after a call.
pub open spec fn stage_after(s: RefineStage, ok: bool) -> RefineStage {
    match s {
        RefineStage::Restore { passes } => if ok {
            RefineStage::Alloc { made: 0, passes }
        } else {
            RefineStage::Failed { made: 0 }
        },
        RefineStage::Alloc { made, passes } => if !ok {
            RefineStage::Failed { made }
        } else if made + 1 < REFINE_BUFFERS {
            RefineStage::Alloc { made: (made + 1) as usize, passes }
        } else {
            RefineStage::Upload { passes }
        },
        RefineStage::Upload { passes } => passes_left(passes as int, false),
        RefineStage::Reverse { left, flipped } => if ok {
            RefineStage::Descend { left, flipped }
        } else {
            RefineStage::Wait { sound: false, flipped }
        },
        RefineStage::Descend { left, flipped } => if ok {
            passes_left(left - 1, !flipped)
        } else {
            RefineStage::Wait { sound: false, flipped }
        },
        RefineStage::Wait { sound, flipped } => if sound && ok {
            RefineStage::Read { flipped }
        } else {
            RefineStage::Failed { made: REFINE_BUFFERS }
        },
        RefineStage::Read { flipped: _ } => RefineStage::Done,
        RefineStage::Done => RefineStage::Done,
        RefineStage::Failed { made } => RefineStage::Failed { made },
    }
}

/// The stage with so many passes left.
pub open spec fn passes_left(left: int, flipped: bool) -> RefineStage {
    if left > 0 {
        RefineStage::Reverse { left: left as usize, flipped }
    } else {
        RefineStage::Wait { sound: true, flipped }
    }
}

/// The first call of a refinement; without both of its kernels there is none.
pub fn refine_first(has_rev: bool, has_descent: bool, passes: usize) -> (r: RefineStage)
    ensures
        r == (if has_rev && has_descent {
            RefineStage::Restore { passes }
        } else {
            RefineStage::Failed { made: 0 }
        }),
{
    if has_rev && has_descent {
        RefineStage::Restore { passes }
    } else {
        RefineStage::Failed { made: 0 }
    }
}

/// The call after one that succeeded or failed.
pub fn refine_next(s: RefineStage, ok: bool) -> (r: RefineStage)
    ensures
        r == stage_after(s, ok),
{
    match s {
        RefineStage::Restore { passes } => if ok {
            RefineStage::Alloc { made: 0, passes }
        } else {
            RefineStage::Failed { made: 0 }
        },
        RefineStage::Alloc { made, passes } => if !ok {
            RefineStage::Failed { made }
        } else if made < REFINE_BUFFERS - 1 {
            RefineStage::Alloc { made: made + 1, passes }
        } else {
            RefineStage::Upload { passes }
        },
        RefineStage::Upload { passes } => if passes > 0 {
            RefineStage::Reverse { left: passes, flipped: false }
        } else {
            RefineStage::Wait { sound: true, flipped: false }
        },
        RefineStage::Reverse { left, flipped } => if ok {
            RefineStage::Descend { left, flipped }
        } else {
            RefineStage::Wait { sound: false, flipped }
        },
        RefineStage::Descend { left, flipped } => if !ok {
            RefineStage::Wait { sound: false, flipped }
        } else if left > 1 {
            RefineStage::Reverse { left: left - 1, flipped: !flipped }
        } else {
            RefineStage::Wait { sound: true, flipped: !flipped }
        },
        RefineStage::Wait { sound, flipped } => if sound && ok {
            RefineStage::Read { flipped }
        } else {
            RefineStage::Failed { made: REFINE_BUFFERS }
        },
        RefineStage::Read { flipped: _ } => RefineStage::Done,
        RefineStage::Done => RefineStage::Done,
        RefineStage::Failed { made } => RefineStage::Failed { made },
    }
}

/// The bytes of the `i`-th buffer of a refinement.
pub open spec fn refine_buffer(n: int, k: int, i: int) -> int {
    if i < 2 {
        n * k * 4
    } else if i == 2 {
        n * DEVICE_REV_CAP * 4
    } else {
        n * 4
    }
}

/// The bytes of the `i`-th buffer of a refinement.
pub fn refine_bytes(n: usize, k: usize, i: usize) -> (r: usize)
    requires
        n * k * 4 <= usize::MAX,
        n * DEVICE_REV_CAP * 4 <= usize::MAX,
    ensures
        r == refine_buffer(n as int, k as int, i as int),
{
    if i < 2 {
        proof {
            assert(0 <= n * k && n * k * 4 == (n * k) * 4) by (nonlinear_arith)
                requires
                    0 <= n,
                    0 <= k,
            ;
        }
        n * k * 4
    } else if i == 2 {
        n * DEVICE_REV_CAP * 4
    } else {
        n * 4
    }
}

/// Blocks and threads of a launch.
#[derive(Clone, Copy, Debug, PartialEq, Eq, Structural)]
pub struct Grid {
    pub blocks: u32,
    pub threads: u32,
}

/// The grid of a stage that launches: a thread for each node to note who points at it, a
/// block for each node to refine it.
pub fn refine_grid(s: RefineStage, n: usize) -> (r: Option<Grid>)
    requires
        n <= i32::MAX,
    ensures
        r == (match s {
            RefineStage::Reverse { left: _, flipped: _ } => Some(
                Grid { blocks: ((n + 255) / 256) as u32, threads: 256 },
            ),
            RefineStage::Descend { left: _, flipped: _ } => Some(
                Grid { blocks: n as u32, threads: 128 },
            ),
            _ => None,
        }),
{
    match s {
        RefineStage::Reverse { left: _, flipped: _ } => Some(
            Grid { blocks: ((n + 255) / 256) as u32, threads: 256 },
        ),
        RefineStage::Descend { left: _, flipped: _ } => Some(
            Grid { blocks: n as u32, threads: 128 },
        ),
        _ => None,
    }
}

/// The calls that are left at most.
pub open spec fn calls_left(s: RefineStage) -> nat {
    match s {
        RefineStage::Restore { passes } => (2 * passes + 8) as nat,
        RefineStage::Alloc { made, passes } => (2 * passes + 3 + (if made < REFINE_BUFFERS {
            REFINE_BUFFERS - made
        } else {
            0
        })) as nat,
        RefineStage::Upload { passes } => (2 * passes + 3) as nat,
        RefineStage::Reverse { left, flipped: _ } => (2 * left + 2) as nat,
        RefineStage::Descend { left, flipped: _ } => (2 * left + 1) as nat,
        RefineStage::Wait { sound: _, flipped: _ } => 2,
        RefineStage::Read { flipped: _ } => 1,
        RefineStage::Done => 0,
        RefineStage::Failed { made: _ } => 0,
    }
}

/// Whether a refinement can be at the stage: a pass is begun only while one is left, and there
/// are no more than the four buffers.
pub open spec fn reachable(s: RefineStage) -> bool {
    match s {
        RefineStage::Alloc { made, passes: _ } => made < REFINE_BUFFERS,
        RefineStage::Reverse { left, flipped: _ } => left > 0,
        RefineStage::Descend { left, flipped: _ } => left > 0,
        RefineStage::Failed { made } => made <= REFINE_BUFFERS,
        _ => true,
    }
}

/// Every call brings a refinement nearer to its end, whatever becomes of it.
pub proof fn law_refinement_ends(s: RefineStage, ok: bool)
    requires
        reachable(s),
    ensures
        reachable(stage_after(s, ok)),
        calls_left(s) > 0 ==> calls_left(stage_after(s, ok)) < calls_left(s),
        calls_left(s) == 0 ==> stage_after(s, ok) == s,
{
}

/// A graph is read back only where each launch was taken and the device came to its end; after
/// a refused launch or a hang nothing is kept, and all four buffers are freed.
pub proof fn law_only_sound_graphs_are_read(s: RefineStage, ok: bool)
    ensures
        stage_after(s, ok) matches RefineStage::Read { flipped: f } ==> ok && s
            == (RefineStage::Wait { sound: true, flipped: f }),
        stage_after(s, ok) is Done && !(s is Done) ==> s is Read,
        s is Reverse && !ok ==> stage_after(stage_after(s, ok), true) == (RefineStage::Failed {
            made: REFINE_BUFFERS,
        }),
        s is Descend && !ok ==> stage_after(stage_after(s, ok), true) == (RefineStage::Failed {
            made: REFINE_BUFFERS,
        }),
        s matches RefineStage::Alloc { made, passes: _ } ==> !ok ==> stage_after(s, ok) == (
        RefineStage::Failed { made }),
{
}

/// A pass reads what the one before has written: the buffers change places at each.
pub proof fn law_passes_change_buffers(left: usize, flipped: bool)
    requires
        left > 0,
    ensures
        ({
            let s = RefineStage::Reverse { left, flipped };
            let next = stage_after(stage_after(s, true), true);
            &&& left > 1 ==> next == (RefineStage::Reverse {
                left: (left - 1) as usize,
                flipped: !flipped,
            })
            &&& left == 1 ==> next == (RefineStage::Wait { sound: true, flipped: !flipped })
        }),
{
}

// ── the whole build ───────────────────────────────────────────────────────

/// What a seeding launch gave for each of its queries: numbers of pivots, and the bits of
/// their distances.
#[derive(Clone, Debug)]
pub struct SeedBatch {
    pub numbers: Vec<Vec<i32>>,
    pub distances: Vec<Vec<u32>>,
}

/// The pivots of the queries of the first `m` launches.
pub open spec fn seed_numbers(b: Seq<Option<SeedBatch>>, m: int) -> Seq<Vec<i32>>
    decreases m,
{
    if m <= 0 {
        Seq::empty()
    } else {
        seed_numbers(b, m - 1) + (match b[m - 1] {
            Some(x) => x.numbers@,
            None => Seq::empty(),
        })
    }
}

/// Their distances.
pub open spec fn seed_distances(b: Seq<Option<SeedBatch>>, m: int) -> Seq<Vec<u32>>
    decreases m,
{
    if m <= 0 {
        Seq::empty()
    } else {
        seed_distances(b, m - 1) + (match b[m - 1] {
            Some(x) => x.distances@,
            None => Seq::empty(),
        })
    }
}

/// Whether every launch gave a result.
pub open spec fn all_seeded(b: Seq<Option<SeedBatch>>) -> bool {
    forall|i: int| 0 <= i < b.len() ==> (#[trigger] b[i]) is Some
}

/// Whether the launches cover `n` nodes, with a distance for each pivot.
pub open spec fn covers(b: Seq<Option<SeedBatch>>, n: int) -> bool {
    let numbers = seed_numbers(b, b.len() as int);
    let distances = seed_distances(b, b.len() as int);
    &&& numbers.len() == n
    &&& distances.len() == n
    &&& forall|v: int| 0 <= v < n ==> (#[trigger] numbers[v])@.len() == distances[v]@.len()
}

fn collect(seeds: Vec<Option<SeedBatch>>) -> (r: Option<SeedBatch>)
    ensures
        r is Some == all_seeded(seeds@),
        r matches Some(x) ==> x.numbers@ == seed_numbers(seeds@, seeds@.len() as int) && x.distances@
            == seed_distances(seeds@, seeds@.len() as int),
{
    let ghost all = seeds@;
    let mut rest: Vec<Option<SeedBatch>> = seeds;
    let mut numbers: Vec<Vec<i32>> = Vec::new();
    let mut distances: Vec<Vec<u32>> = Vec::new();
    let ghost mut done: int = 0;
    while rest.len() > 0
        invariant
            all == seeds@,
            0 <= done <= all.len(),
            rest@ == all.skip(done),
            forall|i: int| 0 <= i < done ==> (#[trigger] all[i]) is Some,
            numbers@ == seed_numbers(all, done),
            distances@ == seed_distances(all, done),
        decreases rest@.len(),
    {
        let b: Option<SeedBatch> = rest.remove(0);
        proof {
            assert(b == all[done]);
            assert(rest@ =~= all.skip(done + 1));
        }
        match b {
            Some(x) => {
                let mut x = x;
                numbers.append(&mut x.numbers);
                distances.append(&mut x.distances);
            },
            None => {
                assert(!(all[done] is Some));
                return None;
            },
        }
        proof {
            done = done + 1;
        }
    }
    proof {
        assert(done == all.len());
    }
    Some(SeedBatch { numbers, distances })
}

/// `g` is a graph that seeding gives.
pub open spec fn started(b: Seq<Option<SeedBatch>>, n: int, k: int, g: Seq<Vec<i32>>) -> bool {
    let numbers = seed_numbers(b, b.len() as int);
    let distances = seed_distances(b, b.len() as int);
    exists|near: Seq<Seq<knn_seed::Pivot>>, line: Seq<usize>| #[trigger]
        knn_refine::seeded(numbers, distances, n, k, near, line, g)
}

/// The graph that a build starts from. There is none where a launch failed: a graph with
/// unfilled nodes would pass for a good one.
pub fn start_graph(seeds: Vec<Option<SeedBatch>>, n: usize, k: usize) -> (r: Option<Vec<Vec<i32>>>)
    requires
        0 < n <= i32::MAX,
        k >= knn_seed::KEEP_PIVOTS,
        all_seeded(seeds@) ==> covers(seeds@, n as int),
    ensures
        r is Some == all_seeded(seeds@),
        r matches Some(g) ==> started(seeds@, n as int, k as int, g@),
{
    match collect(seeds) {
        Some(found) => {
            let g = seed_graph(&found.numbers, &found.distances, n, k);
            Some(g)
        },
        None => None,
    }
}

/// Whether a build goes on to refine its graph: the seconds that it may take are not spent when
/// the graph to start from stands.
pub fn goes_on(spent: u64, budget: u64) -> (r: bool)
    ensures
        r == (spent < budget),
{
    spent < budget
}

/// The lists that a build ends with: those of the device where it refined the graph, else
/// those of the passes on the processor.
pub open spec fn finished(
    vectors: Seq<i8>,
    n: int,
    dim: int,
    k: int,
    b: Seq<Option<SeedBatch>>,
    device: Option<Vec<i32>>,
    passes: int,
    start: Seq<Vec<i32>>,
    g: Seq<Vec<i32>>,
) -> bool {
    &&& g.len() == n
    &&& match device {
        Some(flat) => forall|v: int|
            0 <= v < n ==> (#[trigger] g[v])@ == named(flat_row(flat@, k, v)),
        None => knn_refine::built(
            vectors,
            n,
            dim,
            k,
            seed_numbers(b, b.len() as int),
            seed_distances(b, b.len() as int),
            passes,
            start,
            g,
        ),
    }
}

/// Builds the neighbour graph of a corpus: seeds it from what the launches gave, takes what
/// the device made of it or refines it here, and lays it out flat. There is no graph where there
/// is none to start from, or where the seconds that the build may take were spent once it stood.
pub fn gpu_build_knn_graph(
    vectors: &Vec<i8>,
    n: usize,
    dim: usize,
    k: usize,
    seeds: Vec<Option<SeedBatch>>,
    spent: u64,
    budget: u64,
    device: &Option<Vec<i32>>,
    passes: usize,
) -> (r: Option<Vec<usize>>)
    requires
        0 < n,
        knn::corpus_of(vectors@, n as int, dim as int),
        k >= knn_seed::KEEP_PIVOTS,
        n * k <= usize::MAX,
        all_seeded(seeds@) ==> covers(seeds@, n as int),
        device matches Some(flat) ==> n * k <= flat@.len(),
    ensures
        r is Some == (all_seeded(seeds@) && spent < budget),
        r matches Some(out) ==> {
            &&& out@.len() == n * k
            &&& (device matches Some(flat) ==> below(flat@, n as int)) ==> forall|x: int|
                0 <= x < out@.len() ==> (#[trigger] out@[x]) < n
            &&& exists|start: Seq<Vec<i32>>, g: Seq<Vec<i32>>| #[trigger]
                finished(
                    vectors@,
                    n as int,
                    dim as int,
                    k as int,
                    seeds@,
                    *device,
                    passes as int,
                    start,
                    g,
                ) && forall|v: int, j: int|
                    #![trigger knn_refine::flat_entry(g, v, j)]
                    0 <= v < n && 0 <= j < k ==> out@[v * k + j] == knn_refine::flat_entry(g, v, j)
        },
{
    let ghost all = seeds@;
    let first = match start_graph(seeds, n, k) {
        Some(g) => g,
        None => {
            return None;
        },
    };
    if !goes_on(spent, budget) {
        return None;
    }
    let ghost start = first@;
    let g: Vec<Vec<i32>> = match device {
        Some(flat) => {
            let g = keep_device_graph(flat, n, k);
            proof {
                assert forall|v: int, j: int| 0 <= v < n && 0 <= j < g@[v]@.len() implies 0 <= (
                #[trigger] g@[v]@[j]) && (below(flat@, n as int) ==> g@[v]@[j] < n) by {
                    let row = flat_row(flat@, k as int, v);
                    let p = |e: i32| e >= 0;
                    lemma_row_within(n as int, k as int, v);
                    row.lemma_filter_pred(p, j);
                    row.lemma_filter_contains_rev(p, g@[v]@[j]);
                    let x = choose|x: int| 0 <= x < row.len() && row[x] == g@[v]@[j];
                    assert(flat@[v * k + x] == g@[v]@[j]);
                }
            }
            g
        },
        None => {
            let g = nn_descent(vectors, n, dim, k, first, passes);
            proof {
                assert(knn_refine::built(
                    vectors@,
                    n as int,
                    dim as int,
                    k as int,
                    seed_numbers(all, all.len() as int),
                    seed_distances(all, all.len() as int),
                    passes as int,
                    start,
                    g@,
                ));
                knn_refine::lemma_built_are_nodes(
                    vectors@,
                    n as int,
                    dim as int,
                    k as int,
                    seed_numbers(all, all.len() as int),
                    seed_distances(all, all.len() as int),
                    passes as int,
                    start,
                    g@,
                );
            }
            g
        },
    };
    proof {
        assert(finished(
            vectors@,
            n as int,
            dim as int,
            k as int,
            all,
            *device,
            passes as int,
            start,
            g@,
        ));
    }
    let out = flat_graph(&g, k);
    proof {
        assert forall|x: int|
            0 <= x < out@.len() && (device matches Some(flat) ==> below(flat@, n as int)) implies (
        #[trigger] out@[x]) < n by {
            let v = x / k as int;
            let j = x % k as int;
            assert(x == v * k + j && 0 <= j < k && 0 <= v < n) by (nonlinear_arith)
                requires
                    0 <= x < n * k,
                    k > 0,
                    v == x / k as int,
                    j == x % k as int,
            ;
            assert(out@[v * k + j] == knn_refine::flat_entry(g@, v, j));
        }
    }
    Some(out)
}

proof fn lemma_named_row(row: Seq<i32>, m: int)
    requires
        0 <= m <= row.len(),
        forall|j: int| 0 <= j < m ==> (#[trigger] row[j]) >= 0,
        forall|j: int| m <= j < row.len() ==> (#[trigger] row[j]) < 0,
    ensures
        named(row) == row.take(m),
    decreases row.len(),
{
    reveal(Seq::filter);
    if row.len() > 0 {
        let front = row.drop_last();
        if m == row.len() {
            lemma_named_row(front, m - 1);
            assert(row.take(m) =~= front.take(m - 1).push(row.last()));
        } else {
            lemma_named_row(front, m);
            assert(row.take(m) =~= front.take(m));
        }
    } else {
        assert(row.take(m) =~= row);
    }
}

/// A graph that is laid out for the device reads back as it was, list by list.
pub proof fn law_device_graph_round_trip(g: Seq<Vec<i32>>, k: int, flat: Seq<i32>, v: int)
    requires
        0 <= k,
        0 <= v < g.len(),
        flat.len() == g.len() * k,
        forall|u: int, j: int|
            #![trigger device_entry(g, u, j)]
            0 <= u < g.len() && 0 <= j < k ==> flat[u * k + j] == device_entry(g, u, j),
        g[v]@.len() <= k,
        forall|j: int| 0 <= j < g[v]@.len() ==> (#[trigger] g[v]@[j]) >= 0,
    ensures
        named(flat_row(flat, k, v)) == g[v]@,
{
    let list = g[v]@;
    let row = flat_row(flat, k, v);
    assert(0 <= v * k && v * k + k <= g.len() * k) by (nonlinear_arith)
        requires
            0 <= v < g.len(),
            0 <= k,
    ;
    assert forall|j: int| 0 <= j < k implies #[trigger] row[j] == device_entry(g, v, j) by {
        assert(flat[v * k + j] == device_entry(g, v, j));
    }
    lemma_named_row(row, list.len() as int);
    assert(row.take(list.len() as int) =~= list);
}

/// The pivots of a query stand in the whole where its launch comes in the order of the launches,
/// behind those of the launches before it, and with their distances at the same place.
pub proof fn law_launches_keep_their_order(b: Seq<Option<SeedBatch>>, m: int, i: int, q: int)
    requires
        0 <= i < m <= b.len(),
        b[i] is Some,
        0 <= q < b[i]->0.numbers@.len(),
        forall|x: int|
            0 <= x < m ==> ((#[trigger] b[x]) matches Some(y) ==> y.numbers@.len()
                == y.distances@.len()),
    ensures
        ({
            let at = seed_numbers(b, i).len() + q;
            &&& at < seed_numbers(b, m).len() == seed_distances(b, m).len()
            &&& seed_numbers(b, m)[at] == b[i]->0.numbers@[q]
            &&& seed_distances(b, m)[at] == b[i]->0.distances@[q]
        }),
    decreases m,
{
    lemma_same_lengths(b, i);
    lemma_same_lengths(b, m - 1);
    if i < m - 1 {
        law_launches_keep_their_order(b, m - 1, i, q);
    }
}

proof fn lemma_same_lengths(b: Seq<Option<SeedBatch>>, m: int)
    requires
        0 <= m <= b.len(),
        forall|x: int|
            0 <= x < m ==> ((#[trigger] b[x]) matches Some(y) ==> y.numbers@.len()
                == y.distances@.len()),
    ensures
        seed_numbers(b, m).len() == seed_distances(b, m).len(),
    decreases m,
{
    if m > 0 {
        lemma_same_lengths(b, m - 1);
        assert(b[m - 1] is Some || b[m - 1] is None);
    }
}

/// The stage that a refinement of so many passes has come to after `n` calls that all went well.
pub open spec fn refine_reached(passes: usize, n: nat) -> RefineStage
    decreases n,
{
    if n == 0 {
        RefineStage::Restore { passes }
    } else {
        stage_after(refine_reached(passes, (n - 1) as nat), true)
    }
}

proof fn lemma_passes_reached(passes: usize, j: nat)
    requires
        j < passes,
    ensures
        refine_reached(passes, 6 + 2 * j) == (RefineStage::Reverse {
            left: (passes - j) as usize,
            flipped: j % 2 == 1,
        }),
        refine_reached(passes, 7 + 2 * j) == (RefineStage::Descend {
            left: (passes - j) as usize,
            flipped: j % 2 == 1,
        }),
    decreases j,
{
    if j == 0 {
        reveal_with_fuel(refine_reached, 8);
    } else {
        lemma_passes_reached(passes, (j - 1) as nat);
        let m = (6 + 2 * j) as nat;
        assert((m - 1) as nat == 7 + 2 * (j - 1) as nat);
        assert(refine_reached(passes, m) == stage_after(
            refine_reached(passes, (m - 1) as nat),
            true,
        ));
        assert(refine_reached(passes, m + 1) == stage_after(refine_reached(passes, m), true));
    }
}

/// Where every call goes well, a refinement restores, gets its four buffers, uploads, makes each of
/// its passes, waits, reads and is done: after eight calls and two for each pass. An odd number of
/// passes leaves the graph in the second buffer.
pub proof fn law_refinements_come_through(passes: usize)
    ensures
        refine_reached(passes, 5) is Upload,
        refine_reached(passes, (6 + 2 * passes) as nat) == (RefineStage::Wait {
            sound: true,
            flipped: passes % 2 == 1,
        }),
        refine_reached(passes, (7 + 2 * passes) as nat) == (RefineStage::Read {
            flipped: passes % 2 == 1,
        }),
        refine_reached(passes, (8 + 2 * passes) as nat) is Done,
{
    reveal_with_fuel(refine_reached, 7);
    let m = (6 + 2 * passes) as nat;
    if passes > 0 {
        let j = (passes - 1) as nat;
        lemma_passes_reached(passes, j);
        assert((m - 1) as nat == 7 + 2 * j);
        assert(refine_reached(passes, m) == stage_after(
            refine_reached(passes, (m - 1) as nat),
            true,
        ));
    }
    assert(refine_reached(passes, m + 1) == stage_after(refine_reached(passes, m), true));
    assert(refine_reached(passes, m + 2) == stage_after(refine_reached(passes, m + 1), true));
}

/// Of the buffers of a refinement two hold a graph of `k` neighbours a node, one up to 48 nodes that
/// point at each, and one how many do; four bytes each.
pub proof fn law_refinement_buffers_hold_graphs(n: int, k: int)
    ensures
        refine_buffer(n, k, 0) == 4 * (n * k),
        refine_buffer(n, k, 1) == refine_buffer(n, k, 0),
        refine_buffer(n, k, 2) == 48 * refine_buffer(n, k, 3),
        refine_buffer(n, k, 3) == 4 * n,
{
}

} // verus!
