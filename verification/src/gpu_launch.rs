//! Single launches on the device: their sizes, the buffers that a build reuses, and how long
//! a kernel is waited for.
use crate::gpu_plan;
use crate::gpu_plan::{topk_smem, topk_threads};
use crate::gpu_search::blocks_for;
use vstd::prelude::*;

verus! {

/// The sizes of a launch that takes two inputs to one output.
#[derive(Clone, Copy, Debug, PartialEq, Eq)]
pub struct Launch {
    pub first_bytes: usize,
    pub second_bytes: usize,
    pub out_bytes: usize,
    pub grid: (u32, u32),
    pub block: (u32, u32),
}

/// The launch that takes the distances of one query to `n` vectors: a thread a vector.
pub fn gpu_cosine_dist(query_len: usize, vectors_len: usize, n: usize) -> (r: Launch)
    requires
        n * 4 <= usize::MAX,
        n + 256 <= u32::MAX,
    ensures
        r == (Launch {
            first_bytes: query_len,
            second_bytes: vectors_len,
            out_bytes: (n * 4) as usize,
            grid: (((n + 255) / 256) as u32, 1),
            block: (256, 1),
        }),
{
    Launch {
        first_bytes: query_len,
        second_bytes: vectors_len,
        out_bytes: n * 4,
        grid: (blocks_for(n as u32, 256), 1),
        block: (256, 1),
    }
}

/// The launch that takes the distances of `q` queries to `n` vectors: a block a query.
pub fn gpu_batch_cosine_dist(q: usize, n: usize, dim: usize) -> (r: Launch)
    requires
        q * dim <= usize::MAX,
        n * dim <= usize::MAX,
        q * n * 4 <= usize::MAX,
        q <= u32::MAX,
    ensures
        r == (Launch {
            first_bytes: (q * dim) as usize,
            second_bytes: (n * dim) as usize,
            out_bytes: (q * n * 4) as usize,
            grid: (q as u32, 1),
            block: (256, 1),
        }),
{
    proof {
        assert(0 <= q * n <= q * n * 4) by (nonlinear_arith)
            requires
                0 <= q,
                0 <= n,
        ;
    }
    Launch {
        first_bytes: q * dim,
        second_bytes: n * dim,
        out_bytes: q * n * 4,
        grid: (q as u32, 1),
        block: (256, 1),
    }
}

/// The launch that multiplies an `m` by `k` with a `k` by `n` matrix: tiles of sixteen by
/// sixteen threads.
pub fn gpu_matmul(m: usize, k: usize, n: usize) -> (r: Launch)
    requires
        m * k <= usize::MAX,
        k * n <= usize::MAX,
        m * n * 4 <= usize::MAX,
        m + 16 <= u32::MAX,
        n + 16 <= u32::MAX,
    ensures
        r == (Launch {
            first_bytes: (m * k) as usize,
            second_bytes: (k * n) as usize,
            out_bytes: (m * n * 4) as usize,
            grid: (((n + 15) / 16) as u32, ((m + 15) / 16) as u32),
            block: (16, 16),
        }),
{
    proof {
        assert(0 <= m * n <= m * n * 4) by (nonlinear_arith)
            requires
                0 <= m,
                0 <= n,
        ;
    }
    Launch {
        first_bytes: m * k,
        second_bytes: k * n,
        out_bytes: m * n * 4,
        grid: (blocks_for(n as u32, 16), blocks_for(m as u32, 16)),
        block: (16, 16),
    }
}

// ── buffers that a build reuses ───────────────────────────────────────────

/// The device buffers of a build, and the most that they hold.
#[derive(Clone, Copy, Debug, PartialEq, Eq, Structural)]
pub struct GpuBuildBuffers {
    pub d_queries: u64,
    pub d_vectors: u64,
    pub d_out_idx: u64,
    pub d_out_dist: u64,
    pub max_q: usize,
    pub max_n: usize,
    pub dim: usize,
    pub k: usize,
}

/// What a build does next to get its buffers. Where one is refused, the build is off, and
/// those that it holds are freed.
#[derive(Clone, Copy, Debug, PartialEq, Eq, Structural)]
pub enum BuildStep {
    /// The next buffer to ask for, in bytes.
    Ask(usize),
    /// All four are there.
    Ready(GpuBuildBuffers),
}

/// The bytes of the build's `i`-th buffer.
pub open spec fn buffer_bytes(max_q: int, max_n: int, dim: int, k: int, i: int) -> int {
    if i == 0 {
        max_q * dim
    } else if i == 1 {
        max_n * dim
    } else {
        max_q * k * 4
    }
}

/// What a build asks for next, once it holds the buffers `got`.
pub fn build_step(max_q: usize, max_n: usize, dim: usize, k: usize, got: &Vec<u64>) -> (r: BuildStep)
    requires
        max_q * dim <= usize::MAX,
        max_n * dim <= usize::MAX,
        max_q * k * 4 <= usize::MAX,
        got@.len() <= 4,
    ensures
        got@.len() < 4 ==> r == BuildStep::Ask(
            buffer_bytes(
                max_q as int,
                max_n as int,
                dim as int,
                k as int,
                got@.len() as int,
            ) as usize,
        ),
        got@.len() == 4 ==> r == BuildStep::Ready(
            (GpuBuildBuffers {
                d_queries: got@[0],
                d_vectors: got@[1],
                d_out_idx: got@[2],
                d_out_dist: got@[3],
                max_q,
                max_n,
                dim,
                k,
            }),
        ),
{
    let have: usize = got.len();
    if have == 0 {
        BuildStep::Ask(max_q * dim)
    } else if have == 1 {
        BuildStep::Ask(max_n * dim)
    } else if have < 4 {
        proof {
            assert(0 <= max_q * k <= max_q * k * 4) by (nonlinear_arith)
                requires
                    0 <= max_q,
                    0 <= k,
            ;
        }
        BuildStep::Ask(max_q * k * 4)
    } else {
        BuildStep::Ready(
            GpuBuildBuffers {
                d_queries: got[0],
                d_vectors: got[1],
                d_out_idx: got[2],
                d_out_dist: got[3],
                max_q,
                max_n,
                dim,
                k,
            },
        )
    }
}

/// A launch of the build: bytes up and down, blocks, threads and shared memory.
#[derive(Clone, Copy, Debug, PartialEq, Eq, Structural)]
pub struct BuildRun {
    pub query_bytes: usize,
    pub out_bytes: usize,
    pub results: usize,
    pub grid: u32,
    pub threads: u32,
    pub smem: u32,
}

impl GpuBuildBuffers {
    /// Whether the sizes of the buffers are within what the machine can count.
    pub open spec fn wf(&self) -> bool {
        &&& self.max_q * self.dim <= usize::MAX
        &&& self.max_q * self.k * 4 <= usize::MAX
        &&& self.max_q <= u32::MAX
        &&& self.k <= gpu_plan::GPU_TOPK_MAX
    }

    /// The launch for `q` queries among `n` vectors, where the buffers hold that many.
    pub fn run(&self, q: usize, n: usize) -> (r: Option<BuildRun>)
        requires
            self.wf(),
        ensures
            r is Some == (q <= self.max_q && n <= self.max_n),
            r matches Some(x) ==> x == (BuildRun {
                query_bytes: (q * self.dim) as usize,
                out_bytes: (q * self.k * 4) as usize,
                results: (q * self.k) as usize,
                grid: q as u32,
                threads: gpu_plan::threads_for(self.k as int) as u32,
                smem: gpu_plan::topk_smem_of(self.k as int) as u32,
            }),
    {
        if q > self.max_q || n > self.max_n {
            return None;
        }
        proof {
            let a = q as int;
            let b = self.max_q as int;
            let d = self.dim as int;
            let k = self.k as int;
            assert(0 <= a * d <= b * d) by (nonlinear_arith)
                requires
                    0 <= a <= b,
                    d >= 0,
            ;
            assert(0 <= a * k && a * k * 4 <= b * k * 4) by (nonlinear_arith)
                requires
                    0 <= a <= b,
                    k >= 0,
            ;
        }
        Some(
            BuildRun {
                query_bytes: q * self.dim,
                out_bytes: q * self.k * 4,
                results: q * self.k,
                grid: q as u32,
                threads: topk_threads(self.k),
                smem: topk_smem(self.k),
            },
        )
    }

    /// The addresses that are freed when the build is over.
    pub fn free(&self) -> (r: Vec<u64>)
        ensures
            r@ == seq![self.d_queries, self.d_vectors, self.d_out_idx, self.d_out_dist],
    {
        vec![self.d_queries, self.d_vectors, self.d_out_idx, self.d_out_dist]
    }
}

// ── waiting ───────────────────────────────────────────────────────────────

/// How long a kernel may run, in milliseconds.
pub const SYNC_TIMEOUT_MS: u64 = 30_000;

/// What the driver answers while a kernel runs.
pub const NOT_READY: i32 = 600;

/// What to do with a kernel that was launched.
#[derive(Clone, Copy, Debug, PartialEq, Eq, Structural)]
pub enum Watch {
    /// It is done.
    Drained,
    /// It failed.
    Failed,
    /// It is stuck: the device is given up.
    Destroy,
    /// Look again shortly.
    Again,
}

pub open spec fn watched(status: i32, waited_ms: u64) -> Watch {
    if status == 0 {
        Watch::Drained
    } else if status != NOT_READY {
        Watch::Failed
    } else if waited_ms >= SYNC_TIMEOUT_MS {
        Watch::Destroy
    } else {
        Watch::Again
    }
}

/// Decides on a kernel by what the driver answers and how long it has been waited for.
pub fn sync_stream_with_watchdog(status: i32, waited_ms: u64) -> (r: Watch)
    ensures
        r == watched(status, waited_ms),
{
    if status == 0 {
        Watch::Drained
    } else if status != NOT_READY {
        Watch::Failed
    } else if waited_ms >= SYNC_TIMEOUT_MS {
        Watch::Destroy
    } else {
        Watch::Again
    }
}

// ── laws ──────────────────────────────────────────────────────────────────

/// No kernel is waited for beyond the limit, whatever the driver answers.
pub proof fn law_waiting_ends(status: i32, waited_ms: u64)
    requires
        waited_ms >= SYNC_TIMEOUT_MS,
    ensures
        watched(status, waited_ms) != Watch::Again,
{
}

/// A kernel that finishes in time is never given up.
pub proof fn law_timely_kernels_live(status: i32, waited_ms: u64)
    requires
        waited_ms < SYNC_TIMEOUT_MS,
    ensures
        watched(status, waited_ms) != Watch::Destroy,
{
}

/// A matrix product has a thread for each of its entries.
pub proof fn law_tiles_cover(m: int, n: int, i: int, j: int)
    requires
        0 <= i < m,
        0 <= j < n,
    ensures
        i / 16 < (m + 15) / 16,
        j / 16 < (n + 15) / 16,
{
}

/// The driver's answer decides first: a kernel that is done is done however long it took, and one
/// that failed has failed. Only one that still runs is looked at again, or given up in the end.
pub proof fn law_answers_decide(status: i32, waited_ms: u64)
    ensures
        watched(status, waited_ms) == Watch::Drained <==> status == 0,
        watched(status, waited_ms) == Watch::Failed <==> status != 0 && status != 600,
        watched(status, waited_ms) == Watch::Again <==> status == 600 && waited_ms < 30_000,
{
}

/// A build asks for room for its queries, its vectors, and twice for the results of every query,
/// four bytes each.
pub proof fn law_build_buffers_hold_their_rows(max_q: int, max_n: int, dim: int, k: int, q: int)
    requires
        0 <= q <= max_q,
        0 <= dim,
        0 <= k,
    ensures
        q * dim <= buffer_bytes(max_q, max_n, dim, k, 0),
        buffer_bytes(max_q, max_n, dim, k, 1) == max_n * dim,
        4 * (q * k) <= buffer_bytes(max_q, max_n, dim, k, 2),
        buffer_bytes(max_q, max_n, dim, k, 2) == buffer_bytes(max_q, max_n, dim, k, 3),
        buffer_bytes(max_q, max_n, dim, k, 0) == max_q * dim,
        buffer_bytes(max_q, max_n, dim, k, 3) == 4 * (max_q * k),
{
    assert(q * dim <= max_q * dim && q * k <= max_q * k) by (nonlinear_arith)
        requires
            0 <= q <= max_q,
            0 <= dim,
            0 <= k,
    ;
}

} // verus!
