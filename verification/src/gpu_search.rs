//! Searching an index on the accelerator: its buffers, which kernel a search launches and
//! what it falls back to, and the slots that carry concurrent searches.
use crate::gpu_plan;
use crate::gpu_plan::{
    apgc_fit_beam, apgc_search_smem, switched_on, topk_smem, topk_threads, GPU_TOPK_MAX,
};
use vstd::prelude::*;

verus! {

// ── buffers ───────────────────────────────────────────────────────────────

/// Queries that an index takes at a time.
pub const MAX_Q: usize = 16;

/// The sizes of an index's buffers, in bytes.
#[derive(Clone, Copy, Debug, PartialEq, Eq, Structural)]
pub struct IndexPlan {
    pub vector_bytes: usize,
    pub graph_bytes: usize,
    pub delta_bytes: usize,
    pub query_bytes: usize,
    pub result_bytes: usize,
    pub matrix_bytes: usize,
    pub slot_query_bytes: usize,
    pub slot_exact_bytes: usize,
    pub slot_result_bytes: usize,
}

/// Whether all sizes of an index fit.
pub open spec fn index_fits(n: int, dim: int, degree: int, batch: int) -> bool {
    &&& n * dim <= usize::MAX
    &&& n * degree * 4 <= usize::MAX
    &&& n * 64 <= usize::MAX
    &&& dim * 16 <= usize::MAX
    &&& dim * 4 * batch <= usize::MAX
    &&& batch <= 64
}

/// The buffers of an index of `n` vectors: vectors, graph, scores, and those that searches
/// use again and again.
pub fn index_plan(n: usize, dim: usize, degree: usize, batch: usize) -> (r: IndexPlan)
    requires
        index_fits(n as int, dim as int, degree as int, batch as int),
    ensures
        r.vector_bytes == n * dim,
        r.graph_bytes == n * degree * 4,
        r.delta_bytes == n * 4,
        r.query_bytes == MAX_Q * dim,
        r.result_bytes == MAX_Q * GPU_TOPK_MAX * 4,
        r.matrix_bytes == MAX_Q * n * 4,
        r.slot_query_bytes == dim * batch,
        r.slot_exact_bytes == dim * 4 * batch,
        r.slot_result_bytes == GPU_TOPK_MAX * 4 * batch,
{
    proof {
        assert(0 <= n * degree && n * degree <= n * degree * 4) by (nonlinear_arith)
            requires
                0 <= n,
                0 <= degree,
        ;
        assert(0 <= dim * batch && dim * 4 * batch == 4 * (dim * batch)) by (nonlinear_arith)
            requires
                0 <= dim,
                0 <= batch,
        ;
    }
    IndexPlan {
        vector_bytes: n * dim,
        graph_bytes: n * degree * 4,
        delta_bytes: n * 4,
        query_bytes: MAX_Q * dim,
        result_bytes: MAX_Q * GPU_TOPK_MAX * 4,
        matrix_bytes: MAX_Q * n * 4,
        slot_query_bytes: dim * batch,
        slot_exact_bytes: dim * 4 * batch,
        slot_result_bytes: GPU_TOPK_MAX * 4 * batch,
    }
}

/// One slot: its device buffers and its stream, 0 where there is none.
#[derive(Clone, Copy, Debug, PartialEq, Eq, Structural)]
pub struct SearchSlot {
    pub d_q: u64,
    pub d_qf: u64,
    pub d_idx: u64,
    pub d_odist: u64,
    pub stream: usize,
}

/// An index on the device: its buffers, 0 where there is none, and its shape.
#[derive(Debug)]
pub struct GpuIndex {
    pub d_vectors: u64,
    pub d_graph: u64,
    pub d_delta: u64,
    pub n: usize,
    pub dim: usize,
    pub degree: usize,
    pub d_query_buf: u64,
    pub d_idx_buf: u64,
    pub d_dist_buf: u64,
    pub d_odist_buf: u64,
    pub d_vec_f32: u64,
    pub d_qf_buf: u64,
    pub max_q: usize,
    pub max_k: usize,
    pub slots: Vec<SearchSlot>,
    /// Bit `i` is set while slot `i` is busy.
    pub slot_mask: u32,
    /// Whether the vectors belong to the memory tiers.
    pub tiered: bool,
}

/// What is given back to the driver.
#[derive(Clone, Copy, Debug, PartialEq, Eq, Structural)]
pub enum Release {
    Memory(u64),
    Stream(usize),
}

/// The memory at `p`, unless that is 0.
pub open spec fn if_any(p: u64) -> Seq<Release> {
    if p == 0 {
        Seq::empty()
    } else {
        seq![Release::Memory(p)]
    }
}

/// The stream `s`, unless that is 0.
pub open spec fn if_stream(s: usize) -> Seq<Release> {
    if s == 0 {
        Seq::empty()
    } else {
        seq![Release::Stream(s)]
    }
}

/// The buffers and the stream of a slot.
pub open spec fn slot_release(s: SearchSlot) -> Seq<Release> {
    if_any(s.d_q) + if_any(s.d_qf) + if_any(s.d_idx) + if_any(s.d_odist) + if_stream(s.stream)
}

/// The buffers and streams of the first `n` slots.
pub open spec fn slot_buffers(slots: Seq<SearchSlot>, n: int) -> Seq<Release>
    decreases n,
{
    if n <= 0 {
        Seq::empty()
    } else {
        slot_buffers(slots, n - 1) + slot_release(slots[n - 1])
    }
}

/// What an index owns: buffers, and the streams of its slots. Vectors that belong to the tiers
/// are not among them.
pub open spec fn owned(x: GpuIndex) -> Seq<Release> {
    (if x.tiered {
        Seq::empty()
    } else {
        seq![Release::Memory(x.d_vectors)]
    }) + seq![Release::Memory(x.d_graph)] + if_any(x.d_delta) + if_any(x.d_query_buf) + if_any(x.d_idx_buf) + if_any(
        x.d_dist_buf,
    ) + if_any(x.d_odist_buf) + if_any(x.d_vec_f32) + if_any(x.d_qf_buf) + slot_buffers(
        x.slots@,
        x.slots@.len() as int,
    )
}

fn push_any(out: &mut Vec<Release>, p: u64)
    ensures
        final(out)@ == old(out)@ + if_any(p),
{
    if p != 0 {
        out.push(Release::Memory(p));
    }
    proof {
        assert(out@ =~= old(out)@ + if_any(p));
    }
}

proof fn lemma_joined(a: Seq<Release>, b: Seq<Release>, c: Seq<Release>)
    ensures
        (a + b) + c == a + (b + c),
{
    assert((a + b) + c =~= a + (b + c));
}

fn slot_free(s: SearchSlot) -> (r: Vec<Release>)
    ensures
        r@ == slot_release(s),
{
    let mut out: Vec<Release> = Vec::new();
    push_any(&mut out, s.d_q);
    proof {
        assert(out@ =~= if_any(s.d_q));
    }
    push_any(&mut out, s.d_qf);
    push_any(&mut out, s.d_idx);
    push_any(&mut out, s.d_odist);
    let ghost before = out@;
    if s.stream != 0 {
        out.push(Release::Stream(s.stream));
    }
    proof {
        assert(out@ =~= before + if_stream(s.stream));
    }
    out
}

impl GpuIndex {
    /// What to give back when the index goes, in turn.
    pub fn free(&self) -> (r: Vec<Release>)
        ensures
            r@ == owned(*self),
    {
        let mut out: Vec<Release> = Vec::new();
        if !self.tiered {
            out.push(Release::Memory(self.d_vectors));
        }
        out.push(Release::Memory(self.d_graph));
        proof {
            assert(out@ =~= (if self.tiered {
                Seq::empty()
            } else {
                seq![Release::Memory(self.d_vectors)]
            }) + seq![Release::Memory(self.d_graph)]);
        }
        push_any(&mut out, self.d_delta);
        push_any(&mut out, self.d_query_buf);
        push_any(&mut out, self.d_idx_buf);
        push_any(&mut out, self.d_dist_buf);
        push_any(&mut out, self.d_odist_buf);
        push_any(&mut out, self.d_vec_f32);
        push_any(&mut out, self.d_qf_buf);
        let ghost head = out@;
        let mut i: usize = 0;
        proof {
            assert(out@ =~= head + slot_buffers(self.slots@, 0));
        }
        while i < self.slots.len()
            invariant
                i <= self.slots@.len(),
                out@ == head + slot_buffers(self.slots@, i as int),
            decreases self.slots@.len() - i,
        {
            let mut more = slot_free(self.slots[i]);
            proof {
                lemma_joined(
                    head,
                    slot_buffers(self.slots@, i as int),
                    slot_release(self.slots@[i as int]),
                );
            }
            out.append(&mut more);
            i = i + 1;
        }
        out
    }

    /// Whether the exact vectors are on the device, so that searches give exact distances.
    pub fn gpu_rerank_on_device(&self) -> (r: bool)
        ensures
            r == (self.d_vec_f32 != 0),
    {
        self.d_vec_f32 != 0
    }

    /// What to do with exact vectors that are offered: nothing where they are there already
    /// or do not go, else upload them.
    pub fn upload_f32_corpus(&self, offered: usize, switch: Option<&str>, free: usize) -> (r:
        ExactUpload)
        requires
            self.n * self.dim * 4 + HEADROOM <= usize::MAX,
        ensures
            r == exact_upload(*self, offered as int, switch, free as int),
    {
        if self.d_vec_f32 != 0 {
            return ExactUpload::Live;
        }
        if !switched_on(switch) {
            return ExactUpload::Off;
        }
        proof {
            assert(0 <= self.n * self.dim) by (nonlinear_arith)
                requires
                    0 <= self.n,
                    0 <= self.dim,
            ;
        }
        let need: usize = self.n * self.dim;
        if offered < need {
            return ExactUpload::Off;
        }
        let bytes: usize = need * 4;
        if bytes + HEADROOM > free {
            return ExactUpload::Off;
        }
        ExactUpload::Upload(bytes)
    }
}

/// Device memory that stays free beside the exact vectors.
pub const HEADROOM: usize = 805306368;

/// What happens to exact vectors that are offered.
#[derive(Clone, Copy, Debug, PartialEq, Eq, Structural)]
pub enum ExactUpload {
    /// They are on the device already.
    Live,
    /// They stay on the host.
    Off,
    /// They go to the device, in so many bytes.
    Upload(usize),
}

pub open spec fn exact_upload(
    x: GpuIndex,
    offered: int,
    switch: Option<&str>,
    free: int,
) -> ExactUpload {
    let need = x.n * x.dim;
    if x.d_vec_f32 != 0 {
        ExactUpload::Live
    } else if (switch matches Some(s) && s@ == "0"@) || offered < need || need * 4 + HEADROOM
        > free {
        ExactUpload::Off
    } else {
        ExactUpload::Upload((need * 4) as usize)
    }
}

// ── which kernel ──────────────────────────────────────────────────────────

/// The kernels that are loaded.
#[derive(Clone, Copy, Debug, PartialEq, Eq, Structural)]
pub struct Kernels {
    pub apgc_search: bool,
    pub fused_cosine_topk: bool,
    pub batch_cosine_dist: bool,
    pub topk_select: bool,
}

/// What a search launches.
#[derive(Clone, Copy, Debug, PartialEq, Eq, Structural)]
pub enum SearchPath {
    /// A walk over the graph.
    Graph,
    /// A scan that keeps the best as it goes.
    Fused,
    /// A scan of all distances, then a selection.
    TwoKernel,
}

/// Whether the shape of a search allows a walk over the graph.
pub open spec fn walks(x: GpuIndex, k: int, itopk: int, iters: int) -> bool {
    itopk > 0 && iters > 0 && k <= itopk && x.d_graph != 0 && x.d_delta != 0 && x.degree > 0
}

/// Results that the scanning kernels give at most.
pub const SCAN_MAX_K: usize = 64;

/// The path of a search, before any launch.
pub open spec fn first_path_of(
    x: GpuIndex,
    has: Kernels,
    k: int,
    itopk: int,
    iters: int,
) -> Option<SearchPath> {
    if walks(x, k, itopk, iters) && has.apgc_search {
        Some(SearchPath::Graph)
    } else {
        scan_path_of(has, k)
    }
}

/// The scan of a search.
pub open spec fn scan_path_of(has: Kernels, k: int) -> Option<SearchPath> {
    if k <= SCAN_MAX_K && has.fused_cosine_topk {
        Some(SearchPath::Fused)
    } else {
        two_path_of(has, k)
    }
}

pub open spec fn two_path_of(has: Kernels, k: int) -> Option<SearchPath> {
    if k <= SCAN_MAX_K && has.batch_cosine_dist && has.topk_select {
        Some(SearchPath::TwoKernel)
    } else {
        None
    }
}

/// What a search launches next where the launch of `failed` was refused.
pub open spec fn next_path_of(failed: SearchPath, has: Kernels, k: int) -> Option<SearchPath> {
    match failed {
        SearchPath::Graph => scan_path_of(has, k),
        SearchPath::Fused => two_path_of(has, k),
        SearchPath::TwoKernel => None,
    }
}

fn walk_fits(x: &GpuIndex, k: usize, itopk: usize, iters: usize) -> (r: bool)
    ensures
        r == walks(*x, k as int, itopk as int, iters as int),
{
    itopk > 0 && iters > 0 && k <= itopk && x.d_graph != 0 && x.d_delta != 0 && x.degree > 0
}

fn two_path(has: Kernels, k: usize) -> (r: Option<SearchPath>)
    ensures
        r == two_path_of(has, k as int),
{
    if k <= SCAN_MAX_K && has.batch_cosine_dist && has.topk_select {
        Some(SearchPath::TwoKernel)
    } else {
        None
    }
}

fn scan_path(has: Kernels, k: usize) -> (r: Option<SearchPath>)
    ensures
        r == scan_path_of(has, k as int),
{
    if k <= SCAN_MAX_K && has.fused_cosine_topk {
        Some(SearchPath::Fused)
    } else {
        two_path(has, k)
    }
}

/// What a batched search launches first, if anything.
pub fn first_path(x: &GpuIndex, has: Kernels, k: usize, itopk: usize, iters: usize) -> (r: Option<
    SearchPath,
>)
    ensures
        r == first_path_of(*x, has, k as int, itopk as int, iters as int),
{
    if walk_fits(x, k, itopk, iters) && has.apgc_search {
        Some(SearchPath::Graph)
    } else {
        scan_path(has, k)
    }
}

/// What a batched search launches after a refused launch, if anything.
pub fn next_path(failed: SearchPath, has: Kernels, k: usize) -> (r: Option<SearchPath>)
    ensures
        r == next_path_of(failed, has, k as int),
{
    match failed {
        SearchPath::Graph => scan_path(has, k),
        SearchPath::Fused => two_path(has, k),
        SearchPath::TwoKernel => None,
    }
}

/// How a search is carried out.
#[derive(Clone, Copy, Debug, PartialEq, Eq, Structural)]
pub enum SearchRoute {
    /// It does not fit the index's buffers.
    Refuse,
    /// Together with others that are in flight.
    Coalesced,
    /// On a slot of its own.
    Slot,
    /// In a launch of its own.
    Batched,
}

pub open spec fn route_of(
    x: GpuIndex,
    num: int,
    k: int,
    itopk: int,
    iters: int,
    coalesce: bool,
) -> SearchRoute {
    if num == 0 || num > x.max_q || k == 0 || k > x.max_k {
        SearchRoute::Refuse
    } else if num == 1 && walks(x, k, itopk, iters) && coalesce {
        SearchRoute::Coalesced
    } else if num == 1 && walks(x, k, itopk, iters) && x.slots@.len() > 0 {
        SearchRoute::Slot
    } else {
        SearchRoute::Batched
    }
}

/// Chooses how a search is carried out. Where a coalesced or slot search gives nothing, the
/// batched one follows.
pub fn gpu_search(
    x: &GpuIndex,
    num_queries: usize,
    k: usize,
    itopk: usize,
    max_iters: usize,
    coalesce: bool,
) -> (r: SearchRoute)
    ensures
        r == route_of(
            *x,
            num_queries as int,
            k as int,
            itopk as int,
            max_iters as int,
            coalesce,
        ),
{
    if num_queries == 0 || num_queries > x.max_q || k == 0 || k > x.max_k {
        return SearchRoute::Refuse;
    }
    if num_queries == 1 && walk_fits(x, k, itopk, max_iters) {
        if coalesce {
            return SearchRoute::Coalesced;
        }
        if x.slots.len() > 0 {
            return SearchRoute::Slot;
        }
    }
    SearchRoute::Batched
}

/// Whether a slot carries a batch.
pub fn slot_takes(x: &GpuIndex, nq: usize, slot_batch: usize, k: usize) -> (r: bool)
    ensures
        r == !(nq == 0 || nq > slot_batch || k > x.max_k),
{
    !(nq == 0 || nq > slot_batch || k > x.max_k)
}

/// The parameters of a walk over the graph.
#[derive(Clone, Copy, Debug, PartialEq, Eq, Structural)]
pub struct WalkLaunch {
    pub grid: usize,
    pub beam: i32,
    pub smem: u32,
    pub rerank: bool,
    pub entry: usize,
}

/// Whether a walk scores exactly: the exact vectors are on the device, there is room for the
/// exact queries, and all of them were given.
pub open spec fn reranks(x: GpuIndex, own_buffer: bool, exact: int, num: int) -> bool {
    x.d_vec_f32 != 0 && (own_buffer || x.d_qf_buf != 0) && exact >= num * x.dim
}

/// Plans a walk over the graph. `own_buffer` says that the exact queries have a buffer of
/// their own, as they do on a slot.
pub fn walk_launch(
    x: &GpuIndex,
    num: usize,
    exact: usize,
    own_buffer: bool,
    itopk: usize,
    entry: usize,
    beam: i32,
) -> (r: WalkLaunch)
    requires
        x.n > 0,
        num * x.dim <= usize::MAX,
        gpu_plan::search_smem(
            itopk as int,
            x.degree as int,
            x.dim as int,
            true,
            gpu_plan::clamped(beam as int, 1, 64),
        ) <= u32::MAX,
    ensures
        r.grid == num,
        r.rerank == reranks(*x, own_buffer, exact as int, num as int),
        r.beam == gpu_plan::beam_from(
            itopk as int,
            x.degree as int,
            x.dim as int,
            r.rerank,
            gpu_plan::clamped(beam as int, 1, 64),
        ),
        r.smem == gpu_plan::search_smem(
            itopk as int,
            x.degree as int,
            x.dim as int,
            r.rerank,
            r.beam as int,
        ),
        r.entry == (if entry < x.n - 1 {
            entry as int
        } else {
            x.n - 1
        }),
{
    let rerank: bool = x.d_vec_f32 != 0 && (own_buffer || x.d_qf_buf != 0) && exact >= num * x.dim;
    let fitted: i32 = apgc_fit_beam(itopk, x.degree, x.dim, rerank, beam);
    proof {
        gpu_plan::law_beam_fits(
            itopk as int,
            x.degree as int,
            x.dim as int,
            rerank,
            gpu_plan::clamped(beam as int, 1, 64),
        );
        gpu_plan::lemma_smem_rises(
            itopk as int,
            x.degree as int,
            x.dim as int,
            rerank,
            fitted as int,
            gpu_plan::clamped(beam as int, 1, 64),
        );
    }
    let smem: u32 = apgc_search_smem(itopk, x.degree, x.dim, rerank, fitted as usize);
    WalkLaunch {
        grid: num,
        beam: fitted,
        smem,
        rerank,
        entry: if entry < x.n - 1 {
            entry
        } else {
            x.n - 1
        },
    }
}

/// The number of entries that found a node.
pub open spec fn hits_of(s: Seq<i32>, n: int) -> nat
    decreases n,
{
    if n <= 0 {
        0
    } else {
        hits_of(s, n - 1) + (if s[n - 1] >= 0 {
            1nat
        } else {
            0
        })
    }
}

/// Counts the entries of a search result that found a node.
pub fn valid_hits(indices: &Vec<i32>) -> (r: usize)
    ensures
        r == hits_of(indices@, indices@.len() as int),
{
    let mut n: usize = 0;
    let mut i: usize = 0;
    while i < indices.len()
        invariant
            i <= indices@.len(),
            n <= i,
            n == hits_of(indices@, i as int),
        decreases indices@.len() - i,
    {
        if indices[i] >= 0 {
            n = n + 1;
        }
        i = i + 1;
    }
    n
}

// ── one-off distance work ─────────────────────────────────────────────────

/// A one-off search over uploaded vectors.
#[derive(Clone, Copy, Debug, PartialEq, Eq, Structural)]
pub struct TopkPlan {
    pub path: SearchPath,
    pub query_bytes: usize,
    pub vector_bytes: usize,
    pub result_bytes: usize,
    /// The distances of every query to every vector; the fused scan keeps none.
    pub matrix_bytes: usize,
    pub threads: u32,
    pub smem: u32,
}

/// The path of a one-off search for `k` results.
pub open spec fn topk_path(has: Kernels, k: int) -> Option<SearchPath> {
    if k > GPU_TOPK_MAX {
        None
    } else if k <= SCAN_MAX_K && has.fused_cosine_topk {
        Some(SearchPath::Fused)
    } else if has.batch_cosine_dist && has.topk_select {
        Some(SearchPath::TwoKernel)
    } else {
        None
    }
}

/// Plans a one-off search of `q` queries among `n` vectors of `dim` bytes; `vectors_len` bytes
/// are given.
pub fn gpu_batch_cosine_dist_topk(
    vectors_len: usize,
    q: usize,
    n: usize,
    dim: usize,
    k: usize,
    has: Kernels,
) -> (r: Option<TopkPlan>)
    requires
        q * dim <= usize::MAX,
        q * n * 4 <= usize::MAX,
        q * GPU_TOPK_MAX * 4 <= usize::MAX,
    ensures
        r is Some == topk_path(has, k as int) is Some,
        r matches Some(p) ==> {
            &&& Some(p.path) == topk_path(has, k as int)
            &&& p.query_bytes == q * dim
            &&& p.vector_bytes == vectors_len
            &&& p.result_bytes == q * k * 4
            &&& p.matrix_bytes == (if p.path == SearchPath::Fused {
                0
            } else {
                q * n * 4
            })
            &&& p.threads == gpu_plan::threads_for(k as int)
            &&& p.smem == gpu_plan::topk_smem_of(k as int)
        },
{
    if k > GPU_TOPK_MAX {
        return None;
    }
    let path: SearchPath = if k <= SCAN_MAX_K && has.fused_cosine_topk {
        SearchPath::Fused
    } else if has.batch_cosine_dist && has.topk_select {
        SearchPath::TwoKernel
    } else {
        return None;
    };
    proof {
        assert(0 <= q * k && q * k * 4 <= q * GPU_TOPK_MAX * 4 && 0 <= q * n && q * n <= q * n * 4)
            by (nonlinear_arith)
            requires
                0 <= q,
                0 <= n,
                0 <= k <= GPU_TOPK_MAX,
        ;
    }
    let matrix: usize = if path == SearchPath::Fused { 0 } else { q * n * 4 };
    Some(
        TopkPlan {
            path,
            query_bytes: q * dim,
            vector_bytes: vectors_len,
            result_bytes: q * k * 4,
            matrix_bytes: matrix,
            threads: topk_threads(k),
            smem: topk_smem(k),
        },
    )
}

/// A one-off search on the device: the next call.
#[derive(Clone, Copy, Debug, PartialEq, Eq, Structural)]
pub enum TopkStage {
    /// Allocate a buffer; so many are there.
    Alloc(usize),
    /// Copy the queries and the vectors; what becomes of that shows in the results.
    Copy,
    /// Launch the scan, or the distances of the two-kernel path.
    Launch,
    /// Launch the selection; what becomes of that shows in the wait.
    Select,
    Wait,
    /// Copy the results back.
    Read,
    /// Free all buffers: there are results.
    Done,
    /// Free so many buffers, the oldest first: there are none.
    Failed(usize),
}

impl TopkPlan {
    /// The buffers of the search: queries, vectors, the distances where they are kept, and the
    /// two of the results.
    pub open spec fn count(self) -> int {
        if self.path == SearchPath::Fused {
            4
        } else {
            5
        }
    }

    /// The bytes of the `i`-th of them.
    pub open spec fn size_of(self, i: int) -> usize {
        if i == 0 {
            self.query_bytes
        } else if i == 1 {
            self.vector_bytes
        } else if i == 2 && self.path != SearchPath::Fused {
            self.matrix_bytes
        } else {
            self.result_bytes
        }
    }

    /// The bytes of the `i`-th buffer.
    pub fn buffer(&self, i: usize) -> (r: usize)
        ensures
            r == self.size_of(i as int),
    {
        if i == 0 {
            self.query_bytes
        } else if i == 1 {
            self.vector_bytes
        } else if i == 2 && self.path != SearchPath::Fused {
            self.matrix_bytes
        } else {
            self.result_bytes
        }
    }

    /// The stage after a call.
    pub open spec fn stage_after(self, s: TopkStage, ok: bool) -> TopkStage {
        match s {
            TopkStage::Alloc(made) => if !ok {
                TopkStage::Failed(made)
            } else if made == 1 {
                TopkStage::Copy
            } else if made + 1 < self.count() {
                TopkStage::Alloc((made + 1) as usize)
            } else {
                TopkStage::Launch
            },
            TopkStage::Copy => TopkStage::Alloc(2),
            TopkStage::Launch => if !ok {
                TopkStage::Failed(self.count() as usize)
            } else if self.path == SearchPath::Fused {
                TopkStage::Wait
            } else {
                TopkStage::Select
            },
            TopkStage::Select => TopkStage::Wait,
            TopkStage::Wait => if ok {
                TopkStage::Read
            } else {
                TopkStage::Failed(self.count() as usize)
            },
            TopkStage::Read => TopkStage::Done,
            TopkStage::Done => TopkStage::Done,
            TopkStage::Failed(made) => TopkStage::Failed(made),
        }
    }

    /// The call after one that succeeded or failed. The first one is `Alloc(0)`.
    pub fn next(&self, s: TopkStage, ok: bool) -> (r: TopkStage)
        ensures
            r == self.stage_after(s, ok),
    {
        let all: usize = if self.path == SearchPath::Fused { 4 } else { 5 };
        match s {
            TopkStage::Alloc(made) => if !ok {
                TopkStage::Failed(made)
            } else if made == 1 {
                TopkStage::Copy
            } else if made < all - 1 {
                TopkStage::Alloc(made + 1)
            } else {
                TopkStage::Launch
            },
            TopkStage::Copy => TopkStage::Alloc(2),
            TopkStage::Launch => if !ok {
                TopkStage::Failed(all)
            } else if self.path == SearchPath::Fused {
                TopkStage::Wait
            } else {
                TopkStage::Select
            },
            TopkStage::Select => TopkStage::Wait,
            TopkStage::Wait => if ok {
                TopkStage::Read
            } else {
                TopkStage::Failed(all)
            },
            TopkStage::Read => TopkStage::Done,
            TopkStage::Done => TopkStage::Done,
            TopkStage::Failed(made) => TopkStage::Failed(made),
        }
    }

    /// The buffers that are there at a stage.
    pub open spec fn held(self, s: TopkStage) -> int {
        match s {
            TopkStage::Alloc(made) => made as int,
            TopkStage::Copy => 2,
            TopkStage::Failed(made) => made as int,
            _ => self.count(),
        }
    }
}

/// A one-off search frees, on every way out, exactly the buffers that it holds: a call adds a
/// buffer only where it asked for one and got it.
pub proof fn law_topk_holds_what_it_frees(p: TopkPlan, s: TopkStage, ok: bool)
    requires
        s matches TopkStage::Alloc(made) ==> made < p.count(),
    ensures
        p.held(p.stage_after(s, ok)) == p.held(s) + (if s is Alloc && ok {
            1int
        } else {
            0
        }),
        p.stage_after(s, ok) matches TopkStage::Alloc(made) ==> made < p.count(),
        p.stage_after(s, ok) is Read ==> s is Wait && ok,
        p.stage_after(s, ok) is Done ==> s is Read || s is Done,
{
}

/// Blocks of `size` threads for `n` items.
pub fn blocks_for(n: u32, size: u32) -> (r: u32)
    requires
        size > 0,
        n + size <= u32::MAX,
    ensures
        r == (n + size - 1) / size as int,
{
    (n + size - 1) / size
}

/// Enough blocks for every item, and none too many.
pub proof fn law_blocks_cover(n: int, size: int)
    requires
        size > 0,
        n >= 0,
    ensures
        ((n + size - 1) / size) * size >= n,
        ((n + size - 1) / size) * size < n + size,
{
    let b = (n + size - 1) / size;
    assert(b * size <= n + size - 1 && n + size - 1 < b * size + size) by (nonlinear_arith)
        requires
            size > 0,
            b == (n + size - 1) / size,
    ;
}

// ── slots ─────────────────────────────────────────────────────────────────

/// Whether slot `i` is busy.
pub open spec fn busy(mask: u32, i: u32) -> bool {
    (mask >> i) & 1 == 1
}

/// Claims the first free of `count` slots.
pub fn claim_slot(mask: &mut u32, count: usize) -> (r: Option<usize>)
    requires
        count <= 32,
    ensures
        match r {
            Some(s) => {
                &&& s < count
                &&& !busy(*old(mask), s as u32)
                &&& forall|i: u32| i < s ==> #[trigger] busy(*old(mask), i)
                &&& forall|i: u32|
                    i < 32 ==> #[trigger] busy(*final(mask), i) == (busy(*old(mask), i) || i == s)
            },
            None => {
                &&& *final(mask) == *old(mask)
                &&& forall|i: u32| i < count ==> #[trigger] busy(*old(mask), i)
            },
        },
{
    let start: u32 = *mask;
    let mut i: u32 = 0;
    while (i as usize) < count
        invariant
            i <= count <= 32,
            *mask == start,
            start == *old(mask),
            forall|j: u32| j < i ==> #[trigger] busy(start, j),
        decreases count - i,
    {
        if (start >> i) & 1 == 0 {
            let bit: u32 = 1u32 << i;
            *mask = start | bit;
            proof {
                let m: u32 = *mask;
                assert forall|j: u32| j < 32 implies #[trigger] busy(m, j) == (busy(start, j) || j
                    == i) by {
                    lemma_set_bit(start, i, j);
                }
            }
            return Some(i as usize);
        }
        proof {
            lemma_one_bit(start, i);
        }
        i = i + 1;
    }
    None
}

proof fn lemma_set_bit(m: u32, i: u32, j: u32)
    by (bit_vector)
    requires
        i < 32,
        j < 32,
    ensures
        (((m | (1u32 << i)) >> j) & 1 == 1) == ((m >> j) & 1 == 1 || j == i),
{
}

proof fn lemma_one_bit(m: u32, i: u32)
    by (bit_vector)
    requires
        i < 32,
    ensures
        (m >> i) & 1 == 0 || (m >> i) & 1 == 1,
{
}

proof fn lemma_clear_bit(m: u32, i: u32, j: u32)
    by (bit_vector)
    requires
        i < 32,
        j < 32,
    ensures
        (((m & !(1u32 << i)) >> j) & 1 == 1) == ((m >> j) & 1 == 1 && j != i),
{
}

proof fn lemma_set_then_clear(m: u32, i: u32)
    by (bit_vector)
    requires
        i < 32,
        (m >> i) & 1 == 0,
    ensures
        (m | (1u32 << i)) & !(1u32 << i) == m,
{
}

/// Gives a slot back.
pub fn release_slot(mask: &mut u32, slot: usize)
    requires
        slot < 32,
    ensures
        *final(mask) == *old(mask) & !(1u32 << (slot as u32)),
        forall|i: u32|
            i < 32 ==> #[trigger] busy(*final(mask), i) == (busy(*old(mask), i) && i != slot),
{
    let i: u32 = slot as u32;
    let start: u32 = *mask;
    *mask = start & !(1u32 << i);
    proof {
        let m: u32 = *mask;
        assert forall|j: u32| j < 32 implies #[trigger] busy(m, j) == (busy(start, j) && j != i) by {
            lemma_clear_bit(start, i, j);
        }
    }
}

/// Giving back the slot that was just claimed leaves the mask as it was.
pub proof fn law_release_undoes_claim(mask: u32, slot: u32)
    requires
        slot < 32,
        !busy(mask, slot),
    ensures
        (mask | (1u32 << slot)) & !(1u32 << slot) == mask,
{
    lemma_one_bit(mask, slot);
    lemma_set_then_clear(mask, slot);
}

/// A search never falls back to a kernel it has tried: after at most three launches it ends.
pub proof fn law_fallback_ends(has: Kernels, k: int)
    ensures
        next_path_of(SearchPath::Graph, has, k) != Some(SearchPath::Graph),
        next_path_of(SearchPath::Fused, has, k) is None || next_path_of(SearchPath::Fused, has, k)
            == Some(SearchPath::TwoKernel),
        next_path_of(SearchPath::TwoKernel, has, k) is None,
{
}

/// A scan is never launched for more results than its kernels give.
pub proof fn law_scans_stay_small(x: GpuIndex, has: Kernels, k: int, itopk: int, iters: int)
    requires
        k > SCAN_MAX_K,
    ensures
        first_path_of(x, has, k, itopk, iters) is None || first_path_of(x, has, k, itopk, iters)
            == Some(SearchPath::Graph),
        next_path_of(SearchPath::Graph, has, k) is None,
{
}

/// Exact vectors go to the device exactly where they are not there yet, are not switched off, are
/// all offered, and leave 768 mebibytes free.
pub proof fn law_exact_vectors_go_where_they_fit(
    x: GpuIndex,
    offered: int,
    switch: Option<&str>,
    free: int,
)
    requires
        x.n * x.dim * 4 <= usize::MAX,
    ensures
        exact_upload(x, offered, switch, free) is Live <==> x.d_vec_f32 != 0,
        exact_upload(x, offered, switch, free) matches ExactUpload::Upload(b) ==> b == 4 * (x.n
            * x.dim) && b + 768 * 1024 * 1024 <= free && x.n * x.dim <= offered && !(
        switch matches Some(s) && s@ == "0"@),
        x.d_vec_f32 == 0 && switch is None && x.n * x.dim <= offered && 4 * (x.n * x.dim) + 768
            * 1024 * 1024 <= free ==> exact_upload(x, offered, switch, free) is Upload,
{
}

/// The graph is walked where there is one with scores, the list and the iterations are not empty,
/// and the list holds as many results as are asked for.
pub proof fn law_walks_need_a_graph_and_a_list(x: GpuIndex, k: int, itopk: int, iters: int)
    ensures
        x.d_graph == 0 || x.d_delta == 0 || x.degree == 0 ==> !walks(x, k, itopk, iters),
        itopk <= 0 || iters <= 0 || k > itopk ==> !walks(x, k, itopk, iters),
        x.d_graph != 0 && x.d_delta != 0 && x.degree > 0 && itopk > 0 && iters > 0 ==> walks(
            x,
            itopk,
            itopk,
            iters,
        ),
        walks(x, k, itopk, iters) ==> walks(x, k - 1, itopk, iters) && walks(
            x,
            k,
            itopk + 1,
            iters + 1,
        ),
{
}

/// The kernels are tried in one order: a walk, a scan that keeps the best, a scan and a selection;
/// each only where it is loaded and its limit allows.
pub proof fn law_kernels_are_tried_in_order(
    x: GpuIndex,
    ker: Kernels,
    k: int,
    itopk: int,
    iters: int,
)
    ensures
        first_path_of(x, ker, k, itopk, iters) == Some(SearchPath::Graph) <==> walks(
            x,
            k,
            itopk,
            iters,
        ) && ker.apgc_search,
        k <= 64 && ker.fused_cosine_topk ==> next_path_of(SearchPath::Graph, ker, k) == Some(
            SearchPath::Fused,
        ),
        k <= 64 && !ker.fused_cosine_topk && ker.batch_cosine_dist && ker.topk_select
            ==> next_path_of(SearchPath::Graph, ker, k) == Some(SearchPath::TwoKernel),
        k <= 64 && ker.batch_cosine_dist && ker.topk_select ==> next_path_of(
            SearchPath::Fused,
            ker,
            k,
        ) == Some(SearchPath::TwoKernel),
        !ker.batch_cosine_dist || !ker.topk_select ==> next_path_of(SearchPath::Fused, ker, k)
            is None,
        !ker.fused_cosine_topk ==> next_path_of(SearchPath::Graph, ker, k) != Some(
            SearchPath::Fused,
        ),
        !(walks(x, k, itopk, iters) && ker.apgc_search) ==> first_path_of(
            x,
            ker,
            k,
            itopk,
            iters,
        ) == next_path_of(SearchPath::Graph, ker, k),
{
}

/// A one-off search scans and keeps the best where that kernel is loaded and gives enough, else
/// takes two kernels, and beyond what those give there is none.
pub proof fn law_one_off_searches_pick_a_scan(ker: Kernels, k: int)
    ensures
        topk_path(ker, k) == Some(SearchPath::Fused) <==> k <= 64 && ker.fused_cosine_topk,
        topk_path(ker, k) == Some(SearchPath::TwoKernel) <==> k <= 512 && ker.batch_cosine_dist
            && ker.topk_select && !(k <= 64 && ker.fused_cosine_topk),
        topk_path(ker, k) != Some(SearchPath::Graph),
{
}

/// A search is refused exactly where it does not fit the index; a lone walk goes with others or on
/// a slot, and everything else in a launch of its own.
pub proof fn law_searches_are_routed(
    x: GpuIndex,
    num: int,
    k: int,
    itopk: int,
    iters: int,
    coalesce: bool,
)
    requires
        num >= 0,
        k >= 0,
    ensures
        route_of(x, num, k, itopk, iters, coalesce) is Refuse <==> !(1 <= num <= x.max_q && 1 <= k
            <= x.max_k),
        route_of(x, num, k, itopk, iters, coalesce) is Coalesced ==> num == 1 && coalesce,
        route_of(x, num, k, itopk, iters, coalesce) is Slot ==> num == 1 && !coalesce && x.slots@.len()
            > 0,
        1 <= x.max_q && 1 <= k <= x.max_k && walks(x, k, itopk, iters) ==> route_of(
            x,
            1,
            k,
            itopk,
            iters,
            true,
        ) is Coalesced,
        1 <= x.max_q && 1 <= k <= x.max_k && walks(x, k, itopk, iters) && x.slots@.len() > 0
            ==> route_of(x, 1, k, itopk, iters, false) is Slot,
        2 <= num <= x.max_q && 1 <= k <= x.max_k ==> route_of(x, num, k, itopk, iters, coalesce)
            is Batched,
        !walks(x, k, itopk, iters) && 1 <= num <= x.max_q && 1 <= k <= x.max_k ==> route_of(
            x,
            num,
            k,
            itopk,
            iters,
            coalesce,
        ) is Batched,
{
}

/// A walk scores exactly only with exact vectors on the device, a buffer, and all exact queries.
pub proof fn law_exact_scores_need_exact_queries(x: GpuIndex, exact: int, num: int)
    ensures
        x.d_vec_f32 == 0 ==> !reranks(x, true, exact, num) && !reranks(x, false, exact, num),
        exact < num * x.dim ==> !reranks(x, true, exact, num) && !reranks(x, false, exact, num),
        x.d_vec_f32 != 0 ==> reranks(x, true, num * x.dim, num),
        x.d_vec_f32 != 0 ==> reranks(x, false, num * x.dim, num) == (x.d_qf_buf != 0),
{
}

/// The entries that found a node are those that are not below zero.
pub proof fn law_hits_are_nodes(s: Seq<i32>, n: int)
    requires
        0 <= n <= s.len(),
    ensures
        hits_of(s, n) == s.take(n).filter(|x: i32| x >= 0).len(),
    decreases n,
{
    reveal(Seq::filter);
    let f = |x: i32| x >= 0;
    if n > 0 {
        law_hits_are_nodes(s, n - 1);
        assert(s.take(n).drop_last() =~= s.take(n - 1));
        assert(s.take(n).last() == s[n - 1]);
    } else {
        assert(s.take(0) =~= Seq::<i32>::empty());
    }
}

/// The stage that a one-off search ker come to after `n` calls that all went well.
pub open spec fn stage_reached(p: TopkPlan, n: nat) -> TopkStage
    decreases n,
{
    if n == 0 {
        TopkStage::Alloc(0)
    } else {
        p.stage_after(stage_reached(p, (n - 1) as nat), true)
    }
}

/// Where every call goes well, a one-off search that keeps the best as it goes is done after eight
/// of them, and one of two kernels after ten; it copies once its two inputs have room, launches
/// once all its buffers are there, and reads once it ker waited.
pub proof fn law_one_off_searches_come_through(p: TopkPlan)
    ensures
        stage_reached(p, 2) is Copy,
        p.path == SearchPath::Fused ==> stage_reached(p, 5) is Launch && stage_reached(p, 6) is Wait
            && stage_reached(p, 7) is Read && stage_reached(p, 8) is Done,
        p.path != SearchPath::Fused ==> stage_reached(p, 6) is Launch && stage_reached(p, 7)
            is Select && stage_reached(p, 8) is Wait && stage_reached(p, 9) is Read
            && stage_reached(p, 10) is Done,
        p.path == SearchPath::Fused ==> p.size_of(2) == p.result_bytes && p.size_of(3)
            == p.result_bytes,
        p.path != SearchPath::Fused ==> p.size_of(2) == p.matrix_bytes && p.size_of(3)
            == p.result_bytes && p.size_of(4) == p.result_bytes,
        p.size_of(0) == p.query_bytes && p.size_of(1) == p.vector_bytes,
{
    reveal_with_fuel(stage_reached, 11);
}

/// What an index gives back of its slots are the buffers and streams of each, none that is not
/// there, slot by slot.
pub proof fn law_slots_give_back_their_own(slots: Seq<SearchSlot>, s: SearchSlot)
    requires
        s.d_q != 0,
        s.d_qf != 0,
        s.d_idx != 0,
        s.d_odist != 0,
        s.stream != 0,
    ensures
        slot_buffers(slots.push(s), slots.len() as int + 1) == slot_buffers(
            slots,
            slots.len() as int,
        ) + seq![
            Release::Memory(s.d_q),
            Release::Memory(s.d_qf),
            Release::Memory(s.d_idx),
            Release::Memory(s.d_odist),
            Release::Stream(s.stream),
        ],
        slot_buffers(Seq::empty(), 0) == Seq::<Release>::empty(),
        slot_release(SearchSlot { d_q: 0, d_qf: 0, d_idx: 0, d_odist: 0, stream: 0 }) == Seq::<
            Release,
        >::empty(),
{
    lemma_slots_front(slots, slots.push(s), slots.len() as int);
    let none = SearchSlot { d_q: 0, d_qf: 0, d_idx: 0, d_odist: 0, stream: 0 };
    assert(slot_release(none) =~= Seq::<Release>::empty());
    assert(slot_release(s) =~= seq![
        Release::Memory(s.d_q),
        Release::Memory(s.d_qf),
        Release::Memory(s.d_idx),
        Release::Memory(s.d_odist),
        Release::Stream(s.stream),
    ]);
}

proof fn lemma_slots_front(a: Seq<SearchSlot>, b: Seq<SearchSlot>, n: int)
    requires
        n <= a.len() <= b.len(),
        forall|i: int| 0 <= i < a.len() ==> a[i] == #[trigger] b[i],
    ensures
        slot_buffers(a, n) == slot_buffers(b, n),
    decreases n,
{
    if n > 0 {
        lemma_slots_front(a, b, n - 1);
    }
}

/// Of a single slot that is busy, no other is.
pub proof fn law_slots_have_a_bit_each(i: u32, j: u32)
    requires
        i < 32,
        j < 32,
    ensures
        busy(1u32 << j, i) <==> i == j,
        !busy(0, i),
{
    assert(i < 32 && j < 32 ==> (((1u32 << j) >> i) & 1 == 1) == (i == j)) by (bit_vector);
    assert((0u32 >> i) & 1 == 0) by (bit_vector);
}

} // verus!
