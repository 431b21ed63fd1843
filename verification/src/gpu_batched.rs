//! Running a search on the device, one driver call after another: in a launch of its own, or
//! on a slot that is claimed for it.
use crate::coalesce::Hits;
use crate::gpu_plan;
use crate::gpu_plan::{topk_smem, topk_threads};
use crate::gpu_search;
use crate::gpu_search::{
    claim_slot, first_path, next_path, release_slot, slot_takes, GpuIndex, Kernels, SearchPath,
    SCAN_MAX_K,
};
use vstd::prelude::*;

verus! {

// ── a launch of its own ───────────────────────────────────────────────────

/// Where a batched search stands.
#[derive(Clone, Copy, Debug, PartialEq, Eq, Structural)]
pub enum SearchStage {
    /// The first kernel of a path is to be launched.
    Launch(SearchPath),
    /// The distances are under way, and the selection is to be launched.
    Select,
    /// The device is to be waited for.
    Wait(SearchPath),
    /// The results are to be read.
    Read(SearchPath),
    /// There are no results.
    Failed,
}

/// Where a search begins.
pub open spec fn begins(
    x: GpuIndex,
    has: Kernels,
    k: int,
    itopk: int,
    iters: int,
) -> SearchStage {
    match gpu_search::first_path_of(x, has, k, itopk, iters) {
        Some(p) => SearchStage::Launch(p),
        None => SearchStage::Failed,
    }
}

/// Where a search stands once what it asked for has gone well, or has not. A refused launch
/// leads to the next path; a device that hangs, or a selection that is refused, ends it.
pub open spec fn after(stage: SearchStage, ok: bool, has: Kernels, k: int) -> SearchStage {
    match stage {
        SearchStage::Launch(p) => if ok {
            if p == SearchPath::TwoKernel {
                SearchStage::Select
            } else {
                SearchStage::Wait(p)
            }
        } else {
            match gpu_search::next_path_of(p, has, k) {
                Some(q) => SearchStage::Launch(q),
                None => SearchStage::Failed,
            }
        },
        SearchStage::Select => if ok {
            SearchStage::Wait(SearchPath::TwoKernel)
        } else {
            SearchStage::Failed
        },
        SearchStage::Wait(p) => if ok {
            SearchStage::Read(p)
        } else {
            SearchStage::Failed
        },
        SearchStage::Read(p) => stage,
        SearchStage::Failed => stage,
    }
}

/// Begins a batched search.
pub fn gpu_search_batched(x: &GpuIndex, has: Kernels, k: usize, itopk: usize, iters: usize) -> (r:
    SearchStage)
    ensures
        r == begins(*x, has, k as int, itopk as int, iters as int),
{
    match first_path(x, has, k, itopk, iters) {
        Some(p) => SearchStage::Launch(p),
        None => SearchStage::Failed,
    }
}

/// Goes on with a batched search.
pub fn search_next(stage: SearchStage, ok: bool, has: Kernels, k: usize) -> (r: SearchStage)
    ensures
        r == after(stage, ok, has, k as int),
{
    match stage {
        SearchStage::Launch(p) => {
            if ok {
                match p {
                    SearchPath::TwoKernel => SearchStage::Select,
                    _ => SearchStage::Wait(p),
                }
            } else {
                match next_path(p, has, k) {
                    Some(q) => SearchStage::Launch(q),
                    None => SearchStage::Failed,
                }
            }
        },
        SearchStage::Select => {
            if ok {
                SearchStage::Wait(SearchPath::TwoKernel)
            } else {
                SearchStage::Failed
            }
        },
        SearchStage::Wait(p) => {
            if ok {
                SearchStage::Read(p)
            } else {
                SearchStage::Failed
            }
        },
        SearchStage::Read(p) => SearchStage::Read(p),
        SearchStage::Failed => SearchStage::Failed,
    }
}

/// Threads of a block that computes distances.
pub const DIST_THREADS: u32 = 128;

/// Threads and bytes of shared memory of a launch.
#[derive(Clone, Copy, Debug, PartialEq, Eq, Structural)]
pub struct BlockShape {
    pub threads: u32,
    pub smem: u32,
}

/// The blocks of a scan: one that computes distances alone, or one that keeps the best.
pub fn scan_shape(stage: SearchStage, k: usize) -> (r: Option<BlockShape>)
    requires
        k <= SCAN_MAX_K,
    ensures
        match stage {
            SearchStage::Launch(SearchPath::TwoKernel) => r == Some(
                BlockShape { threads: DIST_THREADS, smem: 0 },
            ),
            SearchStage::Launch(SearchPath::Fused) | SearchStage::Select => {
                &&& r matches Some(b)
                &&& b.threads == gpu_plan::threads_for(k as int)
                &&& b.smem == gpu_plan::topk_smem_of(k as int)
            },
            _ => r is None,
        },
{
    match stage {
        SearchStage::Launch(SearchPath::TwoKernel) => Some(
            BlockShape { threads: DIST_THREADS, smem: 0 },
        ),
        SearchStage::Launch(SearchPath::Fused) | SearchStage::Select => Some(
            BlockShape { threads: topk_threads(k), smem: topk_smem(k) },
        ),
        _ => None,
    }
}

/// The bits of the `f32` distance 2, which no two directions have between them.
pub const NO_DISTANCE: u32 = 0x4000_0000;

/// What results hold before they are read: no node at distance 2 for a walk, which may find
/// fewer than it was asked for, else zeros.
pub fn blank_hits(path: SearchPath, count: usize) -> (r: Hits)
    ensures
        r@.0.len() == count && r@.1.len() == count,
        forall|i: int|
            0 <= i < count ==> #[trigger] r@.0[i] == (if path == SearchPath::Graph {
                -1i32
            } else {
                0
            }),
        forall|i: int|
            0 <= i < count ==> #[trigger] r@.1[i] == (if path == SearchPath::Graph {
                NO_DISTANCE
            } else {
                0
            }),
{
    let node: i32 = if path == SearchPath::Graph {
        -1
    } else {
        0
    };
    let distance: u32 = if path == SearchPath::Graph {
        NO_DISTANCE
    } else {
        0
    };
    let mut indices: Vec<i32> = Vec::new();
    let mut distances: Vec<u32> = Vec::new();
    let mut i: usize = 0;
    while i < count
        invariant
            i <= count,
            indices@.len() == i,
            distances@.len() == i,
            forall|j: int| 0 <= j < i ==> #[trigger] indices@[j] == node,
            forall|j: int| 0 <= j < i ==> #[trigger] distances@[j] == distance,
        decreases count - i,
    {
        indices.push(node);
        distances.push(distance);
        i = i + 1;
    }
    Hits { indices, distances }
}

// ── on a slot ─────────────────────────────────────────────────────────────

/// Where a search on a slot stands.
#[derive(Clone, Copy, Debug, PartialEq, Eq, Structural)]
pub enum SlotStage {
    /// The queries are to be copied to the device.
    Copy,
    /// The exact queries are to be copied.
    CopyExact,
    /// The walk is to be launched.
    Launch,
    /// The nodes are to be read.
    ReadNodes,
    /// The distances are to be read.
    ReadDistances,
    /// The stream is to be waited for.
    Wait,
    /// The results are there.
    Done,
    /// There are no results.
    Failed,
}

/// Where a slot search stands after a call that went well, or did not.
pub open spec fn slot_after(stage: SlotStage, ok: bool, rerank: bool) -> SlotStage {
    match stage {
        SlotStage::Done => SlotStage::Done,
        SlotStage::Failed => SlotStage::Failed,
        _ => if !ok {
            SlotStage::Failed
        } else {
            match stage {
                SlotStage::Copy => if rerank {
                    SlotStage::CopyExact
                } else {
                    SlotStage::Launch
                },
                SlotStage::CopyExact => SlotStage::Launch,
                SlotStage::Launch => SlotStage::ReadNodes,
                SlotStage::ReadNodes => SlotStage::ReadDistances,
                SlotStage::ReadDistances => SlotStage::Wait,
                _ => SlotStage::Done,
            }
        },
    }
}

/// Whether a slot search has come to its end, so that its slot is free again.
pub open spec fn slot_ended(stage: SlotStage) -> bool {
    stage == SlotStage::Done || stage == SlotStage::Failed
}

/// Claims a slot for a batch of queries. Without kernels, with more queries than a slot
/// carries or more results than it holds, and where every slot is busy there is none.
pub fn gpu_search_slot_batch(
    x: &mut GpuIndex,
    compiled: bool,
    kernels: Kernels,
    nq: usize,
    slot_batch: usize,
    k: usize,
) -> (r: Option<usize>)
    requires
        old(x).slots@.len() <= 32,
    ensures
        *final(x) == (GpuIndex { slot_mask: final(x).slot_mask, ..*old(x) }),
        r is Some == (0 < nq <= slot_batch && k <= old(x).max_k && compiled && kernels.apgc_search
            && exists|i: u32|
            i < old(x).slots@.len() && !#[trigger] gpu_search::busy(old(x).slot_mask, i)),
        match r {
            Some(s) => {
                &&& s < old(x).slots@.len()
                &&& !gpu_search::busy(old(x).slot_mask, s as u32)
                &&& forall|i: u32| i < s ==> #[trigger] gpu_search::busy(old(x).slot_mask, i)
                &&& forall|i: u32|
                    i < 32 ==> #[trigger] gpu_search::busy(final(x).slot_mask, i) == (
                    gpu_search::busy(old(x).slot_mask, i) || i == s)
            },
            None => final(x).slot_mask == old(x).slot_mask,
        },
{
    if !slot_takes(x, nq, slot_batch, k) || !compiled || !kernels.apgc_search {
        return None;
    }
    let count: usize = x.slots.len();
    let mut mask: u32 = x.slot_mask;
    let r = claim_slot(&mut mask, count);
    x.slot_mask = mask;
    r
}

/// Goes on with a search on a slot, and gives the slot back at its end.
pub fn slot_next(x: &mut GpuIndex, slot: usize, stage: SlotStage, ok: bool, rerank: bool) -> (r:
    SlotStage)
    requires
        slot < 32,
        !slot_ended(stage),
    ensures
        r == slot_after(stage, ok, rerank),
        *final(x) == (GpuIndex { slot_mask: final(x).slot_mask, ..*old(x) }),
        forall|i: u32|
            i < 32 ==> #[trigger] gpu_search::busy(final(x).slot_mask, i) == (gpu_search::busy(
                old(x).slot_mask,
                i,
            ) && !(i == slot && slot_ended(r))),
{
    let r: SlotStage = if !ok {
        SlotStage::Failed
    } else {
        match stage {
            SlotStage::Copy => {
                if rerank {
                    SlotStage::CopyExact
                } else {
                    SlotStage::Launch
                }
            },
            SlotStage::CopyExact => SlotStage::Launch,
            SlotStage::Launch => SlotStage::ReadNodes,
            SlotStage::ReadNodes => SlotStage::ReadDistances,
            SlotStage::ReadDistances => SlotStage::Wait,
            _ => SlotStage::Done,
        }
    };
    match r {
        SlotStage::Done | SlotStage::Failed => {
            let mut mask: u32 = x.slot_mask;
            release_slot(&mut mask, slot);
            x.slot_mask = mask;
        },
        _ => {},
    }
    r
}

// ── laws ──────────────────────────────────────────────────────────────────

/// How many calls a batched search still makes at most.
pub open spec fn calls_left(stage: SearchStage) -> int {
    match stage {
        SearchStage::Launch(SearchPath::Graph) => 5,
        SearchStage::Launch(SearchPath::Fused) => 4,
        SearchStage::Launch(SearchPath::TwoKernel) => 3,
        SearchStage::Select => 2,
        SearchStage::Wait(p) => 1,
        SearchStage::Read(p) => 0,
        SearchStage::Failed => 0,
    }
}

/// A batched search ends after at most five calls, whatever becomes of each.
pub proof fn law_search_ends(stage: SearchStage, ok: bool, has: Kernels, k: int)
    ensures
        0 <= calls_left(stage) <= 5,
        calls_left(stage) > 0 ==> calls_left(after(stage, ok, has, k)) < calls_left(stage),
{
}

/// Results are read only of a kernel that was waited for and has come to its end.
pub proof fn law_results_are_waited_for(
    stage: SearchStage,
    ok: bool,
    has: Kernels,
    k: int,
    path: SearchPath,
)
    requires
        !(stage is Read),
        after(stage, ok, has, k) == SearchStage::Read(path),
    ensures
        stage == SearchStage::Wait(path),
        ok,
{
}

/// A device that hangs ends the search: no other kernel is launched behind it.
pub proof fn law_hang_ends_search(path: SearchPath, has: Kernels, k: int)
    ensures
        after(SearchStage::Wait(path), false, has, k) == SearchStage::Failed,
{
}

/// How many calls a slot search still makes at most.
pub open spec fn slot_calls_left(stage: SlotStage) -> int {
    match stage {
        SlotStage::Copy => 6,
        SlotStage::CopyExact => 5,
        SlotStage::Launch => 4,
        SlotStage::ReadNodes => 3,
        SlotStage::ReadDistances => 2,
        SlotStage::Wait => 1,
        SlotStage::Done => 0,
        SlotStage::Failed => 0,
    }
}

/// A claimed slot is given back after at most six calls, whatever becomes of each.
pub proof fn law_slots_come_back(stage: SlotStage, ok: bool, rerank: bool)
    ensures
        0 <= slot_calls_left(stage) <= 6,
        slot_ended(stage) == (slot_calls_left(stage) == 0),
        !slot_ended(stage) ==> slot_calls_left(slot_after(stage, ok, rerank)) < slot_calls_left(
            stage,
        ),
{
}

/// Where every call goes well, a walk or a scan that keeps the best is launched, waited for and
/// read, and a scan of two kernels selects in between.
pub proof fn law_searches_come_through(ker: Kernels, k: int, path: SearchPath)
    ensures
        path != SearchPath::TwoKernel ==> after(SearchStage::Launch(path), true, ker, k)
            == SearchStage::Wait(path),
        after(SearchStage::Launch(SearchPath::TwoKernel), true, ker, k) == SearchStage::Select,
        after(SearchStage::Select, true, ker, k) == SearchStage::Wait(SearchPath::TwoKernel),
        after(SearchStage::Wait(path), true, ker, k) == SearchStage::Read(path),
        after(SearchStage::Select, false, ker, k) == SearchStage::Failed,
{
}

/// A launch that is refused is followed by the next kernel in turn that is loaded and gives enough,
/// or by none.
pub proof fn law_refused_launches_fall_back(ker: Kernels, k: int)
    requires
        0 < k <= 64,
    ensures
        ker.fused_cosine_topk ==> after(SearchStage::Launch(SearchPath::Graph), false, ker, k)
            == SearchStage::Launch(SearchPath::Fused),
        ker.batch_cosine_dist && ker.topk_select ==> after(
            SearchStage::Launch(SearchPath::Fused),
            false,
            ker,
            k,
        ) == SearchStage::Launch(SearchPath::TwoKernel),
        after(SearchStage::Launch(SearchPath::TwoKernel), false, ker, k) == SearchStage::Failed,
        !ker.batch_cosine_dist ==> after(SearchStage::Launch(SearchPath::Fused), false, ker, k)
            == SearchStage::Failed,
{
}

/// A search begins with the launch of a walk where there is one to make and its kernel is loaded,
/// and fails where no kernel fits.
pub proof fn law_searches_begin_with_a_walk(
    x: GpuIndex,
    ker: Kernels,
    k: int,
    itopk: int,
    iters: int,
)
    ensures
        begins(x, ker, k, itopk, iters) == SearchStage::Launch(SearchPath::Graph)
            <==> gpu_search::walks(x, k, itopk, iters) && ker.apgc_search,
        begins(x, ker, k, itopk, iters) is Failed || begins(x, ker, k, itopk, iters) is Launch,
        !ker.apgc_search && !ker.fused_cosine_topk && !ker.topk_select ==> begins(
            x,
            ker,
            k,
            itopk,
            iters,
        ) is Failed,
{
}

/// The stage that a slot search ker come to after `n` calls that all went well.
pub open spec fn slot_reached(n: nat, rerank: bool) -> SlotStage
    decreases n,
{
    if n == 0 {
        SlotStage::Copy
    } else {
        slot_after(slot_reached((n - 1) as nat, rerank), true, rerank)
    }
}

/// Where every call goes well, a slot search copies, launches, reads nodes and distances, waits and
/// is done, in that order; exact queries are copied on the way. One call that does not go well
/// ends it.
pub proof fn law_slot_searches_come_through(stage: SlotStage, rerank: bool)
    requires
        !slot_ended(stage),
    ensures
        slot_reached(1, true) is CopyExact,
        slot_reached(1, false) is Launch,
        ({
            let more: nat = if rerank {
                1
            } else {
                0
            };
            &&& slot_reached(1 + more, rerank) is Launch
            &&& slot_reached(2 + more, rerank) is ReadNodes
            &&& slot_reached(3 + more, rerank) is ReadDistances
            &&& slot_reached(4 + more, rerank) is Wait
            &&& slot_reached(5 + more, rerank) is Done
        }),
        slot_after(stage, false, rerank) == SlotStage::Failed,
{
    reveal_with_fuel(slot_reached, 8);
}

} // verus!
