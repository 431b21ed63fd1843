//! Work on the device, one driver call after another.
use dbstrike::coalesce::Hits;
use dbstrike::gpu_batched::{
    blank_hits, gpu_search_batched, gpu_search_slot_batch, scan_shape, search_next, slot_next,
    BlockShape, SearchStage, SlotStage, NO_DISTANCE,
};
use dbstrike::gpu_index::{gpu_build_index, ExactEnd, IndexAsk, IndexBuild, Progress};
use dbstrike::gpu_launch::{
    build_step, gpu_batch_cosine_dist, gpu_cosine_dist, gpu_matmul, sync_stream_with_watchdog,
    BuildStep, Watch, NOT_READY, SYNC_TIMEOUT_MS,
};
use dbstrike::gpu_mode::ComputeMode;
use dbstrike::gpu_plan::{topk_smem, topk_threads, GPU_TOPK_MAX};
use dbstrike::gpu_search::{GpuIndex, Kernels, Release, SearchPath, MAX_Q};
use dbstrike::vugva::VugvaSearchBuffers;

const ALL: Kernels = Kernels {
    apgc_search: true,
    fused_cosine_topk: true,
    batch_cosine_dist: true,
    topk_select: true,
};

/// Grants what a build asks for, up to `limit` answers, and refuses the rest. Gives the
/// addresses that were granted and those that were freed.
fn drive(b: &mut IndexBuild, limit: usize) -> (Vec<u64>, Vec<u64>) {
    let mut granted = Vec::new();
    let mut freed = Vec::new();
    let mut next = 100u64;
    for answers in 0.. {
        match b.ask() {
            IndexAsk::Ready | IndexAsk::Failed => break,
            _ if answers < limit => {
                b.granted(next);
                granted.push(next);
                next += 1;
            }
            _ => freed.extend(b.refused()),
        }
    }
    (granted, freed)
}

fn built(mode: ComputeMode, slots: usize) -> GpuIndex {
    let mut b = gpu_build_index(mode, 1000, 8, 16, 4, slots);
    drive(&mut b, usize::MAX);
    b.finish().unwrap()
}

#[test]
fn an_index_asks_for_its_buffers_in_turn() {
    let mut b = gpu_build_index(ComputeMode::Turbo, 1000, 8, 16, 4, 1);
    let mut asked = Vec::new();
    while let IndexAsk::Alloc(bytes) = b.ask() {
        asked.push(bytes);
        b.granted(asked.len() as u64);
    }
    assert_eq!(
        asked,
        vec![
            8000,
            64000,
            4000,
            MAX_Q * 8,
            MAX_Q * GPU_TOPK_MAX * 4,
            MAX_Q * GPU_TOPK_MAX * 4,
            MAX_Q * 1000 * 4,
            8 * 4,
            8 * 4 * 4,
            GPU_TOPK_MAX * 4 * 4,
            GPU_TOPK_MAX * 4 * 4,
        ]
    );
    assert_eq!(b.ask(), IndexAsk::Stream);
    b.granted(77);
    assert_eq!(b.ask(), IndexAsk::Ready);
    let x = b.finish().unwrap();
    assert_eq!((x.d_vectors, x.d_graph, x.d_delta), (1, 2, 3));
    assert_eq!((x.d_query_buf, x.d_idx_buf, x.d_odist_buf, x.d_dist_buf), (4, 5, 6, 7));
    assert_eq!((x.n, x.dim, x.degree, x.max_q, x.max_k), (1000, 8, 16, MAX_Q, GPU_TOPK_MAX));
    assert_eq!(x.slots[0].stream, 77);
    assert_eq!(x.slot_mask, 0);
    assert!(!x.tiered);
}

#[test]
fn a_refused_build_frees_what_it_allocated() {
    for limit in 0..7 {
        let mut b = gpu_build_index(ComputeMode::Turbo, 1000, 8, 16, 4, 2);
        let (mut granted, mut freed) = drive(&mut b, limit);
        assert_eq!(b.progress, Progress::Failed);
        granted.sort_unstable();
        freed.sort_unstable();
        assert_eq!(granted, freed, "after {limit} answers");
        assert!(b.finish().is_none());
    }
    // Vectors in the tiers are not the build's to free.
    let mut b = gpu_build_index(ComputeMode::Hybrid, 1000, 8, 16, 4, 2);
    let (granted, freed) = drive(&mut b, 4);
    assert_eq!(freed, vec![granted[3], granted[1], granted[2]]);
}

#[test]
fn slots_that_cannot_be_had_are_done_without() {
    // Seven buffers, one whole slot, and two buffers of the next.
    let mut b = gpu_build_index(ComputeMode::Turbo, 1000, 8, 16, 4, 3);
    let (granted, freed) = drive(&mut b, 7 + 5 + 2);
    assert_eq!(b.progress, Progress::Ready);
    assert_eq!(freed, granted[12..].to_vec());
    let x = b.finish().unwrap();
    assert_eq!(x.slots.len(), 1);
    // Seven buffers, and four and a stream of the slot.
    assert_eq!(x.free().len(), 7 + 4 + 1);
    assert_eq!(x.free()[11], Release::Stream(x.slots[0].stream));
}

#[test]
fn tiers_come_first_in_the_hybrid_mode() {
    let mut b = gpu_build_index(ComputeMode::Hybrid, 1000, 8, 16, 4, 1);
    assert_eq!(b.ask(), IndexAsk::Tier);
    assert!(b.refused().is_empty());
    assert_eq!(b.ask(), IndexAsk::Alloc(8000));
    assert!(!b.tiered);
    let x = built(ComputeMode::Hybrid, 1);
    assert!(x.tiered);
    assert!(!x.free().contains(&Release::Memory(x.d_vectors)));
    assert!(built(ComputeMode::Turbo, 1).free().contains(&Release::Memory(100)));
}

#[test]
fn exact_vectors_come_with_a_buffer_for_queries() {
    let mut x = built(ComputeMode::Turbo, 1);
    assert_eq!(x.exact_query_bytes(), MAX_Q * 8 * 4);
    assert_eq!(x.take_exact(None, false, None), ExactEnd { live: false, freed: None });
    assert_eq!(x.take_exact(Some(5), false, None), ExactEnd { live: false, freed: Some(5) });
    assert_eq!(x.take_exact(Some(5), true, None), ExactEnd { live: false, freed: Some(5) });
    assert!(!x.gpu_rerank_on_device());
    assert_eq!(x.take_exact(Some(5), true, Some(6)), ExactEnd { live: true, freed: None });
    assert!(x.gpu_rerank_on_device());
    assert_eq!((x.d_vec_f32, x.d_qf_buf), (5, 6));
}

#[test]
fn a_refused_launch_falls_back_and_a_hang_does_not() {
    let x = built(ComputeMode::Turbo, 1);
    let walk = gpu_search_batched(&x, ALL, 10, 128, 128);
    assert_eq!(walk, SearchStage::Launch(SearchPath::Graph));
    assert_eq!(search_next(walk, true, ALL, 10), SearchStage::Wait(SearchPath::Graph));
    let fused = search_next(walk, false, ALL, 10);
    assert_eq!(fused, SearchStage::Launch(SearchPath::Fused));
    let two = search_next(fused, false, ALL, 10);
    assert_eq!(two, SearchStage::Launch(SearchPath::TwoKernel));
    assert_eq!(search_next(two, false, ALL, 10), SearchStage::Failed);
    assert_eq!(search_next(two, true, ALL, 10), SearchStage::Select);
    assert_eq!(search_next(SearchStage::Select, false, ALL, 10), SearchStage::Failed);
    let wait = search_next(SearchStage::Select, true, ALL, 10);
    assert_eq!(wait, SearchStage::Wait(SearchPath::TwoKernel));
    assert_eq!(search_next(wait, false, ALL, 10), SearchStage::Failed);
    assert_eq!(search_next(wait, true, ALL, 10), SearchStage::Read(SearchPath::TwoKernel));
    assert_eq!(search_next(walk, false, ALL, 65), SearchStage::Failed);
    assert_eq!(scan_shape(two, 10), Some(BlockShape { threads: 128, smem: 0 }));
    assert_eq!(
        scan_shape(fused, 10),
        Some(BlockShape { threads: topk_threads(10), smem: topk_smem(10) })
    );
    assert_eq!(scan_shape(walk, 10), None);
    assert_eq!(NO_DISTANCE, 2.0f32.to_bits());
    assert_eq!(
        blank_hits(SearchPath::Graph, 2),
        Hits { indices: vec![-1, -1], distances: vec![NO_DISTANCE, NO_DISTANCE] }
    );
    assert_eq!(blank_hits(SearchPath::Fused, 1), Hits { indices: vec![0], distances: vec![0] });
}

#[test]
fn a_slot_is_given_back_whatever_happens() {
    let mut x = built(ComputeMode::Turbo, 2);
    for fails_at in 0..7 {
        let slot = gpu_search_slot_batch(&mut x, true, ALL, 4, 4, 10).unwrap();
        assert_eq!(slot, 0);
        assert_eq!(x.slot_mask, 1);
        let mut stage = SlotStage::Copy;
        for call in 0.. {
            stage = slot_next(&mut x, slot, stage, call != fails_at, true);
            if stage == SlotStage::Done || stage == SlotStage::Failed {
                break;
            }
            assert_eq!(x.slot_mask, 1);
        }
        assert_eq!(x.slot_mask, 0);
        assert_eq!(stage == SlotStage::Done, fails_at == 6);
    }
    assert_eq!(gpu_search_slot_batch(&mut x, false, ALL, 4, 4, 10), None);
    assert_eq!(gpu_search_slot_batch(&mut x, true, ALL, 5, 4, 10), None);
    assert_eq!(gpu_search_slot_batch(&mut x, true, ALL, 1, 4, 10), Some(0));
    assert_eq!(gpu_search_slot_batch(&mut x, true, ALL, 1, 4, 10), Some(1));
    assert_eq!(gpu_search_slot_batch(&mut x, true, ALL, 1, 4, 10), None);
    let plain = slot_next(&mut x, 0, SlotStage::Copy, true, false);
    assert_eq!(plain, SlotStage::Launch);
}

#[test]
fn launches_cover_their_work() {
    let one = gpu_cosine_dist(8, 8000, 1000);
    assert_eq!((one.grid, one.block, one.out_bytes), ((4, 1), (256, 1), 4000));
    let many = gpu_batch_cosine_dist(3, 1000, 8);
    assert_eq!((many.first_bytes, many.second_bytes, many.out_bytes), (24, 8000, 12000));
    assert_eq!(many.grid, (3, 1));
    let product = gpu_matmul(17, 5, 33);
    assert_eq!((product.grid, product.block), ((3, 2), (16, 16)));
    assert_eq!((product.first_bytes, product.second_bytes, product.out_bytes), (85, 165, 2244));
}

#[test]
fn a_build_gets_its_buffers_in_turn() {
    let mut got = Vec::new();
    for bytes in [32, 800, 160, 160] {
        assert_eq!(build_step(4, 100, 8, 10, &got), BuildStep::Ask(bytes));
        got.push(got.len() as u64 + 1);
    }
    let b = match build_step(4, 100, 8, 10, &got) {
        BuildStep::Ready(b) => b,
        _ => unreachable!(),
    };
    assert_eq!(b.free(), vec![1, 2, 3, 4]);
    let run = b.run(3, 100).unwrap();
    assert_eq!((run.query_bytes, run.out_bytes, run.results, run.grid), (24, 120, 30, 3));
    assert!(b.run(5, 100).is_none() && b.run(3, 101).is_none());
    let shared = VugvaSearchBuffers::new(4, 8, 10, Some((7, 9))).unwrap();
    assert_eq!(shared.free(), vec![7, 9]);
}

#[test]
fn a_kernel_is_waited_for_but_not_forever() {
    assert_eq!(sync_stream_with_watchdog(0, 0), Watch::Drained);
    assert_eq!(sync_stream_with_watchdog(1, 0), Watch::Failed);
    assert_eq!(sync_stream_with_watchdog(NOT_READY, SYNC_TIMEOUT_MS - 1), Watch::Again);
    assert_eq!(sync_stream_with_watchdog(NOT_READY, SYNC_TIMEOUT_MS), Watch::Destroy);
}
