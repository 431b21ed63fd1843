//! Planning for the accelerator.
use dbstrike::coalesce::{pack, CoEnd, CoStep, Geometry, Hits, QueryCoalescer};
use dbstrike::corpus_tier::{mode_uses_tiering, spill_file, CorpusTier, Tier};
use dbstrike::gpu_mode::{
    ensure_kernels, gpu_auto_mode, gpu_available, gpu_check_capacity, gpu_get_mode, gpu_has_kernel,
    gpu_info, gpu_init, gpu_load_kernel, gpu_set_mode, gpu_should_use_gpu, gpu_tier_strategy,
    gpu_unload, mode_from_env, short_name, ComputeMode, Gpu,
};
use dbstrike::gpu_plan::{
    apgc_fit_beam, apgc_search_smem, apgc_search_threads, build_budget, delta_ar_k,
    gpu_search_beam, gpu_search_iters, gpu_search_itopk, search_slots, slot_batch, switched_on,
    topk_smem, topk_threads, GPU_MAX_DYN_SMEM,
};
use dbstrike::gpu_search::{
    blocks_for, claim_slot, first_path, gpu_batch_cosine_dist_topk, gpu_search, index_plan,
    next_path, release_slot, slot_takes, valid_hits, walk_launch, ExactUpload, GpuIndex, Kernels,
    Release, SearchPath, SearchRoute, SearchSlot, TopkPlan, TopkStage,
};
use dbstrike::knn::{batches, dot_i8, pivot_nodes, seed_launch, seed_plan, similarity_of, SeedLaunch};
use dbstrike::knn_build::{
    device_graph, gpu_build_knn_graph, keep_device_graph, refine_bytes, refine_first, refine_grid,
    refine_next, start_graph, Grid, RefineStage, SeedBatch,
};
use dbstrike::knn_refine::{
    descent_passes, flat_graph, gather, keep_most_similar, nn_descent,
    reverse_lists,
};
use dbstrike::knn_seed::{assign_cell, locality_order, near_pivots, positions, Cell, Pivot};
use dbstrike::vugva::{vugva_stats, LookAhead, Prefetch, VugvaSearchBuffers, VugvaVmt};

#[test]
fn only_hybrid_is_tiered() {
    assert!(
        mode_uses_tiering(ComputeMode::Hybrid),
        "Hybrid is the VUGVA mode — if it does not tier, nothing does and \
         a larger-than-VRAM corpus silently falls back to the CPU"
    );
    assert!(
        !mode_uses_tiering(ComputeMode::Turbo),
        "Turbo is VRAM-resident by definition; tiering it would add a page \
         lookup to the path that exists to avoid one"
    );
    assert!(!mode_uses_tiering(ComputeMode::CpuOnly));
}

#[test]
fn reports_the_shape_it_was_allocated_with() {
    let (n, dim) = (1024usize, 384usize);
    // A small warm tier on purpose: the corpus is 384 KB, so this also
    // covers the ordinary case where it fits comfortably.
    let c = CorpusTier::with_dram_budget(n, dim, 16 << 20);
    assert_eq!(c.len(), n);
    assert_eq!(c.dim(), dim);
    assert_eq!(c.bytes(), n * dim);
    assert!(!c.is_empty());
    assert_eq!(c.tier(), Tier::Dram);
    assert!(CorpusTier::new(0, 8).is_empty());
    assert!(spill_file(42).contains("42"));
}

#[test]
fn a_corpus_larger_than_the_dram_budget_still_allocates() {
    // 64 MB corpus against a 16 MB warm tier.
    let (n, dim) = (170_000usize, 384usize);
    let c = CorpusTier::with_dram_budget(n, dim, 16 << 20);
    assert_eq!(c.bytes(), n * dim);
    assert_eq!(c.tier(), Tier::Ssd);
    assert!(c.capacity() >= c.bytes());
}

#[test]
fn a_size_mismatch_is_rejected() {
    let c = CorpusTier::with_dram_budget(4096, 384, 1 << 20);
    assert_eq!(c.upload(4096 * 384), Ok(()));
    assert!(c.upload(4096 * 384 / 2).is_err());
    assert!(c.upload(7).unwrap_err().contains("7 bytes"));
}

#[test]
fn a_fixed_mode_answers_for_every_size() {
    let mut g = Gpu::new();
    let big = usize::MAX;
    gpu_set_mode(&mut g, ComputeMode::CpuOnly);
    assert!(!gpu_should_use_gpu(&mut g, None, None, big, big));
    gpu_set_mode(&mut g, ComputeMode::Turbo);
    assert!(gpu_should_use_gpu(&mut g, None, None, big, big));
    assert!(gpu_init(&mut g, Some((1 << 32, 1 << 33))));
    gpu_set_mode(&mut g, ComputeMode::Hybrid);
    assert!(!gpu_should_use_gpu(&mut g, None, None, big, big));
    assert!(gpu_should_use_gpu(&mut g, None, None, 1 << 20, 1 << 12));
    assert!(!gpu_should_use_gpu(&mut g, None, None, (1 << 20) + 1, 1 << 12));
    assert_eq!(
        gpu_auto_mode(&mut g, None, None, None, big, big),
        ComputeMode::Hybrid
    );
    let mut none = Gpu::new();
    assert_eq!(
        gpu_auto_mode(&mut none, None, None, None, big, big),
        ComputeMode::CpuOnly
    );
}

#[test]
fn modes_are_named_without_regard_to_case() {
    assert_eq!(mode_from_env(Some("TURBO")), Some(ComputeMode::Turbo));
    assert_eq!(mode_from_env(Some("cpu_only")), Some(ComputeMode::CpuOnly));
    assert_eq!(mode_from_env(Some("fast")), None);
    let mut g = Gpu::new();
    assert_eq!(gpu_get_mode(&mut g, Some("hybrid")), ComputeMode::Hybrid);
    // The first look settles it.
    assert_eq!(gpu_get_mode(&mut g, Some("turbo")), ComputeMode::Hybrid);
    gpu_set_mode(&mut g, ComputeMode::Turbo);
    assert_eq!(gpu_get_mode(&mut g, None), ComputeMode::Turbo);
    assert_eq!(ComputeMode::CpuOnly.name(), "CpuOnly");
}

#[test]
fn a_device_is_looked_for_once() {
    let mut g = Gpu::new();
    assert!(!gpu_available(&mut g, Some("cpu"), Some((10, 10))));
    let mut g = Gpu::new();
    assert!(!gpu_init(&mut g, None));
    assert!(!gpu_init(&mut g, Some((8, 8))));
    let mut g = Gpu::new();
    assert!(gpu_available(&mut g, Some("turbo"), Some((600 << 20, 1 << 30))));
    assert_eq!(gpu_check_capacity(&g, 10, 10, Some(99)), (false, 100, 99));
    assert_eq!(gpu_check_capacity(&g, 10, 10, None).0, true);
    assert_eq!(gpu_auto_mode(&mut g, None, None, Some(600 << 20), 1000, 8), ComputeMode::Turbo);
    assert_eq!(gpu_auto_mode(&mut g, None, None, Some(1024), 1000, 8), ComputeMode::Hybrid);
    // A shard's build would fit, the corpus does not.
    let free = Some(130_000_000);
    assert_eq!(gpu_auto_mode(&mut g, None, None, free, 16, 100_000_000), ComputeMode::Hybrid);
    assert_eq!(gpu_get_mode(&mut g, None), ComputeMode::Hybrid);
    assert_eq!(gpu_tier_strategy(&mut g, None, None, Some(1024), 1000, 8), ComputeMode::Hybrid);
    assert!(gpu_info(&mut g, None, None).len() > 0);
    gpu_unload(&mut g);
    assert!(!gpu_init(&mut g, Some((8, 8))));
}

#[test]
fn kernels_are_loaded_by_short_name() {
    assert_eq!(short_name("cosine_dist_kernel"), "cosine_dist");
    let mut g = Gpu::new();
    let built = Some(vec!["cosine_dist_kernel".to_string(), "matmul_kernel".to_string()]);
    assert!(!gpu_load_kernel(&mut g, "cosine_dist", None, &built));
    let mut g = Gpu::new();
    assert!(gpu_load_kernel(&mut g, "cosine_dist", Some((1, 1)), &built));
    assert!(gpu_load_kernel(&mut g, "matmul", Some((1, 1)), &None));
    assert!(gpu_has_kernel(&g, "matmul"));
    assert!(!gpu_load_kernel(&mut g, "none", Some((1, 1)), &None));
    let mut h = Gpu::new();
    assert!(gpu_init(&mut h, Some((1, 1))));
    ensure_kernels(&mut h, &None);
    assert!(!gpu_has_kernel(&h, "matmul"));
    gpu_set_mode(&mut h, ComputeMode::CpuOnly);
    assert!(!gpu_should_use_gpu(&mut h, None, None, 1 << 20, 8));
}

#[test]
fn settings_stay_in_their_bounds() {
    assert_eq!(apgc_search_threads(None), 512);
    assert_eq!(apgc_search_threads(Some("100")), 96);
    assert_eq!(apgc_search_threads(Some("9999")), 1024);
    assert_eq!(gpu_search_itopk(Some("1")), 32);
    assert_eq!(gpu_search_itopk(None), 64);
    assert_eq!(gpu_search_itopk(Some("9999")), 1024);
    assert_eq!(gpu_search_iters(None), 24);
    assert_eq!(gpu_search_iters(Some("0")), 1);
    assert_eq!(gpu_search_beam(Some("0")), 1);
    assert_eq!(delta_ar_k(None), 0);
    assert_eq!(slot_batch(Some("x")), 16);
    assert_eq!(search_slots(Some("99")), 32);
    assert_eq!(build_budget(None), 120);
    assert!(switched_on(None) && switched_on(Some("1")) && !switched_on(Some("0")));
    assert_eq!([10, 32, 33, 64, 65, 200, 512].map(topk_threads), [128, 128, 64, 64, 32, 16, 8]);
    assert_eq!(topk_smem(64), 64 * 64 * 8);
    assert!((0..=512usize).all(|k| topk_threads(k) as usize * k <= 4096 && topk_smem(k) <= 49_152));
    let beam = apgc_fit_beam(128, 64, 384, true, 64);
    assert_eq!(beam, 62);
    assert_eq!(apgc_search_smem(128, 64, 384, true, 62), 85_952);
    assert_eq!(apgc_search_smem(128, 64, 384, true, 63), 135_104);
    assert_eq!(apgc_fit_beam(128, 64, 384, true, 8), 8);
    assert!(apgc_search_smem(128, 64, 384, true, beam as usize) as usize <= GPU_MAX_DYN_SMEM);
}

fn index(slots: usize) -> GpuIndex {
    GpuIndex {
        d_vectors: 1,
        d_graph: 2,
        d_delta: 3,
        n: 1000,
        dim: 8,
        degree: 16,
        d_query_buf: 4,
        d_idx_buf: 5,
        d_dist_buf: 6,
        d_odist_buf: 7,
        d_vec_f32: 0,
        d_qf_buf: 0,
        max_q: 16,
        max_k: 512,
        slots: (0..slots)
            .map(|i| SearchSlot {
                d_q: 10 + 4 * i as u64,
                d_qf: 0,
                d_idx: 12 + 4 * i as u64,
                d_odist: 13 + 4 * i as u64,
                stream: 0,
            })
            .collect(),
        slot_mask: 0,
        tiered: false,
    }
}

#[test]
fn a_search_takes_the_best_path_there_is() {
    let x = index(1);
    let all = Kernels {
        apgc_search: true,
        fused_cosine_topk: true,
        batch_cosine_dist: true,
        topk_select: true,
    };
    assert_eq!(first_path(&x, all, 10, 128, 128), Some(SearchPath::Graph));
    assert_eq!(first_path(&x, all, 10, 0, 128), Some(SearchPath::Fused));
    assert_eq!(next_path(SearchPath::Graph, all, 10), Some(SearchPath::Fused));
    assert_eq!(next_path(SearchPath::Fused, all, 10), Some(SearchPath::TwoKernel));
    assert_eq!(next_path(SearchPath::TwoKernel, all, 10), None);
    assert_eq!(next_path(SearchPath::Graph, all, 65), None);
    assert_eq!(gpu_search(&x, 0, 10, 128, 128, true), SearchRoute::Refuse);
    assert_eq!(gpu_search(&x, 1, 10, 128, 128, true), SearchRoute::Coalesced);
    assert_eq!(gpu_search(&x, 1, 10, 128, 128, false), SearchRoute::Slot);
    assert_eq!(gpu_search(&x, 2, 10, 128, 128, true), SearchRoute::Batched);
    assert!(slot_takes(&x, 16, 16, 10) && !slot_takes(&x, 17, 16, 10));
    assert_eq!(valid_hits(&vec![3, -1, 4, -1]), 2);
    let launch = walk_launch(&x, 1, 0, false, 128, 5, 64);
    assert_eq!(launch.grid, 1);
    assert_eq!(launch.entry, 5);
    assert!(!launch.rerank);
    assert!(gpu_batch_cosine_dist_topk(800, 4, 100, 8, 10, all).is_some());
    assert_eq!(x.upload_f32_corpus(7, None, usize::MAX), ExactUpload::Off);
    assert_eq!(x.upload_f32_corpus(8000, None, 1 << 30), ExactUpload::Upload(32000));
    assert!(!x.gpu_rerank_on_device());
    assert!(x.free().contains(&Release::Memory(1)));
    assert_eq!(index_plan(1000, 8, 16, 16).graph_bytes, 64000);
}

#[test]
fn slots_are_claimed_and_released() {
    let mut mask = 0u32;
    assert_eq!(claim_slot(&mut mask, 2), Some(0));
    assert_eq!(claim_slot(&mut mask, 2), Some(1));
    assert_eq!(claim_slot(&mut mask, 2), None);
    release_slot(&mut mask, 0);
    assert_eq!(mask, 2);
    assert_eq!(claim_slot(&mut mask, 2), Some(0));
    assert_eq!(blocks_for(257, 256), 2);
    assert_eq!(blocks_for(256, 256), 1);
}

#[test]
fn queries_of_one_shape_go_together() {
    let shape = Geometry { k: 2, itopk: 32, iters: 8, entry: 0 };
    let other = Geometry { k: 3, itopk: 32, iters: 8, entry: 0 };
    let mut q = QueryCoalescer::new();
    let a = q.submit(vec![1, 2], vec![], shape);
    let b = q.submit(vec![3, 4], vec![], shape);
    let c = q.submit(vec![5, 6], vec![], other);
    let batch = match q.poll(a, 4, 8, 16) {
        CoStep::Lead(batch) => batch,
        _ => unreachable!(),
    };
    assert_eq!(batch.iter().map(|r| r.ticket).collect::<Vec<_>>(), vec![a, b]);
    assert_eq!(pack(&batch, 2).0, vec![1, 2, 3, 4]);
    let found = Hits { indices: vec![7, 8, 9, 10], distances: vec![0, 1, 2, 3] };
    match q.complete(a, batch, Some(found)) {
        CoEnd::Mine(h) => assert_eq!(h.indices, vec![7, 8]),
        _ => unreachable!(),
    }
    match q.poll(b, 4, 8, 16) {
        CoStep::Done(h) => assert_eq!(h.indices, vec![9, 10]),
        _ => unreachable!(),
    }
    assert!(matches!(q.poll(c, 4, 8, 16), CoStep::Lead(_)));
}

#[test]
fn neighbours_are_refined_towards_the_nearest() {
    let vectors: Vec<i8> = vec![100, 0, 90, 10, 0, 100, 10, 90];
    assert_eq!(dot_i8(&vectors[0..2], &vectors[2..4]), 9000);
    assert_eq!(similarity_of(&vectors, 4, 2, 2, 3), 9000);
    let kept = keep_most_similar(&vectors, 4, 2, 0, &vec![2, 3, 1], 2);
    assert_eq!(kept, vec![1, 3]);
    let g = vec![vec![2], vec![2], vec![3], vec![0]];
    let rev = reverse_lists(&g, 16);
    assert_eq!(rev[2], vec![0, 1]);
    assert!(gather(&g, &rev, 2, 8).contains(&3));
    let refined = nn_descent(&vectors, 4, 2, 1, vec![vec![2], vec![0], vec![3], vec![1]], 4);
    assert_eq!(refined.len(), 4);
    assert_eq!(flat_graph(&vec![vec![1], vec![]], 2), vec![1, 0, 1, 1]);
    assert_eq!(descent_passes(Some(3), 10), 3);
    assert_eq!(descent_passes(None, 50_000), 8);
    assert_eq!(descent_passes(None, 50_001), 12);
}

#[test]
fn seeding_walks_the_corpus_in_order() {
    assert_eq!(seed_plan(10), (10, 1));
    assert_eq!(pivot_nodes(4), vec![0, 1, 2, 3]);
    assert_eq!(batches(5, 2), vec![(0, 2), (2, 4), (4, 5)]);
    // One launch where there is room; a refused one is tried as a batch once more.
    let whole = seed_launch(1000, 8, 16, 1 << 30);
    assert_eq!(whole, SeedLaunch::Whole(1000));
    assert_eq!(whole.refused(), Some(SeedLaunch::Batched(1000)));
    assert_eq!(SeedLaunch::Whole(20_000).refused(), Some(SeedLaunch::Batched(8192)));
    assert_eq!(SeedLaunch::Batched(1000).refused(), None);
    assert_eq!(seed_launch(1000, 8, 16, 0), SeedLaunch::Batched(1000));
    assert_eq!(seed_launch(70_000, 8, 16, 1 << 40).width(), 8192);
    let near = near_pivots(&vec![1, 0], &vec![0.1f32.to_bits(), 0.3f32.to_bits()], 2, 10, 5);
    assert_eq!(near.iter().map(|p| p.node).collect::<Vec<_>>(), vec![2, 0]);
    let cell = assign_cell(&vec![
        Pivot { distance: 5, node: 4, number: 2 },
        Pivot { distance: 9, node: 8, number: 4 },
    ]);
    assert_eq!(cell.distance, 5);
    let cells = vec![
        Cell { first: 2, second: 0, distance: 1 },
        Cell { first: 1, second: 0, distance: 9 },
        Cell { first: 1, second: 0, distance: 3 },
    ];
    let order = locality_order(&cells);
    assert_eq!(order, vec![2, 1, 0]);
    assert_eq!(positions(&order), vec![2, 1, 0]);
}

#[test]
fn a_graph_is_built_from_pivots() {
    // Two groups of five directions each.
    let mut vectors: Vec<i8> = Vec::new();
    for i in 0..5i8 {
        vectors.extend([100, i, 0]);
    }
    for i in 0..5i8 {
        vectors.extend([0, i, 100]);
    }
    let n = 10;
    let mut numbers: Vec<Vec<i32>> = Vec::new();
    let mut distances: Vec<Vec<u32>> = Vec::new();
    for v in 0..n {
        let mut row: Vec<(u32, i32)> = (0..n)
            .map(|p| {
                let sim = similarity_of(&vectors, n, 3, v, p) as f32 / 16129.0;
                ((1.0 - sim).to_bits(), p as i32)
            })
            .collect();
        row.sort();
        numbers.push(row.iter().map(|x| x.1).collect());
        distances.push(row.iter().map(|x| x.0).collect());
    }
    // Two launches, of six queries and of four.
    let (more, far) = (numbers.split_off(6), distances.split_off(6));
    let seeds = vec![
        Some(SeedBatch { numbers, distances }),
        Some(SeedBatch { numbers: more, distances: far }),
    ];
    let flat =
        gpu_build_knn_graph(&vectors, n, 3, 4, seeds.clone(), 119, 120, &None, 8).unwrap();
    assert_eq!(flat.len(), 40);
    for v in 0..n {
        for j in 0..4 {
            let u = flat[v * 4 + j];
            assert_ne!(u, v);
            assert_eq!(u < 5, v < 5);
        }
    }
    // A launch that failed, or seconds that are spent, leave no graph at all.
    let mut cut = seeds.clone();
    cut[1] = None;
    assert_eq!(gpu_build_knn_graph(&vectors, n, 3, 4, cut.clone(), 0, 120, &None, 8), None);
    assert!(start_graph(cut, n, 4).is_none());
    assert_eq!(gpu_build_knn_graph(&vectors, n, 3, 4, seeds.clone(), 120, 120, &None, 8), None);
    let start = start_graph(seeds.clone(), n, 4).unwrap();
    assert_eq!(start.len(), 10);
    // What the device refined is kept; places without a neighbour hold the node itself.
    let mut refined = device_graph(&start, 4);
    refined[0] = 3;
    for j in 1..4 {
        refined[j] = -1;
    }
    let flat =
        gpu_build_knn_graph(&vectors, n, 3, 4, seeds, 0, 120, &Some(refined), 8).unwrap();
    assert_eq!(flat[..4], [3, 0, 0, 0]);
    assert_eq!(flat[4] as i32, start[1][0]);
}

#[test]
fn rows_of_the_device_lose_their_gaps() {
    let flat = vec![2, -1, 1, -1, -1, -1, 0, 5];
    assert_eq!(keep_device_graph(&flat, 2, 3), vec![vec![2, 1], vec![]]);
    assert_eq!(device_graph(&vec![vec![4], vec![], vec![1, 2, 3]], 2), vec![4, -1, -1, -1, 1, 2]);
}

#[test]
fn a_refinement_reads_only_what_was_waited_for() {
    assert_eq!(refine_first(true, false, 3), RefineStage::Failed { made: 0 });
    let mut s = refine_first(true, true, 3);
    let mut calls = Vec::new();
    while !matches!(s, RefineStage::Done | RefineStage::Failed { .. }) {
        calls.push(s);
        s = refine_next(s, true);
    }
    assert_eq!(s, RefineStage::Done);
    // The corpus, four buffers, the graph, three passes of two launches, the wait, the result.
    assert_eq!(calls.len(), 1 + 4 + 1 + 3 * 2 + 1 + 1);
    assert_eq!(calls[6], RefineStage::Reverse { left: 3, flipped: false });
    assert_eq!(calls[13], RefineStage::Read { flipped: true });
    let halfway = RefineStage::Alloc { made: 2, passes: 3 };
    assert_eq!(refine_next(halfway, false), RefineStage::Failed { made: 2 });
    let hung = refine_next(RefineStage::Descend { left: 2, flipped: true }, false);
    assert_eq!(hung, RefineStage::Wait { sound: false, flipped: true });
    assert_eq!(refine_next(hung, true), RefineStage::Failed { made: 4 });
    assert_eq!(
        refine_next(RefineStage::Wait { sound: true, flipped: false }, false),
        RefineStage::Failed { made: 4 }
    );
    let sizes: Vec<usize> = (0..4).map(|i| refine_bytes(1000, 32, i)).collect();
    assert_eq!(sizes, vec![128_000, 128_000, 192_000, 4_000]);
    let launch = |s| refine_grid(s, 1000);
    assert_eq!(
        launch(RefineStage::Reverse { left: 1, flipped: false }),
        Some(Grid { blocks: 4, threads: 256 })
    );
    assert_eq!(
        launch(RefineStage::Descend { left: 1, flipped: false }),
        Some(Grid { blocks: 1000, threads: 128 })
    );
    assert_eq!(launch(RefineStage::Done), None);
}

fn topk_calls(p: &TopkPlan, fail_at: usize) -> (Vec<TopkStage>, TopkStage) {
    let mut s = TopkStage::Alloc(0);
    let mut calls = Vec::new();
    while !matches!(s, TopkStage::Done | TopkStage::Failed(_)) {
        calls.push(s);
        s = p.next(s, calls.len() != fail_at);
    }
    (calls, s)
}

#[test]
fn a_one_off_search_frees_what_it_holds() {
    let all = Kernels {
        apgc_search: true,
        fused_cosine_topk: true,
        batch_cosine_dist: true,
        topk_select: true,
    };
    let p = gpu_batch_cosine_dist_topk(801, 4, 100, 8, 10, all).unwrap();
    assert_eq!((0..4).map(|i| p.buffer(i)).collect::<Vec<_>>(), vec![32, 801, 160, 160]);
    let (calls, end) = topk_calls(&p, 0);
    assert_eq!(end, TopkStage::Done);
    assert_eq!(
        calls,
        vec![
            TopkStage::Alloc(0),
            TopkStage::Alloc(1),
            TopkStage::Copy,
            TopkStage::Alloc(2),
            TopkStage::Alloc(3),
            TopkStage::Launch,
            TopkStage::Wait,
            TopkStage::Read,
        ]
    );
    assert_eq!(topk_calls(&p, 2).1, TopkStage::Failed(1));
    assert_eq!(topk_calls(&p, 3).1, TopkStage::Done);
    assert_eq!(topk_calls(&p, 5).1, TopkStage::Failed(3));
    assert_eq!(topk_calls(&p, 7).1, TopkStage::Failed(4));
    let two = Kernels { fused_cosine_topk: false, ..all };
    let p = gpu_batch_cosine_dist_topk(800, 4, 100, 8, 10, two).unwrap();
    assert_eq!((0..5).map(|i| p.buffer(i)).collect::<Vec<_>>(), vec![32, 800, 1600, 160, 160]);
    let (calls, _) = topk_calls(&p, 0);
    assert_eq!(calls[7], TopkStage::Select);
    assert_eq!(topk_calls(&p, 7).1, TopkStage::Failed(5));
    assert_eq!(topk_calls(&p, 8).1, TopkStage::Done);
}

#[test]
fn chunks_leave_least_recently_used_first() {
    let vectors: Vec<i8> = vec![0; 12];
    let mut v = VugvaVmt::new(&vectors, 2, 2, 8);
    assert_eq!(v.num_chunks(), 3);
    assert_eq!(v.chunk_of(5), 2);
    assert_eq!(v.part_of(1), (2, 2));
    assert!(matches!(v.prefetch(9), Prefetch::Missing));
    assert!(matches!(v.prefetch(0), Prefetch::Load(0, _)));
    v.place(0, 100);
    assert!(matches!(v.prefetch(1), Prefetch::Load(0, _)));
    v.place(1, 200);
    assert!(matches!(v.prefetch(0), Prefetch::Resident(100)));
    // Chunk 1 was used longest ago, so its memory is freed for chunk 2.
    assert!(matches!(v.prefetch(2), Prefetch::Load(200, _)));
    v.place(2, 300);
    let mut freed = v.cleanup();
    freed.sort();
    assert_eq!(freed, vec![100, 300]);
    assert!(vugva_stats(&v, "0.0".to_string()).len() > 0);
}

#[test]
fn the_next_chunk_is_predicted() {
    let mut l = LookAhead::new(4);
    assert_eq!(l.predict_next(), None);
    for i in [2usize, 4, 6] {
        l.record(i);
    }
    assert_eq!(l.predict_next(), Some(7));
    let b = VugvaSearchBuffers::new(2, 8, 10, Some((1, 2))).unwrap();
    assert!(b.upload_query(16) && !b.upload_query(17));
    assert!(b.download_results(1));
    assert!(VugvaSearchBuffers::new(2, 8, 10, None).is_none());
}

#[test]
fn search_buffers_are_made_once() {
    let vectors: Vec<i8> = vec![0; 12];
    let mut v = VugvaVmt::new(&vectors, 2, 2, 8);
    assert!(v.get_search_buffers().is_none());
    v.init_search_buffers(VugvaSearchBuffers::new(2, 8, 10, Some((1, 2))));
    v.init_search_buffers(VugvaSearchBuffers::new(2, 8, 10, Some((3, 4))));
    assert_eq!(v.get_search_buffers().unwrap().d_query, 1);
}

#[test]
fn a_batch_brings_the_chunks_that_exist() {
    // Five vectors in chunks of two: the last chunk has one.
    let vectors: Vec<i8> = vec![0; 10];
    let mut v = VugvaVmt::new(&vectors, 2, 2, 8);
    let indices = vec![4, 99, 0, 1, 2];
    assert_eq!(v.batch_chunks(&indices), vec![2, 0, 1]);
    let b = v.prefetch_batch(&indices, &vec![Some(500), None, Some(700)]);
    assert_eq!(b.parts, vec![(500, 4, 1), (700, 2, 2)]);
    assert_eq!(b.freed, vec![]);
    // The device holds two chunks: chunk 2 was used longest ago, so it makes room for chunk 0.
    let b = v.prefetch_batch(&vec![2, 0], &vec![None, Some(900)]);
    assert_eq!(b.parts, vec![(700, 2, 2), (900, 0, 2)]);
    assert_eq!(b.freed, vec![500]);
}

#[test]
fn the_device_keeps_to_its_slots() {
    // Ten chunks of two vectors, and room for three of them.
    let vectors: Vec<i8> = vec![0; 40];
    let mut v = VugvaVmt::new(&vectors, 2, 2, 12);
    let indices: Vec<usize> = (0..20).collect();
    let answers: Vec<Option<u64>> = (1..=10).map(|p| Some(p * 16)).collect();
    let b = v.prefetch_batch(&indices, &answers);
    assert_eq!(b.parts.len(), 10);
    assert_eq!(b.freed, (1..=7).map(|p| p * 16).collect::<Vec<u64>>());
    let stats = vugva_stats(&v, String::new());
    let said = |name: &str| stats.iter().find(|s| s.0 == name).unwrap().1.clone();
    assert_eq!((said("in_vram").as_str(), said("vram_slots").as_str()), ("3", "3"));
}
