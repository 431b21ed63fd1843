//! Mixed precision graphs, attention signals and the engine that joins them.
use dbstrike::edges::{merge_graphs, precision_counts};
use dbstrike::engine::{Engine, EngineConfig, Measures};
use dbstrike::kv_prune::{AttentionScores, KvSearchPruner};
use dbstrike::opusedge::{
    ArchType, DeltaAR, DeltaRank, DeltaSignal, DenseEvic, Ebar, HeadDeactivate, Ipss, SelKV,
    SignalSource, Smsa, StateCompress,
};
use dbstrike::order::{highest, lowest, sort_places};
use dbstrike::precision::{
    part_of, ApgcGraph, Edge, GpuCaps, GraphConfig, MixedPrecisionBuilder, PrecisionLevel,
};

fn bits(v: &[f32]) -> Vec<u32> {
    v.iter().map(|x| x.to_bits()).collect()
}

fn edge(to: usize, distance: f32, precision: PrecisionLevel) -> Edge {
    Edge { from: 0, to, distance: distance.to_bits(), precision }
}

#[test]
fn test_merge_graphs() {
    let g1 = vec![vec![edge(1, 0.5, PrecisionLevel::Fp32)]];
    let g2 = vec![vec![edge(2, 0.3, PrecisionLevel::Fp16)]];
    let merged = merge_graphs(&g1, &g2, 4);
    assert_eq!(merged[0].len(), 2);
}

#[test]
fn test_prune_candidates() {
    let pruner = KvSearchPruner::new(0.5f32.to_bits(), 3);
    let attn = AttentionScores { scores: bits(&[0.1, 0.9, 0.3, 0.8, 0.2]), seq_len: 5 };
    let candidates = vec![0, 1, 2, 3, 4];
    let pruned = pruner.prune_candidates(&candidates, &attn);
    assert_eq!(pruned.len(), 3);
    // Highest attention nodes should be kept
    assert!(pruned.contains(&1)); // score 0.9
    assert!(pruned.contains(&3)); // score 0.8
}

#[test]
fn test_node_precision() {
    let pruner = KvSearchPruner::new(0.5f32.to_bits(), 3);
    let attn = AttentionScores { scores: bits(&[0.1, 0.9, 0.3]), seq_len: 3 };
    assert_eq!(pruner.node_precision(1, &attn), "FP32"); // high attention
    assert_eq!(pruner.node_precision(0, &attn), "INT8"); // low attention
}

#[test]
fn test_selective_expand() {
    let pruner = KvSearchPruner::new(0.5f32.to_bits(), 10);
    let attn = AttentionScores { scores: bits(&[0.1, 0.9, 0.3, 0.8, 0.2]), seq_len: 5 };
    let frontier = vec![0, 1, 2, 3, 4];
    let expanded = pruner.selective_expand(&frontier, &attn, (0.5f32 * 0.5).to_bits());
    // Only high-attention nodes should be expanded
    assert!(expanded.contains(&1));
    assert!(expanded.contains(&3));
    assert!(!expanded.contains(&0)); // below threshold * 0.5
}

#[test]
fn test_gpu_caps_v100() {
    let caps = GpuCaps::v100();
    assert!(caps.supports(PrecisionLevel::Fp32));
    assert!(caps.supports(PrecisionLevel::Fp16));
    assert!(caps.supports(PrecisionLevel::Int8));
    assert!(!caps.supports(PrecisionLevel::Bf16));
    assert!(!caps.supports(PrecisionLevel::Fp8));
    assert_eq!(caps.supported_precisions().len(), 3);
}

#[test]
fn test_gpu_caps_ada() {
    let caps = GpuCaps::rtx4060();
    assert!(caps.supports(PrecisionLevel::Fp32));
    assert!(caps.supports(PrecisionLevel::Fp16));
    assert!(caps.supports(PrecisionLevel::Bf16));
    assert!(caps.supports(PrecisionLevel::Fp8));
    assert!(caps.supports(PrecisionLevel::Int8));
    assert_eq!(caps.supported_precisions().len(), 5);
}

fn distances(vectors: &[Vec<f32>]) -> Vec<Vec<u32>> {
    vectors
        .iter()
        .map(|a| {
            vectors
                .iter()
                .map(|b| {
                    let d: f32 = a.iter().zip(b).map(|(x, y)| (x - y) * (x - y)).sum();
                    d.sqrt().to_bits()
                })
                .collect()
        })
        .collect()
}

#[test]
fn test_graph_build() {
    let gpu = GpuCaps::rtx4060();
    let vectors = vec![
        vec![1.0, 0.0, 0.0],
        vec![0.0, 1.0, 0.0],
        vec![0.0, 0.0, 1.0],
        vec![0.9, 0.1, 0.0],
    ];
    let config = GraphConfig {
        k: 2,
        n: 4,
        dim: 3,
        seed_ratio: 0.5f64.to_bits(),
        outlier_ratio: 0.0f64.to_bits(),
        gpu_caps: Some(gpu),
    };
    let graph = MixedPrecisionBuilder::build(&distances(&vectors), config);
    assert_eq!(graph.edges.len(), 4);
    for edges in &graph.edges {
        assert!(edges.len() <= 2);
    }
    assert_eq!(graph.edges[0][0].to, 3);
}

#[test]
fn formats_are_assigned_by_tier() {
    let config = GraphConfig {
        k: 2,
        n: 10,
        dim: 3,
        seed_ratio: 0.1f64.to_bits(),
        outlier_ratio: 0.1f64.to_bits(),
        gpu_caps: Some(GpuCaps::rtx4090()),
    };
    let mut g = ApgcGraph::new(config);
    g.assign_precision();
    assert_eq!(g.precision_map.len(), 10);
    assert_eq!(g.precision_map[0], PrecisionLevel::Fp32);
    assert_eq!(g.precision_map[9], PrecisionLevel::Int8);
    let (a, b, c, d, e) = precision_counts(&vec![vec![
        edge(1, 0.5, PrecisionLevel::Fp32),
        edge(2, 0.5, PrecisionLevel::Fp16),
        edge(3, 0.5, PrecisionLevel::Int8),
        edge(4, 0.5, PrecisionLevel::Int8),
    ]]);
    assert_eq!((a, b, c, d, e), (1, 1, 0, 0, 2));
    assert_eq!(PrecisionLevel::Fp8.bytes(), 1);
    assert_eq!(PrecisionLevel::Bf16.name(), "BF16");
}

#[test]
fn tiers_begin_where_the_ratios_say() {
    for n in [0usize, 1, 7, 10, 29, 50, 99, 100, 101, 1_000, 12_345] {
        for (seeds, outliers) in [(0.0f64, 0.0f64), (0.01, 0.10), (0.29, 0.07), (1.0, 1.0), (f64::NAN, -0.5)] {
            let config = GraphConfig {
                k: 2,
                n,
                dim: 3,
                seed_ratio: seeds.to_bits(),
                outlier_ratio: outliers.to_bits(),
                gpu_caps: None,
            };
            let mut g = ApgcGraph::new(config);
            g.assign_precision();
            let seed_count = (n as f64 * seeds) as usize;
            let near = (n as f64 * 0.90) as usize;
            let last = n - (n as f64 * outliers) as usize;
            for i in 0..n {
                let want = if i < seed_count {
                    PrecisionLevel::Fp32
                } else if i < near {
                    PrecisionLevel::Bf16
                } else if i < last {
                    PrecisionLevel::Fp8
                } else {
                    PrecisionLevel::Int8
                };
                assert_eq!(g.precision_map[i], want, "{i} of {n} at {seeds} and {outliers}");
            }
        }
    }
    for ratio in [0.1f64, 0.7, 1.0, 1e-300, 5e-324, 1e300, f64::INFINITY, f64::NAN, -1.0] {
        for n in [0usize, 1, 3, 10, 1 << 40, usize::MAX] {
            assert_eq!(part_of(n, ratio.to_bits()), (n as f64 * ratio) as usize, "{ratio} of {n}");
        }
    }
}

#[test]
fn ratios_make_as_many_as_floats_do() {
    for n in [0usize, 1, 2, 3, 10, 29, 50, 100, 1_023, 4_096] {
        let scores: Vec<f32> = (0..n).map(|i| i as f32).collect();
        let delta = make_delta(&scores);
        for ratio in [0.0f32, -0.0, 1e-40, 0.01, 0.07, 0.29, 0.3, 0.58, 0.7, 0.875, 1.0] {
            let r = SelKV::evict(&delta, ratio.to_bits(), n);
            assert_eq!(r.evicted_indices.len(), (n as f32 * ratio) as usize, "{ratio} of {n}");
            let protected = n / 3;
            let d = DenseEvic::evict(&delta, ratio.to_bits(), protected);
            assert_eq!(d.evicted.len(), ((n - protected) as f32 * ratio) as usize);
        }
        for ratio in [f32::NAN, f32::INFINITY, -1.0, 0.0, 1e-45, 0.1, 0.3, 0.7, 1.0, 3.0] {
            let c = StateCompress::compress(n, 0.0f32.to_bits(), 0.5f32.to_bits(), ratio.to_bits());
            let want = ((n as f32 * ratio).ceil() as usize).max(1).min(n);
            assert_eq!(c.channels_kept, want, "{ratio} of {n}");
        }
    }
}

#[test]
fn heads_work_as_the_entropy_says() {
    for total in (0usize..200).chain([1_000]) {
        for (entropy, wanted) in [(0.0f32, 4.0f32), (0.5, 16.0), (1.5, 24.0)] {
            let ratio = wanted / total as f32;
            let want = ((total as f32 * ratio).ceil() as usize).max(1).min(total);
            let got = HeadDeactivate::gate(entropy.to_bits(), total).active_heads.len();
            assert_eq!(got, want, "{entropy} of {total}");
        }
        let want = ((total as f32 * 1.0).ceil() as usize).max(1).min(total);
        assert_eq!(HeadDeactivate::gate(2.5f32.to_bits(), total).active_heads.len(), want);
    }
    let many = HeadDeactivate::gate(2.5f32.to_bits(), 16_777_217);
    assert_eq!(many.active_heads.len(), 16_777_216);
}

#[test]
fn narrow_formats_cut_bits() {
    let x = 1.2345678f32;
    let half = f32::from_bits(MixedPrecisionBuilder::to_fp16_approx(x.to_bits()));
    let brain = f32::from_bits(MixedPrecisionBuilder::to_bf16_approx(x.to_bits()));
    let eighth = f32::from_bits(MixedPrecisionBuilder::to_fp8_approx(x.to_bits()));
    assert!((half - x).abs() < 0.002 && half != x);
    assert!((brain - x).abs() < 0.01 && brain != x);
    assert!((eighth - x).abs() < 0.3);
    assert_eq!(MixedPrecisionBuilder::to_bf16_approx(1.0f32.to_bits()), 1.0f32.to_bits());
}

/// The Shannon entropy of a signal.
fn entropy(scores: &[f32]) -> f32 {
    let sum: f32 = scores.iter().sum();
    if sum <= 0.0 {
        return 0.0;
    }
    scores.iter().map(|s| if *s > 0.0 { -(s / sum) * (s / sum).ln() } else { 0.0 }).sum()
}

fn make_delta(scores: &[f32]) -> DeltaSignal {
    DeltaSignal { scores: bits(scores), source: SignalSource::ProxyDelta, seq_len: scores.len() }
}

#[test]
fn test_selkv_evict() {
    let delta = make_delta(&[0.1, 0.9, 0.5, 0.3, 0.7, 0.2, 0.8, 0.4]);
    let result = SelKV::evict(&delta, 0.5f32.to_bits(), 8);
    assert_eq!(result.evicted_indices.len(), 4);
    assert_eq!(result.retained_indices.len(), 4);
    let savings = result.evicted_indices.len() as f32 / 8.0;
    assert!((savings - 0.5).abs() < 1e-6);
    assert!(result.evicted_indices.contains(&0) && result.evicted_indices.contains(&5));
}

#[test]
fn test_smsa_window() {
    let scores = [0.9f32, 0.1, 0.1, 0.1];
    let mean = scores.iter().sum::<f32>() / 4.0;
    let scale: f32 = if mean > 0.01 { 1.0 / (1.0 + mean) } else { 2.0 };
    let window = Smsa::adaptive_window(scale.to_bits(), 64);
    assert!(window <= 64);
    assert_eq!(window, 49);
    assert_eq!(Smsa::adaptive_window(scale.to_bits(), 0), 1);
    assert_eq!(Smsa::adaptive_window(2.0f32.to_bits(), 64), 128);
}

#[test]
fn test_delta_ar_route() {
    let delta = make_delta(&[0.1, 0.9, 0.5, 0.3, 0.8]);
    let routed = DeltaAR::route(&delta, 2);
    assert_eq!(routed.len(), 2);
    assert_eq!(routed, vec![1, 4]);
}

#[test]
fn test_head_deactivate() {
    let low = entropy(&[0.1]);
    assert_eq!(low, 0.0);
    let active = HeadDeactivate::wanted(low.to_bits()).unwrap_or(32);
    let result = HeadDeactivate::gate(low.to_bits(), 32);
    assert!(result.active_heads.len() < 32);
    let flop_reduction = 1.0 - active as f64 / 32.0;
    assert!(flop_reduction > 0.0);
    assert_eq!(result.deactivated_heads.len(), (32.0 * flop_reduction) as usize);
    assert_eq!(result.active_heads.len() + result.deactivated_heads.len(), 32);
}

#[test]
fn test_state_compress() {
    let result =
        StateCompress::compress(1024, 0.01f32.to_bits(), 0.5f32.to_bits(), 0.5f32.to_bits());
    assert_eq!(result.channels_kept, 512);
    assert_eq!(result.channels_zeroed, 512);
}

#[test]
fn test_dense_evic() {
    let delta = make_delta(&[0.1, 0.9, 0.5, 0.3, 0.7]);
    let result = DenseEvic::evict(&delta, 0.5f32.to_bits(), 1);
    assert_eq!(result.protected_boundary, 1);
    assert!(!result.evicted.contains(&4));
}

#[test]
fn test_delta_rank() {
    assert_eq!(DeltaRank::score_to_rank(0.05f32.to_bits(), 128), 16);
    assert_eq!(DeltaRank::score_to_rank(0.20f32.to_bits(), 128), 32);
    assert_eq!(DeltaRank::score_to_rank(0.50f32.to_bits(), 128), 64);
    assert_eq!(DeltaRank::score_to_rank(0.80f32.to_bits(), 128), 128);
}

#[test]
fn test_top_k() {
    let delta = make_delta(&[0.1, 0.9, 0.5, 0.3]);
    let top2 = delta.top_k(2);
    assert_eq!(top2, vec![1, 2]);
}

#[test]
fn test_bottom_percent() {
    let delta = make_delta(&[0.1, 0.9, 0.5, 0.3]);
    let bottom = delta.bottom_percent(0.5f32.to_bits());
    assert_eq!(bottom.len(), 2);
    assert!(bottom.contains(&0) && bottom.contains(&3));
}

#[test]
fn test_ebar_budget() {
    let budget_at = |entropy: f32, before: f32, base: f32, sensitivity: f32| -> f32 {
        let scaled = base * (1.0 + sensitivity * (entropy - before));
        let low = 0.1 * base;
        f32::from_bits(Ebar::compute_budget(scaled.to_bits(), low.to_bits(), base.to_bits()))
    };
    let budget = budget_at(0.1, 0.5, 1.0, 0.5);
    assert!(budget < 1.0); // low entropy → reduced budget
    assert_eq!(budget, 0.8);
    let budget2 = budget_at(2.0, 0.5, 1.0, 0.5);
    assert!(budget2 >= 1.0); // high entropy → full budget (clamped)
    assert_eq!(budget_at(0.0, 4.0, 1.0, 0.5), 0.1);
}

#[test]
fn weak_signals_fall_back() {
    assert!(Ipss::should_fallback(0.1f32.to_bits(), 0.5f32.to_bits()));
    assert!(!Ipss::should_fallback(0.5f32.to_bits(), 0.5f32.to_bits()));
    assert!(!Ipss::should_fallback(f32::NAN.to_bits(), 0.5f32.to_bits()));
}

#[test]
fn numbers_are_ordered_by_their_bits() {
    let v = bits(&[0.0, -1.5, 2.0, -0.0, 2.0]);
    assert_eq!(lowest(&v, 3), vec![1, 0, 3]);
    assert_eq!(highest(&v, 3), vec![2, 4, 0]);
    assert_eq!(sort_places(&vec![3, 1, 2, 1]), vec![1, 3, 2, 0]);
}

fn engine_vectors() -> Vec<Vec<f32>> {
    vec![
        vec![1.0, 0.0, 0.0],
        vec![0.0, 1.0, 0.0],
        vec![0.0, 0.0, 1.0],
        vec![0.9, 0.1, 0.0],
        vec![0.1, 0.9, 0.0],
        vec![0.0, 0.1, 0.9],
    ]
}

/// How far each hidden state has drifted from the one before.
fn drift(states: &[Vec<f32>]) -> Vec<f32> {
    if states.len() < 2 {
        return vec![0.0; states.len()];
    }
    let scale = 1.0 / (states[0].len() as f32).sqrt();
    let mut out = vec![0.0f32];
    for w in states.windows(2) {
        let ssd: f32 = w[1].iter().zip(&w[0]).map(|(a, b)| (a - b) * (a - b)).sum();
        out.push((ssd * scale).sqrt());
    }
    out
}

fn measures(scores: &[f32]) -> Measures {
    let mean = scores.iter().sum::<f32>() / scores.len().max(1) as f32;
    Measures { entropy: entropy(scores).to_bits(), mean: mean.to_bits() }
}

#[test]
fn test_engine_build_and_search() {
    let config = EngineConfig {
        arch: ArchType::Dense,
        graph_k: 4,
        graph_seed_ratio: 0.25f64.to_bits(),
        graph_outlier_ratio: 0.0f64.to_bits(),
        ..EngineConfig::default()
    };
    let mut engine = Engine::new(config);

    let vectors = engine_vectors();
    engine.build_graph(&distances(&vectors), 3);

    let hidden_states =
        vec![vec![0.1, 0.2, 0.3], vec![0.2, 0.3, 0.4], vec![0.5, 0.6, 0.7]];
    let scores = drift(&hidden_states);
    let result = engine.search(&make_delta(&scores), measures(&scores), 3);

    assert!(result.top_k.len() <= 3);
    assert!(result.active_heads > 0);
    assert!(result.rank > 0);
    println!("Search result: {:?}", result);
}

#[test]
fn test_engine_full_pipeline() {
    let mut engine = Engine::new(EngineConfig::default());
    let vectors: Vec<Vec<f32>> =
        (0..20).map(|i| vec![i as f32 * 0.1, (20 - i) as f32 * 0.1, 0.5]).collect();
    engine.build_graph(&distances(&vectors), 3);

    let hs = vec![vec![0.1, 0.2, 0.3]; 10];
    let scores = drift(&hs);
    let result = engine.search(&make_delta(&scores), measures(&scores), 5);
    assert!(!result.top_k.is_empty());
}

#[test]
fn larger_devices_support_more() {
    assert!(GpuCaps::a100().supports(PrecisionLevel::Bf16));
    assert!(!GpuCaps::a100().supports(PrecisionLevel::Fp8));
    assert!(GpuCaps::h100().supports(PrecisionLevel::Fp8));
    assert!(PrecisionLevel::Fp16.needs_tensor_cores());
    assert!(!PrecisionLevel::Int8.needs_tensor_cores());
}

#[test]
fn merged_rows_take_edges_in_turn() {
    let row = |ids: &[usize]| -> Vec<Edge> {
        ids.iter().map(|t| edge(*t, 0.1, PrecisionLevel::Fp32)).collect()
    };
    let ids = |r: &Vec<Edge>| -> Vec<usize> { r.iter().map(|e| e.to).collect() };
    let g1 = vec![row(&[1, 2, 3]), row(&[7])];
    let g2 = vec![row(&[4, 5, 6]), row(&[8, 9]), row(&[1, 2, 3])];
    let merged = merge_graphs(&g1, &g2, 5);
    assert_eq!(merged.iter().map(ids).collect::<Vec<_>>(), vec![
        vec![1, 4, 2, 5],
        vec![7, 8, 9],
        vec![1, 2]
    ]);
    assert!(merge_graphs(&g1, &g2, 1).iter().all(|r| r.is_empty()));
    assert_eq!(merge_graphs(&g1, &g2, usize::MAX)[0].len(), 6);
}
