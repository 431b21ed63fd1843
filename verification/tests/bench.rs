//! What the benchmarks plan, count and report.
use dbstrike::bench_checks::{
    chaos_key, count_lost, faceoff_checks, far_document, filtered_checks, first_key,
    gpu_bench_plan, hits_agree, hits_keep_up, hits_near, hybrid_checks, reaches_percent, recovers,
    Chaos, FaceoffFigures, FaceoffTexts, FilteredFigures, HybridFigures,
};
use dbstrike::bench_demands::{
    adaptive_checks, calibration_queries, compared_queries, contention_check, ingest_checks,
    learned_checks, merge_checks, million_checks, real_checks, recall_queries, scale_checks,
    shard_checks,
    throughput_checks, tiered_checks, truth_queries, unified_check, vector_checks, xlarge_checks,
    ycsb_checks, Rate, Share, Speed,
};
use dbstrike::bench_plan::{
    check_paths, exit_code, mode_runs, plan, push_received, quick_layout,
    quick_mode, reply_missing, same_ids, Run, Section, WirePaths,
};
use dbstrike::bench_report::{
    batch_label, count_checks, ingest_failure, log_tail, mem_available_mb, memory_guard, projected_peak_mb,
    rss_line, rss_mb, scratch_dir, scratch_path, section, Check, Tally,
};
use dbstrike::dataset::{load_fbin, load_rows, FbinError};
use dbstrike::gpu_mode::{ComputeMode, Gpu};
use dbstrike::rounding::{within_factor, DOUBLE, SINGLE};
use dbstrike::stats::{
    latency_report, mean, pctl, sort_samples, spread, spread_by_position, tail_sample, Spread,
};
use dbstrike::truth::{
    all_pass, bag_of_words, category, coverage, exact_top, filtered_truth, hit_count,
    matching_count, nearest_rows, overlap, top_ids, wire_category, Filter,
};
use dbstrike::workload::{
    batch_size, client_query, client_share, cluster_seeds, id_ranges, ingest_stages,
    next_op, op_commands, pick_op, query_row, recall_workers, record_key,
    vector_draws, workload_rng, KvOp, Mix, XRng,
};

fn floats(v: &[f32]) -> Vec<u32> {
    v.iter().map(|x| x.to_bits()).collect()
}

fn strs(parts: &[&str]) -> Vec<String> {
    parts.iter().map(|p| p.to_string()).collect()
}

#[test]
fn percentiles_match_their_definition() {
    for n in 1usize..260 {
        let s: Vec<u64> = (0..n).map(|i| ((i * 7919) % 1009) as u64).collect();
        let mut sorted = s.clone();
        sorted.sort_unstable();
        assert_eq!(sort_samples(&s), sorted);
        for p in 0u64..=100 {
            let k = ((p as f64 / 100.0) * (n as f64 - 1.0)).round() as usize;
            assert_eq!(pctl(&s, p), sorted[k.min(n - 1)]);
        }
        assert_eq!(tail_sample(&s), sorted[(n * 99 / 100).min(n - 1)]);
    }
    assert_eq!(pctl(&vec![], 99), 0);
}

#[test]
fn spreads_are_reported() {
    let s: Vec<u64> = vec![5, 1, 9, 3];
    assert_eq!(spread(&s), Some(Spread { n: 4, p50: 5, p90: 9, p99: 9, max: 9 }));
    assert_eq!(spread_by_position(&s), Some(Spread { n: 4, p50: 5, p90: 9, p99: 9, max: 9 }));
    assert_eq!(spread(&vec![]), None);
    assert_eq!(mean(&s), 4);
    assert_eq!(
        latency_report("GET", &s),
        Some(format!(
            "  {:<28} n={:<6} p50={:>7} µs  p90={:>7} µs  p99={:>7} µs  max={:>7} µs",
            "GET", 4, 5, 9, 9, 9
        ))
    );
}

#[test]
fn checks_are_counted() {
    let mut t = Tally::new();
    assert_eq!(t.check("a", true, ""), "  \x1b[32mPASS\x1b[0m  a");
    assert_eq!(t.exit_code(), 0);
    assert_eq!(t.check("b", false, "why"), "  \x1b[31mFAIL\x1b[0m  b  (why)");
    assert_eq!((t.passed, t.failed, t.exit_code()), (1, 1, 1));
    assert_eq!(t.results("1.5"), "  1 passed, 1 failed  (in 1.5s)");
    assert_eq!(exit_code(Run::Suite, &t), 1);
    assert_eq!(exit_code(Run::GpuOnly, &t), 0);
    assert_eq!(section("x"), "\n\x1b[1m=== x ===\x1b[0m");
}

#[test]
fn memory_is_guarded() {
    assert_eq!(projected_peak_mb(100_000, 384), 192 + 781 + 153);
    assert_eq!(rss_mb("VmRSS:  10240 kB\n"), Some(10));
    assert_eq!(mem_available_mb("MemFree: 1 kB\nMemAvailable: 4096 kB"), Some(4));
    assert_eq!(rss_line("x", 3), "  \x1b[90mRSS[x] = 3 MB\x1b[0m");
    let need = (192 + 781 + 153) * 13 / 10;
    assert!(memory_guard(100_000, 384, "w", Some(need), false).go);
    let refused = memory_guard(100_000, 384, "w", Some(need - 1), false);
    assert!(!refused.go);
    assert_eq!(refused.lines.len(), 2);
    assert!(refused.lines[0].contains("SKIPPED: w projects ~1463 MB peak but only 1462 MB"));
    let forced = memory_guard(100_000, 384, "w", Some(1), true);
    assert!(forced.go && forced.lines[0].contains("OVERRIDDEN"));
    let unknown = memory_guard(100_000, 384, "w", None, false);
    assert!(unknown.go && unknown.lines.is_empty());
}

#[test]
fn scratch_files_and_logs() {
    assert_eq!(scratch_dir(None), "bench-out/scratch");
    assert_eq!(scratch_path("out", "s13_1", "wal"), "out/dbstrike_s13_1.wal");
    assert_eq!(scratch_path("out/", "a", "log"), "out/dbstrike_a.log");
    assert_eq!(log_tail("a\nb\nc\n", 2), "b\nc");
    assert_eq!(log_tail("a", 5), "a");
    assert_eq!(
        batch_label(1, &vec![5, 6, 7], 384, 99),
        "client 1: VADDBATCH ids 5..=7 (3 vecs × 384d, 99 bytes)"
    );
    assert!(ingest_failure(1, 2, &vec![], "d").is_empty());
    let lines = ingest_failure(1, 9, &strs(&["e1", "e2", "e3", "e4", "e5"]), "d");
    assert_eq!(lines.len(), 7);
    assert_eq!(lines[0], "  \x1b[31mingest FAILED after 1/9 vectors:\x1b[0m");
    assert_eq!(lines[4], "    e4");
    assert_eq!(lines[5], "    ... and 1 more");
    assert_eq!(lines[6], "    (server log: d/dbstrike_server_*.log)");
}

#[test]
fn draws_are_deterministic() {
    let mut r = XRng::new(0);
    assert_eq!(r.state, 1);
    let mut s = 1u64;
    for _ in 0..100 {
        s ^= s << 13;
        s ^= s >> 7;
        s ^= s << 17;
        assert_eq!(r.next(), s);
        assert_ne!(s, 0);
    }
    assert!(r.range(10) < 10);
    assert!(r.ratio_parts() < 1 << 53);
    let mut t = 42u64.wrapping_mul(0x9E3779B97F4A7C15).wrapping_add(1);
    let want: Vec<u64> = (0..5)
        .map(|_| {
            t ^= t << 13;
            t ^= t >> 7;
            t ^= t << 17;
            t >> 40
        })
        .collect();
    assert_eq!(vector_draws(42, 5), want);
    assert_eq!(
        cluster_seeds(u64::MAX, 10),
        ((u64::MAX % 10) * 0xDEADBEEF, u64::MAX.wrapping_mul(0xCAFEBABE))
    );
}

#[test]
fn a_mix_splits_the_draws() {
    let whole = 1u64 << 53;
    let a = Mix { read: whole / 2, modify: 0 };
    assert_eq!(pick_op(&a, whole / 2 - 1), KvOp::Read);
    assert_eq!(pick_op(&a, whole / 2), KvOp::Write);
    let f = Mix { read: whole / 2, modify: whole / 2 };
    assert_eq!(pick_op(&f, whole - 1), KvOp::ReadModifyWrite);
    // 95 reads in a hundred, as the same number in floating point decides.
    let b = Mix { read: (0.95f64 * whole as f64) as u64, modify: 0 };
    for roll in [b.read - 1, b.read] {
        let float = (roll as f64 / whole as f64) < 0.95;
        assert_eq!(pick_op(&b, roll) == KvOp::Read, float);
    }
    let mut rng = workload_rng(b'Y');
    let (id, _) = next_op(&mut rng, 100, &a);
    assert!(id < 100);
    assert_eq!(record_key(7), "ycsb:7");
    assert_eq!(op_commands(KvOp::ReadModifyWrite), (true, true));
    assert_eq!(op_commands(KvOp::Read), (true, false));
}

#[test]
fn ids_are_dealt_out_once() {
    let mut seen = vec![0; 10];
    for tid in 0..4 {
        let (lo, hi) = client_share(100, 10, 4, tid);
        for i in lo..hi {
            seen[(i - 100) as usize] += 1;
        }
    }
    assert_eq!(seen, vec![1; 10]);
    assert_eq!(id_ranges(3, 10, 3), vec![(3, 6), (6, 9), (9, 10)]);
    assert_eq!(id_ranges(5, 5, 3), vec![]);
    assert_eq!(ingest_stages(11), vec![(0, 3), (3, 6), (6, 9), (9, 11)]);
    assert_eq!(batch_size(Some("256"), 64), 256);
    assert_eq!(batch_size(Some("0"), 64), 64);
    assert_eq!(batch_size(None, 64), 64);
    assert_eq!(query_row(3, 7919, 0, 1000), 757);
    assert_eq!(query_row(3, 7, 3, 10), 4);
    assert_eq!(client_query(2, 5), 200_005);
    assert_eq!((recall_workers(0), recall_workers(3), recall_workers(200)), (1, 3, 8));
}

fn fbin(n: u32, dim: u32, data: &[f32]) -> Vec<u8> {
    let mut b = n.to_le_bytes().to_vec();
    b.extend_from_slice(&dim.to_le_bytes());
    for x in data {
        b.extend_from_slice(&x.to_le_bytes());
    }
    b
}

#[test]
fn vector_files_are_read() {
    let d = load_fbin(&fbin(2, 3, &[1.0, 2.0, 3.0, -4.0, 5.0, 6.5])).unwrap();
    assert_eq!((d.n, d.dim), (2, 3));
    assert_eq!(d.row(1), floats(&[-4.0, 5.0, 6.5]));
    assert_eq!(load_fbin(&[1, 2, 3]), Err(FbinError::Short));
    assert_eq!(load_fbin(&fbin(2, 3, &[1.0])), Err(FbinError::RowCount));
    assert_eq!(load_rows(&fbin(2, 3, &[1.0])), Err(FbinError::Short));
    assert_eq!(load_rows(&fbin(1, 1, &[1.0, 2.0])).unwrap().data, floats(&[1.0]));
}

#[test]
fn the_best_scores_stay() {
    let scores: Vec<f32> = vec![0.1, 0.9, 0.5, 0.9, -0.2, 0.7];
    let top = exact_top(&floats(&scores), 3);
    assert_eq!(top_ids(&top), vec![3, 1, 5]);
    let few = exact_top(&floats(&scores[..2]), 3);
    assert_eq!(top_ids(&few), vec![1, 0]);
    assert_eq!(nearest_rows(&floats(&scores), 2), vec![4, 0]);
}

#[test]
fn recall_is_counted() {
    let truth = vec![1, 2, 3];
    assert_eq!(hit_count(&vec![3, 9, 1, 2], &truth, 3), 2);
    assert_eq!(hit_count(&truth, &truth, 10), 3);
    assert_eq!(overlap(&vec![1, 1, 2, 7], &truth), 2);
    assert_eq!(coverage(&vec![1, 2, 3], &vec![2, 4, 5], &vec![1, 2, 4], 2), (3, 3));
    assert_eq!(coverage(&vec![1, 2, 3], &vec![2, 4, 5], &vec![1], 2), (3, 1));
}

#[test]
fn filters_keep_their_categories() {
    let cats: Vec<u32> = (0..50).map(category).collect();
    assert_eq!(cats[39], 0);
    assert_eq!(cats[41], 1 + 41 % 7);
    let rare = Filter::Eq(0);
    assert_eq!(matching_count(&rare, &cats), 40);
    assert_eq!(matching_count(&Filter::Any, &cats), 50);
    assert_eq!(matching_count(&Filter::In(vec![6, 7]), &cats), 4);
    let dists: Vec<f32> = (0..50).map(|i| (i as f32 - 41.0).abs()).collect();
    let near = filtered_truth(&rare, &cats, &floats(&dists), 2);
    assert_eq!(near, vec![39, 38]);
    assert!(all_pass(&rare, &cats, &near));
    assert!(!all_pass(&rare, &cats, &vec![41]));
}

#[test]
fn strong_components_are_words() {
    let bag = bag_of_words(&floats(&[0.1, -0.9, 0.5]), 2);
    assert_eq!(bag, vec![(1, 0.9f32.to_bits()), (2, 0.5f32.to_bits())]);
    assert_eq!(wire_category(&vec![(13, 0)]), 5);
}

#[test]
fn arguments_choose_the_sections() {
    let (run, steps) = plan(&strs(&["bench"]));
    assert_eq!(run, Run::Suite);
    assert_eq!(steps.len(), 19);
    assert_eq!(steps[0].section, Section::Storage);
    assert_eq!(steps[18].section, Section::XLargeSkipped);
    let (run, steps) = plan(&strs(&["bench", "--real", "f.fbin", "--only"]));
    assert_eq!((run, steps.len()), (Run::RealOnly, 1));
    assert_eq!(steps[0].target, Some("f.fbin".to_string()));
    let (_, steps) = plan(&strs(&["bench", "--tcp", "h:1", "--real", "f", "--qdrant"]));
    assert_eq!(steps[14].section, Section::PubSub);
    assert_eq!(steps[19].section, Section::RealDataset);
    assert_eq!(steps[20].section, Section::Adaptive);
    assert_eq!(steps[22].section, Section::ParallelBuild);
    assert_eq!(plan(&strs(&["bench", "--wire-qps"])).0, Run::WireOnly);
    assert_eq!(plan(&strs(&["bench", "--gpu-bench", "f"])).0, Run::GpuOnly);
    assert_eq!(plan(&strs(&["bench", "--memprobe", "f"])).0, Run::ProbeOnly);
    assert_eq!(plan(&strs(&["bench", "--ingest-profile", "f"])).0, Run::ProfileOnly);
}

#[test]
fn quick_runs_are_laid_out() {
    let l = quick_layout(1000, 8, None);
    assert_eq!((l.queries, l.recall, l.chunk, l.per_thread), (200, 200, 25, 125));
    let l = quick_layout(50, 16, Some("17"));
    assert_eq!((l.queries, l.recall, l.chunk, l.per_thread), (50, 17, 2, 62));
    let mut g = Gpu::new();
    assert_eq!(
        quick_mode(&mut g, None, None, None, "turbo", 1000, 8),
        (ComputeMode::CpuOnly, true)
    );
    assert_eq!(
        quick_mode(&mut g, None, None, None, "hybrid", 1000, 8),
        (ComputeMode::Hybrid, false)
    );
    assert!(mode_runs(ComputeMode::CpuOnly, false) && !mode_runs(ComputeMode::Turbo, false));
}

#[test]
fn every_way_into_the_index_is_checked() {
    let mut t = Tally::new();
    let p = WirePaths {
        plain: vec![1, 2],
        filtered: vec![3],
        learned: vec![1, 2],
        hybrid: vec![1],
        other: vec![3, 3],
    };
    let lines = check_paths(&mut t, &p, 2, 4);
    assert_eq!((t.passed, t.failed), (3, 2));
    assert_eq!(lines[3], "  \x1b[31mFAIL\x1b[0m  MODULE6 hybrid path returns k results  (n=1)");
    assert!(lines[4].contains("(f4_n=1 f5_n=2)"));
    assert!(same_ids(&vec![1, 2], &vec![2, 1, 1]) && !same_ids(&vec![1], &vec![]));
    assert!(reply_missing(b"$-1") && !reply_missing(b"$1") && !reply_missing(b"+OK"));
}

#[test]
fn a_push_is_told_by_its_three_parts() {
    let parts = vec![b"message".to_vec(), b"news".to_vec(), b"hello".to_vec()];
    assert!(push_received(&parts, b"news", b"hello"));
    assert!(!push_received(&parts, b"news", b"bye"));
    assert!(!push_received(&parts[..2].to_vec(), b"news", b"hello"));
}

#[test]
fn shares_are_compared_as_fractions_are() {
    for asked in (1u64..600).step_by(3) {
        for hits in 0..=asked {
            for (percent, bar) in [(70, 0.7f64), (80, 0.8), (85, 0.85), (90, 0.9)] {
                assert_eq!(
                    reaches_percent(hits, asked, percent, DOUBLE),
                    hits as f64 / asked as f64 >= bar,
                    "{hits}/{asked}"
                );
            }
            for (percent, bar) in [(90, 0.90f32), (95, 0.95), (98, 0.98)] {
                assert_eq!(
                    reaches_percent(hits, asked, percent, SINGLE),
                    hits as f32 / asked as f32 >= bar,
                    "{hits}/{asked}"
                );
            }
        }
    }
    assert!(!reaches_percent(0, 0, 90, DOUBLE));
    // Counts beyond the significant bits.
    for (hits, asked) in [(u64::MAX, u64::MAX), (1, u64::MAX), (16_777_217, 16_777_219), (7, 2)] {
        assert_eq!(
            reaches_percent(hits, asked, 98, SINGLE),
            hits as f32 / asked as f32 >= 0.98
        );
        assert_eq!(
            reaches_percent(hits, asked, 98, DOUBLE),
            hits as f64 / asked as f64 >= 0.98
        );
    }
}

#[test]
fn differences_of_shares_are_rounded_as_fractions_are() {
    // Two hundredths behind, and yet the difference is a little more.
    assert!(!hits_keep_up(450, 500, 460, 500, 20, SINGLE));
    for asked in [10u64, 50, 100, 333, 500, 1000] {
        for hits in (0..=asked).step_by(3) {
            for other in (0..=asked).step_by(2) {
                let (a, b) = (hits as f32 / asked as f32, other as f32 / asked as f32);
                for (t, room) in [(1u64, 1e-3f32), (10, 0.01), (20, 0.02), (30, 0.03)] {
                    assert_eq!(
                        hits_keep_up(hits, asked, other, asked, t, SINGLE),
                        a >= b - room,
                        "{hits} {other} {asked} {t}"
                    );
                }
                assert_eq!(
                    hits_agree(hits, asked, other, asked, 10, SINGLE),
                    (a - b).abs() <= 0.01
                );
                let (a, b) = (hits as f64 / asked as f64, other as f64 / asked as f64);
                assert_eq!(
                    hits_near(hits, asked, other, asked, 20, DOUBLE),
                    (a - b).abs() < 0.02
                );
            }
        }
    }
    assert!(!hits_keep_up(0, 0, 0, 5, 20, SINGLE) && !hits_keep_up(5, 5, 0, 0, 20, SINGLE));
    assert!(hits_near(1, u64::MAX, 0, 3, 20, DOUBLE));
}

#[test]
fn factors_are_rounded_as_fractions_are() {
    for a in (0u64..3000).chain([u64::MAX / 3, u64::MAX, 1 << 53, (1 << 53) + 1]) {
        let top = (a as f64 * 1.05) as u64;
        for b in [top.saturating_sub(1), top, top.saturating_add(1), a] {
            assert_eq!(within_factor(b, a, 105, 100, DOUBLE), b as f64 <= a as f64 * 1.05, "{a} {b}");
        }
    }
}

#[test]
fn the_filtered_section_checks_both_routes() {
    let f = FilteredFigures {
        queries: 50,
        k: 10,
        rare_rows: 40,
        rare_hits: 500,
        routed: 50,
        common_rows: 700,
        common_hits: 449,
        naive_hits: 459,
        plain: 10,
        filtered: 10,
        all_rare: true,
    };
    let mut t = Tally::new();
    let lines = count_checks(&mut t, &filtered_checks(f, "1.000", "0.898", "0.900"));
    assert_eq!((t.passed, t.failed), (4, 1));
    assert!(lines[1].ends_with("MODULE4 rare-filter returns a result (routed)  (50/50)"));
    assert!(lines[2].contains("FAIL") && lines[2].ends_with("(recall=0.898 n=700)"));
    let none = FilteredFigures { routed: 0, rare_hits: 0, filtered: 0, ..f };
    let verdicts: Vec<bool> =
        filtered_checks(none, "0.000", "0.898", "0.900").iter().map(|c| c.ok).collect();
    assert_eq!(verdicts, vec![false, false, false, true, false]);
    let behind = FilteredFigures { naive_hits: 460, ..f };
    assert!(!filtered_checks(behind, "", "", "")[3].ok);
}

#[test]
fn the_hybrid_section_checks_the_fusion() {
    let f = HybridFigures {
        trials: 40,
        recovered: 3,
        probe: 500,
        hybrid_top: Some(500),
        dense_top: Some(500),
        either: 800,
        covered: 784,
    };
    let checks = hybrid_checks(f, "hybrid_top=500 dense_top=500", "0.980");
    assert!(checks.iter().all(|c| c.ok));
    assert_eq!(checks[0].detail, "recovered=3/40");
    let worse = HybridFigures { recovered: 0, dense_top: None, covered: 783, ..f };
    assert!(hybrid_checks(worse, "", "0.979").iter().all(|c| !c.ok));
    assert!(recovers(7, &vec![1, 2], &vec![2, 7]) && !recovers(2, &vec![1, 2], &vec![2, 7]));
    assert_eq!(far_document(900, 1000), 233);
}

#[test]
fn the_formats_are_held_to_their_shares() {
    let f = FaceoffFigures {
        asked: 2000,
        int8_hits: 1800,
        turbo4_hits: 1699,
        turbo2_hits: 1600,
        turbo1_hits: 1400,
        int8_p99_ns: 4_999_999,
        binary_smaller: true,
        binary2_smaller: true,
        turbo4_smaller: false,
    };
    let t = FaceoffTexts {
        int8: "0.900".into(),
        turbo4: "0.850".into(),
        turbo2: "0.800".into(),
        turbo1: "0.700".into(),
        p99: "5000".into(),
        int8_bytes: "768.0".into(),
        binary_bytes: "96.0".into(),
        binary2_bytes: "192.0".into(),
        turbo4_bytes: "768.0".into(),
    };
    let checks = faceoff_checks(f, &t);
    let verdicts: Vec<bool> = checks.iter().map(|c| c.ok).collect();
    assert_eq!(verdicts, vec![true, true, false, true, true, true, false, true]);
    assert_eq!(checks[1].detail, "p99=5000µs");
    assert_eq!(checks[5].detail, "b2=192.0B i8=768.0B");
    assert!(!faceoff_checks(FaceoffFigures { int8_p99_ns: 5_000_000, ..f }, &t)[1].ok);
}

#[test]
fn acknowledged_writes_are_counted_over_rounds() {
    assert_eq!(first_key(3), 300_000);
    assert_eq!(chaos_key(300_007), "chaos:300007");
    let headers = vec![b"$1".to_vec(), b"$-1".to_vec(), b"-ERR".to_vec(), b"$ -1 ".to_vec()];
    assert_eq!(count_lost(&headers), 2);
    let mut c = Chaos::new();
    let line = c.round(0, 120, 0);
    assert_eq!(line, "  iter  0: wrote   120 acked · after kill+reopen: 0 lost");
    assert!(c.check().ok);
    c.round(100_000, 100_005, 2);
    assert_eq!(c, Chaos { rounds: 2, verified: 125, lost: 2 });
    assert!(!c.check().ok);
    assert_eq!(c.check().detail, "lost 2 / 125");
    assert_eq!(c.closing(), "  ── 2 chaos iterations · 125 acked writes verified · 2 lost ──");
}

#[test]
fn the_accelerator_section_fits_the_corpus() {
    let p = gpu_bench_plan(1_000_000, 16);
    assert_eq!((p.queries, p.probes, p.batch), (200, 200, 200));
    assert_eq!((p.concurrent, p.batched), (16 * 20 * 200, 20 * 200));
    let p = gpu_bench_plan(1500, 4);
    assert_eq!((p.queries, p.probes, p.batch), (1500, 200, 256));
    assert_eq!(gpu_bench_plan(3, 4).batch, 3);
}

fn speed(count: u64, nanos: u64) -> Speed {
    Speed { rate: Rate { count, nanos }, text: "7".to_string() }
}

fn part(hits: u64, asked: u64) -> Share {
    Share { hits, asked, text: "0.9".to_string() }
}

fn outcomes(checks: &[Check]) -> Vec<bool> {
    checks.iter().map(|c| c.ok).collect()
}

#[test]
fn rates_are_held_against_a_bar() {
    let second = 1_000_000_000;
    assert!(!Rate { count: 200, nanos: second }.exceeds(200));
    assert!(Rate { count: 201, nanos: second }.exceeds(200));
    assert!(Rate { count: 200, nanos: second - 1 }.exceeds(200));
    assert!(!Rate { count: 0, nanos: 0 }.exceeds(0));
    assert!(Rate { count: u64::MAX, nanos: 1 }.exceeds(u64::MAX));
    // More work in less time passes a lower bar.
    assert!(Rate { count: 300, nanos: second / 2 }.exceeds(100));
    assert!(!Rate { count: 0, nanos: 0 }.reaches(0));
    assert!(Rate { count: 0, nanos: 1 }.reaches(0));
    assert!(Rate { count: 1, nanos: 0 }.reaches(u64::MAX));
}

#[test]
fn rates_round_as_floats_do() {
    let agree = |count: u64, nanos: u64, bar: u64| {
        let dt = std::time::Duration::from_nanos(nanos).as_secs_f64();
        let rate = count as f64 / dt;
        let r = Rate { count, nanos };
        assert_eq!(r.exceeds(bar), rate > bar as f64, "{count} in {nanos} against {bar}");
        assert_eq!(r.reaches(bar), rate >= bar as f64, "{count} in {nanos} against {bar}");
    };
    for bar in [200u64, 400, 500, 1_000, 2_000, 3_000, 5_000, 8_000, 13_000, 15_000, 30_000] {
        for count in 1u64..400 {
            let nanos = count * 1_000_000_000 / bar;
            for d in [nanos - 1, nanos, nanos + 1] {
                agree(count, d, bar);
            }
        }
    }
    for (count, nanos) in [(u64::MAX, u64::MAX), (u64::MAX, 1), (1, u64::MAX), (1, 1), (0, 7)] {
        for bar in [0, 1, 18_446_744_073, 1_000_000_000, u64::MAX] {
            agree(count, nanos, bar);
        }
    }
}

#[test]
fn a_build_in_shards_is_faster_by_three_tenths() {
    let faster = |serial: u64, parallel: u64| {
        merge_checks(serial, parallel, "1", 4, &part(9, 10), &part(9, 10))[0].ok
    };
    for parallel in 0u64..500 {
        for serial in [parallel * 13 / 10, parallel * 13 / 10 + 1, parallel * 2] {
            for unit in [1u64, 1_000, 1_000_000, 1_000_000_007] {
                let (s, p) = (serial * unit, parallel * unit);
                let a = std::time::Duration::from_nanos(s).as_secs_f64();
                let b = std::time::Duration::from_nanos(p).as_secs_f64();
                assert_eq!(faster(s, p), a.max(1e-9) / b.max(1e-9) > 1.3, "{s} to {p}");
            }
        }
    }
    assert!(faster(u64::MAX, 1));
    assert!(!faster(1, u64::MAX));
    assert!(!faster(0, 0));
}

#[test]
fn sections_ask_for_so_many_queries() {
    assert_eq!((truth_queries(2000), truth_queries(2001)), (2000, 200));
    assert_eq!((compared_queries(5000), compared_queries(5001)), (5000, 500));
    assert_eq!((recall_queries(1023), recall_queries(1024)), (200, 100));
    assert_eq!((calibration_queries(299), calibration_queries(9000)), (299, 300));
}

#[test]
fn loads_over_the_wire_meet_their_bars() {
    let second = 1_000_000_000;
    let c = real_checks(
        50,
        1024,
        &speed(201, second),
        4_999,
        &part(85, 100),
        &speed(1001, second),
        &speed(1000, second),
        &speed(5000, second),
    );
    assert_eq!(outcomes(&c), vec![true, true, true, true, false, true]);
    assert_eq!(c[0].name, "REAL 50×1024d ingest > 200 vec/s (wire)");
    assert_eq!(c[1].name, "REAL 50×1024d VSEARCH p99 < 5000µs (wire)");
    assert_eq!(c[1].detail, "p99 = 4999 µs");
    assert_eq!(c[2].detail, "recall=0.9");
    assert_eq!(c[5].name, "REAL 50×1024d 32c QPS > 1000 (wire)");
    let fast = speed(u64::MAX, 1);
    let c = xlarge_checks(384, &fast, 3_000, &part(84, 100), &fast);
    assert_eq!(outcomes(&c), vec![true, false, false, true]);
    assert_eq!(c[1].name, "1M×384d VSEARCH p99 < 3000µs (wire)");
    let c = million_checks(&fast, 1_999, 5_000, &part(1, 1), &fast);
    assert_eq!(outcomes(&c), vec![true, false, true, true, true]);
    assert_eq!(c[2].detail, "p50 = 1999 µs");
    let c = scale_checks(&fast, 0, &part(1, 1), &speed(400, second), &fast, &fast);
    assert_eq!(outcomes(&c), vec![true, true, true, false, true, true]);
}

#[test]
fn work_in_the_process_meets_its_bars() {
    let second = 1_000_000_000;
    let c = ycsb_checks(
        &speed(15_001, second),
        &speed(25_000, second),
        &speed(30_001, second),
        &speed(8_001, second),
    );
    assert_eq!(outcomes(&c), vec![true, true, false, true]);
    assert_eq!(c[0].name, "YCSB-C (100% read) > 30k ops/s");
    assert_eq!(c[0].detail, "7 ops/s");
    let c = throughput_checks(&speed(30_001, second), &speed(60_000, second));
    assert_eq!(outcomes(&c), vec![true, false]);
    let c = ingest_checks(9, 4, &speed(2_001, second), &part(89, 100));
    assert_eq!(outcomes(&c), vec![true, false]);
    assert_eq!(c[1].name, "REAL 9×4d Recall@10 ≥ 0.90");
    let c = vector_checks(&vec![1, 42], "[1, 42]", 5_000, &speed(10_001, second), 32, 32);
    assert_eq!(outcomes(&c), vec![true, false, true, true]);
    assert_eq!((c[0].detail.as_str(), c[1].detail.as_str()), ("top5=[1, 42]", "p99 = 5000"));
    let c = contention_check(16_000, 16_000, "0.25");
    assert!(c.ok);
    assert_eq!(c.detail, "final=16000 expected=16000 in 0.25s");
    assert!(!contention_check(-1, 16_000, "").ok);
    assert!(unified_check(&speed(1000, second)).ok);
    assert!(!unified_check(&speed(999, second)).ok);
    assert!(!unified_check(&speed(0, 0)).ok);
}

#[test]
fn strategies_are_compared() {
    let c = adaptive_checks(&part(900, 1000), &part(899, 1000), 20, 21);
    assert_eq!(outcomes(&c), vec![true, true]);
    assert_eq!(c[1].detail, "a=20µs b=21µs");
    let c = adaptive_checks(&part(900, 1000), &part(898, 1000), 20, 22);
    assert_eq!(outcomes(&c), vec![false, false]);
    assert!(!adaptive_checks(&part(0, 0), &part(0, 0), 20, 20)[0].ok);
    let c = merge_checks(14, 10, "1.40", 8, &part(900, 1000), &part(931, 1000));
    assert_eq!(outcomes(&c), vec![true, true, false]);
    assert_eq!(c[0].detail, "1.40x @ 8c");
    assert!(merge_checks(14, 10, "", 8, &part(900, 1000), &part(929, 1000))[2].ok);
    assert!(!merge_checks(13, 10, "", 1, &part(9, 10), &part(9, 10))[0].ok);
    assert!(merge_checks(2, 0, "", 1, &part(9, 10), &part(9, 10))[0].ok);
    let c = tiered_checks(&part(900, 1000), &part(909, 1000), 1_048_576, 100, 51);
    assert_eq!(outcomes(&c), vec![true, true, true, false]);
    assert_eq!(c[3].detail, "ram=100 tiered_ram=51");
    assert!(!tiered_checks(&part(911, 1000), &part(900, 1000), 0, 0, 0)[1].ok);
    let c = learned_checks(&part(900, 1000), &part(919, 1000), &part(911, 1000), 12, 5, 12);
    assert_eq!(outcomes(&c), vec![true, true, true, false]);
    assert_eq!(c[2].detail, "learned=12µs fixed=5µs");
    assert_eq!(c[3].detail, "learned r=0.9/12µs heur r=0.9/12µs");
    let c = learned_checks(&part(900, 1000), &part(921, 1000), &part(909, 1000), 12, 5, 12);
    assert_eq!(outcomes(&c), vec![false, true, true, true]);
    let c = shard_checks(&part(90, 100), &part(91, 100));
    assert_eq!(outcomes(&c), vec![true, true]);
    assert_eq!(outcomes(&shard_checks(&part(90, 100), &part(92, 100))), vec![true, false]);
    assert_eq!(c[1].detail, "par=0.9 ser=0.9");
}
