//! Which sections a benchmark run goes through, how it is set up, and what its counts must
//! come to.
use crate::bench_report;
use crate::bench_report::{check_of, count_checks, Check, Tally};
use crate::gpu_mode;
use crate::gpu_mode::{gpu_auto_mode, gpu_get_mode, gpu_set_mode, ComputeMode, Gpu};
use crate::options;
use crate::options::{flag, value};
use crate::scan::{copy_range, same_bytes};
use crate::text;
use crate::text::{chars_of, dec_string, parse_header_signed, parse_unsigned};
use crate::words;
use crate::words::same_text;
use vstd::prelude::*;
use vstd::string::*;

verus! {

/// The sections of the benchmark.
#[derive(Clone, Copy, Debug, PartialEq, Eq, Structural)]
pub enum Section {
    Storage,
    Kv,
    Vectors,
    TimeSeries,
    Compute,
    Reactive,
    Memory,
    Durability,
    Rag,
    Mitm,
    Router,
    Persistence,
    Throughput,
    RealScale,
    PubSub,
    PubSubSkipped,
    Million,
    MillionSkipped,
    Ycsb,
    YcsbSkipped,
    Chaos,
    ChaosSkipped,
    XLarge,
    XLargeSkipped,
    RealDataset,
    Adaptive,
    RealIngest,
    ParallelIngest,
    Tiered,
    LearnedEf,
    Filtered,
    Hybrid,
    RespUnified,
    Faceoff,
    ParallelBuild,
    IngestProfile,
    GpuBench,
    MemProbe,
}

/// A section, and the address or the file that it works on.
#[derive(Debug, PartialEq, Eq)]
pub struct Step {
    pub section: Section,
    pub target: Option<String>,
}

pub struct StepView {
    pub section: Section,
    pub target: Option<Seq<char>>,
}

impl View for Step {
    type V = StepView;

    open spec fn view(&self) -> StepView {
        StepView { section: self.section, target: words::opt_view(self.target) }
    }
}

pub open spec fn steps_view(v: Seq<Step>) -> Seq<StepView> {
    Seq::new(v.len(), |i: int| v[i]@)
}

/// What a run is: one section on its own, or the whole suite. Only the whole suite ends in
/// an exit code that tells of failures.
#[derive(Clone, Copy, Debug, PartialEq, Eq, Structural)]
pub enum Run {
    ProfileOnly,
    GpuOnly,
    WireOnly,
    RealOnly,
    ProbeOnly,
    Suite,
}

pub open spec fn plain(s: Section) -> StepView {
    StepView { section: s, target: None }
}

pub open spec fn on(s: Section, t: Seq<char>) -> StepView {
    StepView { section: s, target: Some(t) }
}

/// A section that runs where its option is given, or is named as skipped.
pub open spec fn with_or(t: Option<Seq<char>>, yes: Section, no: Section) -> Seq<StepView> {
    match t {
        Some(x) => seq![on(yes, x)],
        None => seq![plain(no)],
    }
}

/// A section that runs where its flag is given, or is named as skipped.
pub open spec fn flag_or(given: bool, yes: Section, no: Section) -> Seq<StepView> {
    if given {
        seq![plain(yes)]
    } else {
        seq![plain(no)]
    }
}

/// A section that runs where its option is given.
pub open spec fn with(t: Option<Seq<char>>, s: Section) -> Seq<StepView> {
    match t {
        Some(x) => seq![on(s, x)],
        None => Seq::empty(),
    }
}

/// The sections that every run of the suite goes through.
pub open spec fn standard() -> Seq<StepView> {
    seq![
        plain(Section::Storage),
        plain(Section::Kv),
        plain(Section::Vectors),
        plain(Section::TimeSeries),
        plain(Section::Compute),
        plain(Section::Reactive),
        plain(Section::Memory),
        plain(Section::Durability),
        plain(Section::Rag),
        plain(Section::Mitm),
        plain(Section::Router),
        plain(Section::Persistence),
        plain(Section::Throughput),
        plain(Section::RealScale),
    ]
}

pub open spec fn given(args: Seq<Seq<char>>, name: Seq<char>) -> bool {
    options::name_from(args, name, 0) is Some
}

/// The suite: the standard sections, then the optional ones.
pub open spec fn suite(args: Seq<Seq<char>>) -> Seq<StepView> {
    standard() + with_or(
        options::value_of(args, "--tcp"@),
        Section::PubSub,
        Section::PubSubSkipped,
    ) + flag_or(given(args, "--large"@), Section::Million, Section::MillionSkipped) + with_or(
        options::value_of(args, "--ycsb"@),
        Section::Ycsb,
        Section::YcsbSkipped,
    ) + flag_or(given(args, "--chaos"@), Section::Chaos, Section::ChaosSkipped) + flag_or(
        given(args, "--xlarge"@),
        Section::XLarge,
        Section::XLargeSkipped,
    ) + with(options::value_of(args, "--real"@), Section::RealDataset) + with(
        options::value_of(args, "--real"@),
        Section::Adaptive,
    ) + with(options::value_of(args, "--real-ingest"@), Section::RealIngest) + with(
        options::value_of(args, "--parallel-ingest"@),
        Section::ParallelIngest,
    ) + with(options::value_of(args, "--tiered-ingest"@), Section::Tiered) + with(
        options::value_of(args, "--learned-ef"@),
        Section::LearnedEf,
    ) + with(options::value_of(args, "--filtered"@), Section::Filtered) + with(
        options::value_of(args, "--hybrid"@),
        Section::Hybrid,
    ) + with(options::value_of(args, "--resp-unified"@), Section::RespUnified) + (if given(
        args,
        "--qdrant"@,
    ) {
        seq![plain(Section::Faceoff), plain(Section::ParallelBuild)]
    } else {
        Seq::empty()
    })
}

/// What the arguments ask for. A focused run goes through one section and nothing else.
pub open spec fn planned(args: Seq<Seq<char>>) -> (Run, Seq<StepView>) {
    if options::value_of(args, "--ingest-profile"@) is Some {
        (Run::ProfileOnly, with(options::value_of(args, "--ingest-profile"@), Section::IngestProfile))
    } else if options::value_of(args, "--gpu-bench"@) is Some {
        (Run::GpuOnly, with(options::value_of(args, "--gpu-bench"@), Section::GpuBench))
    } else if given(args, "--wire-qps"@) {
        (Run::WireOnly, seq![plain(Section::RealScale)])
    } else if options::value_of(args, "--real"@) is Some && given(args, "--only"@) {
        (Run::RealOnly, with(options::value_of(args, "--real"@), Section::RealDataset))
    } else if options::value_of(args, "--memprobe"@) is Some {
        (Run::ProbeOnly, with(options::value_of(args, "--memprobe"@), Section::MemProbe))
    } else {
        (Run::Suite, suite(args))
    }
}

fn push_plain(out: &mut Vec<Step>, s: Section)
    ensures
        steps_view(final(out)@) == steps_view(old(out)@) + seq![plain(s)],
{
    let ghost before = out@;
    out.push(Step { section: s, target: None });
    proof {
        assert(steps_view(out@) =~= steps_view(before) + seq![plain(s)]);
    }
}

fn push_with(out: &mut Vec<Step>, t: Option<String>, s: Section)
    ensures
        steps_view(final(out)@) == steps_view(old(out)@) + with(words::opt_view(t), s),
{
    let ghost before = out@;
    match t {
        Some(x) => {
            let ghost v = x@;
            out.push(Step { section: s, target: Some(x) });
            proof {
                assert(steps_view(out@) =~= steps_view(before) + seq![on(s, v)]);
            }
        },
        None => {
            proof {
                assert(steps_view(out@) =~= steps_view(before) + Seq::<StepView>::empty());
            }
        },
    }
}

fn push_with_or(out: &mut Vec<Step>, t: Option<String>, yes: Section, no: Section)
    ensures
        steps_view(final(out)@) == steps_view(old(out)@) + with_or(words::opt_view(t), yes, no),
{
    if t.is_some() {
        push_with(out, t, yes);
    } else {
        push_plain(out, no);
    }
}

fn push_flag_or(out: &mut Vec<Step>, given: bool, yes: Section, no: Section)
    ensures
        steps_view(final(out)@) == steps_view(old(out)@) + flag_or(given, yes, no),
{
    if given {
        push_plain(out, yes);
    } else {
        push_plain(out, no);
    }
}

fn standard_steps() -> (r: Vec<Step>)
    ensures
        steps_view(r@) == standard(),
{
    let mut out: Vec<Step> = Vec::new();
    push_plain(&mut out, Section::Storage);
    push_plain(&mut out, Section::Kv);
    push_plain(&mut out, Section::Vectors);
    push_plain(&mut out, Section::TimeSeries);
    push_plain(&mut out, Section::Compute);
    push_plain(&mut out, Section::Reactive);
    push_plain(&mut out, Section::Memory);
    push_plain(&mut out, Section::Durability);
    push_plain(&mut out, Section::Rag);
    push_plain(&mut out, Section::Mitm);
    push_plain(&mut out, Section::Router);
    push_plain(&mut out, Section::Persistence);
    push_plain(&mut out, Section::Throughput);
    push_plain(&mut out, Section::RealScale);
    proof {
        assert(steps_view(out@) =~= standard());
    }
    out
}

fn suite_steps(args: &Vec<String>) -> (r: Vec<Step>)
    ensures
        steps_view(r@) == suite(words::views_of(args@)),
{
    let mut out = standard_steps();
    push_with_or(&mut out, value(args, "--tcp"), Section::PubSub, Section::PubSubSkipped);
    push_flag_or(&mut out, flag(args, "--large"), Section::Million, Section::MillionSkipped);
    push_with_or(&mut out, value(args, "--ycsb"), Section::Ycsb, Section::YcsbSkipped);
    push_flag_or(&mut out, flag(args, "--chaos"), Section::Chaos, Section::ChaosSkipped);
    push_flag_or(&mut out, flag(args, "--xlarge"), Section::XLarge, Section::XLargeSkipped);
    push_with(&mut out, value(args, "--real"), Section::RealDataset);
    push_with(&mut out, value(args, "--real"), Section::Adaptive);
    push_with(&mut out, value(args, "--real-ingest"), Section::RealIngest);
    push_with(&mut out, value(args, "--parallel-ingest"), Section::ParallelIngest);
    push_with(&mut out, value(args, "--tiered-ingest"), Section::Tiered);
    push_with(&mut out, value(args, "--learned-ef"), Section::LearnedEf);
    push_with(&mut out, value(args, "--filtered"), Section::Filtered);
    push_with(&mut out, value(args, "--hybrid"), Section::Hybrid);
    push_with(&mut out, value(args, "--resp-unified"), Section::RespUnified);
    let ghost before = steps_view(out@);
    if flag(args, "--qdrant") {
        push_plain(&mut out, Section::Faceoff);
        push_plain(&mut out, Section::ParallelBuild);
        proof {
            assert(steps_view(out@) =~= before + seq![
                plain(Section::Faceoff),
                plain(Section::ParallelBuild),
            ]);
        }
    } else {
        proof {
            assert(steps_view(out@) =~= before + Seq::<StepView>::empty());
        }
    }
    out
}

fn single(t: Option<String>, s: Section) -> (r: Vec<Step>)
    ensures
        steps_view(r@) == with(words::opt_view(t), s),
{
    let mut out: Vec<Step> = Vec::new();
    push_with(&mut out, t, s);
    proof {
        assert(steps_view(out@) =~= with(words::opt_view(t), s));
    }
    out
}

/// Decides what the arguments ask for.
pub fn plan(args: &Vec<String>) -> (r: (Run, Vec<Step>))
    ensures
        (r.0, steps_view(r.1@)) == planned(words::views_of(args@)),
{
    let profile = value(args, "--ingest-profile");
    if profile.is_some() {
        return (Run::ProfileOnly, single(profile, Section::IngestProfile));
    }
    let gpu = value(args, "--gpu-bench");
    if gpu.is_some() {
        return (Run::GpuOnly, single(gpu, Section::GpuBench));
    }
    if flag(args, "--wire-qps") {
        let mut out: Vec<Step> = Vec::new();
        push_plain(&mut out, Section::RealScale);
        proof {
            assert(steps_view(out@) =~= seq![plain(Section::RealScale)]);
        }
        return (Run::WireOnly, out);
    }
    let path = value(args, "--real");
    if path.is_some() && flag(args, "--only") {
        return (Run::RealOnly, single(path, Section::RealDataset));
    }
    let probe = value(args, "--memprobe");
    if probe.is_some() {
        return (Run::ProbeOnly, single(probe, Section::MemProbe));
    }
    (Run::Suite, suite_steps(args))
}

/// The exit code of a run.
pub fn exit_code(run: Run, tally: &Tally) -> (r: i32)
    ensures
        r == (if run == Run::Suite && tally.failed != 0 {
            1i32
        } else {
            0
        }),
{
    match run {
        Run::Suite => tally.exit_code(),
        _ => 0,
    }
}

// ── a quick run on one mode ───────────────────────────────────────────────

/// The number of queries that measure recall: as many as are set, or all of them.
pub open spec fn recall_queries_of(set: Option<&str>, nq: nat) -> nat {
    let want = match set {
        Some(s) => match text::unsigned_of(s@, usize::MAX as nat) {
            Some(n) => n,
            None => 200,
        },
        None => 200,
    };
    if want < nq {
        want
    } else {
        nq
    }
}

/// How a quick run over `n` vectors on some cores is laid out.
#[derive(Clone, Copy, Debug, PartialEq, Eq, Structural)]
pub struct QuickLayout {
    /// Rows that serve as queries.
    pub queries: usize,
    /// Queries that measure recall.
    pub recall: usize,
    /// Queries that each thread finds the truth for.
    pub chunk: usize,
    /// Queries that each thread of the throughput run makes.
    pub per_thread: usize,
}

/// Lays out a quick run.
pub fn quick_layout(n: usize, cores: usize, recall_set: Option<&str>) -> (r: QuickLayout)
    requires
        cores > 0,
    ensures
        r.queries == (if n < 200 {
            n
        } else {
            200
        }),
        r.recall == recall_queries_of(recall_set, r.queries as nat),
        r.chunk == (if r.recall == 0 {
            1int
        } else {
            (r.recall - 1) / cores as int + 1
        }),
        r.per_thread == 1000int / cores as int,
{
    let queries: usize = if n < 200 {
        n
    } else {
        200
    };
    let want: usize = match recall_set {
        Some(s) => match parse_unsigned(&chars_of(s), usize::MAX as u64) {
            Some(v) => v as usize,
            None => 200,
        },
        None => 200,
    };
    let recall: usize = if want < queries {
        want
    } else {
        queries
    };
    let chunk: usize = if recall == 0 {
        1
    } else {
        proof {
            let a = recall - 1;
            let b = cores as int;
            assert(a / b <= a) by (nonlinear_arith)
                requires
                    a >= 0,
                    b >= 1,
            ;
        }
        (recall - 1) / cores + 1
    };
    QuickLayout { queries, recall, chunk, per_thread: 1000 / cores }
}

/// Puts the mode in force that a run asks for: a named one, or the one that suits the
/// corpus. Gives the mode, and whether the corpus may be too large for the one asked for.
pub fn quick_mode(
    g: &mut Gpu,
    env: Option<&str>,
    found: Option<(usize, usize)>,
    live: Option<usize>,
    asked: &str,
    n: usize,
    dim: usize,
) -> (r: (ComputeMode, bool))
    ensures
        asked@ == "hybrid"@ ==> r == (ComputeMode::Hybrid, false) && *final(g) == (Gpu {
            mode: Some(ComputeMode::Hybrid),
            ..*old(g)
        }),
        asked@ == "cpu"@ ==> r == (ComputeMode::CpuOnly, false) && *final(g) == (Gpu {
            mode: Some(ComputeMode::CpuOnly),
            ..*old(g)
        }),
        asked@ != "hybrid"@ && asked@ != "cpu"@ ==> exists|h: Gpu| #[trigger]
            gpu_mode::asked(*old(g), env, found, h) && {
                let suits = gpu_mode::best_mode(
                    h.enabled,
                    n as int,
                    dim as int,
                    gpu_mode::capacity(h, n as int, dim as int, live).2,
                );
                &&& r.0 == (if h.enabled {
                    suits
                } else {
                    gpu_mode::mode_of(*old(g), env)
                })
                &&& r.1 == (asked@ == "turbo"@ && suits != ComputeMode::Turbo)
                &&& *final(g) == (Gpu { mode: Some(r.0), ..h })
            },
{
    proof {
        reveal_strlit("turbo");
        reveal_strlit("hybrid");
        reveal_strlit("cpu");
        assert("turbo"@[0] == 't' && "hybrid"@[0] == 'h' && "cpu"@[0] == 'c');
    }
    let mut warned: bool = false;
    if same_text(asked, "hybrid") {
        gpu_set_mode(g, ComputeMode::Hybrid);
    } else if same_text(asked, "cpu") {
        gpu_set_mode(g, ComputeMode::CpuOnly);
    } else {
        let detected = gpu_auto_mode(g, env, found, live, n, dim);
        if same_text(asked, "turbo") {
            warned = detected != ComputeMode::Turbo;
        }
    }
    (gpu_get_mode(g, env), warned)
}

/// Whether a mode is measured: without a device, only the processor is.
pub fn mode_runs(mode: ComputeMode, available: bool) -> (r: bool)
    ensures
        r == (mode == ComputeMode::CpuOnly || available),
{
    mode == ComputeMode::CpuOnly || available
}

// ── what counts must come to ──────────────────────────────────────────────

pub open spec fn same_members(a: Seq<u64>, b: Seq<u64>) -> bool {
    a.to_set() == b.to_set()
}

fn all_in(a: &Vec<u64>, b: &Vec<u64>) -> (r: bool)
    ensures
        r == (forall|i: int| 0 <= i < a@.len() ==> b@.contains(#[trigger] a@[i])),
{
    let mut i: usize = 0;
    while i < a.len()
        invariant
            i <= a@.len(),
            forall|x: int| 0 <= x < i ==> b@.contains(#[trigger] a@[x]),
        decreases a@.len() - i,
    {
        let mut j: usize = 0;
        let mut found: bool = false;
        while j < b.len() && !found
            invariant
                i < a@.len(),
                j <= b@.len(),
                found ==> b@.contains(a@[i as int]),
                !found ==> forall|y: int| 0 <= y < j ==> #[trigger] b@[y] != a@[i as int],
            decreases b@.len() - j, (if found { 0int } else { 1int }),
        {
            if b[j] == a[i] {
                found = true;
                proof {
                    assert(b@[j as int] == a@[i as int]);
                }
            } else {
                j = j + 1;
            }
        }
        if !found {
            proof {
                assert(!b@.contains(a@[i as int]));
            }
            return false;
        }
        i = i + 1;
    }
    true
}

/// Whether two lists hold the same numbers.
pub fn same_ids(a: &Vec<u64>, b: &Vec<u64>) -> (r: bool)
    ensures
        r == same_members(a@, b@),
{
    let x = all_in(a, b);
    let y = all_in(b, a);
    proof {
        if x && y {
            assert forall|v: u64| a@.to_set().contains(v) <==> b@.to_set().contains(v) by {
                if a@.contains(v) {
                    let i = choose|i: int| 0 <= i < a@.len() && a@[i] == v;
                    assert(b@.contains(a@[i]));
                }
                if b@.contains(v) {
                    let i = choose|i: int| 0 <= i < b@.len() && b@[i] == v;
                    assert(a@.contains(b@[i]));
                }
            }
            assert(a@.to_set() =~= b@.to_set());
        } else if same_members(a@, b@) {
            if !x {
                let i = choose|i: int| 0 <= i < a@.len() && !b@.contains(#[trigger] a@[i]);
                assert(a@.to_set().contains(a@[i]));
                assert(b@.to_set().contains(a@[i]));
            } else {
                let i = choose|i: int| 0 <= i < b@.len() && !a@.contains(#[trigger] b@[i]);
                assert(b@.to_set().contains(b@[i]));
                assert(a@.to_set().contains(b@[i]));
            }
        }
    }
    x && y
}

/// What each way into the index gave back on the wire.
#[derive(Debug, PartialEq, Eq)]
pub struct WirePaths {
    pub plain: Vec<u64>,
    pub filtered: Vec<u64>,
    pub learned: Vec<u64>,
    pub hybrid: Vec<u64>,
    /// The filtered search for another category.
    pub other: Vec<u64>,
}

pub open spec fn count_detail(n: nat) -> Seq<char> {
    "n="@ + text::dec_text(n)
}

/// The checks on the ways into the index: name, verdict, detail.
pub open spec fn path_checks(p: WirePaths, k: nat, cat: u32) -> Seq<(Seq<char>, bool, Seq<char>)> {
    let f = p.filtered@.len();
    let o = p.other@.len();
    seq![
        ("MODULE6 plain path returns k results"@, p.plain@.len() == k, count_detail(p.plain@.len())),
        ("MODULE6 filtered path returns results"@, f > 0, count_detail(f)),
        (
            "MODULE6 learned path returns k results"@,
            p.learned@.len() == k,
            count_detail(p.learned@.len()),
        ),
        (
            "MODULE6 hybrid path returns k results"@,
            p.hybrid@.len() == k,
            count_detail(p.hybrid@.len()),
        ),
        (
            "MODULE6 different filter category gives distinct result set"@,
            !same_members(p.filtered@, p.other@),
            "f"@ + text::dec_text(cat as nat) + "_n="@ + text::dec_text(f) + " f"@ + text::dec_text(
                (cat ^ 1) as nat,
            ) + "_n="@ + text::dec_text(o),
        ),
    ]
}

fn count_text(n: usize) -> (r: String)
    ensures
        r@ == count_detail(n as nat),
{
    let mut s: String = "n=".to_owned();
    s.append(dec_string(n as u64).as_str());
    s
}

/// Checks the ways into the index.
pub fn check_paths(tally: &mut Tally, p: &WirePaths, k: usize, cat: u32) -> (r: Vec<String>)
    ensures
        words::views_of(r@) == bench_report::lines_of(path_checks(*p, k as nat, cat)),
        *final(tally) == bench_report::tallied(*old(tally), path_checks(*p, k as nat, cat), 5),
{
    let mut d: String = "f".to_owned();
    d.append(dec_string(cat as u64).as_str());
    d.append("_n=");
    d.append(dec_string(p.filtered.len() as u64).as_str());
    d.append(" f");
    d.append(dec_string((cat ^ 1) as u64).as_str());
    d.append("_n=");
    d.append(dec_string(p.other.len() as u64).as_str());
    let mut checks: Vec<Check> = Vec::new();
    checks.push(
        check_of(
            "MODULE6 plain path returns k results",
            p.plain.len() == k,
            count_text(p.plain.len()),
        ),
    );
    checks.push(
        check_of(
            "MODULE6 filtered path returns results",
            p.filtered.len() > 0,
            count_text(p.filtered.len()),
        ),
    );
    checks.push(
        check_of(
            "MODULE6 learned path returns k results",
            p.learned.len() == k,
            count_text(p.learned.len()),
        ),
    );
    checks.push(
        check_of(
            "MODULE6 hybrid path returns k results",
            p.hybrid.len() == k,
            count_text(p.hybrid.len()),
        ),
    );
    checks.push(
        check_of(
            "MODULE6 different filter category gives distinct result set",
            !same_ids(&p.filtered, &p.other),
            d,
        ),
    );
    proof {
        assert(bench_report::check_views(checks@) =~= path_checks(*p, k as nat, cat));
    }
    count_checks(tally, &checks)
}

/// Whether a key that was read back is missing: a bulk reply of length -1.
pub fn reply_missing(header: &[u8]) -> (r: bool)
    ensures
        r == (header@.len() > 0 && header@[0] == 36 && text::header_signed(header@.skip(1)) == Some(
            -1int,
        )),
{
    let n: usize = header.len();
    if n == 0 || header[0] != 36 {
        return false;
    }
    let rest = copy_range(header, 1, n);
    proof {
        assert(rest@ =~= header@.skip(1));
    }
    match parse_header_signed(rest) {
        Some(v) => v == -1,
        None => false,
    }
}

/// Whether a subscriber was handed a message: its kind, its channel and its payload.
pub fn push_received(parts: &Vec<Vec<u8>>, channel: &[u8], payload: &[u8]) -> (r: bool)
    ensures
        r == (parts@.len() == 3 && parts@[0]@ == seq![109u8, 101, 115, 115, 97, 103, 101]
            && parts@[1]@ == channel@ && parts@[2]@ == payload@),
{
    if parts.len() != 3 {
        return false;
    }
    let word: Vec<u8> = vec![109u8, 101, 115, 115, 97, 103, 101];
    assert(word@ =~= seq![109u8, 101, 115, 115, 97, 103, 101]);
    same_bytes(parts[0].as_slice(), word.as_slice()) && same_bytes(parts[1].as_slice(), channel)
        && same_bytes(parts[2].as_slice(), payload)
}

// ── laws ──────────────────────────────────────────────────────────────────

/// The suite always begins with the standard sections.
pub proof fn law_suite_starts_with_the_standard(args: Seq<Seq<char>>)
    ensures
        standard().is_prefix_of(suite(args)),
{
    let s = suite(args);
    assert(s.subrange(0, standard().len() as int) =~= standard());
}

/// A run without arguments skips every optional section.
pub proof fn law_bare_run_skips(args: Seq<Seq<char>>)
    requires
        args.len() == 0,
    ensures
        planned(args).0 == Run::Suite,
        planned(args).1 == standard() + seq![
            plain(Section::PubSubSkipped),
            plain(Section::MillionSkipped),
            plain(Section::YcsbSkipped),
            plain(Section::ChaosSkipped),
            plain(Section::XLargeSkipped),
        ],
{
    assert(suite(args) =~= standard() + seq![
        plain(Section::PubSubSkipped),
        plain(Section::MillionSkipped),
        plain(Section::YcsbSkipped),
        plain(Section::ChaosSkipped),
        plain(Section::XLargeSkipped),
    ]);
}

/// Behind the standard sections the suite names five more, each run where its option is given and
/// skipped where it is not.
pub proof fn law_suite_runs_or_skips(args: Seq<Seq<char>>)
    ensures
        ({
            let s = suite(args);
            let tcp = options::value_of(args, "--tcp"@);
            let ycsb = options::value_of(args, "--ycsb"@);
            &&& s.len() >= 19
            &&& tcp is Some ==> s[14].section == Section::PubSub && s[14].target == tcp
            &&& tcp is None ==> s[14].section == Section::PubSubSkipped
            &&& ycsb is Some ==> s[16].section == Section::Ycsb && s[16].target == ycsb
            &&& ycsb is None ==> s[16].section == Section::YcsbSkipped
            &&& s[15].section == (if args.contains("--large"@) {
                Section::Million
            } else {
                Section::MillionSkipped
            })
            &&& s[17].section == (if args.contains("--chaos"@) {
                Section::Chaos
            } else {
                Section::ChaosSkipped
            })
            &&& s[18].section == (if args.contains("--xlarge"@) {
                Section::XLarge
            } else {
                Section::XLargeSkipped
            })
        }),
{
    options::law_flag_is_membership(args, "--large"@);
    options::law_flag_is_membership(args, "--chaos"@);
    options::law_flag_is_membership(args, "--xlarge"@);
    lemma_suite_parts(args);
    lemma_always(args, always_named(args));
}

/// The sections that every suite names.
pub open spec fn always_named(args: Seq<Seq<char>>) -> Seq<StepView> {
    standard() + with_or(
        options::value_of(args, "--tcp"@),
        Section::PubSub,
        Section::PubSubSkipped,
    ) + flag_or(given(args, "--large"@), Section::Million, Section::MillionSkipped) + with_or(
        options::value_of(args, "--ycsb"@),
        Section::Ycsb,
        Section::YcsbSkipped,
    ) + flag_or(given(args, "--chaos"@), Section::Chaos, Section::ChaosSkipped) + flag_or(
        given(args, "--xlarge"@),
        Section::XLarge,
        Section::XLargeSkipped,
    )
}

proof fn lemma_suite_parts(args: Seq<Seq<char>>)
    ensures
        suite(args).len() >= always_named(args).len(),
        forall|i: int|
            0 <= i < always_named(args).len() ==> suite(args)[i] == #[trigger] always_named(
                args,
            )[i],
{
    let d: Seq<StepView> = if given(args, "--qdrant"@) {
        seq![plain(Section::Faceoff), plain(Section::ParallelBuild)]
    } else {
        Seq::empty()
    };
    lemma_behind(
        always_named(args),
        with(options::value_of(args, "--real"@), Section::RealDataset),
        with(options::value_of(args, "--real"@), Section::Adaptive),
        with(options::value_of(args, "--real-ingest"@), Section::RealIngest),
        with(options::value_of(args, "--parallel-ingest"@), Section::ParallelIngest),
        with(options::value_of(args, "--tiered-ingest"@), Section::Tiered),
        with(options::value_of(args, "--learned-ef"@), Section::LearnedEf),
        with(options::value_of(args, "--filtered"@), Section::Filtered),
        with(options::value_of(args, "--hybrid"@), Section::Hybrid),
        with(options::value_of(args, "--resp-unified"@), Section::RespUnified),
        d,
    );
}

/// What stands in front stays where it is, whatever is put behind it.
proof fn lemma_behind(
    a: Seq<StepView>,
    b: Seq<StepView>,
    c: Seq<StepView>,
    d: Seq<StepView>,
    e: Seq<StepView>,
    f: Seq<StepView>,
    g: Seq<StepView>,
    h: Seq<StepView>,
    i: Seq<StepView>,
    j: Seq<StepView>,
    k: Seq<StepView>,
)
    ensures
        (a + b + c + d + e + f + g + h + i + j + k).len() >= a.len(),
        forall|x: int|
            0 <= x < a.len() ==> (a + b + c + d + e + f + g + h + i + j + k)[x] == #[trigger] a[x],
{
}

/// The sections that every suite names, whether it runs or skips them.
proof fn lemma_always(args: Seq<Seq<char>>, always: Seq<StepView>)
    requires
        always == standard() + with_or(
            options::value_of(args, "--tcp"@),
            Section::PubSub,
            Section::PubSubSkipped,
        ) + flag_or(given(args, "--large"@), Section::Million, Section::MillionSkipped) + with_or(
            options::value_of(args, "--ycsb"@),
            Section::Ycsb,
            Section::YcsbSkipped,
        ) + flag_or(given(args, "--chaos"@), Section::Chaos, Section::ChaosSkipped) + flag_or(
            given(args, "--xlarge"@),
            Section::XLarge,
            Section::XLargeSkipped,
        ),
    ensures
        standard().len() == 14,
        always.len() == 19,
        always[14] == with_or(
            options::value_of(args, "--tcp"@),
            Section::PubSub,
            Section::PubSubSkipped,
        )[0],
        always[15] == flag_or(given(args, "--large"@), Section::Million, Section::MillionSkipped)[0],
        always[16] == with_or(
            options::value_of(args, "--ycsb"@),
            Section::Ycsb,
            Section::YcsbSkipped,
        )[0],
        always[17] == flag_or(given(args, "--chaos"@), Section::Chaos, Section::ChaosSkipped)[0],
        always[18] == flag_or(given(args, "--xlarge"@), Section::XLarge, Section::XLargeSkipped)[0],
{
}

/// A run that is focused goes through one section, the one that its option names, on what the
/// option gives; the first such option decides. Only without one does the suite run.
pub proof fn law_focused_runs_have_one_section(args: Seq<Seq<char>>)
    ensures
        planned(args).0 != Run::Suite ==> planned(args).1.len() == 1,
        planned(args).0 == Run::Suite ==> planned(args).1 == suite(args),
        planned(args).0 == Run::ProfileOnly <==> options::value_of(args, "--ingest-profile"@)
            is Some,
        planned(args).0 == Run::ProfileOnly ==> planned(args).1[0].section == Section::IngestProfile
            && planned(args).1[0].target == options::value_of(args, "--ingest-profile"@),
        planned(args).0 == Run::GpuOnly ==> planned(args).1[0].section == Section::GpuBench
            && planned(args).1[0].target == options::value_of(args, "--gpu-bench"@)
            && planned(args).1[0].target is Some,
        planned(args).0 == Run::WireOnly ==> planned(args).1[0].section == Section::RealScale
            && args.contains("--wire-qps"@),
        planned(args).0 == Run::RealOnly ==> planned(args).1[0].section == Section::RealDataset
            && planned(args).1[0].target == options::value_of(args, "--real"@) && args.contains(
            "--only"@,
        ),
        planned(args).0 == Run::ProbeOnly ==> planned(args).1[0].section == Section::MemProbe
            && planned(args).1[0].target == options::value_of(args, "--memprobe"@),
        planned(args).0 == Run::Suite ==> options::value_of(args, "--gpu-bench"@) is None
            && !args.contains("--wire-qps"@) && options::value_of(args, "--memprobe"@) is None && (
        options::value_of(args, "--real"@) is None || !args.contains("--only"@)),
{
    options::law_flag_is_membership(args, "--wire-qps"@);
    options::law_flag_is_membership(args, "--only"@);
}

/// Recall is measured by as many queries as are set, or two hundred, but never by more than there
/// are.
pub proof fn law_recall_takes_what_there_is(s: &str, n: nat, nq: nat)
    requires
        n <= u32::MAX,
    ensures
        recall_queries_of(Some(s), nq) <= nq,
        recall_queries_of(None, nq) == (if nq < 200 {
            nq
        } else {
            200
        }),
        s@ == text::dec_text(n) ==> recall_queries_of(Some(s), nq) == (if n < nq {
            n
        } else {
            nq
        }),
{
    text::lemma_dec_text_unsigned(n, usize::MAX as nat);
}

/// Two lists have the same members where every number of the one stands in the other, both ways.
pub proof fn law_members_stand_in_both(a: Seq<u64>, b: Seq<u64>)
    ensures
        same_members(a, b) <==> forall|x: u64| a.contains(x) <==> #[trigger] b.contains(x),
{
    if forall|x: u64| a.contains(x) <==> #[trigger] b.contains(x) {
        assert forall|x: u64| a.to_set().contains(x) <==> b.to_set().contains(x) by {
            assert(a.contains(x) <==> b.contains(x));
        }
        assert(a.to_set() =~= b.to_set());
    }
    if same_members(a, b) {
        assert forall|x: u64| a.contains(x) <==> #[trigger] b.contains(x) by {
            assert(a.to_set().contains(x) <==> b.to_set().contains(x));
        }
    }
}

/// Each way into the index must give what it was asked for, the filtered one something, and another
/// filter something else.
pub proof fn law_paths_must_answer(p: WirePaths, k: nat, cat: u32)
    ensures
        ({
            let l = path_checks(p, k, cat);
            &&& l.len() == 5
            &&& l[0].1 <==> p.plain@.len() == k
            &&& l[1].1 <==> p.filtered@.len() >= 1
            &&& l[2].1 <==> p.learned@.len() == k
            &&& l[3].1 <==> p.hybrid@.len() == k
            &&& l[4].1 <==> exists|x: u64|
                p.filtered@.contains(x) != #[trigger] p.other@.contains(x)
        }),
{
    law_members_stand_in_both(p.filtered@, p.other@);
    let same = same_members(p.filtered@, p.other@);
    if same {
        assert forall|x: u64| p.filtered@.contains(x) == #[trigger] p.other@.contains(x) by {}
    }
}

} // verus!
