//! Graph construction at mixed precision: which number format each node gets on a given
//! accelerator, and the neighbour lists that the distances lead to.
use crate::order;
use crate::order::lowest;
use crate::ratios;
use crate::ratios::{share_down_of, times_down};
use crate::rounding;
use crate::rounding::DOUBLE;
use vstd::prelude::*;

verus! {

/// A number format.
#[derive(Debug, Clone, Copy, PartialEq, Eq, Structural, PartialOrd, Ord, Hash)]
pub enum PrecisionLevel {
    /// Outlier nodes.
    Int8,
    /// Near-outlier nodes.
    Fp8,
    /// Most vectors.
    Fp16,
    /// Most vectors, where the range has to be wide.
    Bf16,
    /// Seed vectors.
    Fp32,
}

impl PrecisionLevel {
    /// Bytes per element.
    pub open spec fn width(self) -> nat {
        match self {
            PrecisionLevel::Int8 | PrecisionLevel::Fp8 => 1,
            PrecisionLevel::Fp16 | PrecisionLevel::Bf16 => 2,
            PrecisionLevel::Fp32 => 4,
        }
    }

    /// The format's name.
    pub open spec fn label(self) -> Seq<char> {
        match self {
            PrecisionLevel::Int8 => "INT8"@,
            PrecisionLevel::Fp8 => "FP8"@,
            PrecisionLevel::Fp16 => "FP16"@,
            PrecisionLevel::Bf16 => "BF16"@,
            PrecisionLevel::Fp32 => "FP32"@,
        }
    }

    /// Bytes per element at this precision.
    pub fn bytes(&self) -> (r: usize)
        ensures
            r == self.width(),
    {
        match self {
            PrecisionLevel::Int8 => 1,
            PrecisionLevel::Fp8 => 1,
            PrecisionLevel::Fp16 => 2,
            PrecisionLevel::Bf16 => 2,
            PrecisionLevel::Fp32 => 4,
        }
    }

    /// Name for display.
    pub fn name(&self) -> (r: &'static str)
        ensures
            r@ == self.label(),
    {
        match self {
            PrecisionLevel::Int8 => "INT8",
            PrecisionLevel::Fp8 => "FP8",
            PrecisionLevel::Fp16 => "FP16",
            PrecisionLevel::Bf16 => "BF16",
            PrecisionLevel::Fp32 => "FP32",
        }
    }

    /// Whether this format needs tensor cores.
    pub fn needs_tensor_cores(&self) -> (r: bool)
        ensures
            r == (self is Fp16 || self is Bf16 || self is Fp8),
    {
        match self {
            PrecisionLevel::Fp16 => true,
            PrecisionLevel::Bf16 => true,
            PrecisionLevel::Fp8 => true,
            PrecisionLevel::Int8 => false,
            PrecisionLevel::Fp32 => false,
        }
    }
}

/// What an accelerator can do: its compute capability (major, minor) and its name.
#[derive(Debug, Clone, Copy)]
pub struct GpuCaps {
    pub compute_capability: (u32, u32),
    pub name: &'static str,
}

/// Whether a compute capability is at least another one.
pub open spec fn at_least(have: (u32, u32), need: (u32, u32)) -> bool {
    have.0 > need.0 || (have.0 == need.0 && have.1 >= need.1)
}

/// Whether a compute capability handles a format.
pub open spec fn handles(cc: (u32, u32), p: PrecisionLevel) -> bool {
    match p {
        PrecisionLevel::Fp32 | PrecisionLevel::Int8 => true,
        PrecisionLevel::Fp16 => at_least(cc, (7, 0)),
        PrecisionLevel::Bf16 => at_least(cc, (8, 0)),
        PrecisionLevel::Fp8 => at_least(cc, (8, 9)),
    }
}

/// All formats, in the order in which they are offered.
pub open spec fn all_formats() -> Seq<PrecisionLevel> {
    seq![
        PrecisionLevel::Fp32,
        PrecisionLevel::Fp16,
        PrecisionLevel::Bf16,
        PrecisionLevel::Fp8,
        PrecisionLevel::Int8,
    ]
}

/// The formats among `s` that a compute capability handles.
pub open spec fn handled(cc: (u32, u32), s: Seq<PrecisionLevel>) -> Seq<PrecisionLevel> {
    s.filter(|p: PrecisionLevel| handles(cc, p))
}

impl GpuCaps {
    /// Volta.
    pub fn v100() -> (r: Self)
        ensures
            r.compute_capability == (7u32, 0u32),
            r.name@ == "Tesla V100"@,
    {
        GpuCaps { compute_capability: (7, 0), name: "Tesla V100" }
    }

    /// Ampere.
    pub fn a100() -> (r: Self)
        ensures
            r.compute_capability == (8u32, 0u32),
            r.name@ == "A100 SXM"@,
    {
        GpuCaps { compute_capability: (8, 0), name: "A100 SXM" }
    }

    /// Ada.
    pub fn rtx4060() -> (r: Self)
        ensures
            r.compute_capability == (8u32, 9u32),
            r.name@ == "RTX 4060"@,
    {
        GpuCaps { compute_capability: (8, 9), name: "RTX 4060" }
    }

    /// Ada.
    pub fn rtx4090() -> (r: Self)
        ensures
            r.compute_capability == (8u32, 9u32),
            r.name@ == "RTX 4090"@,
    {
        GpuCaps { compute_capability: (8, 9), name: "RTX 4090" }
    }

    /// Hopper.
    pub fn h100() -> (r: Self)
        ensures
            r.compute_capability == (9u32, 0u32),
            r.name@ == "H100 SXM"@,
    {
        GpuCaps { compute_capability: (9, 0), name: "H100 SXM" }
    }

    fn reaches(&self, major: u32, minor: u32) -> (r: bool)
        ensures
            r == at_least(self.compute_capability, (major, minor)),
    {
        self.compute_capability.0 > major || (self.compute_capability.0 == major
            && self.compute_capability.1 >= minor)
    }

    /// Whether this accelerator handles a format.
    pub fn supports(&self, p: PrecisionLevel) -> (r: bool)
        ensures
            r == handles(self.compute_capability, p),
    {
        match p {
            PrecisionLevel::Fp32 => true,
            PrecisionLevel::Int8 => true,
            PrecisionLevel::Fp16 => self.reaches(7, 0),
            PrecisionLevel::Bf16 => self.reaches(8, 0),
            PrecisionLevel::Fp8 => self.reaches(8, 9),
        }
    }

    /// All formats that this accelerator handles.
    pub fn supported_precisions(&self) -> (r: Vec<PrecisionLevel>)
        ensures
            r@ == handled(self.compute_capability, all_formats()),
    {
        let all: [PrecisionLevel; 5] = [
            PrecisionLevel::Fp32,
            PrecisionLevel::Fp16,
            PrecisionLevel::Bf16,
            PrecisionLevel::Fp8,
            PrecisionLevel::Int8,
        ];
        let ghost pred = |p: PrecisionLevel| handles(self.compute_capability, p);
        let mut out: Vec<PrecisionLevel> = Vec::new();
        let mut i: usize = 0;
        proof {
            assert(all@ =~= all_formats());
            reveal(Seq::filter);
            assert(all@.take(0).filter(pred) =~= Seq::<PrecisionLevel>::empty());
        }
        while i < 5
            invariant
                i <= 5,
                all@.len() == 5,
                pred == (|p: PrecisionLevel| handles(self.compute_capability, p)),
                out@ == all@.take(i as int).filter(pred),
            decreases 5 - i,
        {
            proof {
                assert(all@.take(i + 1) =~= all@.take(i as int).push(all@[i as int]));
                all@.take(i as int).lemma_filter_push(all@[i as int], pred);
            }
            if self.supports(all[i]) {
                out.push(all[i]);
            }
            i = i + 1;
        }
        proof {
            assert(all@.take(i as int) =~= all@);
        }
        out
    }

    /// The accelerator that is taken where none is named.
    pub fn detect() -> (r: Self)
        ensures
            r.compute_capability == (8u32, 9u32),
            r.name@ == "RTX 4060"@,
    {
        GpuCaps::rtx4060()
    }
}

/// A graph's shape, and the ratios of its nodes that are seeds and outliers. The ratios are the
/// bits of an `f64`.
#[derive(Clone, Copy)]
pub struct GraphConfig {
    pub k: usize,
    pub n: usize,
    pub dim: usize,
    pub seed_ratio: u64,
    pub outlier_ratio: u64,
    pub gpu_caps: Option<GpuCaps>,
}

/// An edge; the distance is the bits of an `f32`.
#[derive(Debug, Clone, Copy, PartialEq, Eq, Structural)]
pub struct Edge {
    pub from: usize,
    pub to: usize,
    pub distance: u32,
    pub precision: PrecisionLevel,
}

/// A neighbour graph at mixed precision.
pub struct ApgcGraph {
    pub edges: Vec<Vec<Edge>>,
    pub precision_map: Vec<PrecisionLevel>,
    pub n: usize,
    pub k: usize,
    pub config: GraphConfig,
}

/// The capability that a configuration assumes.
pub open spec fn capability(c: GraphConfig) -> (u32, u32) {
    match c.gpu_caps {
        Some(g) => g.compute_capability,
        None => (8, 9),
    }
}

/// How many of `n` nodes a ratio makes.
pub open spec fn part(n: usize, ratio: u64) -> nat {
    ratios::share_down(n as nat, ratio as nat, DOUBLE as nat, usize::MAX as nat)
}

/// The place of the first near-outlier: nine tenths of the way.
pub open spec fn near_outliers(n: usize) -> nat {
    ratios::capped(
        rounding::times(n as nat, 90, 100, DOUBLE as nat) / rounding::one(),
        usize::MAX as nat,
    )
}

/// A ratio of no more than 1 makes no more than all of the nodes.
pub proof fn law_part_is_at_most_all(n: usize, ratio: u64)
    requires
        n <= DOUBLE,
        ratio <= 0x3FF0_0000_0000_0000,
    ensures
        part(n, ratio) <= n,
{
    ratios::lemma_share_at_most_all(n as nat, ratio as nat, usize::MAX as nat);
}

/// How many of `n` nodes a ratio makes.
pub fn part_of(n: usize, ratio: u64) -> (r: usize)
    ensures
        r == part(n, ratio),
{
    share_down_of(n as u64, ratio, DOUBLE, usize::MAX as u64) as usize
}

/// The format of a node: full precision for seeds, the widest two-byte format for most,
/// one byte for near-outliers and outliers, and the next wider format where the
/// accelerator does not handle one.
pub open spec fn tier(c: GraphConfig, i: int) -> PrecisionLevel {
    let cc = capability(c);
    let half = if handles(cc, PrecisionLevel::Fp16) {
        PrecisionLevel::Fp16
    } else {
        PrecisionLevel::Fp32
    };
    if i < part(c.n, c.seed_ratio) {
        PrecisionLevel::Fp32
    } else if i < near_outliers(c.n) {
        if handles(cc, PrecisionLevel::Bf16) {
            PrecisionLevel::Bf16
        } else {
            half
        }
    } else if i < c.n - part(c.n, c.outlier_ratio) {
        if handles(cc, PrecisionLevel::Fp8) {
            PrecisionLevel::Fp8
        } else {
            half
        }
    } else {
        PrecisionLevel::Int8
    }
}

impl ApgcGraph {
    /// A graph without edges, every node at half precision.
    pub fn new(config: GraphConfig) -> (r: Self)
        ensures
            r.config == config,
            r.n == config.n,
            r.k == config.k,
            r.edges@.len() == config.n,
            forall|i: int| 0 <= i < config.n ==> (#[trigger] r.edges@[i])@.len() == 0,
            r.precision_map@ == Seq::new(config.n as nat, |i: int| PrecisionLevel::Fp16),
    {
        let mut edges: Vec<Vec<Edge>> = Vec::new();
        let mut precision_map: Vec<PrecisionLevel> = Vec::new();
        let mut i: usize = 0;
        while i < config.n
            invariant
                i <= config.n,
                edges@.len() == i,
                forall|x: int| 0 <= x < i ==> (#[trigger] edges@[x])@.len() == 0,
                precision_map@ == Seq::new(i as nat, |x: int| PrecisionLevel::Fp16),
            decreases config.n - i,
        {
            edges.push(Vec::new());
            precision_map.push(PrecisionLevel::Fp16);
            i = i + 1;
            proof {
                assert(precision_map@ =~= Seq::new(i as nat, |x: int| PrecisionLevel::Fp16));
            }
        }
        ApgcGraph { edges, precision_map, n: config.n, k: config.k, config }
    }

    /// Assigns every node its format.
    pub fn assign_precision(&mut self)
        requires
            part(old(self).config.n, old(self).config.outlier_ratio) <= old(self).config.n,
            old(self).precision_map@.len() == old(self).config.n,
        ensures
            final(self).precision_map@ == Seq::new(
                old(self).config.n as nat,
                |i: int| tier(old(self).config, i),
            ),
            final(self).edges == old(self).edges,
            final(self).n == old(self).n,
            final(self).k == old(self).k,
            final(self).config == old(self).config,
    {
        let config: GraphConfig = self.config;
        let gpu: GpuCaps = match config.gpu_caps {
            Some(g) => g,
            None => GpuCaps::rtx4060(),
        };
        let seed_count: usize = part_of(config.n, config.seed_ratio);
        let fp8_start: usize = times_down(config.n as u64, 90, 100, DOUBLE, usize::MAX as u64)
            as usize;
        let outlier_start: usize = config.n - part_of(config.n, config.outlier_ratio);
        let mut map: Vec<PrecisionLevel> = Vec::new();
        let mut i: usize = 0;
        while i < config.n
            invariant
                i <= config.n,
                seed_count == part(config.n, config.seed_ratio),
                fp8_start == near_outliers(config.n),
                outlier_start == config.n - part(config.n, config.outlier_ratio),
                gpu.compute_capability == capability(config),
                map@ == Seq::new(i as nat, |x: int| tier(config, x)),
            decreases config.n - i,
        {
            let p: PrecisionLevel = if i < seed_count {
                PrecisionLevel::Fp32
            } else if i < fp8_start {
                if gpu.supports(PrecisionLevel::Bf16) {
                    PrecisionLevel::Bf16
                } else if gpu.supports(PrecisionLevel::Fp16) {
                    PrecisionLevel::Fp16
                } else {
                    PrecisionLevel::Fp32
                }
            } else if i < outlier_start {
                if gpu.supports(PrecisionLevel::Fp8) {
                    PrecisionLevel::Fp8
                } else if gpu.supports(PrecisionLevel::Fp16) {
                    PrecisionLevel::Fp16
                } else {
                    PrecisionLevel::Fp32
                }
            } else {
                PrecisionLevel::Int8
            };
            map.push(p);
            i = i + 1;
            proof {
                assert(map@ =~= Seq::new(i as nat, |x: int| tier(config, x)));
            }
        }
        self.precision_map = map;
    }
}

/// A node is only ever given a format that the accelerator handles.
pub proof fn law_assigned_formats_are_supported(c: GraphConfig, i: int)
    ensures
        handles(capability(c), tier(c, i)),
{
}

/// A newer accelerator handles every format that an older one does.
pub proof fn law_support_grows(older: (u32, u32), newer: (u32, u32), p: PrecisionLevel)
    requires
        at_least(newer, older),
        handles(older, p),
    ensures
        handles(newer, p),
{
}

/// Builds neighbour graphs from distances at mixed precision.
pub struct MixedPrecisionBuilder;

/// The nodes other than `i`, in their order.
pub open spec fn others(i: int, n: int) -> Seq<usize>
    decreases n,
{
    if n <= 0 {
        Seq::empty()
    } else if n - 1 == i {
        others(i, n - 1)
    } else {
        others(i, n - 1).push((n - 1) as usize)
    }
}

/// The distances of the nodes in `to`.
pub open spec fn distances_to(row: Seq<u32>, to: Seq<usize>) -> Seq<u32> {
    Seq::new(to.len(), |x: int| row[to[x] as int])
}

/// `r` is the list of the `k` nearest nodes to `i`, nearest first, equal distances in the
/// order of the nodes.
pub open spec fn nearest_row(
    i: int,
    row: Seq<u32>,
    k: nat,
    precision: PrecisionLevel,
    r: Seq<Edge>,
) -> bool {
    let to = others(i, row.len() as int);
    exists|p: Seq<usize>| #[trigger]
        order::first_places(order::low_keys(distances_to(row, to)), k, p) && r == Seq::new(
            p.len(),
            |x: int|
                Edge {
                    from: i as usize,
                    to: to[p[x] as int],
                    distance: row[to[p[x] as int] as int],
                    precision,
                },
        )
}

proof fn lemma_others(i: int, n: int)
    requires
        n <= usize::MAX,
    ensures
        forall|x: int| 0 <= x < others(i, n).len() ==> (#[trigger] others(i, n)[x]) < n,
        forall|x: int| 0 <= x < others(i, n).len() ==> (#[trigger] others(i, n)[x]) != i,
    decreases n,
{
    if n > 0 {
        lemma_others(i, n - 1);
        let rest = others(i, n - 1);
        assert forall|x: int| 0 <= x < others(i, n).len() implies (#[trigger] others(i, n)[x]) < n
            && others(i, n)[x] != i by {
            if x < rest.len() {
                assert(others(i, n)[x] == rest[x]);
            }
        }
    }
}

impl MixedPrecisionBuilder {
    /// The nearest neighbours of a node, given its distance to every node.
    pub fn nearest(i: usize, row: &Vec<u32>, k: usize, precision: PrecisionLevel) -> (r: Vec<Edge>)
        ensures
            nearest_row(i as int, row@, k as nat, precision, r@),
    {
        let n: usize = row.len();
        let mut to: Vec<usize> = Vec::new();
        let mut dist: Vec<u32> = Vec::new();
        let mut j: usize = 0;
        proof {
            assert(dist@ =~= distances_to(row@, to@));
        }
        while j < n
            invariant
                j <= n == row@.len(),
                to@ == others(i as int, j as int),
                dist@ == distances_to(row@, to@),
            decreases n - j,
        {
            if j != i {
                to.push(j);
                dist.push(row[j]);
                proof {
                    assert(dist@ =~= distances_to(row@, to@));
                }
            }
            j = j + 1;
        }
        let p = lowest(&dist, k);
        proof {
            lemma_others(i as int, n as int);
            order::law_first_places_are_best(order::low_keys(dist@), k as nat, p@);
        }
        let mut out: Vec<Edge> = Vec::new();
        let mut x: usize = 0;
        while x < p.len()
            invariant
                x <= p@.len(),
                dist@ == distances_to(row@, to@),
                dist@.len() == to@.len(),
                forall|y: int| 0 <= y < p@.len() ==> (#[trigger] p@[y]) < to@.len(),
                out@ == Seq::new(
                    x as nat,
                    |y: int|
                        Edge {
                            from: i,
                            to: to@[p@[y] as int],
                            distance: row@[to@[p@[y] as int] as int],
                            precision,
                        },
                ),
            decreases p@.len() - x,
        {
            out.push(Edge { from: i, to: to[p[x]], distance: dist[p[x]], precision });
            x = x + 1;
            proof {
                assert(out@ =~= Seq::new(
                    x as nat,
                    |y: int|
                        Edge {
                            from: i,
                            to: to@[p@[y] as int],
                            distance: row@[to@[p@[y] as int] as int],
                            precision,
                        },
                ));
            }
        }
        out
    }

    /// Builds a graph. `rows[i]` holds the distances of node `i` to every node, taken at the
    /// format that the node is assigned.
    pub fn build(rows: &Vec<Vec<u32>>, config: GraphConfig) -> (r: ApgcGraph)
        requires
            rows@.len() == config.n,
            forall|i: int| 0 <= i < config.n ==> (#[trigger] rows@[i])@.len() == config.n,
            part(config.n, config.outlier_ratio) <= config.n,
        ensures
            r.config == config,
            r.n == config.n,
            r.k == config.k,
            r.precision_map@ == Seq::new(config.n as nat, |i: int| tier(config, i)),
            r.edges@.len() == config.n,
            forall|i: int|
                0 <= i < config.n ==> nearest_row(
                    i,
                    rows@[i]@,
                    config.k as nat,
                    tier(config, i),
                    (#[trigger] r.edges@[i])@,
                ),
    {
        let mut graph = ApgcGraph::new(config);
        graph.assign_precision();
        let mut edges: Vec<Vec<Edge>> = Vec::new();
        let mut i: usize = 0;
        while i < config.n
            invariant
                i <= config.n,
                rows@.len() == config.n,
                graph.precision_map@ == Seq::new(config.n as nat, |x: int| tier(config, x)),
                edges@.len() == i,
                forall|x: int|
                    0 <= x < i ==> nearest_row(
                        x,
                        rows@[x]@,
                        config.k as nat,
                        tier(config, x),
                        (#[trigger] edges@[x])@,
                    ),
            decreases config.n - i,
        {
            edges.push(Self::nearest(i, &rows[i], config.k, graph.precision_map[i]));
            i = i + 1;
        }
        graph.edges = edges;
        graph
    }

    /// The bits of an `f32` after a round trip through FP16: sign, exponent and the ten
    /// leading bits of the fraction.
    pub fn to_fp16_approx(bits: u32) -> (r: u32)
        ensures
            r == bits & 0xFFFF_E000,
    {
        let sign: u32 = bits & 0x8000_0000;
        let exp: u32 = (bits >> 23) & 0xFF;
        let fraction: u32 = bits & 0x007F_E000;
        let r: u32 = sign | (exp << 23) | fraction;
        assert(((bits & 0x8000_0000) | (((bits >> 23) & 0xFF) << 23) | (bits & 0x007F_E000)) == bits
            & 0xFFFF_E000) by (bit_vector);
        r
    }

    /// The bits of an `f32` after a round trip through BF16, with the fraction cut as in
    /// FP16.
    pub fn to_bf16_approx(bits: u32) -> (r: u32)
        ensures
            r == bits & 0xFFFF_E000,
    {
        let sign: u32 = bits & 0x8000_0000;
        let exp: u32 = bits & 0x7F80_0000;
        let fraction: u32 = bits & 0x007F_E000;
        let r: u32 = sign | exp | fraction;
        assert(((bits & 0x8000_0000) | (bits & 0x7F80_0000) | (bits & 0x007F_E000)) == bits
            & 0xFFFF_E000) by (bit_vector);
        r
    }

    /// The bits of an `f32` after a round trip through FP8: sign, exponent and the two
    /// leading bits of the fraction.
    pub fn to_fp8_approx(bits: u32) -> (r: u32)
        ensures
            r == bits & 0xFFE0_0000,
    {
        let sign: u32 = bits & 0x8000_0000;
        let exp: u32 = (bits >> 23) & 0xFF;
        let fraction: u32 = bits & 0x0060_0000;
        let r: u32 = sign | (exp << 23) | fraction;
        assert(((bits & 0x8000_0000) | (((bits >> 23) & 0xFF) << 23) | (bits & 0x0060_0000)) == bits
            & 0xFFE0_0000) by (bit_vector);
        r
    }
}

/// A neighbour list never holds the node itself, holds no node twice, and has `k` entries
/// or all other nodes.
pub proof fn law_neighbours_are_others(
    i: int,
    row: Seq<u32>,
    k: nat,
    precision: PrecisionLevel,
    r: Seq<Edge>,
)
    requires
        row.len() <= usize::MAX,
        nearest_row(i, row, k, precision, r),
    ensures
        r.len() <= k,
        0 <= i < row.len() ==> r.len() == (if k < row.len() - 1 {
            k as int
        } else {
            row.len() - 1
        }),
        forall|x: int| 0 <= x < r.len() ==> (#[trigger] r[x]).to != i && r[x].to < row.len(),
        forall|x: int, y: int|
            0 <= x < y < r.len() ==> (#[trigger] r[x]).to != (#[trigger] r[y]).to,
{
    let n = row.len() as int;
    let to = others(i, n);
    let keys = order::low_keys(distances_to(row, to));
    let p = choose|p: Seq<usize>| #[trigger]
        order::first_places(keys, k, p) && r == Seq::new(
            p.len(),
            |x: int|
                Edge {
                    from: i as usize,
                    to: to[p[x] as int],
                    distance: row[to[p[x] as int] as int],
                    precision,
                },
        );
    lemma_others(i, n);
    lemma_others_rise(i, n);
    order::law_first_places_are_best(keys, k, p);
    assert forall|x: int, y: int| 0 <= x < y < r.len() implies (#[trigger] r[x]).to != (
    #[trigger] r[y]).to by {
        assert(p[x] != p[y]);
        let a = p[x] as int;
        let b = p[y] as int;
        if a < b {
            assert(to[a] < to[b]);
        } else {
            assert(to[b] < to[a]);
        }
    }
}

proof fn lemma_others_rise(i: int, n: int)
    requires
        n <= usize::MAX,
    ensures
        forall|x: int, y: int|
            0 <= x < y < others(i, n).len() ==> (#[trigger] others(i, n)[x]) < (#[trigger] others(
                i,
                n,
            )[y]),
        others(i, n).len() == (if n <= 0 {
            0
        } else if 0 <= i < n {
            n - 1
        } else {
            n
        }),
    decreases n,
{
    if n > 0 {
        lemma_others_rise(i, n - 1);
        lemma_others(i, n - 1);
    }
}

/// Capabilities are compared by their major number first, then by the minor one.
pub proof fn law_capabilities_are_ordered(a: (u32, u32), b: (u32, u32))
    ensures
        at_least(a, b) || at_least(b, a),
        at_least(a, b) && at_least(b, a) ==> a == b,
        a.0 > b.0 ==> at_least(a, b) && !at_least(b, a),
        a.0 == b.0 ==> at_least(a, b) == (a.1 >= b.1),
{
}

/// Full precision and one byte always go, and a device that handles the newest format handles all.
pub proof fn law_plain_formats_always_go(cc: (u32, u32), p: PrecisionLevel)
    ensures
        handles(cc, PrecisionLevel::Fp32),
        handles(cc, PrecisionLevel::Int8),
        handles(cc, PrecisionLevel::Fp8) ==> handles(cc, PrecisionLevel::Bf16),
        handles(cc, PrecisionLevel::Bf16) ==> handles(cc, PrecisionLevel::Fp16),
        cc.0 >= 9 ==> handles(cc, p),
        cc.0 == 8 && cc.1 < 9 ==> (handles(cc, p) <==> !(p is Fp8)),
        cc.0 == 7 ==> (handles(cc, p) <==> !(p is Fp8) && !(p is Bf16)),
        cc.0 < 7 ==> (handles(cc, p) <==> p is Fp32 || p is Int8),
{
}

/// The further behind a node stands, the fewer bytes its components get: seeds have them all, and
/// the outliers at the end one.
pub proof fn law_formats_narrow_along_the_nodes(c: GraphConfig, i: int, j: int)
    requires
        i <= j,
    ensures
        tier(c, i).width() >= tier(c, j).width(),
        i < part(c.n, c.seed_ratio) ==> tier(c, i).width() == 4,
        j >= part(c.n, c.seed_ratio) && j >= near_outliers(c.n) && j >= c.n - part(
            c.n,
            c.outlier_ratio,
        ) ==> tier(c, j).width() == 1,
        part(c.n, c.seed_ratio) <= i < near_outliers(c.n) && handles(
            capability(c),
            PrecisionLevel::Fp16,
        ) ==> tier(c, i).width() == 2,
{
}

proof fn lemma_others_all(i: int, n: int, x: int)
    requires
        n <= usize::MAX,
        0 <= x < n,
        x != i,
    ensures
        others(i, n).contains(x as usize),
    decreases n,
{
    let all = others(i, n);
    if x == n - 1 {
        assert(all.last() == x as usize);
    } else {
        lemma_others_all(i, n - 1, x);
        let rest = others(i, n - 1);
        let p = choose|p: int| 0 <= p < rest.len() && rest[p] == x as usize;
        assert(all[p] == x as usize);
    }
}

/// The neighbours of a node are the nearest of the others: listed by distance, each with its own
/// and with the format asked for, and no other node that is left out is nearer than one of them.
pub proof fn law_neighbours_are_nearest(
    i: int,
    row: Seq<u32>,
    k: nat,
    precision: PrecisionLevel,
    r: Seq<Edge>,
    x: int,
)
    requires
        row.len() <= usize::MAX,
        0 <= i < row.len(),
        nearest_row(i, row, k, precision, r),
        0 <= x < row.len(),
        x != i,
        forall|y: int| 0 <= y < r.len() ==> (#[trigger] r[y]).to != x,
    ensures
        r.len() == k,
        forall|y: int|
            0 <= y < r.len() ==> {
                &&& (#[trigger] r[y]).from == i
                &&& r[y].precision == precision
                &&& r[y].to < row.len()
                &&& r[y].distance == row[r[y].to as int]
                &&& order::float_key(r[y].distance) <= order::float_key(row[x])
            },
        forall|y: int, z: int|
            0 <= y < z < r.len() ==> order::float_key((#[trigger] r[y]).distance)
                <= order::float_key((#[trigger] r[z]).distance),
{
    let to = others(i, row.len() as int);
    let d = distances_to(row, to);
    let p = choose|p: Seq<usize>| #[trigger]
        order::first_places(order::low_keys(distances_to(row, to)), k, p) && r == Seq::new(
            p.len(),
            |x: int|
                Edge {
                    from: i as usize,
                    to: to[p[x] as int],
                    distance: row[to[p[x] as int] as int],
                    precision,
                },
        );
    lemma_others(i, row.len() as int);
    lemma_others_all(i, row.len() as int, x);
    order::law_lowest_are_lowest(d, k, p);
    let q = choose|q: int| 0 <= q < to.len() && to[q] == x as usize;
    if p.contains(q as usize) {
        let y = choose|y: int| 0 <= y < p.len() && p[y] == q as usize;
        assert(r[y].to == x);
    }
    assert(d[q] == row[x]);
    assert forall|y: int| 0 <= y < r.len() implies (#[trigger] r[y]).distance == d[p[y] as int]
        && r[y].to < row.len() by {
        assert(p[y] < to.len());
    }
    if p.len() < k {
        crate::truth::lemma_full_list_holds_all(p, d.len(), q as usize);
    }
}

/// The near-outliers begin nine tenths of the way along the nodes, rounded down.
pub proof fn law_near_outliers_begin_at_nine_tenths(n: usize)
    requires
        n <= 0x8000_0000,
    ensures
        90 * n - 100 <= 100 * near_outliers(n) <= 90 * n,
{
    let one = rounding::one();
    let t = rounding::times(n as nat, 90, 100, DOUBLE as nat);
    rounding::law_times_is_close(n as nat, 90, 100);
    vstd::arithmetic::power2::lemma_pow2_pos(128);
    let k = t / one;
    assert(k * one <= t < k * one + one) by (nonlinear_arith)
        requires
            k == t / one,
            one > 0,
    ;
    assert(n as nat * 90 * one == (90 * n) * one);
    assert(100 * k <= 90 * n) by (nonlinear_arith)
        requires
            k * one <= t,
            100 * t < (90 * n) * one + one,
            one > 0,
    ;
    assert(90 * n <= 100 * k + 100) by (nonlinear_arith)
        requires
            t < k * one + one,
            (90 * n) * one < 100 * t + one,
            one > 0,
    ;
    assert(k <= n);
}

} // verus!
