//! The inference pipeline: which nodes to look at, which heads and rank to use, and which
//! chunks to fetch, from the importance of the tokens and the size of the graph.
use crate::kv_prune;
use crate::kv_prune::{AttentionScores, KvSearchPruner};
use crate::opusedge;
use crate::opusedge::{
    ArchType, CompressionResult, DeltaRank, DeltaSignal, EvictionResult, HeadDeactivate, SelKV, StateCompress,
};
use crate::order;
use crate::precision;
use crate::precision::{ApgcGraph, GpuCaps, GraphConfig, MixedPrecisionBuilder};
use vstd::prelude::*;

verus! {

/// Nodes that the pruner looks at, at most.
pub const FRONTIER: usize = 1000;

/// Attention heads.
pub const HEADS: usize = 32;

/// Channels of a hidden state.
pub const CHANNELS: usize = 1024;

/// The highest projection rank.
pub const MAX_RANK: usize = 128;

/// Pruned nodes whose chunks are fetched ahead.
pub const AHEAD: usize = 16;

/// The bits of 0.5, the score from which a state is kept whole.
pub const WHOLE_STATE: u32 = 0x3F00_0000;

/// The bits of 0.5, the ratio of the channels that are kept.
pub const KEPT: u32 = 0x3F00_0000;

/// The bits of 0.25, the ratio of the tokens that are evicted.
pub const EVICTED: u32 = 0x3E80_0000;

/// The bits of 0.01, the ratio of the nodes that are seeds.
pub const SEEDS: u64 = 0x3F84_7AE1_47AE_147B;

/// The bits of 0.1, the ratio of the nodes that are outliers.
pub const OUTLIERS: u64 = 0x3FB9_9999_9999_999A;

/// What the floating-point side of a query gives: the bits of the entropy of the scores, and of
/// their mean.
#[derive(Debug, Clone, Copy, PartialEq, Eq, Structural)]
pub struct Measures {
    pub entropy: u32,
    pub mean: u32,
}

/// The outcome of a query.
#[derive(Debug)]
pub struct SearchResult {
    pub eviction: EvictionResult,
    /// The nodes to visit, most important first.
    pub pruned: Vec<usize>,
    /// The first of them.
    pub top_k: Vec<usize>,
    /// The nodes whose chunks are fetched ahead.
    pub ahead: Vec<usize>,
    pub active_heads: usize,
    pub compression: CompressionResult,
    pub rank: usize,
}

/// The first `k` entries, or all of them.
pub open spec fn front(s: Seq<usize>, k: nat) -> Seq<usize> {
    if k < s.len() {
        s.take(k as int)
    } else {
        s
    }
}

fn first_of(s: &Vec<usize>, k: usize) -> (r: Vec<usize>)
    ensures
        r@ == front(s@, k as nat),
{
    let n: usize = if k < s.len() { k } else { s.len() };
    let mut out: Vec<usize> = Vec::new();
    let mut i: usize = 0;
    while i < n
        invariant
            i <= n <= s@.len(),
            out@ == s@.take(i as int),
        decreases n - i,
    {
        out.push(s[i]);
        i = i + 1;
        proof {
            assert(out@ =~= s@.take(i as int));
        }
    }
    proof {
        assert(out@ =~= front(s@, k as nat));
    }
    out
}

/// `r` is the outcome of a query on a graph of `graph_n` nodes.
pub open spec fn answers(
    graph_n: usize,
    delta: DeltaSignal,
    m: Measures,
    beam_width: usize,
    k: usize,
    r: SearchResult,
) -> bool {
    &&& order::first_places(
        order::low_keys(delta.scores@),
        opusedge::part(delta.seq_len, EVICTED),
        r.eviction.evicted_indices@,
    )
    &&& r.eviction.retained_indices@ == opusedge::without(
        delta.seq_len as int,
        r.eviction.evicted_indices@,
    )
    &&& kv_prune::most_attended(
        kv_prune::within(
            opusedge::span(
                0,
                if graph_n < FRONTIER {
                    graph_n as int
                } else {
                    FRONTIER as int
                },
            ),
            delta.seq_len,
        ),
        delta.scores@,
        beam_width as nat,
        r.pruned@,
    )
    &&& r.top_k@ == front(r.pruned@, k as nat)
    &&& r.ahead@ == front(r.pruned@, AHEAD as nat)
    &&& r.active_heads == opusedge::active(m.entropy, HEADS)
    &&& r.compression.channels_kept == (if opusedge::reaches(m.mean, WHOLE_STATE) {
        CHANNELS
    } else {
        opusedge::kept(CHANNELS, KEPT)
    })
    &&& r.compression.channels_kept + r.compression.channels_zeroed == CHANNELS
    &&& r.rank == opusedge::rank_for(m.mean, MAX_RANK)
}

/// Whether every node of the frontier that lies in the sequence has a score.
pub open spec fn frontier_scored(graph_n: usize, delta: DeltaSignal) -> bool {
    ||| graph_n <= delta.scores@.len()
    ||| FRONTIER <= delta.scores@.len()
    ||| delta.seq_len <= delta.scores@.len()
}

/// Runs a query on a graph of `graph_n` nodes.
fn run_query(
    graph_n: usize,
    delta: &DeltaSignal,
    m: Measures,
    threshold: u32,
    beam_width: usize,
    k: usize,
) -> (r: SearchResult)
    requires
        frontier_scored(graph_n, *delta),
    ensures
        answers(graph_n, *delta, m, beam_width, k, r),
{
    let eviction = SelKV::evict(delta, EVICTED, graph_n);
    let pruner = KvSearchPruner::new(threshold, beam_width);
    let mut scores: Vec<u32> = Vec::new();
    let mut i: usize = 0;
    while i < delta.scores.len()
        invariant
            i <= delta.scores@.len(),
            scores@ == delta.scores@.take(i as int),
        decreases delta.scores@.len() - i,
    {
        scores.push(delta.scores[i]);
        i = i + 1;
        proof {
            assert(scores@ =~= delta.scores@.take(i as int));
        }
    }
    proof {
        assert(scores@ =~= delta.scores@);
    }
    let attention = AttentionScores { scores, seq_len: delta.seq_len };
    let frontier: usize = if graph_n < FRONTIER { graph_n } else { FRONTIER };
    let candidates = opusedge::run(0, frontier);
    let pruned = pruner.prune_candidates(&candidates, &attention);
    let gate = HeadDeactivate::gate(m.entropy, HEADS);
    let compression = StateCompress::compress(CHANNELS, m.mean, WHOLE_STATE, KEPT);
    let rank: usize = DeltaRank::score_to_rank(m.mean, MAX_RANK);
    let top_k = first_of(&pruned, k);
    let ahead = first_of(&pruned, AHEAD);
    SearchResult {
        eviction,
        pruned,
        top_k,
        ahead,
        active_heads: gate.active_heads.len(),
        compression,
        rank,
    }
}

/// How an engine is set up. The threshold is the bits of an `f32`, the ratios are those of an
/// `f64`.
#[derive(Debug, Clone, Copy, PartialEq, Eq, Structural)]
pub struct EngineConfig {
    pub arch: ArchType,
    pub kv_prune_threshold: u32,
    pub beam_width: usize,
    pub graph_k: usize,
    pub graph_seed_ratio: u64,
    pub graph_outlier_ratio: u64,
}

impl Default for EngineConfig {
    fn default() -> (r: Self)
        ensures
            r.arch == ArchType::Dense,
            r.kv_prune_threshold == 0x3F00_0000,
            r.beam_width == 32,
            r.graph_k == 32,
            r.graph_seed_ratio == SEEDS,
            r.graph_outlier_ratio == OUTLIERS,
    {
        EngineConfig {
            arch: ArchType::Dense,
            kv_prune_threshold: 0x3F00_0000,
            beam_width: 32,
            graph_k: 32,
            graph_seed_ratio: SEEDS,
            graph_outlier_ratio: OUTLIERS,
        }
    }
}

/// The inference engine: its configuration, and the graph once it was built.
pub struct Engine {
    pub config: EngineConfig,
    pub graph: Option<ApgcGraph>,
}

impl Engine {
    /// An engine without a graph.
    pub fn new(config: EngineConfig) -> (r: Self)
        ensures
            r.config == config,
            r.graph is None,
    {
        Engine { config, graph: None }
    }

    /// Builds the neighbour graph from the distances between the vectors, taken at the format
    /// that each node is assigned.
    pub fn build_graph(&mut self, rows: &Vec<Vec<u32>>, dim: usize)
        requires
            forall|i: int| 0 <= i < rows@.len() ==> (#[trigger] rows@[i])@.len() == rows@.len(),
            precision::part(rows@.len() as usize, old(self).config.graph_outlier_ratio)
                <= rows@.len(),
        ensures
            final(self).config == old(self).config,
            final(self).graph matches Some(g) && {
                &&& g.n == rows@.len()
                &&& g.k == old(self).config.graph_k
                &&& g.config.dim == dim
                &&& g.config.n == rows@.len()
                &&& g.config.seed_ratio == old(self).config.graph_seed_ratio
                &&& g.config.outlier_ratio == old(self).config.graph_outlier_ratio
                &&& precision::capability(g.config) == (8u32, 9u32)
                &&& g.precision_map@ == Seq::new(
                    rows@.len(),
                    |i: int| precision::tier(g.config, i),
                )
                &&& g.edges@.len() == rows@.len()
                &&& forall|i: int|
                    0 <= i < rows@.len() ==> precision::nearest_row(
                        i,
                        rows@[i]@,
                        g.k as nat,
                        precision::tier(g.config, i),
                        (#[trigger] g.edges@[i])@,
                    )
            },
    {
        let config = GraphConfig {
            k: self.config.graph_k,
            n: rows.len(),
            dim,
            seed_ratio: self.config.graph_seed_ratio,
            outlier_ratio: self.config.graph_outlier_ratio,
            gpu_caps: Some(GpuCaps::detect()),
        };
        self.graph = Some(MixedPrecisionBuilder::build(rows, config));
    }

    /// Runs a query: evicts, prunes, gates heads, and picks a rank and the chunks to fetch.
    pub fn search(&self, delta: &DeltaSignal, m: Measures, k: usize) -> (r: SearchResult)
        requires
            self.graph is Some,
            frontier_scored(self.graph->0.n, *delta),
        ensures
            answers(self.graph->0.n, *delta, m, self.config.beam_width, k, r),
    {
        let n: usize = match &self.graph {
            Some(g) => g.n,
            None => 0,
        };
        run_query(n, delta, m, self.config.kv_prune_threshold, self.config.beam_width, k)
    }
}

/// At least one head always works, and the rank is never more than the maximum.
pub proof fn law_pipeline_never_stops(entropy: u32, mean: u32)
    ensures
        1 <= opusedge::active(entropy, HEADS) <= HEADS,
        1 <= opusedge::rank_for(mean, MAX_RANK) <= MAX_RANK,
{
}

/// A query looks at nodes of the graph and of the sequence only, at most a thousand of them, the
/// most attended first; what it gives back and what it fetches ahead are the first of those.
pub proof fn law_query_looks_at_the_most_attended(
    graph_n: usize,
    delta: DeltaSignal,
    m: Measures,
    beam_width: usize,
    k: usize,
    r: SearchResult,
    x: int,
)
    requires
        answers(graph_n, delta, m, beam_width, k, r),
        0 <= x < graph_n,
        x < 1000,
        x < delta.seq_len,
    ensures
        r.pruned@.len() <= beam_width,
        forall|i: int|
            0 <= i < r.pruned@.len() ==> (#[trigger] r.pruned@[i]) < graph_n && r.pruned@[i] < 1000
                && r.pruned@[i] < delta.seq_len,
        forall|i: int, j: int|
            0 <= i < j < r.pruned@.len() ==> order::float_key(
                delta.scores@[(#[trigger] r.pruned@[i]) as int],
            ) >= order::float_key(delta.scores@[(#[trigger] r.pruned@[j]) as int]),
        !r.pruned@.contains(x as usize) ==> r.pruned@.len() == beam_width && forall|i: int|
            0 <= i < r.pruned@.len() ==> order::float_key(
                delta.scores@[(#[trigger] r.pruned@[i]) as int],
            ) >= order::float_key(delta.scores@[x]),
        r.top_k@.is_prefix_of(r.pruned@),
        r.top_k@.len() == (if k < r.pruned@.len() {
            k as nat
        } else {
            r.pruned@.len()
        }),
        r.ahead@.is_prefix_of(r.pruned@),
        r.ahead@.len() == (if 16 < r.pruned@.len() {
            16
        } else {
            r.pruned@.len()
        }),
{
    let top = if graph_n < FRONTIER {
        graph_n as int
    } else {
        FRONTIER as int
    };
    let frontier = opusedge::span(0, top);
    assert(frontier[x] == x as usize);
    kv_prune::law_beam_holds_the_most_attended(
        frontier,
        delta.seq_len,
        delta.scores@,
        beam_width as nat,
        r.pruned@,
        x,
    );
    assert forall|i: int| 0 <= i < r.pruned@.len() implies (#[trigger] r.pruned@[i]) < graph_n
        && r.pruned@[i] < 1000 && r.pruned@[i] < delta.seq_len by {
        assert(frontier.contains(r.pruned@[i]));
    }
    lemma_front(r.pruned@, k as nat);
    lemma_front(r.pruned@, AHEAD as nat);
}

proof fn lemma_front(s: Seq<usize>, k: nat)
    ensures
        front(s, k).is_prefix_of(s),
        front(s, k).len() == (if k < s.len() {
            k
        } else {
            s.len()
        }),
{
    let f = front(s, k);
    assert(f =~= s.subrange(0, f.len() as int));
}

/// A query evicts no token that scores above one that stays, every token of the sequence either
/// stays or leaves, and the channels that are kept and those that are zeroed are all of them.
pub proof fn law_query_evicts_the_least(
    graph_n: usize,
    delta: DeltaSignal,
    m: Measures,
    beam_width: usize,
    k: usize,
    r: SearchResult,
    out: usize,
    stays: usize,
)
    requires
        answers(graph_n, delta, m, beam_width, k, r),
        r.eviction.evicted_indices@.contains(out),
        r.eviction.retained_indices@.contains(stays),
        stays < delta.scores@.len(),
        stays < delta.seq_len,
    ensures
        order::float_key(delta.scores@[out as int]) <= order::float_key(
            delta.scores@[stays as int],
        ),
        r.compression.channels_kept + r.compression.channels_zeroed == 1024,
        1 <= r.compression.channels_kept,
        1 <= r.active_heads <= 32,
        1 <= r.rank <= 128,
        opusedge::reaches(m.mean, WHOLE_STATE) ==> r.compression.channels_zeroed == 0,
{
    opusedge::law_eviction_partitions(delta.seq_len, r.eviction.evicted_indices@, stays);
    opusedge::law_evicted_are_least(
        delta.scores@,
        opusedge::part(delta.seq_len, EVICTED),
        r.eviction.evicted_indices@,
        out,
        stays,
    );
    law_pipeline_never_stops(m.entropy, m.mean);
}

} // verus!
