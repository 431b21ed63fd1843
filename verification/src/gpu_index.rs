//! Bringing an index onto the device: what is asked of the driver, one buffer after another,
//! and what is freed where it refuses.
use crate::corpus_tier::mode_uses_tiering;
use crate::gpu_mode::ComputeMode;
use crate::gpu_plan::GPU_TOPK_MAX;
use crate::gpu_search;
use crate::gpu_search::{index_plan, GpuIndex, IndexPlan, SearchSlot, MAX_Q};
use vstd::prelude::*;

verus! {

/// How far a build has come.
#[derive(Clone, Copy, Debug, PartialEq, Eq, Structural)]
pub enum Progress {
    Going,
    Ready,
    Failed,
}

/// What a build asks for next.
#[derive(Clone, Copy, Debug, PartialEq, Eq, Structural)]
pub enum IndexAsk {
    /// The vectors in the memory tiers.
    Tier,
    /// A device buffer of so many bytes.
    Alloc(usize),
    /// A stream for a slot.
    Stream,
    /// Nothing: the index is there.
    Ready,
    /// Nothing: there will be no index.
    Failed,
}

/// An index in the making.
#[derive(Debug)]
pub struct IndexBuild {
    pub n: usize,
    pub dim: usize,
    pub degree: usize,
    pub plan: IndexPlan,
    /// Whether the tiers are still to be asked for the vectors.
    pub ask_tier: bool,
    pub tiered: bool,
    /// The buffers that are there, of seven: vectors, graph, scores, queries, numbers, result
    /// distances, and the matrix of distances.
    pub got: Vec<u64>,
    /// The buffers of the slot in the making, of four.
    pub part: Vec<u64>,
    pub slots: Vec<SearchSlot>,
    pub want_slots: usize,
    pub progress: Progress,
}

/// The bytes of the `i`-th buffer of an index.
pub open spec fn base_bytes(p: IndexPlan, i: int) -> usize {
    if i == 0 {
        p.vector_bytes
    } else if i == 1 {
        p.graph_bytes
    } else if i == 2 {
        p.delta_bytes
    } else if i == 3 {
        p.query_bytes
    } else if i == 6 {
        p.matrix_bytes
    } else {
        p.result_bytes
    }
}

/// The bytes of the `i`-th buffer of a slot.
pub open spec fn slot_bytes(p: IndexPlan, i: int) -> usize {
    if i == 0 {
        p.slot_query_bytes
    } else if i == 1 {
        p.slot_exact_bytes
    } else {
        p.slot_result_bytes
    }
}

impl IndexBuild {
    /// What the counts of a build in the making are.
    pub open spec fn wf(&self) -> bool {
        &&& self.got@.len() <= 7
        &&& self.part@.len() <= 4
        &&& self.part@.len() > 0 ==> self.got@.len() == 7
        &&& self.slots@.len() > 0 ==> self.got@.len() == 7
        &&& self.ask_tier ==> self.got@.len() == 0
        &&& self.tiered ==> self.got@.len() > 0
        &&& self.progress == Progress::Going ==> self.slots@.len() < self.want_slots
        &&& self.slots@.len() <= self.want_slots
        &&& self.progress == Progress::Ready ==> self.got@.len() == 7 && self.part@.len() == 0
        &&& self.progress == Progress::Failed ==> self.got@.len() < 7
    }

    /// What is asked for next.
    pub open spec fn asks(&self) -> IndexAsk {
        match self.progress {
            Progress::Ready => IndexAsk::Ready,
            Progress::Failed => IndexAsk::Failed,
            Progress::Going => if self.ask_tier {
                IndexAsk::Tier
            } else if self.got@.len() < 7 {
                IndexAsk::Alloc(base_bytes(self.plan, self.got@.len() as int))
            } else if self.part@.len() < 4 {
                IndexAsk::Alloc(slot_bytes(self.plan, self.part@.len() as int))
            } else {
                IndexAsk::Stream
            },
        }
    }

    /// What to ask of the driver next.
    pub fn ask(&self) -> (r: IndexAsk)
        requires
            self.wf(),
        ensures
            r == self.asks(),
    {
        match self.progress {
            Progress::Ready => IndexAsk::Ready,
            Progress::Failed => IndexAsk::Failed,
            Progress::Going => {
                if self.ask_tier {
                    return IndexAsk::Tier;
                }
                let i: usize = self.got.len();
                if i < 7 {
                    let bytes: usize = if i == 0 {
                        self.plan.vector_bytes
                    } else if i == 1 {
                        self.plan.graph_bytes
                    } else if i == 2 {
                        self.plan.delta_bytes
                    } else if i == 3 {
                        self.plan.query_bytes
                    } else if i == 6 {
                        self.plan.matrix_bytes
                    } else {
                        self.plan.result_bytes
                    };
                    return IndexAsk::Alloc(bytes);
                }
                let j: usize = self.part.len();
                if j < 4 {
                    let bytes: usize = if j == 0 {
                        self.plan.slot_query_bytes
                    } else if j == 1 {
                        self.plan.slot_exact_bytes
                    } else {
                        self.plan.slot_result_bytes
                    };
                    return IndexAsk::Alloc(bytes);
                }
                IndexAsk::Stream
            },
        }
    }

    /// Takes what was asked for.
    pub fn granted(&mut self, p: u64)
        requires
            old(self).wf(),
            old(self).progress == Progress::Going,
        ensures
            final(self).wf(),
            after_grant(*old(self), *final(self), p),
    {
        if self.ask_tier {
            self.ask_tier = false;
            self.tiered = true;
            self.got.push(p);
        } else if self.got.len() < 7 {
            self.got.push(p);
        } else if self.part.len() < 4 {
            self.part.push(p);
        } else {
            let slot = SearchSlot {
                d_q: self.part[0],
                d_qf: self.part[1],
                d_idx: self.part[2],
                d_odist: self.part[3],
                stream: p as usize,
            };
            self.slots.push(slot);
            self.part = Vec::new();
            if self.slots.len() == self.want_slots {
                self.progress = Progress::Ready;
            }
        }
    }

    /// Goes on without what was asked for, and gives the buffers to free.
    pub fn refused(&mut self) -> (r: Vec<u64>)
        requires
            old(self).wf(),
            old(self).progress == Progress::Going,
        ensures
            final(self).wf(),
            after_refusal(*old(self), *final(self)),
            r@ == freed_on_refusal(*old(self)),
    {
        let mut out: Vec<u64> = Vec::new();
        if self.ask_tier {
            self.ask_tier = false;
            proof {
                assert(out@ =~= freed_on_refusal(*old(self)));
            }
            return out;
        }
        let have: usize = self.got.len();
        if have < 7 {
            let mut i: usize = 3;
            while i < have
                invariant
                    self.got@ == old(self).got@,
                    have == self.got@.len() < 7,
                    3 <= i,
                    i <= have || have < 3,
                    have < 3 ==> out@.len() == 0,
                    have >= 3 ==> out@ == self.got@.subrange(3, i as int),
                decreases have - i,
            {
                out.push(self.got[i]);
                i = i + 1;
                proof {
                    assert(out@ =~= self.got@.subrange(3, i as int));
                }
            }
            let ghost tail = out@;
            let first: usize = if self.tiered {
                1
            } else {
                0
            };
            let mut j: usize = first;
            proof {
                assert(out@ =~= tail + self.got@.subrange(first as int, first as int));
            }
            while j < have && j < 3
                invariant
                    self.got@ == old(self).got@,
                    have == self.got@.len() < 7,
                    first <= j <= have,
                    j <= 3,
                    out@ == tail + self.got@.subrange(first as int, j as int),
                decreases have - j,
            {
                out.push(self.got[j]);
                j = j + 1;
                proof {
                    assert(out@ =~= tail + self.got@.subrange(first as int, j as int));
                }
            }
            self.progress = Progress::Failed;
            proof {
                assert(out@ =~= freed_on_refusal(*old(self)));
            }
            return out;
        }
        let mut i: usize = 0;
        while i < self.part.len()
            invariant
                self.part@ == old(self).part@,
                i <= self.part@.len(),
                out@ == self.part@.take(i as int),
            decreases self.part@.len() - i,
        {
            out.push(self.part[i]);
            i = i + 1;
            proof {
                assert(out@ =~= self.part@.take(i as int));
            }
        }
        self.part = Vec::new();
        self.progress = Progress::Ready;
        proof {
            assert(out@ =~= freed_on_refusal(*old(self)));
        }
        out
    }

    /// The index, once it is there.
    pub fn finish(self) -> (r: Option<GpuIndex>)
        requires
            self.wf(),
        ensures
            r is Some == (self.progress == Progress::Ready),
            r matches Some(x) ==> finished(self, x),
    {
        match self.progress {
            Progress::Ready => Some(
                GpuIndex {
                    d_vectors: self.got[0],
                    d_graph: self.got[1],
                    d_delta: self.got[2],
                    n: self.n,
                    dim: self.dim,
                    degree: self.degree,
                    d_query_buf: self.got[3],
                    d_idx_buf: self.got[4],
                    d_dist_buf: self.got[6],
                    d_odist_buf: self.got[5],
                    d_vec_f32: 0,
                    d_qf_buf: 0,
                    max_q: MAX_Q,
                    max_k: GPU_TOPK_MAX,
                    slots: self.slots,
                    slot_mask: 0,
                    tiered: self.tiered,
                },
            ),
            _ => None,
        }
    }
}

/// Begins to build an index of `n` vectors with `want_slots` slots of `batch` queries.
pub fn gpu_build_index(
    mode: ComputeMode,
    n: usize,
    dim: usize,
    degree: usize,
    batch: usize,
    want_slots: usize,
) -> (r: IndexBuild)
    requires
        gpu_search::index_fits(n as int, dim as int, degree as int, batch as int),
        want_slots > 0,
    ensures
        r.wf(),
        r.n == n && r.dim == dim && r.degree == degree,
        r.want_slots == want_slots,
        r.ask_tier == (mode == ComputeMode::Hybrid),
        !r.tiered,
        r.got@.len() == 0 && r.part@.len() == 0 && r.slots@.len() == 0,
        r.progress == Progress::Going,
        r.plan.vector_bytes == n * dim,
        r.plan.graph_bytes == n * degree * 4,
        r.plan.delta_bytes == n * 4,
        r.plan.query_bytes == MAX_Q * dim,
        r.plan.result_bytes == MAX_Q * GPU_TOPK_MAX * 4,
        r.plan.matrix_bytes == MAX_Q * n * 4,
        r.plan.slot_query_bytes == dim * batch,
        r.plan.slot_exact_bytes == dim * 4 * batch,
        r.plan.slot_result_bytes == GPU_TOPK_MAX * 4 * batch,
{
    IndexBuild {
        n,
        dim,
        degree,
        plan: index_plan(n, dim, degree, batch),
        ask_tier: mode_uses_tiering(mode),
        tiered: false,
        got: Vec::new(),
        part: Vec::new(),
        slots: Vec::new(),
        want_slots,
        progress: Progress::Going,
    }
}

/// Whether a build differs only in what it holds.
pub open spec fn same_shape(a: IndexBuild, b: IndexBuild) -> bool {
    a.n == b.n && a.dim == b.dim && a.degree == b.degree && a.plan == b.plan && a.want_slots
        == b.want_slots
}

/// The build `b` is `a` once the driver has granted `p`.
pub open spec fn after_grant(a: IndexBuild, b: IndexBuild, p: u64) -> bool {
    &&& same_shape(a, b)
    &&& !b.ask_tier
    &&& b.tiered == (a.tiered || a.ask_tier)
    &&& if a.got@.len() < 7 {
        &&& b.got@ == a.got@.push(p)
        &&& b.part@ == a.part@
        &&& b.slots@ == a.slots@
        &&& b.progress == Progress::Going
    } else if a.part@.len() < 4 {
        &&& b.got@ == a.got@
        &&& b.part@ == a.part@.push(p)
        &&& b.slots@ == a.slots@
        &&& b.progress == Progress::Going
    } else {
        &&& b.got@ == a.got@
        &&& b.part@.len() == 0
        &&& b.slots@ == a.slots@.push(
            SearchSlot {
                d_q: a.part@[0],
                d_qf: a.part@[1],
                d_idx: a.part@[2],
                d_odist: a.part@[3],
                stream: p as usize,
            },
        )
        &&& b.progress == (if b.slots@.len() == a.want_slots {
            Progress::Ready
        } else {
            Progress::Going
        })
    }
}

/// The build `b` is `a` once the driver has refused what was asked for. Tiers that are not to
/// be had are done without, and so are further slots; anything else ends the build.
pub open spec fn after_refusal(a: IndexBuild, b: IndexBuild) -> bool {
    &&& same_shape(a, b)
    &&& !b.ask_tier
    &&& b.tiered == a.tiered
    &&& b.got@ == a.got@
    &&& b.slots@ == a.slots@
    &&& if a.ask_tier {
        b.part@ == a.part@ && b.progress == Progress::Going
    } else if a.got@.len() < 7 {
        b.part@ == a.part@ && b.progress == Progress::Failed
    } else {
        b.part@.len() == 0 && b.progress == Progress::Ready
    }
}

/// The buffers that a build allocated itself. Vectors in the tiers belong to these.
pub open spec fn allocated(b: IndexBuild) -> Seq<u64> {
    if b.tiered {
        b.got@.skip(1)
    } else {
        b.got@
    }
}

/// The buffers to free on a refusal: all that the build allocated where it ends, the search
/// buffers first, and those of the slot in the making where it goes on without.
pub open spec fn freed_on_refusal(b: IndexBuild) -> Seq<u64> {
    let first: int = if b.tiered {
        1
    } else {
        0
    };
    if b.ask_tier {
        Seq::empty()
    } else if b.got@.len() < 3 {
        allocated(b)
    } else if b.got@.len() < 7 {
        b.got@.skip(3) + b.got@.subrange(first, 3)
    } else {
        b.part@
    }
}

/// The index `x` is made of what the build `b` holds.
pub open spec fn finished(b: IndexBuild, x: GpuIndex) -> bool {
    &&& x.d_vectors == b.got@[0]
    &&& x.d_graph == b.got@[1]
    &&& x.d_delta == b.got@[2]
    &&& x.d_query_buf == b.got@[3]
    &&& x.d_idx_buf == b.got@[4]
    &&& x.d_odist_buf == b.got@[5]
    &&& x.d_dist_buf == b.got@[6]
    &&& x.d_vec_f32 == 0 && x.d_qf_buf == 0
    &&& x.n == b.n && x.dim == b.dim && x.degree == b.degree
    &&& x.max_q == MAX_Q && x.max_k == GPU_TOPK_MAX
    &&& x.slots@ == b.slots@
    &&& x.slot_mask == 0
    &&& x.tiered == b.tiered
}

/// What became of exact vectors that were to go to the device.
#[derive(Clone, Copy, Debug, PartialEq, Eq, Structural)]
pub struct ExactEnd {
    /// Whether searches give exact distances now.
    pub live: bool,
    /// A buffer to free.
    pub freed: Option<u64>,
}

impl GpuIndex {
    /// The bytes of the buffer that the exact queries of a batch go through.
    pub fn exact_query_bytes(&self) -> (r: usize)
        requires
            self.max_q * self.dim * 4 <= usize::MAX,
        ensures
            r == self.max_q * self.dim * 4,
    {
        proof {
            assert(0 <= self.max_q * self.dim) by (nonlinear_arith)
                requires
                    0 <= self.max_q,
                    0 <= self.dim,
            ;
        }
        self.max_q * self.dim * 4
    }

    /// Takes the buffer of the exact vectors, if it was granted and filled, and that of the
    /// exact queries. It is both or neither: vectors without a buffer for queries are freed.
    pub fn take_exact(&mut self, vectors: Option<u64>, copied: bool, queries: Option<u64>) -> (r:
        ExactEnd)
        ensures
            r.live == (vectors is Some && copied && queries is Some),
            r.freed == (if r.live {
                None
            } else {
                vectors
            }),
            r.live ==> *final(self) == (GpuIndex {
                d_vec_f32: vectors->0,
                d_qf_buf: queries->0,
                ..*old(self)
            }),
            !r.live ==> *final(self) == *old(self),
    {
        if let Some(v) = vectors {
            if let Some(q) = queries {
                if copied {
                    self.d_vec_f32 = v;
                    self.d_qf_buf = q;
                    return ExactEnd { live: true, freed: None };
                }
            }
        }
        ExactEnd { live: false, freed: vectors }
    }
}

// ── laws ──────────────────────────────────────────────────────────────────

/// Where a build ends for want of memory, every buffer that it allocated is freed, and each
/// once.
pub proof fn law_failed_build_frees_all(b: IndexBuild)
    requires
        b.wf(),
        b.progress == Progress::Going,
        !b.ask_tier,
        b.got@.len() < 7,
    ensures
        freed_on_refusal(b).to_multiset() == allocated(b).to_multiset(),
{
    let g = b.got@;
    if g.len() >= 3 {
        let first: int = if b.tiered {
            1
        } else {
            0
        };
        let head = g.subrange(first, 3);
        let tail = g.skip(3);
        assert(allocated(b) =~= head + tail);
        vstd::seq_lib::lemma_multiset_commutative(head, tail);
        vstd::seq_lib::lemma_multiset_commutative(tail, head);
        assert(head.to_multiset().add(tail.to_multiset()) =~= tail.to_multiset().add(
            head.to_multiset(),
        ));
    }
}

/// A slot that cannot be had costs the index nothing but itself.
pub proof fn law_slots_are_best_effort(a: IndexBuild, b: IndexBuild)
    requires
        a.wf(),
        a.progress == Progress::Going,
        a.got@.len() == 7,
        after_refusal(a, b),
    ensures
        b.progress == Progress::Ready,
        b.slots@ == a.slots@,
        b.got@ == a.got@,
        freed_on_refusal(a) == a.part@,
{
}

/// A bound on what is left to ask.
pub open spec fn left_to_ask(b: IndexBuild) -> int {
    if b.progress != Progress::Going {
        0
    } else {
        (if b.ask_tier {
            2int
        } else {
            1
        }) + (7 - b.got@.len()) + 5 * (b.want_slots - b.slots@.len()) - b.part@.len()
    }
}

/// Every answer brings a build nearer to its end.
pub proof fn law_building_ends(a: IndexBuild, b: IndexBuild, p: u64)
    requires
        a.wf(),
        b.wf(),
        a.progress == Progress::Going,
        after_grant(a, b, p) || after_refusal(a, b),
    ensures
        0 <= left_to_ask(b) < left_to_ask(a),
{
}

/// Buffers as what is given back to the driver.
pub open spec fn memory(s: Seq<u64>) -> Seq<gpu_search::Release> {
    Seq::new(s.len(), |i: int| gpu_search::Release::Memory(s[i]))
}

/// An index frees each buffer that its build got, and only vectors of its own.
pub proof fn law_index_frees_what_was_got(b: IndexBuild, x: GpuIndex)
    requires
        b.wf(),
        b.progress == Progress::Ready,
        finished(b, x),
        forall|i: int| 0 <= i < 7 ==> #[trigger] b.got@[i] != 0,
    ensures
        !b.tiered ==> gpu_search::owned(x) == memory(b.got@.take(5) + seq![b.got@[6], b.got@[5]])
            + gpu_search::slot_buffers(b.slots@, b.slots@.len() as int),
        b.tiered ==> gpu_search::owned(x) == memory(b.got@.subrange(1, 5) + seq![b.got@[6], b.got@[5]])
            + gpu_search::slot_buffers(b.slots@, b.slots@.len() as int),
{
    let g = b.got@;
    assert(g[0] != 0 && g[1] != 0 && g[2] != 0 && g[3] != 0 && g[4] != 0 && g[5] != 0 && g[6] != 0);
    let slots = gpu_search::slot_buffers(b.slots@, b.slots@.len() as int);
    if b.tiered {
        assert(gpu_search::owned(x) =~= memory(g.subrange(1, 5) + seq![g[6], g[5]]) + slots);
    } else {
        assert(gpu_search::owned(x) =~= memory(g.take(5) + seq![g[6], g[5]]) + slots);
    }
}

/// The buffers of an index are asked for in the order in which it takes them over: what becomes
/// its vectors, its graph, its scores, its queries, its results and its matrix has the bytes of
/// each.
pub proof fn law_buffers_are_made_to_measure(b: IndexBuild, x: GpuIndex, i: int)
    requires
        finished(b, x),
        b.got@.len() == 7,
        0 <= i < 7,
    ensures
        b.got@[i] == x.d_vectors && i == 0 ==> base_bytes(b.plan, i) == b.plan.vector_bytes,
        i == 1 ==> b.got@[i] == x.d_graph && base_bytes(b.plan, i) == b.plan.graph_bytes,
        i == 2 ==> b.got@[i] == x.d_delta && base_bytes(b.plan, i) == b.plan.delta_bytes,
        i == 3 ==> b.got@[i] == x.d_query_buf && base_bytes(b.plan, i) == b.plan.query_bytes,
        i == 4 ==> b.got@[i] == x.d_idx_buf && base_bytes(b.plan, i) == b.plan.result_bytes,
        i == 5 ==> b.got@[i] == x.d_odist_buf && base_bytes(b.plan, i) == b.plan.result_bytes,
        i == 6 ==> b.got@[i] == x.d_dist_buf && base_bytes(b.plan, i) == b.plan.matrix_bytes,
        x.slots@ == b.slots@,
        x.n == b.n && x.dim == b.dim && x.degree == b.degree,
        x.max_q == 16 && x.max_k == 512,
{
}

/// A slot is made of the four buffers that were granted for it, in the order in which they were
/// asked for, and of its stream.
pub proof fn law_slots_are_made_of_their_buffers(a: IndexBuild, b: IndexBuild, p: u64)
    requires
        a.wf(),
        a.progress == Progress::Going,
        a.got@.len() == 7,
        a.part@.len() == 4,
        after_grant(a, b, p),
    ensures
        b.slots@.len() == a.slots@.len() + 1,
        b.slots@.last().d_q == a.part@[0] && slot_bytes(a.plan, 0) == a.plan.slot_query_bytes,
        b.slots@.last().d_qf == a.part@[1] && slot_bytes(a.plan, 1) == a.plan.slot_exact_bytes,
        b.slots@.last().d_idx == a.part@[2] && slot_bytes(a.plan, 2) == a.plan.slot_result_bytes,
        b.slots@.last().d_odist == a.part@[3] && slot_bytes(a.plan, 3) == a.plan.slot_result_bytes,
        b.progress == Progress::Ready <==> b.slots@.len() == a.want_slots,
        forall|i: int| 0 <= i < a.slots@.len() ==> b.slots@[i] == #[trigger] a.slots@[i],
{
}

/// A build asks for the tiers first where there are any, then for seven buffers, and for four and a
/// stream for each slot; it fails only for want of one of the seven.
pub proof fn law_builds_ask_in_their_order(a: IndexBuild, b: IndexBuild)
    requires
        a.wf(),
        a.progress == Progress::Going,
        after_refusal(a, b),
    ensures
        a.ask_tier ==> a.asks() == IndexAsk::Tier && b.asks() is Alloc,
        !a.ask_tier && a.got@.len() < 7 ==> a.asks() is Alloc && b.asks() == IndexAsk::Failed,
        a.got@.len() == 7 ==> b.asks() == IndexAsk::Ready,
        a.got@.len() == 7 && a.part@.len() == 4 ==> a.asks() == IndexAsk::Stream,
        a.got@.len() == 7 && a.part@.len() < 4 ==> a.asks() is Alloc,
{
}

} // verus!
