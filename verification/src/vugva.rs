//! Chunks of vectors between host and device memory: which are on the device, which one
//! leaves when another comes, and the buffers that searches share. Device addresses come in
//! as numbers.
use crate::text;
use crate::text::dec_string;
use vstd::prelude::*;

verus! {

/// Device buffers that every search uses again.
#[derive(Clone, Copy, Debug, PartialEq, Eq, Structural)]
pub struct VugvaSearchBuffers {
    pub d_query: u64,
    pub d_results: u64,
    pub query_cap: usize,
    pub results_cap: usize,
}

impl VugvaSearchBuffers {
    /// Buffers for so many queries and results, where both were allocated.
    pub fn new(max_queries: usize, dim: usize, max_k: usize, at: Option<(u64, u64)>) -> (r: Option<
        Self,
    >)
        requires
            max_queries * dim <= usize::MAX,
            max_queries * max_k * 4 <= usize::MAX,
        ensures
            match at {
                Some((q, s)) => r == Some(
                    VugvaSearchBuffers {
                        d_query: q,
                        d_results: s,
                        query_cap: (max_queries * dim) as usize,
                        results_cap: (max_queries * max_k * 4) as usize,
                    },
                ),
                None => r is None,
            },
    {
        match at {
            Some((q, s)) => {
                proof {
                    assert(0 <= max_queries * max_k) by (nonlinear_arith)
                        requires
                            0 <= max_queries,
                            0 <= max_k,
                    ;
                }
                Some(
                    VugvaSearchBuffers {
                        d_query: q,
                        d_results: s,
                        query_cap: max_queries * dim,
                        results_cap: max_queries * max_k * 4,
                    },
                )
            },
            None => None,
        }
    }

    /// Whether a query of so many bytes goes into the query buffer.
    pub fn upload_query(&self, bytes: usize) -> (r: bool)
        ensures
            r == (bytes <= self.query_cap),
    {
        bytes <= self.query_cap
    }

    /// Whether so many results come out of the result buffer.
    pub fn download_results(&self, count: usize) -> (r: bool)
        requires
            count * 4 <= usize::MAX,
        ensures
            r == (count * 4 <= self.results_cap),
    {
        count * 4 <= self.results_cap
    }

    /// The buffers to free at the end.
    pub fn free(&self) -> (r: Vec<u64>)
        ensures
            r@ == seq![self.d_query, self.d_results],
    {
        let mut out: Vec<u64> = Vec::new();
        out.push(self.d_query);
        out.push(self.d_results);
        out
    }
}

/// Where a chunk is.
#[derive(Debug, Clone, Copy, PartialEq, Eq, Structural)]
pub enum ChunkLocation {
    Cold,
    Ram,
    Vram,
}

/// A chunk of vectors.
#[derive(Debug)]
pub struct VugvaChunk {
    pub ram_data: Vec<i8>,
    pub gpu_ptr: u64,
    pub location: ChunkLocation,
    pub last_access: usize,
}

/// Keeps the chunks that were asked for last, to guess the next one.
#[derive(Debug)]
pub struct LookAhead {
    history: Vec<usize>,
    max_depth: usize,
}

/// The last `depth` entries, or all of them.
pub open spec fn recent(s: Seq<usize>, depth: nat) -> Seq<usize> {
    if s.len() > depth {
        s.skip(s.len() - depth)
    } else {
        s
    }
}

impl View for LookAhead {
    type V = Seq<usize>;

    closed spec fn view(&self) -> Seq<usize> {
        self.history@
    }
}

impl LookAhead {
    pub closed spec fn depth(&self) -> nat {
        self.max_depth as nat
    }

    /// The history never grows beyond its depth.
    pub closed spec fn wf(&self) -> bool {
        self.history@.len() <= self.max_depth
    }

    pub fn new(max_depth: usize) -> (r: Self)
        ensures
            r.wf(),
            r.depth() == max_depth,
            r@ == Seq::<usize>::empty(),
    {
        LookAhead { history: Vec::new(), max_depth }
    }

    /// Adds a chunk to the history; the oldest leaves where it is full.
    pub fn record(&mut self, chunk_idx: usize)
        requires
            old(self).wf(),
        ensures
            final(self).wf(),
            final(self).depth() == old(self).depth(),
            final(self)@ == recent(old(self)@.push(chunk_idx), old(self).depth()),
    {
        self.history.push(chunk_idx);
        if self.history.len() > self.max_depth {
            let _oldest: usize = self.history.remove(0);
        }
        proof {
            assert(self.history@ =~= recent(old(self)@.push(chunk_idx), old(self).depth()));
        }
    }

    /// The chunk behind the last one.
    pub fn predict_next(&self) -> (r: Option<usize>)
        requires
            self@.len() > 0 ==> self@.last() < usize::MAX,
        ensures
            r == (if self@.len() == 0 {
                None
            } else {
                Some((self@.last() + 1) as usize)
            }),
    {
        if self.history.len() == 0 {
            None
        } else {
            Some(self.history[self.history.len() - 1] + 1)
        }
    }
}

/// Entries of the look-ahead history.
pub const HISTORY: usize = 64;

/// The chunks of a corpus and where they are.
#[derive(Debug)]
pub struct VugvaVmt {
    pub chunks: Vec<VugvaChunk>,
    pub chunk_size: usize,
    pub dim: usize,
    pub n: usize,
    pub vram_slots: usize,
    pub lookahead: LookAhead,
    pub search_buffers: Option<VugvaSearchBuffers>,
    /// The number of accesses so far.
    pub clock: usize,
}

/// What a request for a chunk leads to.
#[derive(Clone, Copy, Debug, PartialEq, Eq, Structural)]
pub enum Prefetch {
    /// There is no such chunk.
    Missing,
    /// It is on the device, at this address.
    Resident(u64),
    /// It has to be loaded, in so many bytes, after this address is freed, 0 for none.
    Load(u64, usize),
}

pub open spec fn on_device(c: VugvaChunk) -> bool {
    c.location == ChunkLocation::Vram
}

/// The number of chunks on the device among the first `n`.
pub open spec fn device_count(s: Seq<VugvaChunk>, n: int) -> nat
    decreases n,
{
    if n <= 0 {
        0
    } else {
        device_count(s, n - 1) + (if on_device(s[n - 1]) {
            1nat
        } else {
            0
        })
    }
}

/// The chunk on the device among the first `n` whose last access is longest ago, the first
/// of them where there are several.
pub open spec fn oldest(s: Seq<VugvaChunk>, n: int) -> Option<int>
    decreases n,
{
    if n <= 0 {
        None
    } else {
        let rest = oldest(s, n - 1);
        if !on_device(s[n - 1]) {
            rest
        } else {
            match rest {
                None => Some(n - 1),
                Some(i) => if s[n - 1].last_access < s[i].last_access {
                    Some(n - 1)
                } else {
                    Some(i)
                },
            }
        }
    }
}

/// The chunk that has to leave before another comes.
pub open spec fn leaves(s: Seq<VugvaChunk>, slots: int) -> Option<int> {
    if device_count(s, s.len() as int) >= slots {
        match oldest(s, s.len() as int) {
            Some(i) => if s[i].gpu_ptr != 0 {
                Some(i)
            } else {
                None
            },
            None => None,
        }
    } else {
        None
    }
}

impl VugvaVmt {
    /// Chunks and vectors have a size, and the access times are of the past.
    pub open spec fn wf(&self) -> bool {
        &&& self.lookahead.wf()
        &&& self.chunk_size > 0
        &&& self.dim > 0
        &&& forall|i: int|
            0 <= i < self.chunks@.len() ==> (#[trigger] self.chunks@[i]).last_access <= self.clock
    }

    /// Splits a flat corpus into chunks of `chunk_size` vectors, all in host memory. The
    /// budget says how many chunks may be on the device.
    pub fn new(vectors: &Vec<i8>, dim: usize, chunk_size: usize, vram_budget: usize) -> (r: Self)
        requires
            dim > 0,
            chunk_size > 0,
            chunk_size * dim <= usize::MAX,
            vectors@.len() / dim as nat + chunk_size <= usize::MAX,
        ensures
            r.wf(),
            r.dim == dim,
            r.chunk_size == chunk_size,
            r.n == vectors@.len() / dim as nat,
            r.vram_slots == vram_budget as int / (chunk_size * dim),
            r.lookahead@ == Seq::<usize>::empty(),
            r.lookahead.depth() == HISTORY,
            r.search_buffers is None,
            r.clock == 0,
            r.chunks@.len() == (r.n + chunk_size - 1) / chunk_size as int,
            forall|i: int|
                0 <= i < r.chunks@.len() ==> {
                    &&& (#[trigger] r.chunks@[i]).location == ChunkLocation::Ram
                    &&& r.chunks@[i].gpu_ptr == 0
                    &&& r.chunks@[i].last_access == 0
                    &&& r.chunks@[i].ram_data@ == chunk_data(
                        vectors@,
                        r.n as int,
                        dim as int,
                        chunk_size as int,
                        i,
                    )
                },
    {
        let n: usize = vectors.len() / dim;
        let count: usize = (n + chunk_size - 1) / chunk_size;
        proof {
            assert(0 < chunk_size * dim) by (nonlinear_arith)
                requires
                    0 < chunk_size,
                    0 < dim,
            ;
            assert(n * dim <= vectors@.len()) by (nonlinear_arith)
                requires
                    n == vectors@.len() / dim as nat,
                    dim > 0,
            ;
        }
        let vram_slots: usize = vram_budget / (chunk_size * dim);
        let mut chunks: Vec<VugvaChunk> = Vec::new();
        let mut i: usize = 0;
        while i < count
            invariant
                dim > 0,
                chunk_size > 0,
                n + chunk_size <= usize::MAX,
                count == (n + chunk_size - 1) / chunk_size as int,
                n * dim <= vectors@.len() <= usize::MAX,
                i <= count,
                chunks@.len() == i,
                forall|x: int|
                    0 <= x < i ==> {
                        &&& (#[trigger] chunks@[x]).location == ChunkLocation::Ram
                        &&& chunks@[x].gpu_ptr == 0
                        &&& chunks@[x].last_access == 0
                        &&& chunks@[x].ram_data@ == chunk_data(
                            vectors@,
                            n as int,
                            dim as int,
                            chunk_size as int,
                            x,
                        )
                    },
            decreases count - i,
        {
            proof {
                assert(0 <= i * chunk_size && i * chunk_size < n && (i + 1) * chunk_size == i
                    * chunk_size + chunk_size) by (nonlinear_arith)
                    requires
                        0 <= i < count,
                        count == (n + chunk_size - 1) / chunk_size as int,
                        chunk_size > 0,
                ;
            }
            let start: usize = i * chunk_size;
            let end: usize = if n - start > chunk_size { start + chunk_size } else { n };
            proof {
                assert(0 <= start * dim && start * dim <= end * dim && end * dim <= n * dim)
                    by (nonlinear_arith)
                    requires
                        0 <= start <= end <= n,
                        0 < dim,
                ;
            }
            let data = copy_part(vectors, start * dim, end * dim);
            chunks.push(
                VugvaChunk {
                    ram_data: data,
                    gpu_ptr: 0,
                    location: ChunkLocation::Ram,
                    last_access: 0,
                },
            );
            i = i + 1;
        }
        VugvaVmt {
            chunks,
            chunk_size,
            dim,
            n,
            vram_slots,
            lookahead: LookAhead::new(HISTORY),
            search_buffers: None,
            clock: 0,
        }
    }

    pub fn num_chunks(&self) -> (r: usize)
        ensures
            r == self.chunks@.len(),
    {
        self.chunks.len()
    }

    /// The chunk of a vector.
    pub fn chunk_of(&self, idx: usize) -> (r: usize)
        requires
            self.chunk_size > 0,
        ensures
            r == idx as int / self.chunk_size as int,
    {
        idx / self.chunk_size
    }

    /// Takes the search buffers that were made, unless there are some already.
    pub fn init_search_buffers(&mut self, made: Option<VugvaSearchBuffers>)
        ensures
            final(self).search_buffers == (if old(self).search_buffers is None {
                made
            } else {
                old(self).search_buffers
            }),
            final(self).chunks == old(self).chunks,
            final(self).chunk_size == old(self).chunk_size,
            final(self).dim == old(self).dim,
            final(self).n == old(self).n,
            final(self).vram_slots == old(self).vram_slots,
            final(self).lookahead == old(self).lookahead,
            final(self).clock == old(self).clock,
    {
        if self.search_buffers.is_none() {
            self.search_buffers = made;
        }
    }

    /// The search buffers.
    pub fn get_search_buffers(&self) -> (r: Option<VugvaSearchBuffers>)
        ensures
            r == self.search_buffers,
    {
        self.search_buffers
    }

    /// Asks for a chunk on the device. Where it is not there, the chunk whose access is
    /// longest ago leaves if the device is full, and the caller loads the new one and
    /// reports it with [`VugvaVmt::place`].
    pub fn prefetch(&mut self, chunk_idx: usize) -> (r: Prefetch)
        requires
            old(self).wf(),
            old(self).clock < usize::MAX,
        ensures
            final(self).wf(),
            final(self).chunk_size == old(self).chunk_size,
            final(self).dim == old(self).dim,
            final(self).n == old(self).n,
            final(self).vram_slots == old(self).vram_slots,
            final(self).search_buffers == old(self).search_buffers,
            final(self).chunks@.len() == old(self).chunks@.len(),
            final(self).lookahead.depth() == old(self).lookahead.depth(),
            ({
                let b = old(self).chunks@;
                let a = final(self).chunks@;
                let i = chunk_idx as int;
                if i >= b.len() {
                    &&& r == Prefetch::Missing
                    &&& a == b
                    &&& final(self).clock == old(self).clock
                    &&& final(self).lookahead@ == old(self).lookahead@
                } else {
                    &&& final(self).clock == old(self).clock + 1
                    &&& final(self).lookahead@ == recent(
                        old(self).lookahead@.push(chunk_idx),
                        old(self).lookahead.depth(),
                    )
                    &&& if on_device(b[i]) && b[i].gpu_ptr != 0 {
                        &&& r == Prefetch::Resident(b[i].gpu_ptr)
                        &&& forall|x: int| 0 <= x < b.len() && x != i ==> #[trigger] a[x] == b[x]
                        &&& a[i] == (VugvaChunk { last_access: final(self).clock, ..b[i] })
                    } else {
                        match leaves(b, old(self).vram_slots as int) {
                            Some(v) => {
                                &&& r == Prefetch::Load(b[v].gpu_ptr, b[i].ram_data@.len() as usize)
                                &&& forall|x: int|
                                    0 <= x < b.len() && x != v ==> #[trigger] a[x] == b[x]
                                &&& a[v] == (VugvaChunk {
                                    gpu_ptr: 0,
                                    location: ChunkLocation::Ram,
                                    ..b[v]
                                })
                            },
                            None => {
                                &&& r == Prefetch::Load(0, b[i].ram_data@.len() as usize)
                                &&& a == b
                            },
                        }
                    }
                }
            }),
    {
        if chunk_idx >= self.chunks.len() {
            return Prefetch::Missing;
        }
        self.clock = self.clock + 1;
        self.lookahead.record(chunk_idx);
        if self.chunks[chunk_idx].location == ChunkLocation::Vram
            && self.chunks[chunk_idx].gpu_ptr != 0 {
            let ptr: u64 = self.chunks[chunk_idx].gpu_ptr;
            let now: usize = self.clock;
            self.chunks[chunk_idx].last_access = now;
            return Prefetch::Resident(ptr);
        }
        let bytes: usize = self.chunks[chunk_idx].ram_data.len();
        let freed: u64 = self.evict_if_needed();
        Prefetch::Load(freed, bytes)
    }

    fn evict_if_needed(&mut self) -> (r: u64)
        requires
            old(self).wf(),
        ensures
            final(self).wf(),
            final(self).chunk_size == old(self).chunk_size,
            final(self).dim == old(self).dim,
            final(self).n == old(self).n,
            final(self).vram_slots == old(self).vram_slots,
            final(self).search_buffers == old(self).search_buffers,
            final(self).clock == old(self).clock,
            final(self).lookahead == old(self).lookahead,
            final(self).chunks@.len() == old(self).chunks@.len(),
            match leaves(old(self).chunks@, old(self).vram_slots as int) {
                Some(v) => {
                    &&& 0 <= v < old(self).chunks@.len()
                    &&& r == old(self).chunks@[v].gpu_ptr
                    &&& forall|x: int|
                        0 <= x < old(self).chunks@.len() && x != v ==> #[trigger] final(self).chunks@[x]
                            == old(self).chunks@[x]
                    &&& final(self).chunks@[v] == (VugvaChunk {
                        gpu_ptr: 0,
                        location: ChunkLocation::Ram,
                        ..old(self).chunks@[v]
                    })
                },
                None => r == 0 && final(self).chunks@ == old(self).chunks@,
            },
    {
        let n: usize = self.chunks.len();
        let mut count: usize = 0;
        let mut victim: Option<usize> = None;
        let mut i: usize = 0;
        while i < n
            invariant
                n == self.chunks@.len(),
                *self == *old(self),
                i <= n,
                count <= i,
                count == device_count(self.chunks@, i as int),
                match oldest(self.chunks@, i as int) {
                    Some(v) => 0 <= v < i && victim == Some(v as usize),
                    None => victim is None,
                },
            decreases n - i,
        {
            if self.chunks[i].location == ChunkLocation::Vram {
                count = count + 1;
                match victim {
                    None => {
                        victim = Some(i);
                    },
                    Some(v) => {
                        if self.chunks[i].last_access < self.chunks[v].last_access {
                            victim = Some(i);
                        }
                    },
                }
            }
            i = i + 1;
        }
        if count >= self.vram_slots {
            match victim {
                Some(v) => {
                    let ptr: u64 = self.chunks[v].gpu_ptr;
                    if ptr != 0 {
                        self.chunks[v].gpu_ptr = 0;
                        self.chunks[v].location = ChunkLocation::Ram;
                        return ptr;
                    }
                },
                None => {},
            }
        }
        0
    }

    /// Notes that a chunk was loaded to an address on the device.
    pub fn place(&mut self, chunk_idx: usize, ptr: u64)
        requires
            old(self).wf(),
            chunk_idx < old(self).chunks@.len(),
        ensures
            final(self).wf(),
            final(self).chunk_size == old(self).chunk_size,
            final(self).dim == old(self).dim,
            final(self).n == old(self).n,
            final(self).vram_slots == old(self).vram_slots,
            final(self).search_buffers == old(self).search_buffers,
            final(self).clock == old(self).clock,
            final(self).lookahead == old(self).lookahead,
            final(self).chunks@.len() == old(self).chunks@.len(),
            forall|x: int|
                0 <= x < old(self).chunks@.len() && x != chunk_idx ==> #[trigger] final(self).chunks@[x]
                    == old(self).chunks@[x],
            final(self).chunks@[chunk_idx as int] == (VugvaChunk {
                gpu_ptr: ptr,
                location: ChunkLocation::Vram,
                last_access: old(self).clock,
                ..old(self).chunks@[chunk_idx as int]
            }),
    {
        let now: usize = self.clock;
        self.chunks[chunk_idx].gpu_ptr = ptr;
        self.chunks[chunk_idx].location = ChunkLocation::Vram;
        self.chunks[chunk_idx].last_access = now;
    }

    /// The chunks of some vectors that exist, each once, in the order in which they come up.
    pub fn batch_chunks(&self, indices: &Vec<usize>) -> (r: Vec<usize>)
        requires
            self.chunk_size > 0,
        ensures
            r@ == wanted(
                indices@,
                self.chunk_size as int,
                self.chunks@.len() as int,
                indices@.len() as int,
            ),
    {
        let mut out: Vec<usize> = Vec::new();
        let mut i: usize = 0;
        while i < indices.len()
            invariant
                self.chunk_size > 0,
                i <= indices@.len(),
                out@ == wanted(
                    indices@,
                    self.chunk_size as int,
                    self.chunks@.len() as int,
                    i as int,
                ),
            decreases indices@.len() - i,
        {
            let c: usize = self.chunk_of(indices[i]);
            let mut seen: bool = false;
            let mut j: usize = 0;
            while j < out.len() && !seen
                invariant
                    j <= out@.len(),
                    seen ==> out@.contains(c),
                    !seen ==> forall|x: int| 0 <= x < j ==> #[trigger] out@[x] != c,
                decreases out@.len() - j, (if seen { 0int } else { 1int }),
            {
                if out[j] == c {
                    seen = true;
                } else {
                    j = j + 1;
                }
            }
            if !seen && c < self.chunks.len() {
                out.push(c);
            }
            i = i + 1;
        }
        out
    }

    /// Brings the chunks of some vectors to the device. `answers` holds, for each of
    /// [`VugvaVmt::batch_chunks`], where the device put it if it had to be loaded, or nothing
    /// where that failed. Gives address, first vector and number of vectors of each chunk that
    /// is there now, and the addresses to free.
    pub fn prefetch_batch(&mut self, indices: &Vec<usize>, answers: &Vec<Option<u64>>) -> (r:
        PrefetchedBatch)
        requires
            old(self).wf(),
            old(self).clock + indices@.len() <= usize::MAX,
        ensures
            final(self).wf(),
            final(self).chunk_size == old(self).chunk_size,
            final(self).dim == old(self).dim,
            final(self).n == old(self).n,
            final(self).vram_slots == old(self).vram_slots,
            final(self).search_buffers == old(self).search_buffers,
            final(self).lookahead.depth() == old(self).lookahead.depth(),
            ({
                let d = wanted(
                    indices@,
                    old(self).chunk_size as int,
                    old(self).chunks@.len() as int,
                    indices@.len() as int,
                );
                let end = fetched(old(self).fetching(), *old(self), d, answers@, d.len() as int);
                &&& final(self).chunks@ == end.chunks
                &&& final(self).clock == end.clock
                &&& final(self).lookahead@ == end.history
                &&& r.parts@ == end.parts
                &&& r.freed@ == end.freed
            }),
    {
        let list = self.batch_chunks(indices);
        let ghost first = self.fetching();
        let ghost start = *self;
        let mut parts: Vec<(u64, usize, usize)> = Vec::new();
        let mut freed: Vec<u64> = Vec::new();
        let mut i: usize = 0;
        proof {
            lemma_wanted(
                indices@,
                self.chunk_size as int,
                self.chunks@.len() as int,
                indices@.len() as int,
            );
            assert(parts@ =~= first.parts);
            assert(freed@ =~= first.freed);
        }
        while i < list.len()
            invariant
                self.wf(),
                i <= list@.len() <= indices@.len(),
                start.clock + indices@.len() <= usize::MAX,
                start == *old(self),
                first == start.fetching(),
                list@ == wanted(
                    indices@,
                    start.chunk_size as int,
                    start.chunks@.len() as int,
                    indices@.len() as int,
                ),
                forall|x: int|
                    0 <= x < list@.len() ==> (#[trigger] list@[x]) < start.chunks@.len() && list@[x]
                        * start.chunk_size <= usize::MAX,
                self.chunk_size == start.chunk_size,
                self.dim == start.dim,
                self.n == start.n,
                self.vram_slots == start.vram_slots,
                self.search_buffers == start.search_buffers,
                self.lookahead.depth() == start.lookahead.depth(),
                self.chunks@.len() == start.chunks@.len(),
                self.clock == start.clock + i,
                fetched(first, start, list@, answers@, i as int) == (Fetching {
                    chunks: self.chunks@,
                    clock: self.clock as int,
                    history: self.lookahead@,
                    parts: parts@,
                    freed: freed@,
                }),
            decreases list@.len() - i,
        {
            let c: usize = list[i];
            let ghost b = self.chunks@;
            let ghost before = (Fetching {
                chunks: self.chunks@,
                clock: self.clock as int,
                history: self.lookahead@,
                parts: parts@,
                freed: freed@,
            });
            let answer: Option<u64> = if i < answers.len() {
                answers[i]
            } else {
                None
            };
            proof {
                lemma_leaves(b, self.vram_slots as int);
            }
            match self.prefetch(c) {
                Prefetch::Missing => {},
                Prefetch::Resident(p) => {
                    let (from, rows) = self.part_of(c);
                    parts.push((p, from, rows));
                },
                Prefetch::Load(gone, _) => {
                    if gone != 0 {
                        freed.push(gone);
                    }
                    if let Some(p) = answer {
                        self.place(c, p);
                        let (from, rows) = self.part_of(c);
                        parts.push((p, from, rows));
                    }
                },
            }
            proof {
                let after = one_fetched(before, start, c as int, answer);
                assert(self.chunks@ =~= after.chunks);
                assert(parts@ =~= after.parts);
                assert(freed@ =~= after.freed);
            }
            i = i + 1;
        }
        PrefetchedBatch { parts, freed }
    }

    /// The part of the corpus that a chunk holds: its first vector and their number.
    pub fn part_of(&self, chunk_idx: usize) -> (r: (usize, usize))
        requires
            self.dim > 0,
            chunk_idx < self.chunks@.len(),
            chunk_idx * self.chunk_size <= usize::MAX,
        ensures
            r.0 == chunk_idx * self.chunk_size,
            r.1 == self.chunks@[chunk_idx as int].ram_data@.len() / self.dim as nat,
    {
        (chunk_idx * self.chunk_size, self.chunks[chunk_idx].ram_data.len() / self.dim)
    }

    /// Takes everything off the device and gives back the addresses to free.
    pub fn cleanup(&mut self) -> (r: Vec<u64>)
        requires
            old(self).wf(),
        ensures
            final(self).wf(),
            r@ == held(old(self).chunks@, old(self).chunks@.len() as int) + (
            match old(self).search_buffers {
                Some(b) => seq![b.d_query, b.d_results],
                None => Seq::empty(),
            }),
            final(self).chunks@.len() == old(self).chunks@.len(),
            forall|x: int|
                0 <= x < final(self).chunks@.len() ==> #[trigger] final(self).chunks@[x] == off_device(
                    old(self).chunks@[x],
                ),
            *final(self) == (VugvaVmt { chunks: final(self).chunks, ..*old(self) }),
    {
        let n: usize = self.chunks.len();
        let mut out: Vec<u64> = Vec::new();
        let mut i: usize = 0;
        while i < n
            invariant
                n == self.chunks@.len() == old(self).chunks@.len(),
                i <= n,
                self.wf(),
                *self == (VugvaVmt { chunks: self.chunks, ..*old(self) }),
                out@ == held(old(self).chunks@, i as int),
                forall|x: int|
                    0 <= x < i ==> #[trigger] self.chunks@[x] == off_device(old(self).chunks@[x]),
                forall|x: int| i <= x < n ==> #[trigger] self.chunks@[x] == old(self).chunks@[x],
            decreases n - i,
        {
            let ptr: u64 = self.chunks[i].gpu_ptr;
            if ptr != 0 {
                out.push(ptr);
                self.chunks[i].gpu_ptr = 0;
                self.chunks[i].location = ChunkLocation::Ram;
            }
            i = i + 1;
        }
        match self.search_buffers {
            Some(b) => {
                out.push(b.d_query);
                out.push(b.d_results);
            },
            None => {},
        }
        proof {
            assert(out@ =~= held(old(self).chunks@, n as int) + (match old(self).search_buffers {
                Some(b) => seq![b.d_query, b.d_results],
                None => Seq::empty(),
            }));
        }
        out
    }
}

/// A chunk once it was taken off the device.
pub open spec fn off_device(c: VugvaChunk) -> VugvaChunk {
    if c.gpu_ptr != 0 {
        VugvaChunk { gpu_ptr: 0, location: ChunkLocation::Ram, ..c }
    } else {
        c
    }
}

/// The vectors of chunk `i`.
pub open spec fn chunk_data(vectors: Seq<i8>, n: int, dim: int, size: int, i: int) -> Seq<i8> {
    let end = if (i + 1) * size < n {
        (i + 1) * size
    } else {
        n
    };
    vectors.subrange(i * size * dim, end * dim)
}

fn copy_part(v: &Vec<i8>, from: usize, to: usize) -> (r: Vec<i8>)
    requires
        from <= to <= v@.len(),
    ensures
        r@ == v@.subrange(from as int, to as int),
{
    let mut out: Vec<i8> = Vec::new();
    let mut i: usize = from;
    while i < to
        invariant
            from <= i <= to <= v@.len(),
            out@ == v@.subrange(from as int, i as int),
        decreases to - i,
    {
        out.push(v[i]);
        i = i + 1;
        proof {
            assert(out@ =~= v@.subrange(from as int, i as int));
        }
    }
    out
}

/// The chunks of the first `n` vectors among `count`, each once.
pub open spec fn wanted(indices: Seq<usize>, size: int, count: int, n: int) -> Seq<usize>
    decreases n,
{
    if n <= 0 {
        Seq::empty()
    } else {
        let rest = wanted(indices, size, count, n - 1);
        let c = (indices[n - 1] as int / size) as usize;
        if rest.contains(c) || c >= count {
            rest
        } else {
            rest.push(c)
        }
    }
}

/// What a batch brought to the device: address, first vector and number of vectors of each
/// chunk, and the addresses to free.
#[derive(Debug)]
pub struct PrefetchedBatch {
    pub parts: Vec<(u64, usize, usize)>,
    pub freed: Vec<u64>,
}

/// A batch on its way.
pub struct Fetching {
    pub chunks: Seq<VugvaChunk>,
    pub clock: int,
    pub history: Seq<usize>,
    pub parts: Seq<(u64, usize, usize)>,
    pub freed: Seq<u64>,
}

impl VugvaVmt {
    /// A batch that has not begun.
    pub open spec fn fetching(&self) -> Fetching {
        Fetching {
            chunks: self.chunks@,
            clock: self.clock as int,
            history: self.lookahead@,
            parts: Seq::empty(),
            freed: Seq::empty(),
        }
    }
}

/// What a batch hands out for a chunk that is at an address.
pub open spec fn part_at(v: VugvaVmt, chunks: Seq<VugvaChunk>, c: int, ptr: u64) -> (
    u64,
    usize,
    usize,
) {
    (
        ptr,
        (c * v.chunk_size) as usize,
        (chunks[c].ram_data@.len() / v.dim as nat) as usize,
    )
}

/// A batch after one more chunk: it is there already, or the one whose access is longest ago
/// leaves and the device answers where it put the new one.
pub open spec fn one_fetched(f: Fetching, v: VugvaVmt, c: int, answer: Option<u64>) -> Fetching {
    let b = f.chunks;
    let clock = f.clock + 1;
    let history = recent(f.history.push(c as usize), v.lookahead.depth());
    if on_device(b[c]) && b[c].gpu_ptr != 0 {
        Fetching {
            chunks: b.update(c, (VugvaChunk { last_access: clock as usize, ..b[c] })),
            clock,
            history,
            parts: f.parts.push(part_at(v, b, c, b[c].gpu_ptr)),
            freed: f.freed,
        }
    } else {
        let (m, freed) = match leaves(b, v.vram_slots as int) {
            Some(x) => (b.update(x, off_device(b[x])), f.freed.push(b[x].gpu_ptr)),
            None => (b, f.freed),
        };
        match answer {
            Some(p) => Fetching {
                chunks: m.update(
                    c,
                    (VugvaChunk {
                        gpu_ptr: p,
                        location: ChunkLocation::Vram,
                        last_access: clock as usize,
                        ..m[c]
                    }),
                ),
                clock,
                history,
                parts: f.parts.push(part_at(v, b, c, p)),
                freed,
            },
            None => Fetching { chunks: m, clock, history, parts: f.parts, freed },
        }
    }
}

/// A batch after the first `n` of its chunks.
pub open spec fn fetched(
    f: Fetching,
    v: VugvaVmt,
    d: Seq<usize>,
    answers: Seq<Option<u64>>,
    n: int,
) -> Fetching
    decreases n,
{
    if n <= 0 {
        f
    } else {
        one_fetched(
            fetched(f, v, d, answers, n - 1),
            v,
            d[n - 1] as int,
            if n - 1 < answers.len() {
                answers[n - 1]
            } else {
                None
            },
        )
    }
}

/// The chunks of a batch exist, are no more than its vectors, and begin at a vector that can
/// be counted; none comes twice.
pub proof fn lemma_wanted(indices: Seq<usize>, size: int, count: int, n: int)
    requires
        size > 0,
        0 <= n <= indices.len(),
    ensures
        wanted(indices, size, count, n).len() <= n,
        wanted(indices, size, count, n).no_duplicates(),
        forall|x: int|
            0 <= x < wanted(indices, size, count, n).len() ==> {
                &&& (#[trigger] wanted(indices, size, count, n)[x]) < count
                &&& wanted(indices, size, count, n)[x] * size <= usize::MAX
            },
    decreases n,
{
    if n > 0 {
        lemma_wanted(indices, size, count, n - 1);
        let idx = indices[n - 1] as int;
        let c = idx / size;
        assert(0 <= c <= idx && c * size <= idx) by (nonlinear_arith)
            requires
                c == idx / size,
                size > 0,
                idx >= 0,
        ;
    }
}

proof fn lemma_leaves(s: Seq<VugvaChunk>, slots: int)
    ensures
        match leaves(s, slots) {
            Some(v) => 0 <= v < s.len() && s[v].gpu_ptr != 0,
            None => true,
        },
{
    lemma_oldest(s, s.len() as int);
}

/// The device addresses of the first `n` chunks.
pub open spec fn held(s: Seq<VugvaChunk>, n: int) -> Seq<u64>
    decreases n,
{
    if n <= 0 {
        Seq::empty()
    } else if s[n - 1].gpu_ptr != 0 {
        held(s, n - 1).push(s[n - 1].gpu_ptr)
    } else {
        held(s, n - 1)
    }
}

/// Reports the chunks, how many are on the device, and how many may be. The share on the
/// device comes in as text.
pub fn vugva_stats(vmt: &VugvaVmt, hot_pct: String) -> (r: Vec<(&'static str, String)>)
    ensures
        r@.len() == 4,
        r@[0].0@ == "chunks"@,
        r@[0].1@ == text::dec_text(vmt.chunks@.len()),
        r@[1].0@ == "in_vram"@,
        r@[1].1@ == text::dec_text(device_count(vmt.chunks@, vmt.chunks@.len() as int)),
        r@[2].0@ == "vram_slots"@,
        r@[2].1@ == text::dec_text(vmt.vram_slots as nat),
        r@[3].0@ == "hot_pct"@,
        r@[3].1@ == hot_pct@,
{
    let n: usize = vmt.chunks.len();
    let mut count: usize = 0;
    let mut i: usize = 0;
    while i < n
        invariant
            i <= n == vmt.chunks@.len(),
            count <= i,
            count == device_count(vmt.chunks@, i as int),
        decreases n - i,
    {
        if vmt.chunks[i].location == ChunkLocation::Vram {
            count = count + 1;
        }
        i = i + 1;
    }
    let mut out: Vec<(&'static str, String)> = Vec::new();
    out.push(("chunks", dec_string(n as u64)));
    out.push(("in_vram", dec_string(count as u64)));
    out.push(("vram_slots", dec_string(vmt.vram_slots as u64)));
    out.push(("hot_pct", hot_pct));
    out
}

// ── laws ──────────────────────────────────────────────────────────────────

proof fn lemma_oldest(s: Seq<VugvaChunk>, n: int)
    requires
        0 <= n <= s.len(),
    ensures
        match oldest(s, n) {
            Some(i) => {
                &&& 0 <= i < n
                &&& on_device(s[i])
                &&& forall|x: int|
                    0 <= x < n && on_device(#[trigger] s[x]) ==> s[i].last_access <= s[x].last_access
            },
            None => forall|x: int| 0 <= x < n ==> !on_device(#[trigger] s[x]),
        },
    decreases n,
{
    if n > 0 {
        lemma_oldest(s, n - 1);
    }
}

/// The chunk that leaves is on the device, and no other there was used longer ago.
pub proof fn law_least_recent_leaves(s: Seq<VugvaChunk>, slots: int, x: int)
    requires
        leaves(s, slots) is Some,
        0 <= x < s.len(),
        on_device(s[x]),
    ensures
        0 <= leaves(s, slots)->0 < s.len(),
        on_device(s[leaves(s, slots)->0]),
        s[leaves(s, slots)->0].last_access <= s[x].last_access,
{
    lemma_oldest(s, s.len() as int);
}

proof fn lemma_count_one_less(a: Seq<VugvaChunk>, b: Seq<VugvaChunk>, v: int, n: int)
    requires
        a.len() == b.len(),
        0 <= v < a.len(),
        0 <= n <= a.len(),
        on_device(b[v]),
        !on_device(a[v]),
        forall|x: int| 0 <= x < b.len() && x != v ==> #[trigger] a[x] == b[x],
    ensures
        device_count(a, n) == device_count(b, n) - (if v < n {
            1int
        } else {
            0
        }),
    decreases n,
{
    if n > 0 {
        lemma_count_one_less(a, b, v, n - 1);
        if n - 1 != v {
            assert(a[n - 1] == b[n - 1]);
        }
    }
}

/// Making room leaves one chunk fewer on the device.
pub proof fn law_leaving_makes_room(b: Seq<VugvaChunk>, a: Seq<VugvaChunk>, slots: int)
    requires
        leaves(b, slots) is Some,
        a.len() == b.len(),
        forall|x: int| 0 <= x < b.len() && x != leaves(b, slots)->0 ==> #[trigger] a[x] == b[x],
        !on_device(a[leaves(b, slots)->0]),
    ensures
        device_count(a, a.len() as int) == device_count(b, b.len() as int) - 1,
{
    lemma_oldest(b, b.len() as int);
    lemma_count_one_less(a, b, leaves(b, slots)->0, a.len() as int);
}

/// Whether every chunk on the device has an address there.
pub open spec fn settled(s: Seq<VugvaChunk>) -> bool {
    forall|i: int| 0 <= i < s.len() && on_device(#[trigger] s[i]) ==> s[i].gpu_ptr != 0
}

proof fn lemma_count_same(a: Seq<VugvaChunk>, b: Seq<VugvaChunk>, n: int)
    requires
        a.len() == b.len(),
        0 <= n <= a.len(),
        forall|x: int| 0 <= x < b.len() ==> on_device(#[trigger] a[x]) == on_device(b[x]),
    ensures
        device_count(a, n) == device_count(b, n),
    decreases n,
{
    if n > 0 {
        lemma_count_same(a, b, n - 1);
        assert(on_device(a[n - 1]) == on_device(b[n - 1]));
    }
}

proof fn lemma_oldest_is_there(s: Seq<VugvaChunk>, n: int)
    requires
        0 <= n <= s.len(),
        device_count(s, n) > 0,
    ensures
        oldest(s, n) is Some,
    decreases n,
{
    if n > 0 && !on_device(s[n - 1]) {
        lemma_oldest_is_there(s, n - 1);
    }
}

/// However a batch goes, there are never more chunks on the device than it has slots for,
/// where there is a slot at all and the device gives each chunk an address.
pub proof fn law_device_keeps_to_its_slots(
    v: VugvaVmt,
    d: Seq<usize>,
    answers: Seq<Option<u64>>,
    n: int,
)
    requires
        v.vram_slots > 0,
        settled(v.chunks@),
        device_count(v.chunks@, v.chunks@.len() as int) <= v.vram_slots,
        0 <= n <= d.len(),
        forall|x: int| 0 <= x < d.len() ==> (#[trigger] d[x]) < v.chunks@.len(),
        forall|x: int| 0 <= x < answers.len() ==> #[trigger] answers[x] != Some(0u64),
    ensures
        ({
            let chunks = fetched(v.fetching(), v, d, answers, n).chunks;
            &&& chunks.len() == v.chunks@.len()
            &&& settled(chunks)
            &&& device_count(chunks, chunks.len() as int) <= v.vram_slots
        }),
    decreases n,
{
    if n > 0 {
        law_device_keeps_to_its_slots(v, d, answers, n - 1);
        let b = fetched(v.fetching(), v, d, answers, n - 1).chunks;
        let a = fetched(v.fetching(), v, d, answers, n).chunks;
        let len = b.len() as int;
        let slots = v.vram_slots as int;
        let c = d[n - 1] as int;
        lemma_leaves(b, slots);
        lemma_oldest(b, len);
        if on_device(b[c]) {
            lemma_count_same(a, b, len);
        } else {
            let m = match leaves(b, slots) {
                Some(x) => b.update(x, off_device(b[x])),
                None => b,
            };
            if device_count(b, len) >= slots {
                lemma_oldest_is_there(b, len);
                lemma_count_one_less(m, b, leaves(b, slots)->0, len);
            }
            assert(!on_device(m[c]));
            if on_device(a[c]) {
                lemma_count_one_less(m, a, c, len);
            } else {
                assert(a =~= m);
            }
        }
    }
}

/// The history of a look-ahead never grows beyond its depth, and its last entry is the
/// chunk that was asked for last.
pub proof fn law_history_is_bounded(s: Seq<usize>, chunk: usize, depth: nat)
    requires
        depth > 0,
    ensures
        recent(s.push(chunk), depth).len() <= depth,
        recent(s.push(chunk), depth).last() == chunk,
{
}

/// A chunk keeps its vectors through a batch.
proof fn lemma_fetched_data(
    f: Fetching,
    v: VugvaVmt,
    d: Seq<usize>,
    answers: Seq<Option<u64>>,
    n: int,
)
    requires
        0 <= n <= d.len(),
        forall|x: int| 0 <= x < d.len() ==> (#[trigger] d[x]) < f.chunks.len(),
    ensures
        fetched(f, v, d, answers, n).chunks.len() == f.chunks.len(),
        forall|x: int|
            0 <= x < f.chunks.len() ==> (#[trigger] fetched(f, v, d, answers, n).chunks[x]).ram_data
                == f.chunks[x].ram_data,
    decreases n,
{
    if n > 0 {
        lemma_fetched_data(f, v, d, answers, n - 1);
        lemma_leaves(fetched(f, v, d, answers, n - 1).chunks, v.vram_slots as int);
    }
}

/// Whether a part is that of the chunk `d[j]`: it begins at the chunk's first vector and has
/// as many vectors as the chunk.
pub open spec fn is_part(v: VugvaVmt, d: Seq<usize>, j: int, part: (u64, usize, usize)) -> bool {
    &&& part.1 == d[j] * v.chunk_size
    &&& part.2 == v.chunks@[d[j] as int].ram_data@.len() / v.dim as nat
}

/// Whether a part is that of one of the first `n` chunks.
pub open spec fn among(v: VugvaVmt, d: Seq<usize>, n: int, part: (u64, usize, usize)) -> bool {
    exists|j: int| 0 <= j < n && #[trigger] is_part(v, d, j, part)
}

/// Whether two parts are those of two of the first `n` chunks, in their order.
pub open spec fn in_order(
    v: VugvaVmt,
    d: Seq<usize>,
    n: int,
    one: (u64, usize, usize),
    next: (u64, usize, usize),
) -> bool {
    exists|j: int, k: int|
        0 <= j < k < n && #[trigger] is_part(v, d, j, one) && #[trigger] is_part(v, d, k, next)
}

/// What a batch hands out are parts of chunks that were asked for and exist, in the order in
/// which they were asked for, and no chunk twice.
pub proof fn law_batch_gives_parts(
    v: VugvaVmt,
    indices: Seq<usize>,
    answers: Seq<Option<u64>>,
    n: int,
)
    requires
        v.wf(),
        0 <= n <= wanted(
            indices,
            v.chunk_size as int,
            v.chunks@.len() as int,
            indices.len() as int,
        ).len(),
    ensures
        ({
            let d = wanted(
                indices,
                v.chunk_size as int,
                v.chunks@.len() as int,
                indices.len() as int,
            );
            let parts = fetched(v.fetching(), v, d, answers, n).parts;
            &&& parts.len() <= n
            &&& forall|x: int| 0 <= x < parts.len() ==> among(v, d, n, #[trigger] parts[x])
            &&& forall|x: int, y: int|
                0 <= x < y < parts.len() ==> in_order(v, d, n, #[trigger] parts[x], #[trigger] parts[y])
            &&& forall|x: int, y: int|
                0 <= x < y < parts.len() ==> (#[trigger] parts[x]).1 != (#[trigger] parts[y]).1
        }),
    decreases n,
{
    let d = wanted(indices, v.chunk_size as int, v.chunks@.len() as int, indices.len() as int);
    let f = v.fetching();
    lemma_wanted(indices, v.chunk_size as int, v.chunks@.len() as int, indices.len() as int);
    if n > 0 {
        law_batch_gives_parts(v, indices, answers, n - 1);
        lemma_fetched_data(f, v, d, answers, n - 1);
        let b = fetched(f, v, d, answers, n - 1);
        let e = fetched(f, v, d, answers, n);
        let c = d[n - 1] as int;
        assert(b.chunks[c].ram_data == v.chunks@[c].ram_data);
        assert(d[n - 1] * v.chunk_size <= usize::MAX);
        let data = v.chunks@[c].ram_data;
        let rows = data@.len();
        assert(data.len() == rows);
        assert(rows / v.dim as nat <= rows) by (nonlinear_arith)
            requires
                v.dim > 0,
        ;
        let last = b.parts.len() as int;
        assert(e.parts.len() > last ==> is_part(v, d, n - 1, e.parts[last]));
        assert forall|x: int, y: int| 0 <= x < y < e.parts.len() implies in_order(
            v,
            d,
            n,
            #[trigger] e.parts[x],
            #[trigger] e.parts[y],
        ) by {
            assert(e.parts[x] == b.parts[x]);
            assert(among(v, d, n - 1, b.parts[x]));
            if y < last {
                assert(e.parts[y] == b.parts[y]);
                assert(in_order(v, d, n - 1, b.parts[x], b.parts[y]));
                let (j, k) = choose|j: int, k: int|
                    0 <= j < k < n - 1 && #[trigger] is_part(v, d, j, b.parts[x])
                        && #[trigger] is_part(v, d, k, b.parts[y]);
                assert(is_part(v, d, j, e.parts[x]) && is_part(v, d, k, e.parts[y]));
            } else {
                let j = choose|j: int|
                    0 <= j < n - 1 && #[trigger] is_part(v, d, j, b.parts[x]);
                assert(is_part(v, d, j, e.parts[x]) && is_part(v, d, n - 1, e.parts[y]));
            }
        }
        assert forall|x: int, y: int| 0 <= x < y < e.parts.len() implies (#[trigger] e.parts[x]).1
            != (#[trigger] e.parts[y]).1 by {
            if y == last {
                assert(among(v, d, n - 1, b.parts[x]));
                let j = choose|j: int|
                    0 <= j < n - 1 && #[trigger] is_part(v, d, j, b.parts[x]);
                assert(d[j] != d[n - 1]);
                let size = v.chunk_size as int;
                let p = d[j] as int;
                let q = d[n - 1] as int;
                assert(p * size != q * size) by (nonlinear_arith)
                    requires
                        p != q,
                        size > 0,
                ;
            }
        }
        assert forall|x: int| 0 <= x < e.parts.len() implies among(
            v,
            d,
            n,
            #[trigger] e.parts[x],
        ) by {
            if x < last {
                assert(e.parts[x] == b.parts[x]);
                assert(among(v, d, n - 1, b.parts[x]));
                let j = choose|j: int|
                    0 <= j < n - 1 && #[trigger] is_part(v, d, j, b.parts[x]);
                assert(is_part(v, d, j, e.parts[x]));
            }
        }
    }
}

/// The history is the end of what was asked for: as much as it is deep, or all of it.
pub proof fn law_history_is_the_end(s: Seq<usize>, depth: nat)
    ensures
        recent(s, depth).is_suffix_of(s),
        recent(s, depth).len() == (if s.len() < depth {
            s.len()
        } else {
            depth
        }),
{
    let r = recent(s, depth);
    assert(r =~= s.subrange((s.len() - r.len()) as int, s.len() as int));
}

/// The chunks on the device are counted each once.
pub proof fn law_device_chunks_are_counted(s: Seq<VugvaChunk>, n: int)
    requires
        0 <= n <= s.len(),
    ensures
        device_count(s, n) == s.take(n).filter(
            |c: VugvaChunk| c.location == ChunkLocation::Vram,
        ).len(),
    decreases n,
{
    reveal(Seq::filter);
    let f = |c: VugvaChunk| c.location == ChunkLocation::Vram;
    if n > 0 {
        law_device_chunks_are_counted(s, n - 1);
        assert(s.take(n).drop_last() =~= s.take(n - 1));
        assert(s.take(n).last() == s[n - 1]);
    } else {
        assert(s.take(0) =~= Seq::<VugvaChunk>::empty());
    }
}

/// Nothing leaves while there is a slot to spare; where there is none and every chunk on the
/// device has an address, something does, and of chunks that were used at the same time the first.
pub proof fn law_chunks_leave_only_a_full_device(s: Seq<VugvaChunk>, slots: int, x: int)
    requires
        settled(s),
        slots > 0,
    ensures
        leaves(s, slots) is Some <==> device_count(s, s.len() as int) >= slots,
        leaves(s, slots) matches Some(v) ==> (0 <= x < v && on_device(s[x]) ==> s[v].last_access
            < s[x].last_access),
{
    lemma_oldest(s, s.len() as int);
    if device_count(s, s.len() as int) >= slots {
        lemma_oldest_is_there(s, s.len() as int);
        let v = oldest(s, s.len() as int)->0;
        assert(on_device(s[v]));
        if 0 <= x < v && on_device(s[x]) {
            lemma_oldest_is_first(s, s.len() as int, x);
        }
    }
}

proof fn lemma_oldest_is_first(s: Seq<VugvaChunk>, n: int, x: int)
    requires
        0 <= n <= s.len(),
        oldest(s, n) is Some,
        0 <= x < oldest(s, n)->0,
        on_device(s[x]),
    ensures
        s[oldest(s, n)->0].last_access < s[x].last_access,
    decreases n,
{
    lemma_oldest(s, n);
    if n > 0 {
        lemma_oldest(s, n - 1);
        let v = oldest(s, n)->0;
        if v == n - 1 {
            assert(x < n - 1);
            assert(oldest(s, n - 1) is Some);
        } else {
            lemma_oldest_is_first(s, n - 1, x);
        }
    }
}

/// A chunk holds its own vectors, component by component, and all of them but in the last chunk.
pub proof fn law_chunks_hold_their_vectors(
    vectors: Seq<i8>,
    n: int,
    dim: int,
    size: int,
    i: int,
    row: int,
    c: int,
)
    requires
        dim > 0,
        size > 0,
        n * dim <= vectors.len(),
        0 <= i,
        i * size <= row < n,
        row < (i + 1) * size,
        0 <= c < dim,
    ensures
        chunk_data(vectors, n, dim, size, i)[(row - i * size) * dim + c] == vectors[row * dim + c],
        (i + 1) * size <= n ==> chunk_data(vectors, n, dim, size, i).len() == size * dim,
        (i + 1) * size > n ==> chunk_data(vectors, n, dim, size, i).len() == (n - i * size) * dim,
{
    let a = i * size;
    let end = if a + size < n {
        a + size
    } else {
        n
    };
    assert((i + 1) * size == a + size && a >= 0) by (nonlinear_arith)
        requires
            a == i * size,
            i >= 0,
            size > 0,
    ;
    assert(0 <= a * dim && (row - a) * dim == row * dim - a * dim && 0 <= (row - a) * dim
        && row * dim + c < end * dim && end * dim <= n * dim && (end - a) * dim == end * dim - a
        * dim && (a + size) * dim == a * dim + size * dim && (n - a) * dim == n * dim - a * dim)
        by (nonlinear_arith)
        requires
            0 <= a <= row < end <= n,
            0 <= c < dim,
    ;
}

/// The chunks of a batch are those that hold one of its vectors and exist.
pub proof fn law_batch_wants_its_chunks(indices: Seq<usize>, size: int, count: int, n: int, c: usize)
    requires
        size > 0,
        0 <= n <= indices.len(),
        c < count,
    ensures
        wanted(indices, size, count, n).contains(c) <==> exists|i: int|
            0 <= i < n && c * size <= #[trigger] indices[i] < (c + 1) * size,
        wanted(indices, size, count, n).no_duplicates(),
    decreases n,
{
    lemma_wanted(indices, size, count, n);
    let all = wanted(indices, size, count, n);
    if n > 0 {
        law_batch_wants_its_chunks(indices, size, count, n - 1, c);
        let rest = wanted(indices, size, count, n - 1);
        let idx = indices[n - 1] as int;
        let d = idx / size;
        assert(d * size <= idx < (d + 1) * size && 0 <= d <= idx) by (nonlinear_arith)
            requires
                d == idx / size,
                size > 0,
                idx >= 0,
        ;
        assert(d == c <==> c * size <= idx < (c + 1) * size) by (nonlinear_arith)
            requires
                d * size <= idx < (d + 1) * size,
                size > 0,
        ;
        if rest.contains(c) {
            let p = choose|p: int| 0 <= p < rest.len() && rest[p] == c;
            assert(all[p] == c);
        }
        if d == c && !rest.contains(c) {
            assert(all.last() == c);
        }
        if all.contains(c) && d != c {
            let p = choose|p: int| 0 <= p < all.len() && all[p] == c;
            assert(rest[p] == c);
        }
        if d == c {
            assert(c * size <= indices[n - 1] < (c + 1) * size);
        }
    }
}

/// A chunk is handed out at the address where it is, or where the device has put it now, and was
/// used just then; one that is there already costs nothing.
pub proof fn law_fetch_finds_the_chunk(f: Fetching, v: VugvaVmt, c: int, p: u64)
    requires
        0 <= c < f.chunks.len(),
        0 <= f.clock < usize::MAX,
        p != 0,
        leaves(f.chunks, v.vram_slots as int) != Some(c),
    ensures
        one_fetched(f, v, c, Some(p)).clock == f.clock + 1,
        ({
            let there = on_device(f.chunks[c]) && f.chunks[c].gpu_ptr != 0;
            let g = one_fetched(f, v, c, Some(p));
            &&& g.parts.len() == f.parts.len() + 1
            &&& g.parts.last().0 == (if there {
                f.chunks[c].gpu_ptr
            } else {
                p
            })
            &&& g.chunks[c].gpu_ptr == g.parts.last().0
            &&& on_device(g.chunks[c])
            &&& g.chunks[c].last_access == g.clock
            &&& g.chunks[c].ram_data == f.chunks[c].ram_data
            &&& there ==> g.freed == f.freed
            &&& !there ==> one_fetched(f, v, c, None).parts == f.parts
            &&& f.freed.len() <= g.freed.len() <= f.freed.len() + 1
        }),
{
    lemma_oldest(f.chunks, f.chunks.len() as int);
}

/// The addresses to free are those of the chunks that have one, in their order.
pub proof fn law_addresses_are_given_back(s: Seq<VugvaChunk>, n: int)
    requires
        0 <= n <= s.len(),
    ensures
        held(s, n) == s.take(n).filter(|c: VugvaChunk| c.gpu_ptr != 0).map_values(
            |c: VugvaChunk| c.gpu_ptr,
        ),
        forall|i: int| 0 <= i < s.len() ==> off_device(#[trigger] s[i]).gpu_ptr == 0,
        forall|i: int|
            0 <= i < s.len() ==> off_device(#[trigger] s[i]).ram_data == s[i].ram_data,
    decreases n,
{
    reveal(Seq::filter);
    let f = |c: VugvaChunk| c.gpu_ptr != 0;
    let g = |c: VugvaChunk| c.gpu_ptr;
    if n > 0 {
        law_addresses_are_given_back(s, n - 1);
        assert(s.take(n).drop_last() =~= s.take(n - 1));
        assert(s.take(n).last() == s[n - 1]);
        let rest = s.take(n - 1).filter(f);
        assert(rest.push(s[n - 1]).map_values(g) =~= rest.map_values(g).push(s[n - 1].gpu_ptr));
    } else {
        assert(s.take(0) =~= Seq::<VugvaChunk>::empty());
        assert(held(s, n) =~= s.take(n).filter(f).map_values(g));
    }
}

} // verus!
