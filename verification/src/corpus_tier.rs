//! A corpus across device memory, host memory and disk: where it starts, how much room it
//! spills to, and what may be written to it.
use crate::gpu_mode::ComputeMode;
use crate::text;
use crate::text::dec_string;
use vstd::prelude::*;
use vstd::string::*;

verus! {

/// Host memory for each device's warm tier: 2 GiB.
pub const DEFAULT_DRAM_PER_GPU: usize = 2147483648;

/// The tier in which a corpus starts.
#[derive(Debug, Clone, Copy, PartialEq, Eq, Structural)]
pub enum Tier {
    Dram,
    Ssd,
}

/// Where a corpus of `total` bytes starts: on disk where it takes more than half of the
/// warm tier.
pub open spec fn tier_for(total: int, dram: int) -> Tier {
    if total > dram / 2 {
        Tier::Ssd
    } else {
        Tier::Dram
    }
}

/// The room that a corpus spills to: itself, a quarter more, and 1 MiB.
pub open spec fn spill_room(total: int) -> int {
    total + total / 4 + 1048576
}

/// A corpus of `n` rows of `dim` bytes, and the tier in which it starts.
#[derive(Debug)]
pub struct CorpusTier {
    n: usize,
    dim: usize,
    tier: Tier,
    capacity: usize,
}

/// What is known of a corpus: rows, bytes per row, tier, and the room to spill to, 0 where
/// it does not spill.
pub struct CorpusView {
    pub n: nat,
    pub dim: nat,
    pub tier: Tier,
    pub capacity: nat,
}

impl View for CorpusTier {
    type V = CorpusView;

    closed spec fn view(&self) -> CorpusView {
        CorpusView {
            n: self.n as nat,
            dim: self.dim as nat,
            tier: self.tier,
            capacity: self.capacity as nat,
        }
    }
}

/// The text of a refused upload.
pub open spec fn mismatch(got: nat, n: nat, dim: nat) -> Seq<char> {
    "CorpusTier::upload: "@ + text::dec_text(got) + " bytes for a "@ + text::dec_text(n) + "×"@
        + text::dec_text(dim) + " corpus ("@ + text::dec_text(n * dim) + " bytes)"@
}

impl CorpusTier {
    /// The size of the corpus fits.
    pub closed spec fn wf(&self) -> bool {
        self.n * self.dim <= usize::MAX
    }

    /// Places a corpus, with the default warm tier.
    pub fn new(n: usize, dim: usize) -> (r: Self)
        requires
            spill_room(n * dim) <= usize::MAX,
        ensures
            r.wf(),
            r@.n == n,
            r@.dim == dim,
            r@.tier == tier_for(n * dim, DEFAULT_DRAM_PER_GPU as int),
            r@.capacity == (if r@.tier == Tier::Ssd {
                spill_room(n * dim)
            } else {
                0
            }),
    {
        Self::with_dram_budget(n, dim, DEFAULT_DRAM_PER_GPU)
    }

    /// Places a corpus, with so much host memory for the warm tier.
    pub fn with_dram_budget(n: usize, dim: usize, dram_per_gpu: usize) -> (r: Self)
        requires
            spill_room(n * dim) <= usize::MAX,
        ensures
            r.wf(),
            r@.n == n,
            r@.dim == dim,
            r@.tier == tier_for(n * dim, dram_per_gpu as int),
            r@.capacity == (if r@.tier == Tier::Ssd {
                spill_room(n * dim)
            } else {
                0
            }),
    {
        proof {
            assert(0 <= n * dim) by (nonlinear_arith)
                requires
                    0 <= n,
                    0 <= dim,
            ;
        }
        let total: usize = n * dim;
        if total > dram_per_gpu / 2 {
            CorpusTier { n, dim, tier: Tier::Ssd, capacity: total + total / 4 + 1048576 }
        } else {
            CorpusTier { n, dim, tier: Tier::Dram, capacity: 0 }
        }
    }

    /// The tier in which the corpus starts.
    pub fn tier(&self) -> (r: Tier)
        ensures
            r == self@.tier,
    {
        self.tier
    }

    /// The room that the corpus spills to, 0 where it does not.
    pub fn capacity(&self) -> (r: usize)
        ensures
            r == self@.capacity,
    {
        self.capacity
    }

    /// Checks that so many bytes fill the corpus exactly.
    pub fn upload(&self, got: usize) -> (r: Result<(), String>)
        requires
            self.wf(),
        ensures
            match r {
                Ok(_) => got == self@.n * self@.dim,
                Err(e) => got != self@.n * self@.dim && e@ == mismatch(
                    got as nat,
                    self@.n,
                    self@.dim,
                ),
            },
    {
        let want: usize = self.bytes();
        if got == want {
            return Ok(());
        }
        let mut s: String = "CorpusTier::upload: ".to_owned();
        s.append(dec_string(got as u64).as_str());
        s.append(" bytes for a ");
        s.append(dec_string(self.n as u64).as_str());
        s.append("×");
        s.append(dec_string(self.dim as u64).as_str());
        s.append(" corpus (");
        s.append(dec_string(want as u64).as_str());
        s.append(" bytes)");
        Err(s)
    }

    /// Rows in the corpus.
    pub fn len(&self) -> (r: usize)
        ensures
            r == self@.n,
    {
        self.n
    }

    /// Whether the corpus holds no rows.
    pub fn is_empty(&self) -> (r: bool)
        ensures
            r == (self@.n == 0),
    {
        self.n == 0
    }

    /// Bytes per row.
    pub fn dim(&self) -> (r: usize)
        ensures
            r == self@.dim,
    {
        self.dim
    }

    /// Bytes of the corpus, across all tiers.
    pub fn bytes(&self) -> (r: usize)
        requires
            self.wf(),
        ensures
            r == self@.n * self@.dim,
    {
        self.n * self.dim
    }
}

/// The name of the spill file of a process.
pub fn spill_file(pid: u32) -> (r: String)
    ensures
        r@ == "dbstrike-corpus-spill-"@ + text::dec_text(pid as nat) + ".bin"@,
{
    let mut s: String = "dbstrike-corpus-spill-".to_owned();
    s.append(dec_string(pid as u64).as_str());
    s.append(".bin");
    s
}

/// Whether a mode serves its corpus through the tiers: the hybrid one alone.
pub fn mode_uses_tiering(mode: ComputeMode) -> (r: bool)
    ensures
        r == (mode == ComputeMode::Hybrid),
{
    mode == ComputeMode::Hybrid
}

/// A corpus that does not spill fits the warm tier twice over.
pub proof fn law_warm_corpus_fits(total: int, dram: int)
    requires
        tier_for(total, dram) == Tier::Dram,
    ensures
        2 * total <= dram,
{
}

/// A corpus that spills has room for all of itself.
pub proof fn law_spill_has_room(total: int)
    requires
        total >= 0,
    ensures
        spill_room(total) > total,
{
}

/// A corpus spills exactly where twice its size is more than the warm tier.
pub proof fn law_large_corpus_spills(total: int, dram: int)
    requires
        dram >= 0,
    ensures
        tier_for(total, dram) == Tier::Ssd <==> 2 * total > dram,
{
}

/// The room to spill to is a mebibyte and five fourths of the corpus, rounded down.
pub proof fn law_spill_room_is_a_quarter_more(total: int)
    requires
        total >= 0,
    ensures
        4 * (spill_room(total) - 1024 * 1024) <= 5 * total < 4 * (spill_room(total) - 1024 * 1024
            + 1),
{
}

} // verus!
