//! Planning accelerator work: search settings, shared memory, buffer sizes, which kernel a
//! search launches, and the slots that carry concurrent searches.
use crate::text;
use crate::text::{chars_of, parse_signed, parse_unsigned};
use vstd::prelude::*;

verus! {

// ── settings ──────────────────────────────────────────────────────────────

/// `v` brought between `lo` and `hi`.
pub open spec fn clamped(v: int, lo: int, hi: int) -> int {
    if v < lo {
        lo
    } else if v > hi {
        hi
    } else {
        v
    }
}

/// The number that a setting spells, if it spells one of at most `max`.
pub open spec fn number_set(v: Option<&str>, max: nat) -> Option<nat> {
    match v {
        Some(s) => text::unsigned_of(s@, max),
        None => None,
    }
}

/// A setting's number, or a default, brought between two bounds.
pub open spec fn setting(v: Option<&str>, max: nat, default: int, lo: int, hi: int) -> int {
    clamped(
        match number_set(v, max) {
            Some(n) => n as int,
            None => default,
        },
        lo,
        hi,
    )
}

fn read_number(v: Option<&str>, max: u64) -> (r: Option<u64>)
    ensures
        match r {
            Some(n) => number_set(v, max as nat) == Some(n as nat),
            None => number_set(v, max as nat) is None,
        },
{
    match v {
        Some(s) => parse_unsigned(&chars_of(s), max),
        None => None,
    }
}

fn read_setting(v: Option<&str>, default: usize, lo: usize, hi: usize) -> (r: usize)
    requires
        lo <= hi,
    ensures
        r == setting(v, usize::MAX as nat, default as int, lo as int, hi as int),
        lo <= r <= hi,
{
    let n: usize = match read_number(v, usize::MAX as u64) {
        Some(x) => x as usize,
        None => default,
    };
    if n < lo {
        lo
    } else if n > hi {
        hi
    } else {
        n
    }
}

/// Threads per block of a search: a multiple of 32 between 32 and 1024.
pub fn apgc_search_threads(v: Option<&str>) -> (r: u32)
    ensures
        r == (match number_set(v, u32::MAX as nat) {
            Some(n) => clamped(n as int, 32, 1024) / 32 * 32,
            None => 512,
        }),
{
    match read_number(v, u32::MAX as u64) {
        Some(n) => {
            let c: u32 = if n < 32 {
                32
            } else if n > 1024 {
                1024
            } else {
                n as u32
            };
            proof {
                assert(c & !31u32 == c / 32 * 32) by (bit_vector)
                    requires
                        c <= 1024u32,
                ;
            }
            c & !31u32
        },
        None => 512,
    }
}

/// The width of a search list. A list wider than the default finds hardly more and takes more
/// shared memory.
pub fn gpu_search_itopk(v: Option<&str>) -> (r: usize)
    ensures
        r == setting(v, usize::MAX as nat, 64, 32, 1024),
{
    read_setting(v, 64, 32, 1024)
}

/// The most iterations of a search. It settles after some twenty.
pub fn gpu_search_iters(v: Option<&str>) -> (r: usize)
    ensures
        r == setting(v, usize::MAX as nat, 24, 1, 512),
{
    read_setting(v, 24, 1, 512)
}

/// The number that a setting spells, within the range of an `i32`.
pub open spec fn signed_set(v: Option<&str>) -> Option<int> {
    match v {
        Some(s) => match text::signed_of(s@) {
            Some(n) => if i32::MIN <= n <= i32::MAX {
                Some(n)
            } else {
                None
            },
            None => None,
        },
        None => None,
    }
}

fn read_signed(v: Option<&str>) -> (r: Option<i32>)
    ensures
        match r {
            Some(n) => signed_set(v) == Some(n as int),
            None => signed_set(v) is None,
        },
{
    match v {
        Some(s) => match parse_signed(&chars_of(s)) {
            Some(n) => if -0x8000_0000 <= n && n <= 0x7fff_ffff {
                Some(n as i32)
            } else {
                None
            },
            None => None,
        },
        None => None,
    }
}

/// The number of list nodes that a search expands per iteration.
pub fn gpu_search_beam(v: Option<&str>) -> (r: i32)
    ensures
        r == clamped(
            match signed_set(v) {
                Some(n) => n,
                None => 64,
            },
            1,
            64,
        ),
{
    let n: i32 = match read_signed(v) {
        Some(x) => x,
        None => 64,
    };
    if n < 1 {
        1
    } else if n > 64 {
        64
    } else {
        n
    }
}

/// Keys per query of attention routing, none by default.
pub fn delta_ar_k(v: Option<&str>) -> (r: i32)
    ensures
        r == (match signed_set(v) {
            Some(n) => n,
            None => 0,
        }),
{
    match read_signed(v) {
        Some(x) => x,
        None => 0,
    }
}

/// Queries that one slot carries in a launch.
pub fn slot_batch(v: Option<&str>) -> (r: usize)
    ensures
        r == setting(v, usize::MAX as nat, 16, 1, 64),
{
    read_setting(v, 16, 1, 64)
}

/// Slots of an index. The busy mask has 32 bits, so there are no more.
pub fn search_slots(v: Option<&str>) -> (r: usize)
    ensures
        r == setting(v, usize::MAX as nat, 32, 1, 32),
{
    read_setting(v, 32, 1, 32)
}

/// The seconds that a build may take.
pub fn build_budget(v: Option<&str>) -> (r: u64)
    ensures
        r == (match number_set(v, u64::MAX as nat) {
            Some(n) => n as int,
            None => 120,
        }),
{
    match read_number(v, u64::MAX) {
        Some(n) => n,
        None => 120,
    }
}

/// Whether a switch that is on by default is on: only `0` turns it off.
pub fn switched_on(v: Option<&str>) -> (r: bool)
    ensures
        r == !(v matches Some(s) && s@ == "0"@),
{
    match v {
        Some(s) => s.to_owned() != "0".to_owned(),
        None => true,
    }
}

// ── shared memory ─────────────────────────────────────────────────────────

/// The bound on dynamic shared memory.
pub const GPU_MAX_DYN_SMEM: usize = 98304;

/// The most results that the top-k kernels give.
pub const GPU_TOPK_MAX: usize = 512;

/// Entries of the kernel's set of visited nodes.
pub const SR_HASH: usize = 8192;

/// Entries of the merge buffer inside the top-k kernels.
pub const TOPK_MERGE: usize = 4096;

/// Threads of the top-k kernels: as many, halving from 128, as leave each of them `k` entries
/// of the merge buffer.
pub open spec fn threads_for(k: int) -> int {
    if k <= 32 {
        128
    } else if k <= 64 {
        64
    } else if k <= 128 {
        32
    } else if k <= 256 {
        16
    } else {
        8
    }
}

/// The thread count of the top-k kernels for `k` results.
pub fn topk_threads(k: usize) -> (r: u32)
    ensures
        r == threads_for(k as int),
{
    if k <= 32 {
        128
    } else if k <= 64 {
        64
    } else if k <= 128 {
        32
    } else if k <= 256 {
        16
    } else {
        8
    }
}

/// Shared memory of the top-k kernels: a distance and a number for each thread and result.
pub open spec fn topk_smem_of(k: int) -> int {
    threads_for(k) * k * 8
}

/// The bytes of shared memory that a top-k launch takes.
pub fn topk_smem(k: usize) -> (r: u32)
    requires
        k <= GPU_TOPK_MAX,
    ensures
        r == topk_smem_of(k as int),
{
    let threads: u32 = topk_threads(k);
    proof {
        law_topk_fits(k as int);
    }
    threads * k as u32 * 8
}

/// For every number of results that the kernels give, a top-k launch fits the default 48 KB
/// of shared memory, and the merge buffer suffices.
pub proof fn law_topk_fits(k: int)
    requires
        0 <= k <= GPU_TOPK_MAX,
    ensures
        topk_smem_of(k) <= 48 * 1024,
        0 <= threads_for(k) * k <= TOPK_MERGE,
{
    let t = threads_for(k);
    assert(t == 128 || t == 64 || t == 32 || t == 16 || t == 8);
    if t == 128 {
        assert(t * k == 128 * k);
    } else if t == 64 {
        assert(t * k == 64 * k);
    } else if t == 32 {
        assert(t * k == 32 * k);
    } else if t == 16 {
        assert(t * k == 16 * k);
    } else {
        assert(t * k == 8 * k);
    }
}

/// The first of `b`, `2 * b`, `4 * b`, ... that is at least `x`.
pub open spec fn doubled_to(b: int, x: int) -> int
    decreases (if b < x { x - b } else { 0 }),
    when b > 0
{
    if b >= x {
        b
    } else {
        doubled_to(2 * b, x)
    }
}

/// The least power of two that is at least `x`.
pub open spec fn pow2_from(x: int) -> int {
    doubled_to(1, x)
}

pub proof fn lemma_doubled(b: int, x: int)
    requires
        b > 0,
    ensures
        doubled_to(b, x) >= x,
        doubled_to(b, x) >= b,
        doubled_to(b, x) == b || doubled_to(b, x) < 2 * x,
    decreases (if b < x { x - b } else { 0 }),
{
    if b < x {
        lemma_doubled(2 * b, x);
    }
}

proof fn lemma_doubled_rises(b: int, x: int, y: int)
    requires
        b > 0,
        x <= y,
    ensures
        doubled_to(b, x) <= doubled_to(b, y),
    decreases (if b < y { y - b } else { 0 }),
{
    lemma_doubled(b, y);
    if b < x {
        lemma_doubled_rises(2 * b, x, y);
    }
}

/// The words of shared memory that a graph search takes: the list three times, the set of
/// visited nodes, the packed query, control words, and scratch for exact scores.
pub open spec fn search_words(itopk: int, degree: int, dim: int, rerank: bool, beam: int) -> int {
    3 * pow2_from(itopk + beam * degree) + SR_HASH + (dim + 3) / 4 + 16 + (if rerank {
        dim + 512
    } else {
        0
    })
}

/// The bytes of shared memory that a graph search takes.
pub open spec fn search_smem(itopk: int, degree: int, dim: int, rerank: bool, beam: int) -> int {
    search_words(itopk, degree, dim, rerank, beam) * 4
}

/// The bytes of shared memory of a graph search.
pub fn apgc_search_smem(itopk: usize, degree: usize, dim: usize, rerank: bool, beam: usize) -> (r:
    u32)
    requires
        search_smem(itopk as int, degree as int, dim as int, rerank, beam as int) <= u32::MAX,
    ensures
        r == search_smem(itopk as int, degree as int, dim as int, rerank, beam as int),
{
    proof {
        lemma_doubled(1, itopk + beam * degree);
        assert(0 <= beam * degree) by (nonlinear_arith)
            requires
                0 <= beam,
                0 <= degree,
        ;
    }
    let wide: u64 = itopk as u64 + beam as u64 * degree as u64;
    let mut buf: u64 = 1;
    while buf < wide
        invariant
            wide == itopk + beam * degree,
            0 < buf,
            doubled_to(1, wide as int) == doubled_to(buf as int, wide as int),
            wide <= 0xffff_ffff,
        decreases (if buf < wide { wide - buf } else { 0int }),
    {
        buf = buf * 2;
    }
    let words: u64 = 3 * buf + SR_HASH as u64 + (dim as u64 + 3) / 4 + 16 + (if rerank {
        dim as u64 + 512
    } else {
        0
    });
    (words * 4) as u32
}

/// Whether a graph search with a beam fits the device's shared memory.
pub open spec fn beam_fits(itopk: int, degree: int, dim: int, rerank: bool, beam: int) -> bool {
    search_smem(itopk, degree, dim, rerank, beam) <= GPU_MAX_DYN_SMEM
}

/// The largest beam up to `beam` that fits, or one.
pub open spec fn beam_from(itopk: int, degree: int, dim: int, rerank: bool, beam: int) -> int
    decreases beam,
{
    if beam <= 1 || beam_fits(itopk, degree, dim, rerank, beam) {
        beam
    } else {
        beam_from(itopk, degree, dim, rerank, beam - 1)
    }
}

pub proof fn lemma_smem_rises(itopk: int, degree: int, dim: int, rerank: bool, a: int, b: int)
    requires
        0 <= degree,
        a <= b,
    ensures
        search_smem(itopk, degree, dim, rerank, a) <= search_smem(itopk, degree, dim, rerank, b),
{
    assert(a * degree <= b * degree) by (nonlinear_arith)
        requires
            a <= b,
            0 <= degree,
    ;
    lemma_doubled_rises(1, itopk + a * degree, itopk + b * degree);
}

/// The largest beam, up to the requested one and 64, with which a search fits the device's
/// shared memory. The beam that comes back goes both to the kernel and into
/// [`apgc_search_smem`].
pub fn apgc_fit_beam(itopk: usize, degree: usize, dim: usize, rerank: bool, requested: i32) -> (r:
    i32)
    requires
        search_smem(
            itopk as int,
            degree as int,
            dim as int,
            rerank,
            clamped(requested as int, 1, 64),
        ) <= u32::MAX,
    ensures
        1 <= r <= clamped(requested as int, 1, 64),
        r == 1 || beam_fits(itopk as int, degree as int, dim as int, rerank, r as int),
        forall|b: int|
            r < b <= clamped(requested as int, 1, 64) ==> !#[trigger] beam_fits(
                itopk as int,
                degree as int,
                dim as int,
                rerank,
                b,
            ),
        r == beam_from(
            itopk as int,
            degree as int,
            dim as int,
            rerank,
            clamped(requested as int, 1, 64),
        ),
{
    let first: i32 = if requested < 1 {
        1
    } else if requested > 64 {
        64
    } else {
        requested
    };
    let mut beam: i32 = first;
    let mut fits: bool = false;
    while beam > 1 && !fits
        invariant
            1 <= beam <= first <= 64,
            search_smem(itopk as int, degree as int, dim as int, rerank, first as int) <= u32::MAX,
            beam_from(itopk as int, degree as int, dim as int, rerank, first as int) == beam_from(
                itopk as int,
                degree as int,
                dim as int,
                rerank,
                beam as int,
            ),
            fits ==> beam_fits(itopk as int, degree as int, dim as int, rerank, beam as int),
        decreases beam, (if fits { 0int } else { 1int }),
    {
        proof {
            lemma_smem_rises(
                itopk as int,
                degree as int,
                dim as int,
                rerank,
                beam as int,
                first as int,
            );
        }
        if apgc_search_smem(itopk, degree, dim, rerank, beam as usize) as usize
            <= GPU_MAX_DYN_SMEM {
            fits = true;
        } else {
            beam = beam - 1;
        }
    }
    proof {
        law_beam_fits(itopk as int, degree as int, dim as int, rerank, first as int);
    }
    beam
}

/// The beam that is chosen fits, or it is one; it is never more than was asked for, and no
/// larger one up to that fits.
pub proof fn law_beam_fits(itopk: int, degree: int, dim: int, rerank: bool, beam: int)
    requires
        1 <= beam,
    ensures
        ({
            let b = beam_from(itopk, degree, dim, rerank, beam);
            &&& 1 <= b <= beam
            &&& b == 1 || beam_fits(itopk, degree, dim, rerank, b)
            &&& forall|c: int|
                b < c <= beam ==> !#[trigger] beam_fits(itopk, degree, dim, rerank, c)
        }),
    decreases beam,
{
    if beam > 1 && !beam_fits(itopk, degree, dim, rerank, beam) {
        law_beam_fits(itopk, degree, dim, rerank, beam - 1);
    }
}

/// What is brought between two bounds lies between them, and what lay there stays as it was.
pub proof fn law_clamping_keeps_what_fits(v: int, w: int, lo: int, hi: int)
    requires
        lo <= hi,
    ensures
        lo <= clamped(v, lo, hi) <= hi,
        lo <= v <= hi ==> clamped(v, lo, hi) == v,
        v <= w ==> clamped(v, lo, hi) <= clamped(w, lo, hi),
{
}

/// A setting that spells a number within its bounds is that number; one that is absent or spells
/// none is the default.
pub proof fn law_settings_are_read(s: &str, n: nat, max: nat, default: int, lo: int, hi: int)
    requires
        lo <= default <= hi,
        lo <= n <= hi,
        n <= max <= u64::MAX,
    ensures
        setting(None, max, default, lo, hi) == default,
        s@ == text::dec_text(n) ==> setting(Some(s), max, default, lo, hi) == n,
        text::unsigned_of(s@, max) is None ==> setting(Some(s), max, default, lo, hi) == default,
{
    text::lemma_dec_text_unsigned(n, max);
}

/// The top-k kernels take as many threads as the merge buffer has room for: twice as many would
/// overrun it, unless there are 128 of them.
pub proof fn law_topk_threads_are_most(k: int)
    requires
        0 < k <= GPU_TOPK_MAX,
    ensures
        threads_for(k) * k <= 4096,
        threads_for(k) == 128 || 2 * (threads_for(k) * k) > 4096,
        topk_smem_of(k) == 8 * (threads_for(k) * k),
{
}

proof fn lemma_doubled_power(b: nat, x: int)
    ensures
        exists|e: nat|
            doubled_to(vstd::arithmetic::power2::pow2(b) as int, x)
                == #[trigger] vstd::arithmetic::power2::pow2(e),
    decreases (if vstd::arithmetic::power2::pow2(b) < x {
        x - vstd::arithmetic::power2::pow2(b)
    } else {
        0
    }),
{
    vstd::arithmetic::power2::lemma_pow2_pos(b);
    vstd::arithmetic::power2::lemma_pow2_unfold(b + 1);
    if vstd::arithmetic::power2::pow2(b) < x {
        lemma_doubled_power(b + 1, x);
    } else {
        assert(doubled_to(vstd::arithmetic::power2::pow2(b) as int, x)
            == vstd::arithmetic::power2::pow2(b));
    }
}

/// The list of a search is rounded up to a power of two, and never to twice its size.
pub proof fn law_lists_are_powers_of_two(x: int)
    requires
        x >= 1,
    ensures
        x <= pow2_from(x) < 2 * x,
        exists|e: nat| pow2_from(x) == #[trigger] vstd::arithmetic::power2::pow2(e),
{
    lemma_doubled(1, x);
    vstd::arithmetic::power2::lemma2_to64();
    lemma_doubled_power(0, x);
}

/// A search with exact scores takes more shared memory than one without: four bytes for each
/// component and two kilobytes; and each further node of the beam never takes less.
pub proof fn law_exact_scores_take_room(
    itopk: int,
    degree: int,
    dim: int,
    rerank: bool,
    beam: int,
)
    requires
        itopk >= 1,
        degree >= 0,
        beam >= 1,
    ensures
        search_smem(itopk, degree, dim, true, beam) == search_smem(itopk, degree, dim, false, beam)
            + 4 * dim + 2048,
        search_smem(itopk, degree, dim, rerank, beam) <= search_smem(
            itopk,
            degree,
            dim,
            rerank,
            beam + 1,
        ),
        search_smem(itopk, degree, dim + 4, false, beam) == search_smem(
            itopk,
            degree,
            dim,
            false,
            beam,
        ) + 4,
{
    assert((beam + 1) * degree == beam * degree + degree) by (nonlinear_arith);
    lemma_doubled_rises(1, itopk + beam * degree, itopk + (beam + 1) * degree);
}

} // verus!
