//! Where work runs: whether there is an accelerator, which mode is in force, and which
//! kernels are loaded. The driver's answers and the environment's settings come in as
//! arguments.
use crate::text;
use crate::text::{chars_of, dec_string};
use vstd::prelude::*;
use vstd::string::*;

verus! {

/// How work is routed.
#[derive(Debug, Clone, Copy, PartialEq, Eq, Structural)]
pub enum ComputeMode {
    /// Vectors, graph and traversal all on the accelerator.
    Turbo,
    /// Three tiers: device memory, host memory, disk.
    Hybrid,
    /// No accelerator work at all.
    CpuOnly,
}

impl ComputeMode {
    pub open spec fn label(self) -> Seq<char> {
        match self {
            ComputeMode::Turbo => "Turbo"@,
            ComputeMode::Hybrid => "Hybrid"@,
            ComputeMode::CpuOnly => "CpuOnly"@,
        }
    }

    /// The mode's name.
    pub fn name(&self) -> (r: &'static str)
        ensures
            r@ == self.label(),
    {
        match self {
            ComputeMode::Turbo => "Turbo",
            ComputeMode::Hybrid => "Hybrid",
            ComputeMode::CpuOnly => "CpuOnly",
        }
    }
}

// ── words without regard to case ──────────────────────────────────────────

/// The code of a character, an ASCII capital taken as its small letter.
pub open spec fn small(c: char) -> int {
    if 65 <= c as int <= 90 {
        c as int + 32
    } else {
        c as int
    }
}

/// Whether two texts are the same but for the case of ASCII letters.
pub open spec fn same_word(a: Seq<char>, b: Seq<char>) -> bool {
    a.len() == b.len() && forall|i: int| 0 <= i < a.len() ==> #[trigger] small(a[i]) == small(b[i])
}

fn small_code(c: char) -> (r: u32)
    ensures
        r == small(c),
{
    let u: u32 = c as u32;
    if 65 <= u && u <= 90 {
        u + 32
    } else {
        u
    }
}

/// Compares two texts without regard to the case of ASCII letters.
pub fn is_word(a: &str, b: &str) -> (r: bool)
    ensures
        r == same_word(a@, b@),
{
    let x = chars_of(a);
    let y = chars_of(b);
    if x.len() != y.len() {
        return false;
    }
    let mut i: usize = 0;
    while i < x.len()
        invariant
            x@ == a@,
            y@ == b@,
            x@.len() == y@.len(),
            i <= x@.len(),
            forall|k: int| 0 <= k < i ==> #[trigger] small(x@[k]) == small(y@[k]),
        decreases x@.len() - i,
    {
        if small_code(x[i]) != small_code(y[i]) {
            assert(small(x@[i as int]) != small(y@[i as int]));
            return false;
        }
        i = i + 1;
    }
    true
}

/// The mode that a setting names.
pub open spec fn mode_named(s: Seq<char>) -> Option<ComputeMode> {
    if same_word(s, "turbo"@) {
        Some(ComputeMode::Turbo)
    } else if same_word(s, "hybrid"@) {
        Some(ComputeMode::Hybrid)
    } else if same_word(s, "cpu"@) || same_word(s, "cpuonly"@) || same_word(s, "cpu_only"@) {
        Some(ComputeMode::CpuOnly)
    } else {
        None
    }
}

/// The mode of a setting that may be absent.
pub open spec fn mode_set(v: Option<&str>) -> Option<ComputeMode> {
    match v {
        Some(s) => mode_named(s@),
        None => None,
    }
}

/// The mode that the environment names, if it names a valid one.
pub fn mode_from_env(v: Option<&str>) -> (r: Option<ComputeMode>)
    ensures
        r == mode_set(v),
{
    match v {
        None => None,
        Some(s) => {
            if is_word(s, "turbo") {
                Some(ComputeMode::Turbo)
            } else if is_word(s, "hybrid") {
                Some(ComputeMode::Hybrid)
            } else if is_word(s, "cpu") || is_word(s, "cpuonly") || is_word(s, "cpu_only") {
                Some(ComputeMode::CpuOnly)
            } else {
                None
            }
        },
    }
}

// ── the device ────────────────────────────────────────────────────────────

/// What is known of the device once it was looked for.
#[derive(Debug)]
pub struct GpuState {
    pub available: bool,
    pub vram_total: usize,
    pub vram_free: usize,
    pub kernels: Vec<String>,
}

/// The state of the accelerator in this process.
#[derive(Debug)]
pub struct Gpu {
    /// None until the device was looked for.
    pub state: Option<GpuState>,
    pub enabled: bool,
    /// Set once the context was destroyed; it never comes back.
    pub destroyed: bool,
    /// Whether the device was asked for on first use.
    pub tried: bool,
    /// None until it is read or set for the first time.
    pub mode: Option<ComputeMode>,
    pub kernels_compiled: bool,
    pub kernels_attempted: bool,
}

impl Gpu {
    /// A process that has not asked for the device yet.
    pub fn new() -> (r: Self)
        ensures
            r.state is None,
            !r.enabled,
            !r.destroyed,
            !r.tried,
            r.mode is None,
            !r.kernels_compiled,
            !r.kernels_attempted,
    {
        Gpu {
            state: None,
            enabled: false,
            destroyed: false,
            tried: false,
            mode: None,
            kernels_compiled: false,
            kernels_attempted: false,
        }
    }
}

/// The state that a look for the device gives: the free and the total memory of the device
/// that was found.
pub open spec fn probed(found: Option<(usize, usize)>, s: GpuState) -> bool {
    match found {
        Some((free, total)) => s.available && s.vram_free == free && s.vram_total == total
            && s.kernels@.len() == 0,
        None => !s.available && s.vram_free == 0 && s.vram_total == 0 && s.kernels@.len() == 0,
    }
}

/// Whether a device stands ready after it was looked for.
pub open spec fn comes_up(g: Gpu, found: Option<(usize, usize)>) -> bool {
    g.enabled || (!g.destroyed && match g.state {
        Some(s) => s.available,
        None => found is Some,
    })
}

/// The process `a` is `g` once the device was brought up, as far as it could be.
pub open spec fn brought_up(g: Gpu, found: Option<(usize, usize)>, a: Gpu) -> bool {
    &&& a == (Gpu { enabled: comes_up(g, found), state: a.state, ..g })
    &&& if g.enabled || g.destroyed || g.state is Some {
        a.state == g.state
    } else {
        a.state matches Some(s) && probed(found, s)
    }
}

/// Brings the device up. `found` is what a look for it gave: its free and total memory. It
/// is used only the first time.
pub fn gpu_init(g: &mut Gpu, found: Option<(usize, usize)>) -> (r: bool)
    ensures
        r == comes_up(*old(g), found),
        brought_up(*old(g), found, *final(g)),
{
    if g.enabled {
        return true;
    }
    if g.destroyed {
        return false;
    }
    let available: bool = match &g.state {
        Some(s) => s.available,
        None => {
            match found {
                Some((free, total)) => {
                    g.state = Some(
                        GpuState {
                            available: true,
                            vram_total: total,
                            vram_free: free,
                            kernels: Vec::new(),
                        },
                    );
                    true
                },
                None => {
                    g.state = Some(
                        GpuState {
                            available: false,
                            vram_total: 0,
                            vram_free: 0,
                            kernels: Vec::new(),
                        },
                    );
                    false
                },
            }
        },
    };
    if available {
        g.enabled = true;
        true
    } else {
        false
    }
}

/// The mode in force: the one that was set, or that the environment names, or none of the
/// accelerator.
pub open spec fn mode_of(g: Gpu, env: Option<&str>) -> ComputeMode {
    match g.mode {
        Some(m) => m,
        None => match mode_set(env) {
            Some(m) => m,
            None => ComputeMode::CpuOnly,
        },
    }
}

/// The mode in force. The first call settles it.
pub fn gpu_get_mode(g: &mut Gpu, env: Option<&str>) -> (r: ComputeMode)
    ensures
        r == mode_of(*old(g), env),
        *final(g) == (Gpu { mode: Some(r), ..*old(g) }),
{
    match g.mode {
        Some(m) => m,
        None => {
            let m = match mode_from_env(env) {
                Some(m) => m,
                None => ComputeMode::CpuOnly,
            };
            g.mode = Some(m);
            m
        },
    }
}

/// Sets the mode.
pub fn gpu_set_mode(g: &mut Gpu, mode: ComputeMode)
    ensures
        *final(g) == (Gpu { mode: Some(mode), ..*old(g) }),
{
    g.mode = Some(mode);
}

/// The process `a` is `g` once it was asked whether the device stands ready.
pub open spec fn asked(g: Gpu, env: Option<&str>, found: Option<(usize, usize)>, a: Gpu) -> bool {
    let m = mode_of(g, env);
    if g.enabled {
        a == g
    } else if m == ComputeMode::CpuOnly || g.tried {
        a == (Gpu { mode: Some(m), ..g })
    } else {
        brought_up((Gpu { mode: Some(m), tried: true, ..g }), found, a)
    }
}

/// Whether the device stands ready. On the first call in a mode that uses it, it is
/// brought up.
pub fn gpu_available(g: &mut Gpu, env: Option<&str>, found: Option<(usize, usize)>) -> (r: bool)
    ensures
        r == (old(g).enabled || (mode_of(*old(g), env) != ComputeMode::CpuOnly && !old(g).tried
            && comes_up(*old(g), found))),
        r == final(g).enabled,
        asked(*old(g), env, found, *final(g)),
{
    if g.enabled {
        return true;
    }
    let mode = gpu_get_mode(g, env);
    if mode != ComputeMode::CpuOnly {
        if !g.tried {
            g.tried = true;
            return gpu_init(g, found);
        }
    }
    false
}

/// Takes the device down for good.
pub fn gpu_unload(g: &mut Gpu)
    ensures
        !final(g).enabled,
        final(g).destroyed == (old(g).destroyed || (old(g).state matches Some(s) && s.available)),
        final(g).state == old(g).state,
        final(g).tried == old(g).tried,
        final(g).mode == old(g).mode,
        final(g).kernels_compiled == old(g).kernels_compiled,
        final(g).kernels_attempted == old(g).kernels_attempted,
{
    g.enabled = false;
    let live: bool = match &g.state {
        Some(s) => s.available,
        None => false,
    };
    if live {
        g.destroyed = true;
    }
}

// ── capacity ──────────────────────────────────────────────────────────────

/// The free device memory: what the driver says now, or what it said at first.
pub open spec fn free_now(s: GpuState, live: Option<usize>) -> usize {
    match live {
        Some(f) => if s.available {
            f
        } else {
            s.vram_free
        },
        None => s.vram_free,
    }
}

/// Whether `n` vectors of `dim` bytes fit, how much they need, and how much is free.
pub open spec fn capacity(g: Gpu, n: int, dim: int, live: Option<usize>) -> (bool, int, int) {
    match g.state {
        Some(s) => (n * dim <= free_now(s, live), n * dim, free_now(s, live) as int),
        None => (false, 0, 0),
    }
}

fn free_memory(s: &GpuState, live: Option<usize>) -> (r: usize)
    ensures
        r == free_now(*s, live),
{
    match live {
        Some(f) => if s.available {
            f
        } else {
            s.vram_free
        },
        None => s.vram_free,
    }
}

/// Whether so many vectors fit, counted without a limit.
fn corpus_fits(g: &Gpu, n: usize, dim: usize, live: Option<usize>) -> (r: bool)
    ensures
        r == capacity(*g, n as int, dim as int, live).0,
{
    match &g.state {
        Some(s) => {
            proof {
                lemma_product(n as int, dim as int);
            }
            n as u128 * dim as u128 <= free_memory(s, live) as u128
        },
        None => false,
    }
}

proof fn lemma_product(a: int, b: int)
    requires
        0 <= a <= 0xffff_ffff_ffff_ffff,
        0 <= b <= 0xffff_ffff_ffff_ffff,
    ensures
        0 <= a * b <= 0xffff_ffff_ffff_ffff * 0xffff_ffff_ffff_ffff,
{
    assert(0 <= a * b <= 0xffff_ffff_ffff_ffff * 0xffff_ffff_ffff_ffff) by (nonlinear_arith)
        requires
            0 <= a <= 0xffff_ffff_ffff_ffff,
            0 <= b <= 0xffff_ffff_ffff_ffff,
    ;
}

/// Whether `n` vectors of `dim` bytes fit in device memory. `live` is the free memory that
/// the driver reports.
pub fn gpu_check_capacity(g: &Gpu, n: usize, dim: usize, live: Option<usize>) -> (r: (
    bool,
    usize,
    usize,
))
    requires
        g.state is Some ==> n * dim <= usize::MAX,
    ensures
        r.0 == capacity(*g, n as int, dim as int, live).0,
        r.1 == capacity(*g, n as int, dim as int, live).1,
        r.2 == capacity(*g, n as int, dim as int, live).2,
{
    match &g.state {
        Some(s) => {
            let needed: usize = n * dim;
            let free: usize = free_memory(s, live);
            (needed <= free, needed, free)
        },
        None => (false, 0, 0),
    }
}

/// Shards of an index.
pub const SHARDS: usize = 16;

/// The memory that building one shard takes at its peak: vectors, the distance matrix of
/// one batch, and overhead.
pub open spec fn build_peak(n: int, dim: int) -> int {
    let shard = (n + SHARDS - 1) / SHARDS as int;
    shard * dim + 512 * shard * 4 + 20 * 1024 * 1024
}

/// The mode that suits a corpus: the accelerator alone only where the whole corpus and the
/// build of a shard each fit.
pub open spec fn best_mode(ready: bool, n: int, dim: int, free: int) -> ComputeMode {
    if !ready {
        ComputeMode::CpuOnly
    } else if n * dim <= free && build_peak(n, dim) <= free {
        ComputeMode::Turbo
    } else {
        ComputeMode::Hybrid
    }
}

/// Chooses the mode by the device and the size of the corpus, and sets it where there is a
/// device.
pub fn gpu_auto_mode(
    g: &mut Gpu,
    env: Option<&str>,
    found: Option<(usize, usize)>,
    live: Option<usize>,
    n: usize,
    dim: usize,
) -> (r: ComputeMode)
    ensures
        exists|h: Gpu| #[trigger]
            asked(*old(g), env, found, h) && r == best_mode(
                h.enabled,
                n as int,
                dim as int,
                capacity(h, n as int, dim as int, live).2,
            ) && *final(g) == (if h.enabled {
                Gpu { mode: Some(r), ..h }
            } else {
                h
            }),
{
    let up = gpu_available(g, env, found);
    proof {
        assert(asked(*old(g), env, found, *g));
    }
    if !up {
        return ComputeMode::CpuOnly;
    }
    let fits = corpus_fits(g, n, dim, live);
    let free: usize = match &g.state {
        Some(s) => free_memory(s, live),
        None => 0,
    };
    let shard: u128 = (n as u128 + (SHARDS as u128 - 1)) / SHARDS as u128;
    proof {
        assert(0 <= shard * dim <= 0x1000_0000_0000_0000 * 0xffff_ffff_ffff_ffff)
            by (nonlinear_arith)
            requires
                0 <= shard <= 0x1000_0000_0000_0000,
                0 <= dim <= 0xffff_ffff_ffff_ffff,
        ;
    }
    let peak: u128 = shard * dim as u128 + 512 * shard * 4 + 20 * 1024 * 1024;
    let mode = if fits && peak <= free as u128 {
        ComputeMode::Turbo
    } else {
        ComputeMode::Hybrid
    };
    gpu_set_mode(g, mode);
    mode
}

/// The tier of a corpus: the mode that suits it.
pub fn gpu_tier_strategy(
    g: &mut Gpu,
    env: Option<&str>,
    found: Option<(usize, usize)>,
    live: Option<usize>,
    n: usize,
    dim: usize,
) -> (r: ComputeMode)
    ensures
        exists|h: Gpu| #[trigger]
            asked(*old(g), env, found, h) && r == best_mode(
                h.enabled,
                n as int,
                dim as int,
                capacity(h, n as int, dim as int, live).2,
            ) && *final(g) == (if h.enabled {
                Gpu { mode: Some(r), ..h }
            } else {
                h
            }),
{
    gpu_auto_mode(g, env, found, live, n, dim)
}

/// Whether data of this size goes to the accelerator in the mode in force.
pub fn gpu_should_use_gpu(g: &mut Gpu, env: Option<&str>, live: Option<usize>, n: usize, dim: usize) -> (r:
    bool)
    ensures
        r == (match mode_of(*old(g), env) {
            ComputeMode::Turbo => true,
            ComputeMode::Hybrid => capacity(*old(g), n as int, dim as int, live).0,
            ComputeMode::CpuOnly => false,
        }),
        *final(g) == (Gpu { mode: Some(mode_of(*old(g), env)), ..*old(g) }),
{
    match gpu_get_mode(g, env) {
        ComputeMode::Turbo => true,
        ComputeMode::Hybrid => corpus_fits(g, n, dim, live),
        ComputeMode::CpuOnly => false,
    }
}

// ── kernels ───────────────────────────────────────────────────────────────

/// A text without any occurrence of `cut`, searched from the left.
pub open spec fn without_part(s: Seq<char>, cut: Seq<char>) -> Seq<char>
    decreases s.len(),
{
    if cut.len() == 0 || s.len() < cut.len() {
        s
    } else if s.take(cut.len() as int) == cut {
        without_part(s.skip(cut.len() as int), cut)
    } else {
        seq![s[0]] + without_part(s.skip(1), cut)
    }
}

/// The name under which a kernel is loaded: its function's name without `_kernel`.
pub fn short_name(name: &str) -> (r: String)
    ensures
        r@ == without_part(name@, "_kernel"@),
{
    let s = chars_of(name);
    let cut = chars_of("_kernel");
    proof {
        reveal_strlit("_kernel");
    }
    let ghost mut done: Seq<char> = Seq::empty();
    let mut out: String = String::new();
    let mut i: usize = 0;
    proof {
        assert(s@.skip(0) =~= s@);
        assert(done + without_part(s@.skip(0), cut@) =~= without_part(s@, cut@));
    }
    while i < s.len()
        invariant
            i <= s@.len(),
            s@ == name@,
            cut@ == "_kernel"@,
            cut@.len() == 7,
            out@ == done,
            done + without_part(s@.skip(i as int), cut@) == without_part(s@, cut@),
        decreases s@.len() - i,
    {
        let size: usize = s.len();
        let mut here: bool = size - i >= 7;
        let mut j: usize = 0;
        while here && j < 7
            invariant
                j <= 7,
                cut@.len() == 7,
                i < s@.len() == size,
                here ==> s@.len() - i >= 7,
                here ==> forall|x: int| 0 <= x < j ==> s@[i + x] == #[trigger] cut@[x],
                !here ==> s@.len() - i < 7 || s@.skip(i as int).take(7) != cut@,
            decreases 7 - j, (if here { 1int } else { 0int }),
        {
            if s[i + j] != cut[j] {
                proof {
                    assert(s@.skip(i as int).take(7)[j as int] == s@[i + j]);
                }
                here = false;
            } else {
                j = j + 1;
            }
        }
        let ghost rest = s@.skip(i as int);
        if here {
            proof {
                assert(rest.take(7) =~= cut@);
                assert(rest.skip(7) =~= s@.skip(i + 7));
            }
            i = i + 7;
        } else {
            let c: char = s[i];
            proof {
                assert(rest.skip(1) =~= s@.skip(i + 1));
                if rest.len() >= 7 {
                    assert(without_part(rest, cut@) == seq![c] + without_part(rest.skip(1), cut@));
                } else {
                    lemma_short(rest, cut@);
                }
                assert(done + (seq![c] + without_part(s@.skip(i + 1), cut@)) =~= done.push(c)
                    + without_part(s@.skip(i + 1), cut@));
                done = done.push(c);
            }
            out.append(name.substring_char(i, i + 1));
            proof {
                assert(name@.subrange(i as int, i + 1) =~= seq![c]);
                assert(out@ =~= done);
            }
            i = i + 1;
        }
    }
    proof {
        assert(s@.skip(i as int) =~= Seq::<char>::empty());
        assert(done + without_part(s@.skip(i as int), cut@) =~= done);
    }
    out
}

proof fn lemma_short(s: Seq<char>, cut: Seq<char>)
    requires
        0 < s.len() < cut.len(),
    ensures
        without_part(s, cut) == seq![s[0]] + without_part(s.skip(1), cut),
{
    assert(s =~= seq![s[0]] + s.skip(1));
}

/// Whether a name is in the list.
pub open spec fn listed_name(names: Seq<String>, name: Seq<char>) -> bool {
    exists|i: int| 0 <= i < names.len() && (#[trigger] names[i])@ == name
}

/// Whether a kernel is among the loaded ones.
pub open spec fn loaded(g: Gpu, name: Seq<char>) -> bool {
    match g.state {
        Some(s) => listed_name(s.kernels@, name),
        None => false,
    }
}

fn has_name(names: &Vec<String>, name: &str) -> (r: bool)
    ensures
        r == listed_name(names@, name@),
{
    let wanted = name.to_owned();
    let mut i: usize = 0;
    while i < names.len()
        invariant
            wanted@ == name@,
            i <= names@.len(),
            forall|k: int| 0 <= k < i ==> (#[trigger] names@[k])@ != name@,
        decreases names@.len() - i,
    {
        if names[i] == wanted {
            assert(names@[i as int]@ == name@);
            return true;
        }
        i = i + 1;
    }
    false
}

/// Looks a kernel up.
pub fn gpu_has_kernel(g: &Gpu, name: &str) -> (r: bool)
    ensures
        r == loaded(*g, name@),
{
    match &g.state {
        None => false,
        Some(s) => has_name(&s.kernels, name),
    }
}

pub open spec fn name_views(s: Seq<String>) -> Seq<Seq<char>> {
    Seq::new(s.len(), |i: int| s[i]@)
}

/// The short names of the first `n` functions.
pub open spec fn short_names(s: Seq<String>, n: int) -> Seq<Seq<char>>
    decreases n,
{
    if n <= 0 {
        Seq::empty()
    } else {
        short_names(s, n - 1).push(without_part(s[n - 1]@, "_kernel"@))
    }
}

/// The kernels that a state holds.
pub open spec fn kernels_of(g: Gpu) -> Seq<Seq<char>> {
    match g.state {
        Some(s) => name_views(s.kernels@),
        None => Seq::empty(),
    }
}

/// The process `a` is `g` with the kernels of a module that was compiled.
pub open spec fn with_module(g: Gpu, names: Seq<String>, a: Gpu) -> bool {
    &&& a == (Gpu {
        kernels_compiled: true,
        kernels_attempted: true,
        state: a.state,
        ..g
    })
    &&& kernels_of(a) == kernels_of(g) + short_names(names, names.len() as int)
    &&& a.state matches Some(s) && g.state matches Some(t) && s.available == t.available
        && s.vram_free == t.vram_free && s.vram_total == t.vram_total
}

/// Takes the outcome of compiling the kernels: the functions that the module holds, or
/// nothing where it could not be built. A module is taken only once.
pub fn ensure_kernels(g: &mut Gpu, built: &Option<Vec<String>>)
    requires
        old(g).state is Some,
    ensures
        match *built {
            Some(names) => if old(g).kernels_compiled || old(g).kernels_attempted {
                *final(g) == *old(g)
            } else {
                with_module(*old(g), names@, *final(g))
            },
            None => *final(g) == *old(g),
        },
{
    if g.kernels_compiled || g.kernels_attempted {
        return;
    }
    match built {
        None => {},
        Some(names) => {
            let ghost before = kernels_of(*g);
            match g.state.take() {
                Some(s) => {
                    let mut t = s;
                    let ghost total = t.vram_total;
                    let ghost free = t.vram_free;
                    let ghost avail = t.available;
                    let mut i: usize = 0;
                    proof {
                        assert(name_views(t.kernels@) =~= before + short_names(names@, 0));
                    }
                    while i < names.len()
                        invariant
                            i <= names@.len(),
                            t.vram_total == total,
                            t.vram_free == free,
                            t.available == avail,
                            name_views(t.kernels@) == before + short_names(names@, i as int),
                        decreases names@.len() - i,
                    {
                        let ghost k = t.kernels@;
                        let x = short_name(names[i].as_str());
                        let ghost v = x@;
                        t.kernels.push(x);
                        i = i + 1;
                        proof {
                            assert(name_views(t.kernels@) =~= name_views(k).push(v));
                            assert(name_views(t.kernels@) =~= before + short_names(
                                names@,
                                i as int,
                            ));
                        }
                    }
                    g.state = Some(t);
                },
                None => {},
            }
            g.kernels_attempted = true;
            g.kernels_compiled = true;
        },
    }
}

/// Whether loading a kernel takes a module that was compiled.
pub open spec fn takes_module(g: Gpu, name: Seq<char>, found: Option<(usize, usize)>) -> bool {
    comes_up(g, found) && !g.kernels_compiled && !g.kernels_attempted && (same_word(name, "all"@)
        || !loaded(g, name))
}

/// Loads a kernel by name, or all of them: brings the device up and takes the outcome of
/// compiling where the kernel is not there yet.
pub fn gpu_load_kernel(
    g: &mut Gpu,
    name: &str,
    found: Option<(usize, usize)>,
    built: &Option<Vec<String>>,
) -> (r: bool)
    requires
        old(g).enabled ==> old(g).state is Some,
    ensures
        !comes_up(*old(g), found) ==> !r,
        comes_up(*old(g), found) ==> r == (if same_word(name@, "all"@) {
            old(g).kernels_compiled || (final(g).kernels_compiled && kernels_of(*final(g)).len()
                > 0)
        } else {
            loaded(*final(g), name@)
        }),
        exists|h: Gpu| #[trigger]
            brought_up(*old(g), found, h) && if takes_module(*old(g), name@, found)
                && built is Some {
                with_module(h, built->0@, *final(g))
            } else {
                *final(g) == h
            },
{
    let ready = gpu_init(g, found);
    let ghost up = *g;
    proof {
        assert(brought_up(*old(g), found, up));
    }
    if !ready {
        return false;
    }
    proof {
        if old(g).state is None {
            assert(kernels_of(*old(g)) =~= kernels_of(up));
        }
    }
    if is_word(name, "all") {
        if g.kernels_compiled {
            return true;
        }
        ensure_kernels(g, built);
        let some: bool = match &g.state {
            Some(s) => s.kernels.len() > 0,
            None => false,
        };
        return g.kernels_compiled && some;
    }
    if gpu_has_kernel(g, name) {
        return true;
    }
    ensure_kernels(g, built);
    gpu_has_kernel(g, name)
}

// ── reporting ─────────────────────────────────────────────────────────────

fn truth(b: bool) -> (r: String)
    ensures
        r@ == (if b {
            "true"@
        } else {
            "false"@
        }),
{
    if b {
        "true".to_owned()
    } else {
        "false".to_owned()
    }
}

/// One line of the report for each of the first `n` kernels.
pub open spec fn kernel_lines(s: Seq<String>, n: int) -> Seq<(Seq<char>, Seq<char>)>
    decreases n,
{
    if n <= 0 {
        Seq::empty()
    } else {
        kernel_lines(s, n - 1).push(("kernel"@, s[n - 1]@))
    }
}

/// The report of a state: mode, availability, and, once the device was looked for, its
/// memory and kernels.
pub open spec fn info_of(mode: ComputeMode, g: Gpu) -> Seq<(Seq<char>, Seq<char>)> {
    let head = seq![
        ("mode"@, mode.label()),
        ("gpu_available"@, if g.enabled {
            "true"@
        } else {
            "false"@
        }),
    ];
    match g.state {
        None => head,
        Some(s) => head + seq![
            ("vram_total_mb"@, text::dec_text((s.vram_total / 1048576) as nat)),
            ("vram_free_mb"@, text::dec_text((s.vram_free / 1048576) as nat)),
            ("kernels_loaded"@, text::dec_text(s.kernels@.len())),
        ] + kernel_lines(s.kernels@, s.kernels@.len() as int),
    }
}

pub open spec fn info_views(s: Seq<(&'static str, String)>) -> Seq<(Seq<char>, Seq<char>)> {
    Seq::new(s.len(), |i: int| (s[i].0@, s[i].1@))
}

/// Reports the mode, the device and its kernels.
pub fn gpu_info(g: &mut Gpu, env: Option<&str>, found: Option<(usize, usize)>) -> (r: Vec<
    (&'static str, String),
>)
    ensures
        info_views(r@) == info_of(mode_of(*old(g), env), *final(g)),
        asked(
            (Gpu { mode: Some(mode_of(*old(g), env)), ..*old(g) }),
            env,
            found,
            *final(g),
        ),
{
    let mode = gpu_get_mode(g, env);
    let up = gpu_available(g, env, found);
    let mut out: Vec<(&'static str, String)> = Vec::new();
    out.push(("mode", mode.name().to_owned()));
    out.push(("gpu_available", truth(up)));
    let ghost head = info_views(out@);
    match &g.state {
        None => {
            proof {
                assert(info_views(out@) =~= info_of(mode, *g));
            }
        },
        Some(s) => {
            out.push(("vram_total_mb", dec_string((s.vram_total / 1024 / 1024) as u64)));
            out.push(("vram_free_mb", dec_string((s.vram_free / 1024 / 1024) as u64)));
            out.push(("kernels_loaded", dec_string(s.kernels.len() as u64)));
            let ghost five = info_views(out@);
            let mut i: usize = 0;
            proof {
                assert(five =~= five + kernel_lines(s.kernels@, 0));
                assert(five =~= seq![
                    ("mode"@, mode.label()),
                    ("gpu_available"@, if g.enabled {
                        "true"@
                    } else {
                        "false"@
                    }),
                ] + seq![
                    ("vram_total_mb"@, text::dec_text((s.vram_total / 1048576) as nat)),
                    ("vram_free_mb"@, text::dec_text((s.vram_free / 1048576) as nat)),
                    ("kernels_loaded"@, text::dec_text(s.kernels@.len())),
                ]);
            }
            while i < s.kernels.len()
                invariant
                    i <= s.kernels@.len(),
                    info_views(out@) == five + kernel_lines(s.kernels@, i as int),
                decreases s.kernels@.len() - i,
            {
                let ghost before = out@;
                let k = s.kernels[i].clone();
                let ghost v = k@;
                out.push(("kernel", k));
                i = i + 1;
                proof {
                    assert(info_views(out@) =~= info_views(before).push(("kernel"@, v)));
                    assert(info_views(out@) =~= five + kernel_lines(s.kernels@, i as int));
                }
            }
        },
    }
    out
}

// ── laws ──────────────────────────────────────────────────────────────────

/// A destroyed context never comes back, whatever a later look for the device gives.
pub proof fn law_destroyed_stays_down(g: Gpu, found: Option<(usize, usize)>)
    requires
        g.destroyed,
        !g.enabled,
    ensures
        !comes_up(g, found),
{
}

/// A device that was not there at the first look is not looked for again.
pub proof fn law_first_look_settles(g: Gpu, a: Option<(usize, usize)>, b: Option<(usize, usize)>)
    requires
        g.state is Some,
    ensures
        comes_up(g, a) == comes_up(g, b),
{
}

/// The larger of two corpora never gets the faster mode on the same device.
pub proof fn law_larger_corpus_not_faster(ready: bool, n: int, m: int, dim: int, free: int)
    requires
        0 <= n <= m,
        0 <= dim,
    ensures
        best_mode(ready, m, dim, free) == ComputeMode::Turbo ==> best_mode(ready, n, dim, free)
            == ComputeMode::Turbo,
{
    let a = (n + SHARDS - 1) / SHARDS as int;
    let b = (m + SHARDS - 1) / SHARDS as int;
    assert(a <= b);
    assert(a * dim <= b * dim) by (nonlinear_arith)
        requires
            a <= b,
            0 <= dim,
    ;
    assert(n * dim <= m * dim) by (nonlinear_arith)
        requires
            n <= m,
            0 <= dim,
    ;
}

/// The accelerator alone serves a corpus only where all of it fits the free memory.
pub proof fn law_turbo_holds_all(ready: bool, n: int, dim: int, free: int)
    ensures
        best_mode(ready, n, dim, free) == ComputeMode::Turbo ==> n * dim <= free,
        ready && n * dim > free ==> best_mode(ready, n, dim, free) == ComputeMode::Hybrid,
{
}

/// Two characters count as the same where they are, or are the capital and the small form of one
/// ASCII letter.
pub proof fn law_case_is_the_only_difference(c: char, d: char)
    ensures
        small(c) == small(d) <==> c == d || (65 <= c as int <= 90 && d as int == c as int + 32) || (
        65 <= d as int <= 90 && c as int == d as int + 32),
{
}

/// Words that are the same but for case name the same mode, each name names its own mode, and
/// nothing else names one.
pub proof fn law_modes_have_their_names(s: Seq<char>, t: Seq<char>)
    ensures
        same_word(s, t) ==> mode_named(s) == mode_named(t),
        mode_named(s) == Some(ComputeMode::Turbo) <==> same_word(s, "turbo"@),
        mode_named(s) == Some(ComputeMode::Hybrid) <==> same_word(s, "hybrid"@),
        mode_named(s) == Some(ComputeMode::CpuOnly) <==> same_word(s, "cpu"@) || same_word(
            s,
            "cpuonly"@,
        ) || same_word(s, "cpu_only"@),
{
    reveal_strlit("turbo");
    reveal_strlit("hybrid");
    reveal_strlit("cpu");
    reveal_strlit("cpuonly");
    reveal_strlit("cpu_only");
    if same_word(s, t) {
        lemma_same_word(s, t, "turbo"@);
        lemma_same_word(s, t, "hybrid"@);
        lemma_same_word(s, t, "cpu"@);
        lemma_same_word(s, t, "cpuonly"@);
        lemma_same_word(s, t, "cpu_only"@);
    }
}

proof fn lemma_same_word(a: Seq<char>, b: Seq<char>, c: Seq<char>)
    requires
        same_word(a, b),
    ensures
        same_word(a, c) == same_word(b, c),
{
    assert forall|i: int| 0 <= i < a.len() implies small(a[i]) == small(b[i]) by {}
    if same_word(a, c) {
        assert forall|i: int| 0 <= i < b.len() implies #[trigger] small(b[i]) == small(c[i]) by {
            assert(small(a[i]) == small(c[i]));
            assert(small(a[i]) == small(b[i]));
        }
    }
    if same_word(b, c) {
        assert forall|i: int| 0 <= i < a.len() implies #[trigger] small(a[i]) == small(c[i]) by {
            assert(small(b[i]) == small(c[i]));
            assert(small(a[i]) == small(b[i]));
        }
    }
}

/// A device that is found at the first look comes up, one that was not found never does, and what
/// is up stays up.
pub proof fn law_device_comes_up_when_found(
    g: Gpu,
    found: Option<(usize, usize)>,
    a: Gpu,
)
    requires
        brought_up(g, found, a),
    ensures
        a.enabled == comes_up(g, found),
        g.enabled ==> a == g,
        !g.enabled && !g.destroyed && g.state is None ==> a.enabled == (found is Some),
        !g.enabled && !g.destroyed && g.state is None ==> (a.state matches Some(s) && s.available
            == (found is Some) && (found matches Some((free, total)) ==> s.vram_free == free
            && s.vram_total == total)),
        a.mode == g.mode && a.destroyed == g.destroyed && a.tried == g.tried,
{
}

/// A mode that was set is in force whatever the environment says; without one the environment
/// decides, and without that no device is used.
pub proof fn law_set_mode_is_in_force(g: Gpu, m: ComputeMode, env: Option<&str>)
    ensures
        mode_of(Gpu { mode: Some(m), ..g }, env) == m,
        mode_of(Gpu { mode: None, ..g }, None) == ComputeMode::CpuOnly,
        mode_set(env) matches Some(e) ==> mode_of(Gpu { mode: None, ..g }, env) == e,
        mode_set(env) is None ==> mode_of(Gpu { mode: None, ..g }, env) == ComputeMode::CpuOnly,
{
}

/// A device is asked for once, and not at all in a mode without one.
pub proof fn law_device_is_asked_for_once(
    g: Gpu,
    env: Option<&str>,
    found: Option<(usize, usize)>,
    a: Gpu,
    b: Gpu,
    later: Option<(usize, usize)>,
)
    requires
        asked(g, env, found, a),
        asked(a, env, later, b),
    ensures
        b == a,
        mode_of(g, env) == ComputeMode::CpuOnly ==> a.enabled == g.enabled && a.state == g.state,
        !g.enabled && mode_of(g, env) != ComputeMode::CpuOnly && !g.tried ==> a.tried && a.enabled
            == comes_up(g, found),
{
}

/// A corpus fits exactly where its bytes are no more than what is free: what the driver says now
/// of a device that is there, else what it said at first.
pub proof fn law_capacity_is_by_free_memory(g: Gpu, s: GpuState, n: int, dim: int, f: usize)
    requires
        g.state == Some(s),
    ensures
        capacity(g, n, dim, Some(f)).1 == n * dim,
        s.available ==> capacity(g, n, dim, Some(f)).2 == f,
        !s.available ==> capacity(g, n, dim, Some(f)).2 == s.vram_free,
        capacity(g, n, dim, None).2 == s.vram_free,
        capacity(g, n, dim, Some(f)).0 <==> capacity(g, n, dim, Some(f)).1 <= capacity(
            g,
            n,
            dim,
            Some(f),
        ).2,
        capacity(g, n, dim, None).0 <==> n * dim <= s.vram_free,
{
}

/// A shard is a sixteenth of a corpus, rounded up; its build takes its vectors, and two kilobytes
/// a vector, and twenty mebibytes. The device serves a corpus alone where it and that build fit.
pub proof fn law_build_needs_a_shard(n: int, dim: int, shard: int, free: int)
    requires
        n <= 16 * shard < n + 16,
    ensures
        build_peak(n, dim) == shard * dim + shard * 2048 + 20971520,
        n * dim <= free && shard * dim + shard * 2048 + 20971520 <= free <==> best_mode(
            true,
            n,
            dim,
            free,
        ) == ComputeMode::Turbo,
        best_mode(false, n, dim, free) == ComputeMode::CpuOnly,
        best_mode(true, n, dim, free) != ComputeMode::CpuOnly,
{
    assert((n + 15) / 16 == shard);
}

/// A part is cut out where it first stands, and what follows is searched on; a text in which it
/// stands nowhere is left as it is.
pub proof fn law_parts_are_cut_out(a: Seq<char>, cut: Seq<char>, b: Seq<char>)
    requires
        cut.len() > 0,
    ensures
        (forall|i: int|
            0 <= i < a.len() ==> #[trigger] (a + cut + b).subrange(i, i + cut.len()) != cut)
            ==> without_part(a + cut + b, cut) == a + without_part(b, cut),
        (forall|i: int|
            0 <= i && i + cut.len() <= a.len() ==> #[trigger] a.subrange(i, i + cut.len()) != cut)
            ==> without_part(a, cut) == a,
    decreases a.len(),
{
    let s = a + cut + b;
    if a.len() > 0 {
        let t = a.skip(1);
        law_parts_are_cut_out(t, cut, b);
        assert(s.skip(1) =~= t + cut + b);
        assert(a =~= seq![a[0]] + t);
        if forall|i: int| 0 <= i < a.len() ==> #[trigger] s.subrange(i, i + cut.len()) != cut {
            assert forall|i: int| 0 <= i < t.len() implies #[trigger] (t + cut + b).subrange(
                i,
                i + cut.len(),
            ) != cut by {
                assert((t + cut + b).subrange(i, i + cut.len()) =~= s.subrange(
                    i + 1,
                    i + 1 + cut.len(),
                ));
            }
            assert(s.subrange(0int, 0int + cut.len()) != cut);
            assert(s.take(cut.len() as int) =~= s.subrange(0int, 0int + cut.len()));
            assert(s[0] == a[0]);
            assert(a + without_part(b, cut) =~= seq![a[0]] + (t + without_part(b, cut)));
        }
        if forall|i: int|
            0 <= i && i + cut.len() <= a.len() ==> #[trigger] a.subrange(i, i + cut.len()) != cut {
            assert forall|i: int| 0 <= i && i + cut.len() <= t.len() implies #[trigger] t.subrange(
                i,
                i + cut.len(),
            ) != cut by {
                assert(t.subrange(i, i + cut.len()) =~= a.subrange(i + 1, i + 1 + cut.len()));
            }
            if cut.len() <= a.len() {
                assert(a.subrange(0int, 0int + cut.len()) != cut);
                assert(a.take(cut.len() as int) =~= a.subrange(0int, 0int + cut.len()));
            }
        }
    } else {
        assert(s =~= cut + b);
        assert(s.take(cut.len() as int) =~= cut);
        assert(s.skip(cut.len() as int) =~= b);
        assert(a + without_part(b, cut) =~= without_part(b, cut));
    }
}

/// Every function of a module gives one kernel, and every kernel one line of the report, in their
/// order.
pub proof fn law_kernels_keep_their_order(s: Seq<String>, n: int, i: int)
    requires
        0 <= i < n <= s.len(),
    ensures
        short_names(s, n).len() == n,
        short_names(s, n)[i] == without_part(s[i]@, "_kernel"@),
        kernel_lines(s, n).len() == n,
        kernel_lines(s, n)[i].1 == s[i]@,
    decreases n,
{
    lemma_kernel_counts(s, n - 1);
    if i < n - 1 {
        law_kernels_keep_their_order(s, n - 1, i);
    }
}

proof fn lemma_kernel_counts(s: Seq<String>, n: int)
    requires
        0 <= n,
    ensures
        short_names(s, n).len() == n,
        kernel_lines(s, n).len() == n,
    decreases n,
{
    if n > 0 {
        lemma_kernel_counts(s, n - 1);
    }
}

/// A kernel is loaded where the list of kernels names it; a module that is taken adds those of its
/// functions, under their short names, and takes none away.
pub proof fn law_modules_add_their_kernels(
    g: Gpu,
    names: Seq<String>,
    a: Gpu,
    name: Seq<char>,
    i: int,
)
    requires
        with_module(g, names, a),
    ensures
        loaded(a, name) <==> kernels_of(a).contains(name),
        loaded(g, name) ==> loaded(a, name),
        0 <= i < names.len() ==> loaded(a, without_part(names[i]@, "_kernel"@)),
        a.kernels_compiled && a.enabled == g.enabled && a.mode == g.mode,
{
    lemma_loaded(a, name);
    lemma_loaded(g, name);
    let n = names.len() as int;
    lemma_kernel_counts(names, n);
    if loaded(g, name) {
        let x = choose|x: int| 0 <= x < kernels_of(g).len() && kernels_of(g)[x] == name;
        assert(kernels_of(a)[x] == name);
    }
    if 0 <= i < n {
        let short = without_part(names[i]@, "_kernel"@);
        law_kernels_keep_their_order(names, n, i);
        lemma_loaded(a, short);
        assert(kernels_of(a)[kernels_of(g).len() + i] == short);
    }
}

proof fn lemma_loaded(g: Gpu, name: Seq<char>)
    ensures
        loaded(g, name) <==> kernels_of(g).contains(name),
{
    if let Some(s) = g.state {
        if listed_name(s.kernels@, name) {
            let i = choose|i: int| 0 <= i < s.kernels@.len() && (#[trigger] s.kernels@[i])@ == name;
            assert(name_views(s.kernels@)[i] == name);
        }
        if name_views(s.kernels@).contains(name) {
            let i = choose|i: int|
                0 <= i < name_views(s.kernels@).len() && name_views(s.kernels@)[i] == name;
            assert(s.kernels@[i]@ == name);
        }
    }
}

} // verus!
