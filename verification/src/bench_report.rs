//! What a benchmark run reports: checks, memory, failures and logs.
use crate::layout;
use crate::layout::field_mb;
use crate::text;
use crate::text::dec_string;
use crate::words;
use crate::words::{ends_in, join_from, split_lines};
use vstd::prelude::*;
use vstd::string::*;

verus! {

// ── checks ────────────────────────────────────────────────────────────────

/// How many checks have passed and failed. The counters wrap around.
#[derive(Clone, Copy, Debug, PartialEq, Eq, Structural)]
pub struct Tally {
    pub passed: usize,
    pub failed: usize,
}

/// The line of a check.
pub open spec fn check_line(name: Seq<char>, cond: bool, detail: Seq<char>) -> Seq<char> {
    let head = if cond {
        "  \x1b[32mPASS\x1b[0m  "@
    } else {
        "  \x1b[31mFAIL\x1b[0m  "@
    };
    if detail.len() == 0 {
        head + name
    } else {
        head + name + "  ("@ + detail + ")"@
    }
}

pub open spec fn next_count(n: usize) -> usize {
    if n == usize::MAX {
        0
    } else {
        (n + 1) as usize
    }
}

impl Tally {
    /// Nothing checked yet.
    pub fn new() -> (r: Self)
        ensures
            r.passed == 0 && r.failed == 0,
    {
        Tally { passed: 0, failed: 0 }
    }

    /// Counts a check and gives the line that reports it.
    pub fn check(&mut self, name: &str, cond: bool, detail: &str) -> (r: String)
        ensures
            r@ == check_line(name@, cond, detail@),
            final(self).passed == (if cond {
                next_count(old(self).passed)
            } else {
                old(self).passed
            }),
            final(self).failed == (if cond {
                old(self).failed
            } else {
                next_count(old(self).failed)
            }),
    {
        let mut s: String = if cond {
            self.passed = self.passed.wrapping_add(1);
            "  \x1b[32mPASS\x1b[0m  ".to_owned()
        } else {
            self.failed = self.failed.wrapping_add(1);
            "  \x1b[31mFAIL\x1b[0m  ".to_owned()
        };
        s.append(name);
        if !detail.is_empty() {
            s.append("  (");
            s.append(detail);
            s.append(")");
        }
        s
    }

    /// The exit code of the run: 0 when nothing failed.
    pub fn exit_code(&self) -> (r: i32)
        ensures
            r == (if self.failed == 0 {
                0i32
            } else {
                1
            }),
    {
        if self.failed == 0 {
            0
        } else {
            1
        }
    }

    /// The closing line, with the seconds taken as text.
    pub fn results(&self, seconds: &str) -> (r: String)
        ensures
            r@ == "  "@ + text::dec_text(self.passed as nat) + " passed, "@ + text::dec_text(
                self.failed as nat,
            ) + " failed  (in "@ + seconds@ + "s)"@,
    {
        let mut s: String = "  ".to_owned();
        s.append(dec_string(self.passed as u64).as_str());
        s.append(" passed, ");
        s.append(dec_string(self.failed as u64).as_str());
        s.append(" failed  (in ");
        s.append(seconds);
        s.append("s)");
        s
    }
}

/// A check: its name, its verdict, and what was found.
#[derive(Debug, PartialEq)]
pub struct Check {
    pub name: String,
    pub ok: bool,
    pub detail: String,
}

impl View for Check {
    type V = (Seq<char>, bool, Seq<char>);

    open spec fn view(&self) -> (Seq<char>, bool, Seq<char>) {
        (self.name@, self.ok, self.detail@)
    }
}

pub open spec fn check_views(c: Seq<Check>) -> Seq<(Seq<char>, bool, Seq<char>)> {
    Seq::new(c.len(), |i: int| c[i]@)
}

/// Makes a check.
pub fn check_of(name: &str, ok: bool, detail: String) -> (r: Check)
    ensures
        r@ == (name@, ok, detail@),
{
    Check { name: name.to_owned(), ok, detail }
}

/// The lines of checks.
pub open spec fn lines_of(c: Seq<(Seq<char>, bool, Seq<char>)>) -> Seq<Seq<char>> {
    Seq::new(c.len(), |i: int| check_line(c[i].0, c[i].1, c[i].2))
}

/// A tally once the first `n` checks were counted.
pub open spec fn tallied(t: Tally, c: Seq<(Seq<char>, bool, Seq<char>)>, n: int) -> Tally
    decreases n,
{
    if n <= 0 {
        t
    } else {
        let before = tallied(t, c, n - 1);
        if c[n - 1].1 {
            Tally { passed: next_count(before.passed), ..before }
        } else {
            Tally { failed: next_count(before.failed), ..before }
        }
    }
}

/// Counts checks, in turn, and gives the lines that report them.
pub fn count_checks(tally: &mut Tally, checks: &Vec<Check>) -> (r: Vec<String>)
    ensures
        words::views_of(r@) == lines_of(check_views(checks@)),
        *final(tally) == tallied(*old(tally), check_views(checks@), checks@.len() as int),
{
    let ghost c = check_views(checks@);
    let mut out: Vec<String> = Vec::new();
    let mut i: usize = 0;
    proof {
        assert(words::views_of(out@) =~= lines_of(c).take(0));
    }
    while i < checks.len()
        invariant
            c == check_views(checks@),
            i <= checks@.len(),
            words::views_of(out@) == lines_of(c).take(i as int),
            *tally == tallied(*old(tally), c, i as int),
        decreases checks@.len() - i,
    {
        let x = &checks[i];
        let ghost before = out@;
        let line = tally.check(x.name.as_str(), x.ok, x.detail.as_str());
        let ghost v = line@;
        out.push(line);
        i = i + 1;
        proof {
            assert(words::views_of(out@) =~= words::views_of(before).push(v));
            assert(lines_of(c).take(i as int) =~= lines_of(c).take(i - 1).push(v));
        }
    }
    proof {
        assert(lines_of(c).take(i as int) =~= lines_of(c));
    }
    out
}

/// The title of a section.
pub fn section(title: &str) -> (r: String)
    ensures
        r@ == "\n\x1b[1m=== "@ + title@ + " ===\x1b[0m"@,
{
    let mut s: String = "\n\x1b[1m=== ".to_owned();
    s.append(title);
    s.append(" ===\x1b[0m");
    s
}

// ── memory ────────────────────────────────────────────────────────────────

/// The resident memory that a status file gives, in MB.
pub fn rss_mb(status: &str) -> (r: Option<u64>)
    ensures
        match r {
            Some(v) => layout::status_number(status@, "VmRSS:"@) matches Some(kb) && v == kb / 1024,
            None => layout::status_number(status@, "VmRSS:"@) is None,
        },
{
    field_mb(status, "VmRSS:")
}

/// The memory that a new allocation can get without swapping, in MB.
pub fn mem_available_mb(meminfo: &str) -> (r: Option<u64>)
    ensures
        match r {
            Some(v) => layout::status_number(meminfo@, "MemAvailable:"@) matches Some(kb) && v == kb
                / 1024,
            None => layout::status_number(meminfo@, "MemAvailable:"@) is None,
        },
{
    field_mb(meminfo, "MemAvailable:")
}

/// The line that reports resident memory.
pub fn rss_line(tag: &str, mb: u64) -> (r: String)
    ensures
        r@ == "  \x1b[90mRSS["@ + tag@ + "] = "@ + text::dec_text(mb as nat) + " MB\x1b[0m"@,
{
    let mut s: String = "  \x1b[90mRSS[".to_owned();
    s.append(tag);
    s.append("] = ");
    s.append(dec_string(mb).as_str());
    s.append(" MB\x1b[0m");
    s
}

/// The peak memory of a run, in MB: five bytes a component and eight kilobytes a node in the
/// server, and four bytes a component in the benchmark itself.
pub open spec fn peak_mb(n: int, dim: int) -> int {
    n * dim * 5 / 1_000_000 + n * 8 / 1024 + n * dim * 4 / 1_000_000
}

/// Whether the projection of a run can be computed.
pub open spec fn projects(n: int, dim: int) -> bool {
    n * dim * 5 <= u64::MAX && n * 8 <= u64::MAX
}

/// Projects the peak memory of a run of `n` vectors.
pub fn projected_peak_mb(n: usize, dim: usize) -> (r: u64)
    requires
        projects(n as int, dim as int),
    ensures
        r == peak_mb(n as int, dim as int),
{
    let a: u64 = n as u64;
    let b: u64 = dim as u64;
    proof {
        let p = n * dim;
        assert(p == a * b);
        assert(0 <= p) by (nonlinear_arith)
            requires
                p == n * dim,
                n >= 0,
                dim >= 0,
        ;
        assert(a * b * 5 == p * 5);
        assert(a * b * 4 == p * 4);
    }
    let vecs: u64 = (a * b * 5) / 1_000_000;
    let graph: u64 = (a * 8) / 1024;
    let dataset: u64 = (a * b * 4) / 1_000_000;
    vecs + graph + dataset
}

/// What the memory guard decides, and the lines that say so.
#[derive(Debug, PartialEq)]
pub struct Guard {
    pub go: bool,
    pub lines: Vec<String>,
}

/// The memory that a run must find available: its peak and three tenths more.
pub open spec fn needed_mb(n: int, dim: int) -> int {
    peak_mb(n, dim) * 13 / 10
}

/// Whether a run may start: where nothing is known of the memory, where enough is available,
/// and where it is forced.
pub open spec fn may_start(need: int, avail: Option<u64>, forced: bool) -> bool {
    match avail {
        None => true,
        Some(a) => a >= need || forced,
    }
}

/// The lines of the memory guard.
pub open spec fn guard_lines(what: Seq<char>, need: int, avail: Option<u64>, forced: bool) -> Seq<
    Seq<char>,
> {
    match avail {
        None => Seq::empty(),
        Some(a) => {
            let n = text::dec_text(need as nat);
            let m = text::dec_text(a as nat);
            if a >= need {
                seq![
                    "  \x1b[90mmemguard: "@ + what + " projects ~"@ + n + " MB peak, "@ + m
                        + " MB available — ok\x1b[0m"@,
                ]
            } else if forced {
                seq![
                    "  \x1b[33mmemguard OVERRIDDEN: "@ + what + " projects ~"@ + n
                        + " MB peak, only "@ + m + " MB available\x1b[0m"@,
                ]
            } else {
                seq![
                    "  \x1b[31mSKIPPED: "@ + what + " projects ~"@ + n + " MB peak but only "@ + m
                        + " MB is available.\x1b[0m"@,
                    "  \x1b[31m  Free memory and re-run, or set DBSTRIKE_BENCH_NO_MEMGUARD=1 to force it.\x1b[0m"@,
                ]
            }
        },
    }
}

fn guard_text(head: &str, what: &str, need: u64, mid: &str, avail: u64, tail: &str) -> (r: String)
    ensures
        r@ == head@ + what@ + " projects ~"@ + text::dec_text(need as nat) + mid@ + text::dec_text(
            avail as nat,
        ) + tail@,
{
    let mut s: String = head.to_owned();
    s.append(what);
    s.append(" projects ~");
    s.append(dec_string(need).as_str());
    s.append(mid);
    s.append(dec_string(avail).as_str());
    s.append(tail);
    s
}

/// Decides whether a run may start on a machine with `avail` MB of memory.
pub fn memory_guard(n: usize, dim: usize, what: &str, avail: Option<u64>, forced: bool) -> (r:
    Guard)
    requires
        projects(n as int, dim as int),
        peak_mb(n as int, dim as int) * 13 <= u64::MAX,
    ensures
        r.go == may_start(needed_mb(n as int, dim as int), avail, forced),
        words::views_of(r.lines@) == guard_lines(
            what@,
            needed_mb(n as int, dim as int),
            avail,
            forced,
        ),
{
    let need: u64 = projected_peak_mb(n, dim) * 13 / 10;
    let mut lines: Vec<String> = Vec::new();
    proof {
        assert(words::views_of(lines@) =~= Seq::<Seq<char>>::empty());
    }
    let go: bool = match avail {
        None => true,
        Some(a) => {
            if a >= need {
                lines.push(
                    guard_text(
                        "  \x1b[90mmemguard: ",
                        what,
                        need,
                        " MB peak, ",
                        a,
                        " MB available — ok\x1b[0m",
                    ),
                );
                true
            } else if forced {
                lines.push(
                    guard_text(
                        "  \x1b[33mmemguard OVERRIDDEN: ",
                        what,
                        need,
                        " MB peak, only ",
                        a,
                        " MB available\x1b[0m",
                    ),
                );
                true
            } else {
                lines.push(
                    guard_text(
                        "  \x1b[31mSKIPPED: ",
                        what,
                        need,
                        " MB peak but only ",
                        a,
                        " MB is available.\x1b[0m",
                    ),
                );
                lines.push(
                    "  \x1b[31m  Free memory and re-run, or set DBSTRIKE_BENCH_NO_MEMGUARD=1 to force it.\x1b[0m".to_owned(),
                );
                false
            }
        },
    };
    proof {
        assert(words::views_of(lines@) =~= guard_lines(
            what@,
            needed_mb(n as int, dim as int),
            avail,
            forced,
        ));
    }
    Guard { go, lines }
}

// ── files ─────────────────────────────────────────────────────────────────

/// The name of a scratch file.
pub open spec fn scratch_name(tag: Seq<char>, ext: Seq<char>) -> Seq<char> {
    "dbstrike_"@ + tag + "."@ + ext
}

/// The path of a scratch file in a directory.
pub open spec fn scratch_in(dir: Seq<char>, tag: Seq<char>, ext: Seq<char>) -> Seq<char> {
    if dir.len() == 0 || "/"@.is_suffix_of(dir) {
        dir + scratch_name(tag, ext)
    } else {
        dir + "/"@ + scratch_name(tag, ext)
    }
}

/// The directory of the scratch files: the given one, or the one beside the results.
pub fn scratch_dir(given: Option<&str>) -> (r: String)
    ensures
        r@ == (match given {
            Some(d) => d@,
            None => "bench-out/scratch"@,
        }),
{
    match given {
        Some(d) => d.to_owned(),
        None => "bench-out/scratch".to_owned(),
    }
}

/// The path of a scratch file.
pub fn scratch_path(dir: &str, tag: &str, ext: &str) -> (r: String)
    ensures
        r@ == scratch_in(dir@, tag@, ext@),
{
    let mut s: String = dir.to_owned();
    if !dir.is_empty() && !ends_in(dir, "/") {
        s.append("/");
    }
    s.append("dbstrike_");
    s.append(tag);
    s.append(".");
    s.append(ext);
    proof {
        assert(s@ =~= scratch_in(dir@, tag@, ext@));
    }
    s
}

/// The last lines of a log.
pub open spec fn last_lines(log: Seq<char>, lines: nat) -> Seq<char> {
    let all = words::lines_from(log, 0);
    words::joined_with(
        all.skip(
            if all.len() > lines {
                all.len() - lines
            } else {
                0
            },
        ),
        "\n"@,
    )
}

/// Gives the last lines of a log.
pub fn log_tail(log: &str, lines: usize) -> (r: String)
    ensures
        r@ == last_lines(log@, lines as nat),
{
    let all = split_lines(log);
    let n: usize = all.len();
    let start: usize = if n > lines {
        n - lines
    } else {
        0
    };
    proof {
        assert(words::views_of(all@).len() == n);
    }
    join_from(&all, start, "\n")
}

// ── failures ──────────────────────────────────────────────────────────────

/// How a batch that failed is named.
pub open spec fn batch_span(tid: nat, first: nat, last: nat, vecs: nat, dim: nat, bytes: nat)
    -> Seq<char> {
    "client "@ + text::dec_text(tid) + ": VADDBATCH ids "@ + text::dec_text(first) + "..="@
        + text::dec_text(last) + " ("@ + text::dec_text(vecs) + " vecs × "@ + text::dec_text(dim)
        + "d, "@ + text::dec_text(bytes) + " bytes)"@
}

/// Names a batch by its client, its ids and its size.
pub fn batch_label(tid: usize, ids: &Vec<u64>, dim: usize, bytes: usize) -> (r: String)
    requires
        ids@.len() > 0,
    ensures
        r@ == batch_span(
            tid as nat,
            ids@[0] as nat,
            ids@[ids@.len() - 1] as nat,
            ids@.len(),
            dim as nat,
            bytes as nat,
        ),
{
    let n: usize = ids.len();
    let mut s: String = "client ".to_owned();
    s.append(dec_string(tid as u64).as_str());
    s.append(": VADDBATCH ids ");
    s.append(dec_string(ids[0]).as_str());
    s.append("..=");
    s.append(dec_string(ids[n - 1]).as_str());
    s.append(" (");
    s.append(dec_string(n as u64).as_str());
    s.append(" vecs × ");
    s.append(dec_string(dim as u64).as_str());
    s.append("d, ");
    s.append(dec_string(bytes as u64).as_str());
    s.append(" bytes)");
    s
}

/// The lines of the first `n` errors.
pub open spec fn error_lines(errs: Seq<Seq<char>>, n: int) -> Seq<Seq<char>> {
    Seq::new(n as nat, |i: int| "    "@ + errs[i])
}

/// What is printed of a failed ingest: how far it came, the first four errors, how many more
/// there are, and where the server's log is.
pub open spec fn failure_lines(done: nat, n: nat, errs: Seq<Seq<char>>, dir: Seq<char>) -> Seq<
    Seq<char>,
> {
    let shown = if errs.len() < 4 {
        errs.len() as int
    } else {
        4
    };
    seq![
        "  \x1b[31mingest FAILED after "@ + text::dec_text(done) + "/"@ + text::dec_text(n)
            + " vectors:\x1b[0m"@,
    ] + error_lines(errs, shown) + (if errs.len() > 4 {
        seq!["    ... and "@ + text::dec_text((errs.len() - 4) as nat) + " more"@]
    } else {
        Seq::empty()
    }) + seq!["    (server log: "@ + dir + "/dbstrike_server_*.log)"@]
}

/// Reports a failed ingest; nothing where no client failed.
pub fn ingest_failure(done: u64, n: u64, errs: &Vec<String>, dir: &str) -> (r: Vec<String>)
    ensures
        words::views_of(r@) == (if errs@.len() == 0 {
            Seq::empty()
        } else {
            failure_lines(done as nat, n as nat, words::views_of(errs@), dir@)
        }),
{
    let mut out: Vec<String> = Vec::new();
    let count: usize = errs.len();
    if count == 0 {
        proof {
            assert(words::views_of(out@) =~= Seq::<Seq<char>>::empty());
        }
        return out;
    }
    let mut head: String = "  \x1b[31mingest FAILED after ".to_owned();
    head.append(dec_string(done).as_str());
    head.append("/");
    head.append(dec_string(n).as_str());
    head.append(" vectors:\x1b[0m");
    let ghost first = seq![head@];
    out.push(head);
    let shown: usize = if count < 4 {
        count
    } else {
        4
    };
    let mut i: usize = 0;
    proof {
        assert(words::views_of(out@) =~= first + error_lines(words::views_of(errs@), 0));
    }
    while i < shown
        invariant
            i <= shown <= errs@.len(),
            words::views_of(out@) == first + error_lines(words::views_of(errs@), i as int),
        decreases shown - i,
    {
        let mut line: String = "    ".to_owned();
        line.append(errs[i].as_str());
        let ghost before = out@;
        let ghost v = line@;
        out.push(line);
        i = i + 1;
        proof {
            assert(words::views_of(out@) =~= words::views_of(before).push(v));
            assert(words::views_of(out@) =~= first + error_lines(
                words::views_of(errs@),
                i as int,
            ));
        }
    }
    let ghost mid = words::views_of(out@);
    if count > 4 {
        let mut more: String = "    ... and ".to_owned();
        more.append(dec_string((count - 4) as u64).as_str());
        more.append(" more");
        let ghost v = more@;
        out.push(more);
        proof {
            assert(words::views_of(out@) =~= mid + seq![v]);
        }
    } else {
        proof {
            assert(words::views_of(out@) =~= mid + Seq::<Seq<char>>::empty());
        }
    }
    let ghost upto = words::views_of(out@);
    let mut end: String = "    (server log: ".to_owned();
    end.append(dir);
    end.append("/dbstrike_server_*.log)");
    let ghost v = end@;
    out.push(end);
    proof {
        assert(words::views_of(out@) =~= upto + seq![v]);
    }
    out
}

// ── laws ──────────────────────────────────────────────────────────────────

/// A run that is not forced starts only where the memory leaves three tenths to spare over
/// its projected peak.
pub proof fn law_guard_keeps_a_margin(n: int, dim: int, avail: u64)
    requires
        n >= 0,
        dim >= 0,
        may_start(needed_mb(n, dim), Some(avail), false),
    ensures
        10 * (avail + 1) > 13 * peak_mb(n, dim),
{
}

/// The projection never shrinks as a run grows.
pub proof fn law_projection_grows(n: int, m: int, dim: int)
    requires
        0 <= n <= m,
        dim >= 0,
    ensures
        peak_mb(n, dim) <= peak_mb(m, dim),
{
    assert(n * dim <= m * dim) by (nonlinear_arith)
        requires
            0 <= n <= m,
            dim >= 0,
    ;
}

/// Every check is counted once, and only failures count as failed.
pub proof fn law_exit_tells_of_failures(before: Tally, after: Tally, cond: bool)
    requires
        before.failed < usize::MAX,
        after.failed == (if cond {
            before.failed
        } else {
            next_count(before.failed)
        }),
    ensures
        after.failed == 0 <==> before.failed == 0 && cond,
{
}

/// Every check that holds is counted as passed and every other as failed, as long as they can be
/// counted.
pub proof fn law_tally_counts_every_check(
    t: Tally,
    c: Seq<(Seq<char>, bool, Seq<char>)>,
    n: int,
)
    requires
        0 <= n <= c.len(),
        t.passed + n <= usize::MAX,
        t.failed + n <= usize::MAX,
    ensures
        tallied(t, c, n).passed == t.passed + c.take(n).filter(
            |x: (Seq<char>, bool, Seq<char>)| x.1,
        ).len(),
        tallied(t, c, n).passed + tallied(t, c, n).failed == t.passed + t.failed + n,
    decreases n,
{
    reveal(Seq::filter);
    let f = |x: (Seq<char>, bool, Seq<char>)| x.1;
    if n > 0 {
        law_tally_counts_every_check(t, c, n - 1);
        assert(c.take(n).drop_last() =~= c.take(n - 1));
        assert(c.take(n).last() == c[n - 1]);
        c.take(n - 1).lemma_filter_len(f);
    } else {
        assert(c.take(0) =~= Seq::<(Seq<char>, bool, Seq<char>)>::empty());
    }
}

/// A counter goes up by one, and from its end to its start.
pub proof fn law_counters_go_up(n: usize)
    ensures
        n < usize::MAX ==> next_count(n) == n + 1,
        next_count(usize::MAX) == 0,
{
}

/// The line of a check ends in its name, or in what was found, set in brackets; and it tells a pass
/// from a failure.
pub proof fn law_lines_tell_the_verdict(name: Seq<char>, detail: Seq<char>, cond: bool)
    ensures
        name.is_suffix_of(check_line(name, cond, Seq::empty())),
        detail.len() > 0 ==> (name + "  ("@ + detail + ")"@).is_suffix_of(
            check_line(name, cond, detail),
        ),
        check_line(name, true, detail) != check_line(name, false, detail),
{
    reveal_strlit("  \x1b[32mPASS\x1b[0m  ");
    reveal_strlit("  \x1b[31mFAIL\x1b[0m  ");
    let empty = check_line(name, cond, Seq::empty());
    assert(name =~= empty.subrange((empty.len() - name.len()) as int, empty.len() as int));
    let full = check_line(name, cond, detail);
    let end = name + "  ("@ + detail + ")"@;
    if detail.len() > 0 {
        assert(end =~= full.subrange((full.len() - end.len()) as int, full.len() as int));
    }
    assert(check_line(name, true, detail)[7] == 'P');
    assert(check_line(name, false, detail)[7] == 'F');
}

/// The peak is nine bytes a component, within two megabytes, and eight kilobytes a node; a run must
/// find three tenths more, rounded down.
pub proof fn law_peak_is_nine_bytes_a_component(n: int, dim: int)
    requires
        n >= 0,
        dim >= 0,
    ensures
        ({
            let vectors = peak_mb(n, dim) - n / 128;
            9 * (n * dim) - 2_000_000 < 1_000_000 * vectors <= 9 * (n * dim)
        }),
        10 * needed_mb(n, dim) <= 13 * peak_mb(n, dim) < 10 * (needed_mb(n, dim) + 1),
{
    let v = n * dim;
    assert(v >= 0) by (nonlinear_arith)
        requires
            v == n * dim,
            n >= 0,
            dim >= 0,
    ;
    assert(n * dim * 5 == 5 * v && n * dim * 4 == 4 * v);
}

/// A run starts where nothing is known of the memory or it is forced, and else only with enough; it
/// says so in one line, and in two where it is refused.
pub proof fn law_guard_says_what_it_does(what: Seq<char>, need: int, a: u64, forced: bool)
    ensures
        may_start(need, None, forced),
        guard_lines(what, need, None, forced).len() == 0,
        may_start(need, Some(a), true),
        may_start(need, Some(a), false) <==> a >= need,
        guard_lines(what, need, Some(a), forced).len() == (if may_start(need, Some(a), forced) {
            1nat
        } else {
            2
        }),
{
}

/// A scratch file stands in its directory, parted from it by one slash.
pub proof fn law_scratch_files_stand_in_their_directory(
    dir: Seq<char>,
    tag: Seq<char>,
    ext: Seq<char>,
)
    ensures
        dir.is_prefix_of(scratch_in(dir, tag, ext)),
        scratch_name(tag, ext).is_suffix_of(scratch_in(dir, tag, ext)),
        dir.len() > 0 ==> scratch_in(dir.push('/'), tag, ext) == dir.push('/') + scratch_name(
            tag,
            ext,
        ),
        dir.len() > 0 && dir.last() != '/' ==> scratch_in(dir, tag, ext) == scratch_in(
            dir.push('/'),
            tag,
            ext,
        ),
{
    reveal_strlit("/");
    let name = scratch_name(tag, ext);
    let path = scratch_in(dir, tag, ext);
    assert(dir =~= path.subrange(0, dir.len() as int));
    assert(name =~= path.subrange((path.len() - name.len()) as int, path.len() as int));
    let slashed = dir.push('/');
    assert("/"@ =~= slashed.subrange((slashed.len() - 1) as int, slashed.len() as int));
    assert("/"@.is_suffix_of(slashed));
    if dir.len() > 0 && dir.last() != '/' {
        if "/"@.is_suffix_of(dir) {
            assert(dir.subrange((dir.len() - 1) as int, dir.len() as int)[0] == dir.last());
            assert("/"@[0] == '/');
        }
        assert(dir + "/"@ =~= slashed);
    }
}

/// A failed ingest shows its first four errors, in their order, and one line for all the others.
pub proof fn law_failures_show_the_first(
    done: nat,
    n: nat,
    errs: Seq<Seq<char>>,
    dir: Seq<char>,
    i: int,
)
    requires
        0 <= i < errs.len(),
        i < 4,
    ensures
        errs[i].is_suffix_of(failure_lines(done, n, errs, dir)[1 + i]),
        errs.len() <= 4 ==> failure_lines(done, n, errs, dir).len() == errs.len() + 2,
        errs.len() > 4 ==> failure_lines(done, n, errs, dir).len() == 7,
{
    let line = "    "@ + errs[i];
    assert(failure_lines(done, n, errs, dir)[1 + i] == line);
    assert(errs[i] =~= line.subrange((line.len() - errs[i].len()) as int, line.len() as int));
}

/// The end of a log is its last lines, with a line break between each two and none behind: as many
/// as asked for, or all of them.
pub proof fn law_log_ends_with_its_last_lines(log: Seq<char>, n: nat)
    ensures
        ({
            let all = words::lines_from(log, 0);
            let some = all.skip(
                if all.len() > n {
                    all.len() - n
                } else {
                    0
                },
            );
            &&& some.len() == (if all.len() > n {
                n
            } else {
                all.len()
            })
            &&& all.len() == 0 || n == 0 ==> last_lines(log, n) == Seq::<char>::empty()
            &&& all.len() > 0 && n == 1 ==> last_lines(log, n) == all.last()
            &&& n >= all.len() ==> last_lines(log, n) == words::joined_with(all, "\n"@)
        }),
{
    let all = words::lines_from(log, 0);
    if n >= all.len() {
        assert(all.skip(0) =~= all);
    }
    if all.len() > 0 && n == 1 {
        let one = all.skip(all.len() - 1);
        assert(one =~= seq![all.last()]);
        words::law_joining_from_the_front(one, "\n"@);
    }
    if n == 0 {
        assert(all.skip(all.len() as int) =~= Seq::<Seq<char>>::empty());
    }
}

} // verus!
