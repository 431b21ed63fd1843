//! What the sections that measure speed and recall demand. Rates are counts over nanoseconds,
//! shares are hits over what was asked for; each comes with its text.
use crate::bench_checks;
use crate::bench_checks::{hits_agree, hits_keep_up, hits_near, reaches_percent};
use crate::bench_report;
use crate::bench_report::{check_of, Check};
use crate::rates;
use crate::rates::{longer_by, rate_against};
use crate::rounding;
use crate::rounding::{within_factor, DOUBLE, SINGLE};
use crate::text;
use crate::text::{dec_string, signed_string};
use vstd::prelude::*;
use vstd::string::*;

verus! {

/// So many pieces of work, and the nanoseconds that they took.
#[derive(Clone, Copy, Debug, PartialEq, Eq, Structural)]
pub struct Rate {
    pub count: u64,
    pub nanos: u64,
}

/// Whether a rate is above so many pieces of work a second. Work done in no time is above every
/// rate; nothing done in no time is above none.
pub open spec fn above(r: Rate, bar: nat) -> bool {
    if r.nanos == 0 {
        r.count > 0
    } else {
        rates::per_second(r.count as nat, r.nanos as nat) > rounding::whole(bar, DOUBLE as nat)
            * rounding::one()
    }
}

/// Whether a rate is at least so many a second.
pub open spec fn at_least(r: Rate, bar: nat) -> bool {
    if r.nanos == 0 {
        r.count > 0
    } else {
        rates::per_second(r.count as nat, r.nanos as nat) >= rounding::whole(bar, DOUBLE as nat)
            * rounding::one()
    }
}

impl Rate {
    /// Whether this is at least so many pieces of work a second.
    pub fn reaches(&self, per_second: u64) -> (r: bool)
        ensures
            r == at_least(*self, per_second as nat),
    {
        if self.nanos == 0 {
            self.count > 0
        } else {
            rate_against(self.count, self.nanos, per_second).1
        }
    }

    /// Whether this is above so many pieces of work a second.
    pub fn exceeds(&self, per_second: u64) -> (r: bool)
        ensures
            r == above(*self, per_second as nat),
    {
        if self.nanos == 0 {
            self.count > 0
        } else {
            rate_against(self.count, self.nanos, per_second).0
        }
    }
}

/// A rate, and the same per second as text.
#[derive(Debug)]
pub struct Speed {
    pub rate: Rate,
    pub text: String,
}

/// Hits among what was asked for, and their share as text.
#[derive(Debug)]
pub struct Share {
    pub hits: u64,
    pub asked: u64,
    pub text: String,
}

impl Share {
    pub open spec fn part(self) -> bench_checks::Part {
        bench_checks::Part { hits: self.hits as nat, asked: self.asked as nat }
    }

    /// No more hits than what was asked for.
    pub open spec fn sound(self) -> bool {
        self.hits <= self.asked
    }
}

/// Whether a share is at least so many percent, as a number of the given kind.
pub open spec fn reaches(s: Share, percent: nat, lim: u64) -> bool {
    bench_checks::share_holds(s.hits as nat, s.asked as nat, percent, lim as nat)
}

fn share_reaches(s: &Share, percent: u64, lim: u64) -> (r: bool)
    requires
        rounding::kind(lim as nat),
    ensures
        r == reaches(*s, percent as nat, lim),
{
    reaches_percent(s.hits, s.asked, percent, lim)
}

/// Whether one share is at most so many thousandths behind another.
pub open spec fn keeps_up(a: Share, b: Share, thousandths: nat) -> bool {
    bench_checks::share_keeps_up(a.part(), b.part(), thousandths, SINGLE as nat)
}

fn share_keeps_up(a: &Share, b: &Share, thousandths: u64) -> (r: bool)
    requires
        b.sound(),
    ensures
        r == keeps_up(*a, *b, thousandths as nat),
{
    hits_keep_up(a.hits, a.asked, b.hits, b.asked, thousandths, SINGLE)
}

fn joined(a: &str, b: &str) -> (r: String)
    ensures
        r@ == a@ + b@,
{
    let mut s: String = a.to_owned();
    s.append(b);
    s
}

fn framed(a: &str, b: &str, c: &str) -> (r: String)
    ensures
        r@ == a@ + b@ + c@,
{
    let mut s: String = joined(a, b);
    s.append(c);
    s
}

fn counted(a: &str, n: u64, b: &str) -> (r: String)
    ensures
        r@ == a@ + text::dec_text(n as nat) + b@,
{
    framed(a, dec_string(n).as_str(), b)
}

fn paired(a: &str, x: &str, b: &str, y: &str) -> (r: String)
    ensures
        r@ == a@ + x@ + b@ + y@,
{
    let mut s: String = framed(a, x, b);
    s.append(y);
    s
}

fn two_micros(a: &str, x: u64, b: &str, y: u64) -> (r: String)
    ensures
        r@ == a@ + text::dec_text(x as nat) + b@ + text::dec_text(y as nat) + "µs"@,
{
    let mut s: String = paired(a, dec_string(x).as_str(), b, dec_string(y).as_str());
    s.append("µs");
    s
}

fn at_cost(a: &str, share: &Share, us: u64) -> (r: String)
    ensures
        r@ == a@ + share.text@ + "/"@ + text::dec_text(us as nat) + "µs"@,
{
    let mut s: String = paired(a, share.text.as_str(), "/", dec_string(us).as_str());
    s.append("µs");
    s
}

pub open spec fn at_least_one(n: u64) -> nat {
    if n == 0 {
        1
    } else {
        n as nat
    }
}

fn one_or_more(n: u64) -> (r: u64)
    ensures
        r == at_least_one(n),
{
    if n == 0 {
        1
    } else {
        n
    }
}

// ── how many queries ──────────────────────────────────────────────────────

/// The queries whose true neighbours a section over `n` vectors computes.
pub fn truth_queries(n: usize) -> (r: usize)
    ensures
        r == (if n > 2000 {
            200
        } else {
            n as int
        }),
{
    if n > 2000 {
        200
    } else {
        n
    }
}

/// The queries that measure recall over the wire, by the dimension of the vectors.
pub fn recall_queries(dim: usize) -> (r: usize)
    ensures
        r == (if dim >= 1024 {
            100int
        } else {
            200
        }),
{
    if dim >= 1024 {
        100
    } else {
        200
    }
}

/// The queries by which two strategies over `n` vectors are compared.
pub fn compared_queries(n: usize) -> (r: usize)
    ensures
        r == (if n > 5000 {
            500
        } else {
            n as int
        }),
{
    if n > 5000 {
        500
    } else {
        n
    }
}

/// The queries by which a model over `n` vectors is calibrated.
pub fn calibration_queries(n: usize) -> (r: usize)
    ensures
        r == (if n < 300 {
            n as int
        } else {
            300
        }),
{
    if n < 300 {
        n
    } else {
        300
    }
}

// ── a hundred thousand vectors ──────────────────────────────────────────

/// The checks of a hundred thousand vectors over the wire: loads of one, a hundred and eight
/// clients.
pub open spec fn scale_list(
    ingest: Speed,
    p99: u64,
    recall: Share,
    one: Speed,
    hundred: Speed,
    eight: Speed,
) -> Seq<(Seq<char>, bool, Seq<char>)> {
    seq![
        (
            "ingest > 500 vec/s at 100k×384d (wire)"@,
            above(ingest.rate, 500),
            ingest.text@ + " vec/s"@,
        ),
        (
            "100k×384d VSEARCH p99 < 5 ms (wire)"@,
            p99 < 5_000,
            "p99 = "@ + text::dec_text(p99 as nat) + " µs"@,
        ),
        (
            "100k×384d Recall@10 ≥ 0.85 (wire)"@,
            reaches(recall, 85, DOUBLE),
            "recall="@ + recall.text@,
        ),
        (
            "100k×384d single-client QPS > 400 (wire, beat Qdrant ~450)"@,
            above(one.rate, 400),
            one.text@ + " QPS"@,
        ),
        (
            "100k×384d 100-client QPS > 13000 (wire, beat Qdrant ~13k RPS)"@,
            above(hundred.rate, 13_000),
            hundred.text@ + " QPS"@,
        ),
        (
            "100k×384d concurrent QPS > 5000 (wire)"@,
            above(eight.rate, 5_000),
            eight.text@ + " QPS"@,
        ),
    ]
}

/// The checks of a hundred thousand vectors over the wire: loads of one, a hundred and eight
/// clients.
pub fn scale_checks(
    ingest: &Speed,
    p99: u64,
    recall: &Share,
    one: &Speed,
    hundred: &Speed,
    eight: &Speed,
) -> (r: Vec<Check>)
    ensures
        bench_report::check_views(r@) == scale_list(*ingest, p99, *recall, *one, *hundred, *eight),
{
    let mut out: Vec<Check> = Vec::new();
    out.push(
        check_of(
            "ingest > 500 vec/s at 100k×384d (wire)",
            ingest.rate.exceeds(500),
            joined(ingest.text.as_str(), " vec/s"),
        ),
    );
    out.push(
        check_of(
            "100k×384d VSEARCH p99 < 5 ms (wire)",
            p99 < 5_000,
            counted("p99 = ", p99, " µs"),
        ),
    );
    out.push(
        check_of(
            "100k×384d Recall@10 ≥ 0.85 (wire)",
            share_reaches(recall, 85, DOUBLE),
            joined("recall=", recall.text.as_str()),
        ),
    );
    out.push(
        check_of(
            "100k×384d single-client QPS > 400 (wire, beat Qdrant ~450)",
            one.rate.exceeds(400),
            joined(one.text.as_str(), " QPS"),
        ),
    );
    out.push(
        check_of(
            "100k×384d 100-client QPS > 13000 (wire, beat Qdrant ~13k RPS)",
            hundred.rate.exceeds(13_000),
            joined(hundred.text.as_str(), " QPS"),
        ),
    );
    out.push(
        check_of(
            "100k×384d concurrent QPS > 5000 (wire)",
            eight.rate.exceeds(5_000),
            joined(eight.text.as_str(), " QPS"),
        ),
    );
    proof {
        assert(bench_report::check_views(out@) =~= scale_list(
            *ingest,
            p99,
            *recall,
            *one,
            *hundred,
            *eight,
        ));
    }
    out
}

// ── a million vectors ───────────────────────────────────────────────────

/// The checks of a million short vectors over the wire.
pub open spec fn million_list(
    ingest: Speed,
    p50: u64,
    p99: u64,
    recall: Share,
    eight: Speed,
) -> Seq<(Seq<char>, bool, Seq<char>)> {
    seq![
        (
            "1M ingest > 3000 vec/s (wire)"@,
            above(ingest.rate, 3_000),
            ingest.text@ + " vec/s"@,
        ),
        (
            "1M VSEARCH p99 < 5 ms (wire)"@,
            p99 < 5_000,
            "p99 = "@ + text::dec_text(p99 as nat) + " µs"@,
        ),
        (
            "1M VSEARCH p50 < 2 ms (wire)"@,
            p50 < 2_000,
            "p50 = "@ + text::dec_text(p50 as nat) + " µs"@,
        ),
        (
            "1M Recall@10 ≥ 0.85 (wire)"@,
            reaches(recall, 85, DOUBLE),
            "recall="@ + recall.text@,
        ),
        (
            "1M concurrent QPS > 2000 (wire)"@,
            above(eight.rate, 2_000),
            eight.text@ + " QPS"@,
        ),
    ]
}

/// The checks of a million short vectors over the wire.
pub fn million_checks(
    ingest: &Speed,
    p50: u64,
    p99: u64,
    recall: &Share,
    eight: &Speed,
) -> (r: Vec<Check>)
    ensures
        bench_report::check_views(r@) == million_list(*ingest, p50, p99, *recall, *eight),
{
    let mut out: Vec<Check> = Vec::new();
    out.push(
        check_of(
            "1M ingest > 3000 vec/s (wire)",
            ingest.rate.exceeds(3_000),
            joined(ingest.text.as_str(), " vec/s"),
        ),
    );
    out.push(check_of("1M VSEARCH p99 < 5 ms (wire)", p99 < 5_000, counted("p99 = ", p99, " µs")));
    out.push(check_of("1M VSEARCH p50 < 2 ms (wire)", p50 < 2_000, counted("p50 = ", p50, " µs")));
    out.push(
        check_of(
            "1M Recall@10 ≥ 0.85 (wire)",
            share_reaches(recall, 85, DOUBLE),
            joined("recall=", recall.text.as_str()),
        ),
    );
    out.push(
        check_of(
            "1M concurrent QPS > 2000 (wire)",
            eight.rate.exceeds(2_000),
            joined(eight.text.as_str(), " QPS"),
        ),
    );
    proof {
        assert(bench_report::check_views(out@) =~= million_list(
            *ingest,
            p50,
            p99,
            *recall,
            *eight,
        ));
    }
    out
}

// ── names with a size in them ─────────────────────────────────────────────

/// The slowest hundredth that a search over vectors of a dimension may have, in microseconds.
pub open spec fn tail_bar(dim: u64) -> u64 {
    if dim >= 1024 {
        5_000
    } else {
        3_000
    }
}

fn bar_of(dim: u64) -> (r: u64)
    ensures
        r == tail_bar(dim),
{
    if dim >= 1024 {
        5_000
    } else {
        3_000
    }
}

/// The name of a check on a million vectors of a dimension.
pub open spec fn million_name(dim: u64, rest: Seq<char>) -> Seq<char> {
    "1M×"@ + text::dec_text(dim as nat) + rest
}

fn name_million(dim: u64, rest: &str) -> (r: String)
    ensures
        r@ == million_name(dim, rest@),
{
    counted("1M×", dim, rest)
}

/// The name of a check on a dataset.
pub open spec fn real_name(n: u64, dim: u64, rest: Seq<char>) -> Seq<char> {
    "REAL "@ + text::dec_text(n as nat) + "×"@ + text::dec_text(dim as nat) + rest
}

fn name_real(n: u64, dim: u64, rest: &str) -> (r: String)
    ensures
        r@ == real_name(n, dim, rest@),
{
    let mut s: String = paired("REAL ", dec_string(n).as_str(), "×", dec_string(dim).as_str());
    s.append(rest);
    s
}

/// The end of the name of a check on the slowest hundredth.
pub open spec fn tail_name(dim: u64) -> Seq<char> {
    "d VSEARCH p99 < "@ + text::dec_text(tail_bar(dim) as nat) + "µs (wire)"@
}

fn name_tail(dim: u64) -> (r: String)
    ensures
        r@ == tail_name(dim),
{
    counted("d VSEARCH p99 < ", bar_of(dim), "µs (wire)")
}

// ── a million long vectors ──────────────────────────────────────────────

/// The checks of a million vectors of a dimension over the wire.
pub open spec fn xlarge_list(
    dim: u64,
    ingest: Speed,
    p99: u64,
    recall: Share,
    eight: Speed,
) -> Seq<(Seq<char>, bool, Seq<char>)> {
    seq![
        (
            million_name(dim, "d ingest > 500 vec/s (wire)"@),
            above(ingest.rate, 500),
            ingest.text@ + " vec/s"@,
        ),
        (
            million_name(dim, tail_name(dim)),
            p99 < tail_bar(dim),
            "p99 = "@ + text::dec_text(p99 as nat) + " µs"@,
        ),
        (
            million_name(dim, "d Recall@10 ≥ 0.85 (wire)"@),
            reaches(recall, 85, DOUBLE),
            "recall="@ + recall.text@,
        ),
        (
            million_name(dim, "d concurrent QPS > 1000 (wire)"@),
            above(eight.rate, 1_000),
            eight.text@ + " QPS"@,
        ),
    ]
}

/// The checks of a million vectors of a dimension over the wire.
pub fn xlarge_checks(
    dim: u64,
    ingest: &Speed,
    p99: u64,
    recall: &Share,
    eight: &Speed,
) -> (r: Vec<Check>)
    ensures
        bench_report::check_views(r@) == xlarge_list(dim, *ingest, p99, *recall, *eight),
{
    let mut out: Vec<Check> = Vec::new();
    out.push(
        check_of(
            name_million(dim, "d ingest > 500 vec/s (wire)").as_str(),
            ingest.rate.exceeds(500),
            joined(ingest.text.as_str(), " vec/s"),
        ),
    );
    out.push(
        check_of(
            name_million(dim, name_tail(dim).as_str()).as_str(),
            p99 < bar_of(dim),
            counted("p99 = ", p99, " µs"),
        ),
    );
    out.push(
        check_of(
            name_million(dim, "d Recall@10 ≥ 0.85 (wire)").as_str(),
            share_reaches(recall, 85, DOUBLE),
            joined("recall=", recall.text.as_str()),
        ),
    );
    out.push(
        check_of(
            name_million(dim, "d concurrent QPS > 1000 (wire)").as_str(),
            eight.rate.exceeds(1_000),
            joined(eight.text.as_str(), " QPS"),
        ),
    );
    proof {
        assert(bench_report::check_views(out@) =~= xlarge_list(dim, *ingest, p99, *recall, *eight));
    }
    out
}

// ── a dataset over the wire ─────────────────────────────────────────────

/// The checks of a dataset of `n` vectors over the wire: loads of 8, 16 and 32 clients.
pub open spec fn real_list(
    n: u64,
    dim: u64,
    ingest: Speed,
    p99: u64,
    recall: Share,
    eight: Speed,
    sixteen: Speed,
    more: Speed,
) -> Seq<(Seq<char>, bool, Seq<char>)> {
    seq![
        (
            real_name(n, dim, "d ingest > 200 vec/s (wire)"@),
            above(ingest.rate, 200),
            ingest.text@ + " vec/s"@,
        ),
        (
            real_name(n, dim, tail_name(dim)),
            p99 < tail_bar(dim),
            "p99 = "@ + text::dec_text(p99 as nat) + " µs"@,
        ),
        (
            real_name(n, dim, "d Recall@10 ≥ 0.85 (wire)"@),
            reaches(recall, 85, DOUBLE),
            "recall="@ + recall.text@,
        ),
        (
            real_name(n, dim, "d concurrent QPS > 1000 (wire)"@),
            above(eight.rate, 1_000),
            eight.text@ + " QPS"@,
        ),
        (
            real_name(n, dim, "d 16c QPS > 1000 (wire)"@),
            above(sixteen.rate, 1_000),
            sixteen.text@ + " QPS"@,
        ),
        (
            real_name(n, dim, "d 32c QPS > 1000 (wire)"@),
            above(more.rate, 1_000),
            more.text@ + " QPS"@,
        ),
    ]
}

/// The checks of a dataset of `n` vectors over the wire: loads of 8, 16 and 32 clients.
pub fn real_checks(
    n: u64,
    dim: u64,
    ingest: &Speed,
    p99: u64,
    recall: &Share,
    eight: &Speed,
    sixteen: &Speed,
    more: &Speed,
) -> (r: Vec<Check>)
    ensures
        bench_report::check_views(r@) == real_list(
            n,
            dim,
            *ingest,
            p99,
            *recall,
            *eight,
            *sixteen,
            *more,
        ),
{
    let mut out: Vec<Check> = Vec::new();
    out.push(
        check_of(
            name_real(n, dim, "d ingest > 200 vec/s (wire)").as_str(),
            ingest.rate.exceeds(200),
            joined(ingest.text.as_str(), " vec/s"),
        ),
    );
    out.push(
        check_of(
            name_real(n, dim, name_tail(dim).as_str()).as_str(),
            p99 < bar_of(dim),
            counted("p99 = ", p99, " µs"),
        ),
    );
    out.push(
        check_of(
            name_real(n, dim, "d Recall@10 ≥ 0.85 (wire)").as_str(),
            share_reaches(recall, 85, DOUBLE),
            joined("recall=", recall.text.as_str()),
        ),
    );
    out.push(
        check_of(
            name_real(n, dim, "d concurrent QPS > 1000 (wire)").as_str(),
            eight.rate.exceeds(1_000),
            joined(eight.text.as_str(), " QPS"),
        ),
    );
    out.push(
        check_of(
            name_real(n, dim, "d 16c QPS > 1000 (wire)").as_str(),
            sixteen.rate.exceeds(1_000),
            joined(sixteen.text.as_str(), " QPS"),
        ),
    );
    out.push(
        check_of(
            name_real(n, dim, "d 32c QPS > 1000 (wire)").as_str(),
            more.rate.exceeds(1_000),
            joined(more.text.as_str(), " QPS"),
        ),
    );
    proof {
        assert(bench_report::check_views(out@) =~= real_list(
            n,
            dim,
            *ingest,
            p99,
            *recall,
            *eight,
            *sixteen,
            *more,
        ));
    }
    out
}

// ── a dataset in the process ────────────────────────────────────────────

/// The checks of a dataset that is indexed in the process.
pub open spec fn ingest_list(
    n: u64,
    dim: u64,
    ingest: Speed,
    recall: Share,
) -> Seq<(Seq<char>, bool, Seq<char>)> {
    seq![
        (
            real_name(n, dim, "d ingest > 2000 vec/s"@),
            above(ingest.rate, 2_000),
            ingest.text@ + " vec/s"@,
        ),
        (
            real_name(n, dim, "d Recall@10 ≥ 0.90"@),
            reaches(recall, 90, SINGLE),
            "recall="@ + recall.text@,
        ),
    ]
}

/// The checks of a dataset that is indexed in the process.
pub fn ingest_checks(
    n: u64,
    dim: u64,
    ingest: &Speed,
    recall: &Share,
) -> (r: Vec<Check>)
    ensures
        bench_report::check_views(r@) == ingest_list(n, dim, *ingest, *recall),
{
    let mut out: Vec<Check> = Vec::new();
    out.push(
        check_of(
            name_real(n, dim, "d ingest > 2000 vec/s").as_str(),
            ingest.rate.exceeds(2_000),
            joined(ingest.text.as_str(), " vec/s"),
        ),
    );
    out.push(
        check_of(
            name_real(n, dim, "d Recall@10 ≥ 0.90").as_str(),
            share_reaches(recall, 90, SINGLE),
            joined("recall=", recall.text.as_str()),
        ),
    );
    proof {
        assert(bench_report::check_views(out@) =~= ingest_list(n, dim, *ingest, *recall));
    }
    out
}

// ── reads and writes ────────────────────────────────────────────────────

/// The checks of the mixed workloads: half reads, nearly all reads, only reads, and reads that
/// are written back.
pub open spec fn ycsb_list(
    a: Speed,
    b: Speed,
    c: Speed,
    f: Speed,
) -> Seq<(Seq<char>, bool, Seq<char>)> {
    seq![
        (
            "YCSB-C (100% read) > 30k ops/s"@,
            above(c.rate, 30_000),
            c.text@ + " ops/s"@,
        ),
        (
            "YCSB-A (mixed 50/50) > 15k ops/s"@,
            above(a.rate, 15_000),
            a.text@ + " ops/s"@,
        ),
        (
            "YCSB-B (95% read) > 25k ops/s"@,
            above(b.rate, 25_000),
            b.text@ + " ops/s"@,
        ),
        (
            "YCSB-F (RMW) > 8k ops/s"@,
            above(f.rate, 8_000),
            f.text@ + " ops/s"@,
        ),
    ]
}

/// The checks of the mixed workloads: half reads, nearly all reads, only reads, and reads that
/// are written back.
pub fn ycsb_checks(
    a: &Speed,
    b: &Speed,
    c: &Speed,
    f: &Speed,
) -> (r: Vec<Check>)
    ensures
        bench_report::check_views(r@) == ycsb_list(*a, *b, *c, *f),
{
    let mut out: Vec<Check> = Vec::new();
    out.push(
        check_of(
            "YCSB-C (100% read) > 30k ops/s",
            c.rate.exceeds(30_000),
            joined(c.text.as_str(), " ops/s"),
        ),
    );
    out.push(
        check_of(
            "YCSB-A (mixed 50/50) > 15k ops/s",
            a.rate.exceeds(15_000),
            joined(a.text.as_str(), " ops/s"),
        ),
    );
    out.push(
        check_of(
            "YCSB-B (95% read) > 25k ops/s",
            b.rate.exceeds(25_000),
            joined(b.text.as_str(), " ops/s"),
        ),
    );
    out.push(
        check_of(
            "YCSB-F (RMW) > 8k ops/s",
            f.rate.exceeds(8_000),
            joined(f.text.as_str(), " ops/s"),
        ),
    );
    proof {
        assert(bench_report::check_views(out@) =~= ycsb_list(*a, *b, *c, *f));
    }
    out
}

// ── writes in the process ───────────────────────────────────────────────

/// The checks of writes by one thread and by several.
pub open spec fn throughput_list(
    single: Speed,
    several: Speed,
) -> Seq<(Seq<char>, bool, Seq<char>)> {
    seq![
        (
            "single-thread SET > 30k ops/s (in-process fsync'd WAL)"@,
            above(single.rate, 30_000),
            single.text@ + " ops/s"@,
        ),
        (
            "multi-thread SET > 60k ops/s"@,
            above(several.rate, 60_000),
            several.text@ + " ops/s"@,
        ),
    ]
}

/// The checks of writes by one thread and by several.
pub fn throughput_checks(
    single: &Speed,
    several: &Speed,
) -> (r: Vec<Check>)
    ensures
        bench_report::check_views(r@) == throughput_list(*single, *several),
{
    let mut out: Vec<Check> = Vec::new();
    out.push(
        check_of(
            "single-thread SET > 30k ops/s (in-process fsync'd WAL)",
            single.rate.exceeds(30_000),
            joined(single.text.as_str(), " ops/s"),
        ),
    );
    out.push(
        check_of(
            "multi-thread SET > 60k ops/s",
            several.rate.exceeds(60_000),
            joined(several.text.as_str(), " ops/s"),
        ),
    );
    proof {
        assert(bench_report::check_views(out@) =~= throughput_list(*single, *several));
    }
    out
}

// ── a beam that adapts ──────────────────────────────────────────────────

/// The checks of a beam that adapts against a fixed one.
pub open spec fn adaptive_list(
    fixed: Share,
    adaptive: Share,
    fixed_mean: u64,
    adaptive_mean: u64,
) -> Seq<(Seq<char>, bool, Seq<char>)> {
    seq![
        (
            "adaptive Recall@10 ≥ fixed ef Recall@10"@,
            keeps_up(adaptive, fixed, 1),
            "a="@ + fixed.text@ + " b="@ + adaptive.text@,
        ),
        (
            "adaptive mean latency ≤ fixed ef (1.05x)"@,
            rounding::whole(adaptive_mean as nat, DOUBLE as nat) * rounding::one()
                <= rounding::times(fixed_mean as nat, 105, 100, DOUBLE as nat),
            "a="@ + text::dec_text(fixed_mean as nat) + "µs b="@
                + text::dec_text(adaptive_mean as nat) + "µs"@,
        ),
    ]
}

/// The checks of a beam that adapts against a fixed one.
pub fn adaptive_checks(
    fixed: &Share,
    adaptive: &Share,
    fixed_mean: u64,
    adaptive_mean: u64,
) -> (r: Vec<Check>)
    requires
        fixed.sound(),
    ensures
        bench_report::check_views(r@) == adaptive_list(
            *fixed,
            *adaptive,
            fixed_mean,
            adaptive_mean,
        ),
{
    let mut out: Vec<Check> = Vec::new();
    out.push(
        check_of(
            "adaptive Recall@10 ≥ fixed ef Recall@10",
            share_keeps_up(adaptive, fixed, 1),
            paired("a=", fixed.text.as_str(), " b=", adaptive.text.as_str()),
        ),
    );
    out.push(
        check_of(
            "adaptive mean latency ≤ fixed ef (1.05x)",
            within_factor(adaptive_mean, fixed_mean, 105, 100, DOUBLE),
            two_micros("a=", fixed_mean, "µs b=", adaptive_mean),
        ),
    );
    proof {
        assert(bench_report::check_views(out@) =~= adaptive_list(
            *fixed,
            *adaptive,
            fixed_mean,
            adaptive_mean,
        ));
    }
    out
}

// ── shards that are merged ──────────────────────────────────────────────

/// The checks of an index that is built in shards: the nanoseconds of both builds, with their
/// quotient as text.
pub open spec fn merge_list(
    serial_ns: u64,
    parallel_ns: u64,
    speedup: Seq<char>,
    cores: u64,
    merged: Share,
    serial: Share,
) -> Seq<(Seq<char>, bool, Seq<char>)> {
    seq![
        (
            "MODULE1 parallel build > serial (speedup > 1.3x)"@,
            rates::times_as_long(at_least_one(serial_ns), at_least_one(parallel_ns))
                > rounding::literal(13, 10, DOUBLE as nat),
            speedup + "x @ "@ + text::dec_text(cores as nat) + "c"@,
        ),
        (
            "MODULE1 merged Recall@10 ≥ 0.90"@,
            reaches(merged, 90, SINGLE),
            "merged="@ + merged.text@ + " serial="@ + serial.text@,
        ),
        (
            "MODULE1 merge does not regress recall vs serial (Δ ≤ 0.03)"@,
            keeps_up(merged, serial, 30),
            "merged="@ + merged.text@ + " serial="@ + serial.text@,
        ),
    ]
}

/// The checks of an index that is built in shards: the nanoseconds of both builds, with their
/// quotient as text.
pub fn merge_checks(
    serial_ns: u64,
    parallel_ns: u64,
    speedup: &str,
    cores: u64,
    merged: &Share,
    serial: &Share,
) -> (r: Vec<Check>)
    requires
        serial.sound(),
    ensures
        bench_report::check_views(r@) == merge_list(
            serial_ns,
            parallel_ns,
            speedup@,
            cores,
            *merged,
            *serial,
        ),
{
    let mut out: Vec<Check> = Vec::new();
    out.push(
        check_of(
            "MODULE1 parallel build > serial (speedup > 1.3x)",
            longer_by(one_or_more(serial_ns), one_or_more(parallel_ns), 13, 10),
            joined(framed(speedup, "x @ ", dec_string(cores).as_str()).as_str(), "c"),
        ),
    );
    out.push(
        check_of(
            "MODULE1 merged Recall@10 ≥ 0.90",
            share_reaches(merged, 90, SINGLE),
            paired("merged=", merged.text.as_str(), " serial=", serial.text.as_str()),
        ),
    );
    out.push(
        check_of(
            "MODULE1 merge does not regress recall vs serial (Δ ≤ 0.03)",
            share_keeps_up(merged, serial, 30),
            paired("merged=", merged.text.as_str(), " serial=", serial.text.as_str()),
        ),
    );
    proof {
        assert(bench_report::check_views(out@) =~= merge_list(
            serial_ns,
            parallel_ns,
            speedup@,
            cores,
            *merged,
            *serial,
        ));
    }
    out
}

// ── vectors on disk ─────────────────────────────────────────────────────

/// The checks of an index whose exact vectors were spilled: bytes on disk, and in memory before
/// and after.
pub open spec fn tiered_list(
    tiered: Share,
    ram: Share,
    spilled: u64,
    ram_bytes: u64,
    tiered_bytes: u64,
) -> Seq<(Seq<char>, bool, Seq<char>)> {
    seq![
        (
            "MODULE2 tiered Recall@10 ≥ 0.90"@,
            reaches(tiered, 90, SINGLE),
            "tiered="@ + tiered.text@ + " ram="@ + ram.text@,
        ),
        (
            "MODULE2 tiered recall == RAM recall (Δ ≤ 0.01)"@,
            bench_checks::shares_agree(tiered.part(), ram.part(), 10, SINGLE as nat),
            "tiered="@ + tiered.text@ + " ram="@ + ram.text@,
        ),
        (
            "MODULE2 cold tier holds the f32 payload (≥1MB spilled)"@,
            spilled >= 1_048_576,
            text::dec_text(spilled as nat) + " B spilled"@,
        ),
        (
            "MODULE2 RAM f32 dropped to ~0 after spill"@,
            tiered_bytes <= ram_bytes / 2,
            "ram="@ + text::dec_text(ram_bytes as nat) + " tiered_ram="@
                + text::dec_text(tiered_bytes as nat),
        ),
    ]
}

/// The checks of an index whose exact vectors were spilled: bytes on disk, and in memory before
/// and after.
pub fn tiered_checks(
    tiered: &Share,
    ram: &Share,
    spilled: u64,
    ram_bytes: u64,
    tiered_bytes: u64,
) -> (r: Vec<Check>)
    requires
        tiered.sound(),
        ram.sound(),
    ensures
        bench_report::check_views(r@) == tiered_list(
            *tiered,
            *ram,
            spilled,
            ram_bytes,
            tiered_bytes,
        ),
{
    let mut out: Vec<Check> = Vec::new();
    out.push(
        check_of(
            "MODULE2 tiered Recall@10 ≥ 0.90",
            share_reaches(tiered, 90, SINGLE),
            paired("tiered=", tiered.text.as_str(), " ram=", ram.text.as_str()),
        ),
    );
    out.push(
        check_of(
            "MODULE2 tiered recall == RAM recall (Δ ≤ 0.01)",
            hits_agree(tiered.hits, tiered.asked, ram.hits, ram.asked, 10, SINGLE),
            paired("tiered=", tiered.text.as_str(), " ram=", ram.text.as_str()),
        ),
    );
    out.push(
        check_of(
            "MODULE2 cold tier holds the f32 payload (≥1MB spilled)",
            spilled >= 1_048_576,
            joined(dec_string(spilled).as_str(), " B spilled"),
        ),
    );
    out.push(
        check_of(
            "MODULE2 RAM f32 dropped to ~0 after spill",
            tiered_bytes <= ram_bytes / 2,
            paired(
                "ram=",
                dec_string(ram_bytes).as_str(),
                " tiered_ram=",
                dec_string(tiered_bytes).as_str(),
            ),
        ),
    );
    proof {
        assert(bench_report::check_views(out@) =~= tiered_list(
            *tiered,
            *ram,
            spilled,
            ram_bytes,
            tiered_bytes,
        ));
    }
    out
}

// ── a beam that is learned ──────────────────────────────────────────────

/// The checks of a learned beam: its recall and its microseconds for a query against a fixed
/// beam and a heuristic.
pub open spec fn learned_list(
    learned: Share,
    fixed: Share,
    heuristic: Share,
    learned_us: u64,
    fixed_us: u64,
    heuristic_us: u64,
) -> Seq<(Seq<char>, bool, Seq<char>)> {
    seq![
        (
            "MODULE3 learned Recall@10 ≥ fixed ef (Δ ≥ -0.02)"@,
            keeps_up(learned, fixed, 20),
            "learned="@ + learned.text@ + " fixed="@ + fixed.text@,
        ),
        (
            "MODULE3 learned Recall@10 ≥ 0.90"@,
            reaches(learned, 90, SINGLE),
            "learned="@ + learned.text@,
        ),
        (
            "MODULE3 learned probe overhead bounded (≤2.5x fixed)"@,
            learned_us <= fixed_us * 5 / 2,
            "learned="@ + text::dec_text(learned_us as nat) + "µs fixed="@
                + text::dec_text(fixed_us as nat) + "µs"@,
        ),
        (
            "MODULE3 learned beats heuristic recall or latency"@,
            keeps_up(learned, heuristic, 10) || learned_us < heuristic_us,
            "learned r="@ + learned.text@ + "/"@ + text::dec_text(learned_us as nat) + "µs"@
                + (" heur r="@ + heuristic.text@ + "/"@ + text::dec_text(heuristic_us as nat)
                + "µs"@),
        ),
    ]
}

/// The checks of a learned beam: its recall and its microseconds for a query against a fixed
/// beam and a heuristic.
pub fn learned_checks(
    learned: &Share,
    fixed: &Share,
    heuristic: &Share,
    learned_us: u64,
    fixed_us: u64,
    heuristic_us: u64,
) -> (r: Vec<Check>)
    requires
        fixed.sound(),
        heuristic.sound(),
        fixed_us * 5 <= u64::MAX,
    ensures
        bench_report::check_views(r@) == learned_list(
            *learned,
            *fixed,
            *heuristic,
            learned_us,
            fixed_us,
            heuristic_us,
        ),
{
    let mut out: Vec<Check> = Vec::new();
    out.push(
        check_of(
            "MODULE3 learned Recall@10 ≥ fixed ef (Δ ≥ -0.02)",
            share_keeps_up(learned, fixed, 20),
            paired("learned=", learned.text.as_str(), " fixed=", fixed.text.as_str()),
        ),
    );
    out.push(
        check_of(
            "MODULE3 learned Recall@10 ≥ 0.90",
            share_reaches(learned, 90, SINGLE),
            joined("learned=", learned.text.as_str()),
        ),
    );
    out.push(
        check_of(
            "MODULE3 learned probe overhead bounded (≤2.5x fixed)",
            learned_us <= fixed_us * 5 / 2,
            two_micros("learned=", learned_us, "µs fixed=", fixed_us),
        ),
    );
    out.push(
        check_of(
            "MODULE3 learned beats heuristic recall or latency",
            share_keeps_up(learned, heuristic, 10) || learned_us < heuristic_us,
            joined(
                at_cost("learned r=", learned, learned_us).as_str(),
                at_cost(" heur r=", heuristic, heuristic_us).as_str(),
            ),
        ),
    );
    proof {
        assert(bench_report::check_views(out@) =~= learned_list(
            *learned,
            *fixed,
            *heuristic,
            learned_us,
            fixed_us,
            heuristic_us,
        ));
    }
    out
}

// ── shards that are filled ──────────────────────────────────────────────

/// The checks of an index that threads fill.
pub open spec fn shard_list(
    parallel: Share,
    serial: Share,
) -> Seq<(Seq<char>, bool, Seq<char>)> {
    seq![
        (
            "parallel ingest recall matches serial (>=0.9)"@,
            reaches(parallel, 90, DOUBLE),
            "par="@ + parallel.text@,
        ),
        (
            "parallel ingest recall within 2pp of serial"@,
            bench_checks::shares_near(parallel.part(), serial.part(), 20, DOUBLE as nat),
            "par="@ + parallel.text@ + " ser="@ + serial.text@,
        ),
    ]
}

/// The checks of an index that threads fill.
pub fn shard_checks(
    parallel: &Share,
    serial: &Share,
) -> (r: Vec<Check>)
    requires
        parallel.sound(),
        serial.sound(),
    ensures
        bench_report::check_views(r@) == shard_list(*parallel, *serial),
{
    let mut out: Vec<Check> = Vec::new();
    out.push(
        check_of(
            "parallel ingest recall matches serial (>=0.9)",
            share_reaches(parallel, 90, DOUBLE),
            joined("par=", parallel.text.as_str()),
        ),
    );
    out.push(
        check_of(
            "parallel ingest recall within 2pp of serial",
            hits_near(parallel.hits, parallel.asked, serial.hits, serial.asked, 20, DOUBLE),
            paired("par=", parallel.text.as_str(), " ser=", serial.text.as_str()),
        ),
    );
    proof {
        assert(bench_report::check_views(out@) =~= shard_list(*parallel, *serial));
    }
    out
}

// ── vectors in the process ──────────────────────────────────────────────

/// The checks of searches in the process: the results for document 42 with their text, the
/// slowest hundredth, the rate of eight threads, and the results of a batch of queries.
pub open spec fn vector_list(
    top: Seq<u64>,
    tops: Seq<char>,
    p99: u64,
    eight: Speed,
    batched: u64,
    asked: u64,
) -> Seq<(Seq<char>, bool, Seq<char>)> {
    seq![
        (
            "known-vector self-recall @ top-5"@,
            top.contains(42),
            "top5="@ + tops,
        ),
        (
            "VSEARCH p99 < 5 ms"@,
            p99 < 5_000,
            "p99 = "@ + text::dec_text(p99 as nat),
        ),
        (
            "native-thread concurrent VSEARCH > 10k qps"@,
            above(eight.rate, 10_000),
            eight.text@ + " qps"@,
        ),
        (
            "VSEARCH.MANY returns same shape as 32 singles"@,
            batched == asked,
            ""@,
        ),
    ]
}

/// The checks of searches in the process: the results for document 42 with their text, the
/// slowest hundredth, the rate of eight threads, and the results of a batch of queries.
pub fn vector_checks(
    top: &Vec<u64>,
    tops: &str,
    p99: u64,
    eight: &Speed,
    batched: u64,
    asked: u64,
) -> (r: Vec<Check>)
    ensures
        bench_report::check_views(r@) == vector_list(top@, tops@, p99, *eight, batched, asked),
{
    let mut out: Vec<Check> = Vec::new();
    out.push(
        check_of(
            "known-vector self-recall @ top-5",
            bench_checks::holds_id(top, 42),
            joined("top5=", tops),
        ),
    );
    out.push(
        check_of(
            "VSEARCH p99 < 5 ms",
            p99 < 5_000,
            joined("p99 = ", dec_string(p99).as_str()),
        ),
    );
    out.push(
        check_of(
            "native-thread concurrent VSEARCH > 10k qps",
            eight.rate.exceeds(10_000),
            joined(eight.text.as_str(), " qps"),
        ),
    );
    out.push(
        check_of(
            "VSEARCH.MANY returns same shape as 32 singles",
            batched == asked,
            "".to_owned(),
        ),
    );
    proof {
        assert(bench_report::check_views(out@) =~= vector_list(
            top@,
            tops@,
            p99,
            *eight,
            batched,
            asked,
        ));
    }
    out
}

// ── single checks ─────────────────────────────────────────────────────────

/// The check that no update was lost: the counter's last value against the calls that were
/// made, and the seconds that they took as text.
pub fn contention_check(last: i64, expected: i64, seconds: &str) -> (r: Check)
    ensures
        r@ == (
            "no lost updates under 32-way reducer contention"@,
            last == expected,
            "final="@ + text::signed_text(last as int) + " expected="@ + text::signed_text(
                expected as int,
            ) + " in "@ + seconds@ + "s"@,
        ),
{
    let mut s: String = paired(
        "final=",
        signed_string(last).as_str(),
        " expected=",
        signed_string(expected).as_str(),
    );
    s.append(" in ");
    s.append(seconds);
    s.append("s");
    check_of("no lost updates under 32-way reducer contention", last == expected, s)
}

/// The check of sixteen clients that search through one command.
pub fn unified_check(load: &Speed) -> (r: Check)
    ensures
        r@ == (
            "MODULE6 concurrent QPS > 1000 (16 clients)"@,
            at_least(load.rate, 1_000),
            load.text@ + " QPS"@,
        ),
{
    check_of(
        "MODULE6 concurrent QPS > 1000 (16 clients)",
        load.rate.reaches(1_000),
        joined(load.text.as_str(), " QPS"),
    )
}

// ── laws ──────────────────────────────────────────────────────────────────

/// A rate that passes a bar passes each lower one, and so does the same work in less time.
pub proof fn law_faster_stays_above(r: Rate, better: Rate, bar: nat, lower: nat)
    requires
        above(r, bar),
        lower <= bar,
        better.count >= r.count,
        better.nanos <= r.nanos,
    ensures
        above(better, lower),
{
    if r.nanos > 0 {
        rates::lemma_no_work(r.nanos as nat);
        let x = rounding::whole(bar, DOUBLE as nat);
        let y = rounding::whole(lower, DOUBLE as nat);
        rounding::lemma_rounded_grows(lower, bar, 1, DOUBLE as nat);
        assert(0 <= y * rounding::one() <= x * rounding::one()) by (nonlinear_arith)
            requires
                0 <= y <= x,
                rounding::one() >= 0,
        ;
        if better.nanos > 0 {
            rates::lemma_rates_grow(
                r.count as nat,
                better.count as nat,
                r.nanos as nat,
                better.nanos as nat,
            );
        }
    }
}

/// Work that was done so many times in each of some seconds.
pub open spec fn each_second(c: nat, k: nat) -> Rate {
    Rate { count: (c * k) as u64, nanos: (k * 1_000_000_000) as u64 }
}

/// Whether seconds, and work done so many times in each, can be counted.
pub open spec fn countable(c: nat, k: nat) -> bool {
    0 < k <= 1_000_000_000 && c <= DOUBLE && c * k <= DOUBLE
}

/// Work done `c` times each second is above every lower bar, and at least `c`. Some work in no time
/// passes every bar, and none does not.
pub proof fn law_rates_are_per_second(c: nat, k: nat, bar: nat, n: u64)
    requires
        countable(c, k),
        bar <= DOUBLE,
    ensures
        above(each_second(c, k), bar) <==> c > bar,
        at_least(each_second(c, k), bar) <==> c >= bar,
        above(Rate { count: n, nanos: 0 }, bar) <==> n > 0,
        at_least(Rate { count: n, nanos: 0 }, bar) <==> n > 0,
{
    let one = rounding::one();
    rates::law_whole_seconds_come_out(c, k);
    rounding::law_whole_ratios_come_out(bar, 1, 1, DOUBLE as nat);
    vstd::arithmetic::power2::lemma_pow2_pos(128);
    assert(c * one > bar * one <==> c > bar) by (nonlinear_arith)
        requires
            one > 0,
    ;
    assert(c * one >= bar * one <==> c >= bar) by (nonlinear_arith)
        requires
            one > 0,
    ;
}

/// Hits of so many percent, each percent `m` times.
pub open spec fn percent_of(s: Share, p: nat, m: nat) -> bool {
    m > 0 && 100 * m <= SINGLE && p <= 100 && s.hits == p * m && s.asked == 100 * m
}

proof fn lemma_percent(s: Share, p: nat, m: nat, bar: nat)
    requires
        percent_of(s, p, m),
        bar <= 100,
    ensures
        reaches(s, bar, SINGLE) <==> p >= bar,
        reaches(s, bar, DOUBLE) <==> p >= bar,
{
    assert(p * m <= 100 * m) by (nonlinear_arith)
        requires
            p <= 100,
    ;
    bench_checks::law_percents_hold_up_to_their_own(p, m, bar, SINGLE as nat);
    bench_checks::law_percents_hold_up_to_their_own(p, m, bar, DOUBLE as nat);
}

/// A hundred thousand vectors: above 500 of them a second, under five milliseconds, eighty-five
/// percent, and above 400, 13000 and 5000 searches a second of one, a hundred and eight clients.
pub proof fn law_scale_section_demands(
    ingest: Speed,
    p99: u64,
    recall: Share,
    one: Speed,
    hundred: Speed,
    eight: Speed,
    c: nat,
    k: nat,
    p: nat,
    m: nat,
)
    requires
        countable(c, k),
        percent_of(recall, p, m),
    ensures
        ({
            let l = scale_list(ingest, p99, recall, one, hundred, eight);
            &&& l.len() == 6
            &&& ingest.rate == each_second(c, k) ==> (l[0].1 <==> c > 500)
            &&& l[1].1 <==> p99 < 5 * 1000
            &&& l[2].1 <==> p >= 85
            &&& one.rate == each_second(c, k) ==> (l[3].1 <==> c > 400)
            &&& hundred.rate == each_second(c, k) ==> (l[4].1 <==> c > 13_000)
            &&& eight.rate == each_second(c, k) ==> (l[5].1 <==> c > 5_000)
        }),
{
    law_rates_are_per_second(c, k, 500, 0);
    law_rates_are_per_second(c, k, 400, 0);
    law_rates_are_per_second(c, k, 13_000, 0);
    law_rates_are_per_second(c, k, 5_000, 0);
    lemma_percent(recall, p, m, 85);
}

/// A million vectors: above 3000 of them a second, under five milliseconds at the slow end and two
/// in the middle, eighty-five percent, and above 2000 searches a second of eight clients.
pub proof fn law_million_section_demands(
    ingest: Speed,
    p50: u64,
    p99: u64,
    recall: Share,
    eight: Speed,
    c: nat,
    k: nat,
    p: nat,
    m: nat,
)
    requires
        countable(c, k),
        percent_of(recall, p, m),
    ensures
        ({
            let l = million_list(ingest, p50, p99, recall, eight);
            &&& l.len() == 5
            &&& ingest.rate == each_second(c, k) ==> (l[0].1 <==> c > 3_000)
            &&& l[1].1 <==> p99 < 5 * 1000
            &&& l[2].1 <==> p50 < 2 * 1000
            &&& l[3].1 <==> p >= 85
            &&& eight.rate == each_second(c, k) ==> (l[4].1 <==> c > 2_000)
        }),
{
    law_rates_are_per_second(c, k, 3_000, 0);
    law_rates_are_per_second(c, k, 2_000, 0);
    lemma_percent(recall, p, m, 85);
}

/// Long vectors and datasets: the slow end under three milliseconds, or five from 1024 dimensions
/// on; eighty-five percent; above 500 or 200 vectors a second, and above 1000 searches a second of
/// every number of clients.
pub proof fn law_long_vectors_demand(
    n: u64,
    dim: u64,
    ingest: Speed,
    p99: u64,
    recall: Share,
    eight: Speed,
    sixteen: Speed,
    more: Speed,
    c: nat,
    k: nat,
    p: nat,
    m: nat,
)
    requires
        countable(c, k),
        percent_of(recall, p, m),
    ensures
        dim < 1024 ==> tail_bar(dim) == 3 * 1000,
        dim >= 1024 ==> tail_bar(dim) == 5 * 1000,
        ({
            let l = xlarge_list(dim, ingest, p99, recall, eight);
            &&& l.len() == 4
            &&& ingest.rate == each_second(c, k) ==> (l[0].1 <==> c > 500)
            &&& l[1].1 <==> p99 < tail_bar(dim)
            &&& l[2].1 <==> p >= 85
            &&& eight.rate == each_second(c, k) ==> (l[3].1 <==> c > 1_000)
        }),
        ({
            let l = real_list(n, dim, ingest, p99, recall, eight, sixteen, more);
            &&& l.len() == 6
            &&& ingest.rate == each_second(c, k) ==> (l[0].1 <==> c > 200)
            &&& l[1].1 <==> p99 < tail_bar(dim)
            &&& l[2].1 <==> p >= 85
            &&& eight.rate == each_second(c, k) ==> (l[3].1 <==> c > 1_000)
            &&& sixteen.rate == each_second(c, k) ==> (l[4].1 <==> c > 1_000)
            &&& more.rate == each_second(c, k) ==> (l[5].1 <==> c > 1_000)
        }),
        ({
            let l = ingest_list(n, dim, ingest, recall);
            &&& l.len() == 2
            &&& ingest.rate == each_second(c, k) ==> (l[0].1 <==> c > 2_000)
            &&& l[1].1 <==> p >= 90
        }),
{
    law_rates_are_per_second(c, k, 500, 0);
    law_rates_are_per_second(c, k, 200, 0);
    law_rates_are_per_second(c, k, 1_000, 0);
    law_rates_are_per_second(c, k, 2_000, 0);
    lemma_percent(recall, p, m, 85);
    lemma_percent(recall, p, m, 90);
}

/// Mixed workloads, and writes of one thread and of several: each is above its own rate.
pub proof fn law_workloads_demand(a: Speed, b: Speed, c: Speed, f: Speed, n: nat, k: nat)
    requires
        countable(n, k),
    ensures
        ({
            let l = ycsb_list(a, b, c, f);
            &&& l.len() == 4
            &&& c.rate == each_second(n, k) ==> (l[0].1 <==> n > 30_000)
            &&& a.rate == each_second(n, k) ==> (l[1].1 <==> n > 15_000)
            &&& b.rate == each_second(n, k) ==> (l[2].1 <==> n > 25_000)
            &&& f.rate == each_second(n, k) ==> (l[3].1 <==> n > 8_000)
        }),
        ({
            let l = throughput_list(a, b);
            &&& l.len() == 2
            &&& a.rate == each_second(n, k) ==> (l[0].1 <==> n > 30_000)
            &&& b.rate == each_second(n, k) ==> (l[1].1 <==> n > 60_000)
        }),
{
    law_rates_are_per_second(n, k, 30_000, 0);
    law_rates_are_per_second(n, k, 15_000, 0);
    law_rates_are_per_second(n, k, 25_000, 0);
    law_rates_are_per_second(n, k, 8_000, 0);
    law_rates_are_per_second(n, k, 60_000, 0);
}

/// One way of searching against another: what finds as much keeps up, ninety percent is asked of
/// the new one, and what is spilled is a mebibyte at least and leaves half of the memory at most.
pub proof fn law_comparisons_demand(
    new: Share,
    old_one: Share,
    new_us: u64,
    old_us: u64,
    spilled: u64,
    p: nat,
    m: nat,
    speedup: Seq<char>,
    cores: u64,
)
    requires
        percent_of(new, p, m),
        percent_of(old_one, p, m),
    ensures
        adaptive_list(old_one, new, old_us, new_us)[0].1,
        ({
            let l = merge_list(old_us, new_us, speedup, cores, new, old_one);
            &&& l.len() == 3
            &&& l[1].1 <==> p >= 90
            &&& l[2].1
        }),
        ({
            let l = tiered_list(new, old_one, spilled, old_us, new_us);
            &&& l.len() == 4
            &&& l[0].1 <==> p >= 90
            &&& l[1].1
            &&& l[2].1 <==> spilled >= 1024 * 1024
            &&& l[3].1 <==> 2 * new_us <= old_us
        }),
        ({
            let l = learned_list(new, old_one, old_one, new_us, old_us, old_us);
            &&& l.len() == 4
            &&& l[0].1
            &&& l[1].1 <==> p >= 90
            &&& l[2].1 <==> 2 * new_us <= 5 * old_us
            &&& l[3].1
        }),
        ({
            let l = shard_list(new, old_one);
            &&& l.len() == 2
            &&& l[0].1 <==> p >= 90
            &&& l[1].1
        }),
{
    lemma_percent(new, p, m, 90);
    assert(new.part() == old_one.part());
    bench_checks::law_shares_compare_both_ways(new.part(), new.part(), 1, SINGLE as nat);
    bench_checks::law_shares_compare_both_ways(new.part(), new.part(), 10, SINGLE as nat);
    bench_checks::law_shares_compare_both_ways(new.part(), new.part(), 20, SINGLE as nat);
    bench_checks::law_shares_compare_both_ways(new.part(), new.part(), 30, SINGLE as nat);
    bench_checks::law_shares_compare_both_ways(new.part(), new.part(), 20, DOUBLE as nat);
    bench_checks::lemma_literals_rise(0, 20, 1000, DOUBLE as nat);
}

/// A parallel build passes where it is twice as fast or more in whole seconds, and not where it is
/// no faster; a beam that adapts passes where it is no slower.
pub proof fn law_builds_must_be_faster(
    c: nat,
    k: nat,
    speedup: Seq<char>,
    cores: u64,
    merged: Share,
    serial: Share,
    mean: u64,
)
    requires
        countable(c, k),
        0 < c,
        c * k <= 1_000_000_000,
        mean <= DOUBLE,
    ensures
        merge_list(
            (c * k * 1_000_000_000) as u64,
            (k * 1_000_000_000) as u64,
            speedup,
            cores,
            merged,
            serial,
        )[0].1 <==> c >= 2,
        adaptive_list(serial, merged, mean, mean)[1].1,
{
    let lim = DOUBLE as nat;
    let one = rounding::one();
    rates::law_whole_seconds_come_out(c, k);
    assert(c * k > 0) by (nonlinear_arith)
        requires
            c > 0,
            k > 0,
    ;
    rounding::law_whole_ratios_come_out(1, 1, 10, lim);
    rounding::law_whole_ratios_come_out(1, 2, 10, lim);
    bench_checks::lemma_literals_rise(10, 13, 10, lim);
    bench_checks::lemma_literals_rise(13, 20, 10, lim);
    vstd::arithmetic::power2::lemma_pow2_pos(128);
    assert(c >= 2 ==> c * one >= 2 * one) by (nonlinear_arith)
        requires
            one > 0,
    ;
    rounding::law_whole_ratios_come_out(mean as nat, 1, 100, lim);
    rounding::lemma_literal_grows(100, 105, 100, lim);
    assert(mean as nat * rounding::literal(100, 100, lim) <= mean as nat * rounding::literal(
        105,
        100,
        lim,
    )) by (nonlinear_arith)
        requires
            rounding::literal(100, 100, lim) <= rounding::literal(105, 100, lim),
    ;
    rounding::lemma_rounded_grows(
        mean as nat * rounding::literal(100, 100, lim),
        mean as nat * rounding::literal(105, 100, lim),
        1,
        lim,
    );
}

/// Searches in the process: the document is among its own results, the slow end is under five
/// milliseconds, eight threads are above ten thousand a second, and a batch answers every query.
pub proof fn law_vector_section_demands(
    top: Seq<u64>,
    tops: Seq<char>,
    p99: u64,
    eight: Speed,
    batched: u64,
    asked: u64,
    c: nat,
    k: nat,
)
    requires
        countable(c, k),
    ensures
        ({
            let l = vector_list(top, tops, p99, eight, batched, asked);
            &&& l.len() == 4
            &&& l[0].1 <==> exists|i: int| 0 <= i < top.len() && #[trigger] top[i] == 42
            &&& l[1].1 <==> p99 < 5 * 1000
            &&& eight.rate == each_second(c, k) ==> (l[2].1 <==> c > 10_000)
            &&& l[3].1 <==> batched == asked
        }),
{
    law_rates_are_per_second(c, k, 10_000, 0);
}

} // verus!
