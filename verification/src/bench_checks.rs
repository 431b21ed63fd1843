//! What the longer benchmark sections demand: shares of hits, routes that answer, writes that
//! survive a kill. Figures that are measured as fractions come in as text beside the counts
//! that they are fractions of.
use crate::bench_plan::reply_missing;
use crate::bench_report;
use crate::bench_report::{check_of, Check};
use crate::layout;
use crate::layout::push_right;
use crate::rates;
use crate::rounding;
use crate::rounding::{apart_of, at_least, literal_of, quotient_of, Binary, DOUBLE, SINGLE};
use crate::scan;
use crate::text;
use crate::text::dec_string;
use vstd::prelude::*;
use vstd::string::*;

verus! {

/// Whether the share of `hits` in what was asked for is at least so many percent. The share and
/// the bound are numbers with leading digits below `lim`. Where nothing was asked for, it is not.
pub open spec fn share_holds(hits: nat, asked: nat, percent: nat, lim: nat) -> bool {
    asked > 0 && rounding::quotient(hits, asked, lim) >= rounding::literal(percent, 100, lim)
}

/// Whether the share of `hits` is at least so many percent.
pub fn reaches_percent(hits: u64, asked: u64, percent: u64, lim: u64) -> (r: bool)
    requires
        rounding::kind(lim as nat),
    ensures
        r == share_holds(hits as nat, asked as nat, percent as nat, lim as nat),
{
    asked > 0 && at_least(quotient_of(hits, asked, lim), literal_of(percent, 100, lim))
}

/// A share: hits, and what was asked for.
pub struct Part {
    pub hits: nat,
    pub asked: nat,
}

impl Part {
    pub open spec fn number(self, lim: nat) -> nat {
        rounding::quotient(self.hits, self.asked, lim)
    }
}

/// Whether a share is at least another one less so many thousandths. A share of nothing is not,
/// and neither is a share against one of nothing.
pub open spec fn share_keeps_up(a: Part, b: Part, thousandths: nat, lim: nat) -> bool {
    a.asked > 0 && b.asked > 0 && rounding::keeps_within(
        a.number(lim),
        b.number(lim),
        rounding::literal(thousandths, 1000, lim),
        lim,
    )
}

/// How far two shares are apart.
pub open spec fn share_gap(a: Part, b: Part, lim: nat) -> nat {
    rounding::apart(a.number(lim), b.number(lim), lim)
}

/// Whether two shares differ by less than so many thousandths.
pub open spec fn shares_near(a: Part, b: Part, thousandths: nat, lim: nat) -> bool {
    a.asked > 0 && b.asked > 0 && share_gap(a, b, lim) < rounding::literal(thousandths, 1000, lim)
}

/// Whether two shares differ by so many thousandths at most.
pub open spec fn shares_agree(a: Part, b: Part, thousandths: nat, lim: nat) -> bool {
    a.asked > 0 && b.asked > 0 && share_gap(a, b, lim) <= rounding::literal(thousandths, 1000, lim)
}

/// Whether `hits` of `asked` keep up with `other` of `among`, but for so many thousandths.
pub fn hits_keep_up(
    hits: u64,
    asked: u64,
    other: u64,
    among: u64,
    thousandths: u64,
    lim: u64,
) -> (r: bool)
    requires
        rounding::kind(lim as nat),
        other <= among,
    ensures
        r == share_keeps_up(
            (Part { hits: hits as nat, asked: asked as nat }),
            (Part { hits: other as nat, asked: among as nat }),
            thousandths as nat,
            lim as nat,
        ),
{
    if asked == 0 || among == 0 {
        return false;
    }
    let a = quotient_of(hits, asked, lim);
    let b = quotient_of(other, among, lim);
    let c = literal_of(thousandths, 1000, lim);
    proof {
        rounding::lemma_quotient_at_most_one(other as nat, among as nat, lim as nat);
    }
    !at_least(b, c) || at_least(a, apart_of(b, c, lim))
}

fn gap(hits: u64, asked: u64, other: u64, among: u64, lim: u64) -> (r: Binary)
    requires
        rounding::kind(lim as nat),
        0 < asked,
        0 < among,
        hits <= asked,
        other <= among,
    ensures
        r.value() == share_gap(
            (Part { hits: hits as nat, asked: asked as nat }),
            (Part { hits: other as nat, asked: among as nat }),
            lim as nat,
        ),
{
    let a = quotient_of(hits, asked, lim);
    let b = quotient_of(other, among, lim);
    proof {
        rounding::lemma_quotient_at_most_one(hits as nat, asked as nat, lim as nat);
        rounding::lemma_quotient_at_most_one(other as nat, among as nat, lim as nat);
    }
    if at_least(a, b) {
        apart_of(a, b, lim)
    } else {
        apart_of(b, a, lim)
    }
}

/// Whether two shares differ by less than so many thousandths.
pub fn hits_near(
    hits: u64,
    asked: u64,
    other: u64,
    among: u64,
    thousandths: u64,
    lim: u64,
) -> (r: bool)
    requires
        rounding::kind(lim as nat),
        hits <= asked,
        other <= among,
    ensures
        r == shares_near(
            (Part { hits: hits as nat, asked: asked as nat }),
            (Part { hits: other as nat, asked: among as nat }),
            thousandths as nat,
            lim as nat,
        ),
{
    asked > 0 && among > 0 && !at_least(
        gap(hits, asked, other, among, lim),
        literal_of(thousandths, 1000, lim),
    )
}

/// Whether two shares differ by so many thousandths at most.
pub fn hits_agree(
    hits: u64,
    asked: u64,
    other: u64,
    among: u64,
    thousandths: u64,
    lim: u64,
) -> (r: bool)
    requires
        rounding::kind(lim as nat),
        hits <= asked,
        other <= among,
    ensures
        r == shares_agree(
            (Part { hits: hits as nat, asked: asked as nat }),
            (Part { hits: other as nat, asked: among as nat }),
            thousandths as nat,
            lim as nat,
        ),
{
    asked > 0 && among > 0 && at_least(
        literal_of(thousandths, 1000, lim),
        gap(hits, asked, other, among, lim),
    )
}

fn two_counts(a: &str, x: u64, b: &str, y: u64) -> (r: String)
    ensures
        r@ == a@ + text::dec_text(x as nat) + b@ + text::dec_text(y as nat),
{
    let mut s: String = a.to_owned();
    s.append(dec_string(x).as_str());
    s.append(b);
    s.append(dec_string(y).as_str());
    s
}

fn two_texts(a: &str, x: &str, b: &str, y: &str) -> (r: String)
    ensures
        r@ == a@ + x@ + b@ + y@,
{
    let mut s: String = a.to_owned();
    s.append(x);
    s.append(b);
    s.append(y);
    s
}

// ── filtered search ───────────────────────────────────────────────────────

/// What the filtered section counted, over `queries` queries for `k` results each.
#[derive(Clone, Copy, Debug, PartialEq, Eq, Structural)]
pub struct FilteredFigures {
    pub queries: u64,
    pub k: u64,
    /// Rows in the rare category, hits among its results, and queries that gave any.
    pub rare_rows: u64,
    pub rare_hits: u64,
    pub routed: u64,
    /// Rows in the common category, and hits among its results.
    pub common_rows: u64,
    pub common_hits: u64,
    /// Hits among the results of filtering afterwards.
    pub naive_hits: u64,
    /// Results of the first query without a filter and with the rare one, and whether all of
    /// the latter are in the category.
    pub plain: u64,
    pub filtered: u64,
    pub all_rare: bool,
}

/// The checks of the filtered section. `rare`, `common` and `naive` are the shares as text.
pub open spec fn filtered_list(
    f: FilteredFigures,
    rare: Seq<char>,
    common: Seq<char>,
    naive: Seq<char>,
) -> Seq<(Seq<char>, bool, Seq<char>)> {
    let asked = (f.queries * f.k) as nat;
    seq![
        (
            "MODULE4 rare-filter recall vs brute-force GT ≥ 0.95"@,
            f.routed > 0 && share_holds(f.rare_hits as nat, asked, 95, SINGLE as nat),
            "recall="@ + rare + " n="@ + text::dec_text(f.rare_rows as nat),
        ),
        (
            "MODULE4 rare-filter returns a result (routed)"@,
            f.routed == f.queries,
            ""@ + text::dec_text(f.routed as nat) + "/"@ + text::dec_text(f.queries as nat),
        ),
        (
            "MODULE4 common-filter recall vs brute-force GT ≥ 0.90"@,
            share_holds(f.common_hits as nat, asked, 90, SINGLE as nat),
            "recall="@ + common + " n="@ + text::dec_text(f.common_rows as nat),
        ),
        (
            "MODULE4 routed ≥ naive post-filter recall"@,
            share_keeps_up(
                (Part { hits: f.common_hits as nat, asked }),
                (Part { hits: f.naive_hits as nat, asked }),
                20,
                SINGLE as nat,
            ),
            "routed="@ + common + " naive="@ + naive,
        ),
        (
            "MODULE4 filter predicate is honoured (all results in cat 0)"@,
            f.all_rare && f.filtered > 0,
            "plain_n="@ + text::dec_text(f.plain as nat) + " filtered_n="@ + text::dec_text(
                f.filtered as nat,
            ),
        ),
    ]
}

/// The checks of the filtered section.
pub fn filtered_checks(f: FilteredFigures, rare: &str, common: &str, naive: &str) -> (r: Vec<Check>)
    requires
        f.queries * f.k <= u64::MAX,
        f.naive_hits <= f.queries * f.k,
    ensures
        bench_report::check_views(r@) == filtered_list(f, rare@, common@, naive@),
{
    let asked: u64 = f.queries * f.k;
    let mut out: Vec<Check> = Vec::new();
    out.push(
        check_of(
            "MODULE4 rare-filter recall vs brute-force GT ≥ 0.95",
            f.routed > 0 && reaches_percent(f.rare_hits, asked, 95, SINGLE),
            two_texts("recall=", rare, " n=", dec_string(f.rare_rows).as_str()),
        ),
    );
    out.push(
        check_of(
            "MODULE4 rare-filter returns a result (routed)",
            f.routed == f.queries,
            two_counts("", f.routed, "/", f.queries),
        ),
    );
    out.push(
        check_of(
            "MODULE4 common-filter recall vs brute-force GT ≥ 0.90",
            reaches_percent(f.common_hits, asked, 90, SINGLE),
            two_texts("recall=", common, " n=", dec_string(f.common_rows).as_str()),
        ),
    );
    out.push(
        check_of(
            "MODULE4 routed ≥ naive post-filter recall",
            hits_keep_up(f.common_hits, asked, f.naive_hits, asked, 20, SINGLE),
            two_texts("routed=", common, " naive=", naive),
        ),
    );
    out.push(
        check_of(
            "MODULE4 filter predicate is honoured (all results in cat 0)",
            f.all_rare && f.filtered > 0,
            two_counts("plain_n=", f.plain, " filtered_n=", f.filtered),
        ),
    );
    proof {
        assert(bench_report::check_views(out@) =~= filtered_list(f, rare@, common@, naive@));
    }
    out
}

// ── hybrid search ─────────────────────────────────────────────────────────

/// Whether a search found a document that the dense search alone did not.
pub fn recovers(target: u64, dense: &Vec<u64>, hybrid: &Vec<u64>) -> (r: bool)
    ensures
        r == (hybrid@.contains(target) && !dense@.contains(target)),
{
    holds_id(hybrid, target) && !holds_id(dense, target)
}

pub(crate) fn holds_id(ids: &Vec<u64>, id: u64) -> (r: bool)
    ensures
        r == ids@.contains(id),
{
    let mut i: usize = 0;
    while i < ids.len()
        invariant
            i <= ids@.len(),
            forall|x: int| 0 <= x < i ==> #[trigger] ids@[x] != id,
        decreases ids@.len() - i,
    {
        if ids[i] == id {
            return true;
        }
        i = i + 1;
    }
    false
}

/// The document that the trial for document `t` asks the dense search about: one a third of
/// the corpus away.
pub fn far_document(t: usize, n: usize) -> (r: usize)
    requires
        n > 0,
        t + n / 3 <= usize::MAX,
    ensures
        r == (t + n / 3) % n as int,
{
    (t + n / 3) % n
}

/// What the hybrid section counted.
#[derive(Clone, Copy, Debug, PartialEq, Eq, Structural)]
pub struct HybridFigures {
    /// Trials, and documents that only the fusion found.
    pub trials: u64,
    pub recovered: u64,
    /// The document that is asked for by itself, and the first result of each search.
    pub probe: u64,
    pub hybrid_top: Option<u64>,
    pub dense_top: Option<u64>,
    /// Documents that either search found, and those of them that the fusion holds.
    pub either: u64,
    pub covered: u64,
}

/// The checks of the hybrid section. `tops` and `coverage` are the figures as text.
pub open spec fn hybrid_list(f: HybridFigures, tops: Seq<char>, coverage: Seq<char>) -> Seq<
    (Seq<char>, bool, Seq<char>),
> {
    seq![
        (
            "MODULE5 fusion recovers keyword-only matches dense misses"@,
            f.recovered >= 1,
            "recovered="@ + text::dec_text(f.recovered as nat) + "/"@ + text::dec_text(
                f.trials as nat,
            ),
        ),
        (
            "MODULE5 hybrid agrees with dense when both signals match (rank 0 = doc)"@,
            f.hybrid_top == Some(f.probe) && f.dense_top == Some(f.probe),
            tops,
        ),
        (
            "MODULE5 fused set covers dense∪sparse top-k (≥0.98)"@,
            share_holds(f.covered as nat, f.either as nat, 98, SINGLE as nat),
            "coverage="@ + coverage,
        ),
    ]
}

/// The checks of the hybrid section.
pub fn hybrid_checks(f: HybridFigures, tops: &str, coverage: &str) -> (r: Vec<Check>)
    ensures
        bench_report::check_views(r@) == hybrid_list(f, tops@, coverage@),
{
    let mut cov: String = "coverage=".to_owned();
    cov.append(coverage);
    let both: bool = match (f.hybrid_top, f.dense_top) {
        (Some(h), Some(d)) => h == f.probe && d == f.probe,
        _ => false,
    };
    let mut out: Vec<Check> = Vec::new();
    out.push(
        check_of(
            "MODULE5 fusion recovers keyword-only matches dense misses",
            f.recovered >= 1,
            two_counts("recovered=", f.recovered, "/", f.trials),
        ),
    );
    out.push(
        check_of(
            "MODULE5 hybrid agrees with dense when both signals match (rank 0 = doc)",
            both,
            tops.to_owned(),
        ),
    );
    out.push(
        check_of(
            "MODULE5 fused set covers dense∪sparse top-k (≥0.98)",
            reaches_percent(f.covered, f.either, 98, SINGLE),
            cov,
        ),
    );
    proof {
        assert(bench_report::check_views(out@) =~= hybrid_list(f, tops@, coverage@));
    }
    out
}

// ── storage formats face to face ──────────────────────────────────────────

/// What the comparison of storage formats measured: hits among `asked` results, the slowest
/// hundredth of the searches in nanoseconds, and which formats are smaller than bytes.
#[derive(Clone, Copy, Debug, PartialEq, Eq, Structural)]
pub struct FaceoffFigures {
    pub asked: u64,
    pub int8_hits: u64,
    pub turbo4_hits: u64,
    pub turbo2_hits: u64,
    pub turbo1_hits: u64,
    pub int8_p99_ns: u64,
    pub binary_smaller: bool,
    pub binary2_smaller: bool,
    pub turbo4_smaller: bool,
}

/// The same figures as text: shares, microseconds, and bytes per vector.
#[derive(Debug)]
pub struct FaceoffTexts {
    pub int8: String,
    pub turbo4: String,
    pub turbo2: String,
    pub turbo1: String,
    pub p99: String,
    pub int8_bytes: String,
    pub binary_bytes: String,
    pub binary2_bytes: String,
    pub turbo4_bytes: String,
}

/// The checks of the comparison.
pub open spec fn faceoff_list(f: FaceoffFigures, t: FaceoffTexts) -> Seq<
    (Seq<char>, bool, Seq<char>),
> {
    seq![
        (
            "faceoff Int8 recall@10 >= 0.9"@,
            share_holds(f.int8_hits as nat, f.asked as nat, 90, DOUBLE as nat),
            "recall="@ + t.int8@,
        ),
        (
            "faceoff p99 (Int8, 768-d) < 5ms"@,
            f.int8_p99_ns < 5_000_000,
            "p99="@ + t.p99@ + "µs"@,
        ),
        (
            "faceoff Turbo4 recall@10 >= 0.85"@,
            share_holds(f.turbo4_hits as nat, f.asked as nat, 85, DOUBLE as nat),
            "recall="@ + t.turbo4@,
        ),
        (
            "faceoff Turbo2 recall@10 >= 0.8"@,
            share_holds(f.turbo2_hits as nat, f.asked as nat, 80, DOUBLE as nat),
            "recall="@ + t.turbo2@,
        ),
        (
            "faceoff Turbo1 recall@10 >= 0.7"@,
            share_holds(f.turbo1_hits as nat, f.asked as nat, 70, DOUBLE as nat),
            "recall="@ + t.turbo1@,
        ),
        (
            "faceoff Binary2 RAM/vec < Int8 RAM/vec"@,
            f.binary2_smaller,
            "b2="@ + t.binary2_bytes@ + "B i8="@ + t.int8_bytes@ + "B"@,
        ),
        (
            "faceoff Turbo4 RAM/vec < Int8 RAM/vec"@,
            f.turbo4_smaller,
            "t4="@ + t.turbo4_bytes@ + "B i8="@ + t.int8_bytes@ + "B"@,
        ),
        (
            "faceoff Binary mode compresses vs f32"@,
            f.binary_smaller,
            "b1="@ + t.binary_bytes@ + "B i8="@ + t.int8_bytes@ + "B"@,
        ),
    ]
}

fn labelled(a: &str, x: &str) -> (r: String)
    ensures
        r@ == a@ + x@,
{
    let mut s: String = a.to_owned();
    s.append(x);
    s
}

fn sizes(a: &str, x: &str, y: &str) -> (r: String)
    ensures
        r@ == a@ + x@ + "B i8="@ + y@ + "B"@,
{
    let mut s: String = two_texts(a, x, "B i8=", y);
    s.append("B");
    s
}

/// The checks of the comparison.
pub fn faceoff_checks(f: FaceoffFigures, t: &FaceoffTexts) -> (r: Vec<Check>)
    ensures
        bench_report::check_views(r@) == faceoff_list(f, *t),
{
    let mut slow: String = labelled("p99=", t.p99.as_str());
    slow.append("µs");
    let mut out: Vec<Check> = Vec::new();
    out.push(
        check_of(
            "faceoff Int8 recall@10 >= 0.9",
            reaches_percent(f.int8_hits, f.asked, 90, DOUBLE),
            labelled("recall=", t.int8.as_str()),
        ),
    );
    out.push(check_of("faceoff p99 (Int8, 768-d) < 5ms", f.int8_p99_ns < 5_000_000, slow));
    out.push(
        check_of(
            "faceoff Turbo4 recall@10 >= 0.85",
            reaches_percent(f.turbo4_hits, f.asked, 85, DOUBLE),
            labelled("recall=", t.turbo4.as_str()),
        ),
    );
    out.push(
        check_of(
            "faceoff Turbo2 recall@10 >= 0.8",
            reaches_percent(f.turbo2_hits, f.asked, 80, DOUBLE),
            labelled("recall=", t.turbo2.as_str()),
        ),
    );
    out.push(
        check_of(
            "faceoff Turbo1 recall@10 >= 0.7",
            reaches_percent(f.turbo1_hits, f.asked, 70, DOUBLE),
            labelled("recall=", t.turbo1.as_str()),
        ),
    );
    out.push(
        check_of(
            "faceoff Binary2 RAM/vec < Int8 RAM/vec",
            f.binary2_smaller,
            sizes("b2=", t.binary2_bytes.as_str(), t.int8_bytes.as_str()),
        ),
    );
    out.push(
        check_of(
            "faceoff Turbo4 RAM/vec < Int8 RAM/vec",
            f.turbo4_smaller,
            sizes("t4=", t.turbo4_bytes.as_str(), t.int8_bytes.as_str()),
        ),
    );
    out.push(
        check_of(
            "faceoff Binary mode compresses vs f32",
            f.binary_smaller,
            sizes("b1=", t.binary_bytes.as_str(), t.int8_bytes.as_str()),
        ),
    );
    proof {
        assert(bench_report::check_views(out@) =~= faceoff_list(f, *t));
    }
    out
}

// ── a server that is killed ───────────────────────────────────────────────

/// The first key number of a round; rounds share no key.
pub fn first_key(round: u64) -> (r: u64)
    requires
        round * 100_000 <= u64::MAX,
    ensures
        r == round * 100_000,
{
    round * 100_000
}

/// The key of a number.
pub fn chaos_key(i: u64) -> (r: String)
    ensures
        r@ == "chaos:"@ + text::dec_text(i as nat),
{
    let mut s: String = "chaos:".to_owned();
    s.append(dec_string(i).as_str());
    s
}

/// Whether the header of a reply says that there is no value.
pub open spec fn no_value(h: Seq<u8>) -> bool {
    h.len() > 0 && h[0] == 36 && text::header_signed(h.skip(1)) == Some(-1int)
}

/// Counts the keys that are gone, by the headers of the replies to their reads.
pub fn count_lost(headers: &Vec<Vec<u8>>) -> (r: u64)
    ensures
        r == scan::parts(headers@).filter(|h: Seq<u8>| no_value(h)).len(),
{
    let ghost p = |h: Seq<u8>| no_value(h);
    let ghost all = scan::parts(headers@);
    let n: usize = headers.len();
    let mut lost: u64 = 0;
    let mut i: usize = 0;
    proof {
        assert(all.take(0).filter(p) =~= Seq::<Seq<u8>>::empty());
    }
    while i < n
        invariant
            p == (|h: Seq<u8>| no_value(h)),
            all == scan::parts(headers@),
            n == headers@.len(),
            i <= n,
            lost <= i,
            lost == all.take(i as int).filter(p).len(),
        decreases n - i,
    {
        proof {
            assert(all.take(i + 1) =~= all.take(i as int).push(all[i as int]));
            all.take(i as int).lemma_filter_push(all[i as int], p);
        }
        if reply_missing(headers[i].as_slice()) {
            lost = lost + 1;
        }
        i = i + 1;
    }
    proof {
        assert(all.take(i as int) =~= all);
    }
    lost
}

/// What the rounds so far have shown.
#[derive(Clone, Copy, Debug, PartialEq, Eq, Structural)]
pub struct Chaos {
    pub rounds: u64,
    pub verified: u64,
    pub lost: u64,
}

/// The line of a round.
pub open spec fn round_line(round: nat, written: nat, lost: nat) -> Seq<char> {
    "  iter "@ + layout::at_right(text::dec_text(round), 2) + ": wrote "@ + layout::at_right(
        text::dec_text(written),
        5,
    ) + " acked · after kill+reopen: "@ + text::dec_text(lost) + " lost"@
}

impl Chaos {
    /// No round yet.
    pub fn new() -> (r: Self)
        ensures
            r == (Chaos { rounds: 0, verified: 0, lost: 0 }),
    {
        Chaos { rounds: 0, verified: 0, lost: 0 }
    }

    /// Takes the outcome of a round in which the keys from `first` up to `next` were
    /// acknowledged and `lost` of them were gone, and gives its line.
    pub fn round(&mut self, first: u64, next: u64, lost: u64) -> (r: String)
        requires
            first <= next,
            old(self).rounds < u64::MAX,
            old(self).verified + (next - first) <= u64::MAX,
            old(self).lost + lost <= u64::MAX,
        ensures
            final(self).rounds == old(self).rounds + 1,
            final(self).verified == old(self).verified + (next - first),
            final(self).lost == old(self).lost + lost,
            r@ == round_line(old(self).rounds as nat, (next - first) as nat, lost as nat),
    {
        let mut s: String = "  iter ".to_owned();
        push_right(&mut s, dec_string(self.rounds).as_str(), 2);
        s.append(": wrote ");
        push_right(&mut s, dec_string(next - first).as_str(), 5);
        s.append(" acked · after kill+reopen: ");
        s.append(dec_string(lost).as_str());
        s.append(" lost");
        self.rounds = self.rounds + 1;
        self.verified = self.verified + (next - first);
        self.lost = self.lost + lost;
        s
    }

    /// The closing line.
    pub fn closing(&self) -> (r: String)
        ensures
            r@ == "  ── "@ + text::dec_text(self.rounds as nat) + " chaos iterations · "@
                + text::dec_text(self.verified as nat) + " acked writes verified · "@
                + text::dec_text(self.lost as nat) + " lost ──"@,
    {
        let mut s: String = two_counts(
            "  ── ",
            self.rounds,
            " chaos iterations · ",
            self.verified,
        );
        s.append(" acked writes verified · ");
        s.append(dec_string(self.lost).as_str());
        s.append(" lost ──");
        s
    }

    /// The check of the section: nothing that was acknowledged is lost.
    pub fn check(&self) -> (r: Check)
        ensures
            r@ == (
                "ZERO acked writes lost across all chaos iterations (Jepsen durability)"@,
                self.lost == 0,
                "lost "@ + text::dec_text(self.lost as nat) + " / "@ + text::dec_text(
                    self.verified as nat,
                ),
            ),
    {
        check_of(
            "ZERO acked writes lost across all chaos iterations (Jepsen durability)",
            self.lost == 0,
            two_counts("lost ", self.lost, " / ", self.verified),
        )
    }
}

// ── the accelerator section ───────────────────────────────────────────────

/// How much the accelerator section measures of a corpus.
#[derive(Clone, Copy, Debug, PartialEq, Eq, Structural)]
pub struct GpuBenchPlan {
    /// Queries whose true neighbours are computed.
    pub queries: usize,
    /// Queries that are timed one after another.
    pub probes: usize,
    /// Searches of all threads together.
    pub concurrent: usize,
    /// Queries of a batch.
    pub batch: usize,
    /// Searches in batches.
    pub batched: usize,
}

/// Times that each thread, and each batch, goes over its queries.
pub const ROUNDS: usize = 20;

/// Neighbours that are asked for.
pub const BENCH_K: usize = 128;

/// Plans the accelerator section for `n` rows and so many threads.
pub fn gpu_bench_plan(n: usize, cores: usize) -> (r: GpuBenchPlan)
    requires
        cores * 40_000 <= usize::MAX,
    ensures
        r.queries == (if n > 2000 {
            200
        } else {
            n
        }),
        r.probes == (if r.queries < 200 {
            r.queries
        } else {
            200
        }),
        r.concurrent == cores * ROUNDS * r.probes,
        r.batch == (if r.queries == 0 {
            1
        } else if r.queries < 256 {
            r.queries
        } else {
            256
        }),
        r.batched == ROUNDS * r.batch,
{
    let queries: usize = if n > 2000 {
        200
    } else {
        n
    };
    let probes: usize = if queries < 200 {
        queries
    } else {
        200
    };
    let batch: usize = if queries == 0 {
        1
    } else if queries < 256 {
        queries
    } else {
        256
    };
    proof {
        assert(cores * 20 * probes <= cores * 40_000 && cores * 20 <= cores * 40_000)
            by (nonlinear_arith)
            requires
                0 <= cores,
                0 <= probes <= 200,
        ;
    }
    GpuBenchPlan {
        queries,
        probes,
        concurrent: cores * ROUNDS * probes,
        batch,
        batched: ROUNDS * batch,
    }
}

// ── laws ──────────────────────────────────────────────────────────────────

/// More hits never fail where fewer hold, and a lower bar holds where a higher one does.
pub proof fn law_more_hits_hold(a: nat, b: nat, asked: nat, high: nat, low: nat, lim: nat)
    requires
        rounding::kind(lim),
        a <= b,
        low <= high,
        share_holds(a, asked, high, lim),
    ensures
        share_holds(b, asked, low, lim),
{
    rounding::lemma_quotient_grows(a, b, asked, lim);
    rounding::lemma_literal_grows(low, high, 100, lim);
}

/// No key belongs to two rounds, as long as a round writes no more keys than its range has.
pub proof fn law_rounds_share_no_key(a: int, b: int, i: int, j: int)
    requires
        a != b,
        0 <= i < 100_000,
        0 <= j < 100_000,
    ensures
        a * 100_000 + i != b * 100_000 + j,
{
}

/// A share of so many percent holds against every bar up to it and against none above.
pub proof fn law_percents_hold_up_to_their_own(p: nat, m: nat, percent: nat, lim: nat)
    requires
        rounding::kind(lim),
        m > 0,
        100 * m <= lim,
        p * m <= lim,
        p <= 1000,
        percent <= 1000,
    ensures
        share_holds(p * m, 100 * m, percent, lim) <==> p >= percent,
        !share_holds(p, 0, percent, lim),
{
    lemma_percents(p, m, lim);
    if p >= percent {
        rounding::lemma_literal_grows(percent, p, 100, lim);
    } else {
        lemma_literals_rise(p, percent, 100, lim);
    }
}

pub proof fn lemma_percents(p: nat, m: nat, lim: nat)
    requires
        rounding::kind(lim),
        m > 0,
        100 * m <= lim,
        p * m <= lim,
    ensures
        rounding::quotient(p * m, 100 * m, lim) == rounding::literal(p, 100, lim),
{
    let one = rounding::one();
    rounding::law_whole_ratios_come_out(p * m, 1, 1, lim);
    rounding::law_whole_ratios_come_out(100 * m, 1, 1, lim);
    assert((p * m) * one == (p * one) * m) by (nonlinear_arith);
    rates::lemma_common(p * one, 100, m, lim);
}

pub proof fn lemma_literals_rise(a: nat, b: nat, den: nat, lim: nat)
    requires
        rounding::kind(lim),
        0 < den <= 1000,
        a < b <= 1000,
    ensures
        rounding::literal(a, den, lim) < rounding::literal(b, den, lim),
{
    let one = rounding::one();
    let x = rounding::literal(a, den, lim);
    let y = rounding::literal(b, den, lim);
    lemma_close(a, den, lim);
    lemma_close(b, den, lim);
    let d = rounding::distance((x * den) as int, (a * one) as int);
    let e = rounding::distance((y * den) as int, (b * one) as int);
    vstd::arithmetic::power2::lemma_pow2_pos(128);
    assert((a * one) + one <= b * one) by (nonlinear_arith)
        requires
            a + 1 <= b,
            one > 0,
    ;
    assert(a * one <= 1000 * one && b * one <= 1000 * one) by (nonlinear_arith)
        requires
            a <= 1000,
            b <= 1000,
            one > 0,
    ;
    assert((d + e) * lim <= 2000 * one) by (nonlinear_arith)
        requires
            d * lim <= 1000 * one,
            e * lim <= 1000 * one,
    ;
    assert(d + e < one) by (nonlinear_arith)
        requires
            (d + e) * lim <= 2000 * one,
            lim >= 0x100_0000,
            one > 0,
            d + e >= 0,
    ;
    assert(x * den < y * den);
    assert(x < y) by (nonlinear_arith)
        requires
            x * den < y * den,
            den > 0,
    ;
}

proof fn lemma_close(a: nat, den: nat, lim: nat)
    requires
        rounding::kind(lim),
        0 < den <= 1000,
    ensures
        rounding::distance(
            (rounding::literal(a, den, lim) * den) as int,
            (a * rounding::one()) as int,
        ) * lim <= a * rounding::one(),
{
    let one = rounding::one();
    vstd::arithmetic::power2::lemma2_to64();
    vstd::arithmetic::power2::lemma_pow2_adds(64, 64);
    rounding::law_rounding_is_close(a * one, den, lim);
    if a == 0 {
        rounding::law_numbers_stay(den, lim, 0, 0);
        assert(0 * one == 0 && 0nat * vstd::arithmetic::power2::pow2(0) * den == 0 && 0nat
            * vstd::arithmetic::power2::pow2(0) == 0 && 0 * den == 0 && 0 * lim == 0)
            by (nonlinear_arith);
    } else {
        assert(a * one >= one) by (nonlinear_arith)
            requires
                a >= 1,
                one >= 0,
        ;
        assert(one >= lim * 1000);
        assert(lim * den <= lim * 1000) by (nonlinear_arith)
            requires
                den <= 1000,
                lim >= 0,
        ;
        assert((a * one) / den >= lim) by (nonlinear_arith)
            requires
                a * one >= lim * den,
                den > 0,
        ;
    }
}

/// Two shares are as far apart one way as the other; a share keeps up with every one that is no
/// larger, and agrees with itself; what is near also agrees.
pub proof fn law_shares_compare_both_ways(a: Part, b: Part, thousandths: nat, lim: nat)
    requires
        rounding::kind(lim),
        a.asked > 0,
        b.asked > 0,
    ensures
        share_gap(a, b, lim) == share_gap(b, a, lim),
        share_gap(a, a, lim) == 0,
        shares_agree(a, a, thousandths, lim),
        a.number(lim) >= b.number(lim) ==> share_keeps_up(a, b, thousandths, lim),
        shares_near(a, b, thousandths, lim) ==> shares_agree(a, b, thousandths, lim),
        shares_near(a, b, thousandths, lim) == shares_near(b, a, thousandths, lim),
        shares_agree(a, b, thousandths, lim) == shares_agree(b, a, thousandths, lim),
        !shares_near(a, a, 0, lim),
{
    rounding::lemma_whole(a.asked, lim);
    let num = rounding::whole(a.hits, lim) * rounding::one();
    rounding::law_rounded_is_a_number(num, rounding::whole(a.asked, lim), lim);
    let (m, e) = choose|m: nat, e: nat| #[trigger] rounding::is_number(a.number(lim), m, e, lim);
    rounding::law_apart_is_symmetric(
        m,
        e,
        a.number(lim),
        b.number(lim),
        rounding::literal(thousandths, 1000, lim),
        lim,
    );
    rounding::law_apart_is_symmetric(m, e, a.number(lim), a.number(lim), 0, lim);
    lemma_close(0, 1000, lim);
    let z = rounding::literal(0, 1000, lim);
    assert(z == 0) by (nonlinear_arith)
        requires
            rounding::distance((z * 1000) as int, (0 * rounding::one()) as int) * lim <= 0
                * rounding::one(),
            lim > 0,
            z >= 0,
    ;
}

/// The filtered section demands ninety-five percent of the rare and ninety of the common, an answer
/// to every query, and results of the rare category alone.
pub proof fn law_filtered_section_demands(
    f: FilteredFigures,
    rare: Seq<char>,
    common: Seq<char>,
    naive: Seq<char>,
    p: nat,
    q: nat,
    m: nat,
)
    requires
        m > 0,
        f.queries * f.k == 100 * m,
        100 * m <= SINGLE,
        f.rare_hits == p * m,
        f.common_hits == q * m,
        p <= 100,
        q <= 100,
    ensures
        ({
            let l = filtered_list(f, rare, common, naive);
            &&& l.len() == 5
            &&& l[0].1 <==> p >= 95 && f.routed > 0
            &&& l[1].1 <==> f.routed == f.queries
            &&& l[2].1 <==> q >= 90
            &&& f.naive_hits == f.common_hits ==> l[3].1
            &&& l[4].1 <==> f.all_rare && f.filtered > 0
        }),
{
    assert(p * m <= 100 * m && q * m <= 100 * m) by (nonlinear_arith)
        requires
            p <= 100,
            q <= 100,
    ;
    law_percents_hold_up_to_their_own(p, m, 95, SINGLE as nat);
    law_percents_hold_up_to_their_own(q, m, 90, SINGLE as nat);
    let part = Part { hits: f.common_hits as nat, asked: (f.queries * f.k) as nat };
    law_shares_compare_both_ways(part, part, 20, SINGLE as nat);
}

/// The hybrid section demands that the fusion finds something more, that both searches put the
/// document itself first, and that the fusion holds ninety-eight percent of what either found.
pub proof fn law_hybrid_section_demands(
    f: HybridFigures,
    tops: Seq<char>,
    coverage: Seq<char>,
    p: nat,
    m: nat,
)
    requires
        m > 0,
        f.either == 100 * m,
        100 * m <= SINGLE,
        f.covered == p * m,
        p <= 100,
    ensures
        ({
            let l = hybrid_list(f, tops, coverage);
            &&& l.len() == 3
            &&& l[0].1 <==> f.recovered > 0
            &&& l[1].1 <==> f.hybrid_top == Some(f.probe) && f.dense_top == f.hybrid_top
            &&& l[2].1 <==> p >= 98
        }),
{
    assert(p * m <= 100 * m) by (nonlinear_arith)
        requires
            p <= 100,
    ;
    law_percents_hold_up_to_their_own(p, m, 98, SINGLE as nat);
}

/// The comparison of formats demands ninety, eighty-five, eighty and seventy percent of them in
/// turn, five milliseconds at most, and that the small formats are smaller.
pub proof fn law_faceoff_demands(f: FaceoffFigures, t: FaceoffTexts, p: nat, m: nat)
    requires
        m > 0,
        f.asked == 100 * m,
        100 * m <= DOUBLE,
        p <= 100,
    ensures
        ({
            let l = faceoff_list(f, t);
            &&& l.len() == 8
            &&& f.int8_hits == p * m ==> (l[0].1 <==> p >= 90)
            &&& l[1].1 <==> f.int8_p99_ns < 5 * 1_000_000
            &&& f.turbo4_hits == p * m ==> (l[2].1 <==> p >= 85)
            &&& f.turbo2_hits == p * m ==> (l[3].1 <==> p >= 80)
            &&& f.turbo1_hits == p * m ==> (l[4].1 <==> p >= 70)
            &&& l[5].1 == f.binary2_smaller && l[6].1 == f.turbo4_smaller && l[7].1
                == f.binary_smaller
        }),
{
    assert(p * m <= 100 * m) by (nonlinear_arith)
        requires
            p <= 100,
    ;
    law_percents_hold_up_to_their_own(p, m, 90, DOUBLE as nat);
    law_percents_hold_up_to_their_own(p, m, 85, DOUBLE as nat);
    law_percents_hold_up_to_their_own(p, m, 80, DOUBLE as nat);
    law_percents_hold_up_to_their_own(p, m, 70, DOUBLE as nat);
}

/// A reply of length -1 has no value, and one of any length that can be has one.
pub proof fn law_missing_values_are_told(n: nat, b: u8)
    requires
        n <= i64::MAX,
        b != 36,
    ensures
        no_value(seq![36u8] + text::dec_signed(-1)),
        !no_value(seq![36u8] + text::dec_signed(n as int)),
        !no_value(seq![b] + text::dec_signed(-1)),
        !no_value(Seq::empty()),
{
    text::law_signed_round_trip(-1);
    text::law_signed_round_trip(n as int);
    assert((seq![36u8] + text::dec_signed(-1)).skip(1) =~= text::dec_signed(-1));
    assert((seq![36u8] + text::dec_signed(n as int)).skip(1) =~= text::dec_signed(n as int));
}

} // verus!
