//! The time-series dashboard: windows, summaries and sparklines.
use crate::layout;
use crate::layout::{push_left, push_right};
use crate::reply::Reply;
use crate::rounding;
use crate::rounding::sevenths_of;
use crate::text;
use crate::text::{dec_string, signed_string};
use vstd::prelude::*;
use vstd::string::*;

verus! {

// ── windows ───────────────────────────────────────────────────────────────

/// The values of the first `n` pairs of a reply that holds times and values in turn.
/// A value that is no number is left out.
pub open spec fn pair_values(a: Seq<Reply>, n: int) -> Seq<i64>
    decreases n,
{
    if n <= 0 {
        Seq::empty()
    } else {
        match a[2 * n - 1] {
            Reply::Int(v) => pair_values(a, n - 1).push(v),
            _ => pair_values(a, n - 1),
        }
    }
}

/// The samples that a window shows.
pub const WINDOW_SAMPLES: usize = 60;

/// The last `n` values, or all of them.
pub open spec fn latest(s: Seq<i64>, n: nat) -> Seq<i64> {
    if n < s.len() {
        s.skip(s.len() - n)
    } else {
        s
    }
}

fn read_values(r: &Reply) -> (out: Vec<i64>)
    ensures
        out@ == (match *r {
            Reply::Array(a) => pair_values(a@, (a@.len() / 2) as int),
            _ => Seq::empty(),
        }),
{
    let mut out: Vec<i64> = Vec::new();
    match r {
        Reply::Array(a) => {
            let size: usize = a.len();
            let n: usize = size / 2;
            let mut i: usize = 0;
            while i < n
                invariant
                    i <= n,
                    2 * n <= size == a@.len(),
                    out@ == pair_values(a@, i as int),
                decreases n - i,
            {
                if let Some(v) = a[2 * i + 1].as_int() {
                    out.push(v);
                }
                i = i + 1;
            }
        },
        _ => {},
    }
    out
}

/// The window that a reply to a range query gives: the last sixty of its values.
pub fn read_window(r: &Reply) -> (out: Vec<i64>)
    ensures
        out@ == latest(
            match *r {
                Reply::Array(a) => pair_values(a@, (a@.len() / 2) as int),
                _ => Seq::empty(),
            },
            WINDOW_SAMPLES as nat,
        ),
        out@.len() <= WINDOW_SAMPLES,
{
    let all: Vec<i64> = read_values(r);
    let size: usize = all.len();
    let from: usize = if size > WINDOW_SAMPLES {
        size - WINDOW_SAMPLES
    } else {
        0
    };
    let mut out: Vec<i64> = Vec::new();
    let mut i: usize = from;
    while i < size
        invariant
            from <= i <= size == all@.len(),
            out@ == all@.subrange(from as int, i as int),
        decreases size - i,
    {
        out.push(all[i]);
        i = i + 1;
        proof {
            assert(out@ =~= all@.subrange(from as int, i as int));
        }
    }
    proof {
        assert(out@ =~= latest(all@, WINDOW_SAMPLES as nat));
    }
    out
}

/// Where a window that ends at `now` begins: thirty seconds before.
pub fn window_start(now_ms: u64) -> (r: u64)
    ensures
        r == (if now_ms >= 30_000 {
            now_ms - 30_000
        } else {
            0
        }),
{
    if now_ms >= 30_000 {
        now_ms - 30_000
    } else {
        0
    }
}

/// The range that the `i`-th query of a measured run asks for: a thousand points, moving on
/// by a hundred and starting over at the end.
pub fn bench_window(i: u64, n_points: u64) -> (r: (u64, u64))
    requires
        n_points >= 1000,
        i * 100 <= u64::MAX,
    ensures
        r.0 == (i * 100) % (if n_points > 1000 {
            n_points - 1000
        } else {
            1
        }),
        r.1 == r.0 + 1000,
{
    let span: u64 = if n_points > 1000 {
        n_points - 1000
    } else {
        1
    };
    let from: u64 = (i * 100) % span;
    (from, from + 1000)
}

// ── sparklines ────────────────────────────────────────────────────────────

pub open spec fn least(s: Seq<i64>, n: int) -> int
    decreases n,
{
    if n <= 1 {
        s[0] as int
    } else if s[n - 1] < least(s, n - 1) {
        s[n - 1] as int
    } else {
        least(s, n - 1)
    }
}

pub open spec fn greatest(s: Seq<i64>, n: int) -> int
    decreases n,
{
    if n <= 1 {
        s[0] as int
    } else if s[n - 1] > greatest(s, n - 1) {
        s[n - 1] as int
    } else {
        greatest(s, n - 1)
    }
}

proof fn lemma_bounds(s: Seq<i64>, n: int)
    requires
        1 <= n <= s.len(),
    ensures
        forall|i: int| 0 <= i < n ==> least(s, n) <= #[trigger] s[i] <= greatest(s, n),
        exists|i: int| 0 <= i < n && #[trigger] s[i] == least(s, n),
        exists|i: int| 0 <= i < n && #[trigger] s[i] == greatest(s, n),
    decreases n,
{
    if n == 1 {
        assert(s[0] == least(s, 1));
    } else {
        lemma_bounds(s, n - 1);
        let p = choose|i: int| 0 <= i < n - 1 && #[trigger] s[i] == least(s, n - 1);
        let q = choose|i: int| 0 <= i < n - 1 && #[trigger] s[i] == greatest(s, n - 1);
        assert(s[p] == least(s, n) || s[n - 1] == least(s, n));
        assert(s[q] == greatest(s, n) || s[n - 1] == greatest(s, n));
    }
}

/// Whether the differences of the values fit in an `i64`.
pub open spec fn spans_fit(s: Seq<i64>) -> bool {
    forall|i: int, j: int|
        0 <= i < s.len() && 0 <= j < s.len() ==> i64::MIN <= #[trigger] s[i] - #[trigger] s[j]
            <= i64::MAX
}

/// The span of a series, at least 1.
pub open spec fn span_of(lo: int, hi: int) -> nat {
    if hi - lo > 1 {
        (hi - lo) as nat
    } else {
        1
    }
}

/// The height of a value between the least and the greatest, in whole sevenths. Differences,
/// their quotient and its sevenfold each have 53 significant bits.
pub open spec fn height(v: int, lo: int, hi: int) -> int {
    rounding::sevenths((v - lo) as nat, span_of(lo, hi)) as int
}

/// The mark of a height.
pub open spec fn mark(h: int) -> char {
    if h <= 0 {
        '▁'
    } else if h == 1 {
        '▂'
    } else if h == 2 {
        '▃'
    } else if h == 3 {
        '▄'
    } else if h == 4 {
        '▅'
    } else if h == 5 {
        '▆'
    } else if h == 6 {
        '▇'
    } else {
        '█'
    }
}

/// The marks of a series, one for each value.
pub open spec fn marks(s: Seq<i64>) -> Seq<char> {
    Seq::new(
        s.len(),
        |i: int|
            mark(height(s[i] as int, least(s, s.len() as int), greatest(s, s.len() as int))),
    )
}

/// The sparkline of a series.
pub open spec fn spark(s: Seq<i64>) -> Seq<char> {
    if s.len() == 0 {
        "(no data)"@
    } else {
        marks(s)
    }
}

fn push_mark(out: &mut String, h: u64)
    ensures
        final(out)@ == old(out)@.push(mark(h as int)),
{
    proof {
        reveal_strlit("▁");
        reveal_strlit("▂");
        reveal_strlit("▃");
        reveal_strlit("▄");
        reveal_strlit("▅");
        reveal_strlit("▆");
        reveal_strlit("▇");
        reveal_strlit("█");
    }
    let t: &str = if h == 0 {
        "▁"
    } else if h == 1 {
        "▂"
    } else if h == 2 {
        "▃"
    } else if h == 3 {
        "▄"
    } else if h == 4 {
        "▅"
    } else if h == 5 {
        "▆"
    } else if h == 6 {
        "▇"
    } else {
        "█"
    };
    out.append(t);
    proof {
        assert(t@ =~= seq![mark(h as int)]);
        assert(out@ =~= old(out)@.push(mark(h as int)));
    }
}

fn bounds(s: &Vec<i64>) -> (r: (i64, i64))
    requires
        s@.len() > 0,
    ensures
        r.0 == least(s@, s@.len() as int),
        r.1 == greatest(s@, s@.len() as int),
{
    let n: usize = s.len();
    let mut lo: i64 = s[0];
    let mut hi: i64 = s[0];
    let mut i: usize = 1;
    while i < n
        invariant
            1 <= i <= n == s@.len(),
            lo == least(s@, i as int),
            hi == greatest(s@, i as int),
        decreases n - i,
    {
        let v: i64 = s[i];
        if v < lo {
            lo = v;
        }
        if v > hi {
            hi = v;
        }
        i = i + 1;
    }
    (lo, hi)
}

/// Draws the sparkline of a series.
pub fn sparkline(values: &Vec<i64>) -> (r: String)
    requires
        spans_fit(values@),
    ensures
        r@ == spark(values@),
{
    let n: usize = values.len();
    if n == 0 {
        return "(no data)".to_owned();
    }
    let (lo, hi) = bounds(values);
    proof {
        lemma_bounds(values@, n as int);
        let p = choose|i: int| 0 <= i < n && #[trigger] values@[i] == lo;
        let q = choose|i: int| 0 <= i < n && #[trigger] values@[i] == hi;
        assert(values@[q] - values@[p] <= i64::MAX);
    }
    let span: i64 = if hi - lo > 1 {
        hi - lo
    } else {
        1
    };
    let mut out = String::new();
    let mut i: usize = 0;
    proof {
        assert(out@ =~= marks(values@).take(0));
    }
    while i < n
        invariant
            i <= n == values@.len(),
            span > 0,
            lo == least(values@, n as int),
            hi == greatest(values@, n as int),
            span == span_of(lo as int, hi as int),
            hi - lo <= i64::MAX,
            forall|j: int| 0 <= j < n ==> lo <= #[trigger] values@[j] <= hi,
            out@ == marks(values@).take(i as int),
        decreases n - i,
    {
        let h: u64 = sevenths_of((values[i] - lo) as u64, span as u64);
        push_mark(&mut out, h);
        proof {
            assert(marks(values@).take(i + 1) =~= marks(values@).take(i as int).push(
                marks(values@)[i as int],
            ));
        }
        i = i + 1;
    }
    proof {
        assert(marks(values@).take(n as int) =~= marks(values@));
    }
    out
}

// ── summaries ─────────────────────────────────────────────────────────────

/// The sum of the first `n` values.
pub open spec fn sum_of(s: Seq<i64>, n: int) -> int
    decreases n,
{
    if n <= 0 {
        0
    } else {
        sum_of(s, n - 1) + s[n - 1]
    }
}

/// Whether the running sums of the values fit in an `i64`.
pub open spec fn sums_fit(s: Seq<i64>) -> bool {
    forall|n: int| 0 <= n <= s.len() ==> i64::MIN <= #[trigger] sum_of(s, n) <= i64::MAX
}

/// Division that rounds towards zero.
pub open spec fn toward_zero(a: int, b: int) -> int {
    if a >= 0 {
        a / b
    } else {
        -((-a) / b)
    }
}

/// What a row of the dashboard shows of a series.
#[derive(Clone, Copy, Debug, PartialEq, Eq, Structural)]
pub struct Summary {
    pub cur: i64,
    pub delta: i64,
    pub min: i64,
    pub max: i64,
    pub avg: i64,
}

/// The summary of a series: its last value and how far it is from the one before, the least,
/// the greatest and the mean. All are 0 for an empty series.
pub open spec fn summary_of(s: Seq<i64>) -> Summary {
    let n = s.len() as int;
    if n == 0 {
        Summary { cur: 0, delta: 0, min: 0, max: 0, avg: 0 }
    } else {
        Summary {
            cur: s[n - 1],
            delta: (s[n - 1] - (if n >= 2 {
                s[n - 2]
            } else {
                s[0]
            })) as i64,
            min: least(s, n) as i64,
            max: greatest(s, n) as i64,
            avg: toward_zero(sum_of(s, n), n) as i64,
        }
    }
}

/// Sums up a series.
pub fn summarize(s: &Vec<i64>) -> (r: Summary)
    requires
        spans_fit(s@),
        sums_fit(s@),
    ensures
        r == summary_of(s@),
{
    let n: usize = s.len();
    if n == 0 {
        return Summary { cur: 0, delta: 0, min: 0, max: 0, avg: 0 };
    }
    let (lo, hi) = bounds(s);
    let cur: i64 = s[n - 1];
    let prev: i64 = if n >= 2 {
        s[n - 2]
    } else {
        s[0]
    };
    let mut sum: i64 = 0;
    let mut i: usize = 0;
    while i < n
        invariant
            i <= n == s@.len(),
            sums_fit(s@),
            sum == sum_of(s@, i as int),
        decreases n - i,
    {
        assert(i64::MIN <= sum_of(s@, i + 1) <= i64::MAX);
        sum = sum + s[i];
        i = i + 1;
    }
    let wide: i128 = sum as i128;
    let by: i128 = n as i128;
    let avg: i128 = if wide >= 0 {
        wide / by
    } else {
        -((-wide) / by)
    };
    proof {
        let a: int = if wide >= 0 {
            wide as int
        } else {
            -wide as int
        };
        let b = n as int;
        assert(0 <= a / b <= a) by (nonlinear_arith)
            requires
                a >= 0,
                b >= 1,
        ;
    }
    Summary { cur, delta: cur - prev, min: lo, max: hi, avg: avg as i64 }
}

/// A number with its sign.
pub open spec fn with_sign(n: int) -> Seq<char> {
    if n >= 0 {
        "+"@ + text::signed_text(n)
    } else {
        text::signed_text(n)
    }
}

/// The arrow of a change.
pub open spec fn arrow(delta: int) -> Seq<char> {
    if delta > 0 {
        "\x1b[32m▲\x1b[0m"@
    } else if delta < 0 {
        "\x1b[31m▼\x1b[0m"@
    } else {
        " "@
    }
}

/// The row of a series.
pub open spec fn row_of(name: Seq<char>, x: Summary, line: Seq<char>) -> Seq<char> {
    "  "@ + layout::at_left(name, 4) + "  cur="@ + layout::at_right(
        text::signed_text(x.cur as int),
        6,
    ) + "  "@ + arrow(x.delta as int) + layout::at_right(with_sign(x.delta as int), 4) + "   min="@
        + layout::at_right(text::signed_text(x.min as int), 5) + "  avg="@ + layout::at_right(
        text::signed_text(x.avg as int),
        5,
    ) + "  max="@ + layout::at_right(text::signed_text(x.max as int), 5) + "    "@ + line
}

fn signed_mark(n: i64) -> (r: String)
    ensures
        r@ == with_sign(n as int),
{
    if n >= 0 {
        let mut s: String = "+".to_owned();
        s.append(signed_string(n).as_str());
        s
    } else {
        signed_string(n)
    }
}

/// Renders the row of a series.
pub fn render_row(name: &str, series: &Vec<i64>) -> (r: String)
    requires
        spans_fit(series@),
        sums_fit(series@),
    ensures
        r@ == row_of(name@, summary_of(series@), spark(series@)),
{
    let x = summarize(series);
    let mut s: String = "  ".to_owned();
    push_left(&mut s, name, 4);
    s.append("  cur=");
    push_right(&mut s, signed_string(x.cur).as_str(), 6);
    s.append("  ");
    if x.delta > 0 {
        s.append("\x1b[32m▲\x1b[0m");
    } else if x.delta < 0 {
        s.append("\x1b[31m▼\x1b[0m");
    } else {
        s.append(" ");
    }
    push_right(&mut s, signed_mark(x.delta).as_str(), 4);
    s.append("   min=");
    push_right(&mut s, signed_string(x.min).as_str(), 5);
    s.append("  avg=");
    push_right(&mut s, signed_string(x.avg).as_str(), 5);
    s.append("  max=");
    push_right(&mut s, signed_string(x.max).as_str(), 5);
    s.append("    ");
    s.append(sparkline(series).as_str());
    s
}

/// The line that ends a run.
pub fn closing_line(samples: u64, series: u64, seconds: u64) -> (r: String)
    requires
        samples * series <= u64::MAX,
    ensures
        r@ == "✓ wrote "@ + text::dec_text(samples as nat) + " samples per series ("@
            + text::dec_text((samples * series) as nat) + " total) over "@ + text::dec_text(
            seconds as nat,
        ) + "s"@,
{
    let mut s: String = "✓ wrote ".to_owned();
    s.append(dec_string(samples).as_str());
    s.append(" samples per series (");
    s.append(dec_string(samples * series).as_str());
    s.append(" total) over ");
    s.append(dec_string(seconds).as_str());
    s.append("s");
    s
}

// ── laws ──────────────────────────────────────────────────────────────────

proof fn lemma_height(v: int, lo: int, hi: int)
    requires
        lo <= v <= hi,
    ensures
        0 <= height(v, lo, hi) <= 7,
        v == lo ==> height(v, lo, hi) == 0,
        v == hi && lo < hi ==> height(v, lo, hi) == 7,
{
    let d = span_of(lo, hi);
    rounding::lemma_sevenths_ends(d);
    rounding::lemma_sevenths_grow((v - lo) as nat, d, d);
}

/// A sparkline has one mark for each value, the lowest mark for the least values, and the
/// highest for the greatest where they differ.
pub proof fn law_sparkline_spans_the_values(s: Seq<i64>, i: int)
    requires
        0 <= i < s.len(),
    ensures
        spark(s).len() == s.len(),
        s[i] == least(s, s.len() as int) ==> spark(s)[i] == '▁',
        s[i] == greatest(s, s.len() as int) && least(s, s.len() as int) < greatest(
            s,
            s.len() as int,
        ) ==> spark(s)[i] == '█',
{
    lemma_bounds(s, s.len() as int);
    lemma_height(s[i] as int, least(s, s.len() as int), greatest(s, s.len() as int));
}

/// A greater value never stands lower.
pub proof fn law_sparkline_keeps_order(s: Seq<i64>, i: int, j: int)
    requires
        0 <= i < s.len(),
        0 <= j < s.len(),
        s[i] <= s[j],
    ensures
        height(s[i] as int, least(s, s.len() as int), greatest(s, s.len() as int)) <= height(
            s[j] as int,
            least(s, s.len() as int),
            greatest(s, s.len() as int),
        ),
{
    let lo = least(s, s.len() as int);
    let hi = greatest(s, s.len() as int);
    lemma_bounds(s, s.len() as int);
    rounding::lemma_sevenths_grow((s[i] - lo) as nat, (s[j] - lo) as nat, span_of(lo, hi));
}

/// The current value, the least, the mean and the greatest of a series stand in order.
pub proof fn law_summary_is_ordered(s: Seq<i64>)
    requires
        s.len() > 0,
        spans_fit(s),
        sums_fit(s),
    ensures
        summary_of(s).min <= summary_of(s).cur <= summary_of(s).max,
        summary_of(s).min <= summary_of(s).avg <= summary_of(s).max,
{
    let n = s.len() as int;
    lemma_bounds(s, n);
    let lo = least(s, n);
    let hi = greatest(s, n);
    lemma_sum_bounds(s, n, lo, hi);
    let t = sum_of(s, n);
    assert(i64::MIN <= sum_of(s, n) <= i64::MAX);
    assert(lo <= toward_zero(t, n) <= hi) by {
        if t >= 0 {
            assert(t / n <= hi) by (nonlinear_arith)
                requires
                    t <= n * hi,
                    n > 0,
            ;
            assert(lo <= t / n) by (nonlinear_arith)
                requires
                    n * lo <= t,
                    n > 0,
            ;
        } else {
            let m = -t;
            assert(n * (-lo) == -(n * lo)) by (nonlinear_arith);
            assert(n * (-hi) == -(n * hi)) by (nonlinear_arith);
            assert(m / n <= -lo) by (nonlinear_arith)
                requires
                    m <= n * (-lo),
                    n > 0,
            ;
            assert(-hi <= m / n) by (nonlinear_arith)
                requires
                    n * (-hi) <= m,
                    n > 0,
            ;
        }
    }
}

proof fn lemma_sum_bounds(s: Seq<i64>, n: int, lo: int, hi: int)
    requires
        0 <= n <= s.len(),
        forall|i: int| 0 <= i < n ==> lo <= #[trigger] s[i] <= hi,
    ensures
        n * lo <= sum_of(s, n) <= n * hi,
    decreases n,
{
    if n > 0 {
        lemma_sum_bounds(s, n - 1, lo, hi);
        assert((n - 1) * lo + lo == n * lo) by (nonlinear_arith);
        assert((n - 1) * hi + hi == n * hi) by (nonlinear_arith);
        assert(lo <= s[n - 1] <= hi);
    } else {
        assert(n * lo == 0 && n * hi == 0) by (nonlinear_arith)
            requires
                n == 0,
        ;
    }
}

/// The value that a reply holds, if it is a number.
pub open spec fn number_in(r: Reply) -> Option<i64> {
    match r {
        Reply::Int(v) => Some(v),
        _ => None,
    }
}

/// The values are those behind the times: every second reply that is a number, in their order.
pub proof fn law_values_follow_their_times(a: Seq<Reply>, n: int)
    requires
        n >= 0,
    ensures
        pair_values(a, n) == Seq::new(n as nat, |i: int| a[2 * i + 1]).filter_map(
            |r: Reply| number_in(r),
        ),
    decreases n,
{
    reveal(Seq::filter_map);
    let f = |r: Reply| number_in(r);
    let s = Seq::new(n as nat, |i: int| a[2 * i + 1]);
    if n > 0 {
        law_values_follow_their_times(a, n - 1);
        assert(s.drop_last() =~= Seq::new((n - 1) as nat, |i: int| a[2 * i + 1]));
        assert(s.last() == a[2 * n - 1]);
    } else {
        assert(s =~= Seq::<Reply>::empty());
    }
}

/// A window is the end of the values: as many as it shows, or all of them.
pub proof fn law_windows_show_the_end(s: Seq<i64>, n: nat)
    ensures
        latest(s, n).is_suffix_of(s),
        latest(s, n).len() == (if n < s.len() {
            n
        } else {
            s.len()
        }),
{
    let l = latest(s, n);
    assert(l =~= s.subrange((s.len() - l.len()) as int, s.len() as int));
}

/// The least and the greatest of a series are values of it, and no value lies outside of them.
pub proof fn law_bounds_are_reached(s: Seq<i64>, n: int, x: int)
    requires
        0 < n <= s.len(),
        0 <= x < n,
    ensures
        least(s, n) <= s[x] <= greatest(s, n),
        exists|i: int| 0 <= i < n && #[trigger] s[i] == least(s, n),
        exists|i: int| 0 <= i < n && #[trigger] s[i] == greatest(s, n),
    decreases n,
{
    if n > 1 {
        law_bounds_are_reached(s, n - 1, if x < n - 1 {
            x
        } else {
            0
        });
        let i = choose|i: int| 0 <= i < n - 1 && #[trigger] s[i] == least(s, n - 1);
        let j = choose|j: int| 0 <= j < n - 1 && #[trigger] s[j] == greatest(s, n - 1);
        assert(s[i] == least(s, n - 1) && s[j] == greatest(s, n - 1));
        assert(s[n - 1] == s[n - 1]);
    } else {
        assert(s[0] == least(s, n));
    }
}

/// The marks rise by one step of the block for each height.
pub proof fn law_marks_rise_with_the_height(h: int)
    requires
        0 <= h <= 7,
    ensures
        mark(h) as int == 0x2581 + h,
{
}

/// One more value adds itself to the sum; the quotient that the mean is takes as often the
/// divisor as fits, on the side of zero.
pub proof fn law_sums_and_means(s: Seq<i64>, x: i64, a: int, b: int)
    requires
        b > 0,
    ensures
        sum_of(Seq::empty(), 0) == 0,
        sum_of(s.push(x), s.len() as int + 1) == sum_of(s, s.len() as int) + x,
        a >= 0 ==> 0 <= a - b * toward_zero(a, b) < b,
        a <= 0 ==> 0 <= b * toward_zero(a, b) - a < b,
{
    lemma_sum_front(s, s.push(x), s.len() as int);
    let m = if a >= 0 {
        a
    } else {
        -a
    };
    let q = m / b;
    assert(0 <= m - b * q < b) by (nonlinear_arith)
        requires
            q == m / b,
            b > 0,
    ;
    assert(b * (-q) == -(b * q)) by (nonlinear_arith);
}

proof fn lemma_sum_front(s: Seq<i64>, t: Seq<i64>, n: int)
    requires
        n <= s.len() <= t.len(),
        forall|i: int| 0 <= i < s.len() ==> s[i] == #[trigger] t[i],
    ensures
        sum_of(s, n) == sum_of(t, n),
    decreases n,
{
    if n > 0 {
        lemma_sum_front(s, t, n - 1);
    }
}

/// The current value is the last, and the change is how far it has come from the one before.
pub proof fn law_change_is_since_the_last(s: Seq<i64>, before: i64, now: i64)
    requires
        i64::MIN <= now - before <= i64::MAX,
    ensures
        summary_of(s.push(before).push(now)).cur == now,
        before + summary_of(s.push(before).push(now)).delta == now,
        summary_of(seq![now]).delta == 0,
{
}

/// A change that is not below zero is shown with a plus in front of its number, and another with the
/// minus that its number has; a rise, a fall and neither have arrows of their own.
pub proof fn law_changes_show_their_sign(n: int, m: int)
    ensures
        n >= 0 ==> with_sign(n) == seq!['+'] + text::signed_text(n),
        n < 0 ==> with_sign(n) == text::signed_text(n),
        (arrow(n) == arrow(m)) <==> (n > 0 <==> m > 0) && (n < 0 <==> m < 0),
{
    reveal_strlit("+");
    reveal_strlit("\x1b[32m▲\x1b[0m");
    reveal_strlit("\x1b[31m▼\x1b[0m");
    reveal_strlit(" ");
    assert("+"@ =~= seq!['+']);
    assert("\x1b[32m▲\x1b[0m"@[3] == '2');
    assert("\x1b[31m▼\x1b[0m"@[3] == '1');
    assert(" "@.len() == 1);
}

} // verus!
