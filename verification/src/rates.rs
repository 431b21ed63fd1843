//! Work over time, by nearest numbers: seconds, rates, and how many times as long one stretch is
//! as another.
use crate::rounding;
use crate::rounding::{at_least, literal_of, nearest, ratio, ratio_at, widened, Binary, DOUBLE};
use vstd::arithmetic::div_mod;
use vstd::arithmetic::power2::*;
use vstd::prelude::*;

verus! {

/// The seconds that so many nanoseconds make: the whole seconds, and the nearest number to the
/// rest, by the nearest number to their sum.
pub open spec fn seconds(nanos: nat) -> nat {
    rounding::rounded(
        (nanos / 1_000_000_000) * rounding::one() + rounding::literal(
            nanos % 1_000_000_000,
            1_000_000_000,
            DOUBLE as nat,
        ),
        1,
        DOUBLE as nat,
    )
}

/// So many pieces of work over the seconds that they took.
pub open spec fn per_second(count: nat, nanos: nat) -> nat {
    rounding::rounded((rounding::whole(count, DOUBLE as nat) * rounding::one()) * rounding::one(), seconds(nanos), DOUBLE as nat)
}

/// How many times one stretch of time holds another.
pub open spec fn times_as_long(a: nat, b: nat) -> nat {
    rounding::rounded(seconds(a) * rounding::one(), seconds(b), DOUBLE as nat)
}

/// A factor that both parts of a ratio have changes nothing.
pub proof fn lemma_common(num: nat, den: nat, p: nat, lim: nat)
    requires
        rounding::kind(lim),
        den > 0,
        p > 0,
    ensures
        rounding::rounded(num * p, den * p, lim) == rounding::rounded(num, den, lim),
{
    assert(num * p == p * num && den * p == p * den) by (nonlinear_arith);
    div_mod::lemma_div_multiples_vanish_quotient(p as int, num as int, den as int);
    assert((num * p) / (den * p) == num / den);
    rounding::lemma_parts(num, den, lim);
    let space = rounding::spacing(num / den, lim);
    let unit = den * space;
    let q = num / unit;
    let rest = num % unit;
    let wide = (den * p) * space;
    assert(wide == unit * p) by (nonlinear_arith)
        requires
            wide == (den * p) * space,
            unit == den * space,
    ;
    assert(num * p == q * wide + rest * p && 0 <= rest * p < wide) by (nonlinear_arith)
        requires
            num == unit * q + rest,
            wide == unit * p,
            0 <= rest < unit,
            p > 0,
    ;
    div_mod::lemma_fundamental_div_mod_converse(
        (num * p) as int,
        wide as int,
        q as int,
        (rest * p) as int,
    );
    assert((2 * (rest * p) > wide) == (2 * rest > unit) && (2 * (rest * p) == wide) == (2 * rest
        == unit)) by (nonlinear_arith)
        requires
            wide == unit * p,
            p > 0,
    ;
}

/// What is left of a second is less than one, by its nearest number too.
proof fn lemma_fraction(sub: nat)
    requires
        sub < 1_000_000_000,
    ensures
        rounding::literal(sub, 1_000_000_000, DOUBLE as nat) <= rounding::one(),
        sub > 0 ==> rounding::literal(sub, 1_000_000_000, DOUBLE as nat) > 0,
{
    let lim = DOUBLE as nat;
    let den: nat = 1_000_000_000;
    rounding::lemma_literal_grows(sub, den, den, lim);
    rounding::lemma_one(den, lim);
    if sub > 0 {
        rounding::lemma_large_powers();
        rounding::lemma_literal_grows(1, sub, den, lim);
        let num = 1 * rounding::one();
        assert(num == 0x1_0000_0000_0000_0000 * 0x1_0000_0000_0000_0000);
        rounding::lemma_parts(num, den, lim);
        let space = rounding::spacing(num / den, lim);
        let q = num / (den * space);
        assert(num / den >= lim);
        assert(q * space >= 1) by (nonlinear_arith)
            requires
                q >= 1,
                space >= 1,
        ;
    }
}

/// Time that has passed makes some seconds.
proof fn lemma_seconds(nanos: nat)
    requires
        nanos > 0,
    ensures
        seconds(nanos) > 0,
{
    let sub = nanos % 1_000_000_000;
    let secs = nanos / 1_000_000_000;
    lemma_fraction(sub);
    lemma_pow2_pos(128);
    let sum = secs * rounding::one() + rounding::literal(sub, 1_000_000_000, DOUBLE as nat);
    assert(sum > 0) by {
        if secs > 0 {
            assert(secs * rounding::one() > 0) by (nonlinear_arith)
                requires
                    secs > 0,
                    rounding::one() > 0,
            ;
        } else {
            assert(secs * rounding::one() == 0) by (nonlinear_arith)
                requires
                    secs == 0,
            ;
        }
    }
    rounding::lemma_whole(sum, DOUBLE as nat);
}

/// More nanoseconds make no fewer seconds.
pub proof fn lemma_seconds_grow(a: nat, b: nat)
    requires
        a <= b,
    ensures
        seconds(a) <= seconds(b),
{
    let den: nat = 1_000_000_000;
    let lim = DOUBLE as nat;
    let s = a / den;
    let t = b / den;
    let x = rounding::literal(a % den, den, lim);
    let y = rounding::literal(b % den, den, lim);
    lemma_fraction(a % den);
    if s == t {
        rounding::lemma_literal_grows(a % den, b % den, den, lim);
    } else {
        assert(s * rounding::one() + x <= t * rounding::one()) by (nonlinear_arith)
            requires
                s + 1 <= t,
                x <= rounding::one(),
                rounding::one() >= 0,
        ;
    }
    rounding::lemma_rounded_grows(s * rounding::one() + x, t * rounding::one() + y, 1, lim);
}

/// More work in less time makes no smaller rate.
pub proof fn lemma_rates_grow(count: nat, more: nat, nanos: nat, less: nat)
    requires
        count <= more,
        0 < less <= nanos,
    ensures
        per_second(count, nanos) <= per_second(more, less),
{
    let lim = DOUBLE as nat;
    let a = (rounding::whole(count, lim) * rounding::one()) * rounding::one();
    let b = (rounding::whole(more, lim) * rounding::one()) * rounding::one();
    let d = seconds(nanos);
    let c = seconds(less);
    lemma_seconds_grow(less, nanos);
    lemma_seconds(less);
    lemma_seconds(nanos);
    rounding::lemma_rounded_grows(count, more, 1, lim);
    assert(a <= b) by (nonlinear_arith)
        requires
            a == (rounding::whole(count, lim) * rounding::one()) * rounding::one(),
            b == (rounding::whole(more, lim) * rounding::one()) * rounding::one(),
            rounding::whole(count, lim) <= rounding::whole(more, lim),
            rounding::one() >= 0,
    ;
    lemma_common(a, d, c, lim);
    lemma_common(b, c, d, lim);
    assert(d * c == c * d && a * c <= b * d && d * c > 0) by (nonlinear_arith)
        requires
            0 <= a <= b,
            0 < c <= d,
    ;
    rounding::lemma_rounded_grows(a * c, b * d, d * c, lim);
}

/// Nothing done is no rate.
pub proof fn lemma_no_work(nanos: nat)
    requires
        nanos > 0,
    ensures
        per_second(0, nanos) == 0,
{
    let lim = DOUBLE as nat;
    let d = seconds(nanos);
    lemma_seconds(nanos);
    rounding::lemma_whole(0, lim);
    assert((0 * rounding::one()) * rounding::one() == 0) by (nonlinear_arith);
    assert(0nat / d == 0) by (nonlinear_arith)
        requires
            d > 0,
    ;
    rounding::lemma_parts(0, d, lim);
    let unit = d * rounding::spacing(0, lim);
    assert(0nat / unit == 0 && 0nat % unit == 0) by (nonlinear_arith)
        requires
            unit > 0,
    ;
    assert(0 * rounding::spacing(0, lim) == 0);
}

/// The seconds that so many nanoseconds make.
fn seconds_of(nanos: u64) -> (r: Binary)
    requires
        nanos > 0,
    ensures
        r.value() == seconds(nanos as nat),
        DOUBLE / 2 <= r.m <= DOUBLE,
        46 <= r.e <= 112,
{
    let secs: u64 = nanos / 1_000_000_000;
    let f = ratio((nanos % 1_000_000_000) as u128, 1_000_000_000, DOUBLE);
    proof {
        lemma_fraction((nanos % 1_000_000_000) as nat);
        rounding::lemma_large_powers();
        lemma2_to64();
        lemma2_to64_rest();
        lemma_pow2_adds(18, 64);
        if f.m > 0 {
            if f.e < 46 {
                rounding::lemma_smaller_power((127 - f.e) as nat, 82);
            }
            if f.e > 76 {
                lemma_pow2_strictly_increases(76, f.e as nat);
                lemma_pow2_adds(52, 76);
                assert(f.value() > rounding::one()) by (nonlinear_arith)
                    requires
                        f.value() == f.m as nat * pow2(f.e as nat),
                        f.m >= pow2(52),
                        pow2(f.e as nat) > pow2(76),
                        rounding::one() == pow2(52) * pow2(76),
                        pow2(52) >= 1,
                ;
            }
        }
    }
    let d: u32 = 128 - f.e;
    proof {
        if d < 82 {
            lemma_pow2_strictly_increases(d as nat, 82);
        }
        assert(secs * pow2(d as nat) <= 0x8_0000_0000 * (0x4_0000 * 0x1_0000_0000_0000_0000))
            by (nonlinear_arith)
            requires
                secs <= 0x8_0000_0000,
                0 <= pow2(d as nat) <= 0x4_0000 * 0x1_0000_0000_0000_0000,
        ;
    }
    let a: u128 = widened(secs, d) + f.m as u128;
    let r = nearest(a, 1, DOUBLE);
    let ghost p = pow2(f.e as nat);
    proof {
        lemma_pow2_adds(d as nat, f.e as nat);
        lemma_pow2_pos(f.e as nat);
        lemma_pow2_pos(d as nat);
        let sum = secs as nat * rounding::one() + f.value();
        assert(a * p == sum) by (nonlinear_arith)
            requires
                a == secs * pow2(d as nat) + f.m,
                f.value() == f.m as nat * p,
                rounding::one() == pow2(d as nat) * p,
                sum == secs as nat * rounding::one() + f.value(),
        ;
        assert(a as u128 / 1 == a);
        if f.m == 0 {
            assert(secs > 0);
            assert(secs * pow2(64) >= pow2(64)) by (nonlinear_arith)
                requires
                    secs >= 1,
                    pow2(64) >= 0,
            ;
        }
        rounding::lemma_shifted(a as nat, 1, DOUBLE as nat, f.e as nat);
        lemma_pow2_adds(r.e as nat, f.e as nat);
        assert(r.value() * p == r.m as nat * pow2((r.e + f.e) as nat)) by (nonlinear_arith)
            requires
                r.value() == r.m as nat * pow2(r.e as nat),
                pow2((r.e + f.e) as nat) == pow2(r.e as nat) * p,
        ;
        if r.e > 0 {
            // The sum is below 2^36 seconds.
            let e = (r.e + f.e) as nat;
            lemma_pow2_adds(36, 128);
            lemma_pow2_adds(52, 112);
            assert(pow2(e) * pow2(52) <= sum) by (nonlinear_arith)
                requires
                    pow2(e) == pow2(r.e as nat) * p,
                    pow2(r.e as nat) * pow2(52) <= a,
                    a * p == sum,
                    p >= 1,
            ;
            assert(sum < pow2(36) * rounding::one()) by (nonlinear_arith)
                requires
                    sum == secs as nat * rounding::one() + f.value(),
                    f.value() <= rounding::one(),
                    secs <= 0x8_0000_0000,
                    pow2(36) == 0x10_0000_0000,
                    rounding::one() > 0,
            ;
            assert(pow2(e) < pow2(112)) by (nonlinear_arith)
                requires
                    pow2(e) * pow2(52) < pow2(52) * pow2(112),
                    pow2(52) > 0,
            ;
            rounding::lemma_smaller_power(e, 112);
        }
    }
    Binary { m: r.m, e: r.e + f.e }
}

/// The nearest number to the quotient of two numbers.
fn divided(x: Binary, y: Binary) -> (r: Binary)
    requires
        0 < x.m <= DOUBLE,
        DOUBLE / 2 <= y.m <= DOUBLE,
        46 <= y.e <= 112,
        46 <= x.e <= 400,
        x.e >= 128 || x.m >= DOUBLE / 2,
    ensures
        r.value() == rounding::rounded(x.value() * rounding::one(), y.value(), DOUBLE as nat),
{
    let top: u32 = 128 + x.e - y.e;
    proof {
        let half = (DOUBLE / 2) as nat;
        rounding::lemma_large_powers();
        lemma2_to64();
        lemma2_to64_rest();
        assert(y.m * half <= 2 * (half * half)) by (nonlinear_arith)
            requires
                y.m <= 2 * half,
                half >= 0,
        ;
        lemma_pow2_adds(52, 52);
        lemma_pow2_adds(1, 104);
        if x.e >= 128 {
            if top > 105 {
                lemma_pow2_strictly_increases(105, top as nat);
            }
            assert(x.m * pow2(top as nat) >= pow2(105)) by (nonlinear_arith)
                requires
                    x.m >= 1,
                    pow2(top as nat) >= pow2(105),
                    pow2(105) >= 0,
            ;
        } else {
            if top > 53 {
                lemma_pow2_strictly_increases(53, top as nat);
            }
            lemma_pow2_adds(52, 53);
            assert(x.m * pow2(top as nat) >= pow2(105)) by (nonlinear_arith)
                requires
                    x.m >= pow2(52),
                    pow2(top as nat) >= pow2(53),
                    pow2(105) == pow2(52) * pow2(53),
                    pow2(52) >= 0,
            ;
        }
    }
    let r = ratio_at(x.m as u128, y.m as u128, top, DOUBLE);
    proof {
        let p = pow2(y.e as nat);
        let n = x.m as nat * pow2(top as nat);
        lemma_pow2_pos(y.e as nat);
        lemma_common(n, y.m as nat, p, DOUBLE as nat);
        lemma_pow2_adds(top as nat, y.e as nat);
        lemma_pow2_adds(x.e as nat, 128);
        assert(n * p == x.value() * rounding::one()) by (nonlinear_arith)
            requires
                n == x.m as nat * pow2(top as nat),
                x.value() == x.m as nat * pow2(x.e as nat),
                pow2(top as nat) * p == pow2(x.e as nat) * rounding::one(),
        ;
    }
    r
}

/// An integer at the scale of fractions.
fn scaled(n: u64) -> (r: Binary)
    ensures
        r.value() == rounding::whole(n as nat, DOUBLE as nat) * rounding::one(),
        r.m <= DOUBLE,
        n > 0 ==> r.m > 0,
        128 <= r.e <= 255,
{
    let b = nearest(n as u128, 1, DOUBLE);
    proof {
        rounding::lemma_whole(n as nat, DOUBLE as nat);
        lemma_pow2_adds(b.e as nat, 128);
        assert(b.value() * rounding::one() == b.m as nat * pow2((b.e + 128) as nat)) by (nonlinear_arith)
            requires
                b.value() == b.m as nat * pow2(b.e as nat),
                pow2((b.e + 128) as nat) == pow2(b.e as nat) * rounding::one(),
        ;
        assert(0 * pow2(b.e as nat) == 0);
    }
    Binary { m: b.m, e: b.e + 128 }
}

/// Whether so much work in so much time is above a rate, and whether it is at least that.
pub fn rate_against(count: u64, nanos: u64, bound: u64) -> (r: (bool, bool))
    requires
        nanos > 0,
    ensures
        r.0 == (per_second(count as nat, nanos as nat) > rounding::whole(bound as nat, DOUBLE as nat)
            * rounding::one()),
        r.1 == (per_second(count as nat, nanos as nat) >= rounding::whole(bound as nat, DOUBLE as nat)
            * rounding::one()),
{
    let b = scaled(bound);
    let rate = if count == 0 {
        proof {
            lemma_no_work(nanos as nat);
            assert(0 * pow2(64) == 0);
        }
        Binary { m: 0, e: 64 }
    } else {
        divided(scaled(count), seconds_of(nanos))
    };
    (!at_least(b, rate), at_least(rate, b))
}

/// Whether one stretch of time is more than a fraction of another.
pub fn longer_by(a: u64, b: u64, num: u64, den: u64) -> (r: bool)
    requires
        a > 0,
        b > 0,
        den > 0,
    ensures
        r == (times_as_long(a as nat, b as nat) > rounding::literal(num as nat, den as nat, DOUBLE as nat)),
{
    let quotient = divided(seconds_of(a), seconds_of(b));
    !at_least(literal_of(num, den, DOUBLE), quotient)
}

// ── laws ──────────────────────────────────────────────────────────────────
/// Whole seconds are as many as they are; what is done in them, so many times each second, is that
/// rate; and one stretch holds another as often as its seconds say.
pub proof fn law_whole_seconds_come_out(c: nat, k: nat)
    requires
        k > 0,
        c * k <= DOUBLE,
        k <= DOUBLE,
        c <= DOUBLE,
    ensures
        seconds(k * 1_000_000_000) == k * rounding::one(),
        per_second(c * k, k * 1_000_000_000) == c * rounding::one(),
        times_as_long(c * k * 1_000_000_000, k * 1_000_000_000) == c * rounding::one(),
{
    let lim = DOUBLE as nat;
    let one = rounding::one();
    lemma_whole_second(k);
    lemma_whole_second(c * k);
    lemma2_to64();
    lemma_pow2_pos(128);
    assert(k * one > 0) by (nonlinear_arith)
        requires
            k > 0,
            one > 0,
    ;
    rounding::law_numbers_stay(k * one, lim, c, 128);
    rounding::law_numbers_stay(1, lim, c * k, 0);
    assert(c * k * pow2(0) * 1 == c * k) by (nonlinear_arith)
        requires
            pow2(0) == 1,
    ;
    assert(((c * k) * one) * one == c * one * (k * one)) by (nonlinear_arith);
}

proof fn lemma_whole_second(k: nat)
    requires
        k <= DOUBLE,
    ensures
        seconds(k * 1_000_000_000) == k * rounding::one(),
{
    let lim = DOUBLE as nat;
    let den: nat = 1_000_000_000;
    lemma2_to64();
    assert((k * den) / den == k && (k * den) % den == 0);
    rounding::law_numbers_stay(den, lim, 0, 0);
    assert(0nat * pow2(0) * den == 0 && 0nat * pow2(0) == 0 && 0 * rounding::one() == 0)
        by (nonlinear_arith);
    rounding::law_numbers_stay(1, lim, k, 128);
    assert(k * pow2(128) * 1 == k * rounding::one() + 0);
}

} // verus!
