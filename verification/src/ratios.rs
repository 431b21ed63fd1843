//! Ratios of counts, by nearest numbers: integers out of numbers, and numbers that are given by
//! the bits of an `f32` or an `f64`.
use crate::rounding;
use crate::rounding::{
    doubled_reaches, halved, literal_of, multiplied, nearest, quotient_of, widened, Binary, DOUBLE,
    SINGLE,
};
use vstd::arithmetic::div_mod;
use vstd::arithmetic::power2::*;
use vstd::prelude::*;

verus! {

// ── integers out of numbers ───────────────────────────────────────────────

/// `v`, but no more than `top`.
pub open spec fn capped(v: nat, top: nat) -> nat {
    if v <= top {
        v
    } else {
        top
    }
}

/// A number's value in steps of `2^scale`, rounded down, and whether nothing was cut off.
fn steps_of(t: Binary, scale: u32, top: u64) -> (r: (u64, bool))
    ensures
        r.0 as nat == capped(t.value() / pow2(scale as nat), top as nat),
        r.1 == (t.value() % pow2(scale as nat) == 0),
{
    proof {
        lemma_pow2_pos(scale as nat);
    }
    if t.e >= scale {
        let d: u32 = t.e - scale;
        let ghost v = t.m as nat * pow2(d as nat);
        proof {
            let p = pow2(scale as nat);
            lemma_pow2_adds(d as nat, scale as nat);
            assert(t.value() == v * p) by (nonlinear_arith)
                requires
                    t.value() == t.m as nat * pow2(t.e as nat),
                    pow2(t.e as nat) == pow2(d as nat) * p,
                    v == t.m as nat * pow2(d as nat),
            ;
            div_mod::lemma_fundamental_div_mod_converse(t.value() as int, p as int, v as int, 0);
        }
        if doubled_reaches(t.m, d, top as u128) {
            (top, true)
        } else {
            (widened(t.m, d) as u64, true)
        }
    } else {
        let d: u32 = scale - t.e;
        let q: u64 = halved(t.m, d);
        proof {
            let p = pow2(t.e as nat);
            let w = pow2(d as nat);
            let m = t.m as nat;
            lemma_pow2_adds(t.e as nat, d as nat);
            lemma_pow2_pos(t.e as nat);
            lemma_pow2_pos(d as nat);
            div_mod::lemma_fundamental_div_mod(m as int, w as int);
            div_mod::lemma_mod_bound(m as int, w as int);
            let rest = m % w;
            assert(q * w + rest == m) by (nonlinear_arith)
                requires
                    m == w * q + rest,
            ;
            assert(t.value() == q * pow2(scale as nat) + p * rest && 0 <= p * rest < pow2(
                scale as nat,
            )) by (nonlinear_arith)
                requires
                    t.value() == m * p,
                    m == q * w + rest,
                    pow2(scale as nat) == p * w,
                    0 <= rest < w,
                    p >= 1,
            ;
            div_mod::lemma_fundamental_div_mod_converse(
                t.value() as int,
                pow2(scale as nat) as int,
                q as int,
                (p * rest) as int,
            );
            assert((p * rest == 0) == (rest == 0)) by (nonlinear_arith)
                requires
                    p >= 1,
                    rest >= 0,
            ;
            assert((q * w == m) == (rest == 0));
        }
        let exact: bool = widened(q, d) == t.m as u128;
        if q <= top {
            (q, exact)
        } else {
            (top, exact)
        }
    }
}

/// The number of steps that reach `v`.
pub open spec fn ceiling(v: nat, step: nat) -> nat {
    if v % step == 0 {
        v / step
    } else {
        v / step + 1
    }
}

/// The integer at or above a number's value in steps of `2^scale`, but no more than `top`.
fn ceiling_of(t: Binary, scale: u32, top: u64) -> (r: u64)
    ensures
        r as nat == capped(ceiling(t.value(), pow2(scale as nat)), top as nat),
{
    let (q, exact) = steps_of(t, scale, top);
    if exact || q == top {
        q
    } else {
        q + 1
    }
}

/// `n` times the quotient of `w` by `n`, each taken by its nearest number, rounded up.
pub open spec fn parts_up(w: nat, n: nat) -> nat {
    ceiling(
        rounding::rounded(rounding::whole(n, SINGLE as nat) * rounding::quotient(w, n, SINGLE as nat), 1, SINGLE as nat),
        rounding::one(),
    )
}

/// `n` times the quotient of `w` by `n`, rounded up, but no more than `top`.
pub fn parts_up_of(w: u64, n: u64, top: u64) -> (r: u64)
    requires
        n > 0,
    ensures
        r as nat == capped(parts_up(w as nat, n as nat), top as nat),
{
    let x = nearest(n as u128, 1, SINGLE);
    let q = quotient_of(w, n, SINGLE);
    ceiling_of(multiplied(x, q, SINGLE), 128, top)
}

// ── bits ──────────────────────────────────────────────────────────────────

/// The bits that stand for no number but for infinity, of an `f32` or an `f64`.
pub open spec fn infinite(lim: nat) -> nat {
    if lim == SINGLE {
        0x7f80_0000
    } else {
        0x7ff0_0000_0000_0000
    }
}

/// Whether the bits of an `f32` or an `f64` hold a finite number that is not below zero.
pub open spec fn plain(bits: nat, lim: nat) -> bool {
    bits < infinite(lim)
}

/// How often the least number above zero is halved away from 1.
pub open spec fn depth(lim: nat) -> nat {
    if lim == SINGLE {
        149
    } else {
        1074
    }
}

/// The number that the bits of an `f32` or an `f64` hold, as a multiple of the least one above
/// zero.
pub open spec fn units(bits: nat, lim: nat) -> nat {
    let half = lim / 2;
    let e = bits / half;
    let f = bits % half;
    if e == 0 {
        f
    } else {
        (f + half) * pow2((e - 1) as nat)
    }
}

fn number_of(bits: u64, lim: u64) -> (r: Binary)
    requires
        rounding::kind(lim as nat),
        plain(bits as nat, lim as nat),
    ensures
        r.value() == units(bits as nat, lim as nat),
        r.m < lim,
        r.e <= 2_045,
{
    let half: u64 = lim / 2;
    let e: u64 = bits / half;
    let f: u64 = bits % half;
    proof {
        if lim == SINGLE {
            assert(half == 0x80_0000);
            assert(e <= 254);
        } else {
            assert(half == 0x10_0000_0000_0000);
            assert(e <= 2_046);
        }
    }
    if e == 0 {
        proof {
            lemma2_to64();
            assert(f as nat * 1 == f);
        }
        Binary { m: f, e: 0 }
    } else {
        Binary { m: f + half, e: (e - 1) as u32 }
    }
}

/// The order of the bits is the order of the numbers.
pub proof fn lemma_units_order(a: nat, b: nat, lim: nat)
    requires
        rounding::kind(lim),
    ensures
        (a <= b) == (units(a, lim) <= units(b, lim)),
{
    if a < b {
        lemma_units_rise(a, b, lim);
    } else if b < a {
        lemma_units_rise(b, a, lim);
    }
}

proof fn lemma_units_rise(a: nat, b: nat, lim: nat)
    requires
        rounding::kind(lim),
        a < b,
    ensures
        units(a, lim) < units(b, lim),
{
    let half = lim / 2;
    let e = a / half;
    let f = a % half;
    let d = b / half;
    let g = b % half;
    if lim == SINGLE {
        assert(half == 0x80_0000);
    } else {
        assert(half == 0x10_0000_0000_0000);
    }
    div_mod::lemma_div_is_ordered(a as int, b as int, half as int);
    div_mod::lemma_fundamental_div_mod(a as int, half as int);
    div_mod::lemma_fundamental_div_mod(b as int, half as int);
    if e == d {
        if e > 0 {
            let p = pow2((e - 1) as nat);
            lemma_pow2_pos((e - 1) as nat);
            assert((f + half) * p < (g + half) * p) by (nonlinear_arith)
                requires
                    f < g,
                    p >= 1,
            ;
        }
    } else {
        let q = pow2((d - 1) as nat);
        lemma_pow2_pos((d - 1) as nat);
        if e == 0 {
            assert((g + half) * q >= half) by (nonlinear_arith)
                requires
                    q >= 1,
                    g >= 0,
                    half >= 0,
            ;
        } else {
            let p = pow2((e - 1) as nat);
            lemma_pow2_pos((e - 1) as nat);
            lemma_pow2_unfold(e);
            if e < d - 1 {
                lemma_pow2_strictly_increases(e, (d - 1) as nat);
            }
            assert((f + half) * p < (g + half) * q) by (nonlinear_arith)
                requires
                    f < half,
                    g >= 0,
                    q >= 2 * p,
                    p >= 1,
            ;
        }
    }
}

/// The bits of the quotient of two integers.
pub fn quotient_bits(a: u64, b: u64) -> (r: u32)
    requires
        b > 0,
    ensures
        plain(r as nat, SINGLE as nat),
        units(r as nat, SINGLE as nat) == rounding::quotient(a as nat, b as nat, SINGLE as nat) * pow2(21),
{
    let q = quotient_of(a, b, SINGLE);
    if q.m == 0 {
        proof {
            assert(0 * pow2(64) == 0);
            assert(0 * pow2(21) == 0);
        }
        return 0;
    }
    let e: u32 = q.e + 21;
    let r: u32 = e * 0x80_0000 + q.m as u32;
    proof {
        lemma_pow2_adds(q.e as nat, 21);
        assert(q.value() * pow2(21) == q.m as nat * pow2(e as nat)) by (nonlinear_arith)
            requires
                q.value() == q.m as nat * pow2(q.e as nat),
                pow2(e as nat) == pow2(q.e as nat) * pow2(21),
        ;
        assert(SINGLE as nat / 2 == 0x80_0000);
        if q.m == SINGLE {
            assert(r as nat == (e + 2) as nat * 0x80_0000);
            assert(r as nat / 0x80_0000 == e + 2 && r as nat % 0x80_0000 == 0);
            lemma_pow2_unfold((e + 1) as nat);
            assert((0 + 0x80_0000) * pow2((e + 1) as nat) == q.m as nat * pow2(e as nat))
                by (nonlinear_arith)
                requires
                    q.m == 2 * 0x80_0000,
                    pow2((e + 1) as nat) == 2 * pow2(e as nat),
            ;
        } else {
            assert(r as nat / 0x80_0000 == e + 1 && r as nat % 0x80_0000 == q.m - 0x80_0000);
        }
    }
    r
}

/// `n` times the number that the bits hold, by its nearest number, as a multiple of the least
/// one above zero.
pub open spec fn share_units(n: nat, bits: nat, lim: nat) -> nat {
    rounding::rounded(rounding::whole(n, lim) * units(bits, lim), 1, lim)
}

/// `n` times the number that the bits hold, rounded down and brought between 0 and `top`: none
/// for what is no number.
pub open spec fn share_down(n: nat, bits: nat, lim: nat, top: nat) -> nat {
    if plain(bits, lim) {
        capped(share_units(n, bits, lim) / pow2(depth(lim)), top)
    } else if bits == infinite(lim) && n > 0 {
        top
    } else {
        0
    }
}

/// The same, rounded up.
pub open spec fn share_up(n: nat, bits: nat, lim: nat, top: nat) -> nat {
    if plain(bits, lim) {
        capped(ceiling(share_units(n, bits, lim), pow2(depth(lim))), top)
    } else if bits == infinite(lim) && n > 0 {
        top
    } else {
        0
    }
}

fn infinity_of(lim: u64) -> (r: u64)
    requires
        rounding::kind(lim as nat),
    ensures
        r == infinite(lim as nat),
{
    if lim == SINGLE {
        0x7f80_0000
    } else {
        0x7ff0_0000_0000_0000
    }
}

fn depth_of(lim: u64) -> (r: u32)
    requires
        rounding::kind(lim as nat),
    ensures
        r == depth(lim as nat),
{
    if lim == SINGLE {
        149
    } else {
        1074
    }
}

/// `n` times the number that the bits hold, rounded down and brought between 0 and `top`.
pub fn share_down_of(n: u64, bits: u64, lim: u64, top: u64) -> (r: u64)
    requires
        rounding::kind(lim as nat),
    ensures
        r as nat == share_down(n as nat, bits as nat, lim as nat, top as nat),
{
    let most: u64 = infinity_of(lim);
    if bits < most {
        let x = nearest(n as u128, 1, lim);
        steps_of(multiplied(x, number_of(bits, lim), lim), depth_of(lim), top).0
    } else if bits == most && n > 0 {
        top
    } else {
        0
    }
}

/// `n` times the number that the bits hold, rounded up and brought between 0 and `top`.
pub fn share_up_of(n: u64, bits: u64, lim: u64, top: u64) -> (r: u64)
    requires
        rounding::kind(lim as nat),
    ensures
        r as nat == share_up(n as nat, bits as nat, lim as nat, top as nat),
{
    let most: u64 = infinity_of(lim);
    if bits < most {
        let x = nearest(n as u128, 1, lim);
        ceiling_of(multiplied(x, number_of(bits, lim), lim), depth_of(lim), top)
    } else if bits == most && n > 0 {
        top
    } else {
        0
    }
}

/// A ratio of at most 1 makes no more than all, of what fits in the leading digits.
pub proof fn lemma_share_at_most_all(n: nat, bits: nat, top: nat)
    requires
        n <= DOUBLE,
        bits <= 0x3ff0_0000_0000_0000,
    ensures
        share_down(n, bits, DOUBLE as nat, top) <= n,
{
    let lim = DOUBLE as nat;
    let half: nat = 0x10_0000_0000_0000;
    let p = pow2(1074);
    let all: nat = 0x3ff0_0000_0000_0000;
    lemma_pow2_pos(1074);
    lemma2_to64_rest();
    lemma_units_order(bits, all, lim);
    assert(all / half == 1023 && all % half == 0 && lim / 2 == half);
    lemma_pow2_adds(52, 1022);
    assert(units(all, lim) == p) by (nonlinear_arith)
        requires
            units(all, lim) == (0 + half) * pow2(1022),
            p == half * pow2(1022),
    ;
    // An integer of so many digits is a number.
    assert(rounding::whole(n, lim) == n) by {
        if n < lim {
            assert(n / 1 == n && n % 1 == 0);
            assert(n * 1 == n) by (nonlinear_arith);
        } else {
            assert(n / 1 == n);
            assert(n / 2 == half);
            assert(rounding::spacing(half, lim) == 1);
            assert(rounding::spacing(n, lim) == 2);
            let unit = 1 * rounding::spacing(n, lim);
            assert(unit == 2);
            assert(n / unit == half && n % unit == 0);
            assert(rounding::whole(n, lim) == half * rounding::spacing(n, lim));
            assert(half * rounding::spacing(n, lim) == n) by (nonlinear_arith)
                requires
                    rounding::spacing(n, lim) == 2,
                    n == 2 * half,
            ;
        }
    }
    let u = units(bits, lim);
    assert(n * u <= n * p) by (nonlinear_arith)
        requires
            u <= p,
            n >= 0,
    ;
    rounding::lemma_rounded_grows(n * u, n * p, 1, lim);
    rounding::lemma_shifted(n, 1, lim, 1074);
    div_mod::lemma_div_is_ordered(share_units(n, bits, lim) as int, (n * p) as int, p as int);
    div_mod::lemma_div_multiples_vanish(n as int, p as int);
    assert(n * p == p * n) by (nonlinear_arith);
}

/// An integer times a fraction that is written out, rounded down, but no more than `top`.
pub fn times_down(n: u64, num: u64, den: u64, lim: u64, top: u64) -> (r: u64)
    requires
        rounding::kind(lim as nat),
        den > 0,
    ensures
        r as nat == capped(
            rounding::times(n as nat, num as nat, den as nat, lim as nat) / rounding::one(),
            top as nat,
        ),
{
    let x = nearest(n as u128, 1, lim);
    steps_of(multiplied(x, literal_of(num, den, lim), lim), 128, top).0
}

/// The number that the bits of an `f32` hold, sign and all, as a multiple of the least one above
/// zero.
pub open spec fn signed_units(bits: u32) -> int {
    if bits >= 0x8000_0000 {
        -(units((bits - 0x8000_0000) as nat, SINGLE as nat) as int)
    } else {
        units(bits as nat, SINGLE as nat) as int
    }
}

/// The keys by which numbers are ordered rise with the numbers, and the two zeros share one.
pub proof fn law_keys_order_numbers(a: u32, b: u32)
    ensures
        (crate::order::float_key(a) < crate::order::float_key(b)) == (signed_units(a)
            < signed_units(b)),
        (crate::order::float_key(a) == crate::order::float_key(b)) == (signed_units(a)
            == signed_units(b)),
{
    let m = |x: u32|
        if x >= 0x8000_0000 {
            (x - 0x8000_0000) as nat
        } else {
            x as nat
        };
    lemma_units_order(m(a), m(b), SINGLE as nat);
    lemma_units_order(m(b), m(a), SINGLE as nat);
    lemma_units_order(m(a), 0, SINGLE as nat);
    lemma_units_order(m(b), 0, SINGLE as nat);
    assert(units(0, SINGLE as nat) == 0);
}

/// Rounding up reaches a number with as few steps as do, and never goes a whole step too far.
pub proof fn law_ceiling_just_reaches(v: nat, step: nat)
    requires
        step > 0,
    ensures
        v <= ceiling(v, step) * step < v + step,
{
    let q = v / step;
    let r = v % step;
    assert(v == q * step + r && 0 <= r < step && (q + 1) * step == q * step + step)
        by (nonlinear_arith)
        requires
            q == v / step,
            r == v % step,
            step > 0,
    ;
}

/// The bits of 1 make all of an integer, those of 0.5 half of it, rounded down or up as asked; no
/// number makes none, infinity makes the most, and what lies below zero makes none.
pub proof fn law_shares_of_one_and_a_half(n: nat, top: nat, bits: nat)
    requires
        n < SINGLE,
        n <= top,
    ensures
        share_down(n, 0x3F80_0000, SINGLE as nat, top) == n,
        share_up(n, 0x3F80_0000, SINGLE as nat, top) == n,
        share_down(n, 0x3F00_0000, SINGLE as nat, top) == n / 2,
        share_up(n, 0x3F00_0000, SINGLE as nat, top) == (n + 1) / 2,
        share_down(n, 0x3E80_0000, SINGLE as nat, top) == n / 4,
        share_down(n, 0, SINGLE as nat, top) == 0,
        bits > 0x7F80_0000 ==> share_down(n, bits, SINGLE as nat, top) == 0 && share_up(
            n,
            bits,
            SINGLE as nat,
            top,
        ) == 0,
        n > 0 ==> share_down(n, 0x7F80_0000, SINGLE as nat, top) == top && share_up(
            n,
            0x7F80_0000,
            SINGLE as nat,
            top,
        ) == top,
{
    let lim = SINGLE as nat;
    lemma_power_share(n, 0x3F80_0000, 126, top);
    lemma_power_share(n, 0x3F00_0000, 125, top);
    lemma_power_share(n, 0x3E80_0000, 124, top);
    lemma2_to64();
    rounding::law_numbers_stay(1, lim, n, 0);
    assert(n * 1 * 1 == n) by (nonlinear_arith);
    rounding::law_numbers_stay(1, lim, 0, 0);
    assert(n * 0 == 0 && 0nat * pow2(0) * 1 == 0) by (nonlinear_arith);
    lemma_pow2_pos(149);
    assert(0nat / pow2(149) == 0) by (nonlinear_arith)
        requires
            pow2(149) > 0,
    ;
    assert(units(0, lim) == 0);
    assert(pow2(0) == 1 && pow2(1) == 2 && pow2(2) == 4);
}

/// What a power of two makes of an integer, both rounded down and up.
proof fn lemma_power_share(n: nat, bits: nat, e: nat, top: nat)
    requires
        n < SINGLE,
        n <= top,
        124 <= e <= 126,
        bits == (e + 1) * 0x80_0000,
    ensures
        share_down(n, bits, SINGLE as nat, top) == n / pow2((126 - e) as nat),
        e == 126 ==> share_up(n, bits, SINGLE as nat, top) == n,
        e == 125 ==> share_up(n, bits, SINGLE as nat, top) == (n + 1) / 2,
{
    let lim = SINGLE as nat;
    lemma2_to64();
    let half = lim / 2;
    assert(half == 0x80_0000);
    assert(bits / half == e + 1 && bits % half == 0);
    assert(half == pow2(23));
    lemma_pow2_adds(23, e);
    let x = (23 + e) as nat;
    assert(units(bits, lim) == pow2(x));
    rounding::law_numbers_stay(1, lim, n, 0);
    assert(n * pow2(0) * 1 == n) by (nonlinear_arith)
        requires
            pow2(0) == 1,
    ;
    assert(rounding::whole(n, lim) == n);
    rounding::law_numbers_stay(1, lim, n, x);
    assert(n * pow2(x) * 1 == n * pow2(x));
    assert(share_units(n, bits, lim) == n * pow2(x));
    let k = (126 - e) as nat;
    lemma_pow2_adds(x, k);
    assert(pow2(149) == pow2(x) * pow2(k));
    lemma_pow2_pos(x);
    lemma_pow2_pos(k);
    let (p, q) = (pow2(x) as int, pow2(k) as int);
    let v = n * pow2(x);
    assert((n * p) / (p * q) == n as int / q) by {
        assert(n * p == p * n) by (nonlinear_arith);
        vstd::arithmetic::div_mod::lemma_div_multiples_vanish_quotient(p, n as int, q);
    }
    assert(v / pow2(149) == n / pow2(k));
    assert(n / pow2(k) <= n) by (nonlinear_arith)
        requires
            pow2(k) >= 1,
    ;
    lemma_pow2_pos(149);
    law_ceiling_just_reaches(v, pow2(149));
    let c = ceiling(v, pow2(149)) as int;
    assert(n <= c * q < n + q) by (nonlinear_arith)
        requires
            v <= c * pow2(149) < v + pow2(149),
            v == n * p,
            pow2(149) == p * q,
            p > 0,
    ;
    if e == 126 {
        assert(q == 1);
        assert(c * 1 == c);
    }
    if e == 125 {
        assert(q == 2);
        assert(c * q == 2 * c) by (nonlinear_arith)
            requires
                q == 2,
        ;
        assert(c == (n + 1) / 2);
        assert((n + 1) / 2 <= n);
        assert(capped(ceiling(v, pow2(149)), top) == (n + 1) / 2);
    }
}

/// A quotient that comes out even is taken apart again: as many parts as it was made of, of a power
/// of two as of any divisor.
pub proof fn law_parts_come_out_again(w: nat, j: nat, k: nat, n: nat)
    requires
        j <= 20,
        w < SINGLE,
        0 < n,
        k * n < SINGLE,
        k < SINGLE,
        n < SINGLE,
    ensures
        parts_up(w, pow2(j)) == w,
        parts_up(k * n, n) == k * n,
{
    let lim = SINGLE as nat;
    let one = rounding::one();
    lemma2_to64();
    lemma_pow2_pos(128);
    lemma_pow2_pos(j);
    if j < 20 {
        lemma_pow2_strictly_increases(j, 20);
    }
    let b = pow2(j);
    rounding::law_whole_ratios_come_out(w, 1, 1, lim);
    rounding::law_whole_ratios_come_out(b, 1, 1, lim);
    lemma_pow2_adds((128 - j) as nat, j);
    let p = pow2((128 - j) as nat);
    assert(w * one == w * p * b) by (nonlinear_arith)
        requires
            one == p * b,
    ;
    rounding::law_numbers_stay(b, lim, w, (128 - j) as nat);
    assert(rounding::quotient(w, b, lim) == w * p);
    rounding::law_numbers_stay(1, lim, w, 128);
    assert(b * (w * p) == w * one * 1) by (nonlinear_arith)
        requires
            one == p * b,
    ;
    lemma_exact_ceiling(w, one);
    rounding::law_whole_ratios_come_out(n, k, n, lim);
    assert(n * k == k * n) by (nonlinear_arith);
    rounding::law_numbers_stay(1, lim, k * n, 128);
    assert(n * (k * one) == k * n * one * 1) by (nonlinear_arith);
    lemma_exact_ceiling(k * n, one);
}

proof fn lemma_exact_ceiling(w: nat, step: nat)
    requires
        step > 0,
    ensures
        ceiling(w * step, step) == w,
{
    law_ceiling_just_reaches(w * step, step);
    let c = ceiling(w * step, step);
    assert(c == w) by (nonlinear_arith)
        requires
            w * step <= c * step < w * step + step,
            step > 0,
    ;
}

} // verus!
