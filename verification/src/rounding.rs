//! Binary numbers with a limited number of significant bits: the nearest one to a ratio, to a
//! difference of two, and to a product.
use vstd::arithmetic::div_mod;
use vstd::arithmetic::power2::*;
use vstd::prelude::*;

verus! {

/// Numbers with 24 significant bits: their leading digits are below this.
pub const SINGLE: u64 = 0x100_0000;

/// Numbers with 53 significant bits: their leading digits are below this.
pub const DOUBLE: u64 = 0x20_0000_0000_0000;

/// Whether `lim` bounds the leading digits of one of the two kinds.
pub open spec fn kind(lim: nat) -> bool {
    lim == SINGLE || lim == DOUBLE
}

// ── the nearest number ────────────────────────────────────────────────────

/// How far apart the numbers around `x` are whose leading digits are below `lim`.
pub open spec fn spacing(x: nat, lim: nat) -> nat
    decreases x,
{
    if x < lim || lim == 0 {
        1
    } else {
        2 * spacing(x / 2, lim)
    }
}

/// The nearest number to `num / den` whose leading digits are below `lim`. Where two are as near,
/// it is the one whose leading digits are even.
pub open spec fn rounded(num: nat, den: nat, lim: nat) -> nat {
    let space = spacing(num / den, lim);
    let unit = den * space;
    let q = num / unit;
    let rest = num % unit;
    if 2 * rest > unit || (2 * rest == unit && q % 2 == 1) {
        (q + 1) * space
    } else {
        q * space
    }
}

/// 1, at the scale at which fractions are counted.
pub open spec fn one() -> nat {
    pow2(128)
}

/// The nearest number to an integer.
pub open spec fn whole(n: nat, lim: nat) -> nat {
    rounded(n, 1, lim)
}

/// The nearest number to a fraction that is written out.
pub open spec fn literal(num: nat, den: nat, lim: nat) -> nat {
    rounded(num * one(), den, lim)
}

/// The nearest number to the quotient of two integers, each of which is taken by its nearest
/// number first.
pub open spec fn quotient(a: nat, b: nat, lim: nat) -> nat {
    rounded(whole(a, lim) * one(), whole(b, lim), lim)
}

proof fn lemma_spacing(x: nat, lim: nat)
    requires
        kind(lim),
    ensures
        spacing(x, lim) >= 1,
        x < lim ==> spacing(x, lim) == 1,
        x >= lim ==> spacing(x, lim) >= 2,
        x >= lim ==> lim / 2 <= x / spacing(x, lim),
        x / spacing(x, lim) < lim,
    decreases x,
{
    if x >= lim {
        let h = x / 2;
        let s = spacing(h, lim);
        lemma_spacing(h, lim);
        div_mod::lemma_div_denominator(x as int, 2, s as int);
        assert(x / (2 * s) == h / s);
        if h < lim {
            assert(h / 1 == h);
        }
    } else {
        assert(x / 1 == x);
    }
}

proof fn lemma_spacing_grows(a: nat, b: nat, lim: nat)
    requires
        kind(lim),
        a <= b,
    ensures
        spacing(a, lim) == spacing(b, lim) || 2 * spacing(a, lim) <= spacing(b, lim),
    decreases b,
{
    lemma_spacing(b, lim);
    if a >= lim {
        lemma_spacing_grows(a / 2, b / 2, lim);
    }
}

/// What makes up a rounded number.
pub proof fn lemma_parts(num: nat, den: nat, lim: nat)
    requires
        kind(lim),
        den > 0,
    ensures
        ({
            let space = spacing(num / den, lim);
            let unit = den * space;
            let q = num / unit;
            &&& space >= 1
            &&& unit >= 1
            &&& q == (num / den) / space
            &&& q < lim
            &&& num / den >= lim ==> q >= lim / 2
            &&& num == unit * q + num % unit
            &&& 0 <= num % unit < unit
            &&& q * space <= rounded(num, den, lim) <= (q + 1) * space
        }),
{
    let space = spacing(num / den, lim);
    let unit = den * space;
    lemma_spacing(num / den, lim);
    div_mod::lemma_div_denominator(num as int, den as int, space as int);
    assert(unit >= 1) by (nonlinear_arith)
        requires
            unit == den * space,
            den >= 1,
            space >= 1,
    ;
    div_mod::lemma_fundamental_div_mod(num as int, unit as int);
    div_mod::lemma_mod_bound(num as int, unit as int);
    let q = num / unit;
    assert(q * space <= (q + 1) * space) by (nonlinear_arith)
        requires
            space >= 1,
    ;
}

/// Twice the ratio rounds to twice the number, where no digits are cut off below the point.
proof fn lemma_doubled(num: nat, den: nat, lim: nat)
    requires
        kind(lim),
        den > 0,
        num / den >= lim / 2 || den == 1,
    ensures
        rounded(2 * num, den, lim) == 2 * rounded(num, den, lim),
{
    let x = num / den;
    let y = (2 * num) / den;
    div_mod::lemma_div_denominator((2 * num) as int, den as int, 2);
    div_mod::lemma_div_denominator((2 * num) as int, 2, den as int);
    assert(den * 2 == 2 * den);
    assert((2 * num) / 2 == num);
    assert(y / 2 == x);
    if 2 * x + 1 < lim {
        // Only an integer that stays below the limit.
        assert(den == 1);
        assert(num / 1 == num && (2 * num) / 1 == 2 * num && num % 1 == 0 && (2 * num) % 1 == 0);
        assert(y == 2 * num);
        assert(spacing(y, lim) == 1 && spacing(x, lim) == 1);
    } else {
        assert(y >= lim) by {
            assert(y >= 2 * x);
            assert(lim % 2 == 0);
            assert(x >= lim / 2);
        }
        let s = spacing(x, lim);
        assert(spacing(y, lim) == 2 * s);
        lemma_parts(num, den, lim);
        let unit = den * s;
        assert(den * (2 * s) == 2 * unit) by (nonlinear_arith)
            requires
                unit == den * s,
        ;
        let q = num / unit;
        let rest = num % unit;
        assert(2 * num == q * (2 * unit) + 2 * rest) by (nonlinear_arith)
            requires
                num == unit * q + rest,
        ;
        div_mod::lemma_fundamental_div_mod_converse(
            (2 * num) as int,
            (2 * unit) as int,
            q as int,
            (2 * rest) as int,
        );
        assert(q * (2 * s) == 2 * (q * s) && (q + 1) * (2 * s) == 2 * ((q + 1) * s))
            by (nonlinear_arith);
    }
}

/// The same for any power of two.
pub proof fn lemma_shifted(num: nat, den: nat, lim: nat, j: nat)
    requires
        kind(lim),
        den > 0,
        num / den >= lim / 2 || den == 1,
    ensures
        rounded(num * pow2(j), den, lim) == rounded(num, den, lim) * pow2(j),
    decreases j,
{
    if j == 0 {
        lemma2_to64();
    } else {
        let k = (j - 1) as nat;
        lemma_pow2_unfold(j);
        lemma_pow2_pos(k);
        lemma_shifted(num, den, lim, k);
        let n = num * pow2(k);
        assert(num * pow2(j) == 2 * n && rounded(num, den, lim) * pow2(j) == 2 * (rounded(
            num,
            den,
            lim,
        ) * pow2(k))) by (nonlinear_arith)
            requires
                pow2(j) == 2 * pow2(k),
                n == num * pow2(k),
        ;
        assert(n >= num) by (nonlinear_arith)
            requires
                n == num * pow2(k),
                pow2(k) >= 1,
                num >= 0,
        ;
        div_mod::lemma_div_is_ordered(num as int, n as int, den as int);
        lemma_doubled(n, den, lim);
    }
}

/// A larger ratio never rounds to a smaller number.
pub proof fn lemma_rounded_grows(a: nat, b: nat, den: nat, lim: nat)
    requires
        kind(lim),
        den > 0,
        a <= b,
    ensures
        rounded(a, den, lim) <= rounded(b, den, lim),
{
    let s = spacing(a / den, lim);
    let t = spacing(b / den, lim);
    div_mod::lemma_div_is_ordered(a as int, b as int, den as int);
    lemma_spacing_grows(a / den, b / den, lim);
    lemma_spacing(b / den, lim);
    lemma_parts(a, den, lim);
    lemma_parts(b, den, lim);
    let p = a / (den * s);
    let q = b / (den * t);
    if s == t {
        let unit = den * s;
        div_mod::lemma_div_is_ordered(a as int, b as int, unit as int);
        if p < q {
            assert((p + 1) * s <= q * s) by (nonlinear_arith)
                requires
                    p + 1 <= q,
                    s >= 1,
            ;
        }
    } else {
        assert((p + 1) * s <= q * t) by (nonlinear_arith)
            requires
                p + 1 <= lim,
                lim / 2 <= q,
                lim % 2 == 0,
                2 * s <= t,
                s >= 1,
        ;
    }
}

// ── numbers ───────────────────────────────────────────────────────────────

/// A number: its leading digits, and how often they are doubled.
#[derive(Clone, Copy, Debug, PartialEq, Eq, Structural)]
pub struct Binary {
    pub m: u64,
    pub e: u32,
}

impl Binary {
    pub open spec fn value(self) -> nat {
        self.m as nat * pow2(self.e as nat)
    }
}

pub proof fn lemma_large_powers()
    ensures
        pow2(52) == 0x10_0000_0000_0000,
        pow2(64) == 0x1_0000_0000_0000_0000,
        pow2(117) == 0x20_0000_0000_0000 * 0x1_0000_0000_0000_0000,
        pow2(127) == 0x8000_0000_0000_0000 * 0x1_0000_0000_0000_0000,
        pow2(128) == 0x1_0000_0000_0000_0000 * 0x1_0000_0000_0000_0000,
{
    lemma2_to64();
    lemma2_to64_rest();
    lemma_pow2_adds(53, 64);
    lemma_pow2_adds(63, 64);
    lemma_pow2_adds(64, 64);
}

/// A smaller power has a smaller exponent.
pub proof fn lemma_smaller_power(a: nat, b: nat)
    requires
        pow2(a) < pow2(b),
    ensures
        a < b,
{
    if b < a {
        lemma_pow2_strictly_increases(b, a);
    }
}

pub(crate) fn nearest(num: u128, den: u128, lim: u64) -> (r: Binary)
    requires
        den > 0,
        num < 0x8000_0000_0000_0000_0000_0000_0000_0000,
        kind(lim as nat),
    ensures
        r.value() == rounded(num as nat, den as nat, lim as nat),
        r.m <= lim,
        r.e < 127,
        num / den >= lim / 2 ==> r.m >= lim / 2,
        r.e > 0 ==> pow2(r.e as nat) * (lim / 2) <= num / den,
{
    let x: u128 = num / den;
    let mut y: u128 = x;
    let mut space: u128 = 1;
    let mut e: u32 = 0;
    proof {
        lemma2_to64();
        lemma_large_powers();
        assert(x <= num) by (nonlinear_arith)
            requires
                x == num / den,
                den > 0,
                num >= 0,
        ;
    }
    while y >= lim as u128
        invariant
            kind(lim as nat),
            x < 0x8000_0000_0000_0000_0000_0000_0000_0000,
            pow2(127) == 0x8000_0000_0000_0000_0000_0000_0000_0000,
            spacing(x as nat, lim as nat) == space * spacing(y as nat, lim as nat),
            space == pow2(e as nat),
            space * y <= x,
            space >= 1,
            e < 127,
            e > 0 ==> y >= lim / 2 && x >= lim,
            e == 0 ==> y == x,
        decreases y,
    {
        let ghost before = space;
        proof {
            let h = y / 2;
            assert(2 * space <= x && (2 * space) * h <= x && y <= x) by (nonlinear_arith)
                requires
                    space * y <= x,
                    space >= 1,
                    y >= 2,
                    h == y / 2,
            ;
            lemma_pow2_unfold((e + 1) as nat);
            lemma_smaller_power((e + 1) as nat, 127);
            assert(space * (2 * spacing(h as nat, lim as nat)) == (2 * space) * spacing(
                h as nat,
                lim as nat,
            )) by (nonlinear_arith);
        }
        y = y / 2;
        space = space * 2;
        e = e + 1;
    }
    proof {
        assert(spacing(x as nat, lim as nat) == space) by (nonlinear_arith)
            requires
                spacing(x as nat, lim as nat) == space * spacing(y as nat, lim as nat),
                spacing(y as nat, lim as nat) == 1,
        ;
        lemma_parts(num as nat, den as nat, lim as nat);
        div_mod::lemma_fundamental_div_mod(num as int, den as int);
        div_mod::lemma_mod_bound(num as int, den as int);
        if e > 0 {
            assert(den * space <= num) by (nonlinear_arith)
                requires
                    num == den * x + num % den,
                    0 <= num % den,
                    space * y <= x,
                    y >= 1,
                    space >= 1,
                    den >= 1,
            ;
            assert(pow2(e as nat) * (lim / 2) <= x) by (nonlinear_arith)
                requires
                    space == pow2(e as nat),
                    space * y <= x,
                    y >= lim / 2,
                    space >= 1,
            ;
        } else {
            assert(den * space == den) by (nonlinear_arith)
                requires
                    space == 1,
            ;
            assert(x as nat / 1 == x);
        }
    }
    let unit: u128 = den * space;
    let q: u128 = num / unit;
    let rest: u128 = num % unit;
    proof {
        assert(q * space <= (q + 1) * space) by (nonlinear_arith)
            requires
                space >= 1,
        ;
        assert(rest <= num);
    }
    if 2 * rest > unit || (2 * rest == unit && q % 2 == 1) {
        Binary { m: q as u64 + 1, e }
    } else {
        Binary { m: q as u64, e }
    }
}

/// An integer and its nearest number are within a factor of two.
pub proof fn lemma_whole(n: nat, lim: nat)
    requires
        kind(lim),
    ensures
        whole(n, lim) <= 2 * n,
        n <= 2 * whole(n, lim),
{
    let s = spacing(n / 1, lim);
    lemma_parts(n, 1, lim);
    assert(n / 1 == n);
    assert(1 * s == s);
    lemma_spacing(n, lim);
    let q = n / s;
    if n < lim {
        assert(s == 1 && n % 1 == 0);
        assert(whole(n, lim) == n * 1);
        assert(n * 1 == n) by (nonlinear_arith);
    } else {
        let low = q * s;
        let high = (q + 1) * s;
        assert(high <= 2 * low && low <= n && n <= 2 * low) by (nonlinear_arith)
            requires
                low == q * s,
                high == (q + 1) * s,
                q >= 1,
                s >= 1,
                n == s * q + n % s,
                0 <= n % s < s,
        ;
        assert(low <= whole(n, lim) <= high);
    }
}

pub(crate) fn widened(m: u64, e: u32) -> (r: u128)
    requires
        m * pow2(e as nat) < 0x8000_0000_0000_0000_0000_0000_0000_0000,
    ensures
        r == m * pow2(e as nat),
{
    let mut v: u128 = m as u128;
    let mut i: u32 = 0;
    proof {
        lemma2_to64();
    }
    while i < e
        invariant
            i <= e,
            v == m * pow2(i as nat),
            m * pow2(e as nat) < 0x8000_0000_0000_0000_0000_0000_0000_0000,
        decreases e - i,
    {
        proof {
            lemma_pow2_unfold((i + 1) as nat);
            if i + 1 < e {
                lemma_pow2_strictly_increases((i + 1) as nat, e as nat);
            }
            assert(m * pow2((i + 1) as nat) <= m * pow2(e as nat)) by (nonlinear_arith)
                requires
                    pow2((i + 1) as nat) <= pow2(e as nat),
                    m >= 0,
            ;
            assert(m * pow2((i + 1) as nat) == 2 * v) by (nonlinear_arith)
                requires
                    pow2((i + 1) as nat) == 2 * pow2(i as nat),
                    v == m * pow2(i as nat),
            ;
        }
        v = v * 2;
        i = i + 1;
    }
    v
}

fn whole_of(n: u64, lim: u64) -> (r: u128)
    requires
        kind(lim as nat),
    ensures
        r == whole(n as nat, lim as nat),
        n <= 2 * r,
        r <= 2 * n,
{
    let b = nearest(n as u128, 1, lim);
    proof {
        lemma_whole(n as nat, lim as nat);
    }
    widened(b.m, b.e)
}

/// The nearest number to the ratio of two integers, at the scale of `top` doublings.
pub(crate) fn ratio_at(a: u128, b: u128, top: u32, lim: u64) -> (r: Binary)
    requires
        kind(lim as nat),
        0 < a <= 0x2_0000_0000_0000_0000,
        0 < b <= 0x2_0000_0000_0000_0000,
        top <= 1_000,
        b * (lim / 2) <= a * pow2(top as nat),
    ensures
        r.value() == rounded(a as nat * pow2(top as nat), b as nat, lim as nat),
        lim / 2 <= r.m <= lim,
        r.e <= top + 95,
        r.e >= top || pow2((top - r.e - 1) as nat) < b * (lim / 2),
{
    let half: u128 = (lim / 2) as u128;
    proof {
        assert(0 < b * half <= 0x2_0000_0000_0000_0000 * 0x10_0000_0000_0000) by (nonlinear_arith)
            requires
                0 < b <= 0x2_0000_0000_0000_0000,
                0 < half <= 0x10_0000_0000_0000,
        ;
        lemma_large_powers();
        lemma2_to64();
    }
    let bound: u128 = b * half;
    let mut num: u128 = a;
    let mut left: u32 = top;
    proof {
        assert(a * pow2((top - left) as nat) == a) by (nonlinear_arith)
            requires
                pow2((top - left) as nat) == 1,
        ;
    }
    while num < bound
        invariant
            0 < a <= 0x2_0000_0000_0000_0000,
            bound <= pow2(117),
            pow2(117) == 0x20_0000_0000_0000 * 0x1_0000_0000_0000_0000,
            0 < num <= 2 * pow2(117),
            left <= top <= 1_000,
            bound <= a * pow2(top as nat),
            num == a * pow2((top - left) as nat),
            num * pow2(left as nat) == a * pow2(top as nat),
            left < top ==> pow2((top - left - 1) as nat) < bound,
        decreases left,
    {
        let ghost k = (top - left) as nat;
        proof {
            assert(pow2(k) <= num) by (nonlinear_arith)
                requires
                    num == a * pow2(k),
                    a >= 1,
                    pow2(k) >= 0,
            ;
            assert(left > 0);
            lemma_pow2_unfold(k + 1);
            lemma_pow2_unfold(left as nat);
            assert(2 * num == a * pow2(k + 1)) by (nonlinear_arith)
                requires
                    num == a * pow2(k),
                    pow2(k + 1) == 2 * pow2(k),
            ;
            assert((2 * num) * pow2((left - 1) as nat) == num * pow2(left as nat))
                by (nonlinear_arith)
                requires
                    pow2(left as nat) == 2 * pow2((left - 1) as nat),
            ;
        }
        num = num * 2;
        left = left - 1;
    }
    let r = nearest(num, b, lim);
    proof {
        assert(num / b >= half) by (nonlinear_arith)
            requires
                num >= b * half,
                b > 0,
        ;
        lemma_shifted(num as nat, b as nat, lim as nat, left as nat);
        lemma_pow2_adds(r.e as nat, left as nat);
        assert(r.value() * pow2(left as nat) == r.m as nat * pow2((r.e + left) as nat))
            by (nonlinear_arith)
            requires
                r.value() == r.m as nat * pow2(r.e as nat),
                pow2((r.e + left) as nat) == pow2(r.e as nat) * pow2(left as nat),
        ;
        if r.e + left < top && r.e > 0 {
            lemma_pow2_strictly_increases((top - r.e - left - 1) as nat, (top - left - 1) as nat);
        }
        if r.e > 95 {
            lemma_pow2_strictly_increases(95, r.e as nat);
            lemma2_to64();
            lemma_pow2_adds(95, 23);
            lemma_pow2_unfold(118);
            assert(num / b <= num) by (nonlinear_arith)
                requires
                    b >= 1,
                    num >= 0,
            ;
            assert(pow2(r.e as nat) * half > pow2(118)) by (nonlinear_arith)
                requires
                    pow2(r.e as nat) > pow2(95),
                    half >= pow2(23),
                    pow2(118) == pow2(95) * pow2(23),
                    pow2(95) >= 0,
                    pow2(23) > 0,
            ;
        }
    }
    Binary { m: r.m, e: r.e + left }
}

/// The nearest number to the ratio of two integers, at the scale of fractions.
pub(crate) fn ratio(a: u128, b: u128, lim: u64) -> (r: Binary)
    requires
        kind(lim as nat),
        a <= 0x2_0000_0000_0000_0000,
        0 < b <= 0x2_0000_0000_0000_0000,
    ensures
        r.value() == rounded(a as nat * one(), b as nat, lim as nat),
        r.m <= lim,
        r.m == 0 || r.m >= lim / 2,
        r.m == 0 <==> a == 0,
        r.m == 0 ==> r.e == 64,
        10 <= r.e <= 223,
        r.m == 0 || r.e >= 128 || pow2((127 - r.e) as nat) < b * (lim / 2),
{
    if a == 0 {
        proof {
            lemma_parts(0, b as nat, lim as nat);
            assert(a as nat * one() == 0) by (nonlinear_arith)
                requires
                    a == 0,
            ;
            assert(0nat / b as nat == 0) by (nonlinear_arith)
                requires
                    b > 0,
            ;
            let unit = (b as nat) * spacing(0, lim as nat);
            assert(0nat / unit == 0 && 0nat % unit == 0) by (nonlinear_arith)
                requires
                    unit > 0,
            ;
            assert(0 * pow2(64) == 0);
        }
        return Binary { m: 0, e: 64 };
    }
    proof {
        let half = (lim / 2) as int;
        lemma_large_powers();
        assert(b * half <= 0x2_0000_0000_0000_0000 * 0x10_0000_0000_0000) by (nonlinear_arith)
            requires
                0 < b <= 0x2_0000_0000_0000_0000,
                0 < half <= 0x10_0000_0000_0000,
        ;
        assert(a * pow2(128) >= pow2(128)) by (nonlinear_arith)
            requires
                a >= 1,
                pow2(128) >= 0,
        ;
    }
    let r = ratio_at(a, b, 128, lim);
    proof {
        if r.e < 10 {
            lemma_smaller_power((127 - r.e) as nat, 117);
        }
    }
    r
}

/// 1 is a number.
pub proof fn lemma_one(den: nat, lim: nat)
    requires
        kind(lim),
        den > 0,
    ensures
        rounded(den * one(), den, lim) == one(),
{
    let j: nat = if lim == SINGLE {
        23
    } else {
        52
    };
    lemma2_to64();
    lemma2_to64_rest();
    lemma_pow2_adds(j, (128 - j) as nat);
    let n = den * pow2(j);
    assert(lim / 2 == pow2(j));
    div_mod::lemma_div_multiples_vanish(pow2(j) as int, den as int);
    assert(n / den == pow2(j));
    assert(spacing(n / den, lim) == 1);
    assert(den * 1 == den);
    assert(n % den == 0) by {
        assert(n == pow2(j) * den) by (nonlinear_arith)
            requires
                n == den * pow2(j),
        ;
        div_mod::lemma_fundamental_div_mod_converse(n as int, den as int, pow2(j) as int, 0);
    }
    assert(rounded(n, den, lim) == pow2(j));
    lemma_shifted(n, den, lim, (128 - j) as nat);
    assert(n * pow2((128 - j) as nat) == den * one()) by (nonlinear_arith)
        requires
            n == den * pow2(j),
            one() == pow2(j) * pow2((128 - j) as nat),
    ;
}

/// A quotient of an integer by one that is no smaller is at most 1.
pub proof fn lemma_quotient_at_most_one(a: nat, b: nat, lim: nat)
    requires
        kind(lim),
        a <= b,
        b > 0,
    ensures
        quotient(a, b, lim) <= one(),
{
    lemma_rounded_grows(a, b, 1, lim);
    lemma_whole(b, lim);
    let x = whole(a, lim);
    let y = whole(b, lim);
    assert(x * one() <= y * one()) by (nonlinear_arith)
        requires
            x <= y,
            one() >= 0,
    ;
    lemma_rounded_grows(x * one(), y * one(), y, lim);
    lemma_one(y, lim);
}

/// More of the same makes no smaller quotient.
pub proof fn lemma_quotient_grows(a: nat, b: nat, c: nat, lim: nat)
    requires
        kind(lim),
        a <= b,
        c > 0,
    ensures
        quotient(a, c, lim) <= quotient(b, c, lim),
{
    lemma_rounded_grows(a, b, 1, lim);
    lemma_whole(c, lim);
    let x = whole(a, lim);
    let y = whole(b, lim);
    assert(x * one() <= y * one()) by (nonlinear_arith)
        requires
            x <= y,
            one() >= 0,
    ;
    lemma_rounded_grows(x * one(), y * one(), whole(c, lim), lim);
}

/// A larger numerator makes no smaller fraction.
pub proof fn lemma_literal_grows(a: nat, b: nat, den: nat, lim: nat)
    requires
        kind(lim),
        a <= b,
        den > 0,
    ensures
        literal(a, den, lim) <= literal(b, den, lim),
{
    assert(a * one() <= b * one()) by (nonlinear_arith)
        requires
            a <= b,
            one() >= 0,
    ;
    lemma_rounded_grows(a * one(), b * one(), den, lim);
}

/// The nearest number to the quotient of two integers.
pub fn quotient_of(a: u64, b: u64, lim: u64) -> (r: Binary)
    requires
        kind(lim as nat),
        b > 0,
    ensures
        r.value() == quotient(a as nat, b as nat, lim as nat),
        r.m <= lim,
        r.m == 0 || r.m >= lim / 2,
        r.m == 0 ==> r.e == 64,
        10 <= r.e <= 223,
{
    let x = whole_of(a, lim);
    let y = whole_of(b, lim);
    ratio(x, y, lim)
}

/// The nearest number to a fraction that is written out.
pub fn literal_of(num: u64, den: u64, lim: u64) -> (r: Binary)
    requires
        kind(lim as nat),
        den > 0,
    ensures
        r.value() == literal(num as nat, den as nat, lim as nat),
        r.m <= lim,
        10 <= r.e <= 255,
{
    ratio(num as u128, den as u128, lim)
}

// ── comparing and subtracting ─────────────────────────────────────────────

/// The nearest number to the difference of two.
pub open spec fn apart(a: nat, b: nat, lim: nat) -> nat {
    rounded(
        if a >= b {
            (a - b) as nat
        } else {
            (b - a) as nat
        },
        1,
        lim,
    )
}

/// Whether `a` is at least `b` less `c`, that difference taken by its nearest number.
pub open spec fn keeps_within(a: nat, b: nat, c: nat, lim: nat) -> bool {
    b < c || a >= apart(b, c, lim)
}

pub(crate) fn doubled_reaches(m: u64, d: u32, n: u128) -> (r: bool)
    requires
        n <= 0x1_0000_0000_0000_0000,
    ensures
        r == (m * pow2(d as nat) >= n),
{
    let mut v: u128 = m as u128;
    let mut i: u32 = 0;
    proof {
        lemma2_to64();
        assert(pow2(d as nat) * v == m * pow2(d as nat)) by (nonlinear_arith)
            requires
                v == m,
        ;
    }
    while i < d
        invariant
            n <= 0x1_0000_0000_0000_0000,
            i <= d,
            pow2((d - i) as nat) * v == m * pow2(d as nat),
            v <= 0x2_0000_0000_0000_0000,
        decreases d - i,
    {
        if v >= n {
            proof {
                lemma_pow2_pos((d - i) as nat);
                assert(pow2((d - i) as nat) * v >= v) by (nonlinear_arith)
                    requires
                        pow2((d - i) as nat) >= 1,
                        v >= 0,
                ;
            }
            return true;
        }
        proof {
            lemma_pow2_unfold((d - i) as nat);
            assert(pow2((d - i - 1) as nat) * (2 * v) == pow2((d - i) as nat) * v)
                by (nonlinear_arith)
                requires
                    pow2((d - i) as nat) == 2 * pow2((d - i - 1) as nat),
            ;
        }
        v = v * 2;
        i = i + 1;
    }
    proof {
        assert(pow2(0) * v == v) by (nonlinear_arith)
            requires
                pow2(0) == 1,
        ;
    }
    v >= n
}

/// Dividing both sides by a power of two changes no comparison.
proof fn lemma_compare(m: nat, d: nat, e: nat, n: nat)
    ensures
        (m * pow2(d + e) >= n * pow2(e)) == (m * pow2(d) >= n),
        (m * pow2(d + e) > n * pow2(e)) == (m * pow2(d) > n),
{
    lemma_pow2_adds(d, e);
    lemma_pow2_pos(e);
    let x = m * pow2(d);
    let p = pow2(e);
    assert(m * pow2(d + e) == x * p) by (nonlinear_arith)
        requires
            pow2(d + e) == pow2(d) * p,
            x == m * pow2(d),
    ;
    assert((x * p >= n * p) == (x >= n) && (x * p > n * p) == (x > n)) by (nonlinear_arith)
        requires
            p >= 1,
    ;
}

/// Whether a number is at least another.
pub fn at_least(x: Binary, y: Binary) -> (r: bool)
    ensures
        r == (x.value() >= y.value()),
{
    if x.e >= y.e {
        proof {
            lemma_compare(x.m as nat, (x.e - y.e) as nat, y.e as nat, y.m as nat);
        }
        doubled_reaches(x.m, x.e - y.e, y.m as u128)
    } else {
        proof {
            lemma_compare(y.m as nat, (y.e - x.e) as nat, x.e as nat, x.m as nat);
        }
        !doubled_reaches(y.m, y.e - x.e, x.m as u128 + 1)
    }
}

fn aligned(x: Binary, e: u32) -> (r: u128)
    requires
        10 <= e <= x.e,
        x.value() <= one(),
    ensures
        r * pow2(e as nat) == x.value(),
        r < 0x8000_0000_0000_0000_0000_0000_0000_0000,
{
    let d: u32 = x.e - e;
    proof {
        let v = x.m as nat * pow2(d as nat);
        lemma_pow2_adds(d as nat, e as nat);
        assert(v * pow2(e as nat) == x.value()) by (nonlinear_arith)
            requires
                v == x.m as nat * pow2(d as nat),
                x.value() == x.m as nat * pow2(x.e as nat),
                pow2(x.e as nat) == pow2(d as nat) * pow2(e as nat),
        ;
        lemma_large_powers();
        lemma2_to64();
        if e > 10 {
            lemma_pow2_strictly_increases(10, e as nat);
        }
        assert(v < 0x8000_0000_0000_0000_0000_0000_0000_0000) by (nonlinear_arith)
            requires
                v * pow2(e as nat) <= 0x1_0000_0000_0000_0000 * 0x1_0000_0000_0000_0000,
                pow2(e as nat) >= 1024,
        ;
    }
    widened(x.m, d)
}

/// The nearest number to the difference of two, of which the first is no smaller.
pub fn apart_of(x: Binary, y: Binary, lim: u64) -> (r: Binary)
    requires
        kind(lim as nat),
        10 <= x.e <= 255,
        10 <= y.e <= 255,
        y.value() <= x.value() <= one(),
    ensures
        r.value() == apart(x.value(), y.value(), lim as nat),
{
    let e: u32 = if x.e < y.e {
        x.e
    } else {
        y.e
    };
    let a = aligned(x, e);
    let b = aligned(y, e);
    let ghost p = pow2(e as nat);
    proof {
        lemma_pow2_pos(e as nat);
        assert(b <= a) by (nonlinear_arith)
            requires
                b * p <= a * p,
                p >= 1,
        ;
    }
    let r = nearest(a - b, 1, lim);
    proof {
        let d = (a - b) as nat;
        lemma_shifted(d, 1, lim as nat, e as nat);
        assert(d * p == x.value() - y.value()) by (nonlinear_arith)
            requires
                d == a - b,
                a * p == x.value(),
                b * p == y.value(),
        ;
        lemma_pow2_adds(r.e as nat, e as nat);
        assert(r.value() * p == r.m as nat * pow2((r.e + e) as nat)) by (nonlinear_arith)
            requires
                r.value() == r.m as nat * pow2(r.e as nat),
                pow2((r.e + e) as nat) == pow2(r.e as nat) * p,
        ;
    }
    Binary { m: r.m, e: r.e + e }
}

// ── sevenths ──────────────────────────────────────────────────────────────

/// How many whole sevenths a quotient makes, each step taken by its nearest number.
pub open spec fn sevenths(a: nat, b: nat) -> nat {
    rounded(7 * quotient(a, b, DOUBLE as nat), 1, DOUBLE as nat) / one()
}

pub(crate) fn halved(m: u64, d: u32) -> (r: u64)
    ensures
        r == m as nat / pow2(d as nat),
{
    let mut v: u64 = m;
    let mut i: u32 = 0;
    proof {
        lemma2_to64();
        assert(m as nat / 1 == m);
    }
    while i < d
        invariant
            i <= d,
            v == m as nat / pow2(i as nat),
        decreases d - i,
    {
        proof {
            lemma_pow2_pos(i as nat);
            lemma_pow2_unfold((i + 1) as nat);
            div_mod::lemma_div_denominator(m as int, pow2(i as nat) as int, 2);
            assert(pow2(i as nat) * 2 == pow2((i + 1) as nat));
        }
        v = v / 2;
        i = i + 1;
    }
    v
}

/// How many whole sevenths a quotient makes.
pub fn sevenths_of(a: u64, b: u64) -> (r: u64)
    requires
        a <= b,
        b > 0,
    ensures
        r == sevenths(a as nat, b as nat),
{
    let q = quotient_of(a, b, DOUBLE);
    let t = nearest(7 * q.m as u128, 1, DOUBLE);
    let ghost e = (q.e + t.e) as nat;
    proof {
        lemma_quotient_at_most_one(a as nat, b as nat, DOUBLE as nat);
        lemma_large_powers();
        lemma2_to64();
        lemma2_to64_rest();
        if q.m > 0 {
            if q.e > 76 {
                lemma_pow2_strictly_increases(76, q.e as nat);
                lemma_pow2_adds(52, 76);
                assert(q.value() > one()) by (nonlinear_arith)
                    requires
                        q.value() == q.m as nat * pow2(q.e as nat),
                        q.m >= pow2(52),
                        pow2(q.e as nat) > pow2(76),
                        one() == pow2(52) * pow2(76),
                        pow2(52) >= 1,
                ;
            }
        }
        assert(7 * q.m as u128 / 1 == 7 * q.m as u128);
        if t.e > 4 {
            lemma_pow2_strictly_increases(4, t.e as nat);
            assert(pow2(t.e as nat) * (DOUBLE / 2) > 7 * q.m) by (nonlinear_arith)
                requires
                    pow2(t.e as nat) > 16,
                    DOUBLE == 0x20_0000_0000_0000,
                    q.m <= DOUBLE,
            ;
        }
        assert(q.e + t.e <= 128);
        let n = (7 * q.m) as nat;
        lemma_shifted(n, 1, DOUBLE as nat, q.e as nat);
        assert(n * pow2(q.e as nat) == 7 * q.value()) by (nonlinear_arith)
            requires
                n == 7 * q.m,
                q.value() == q.m as nat * pow2(q.e as nat),
        ;
        lemma_pow2_adds(t.e as nat, q.e as nat);
        assert(t.value() * pow2(q.e as nat) == pow2(e) * t.m) by (nonlinear_arith)
            requires
                t.value() == t.m as nat * pow2(t.e as nat),
                pow2(e) == pow2(t.e as nat) * pow2(q.e as nat),
        ;
        let d = (128 - e) as nat;
        lemma_pow2_adds(e, d);
        lemma_pow2_pos(e);
        lemma_pow2_pos(d);
        div_mod::lemma_div_multiples_vanish_quotient(pow2(e) as int, t.m as int, pow2(d) as int);
    }
    halved(t.m, 128 - (q.e + t.e))
}

/// No quotient makes more sevenths than a larger one.
pub proof fn lemma_sevenths_grow(a: nat, b: nat, c: nat)
    requires
        a <= b,
        c > 0,
    ensures
        sevenths(a, c) <= sevenths(b, c),
{
    let lim = DOUBLE as nat;
    lemma_quotient_grows(a, b, c, lim);
    lemma_rounded_grows(7 * quotient(a, c, lim), 7 * quotient(b, c, lim), 1, lim);
    lemma_pow2_pos(128);
    div_mod::lemma_div_is_ordered(
        rounded(7 * quotient(a, c, lim), 1, lim) as int,
        rounded(7 * quotient(b, c, lim), 1, lim) as int,
        one() as int,
    );
}

/// Nothing makes no sevenths, and the whole makes seven.
pub proof fn lemma_sevenths_ends(c: nat)
    requires
        c > 0,
    ensures
        sevenths(0, c) == 0,
        sevenths(c, c) == 7,
{
    let lim = DOUBLE as nat;
    lemma_whole(0, lim);
    lemma_whole(c, lim);
    lemma_pow2_pos(128);
    let w = whole(c, lim);
    // nothing
    assert(0 * one() == 0);
    assert(0nat / w == 0) by (nonlinear_arith)
        requires
            w > 0,
    ;
    assert(spacing(0, lim) == 1);
    assert(w * 1 == w) by (nonlinear_arith);
    assert(0nat % w == 0) by (nonlinear_arith)
        requires
            w > 0,
    ;
    assert(quotient(0, c, lim) == 0);
    lemma_whole(0, lim);
    assert(rounded(0, 1, lim) == 0);
    assert(0nat / one() == 0) by (nonlinear_arith)
        requires
            one() > 0,
    ;
    // the whole
    lemma_one(w, lim);
    lemma2_to64();
    lemma2_to64_rest();
    let n: nat = 7 * pow2(50);
    lemma_pow2_adds(50, 78);
    assert(n / 1 == n && n % 1 == 0);
    assert(spacing(n, lim) == 1);
    assert(n * 1 == n) by (nonlinear_arith);
    assert(rounded(n, 1, lim) == n);
    lemma_shifted(n, 1, lim, 78);
    assert(n * pow2(78) == 7 * one()) by (nonlinear_arith)
        requires
            n == 7 * pow2(50),
            one() == pow2(50) * pow2(78),
    ;
    div_mod::lemma_div_multiples_vanish(7, one() as int);
    assert(one() * 7 == 7 * one());
}

// ── factors ───────────────────────────────────────────────────────────────

/// The nearest number to an integer times a fraction that is written out, each taken by its
/// nearest number first.
pub open spec fn times(a: nat, num: nat, den: nat, lim: nat) -> nat {
    rounded(whole(a, lim) * literal(num, den, lim), 1, lim)
}

/// The nearest number to a product of two.
pub(crate) fn multiplied(x: Binary, y: Binary, lim: u64) -> (r: Binary)
    requires
        kind(lim as nat),
        x.m <= DOUBLE,
        y.m <= DOUBLE,
        x.e <= 3_000,
        y.e <= 3_000,
    ensures
        r.value() == rounded(x.value() * y.value(), 1, lim as nat),
        r.m <= lim,
        x.e + y.e <= r.e <= x.e + y.e + 126,
{
    let ghost m = (x.m * y.m) as nat;
    let ghost e = (x.e + y.e) as nat;
    proof {
        assert(0 <= x.m * y.m <= 0x20_0000_0000_0000 * 0x20_0000_0000_0000) by (nonlinear_arith)
            requires
                0 <= x.m <= 0x20_0000_0000_0000,
                0 <= y.m <= 0x20_0000_0000_0000,
        ;
    }
    let t = nearest(x.m as u128 * y.m as u128, 1, lim);
    proof {
        lemma_shifted(m, 1, lim as nat, e);
        lemma_pow2_adds(x.e as nat, y.e as nat);
        assert(m * pow2(e) == x.value() * y.value()) by (nonlinear_arith)
            requires
                m == x.m * y.m,
                x.value() == x.m as nat * pow2(x.e as nat),
                y.value() == y.m as nat * pow2(y.e as nat),
                pow2(e) == pow2(x.e as nat) * pow2(y.e as nat),
        ;
        lemma_pow2_adds(t.e as nat, e);
        assert(t.value() * pow2(e) == t.m as nat * pow2(t.e as nat + e)) by (nonlinear_arith)
            requires
                t.value() == t.m as nat * pow2(t.e as nat),
                pow2(t.e as nat + e) == pow2(t.e as nat) * pow2(e),
        ;
    }
    Binary { m: t.m, e: t.e + (x.e + y.e) }
}

/// Whether an integer is at most another one times a fraction.
pub fn within_factor(b: u64, a: u64, num: u64, den: u64, lim: u64) -> (r: bool)
    requires
        kind(lim as nat),
        den > 0,
    ensures
        r == (whole(b as nat, lim as nat) * one() <= times(
            a as nat,
            num as nat,
            den as nat,
            lim as nat,
        )),
{
    let x = nearest(a as u128, 1, lim);
    let c = literal_of(num, den, lim);
    let y = nearest(b as u128, 1, lim);
    proof {
        lemma_pow2_adds(y.e as nat, 128);
        assert(y.value() * one() == y.m as nat * pow2((y.e + 128) as nat)) by (nonlinear_arith)
            requires
                y.value() == y.m as nat * pow2(y.e as nat),
                pow2((y.e + 128) as nat) == pow2(y.e as nat) * one(),
        ;
    }
    at_least(multiplied(x, c, lim), Binary { m: y.m, e: y.e + 128 })
}

/// The integer nearest to `p` hundredths of the way from 1 to `n`, each step taken by its nearest
/// number. What lies in the middle of two integers goes to the larger one.
pub open spec fn hundredths(p: nat, n: nat) -> nat {
    let way = rounded((whole(n, DOUBLE as nat) - 1) as nat, 1, DOUBLE as nat);
    (rounded(way * quotient(p, 100, DOUBLE as nat), 1, DOUBLE as nat) + one() / 2) / one()
}

/// The integer nearest to a number at the scale of fractions, but no more than `top`.
fn integer_of(t: Binary, top: u64) -> (r: u64)
    requires
        10 <= t.e <= 1_000,
        t.m <= DOUBLE,
    ensures
        r as nat == if (t.value() + one() / 2) / one() <= top {
            (t.value() + one() / 2) / one()
        } else {
            top as nat
        },
{
    let ghost k = (t.value() + one() / 2) / one();
    proof {
        lemma_large_powers();
        lemma_pow2_pos(128);
        lemma_pow2_unfold(128);
        assert(one() / 2 == pow2(127));
    }
    if t.e >= 128 {
        let d: u32 = t.e - 128;
        let ghost v = t.m as nat * pow2(d as nat);
        proof {
            lemma_pow2_adds(d as nat, 128);
            assert(t.value() == v * one()) by (nonlinear_arith)
                requires
                    t.value() == t.m as nat * pow2(t.e as nat),
                    pow2(t.e as nat) == pow2(d as nat) * one(),
                    v == t.m as nat * pow2(d as nat),
            ;
            div_mod::lemma_fundamental_div_mod_converse(
                (t.value() + one() / 2) as int,
                one() as int,
                v as int,
                (one() / 2) as int,
            );
            assert(k == v);
        }
        if doubled_reaches(t.m, d, top as u128) {
            return top;
        }
        widened(t.m, d) as u64
    } else {
        let d: u32 = 127 - t.e;
        let ghost p = pow2(t.e as nat);
        proof {
            lemma_pow2_adds(d as nat, t.e as nat);
            lemma_pow2_adds(1, d as nat);
            lemma2_to64();
            lemma_pow2_pos(t.e as nat);
            lemma_pow2_pos(d as nat);
            lemma_pow2_strictly_increases(d as nat, 118);
            lemma_pow2_unfold(118);
        }
        let half: u128 = widened(1, d);
        let r: u128 = (t.m as u128 + half) / (2 * half);
        proof {
            let a = (t.m + half) as nat;
            let b = (2 * half) as nat;
            assert(t.value() + one() / 2 == p * a && one() == p * b) by (nonlinear_arith)
                requires
                    t.value() == t.m as nat * p,
                    one() / 2 == half * p,
                    one() == 2 * (half * p),
                    a == t.m + half,
                    b == 2 * half,
            ;
            div_mod::lemma_div_multiples_vanish_quotient(p as int, a as int, b as int);
            assert(k == a / b);
            assert(r <= t.m + 1) by (nonlinear_arith)
                requires
                    r == (t.m + half) / (2 * half),
                    half >= 1,
                    t.m >= 0,
            ;
        }
        if r <= top as u128 {
            r as u64
        } else {
            top
        }
    }
}

/// The integer nearest to `p` hundredths of the way from 1 to `n`, but no more than `n - 1`.
pub fn hundredths_of(p: u64, n: u64) -> (r: u64)
    requires
        n > 0,
    ensures
        r as nat == if hundredths(p as nat, n as nat) < n {
            hundredths(p as nat, n as nat)
        } else {
            (n - 1) as nat
        },
{
    let all = whole_of(n, DOUBLE);
    let w = nearest(all - 1, 1, DOUBLE);
    let q = quotient_of(p, 100, DOUBLE);
    integer_of(multiplied(w, q, DOUBLE), n - 1)
}

/// More hundredths make no smaller integer.
pub proof fn lemma_hundredths_grow(p: nat, q: nat, n: nat)
    requires
        p <= q,
    ensures
        hundredths(p, n) <= hundredths(q, n),
{
    let lim = DOUBLE as nat;
    let way = rounded((whole(n, lim) - 1) as nat, 1, lim);
    let a = quotient(p, 100, lim);
    let b = quotient(q, 100, lim);
    lemma_quotient_grows(p, q, 100, lim);
    assert(way * a <= way * b) by (nonlinear_arith)
        requires
            a <= b,
            way >= 0,
    ;
    lemma_rounded_grows(way * a, way * b, 1, lim);
    lemma_pow2_pos(128);
    div_mod::lemma_div_is_ordered(
        (rounded(way * a, 1, lim) + one() / 2) as int,
        (rounded(way * b, 1, lim) + one() / 2) as int,
        one() as int,
    );
}

// ── laws ──────────────────────────────────────────────────────────────────
/// How far two numbers are from each other.
pub open spec fn distance(a: int, b: int) -> int {
    if a >= b {
        a - b
    } else {
        b - a
    }
}

/// A rounded number is within half a step of the ratio, and a step is one part in so many of it as
/// there are leading digits.
pub proof fn law_rounding_is_close(num: nat, den: nat, lim: nat)
    requires
        kind(lim),
        den > 0,
    ensures
        2 * distance((rounded(num, den, lim) * den) as int, num as int) <= den * spacing(
            num / den,
            lim,
        ),
        num / den < lim ==> 2 * distance((rounded(num, den, lim) * den) as int, num as int) <= den,
        num / den >= lim ==> distance((rounded(num, den, lim) * den) as int, num as int) * lim
            <= num,
{
    lemma_parts(num, den, lim);
    lemma_spacing(num / den, lim);
    let space = spacing(num / den, lim);
    let unit = den * space;
    let q = num / unit;
    let rest = num % unit;
    let r = rounded(num, den, lim);
    assert((q * space) * den == unit * q && ((q + 1) * space) * den == unit * q + unit)
        by (nonlinear_arith)
        requires
            unit == den * space,
    ;
    let d = distance((r * den) as int, num as int);
    assert(2 * d <= unit);
    if num / den < lim {
        assert(den * 1 == den);
    } else {
        let half = lim / 2;
        assert(2 * half == lim);
        assert(unit * half <= unit * q) by (nonlinear_arith)
            requires
                half <= q,
                unit >= 0,
        ;
        assert(2 * (d * lim) <= unit * lim && unit * lim == 2 * (unit * half)) by (nonlinear_arith)
            requires
                2 * d <= unit,
                lim >= 0,
                lim == 2 * half,
        ;
    }
}

proof fn lemma_spacing_power(x: nat, lim: nat)
    requires
        kind(lim),
    ensures
        exists|e: nat| spacing(x, lim) == #[trigger] pow2(e),
    decreases x,
{
    lemma2_to64();
    if x >= lim {
        lemma_spacing_power(x / 2, lim);
        let e = choose|e: nat| spacing(x / 2, lim) == #[trigger] pow2(e);
        lemma_pow2_unfold(e + 1);
        assert(spacing(x, lim) == pow2(e + 1));
    } else {
        assert(spacing(x, lim) == pow2(0));
    }
}

/// No number with so many leading digits is nearer to a ratio than the one that it is rounded to.
pub proof fn law_rounded_is_nearest(num: nat, den: nat, lim: nat, m: nat, e: nat)
    requires
        kind(lim),
        den > 0,
        m <= lim,
    ensures
        distance((rounded(num, den, lim) * den) as int, num as int) <= distance(
            (m * pow2(e) * den) as int,
            num as int,
        ),
{
    lemma_parts(num, den, lim);
    lemma_spacing(num / den, lim);
    lemma_spacing_power(num / den, lim);
    let space = spacing(num / den, lim);
    let f = choose|f: nat| space == #[trigger] pow2(f);
    let unit = den * space;
    let q = num / unit;
    let rest = num % unit;
    let y = m * pow2(e);
    let r = rounded(num, den, lim);
    assert((q * space) * den == unit * q && ((q + 1) * space) * den == unit * q + unit)
        by (nonlinear_arith)
        requires
            unit == den * space,
    ;
    let d = distance((r * den) as int, num as int);
    assert(2 * d <= unit);
    assert(d <= rest && d <= unit - rest);
    if e >= f {
        // A multiple of the step: at or below the ratio by `rest` at least, or above it.
        lemma_pow2_adds((e - f) as nat, f);
        let t = m * pow2((e - f) as nat);
        assert(y == t * space) by (nonlinear_arith)
            requires
                y == m * pow2(e),
                pow2(e) == pow2((e - f) as nat) * space,
                t == m * pow2((e - f) as nat),
        ;
        assert(y * den == unit * t) by (nonlinear_arith)
            requires
                y == t * space,
                unit == den * space,
        ;
        if t <= q {
            assert(unit * t <= unit * q) by (nonlinear_arith)
                requires
                    t <= q,
                    unit >= 0,
            ;
        } else {
            assert(unit * t >= unit * q + unit) by (nonlinear_arith)
                requires
                    t >= q + 1,
                    unit >= 0,
            ;
        }
    } else {
        // A finer step than the ratio has: such numbers end below its first step.
        lemma_pow2_strictly_increases(e, f);
        lemma_pow2_adds(1, (f - 1) as nat);
        lemma2_to64();
        assert(pow2(f) == 2 * pow2((f - 1) as nat));
        if e < f - 1 {
            lemma_pow2_strictly_increases(e, (f - 1) as nat);
        }
        assert(2 * pow2(e) <= space);
        assert(space >= 2);
        assert(num / den >= lim);
        let half = lim / 2;
        assert(2 * half == lim);
        assert(y <= half * space) by (nonlinear_arith)
            requires
                y == m * pow2(e),
                m <= 2 * half,
                2 * pow2(e) <= space,
        ;
        assert(y * den <= unit * half) by (nonlinear_arith)
            requires
                y <= half * space,
                unit == den * space,
                den >= 0,
        ;
        assert(unit * half <= unit * q) by (nonlinear_arith)
            requires
                half <= q,
                unit >= 0,
        ;
    }
}

/// A ratio that is a number with so many leading digits is rounded to itself.
pub proof fn law_numbers_stay(den: nat, lim: nat, m: nat, e: nat)
    requires
        kind(lim),
        den > 0,
        m <= lim,
    ensures
        rounded(m * pow2(e) * den, den, lim) == m * pow2(e),
{
    let y = m * pow2(e);
    let r = rounded(y * den, den, lim);
    law_rounded_is_nearest(y * den, den, lim, m, e);
    assert(r * den == y * den);
    assert(r == y) by (nonlinear_arith)
        requires
            r * den == y * den,
            den > 0,
    ;
}

proof fn lemma_small_whole(n: nat, lim: nat)
    requires
        kind(lim),
        n <= lim,
    ensures
        whole(n, lim) == n,
{
    lemma2_to64();
    law_numbers_stay(1, lim, n, 0);
    assert(n * 1 * 1 == n);
}

/// An integer multiple makes that multiple, of one as of another: a quotient that comes out even,
/// a fraction that is a whole number, and a product with it.
pub proof fn law_whole_ratios_come_out(a: nat, k: nat, den: nat, lim: nat)
    requires
        kind(lim),
        den > 0,
        a * k <= lim,
        a <= lim,
        k <= lim,
        den * k <= lim,
        den <= lim,
    ensures
        whole(a, lim) == a,
        quotient(den * k, den, lim) == k * one(),
        literal(den * k, den, lim) == k * one(),
        times(a, den * k, den, lim) == a * k * one(),
{
    lemma_small_whole(a, lim);
    lemma_small_whole(den, lim);
    lemma_small_whole(den * k, lim);
    law_numbers_stay(den, lim, k, 128);
    assert((den * k) * one() == k * pow2(128) * den) by (nonlinear_arith)
        requires
            one() == pow2(128),
    ;
    law_numbers_stay(1, lim, a * k, 128);
    assert(a * (k * one()) == a * k * pow2(128) * 1) by (nonlinear_arith)
        requires
            one() == pow2(128),
    ;
}

/// Numbers are as far apart one way as the other, and not at all from themselves; a number that is
/// no smaller than another keeps within any bound of it, and an integer that is below another by
/// more than the bound does not.
pub proof fn law_apart_is_symmetric(m: nat, e: nat, a: nat, b: nat, c: nat, lim: nat)
    requires
        kind(lim),
        m <= lim,
    ensures
        apart(a, b, lim) == apart(b, a, lim),
        apart(b, b, lim) == 0,
        m * pow2(e) >= b ==> keeps_within(m * pow2(e), b, c, lim),
        a + c < b <= lim ==> !keeps_within(a, b, c, lim),
{
    let x = m * pow2(e);
    lemma2_to64();
    law_numbers_stay(1, lim, 0, 0);
    assert(0nat * pow2(0) * 1 == 0) by (nonlinear_arith);
    law_numbers_stay(1, lim, m, e);
    assert(x * 1 == x);
    if x >= b && b >= c {
        lemma_rounded_grows((b - c) as nat, x, 1, lim);
    }
    if a + c < b <= lim {
        lemma_small_whole((b - c) as nat, lim);
    }
}

/// Sevenths of a part of a power of two are those of the part itself, rounded down.
pub proof fn law_sevenths_are_of_the_part(a: nat, e: nat)
    requires
        e <= 32,
        a <= pow2(e),
    ensures
        sevenths(a, pow2(e)) * pow2(e) <= 7 * a < (sevenths(a, pow2(e)) + 1) * pow2(e),
{
    let lim = DOUBLE as nat;
    lemma2_to64();
    let b = pow2(e);
    if e < 32 {
        lemma_pow2_strictly_increases(e, 32);
    }
    lemma_small_whole(a, lim);
    lemma_small_whole(b, lim);
    lemma_pow2_pos(e);
    lemma_pow2_adds((128 - e) as nat, e);
    let p = pow2((128 - e) as nat);
    assert(a * one() == a * p * b) by (nonlinear_arith)
        requires
            one() == p * b,
    ;
    law_numbers_stay(b, lim, a, (128 - e) as nat);
    assert(quotient(a, b, lim) == a * p);
    law_numbers_stay(1, lim, 7 * a, (128 - e) as nat);
    assert(7 * (a * p) == 7 * a * p * 1) by (nonlinear_arith);
    let s = sevenths(a, b);
    let t = 7 * a * p;
    assert(s == t / one());
    lemma_pow2_pos((128 - e) as nat);
    lemma_pow2_pos(128);
    assert(s * one() <= t < (s + 1) * one()) by (nonlinear_arith)
        requires
            s == t / one(),
            one() > 0,
    ;
    assert(s * b <= 7 * a < (s + 1) * b) by (nonlinear_arith)
        requires
            s * one() <= t < (s + 1) * one(),
            one() == p * b,
            t == 7 * a * p,
            p > 0,
    ;
}

/// The place that lies so many hundredths of the way from the first of `n` to the last is the
/// nearest one: no other integer is nearer to that point of the way.
pub proof fn law_hundredths_are_nearest(p: nat, n: nat)
    requires
        p <= 100,
        1 <= n <= 0x1_0000_0000,
    ensures
        distance((100 * hundredths(p, n)) as int, (p * (n - 1)) as int) <= 50,
{
    let lim = DOUBLE as nat;
    let one = one();
    lemma2_to64();
    lemma_pow2_pos(128);
    lemma_pow2_adds(64, 64);
    lemma_small_whole(n, lim);
    let way = (n - 1) as nat;
    lemma_small_whole(way, lim);
    lemma_small_whole(p, lim);
    lemma_small_whole(100, lim);
    let q = quotient(p, 100, lim);
    assert(q == rounded(p * one, 100, lim));
    let t = rounded(way * q, 1, lim);
    let k = hundredths(p, n);
    assert(k == (t + one / 2) / one);
    // The quotient by 100 is off by one part in `lim` at most.
    law_rounding_is_close(p * one, 100, lim);
    let d1 = distance((q * 100) as int, (p * one) as int);
    assert(d1 * lim <= p * one) by {
        if p == 0 {
            assert(0 * one == 0) by (nonlinear_arith);
            law_numbers_stay(100, lim, 0, 0);
            assert(0nat * pow2(0) * 100 == 0) by (nonlinear_arith);
            assert(0 * lim == 0) by (nonlinear_arith);
        } else {
            assert(p * one >= one) by (nonlinear_arith)
                requires
                    p >= 1,
                    one >= 0,
            ;
            assert((p * one) / 100 >= lim) by {
                assert(one >= 100 * lim);
                div_mod::lemma_div_is_ordered((100 * lim) as int, (p * one) as int, 100);
            }
        }
    }
    // The product is off by one part in `lim` at most, or by less than one.
    law_rounding_is_close(way * q, 1, lim);
    let d2 = distance((t * 1) as int, (way * q) as int);
    assert(d2 * lim <= way * q + lim) by {
        assert((way * q) / 1 == way * q);
        if way * q < lim {
            assert(2 * d2 <= 1);
            assert(d2 == 0);
            assert(0 * lim == 0) by (nonlinear_arith);
        }
    }
    let h = one / 2;
    assert(2 * h == one) by {
        lemma_pow2_unfold(128);
    }
    assert(k * one <= t + h < (k + 1) * one) by (nonlinear_arith)
        requires
            k == (t + h) / one,
            one > 0,
    ;
    assert(distance((k * one) as int, t as int) <= h) by {
        assert((k + 1) * one == k * one + one) by (nonlinear_arith);
    }
    lemma_hundredths_bound(p, way, k, q, t, one, lim);
}

proof fn lemma_hundredths_bound(p: nat, way: nat, k: nat, q: nat, t: nat, one: nat, lim: nat)
    requires
        p <= 100,
        way < 0x1_0000_0000,
        lim == DOUBLE,
        one >= 100 * lim,
        distance((q * 100) as int, (p * one) as int) * lim <= p * one,
        distance(t as int, (way * q) as int) * lim <= way * q + lim,
        2 * distance((k * one) as int, t as int) <= one,
    ensures
        distance((100 * k) as int, (p * way) as int) <= 50,
{
    let d1 = distance((q * 100) as int, (p * one) as int);
    let d2 = distance(t as int, (way * q) as int);
    let d3 = distance((k * one) as int, t as int);
    let e = distance((100 * k) as int, (p * way) as int);
    // 100 k one lies within 100 d3 + 100 d2 + way d1 of p way one.
    let a = (100 * (k * one)) as int;
    let b = (100 * t) as int;
    let c = (100 * (way * q)) as int;
    let g = (p * way) * one;
    assert(c == way * (q * 100)) by (nonlinear_arith)
        requires
            c == 100 * (way * q),
    ;
    assert(distance(c, g as int) <= way * d1) by {
        let u = (q * 100) as int;
        let v = (p * one) as int;
        assert(g == way * v) by (nonlinear_arith)
            requires
                g == (p * way) * one,
                v == p * one,
        ;
        if u >= v {
            assert(way * u - way * v == way * (u - v) && way * (u - v) >= 0) by (nonlinear_arith)
                requires
                    u >= v,
                    way >= 0,
            ;
        } else {
            assert(way * v - way * u == way * (v - u) && way * (v - u) >= 0) by (nonlinear_arith)
                requires
                    v >= u,
                    way >= 0,
            ;
        }
    }
    assert(distance(a, g as int) <= 100 * d3 + 100 * d2 + way * d1);
    assert(distance(a, g as int) == e * one) by {
        let x = (100 * k) as int;
        let y = (p * way) as int;
        assert(a == x * one) by (nonlinear_arith)
            requires
                a == 100 * (k * one),
                x == 100 * k,
        ;
        assert(x * one - y * one == (x - y) * one && y * one - x * one == (y - x) * one)
            by (nonlinear_arith);
        if x >= y {
            assert((x - y) * one >= 0) by (nonlinear_arith)
                requires
                    x >= y,
                    one >= 0,
            ;
        } else {
            assert((y - x) * one > 0) by (nonlinear_arith)
                requires
                    y > x,
                    one > 0,
            ;
        }
    }
    // Scaled by lim: each error is small beside lim * one.
    assert((way * d1) * lim <= way * (p * one)) by (nonlinear_arith)
        requires
            d1 * lim <= p * one,
            way >= 0,
    ;
    assert(way * (p * one) <= 0x1_0000_0000 * (100 * one)) by (nonlinear_arith)
        requires
            0 <= way < 0x1_0000_0000,
            0 <= p <= 100,
            one >= 0,
    ;
    assert(d1 <= p * one) by (nonlinear_arith)
        requires
            d1 * lim <= p * one,
            lim >= 1,
            d1 >= 0,
    ;
    assert(q * 100 <= 2 * (p * one));
    assert(p * one <= 100 * one) by (nonlinear_arith)
        requires
            p <= 100,
            one >= 0,
    ;
    assert(q <= 2 * one);
    assert(way * q <= 0x1_0000_0000 * (2 * one)) by (nonlinear_arith)
        requires
            0 <= way < 0x1_0000_0000,
            0 <= q <= 2 * one,
    ;
    assert((100 * d2) * lim == 100 * (d2 * lim)) by (nonlinear_arith);
    assert((100 * d3) * lim == 100 * (d3 * lim)) by (nonlinear_arith);
    assert(2 * (d3 * lim) <= one * lim) by (nonlinear_arith)
        requires
            2 * d3 <= one,
            lim >= 0,
    ;
    assert((e * one) * lim <= (100 * d3) * lim + (100 * d2) * lim + (way * d1) * lim)
        by (nonlinear_arith)
        requires
            e * one <= 100 * d3 + 100 * d2 + way * d1,
            lim >= 0,
    ;
    assert((e * one) * lim == e * (one * lim) && 50 * (one * lim) == (50 * one) * lim)
        by (nonlinear_arith);
    let w = one * lim;
    assert(w == 0x20_0000_0000_0000 * one);
    assert(e * w < 51 * w);
    assert(e < 51) by (nonlinear_arith)
        requires
            e * w < 51 * w,
            w > 0,
    ;
}

/// Whether a value is that of a number with so many leading digits: `m`, doubled `e` times.
pub open spec fn is_number(x: nat, m: nat, e: nat, lim: nat) -> bool {
    m <= lim && x == m * pow2(e)
}

/// What a ratio is rounded to is a number with so many leading digits.
pub proof fn law_rounded_is_a_number(num: nat, den: nat, lim: nat)
    requires
        kind(lim),
        den > 0,
    ensures
        exists|m: nat, e: nat| #[trigger] is_number(rounded(num, den, lim), m, e, lim),
{
    lemma_parts(num, den, lim);
    lemma_spacing_power(num / den, lim);
    let space = spacing(num / den, lim);
    let f = choose|f: nat| space == #[trigger] pow2(f);
    let q = num / (den * space);
    if rounded(num, den, lim) == q * space {
        assert(is_number(rounded(num, den, lim), q, f, lim));
    } else {
        assert(is_number(rounded(num, den, lim), q + 1, f, lim));
    }
}

/// An integer times a fraction of small integers is that fraction of it, to less than one part in
/// the fraction's divisor.
pub proof fn law_times_is_close(n: nat, num: nat, den: nat)
    requires
        n <= 0x1_0000_0000,
        num <= 1000,
        0 < den <= 1000,
    ensures
        distance((den * times(n, num, den, DOUBLE as nat)) as int, (n * num * one()) as int) < one(),
{
    let lim = DOUBLE as nat;
    let one = one();
    lemma2_to64();
    lemma_pow2_adds(64, 64);
    lemma_small_whole(n, lim);
    let lit = literal(num, den, lim);
    let t = times(n, num, den, lim);
    law_rounding_is_close(num * one, den, lim);
    let d1 = distance((lit * den) as int, (num * one) as int);
    assert(d1 * lim <= num * one) by {
        if num == 0 {
            law_numbers_stay(den, lim, 0, 0);
            assert(0 * one == 0 && 0nat * pow2(0) * den == 0 && 0nat * pow2(0) == 0 && 0 * den == 0
                && 0 * lim == 0) by (nonlinear_arith);
        } else {
            assert(num * one >= one) by (nonlinear_arith)
                requires
                    num >= 1,
                    one >= 0,
            ;
            assert(one >= lim * 1000);
            assert(lim * den <= lim * 1000) by (nonlinear_arith)
                requires
                    den <= 1000,
                    lim >= 0,
            ;
            assert((num * one) / den >= lim) by (nonlinear_arith)
                requires
                    num * one >= lim * den,
                    den > 0,
            ;
        }
    }
    law_rounding_is_close(n * lit, 1, lim);
    let d2 = distance((t * 1) as int, (n * lit) as int);
    assert(d2 * lim <= n * lit + lim) by {
        assert((n * lit) / 1 == n * lit);
        if n * lit < lim {
            assert(d2 == 0);
            assert(0 * lim == 0) by (nonlinear_arith);
        }
    }
    let u = (lit * den) as int;
    let v = (num * one) as int;
    let x = (den * t) as int;
    let y = (n * u) as int;
    let z = (n * v) as int;
    assert(n * num * one == z) by (nonlinear_arith)
        requires
            z == n * v,
            v == num * one,
    ;
    assert(y == den * (n * lit)) by (nonlinear_arith)
        requires
            y == n * u,
            u == lit * den,
    ;
    let e = distance(x, z);
    assert(distance(x, y) == den * d2) by (nonlinear_arith)
        requires
            x == den * t,
            y == den * (n * lit),
            d2 == distance(t as int, (n * lit) as int),
            den > 0,
    ;
    assert(distance(y, z) == n * d1) by (nonlinear_arith)
        requires
            y == n * u,
            z == n * v,
            d1 == distance(u, v),
            n >= 0,
    ;
    assert(e <= den * d2 + n * d1);
    assert((n * d1) * lim <= n * v) by (nonlinear_arith)
        requires
            d1 * lim <= v,
            n >= 0,
    ;
    assert((den * d2) * lim <= y + den * lim) by (nonlinear_arith)
        requires
            d2 * lim <= n * lit + lim,
            y == den * (n * lit),
            den >= 0,
    ;
    assert(d1 <= v) by (nonlinear_arith)
        requires
            d1 * lim <= v,
            lim >= 1,
            d1 >= 0,
    ;
    assert(y <= 2 * (n * v)) by (nonlinear_arith)
        requires
            y == n * u,
            u <= 2 * v,
            n >= 0,
    ;
    assert(v <= 1000 * one) by (nonlinear_arith)
        requires
            v == num * one,
            num <= 1000,
            one >= 0,
    ;
    assert(n * v <= 0x1_0000_0000 * (1000 * one)) by (nonlinear_arith)
        requires
            0 <= n <= 0x1_0000_0000,
            0 <= v <= 1000 * one,
    ;
    assert(den * lim <= 1000 * lim) by (nonlinear_arith)
        requires
            den <= 1000,
            lim >= 0,
    ;
    assert(e * lim <= (den * d2) * lim + (n * d1) * lim) by (nonlinear_arith)
        requires
            e <= den * d2 + n * d1,
            lim >= 0,
    ;
    assert(one * lim == 0x20_0000_0000_0000 * one);
    assert(e * lim < one * lim);
    assert(e < one) by (nonlinear_arith)
        requires
            e * lim < one * lim,
            lim > 0,
    ;
}

} // verus!
