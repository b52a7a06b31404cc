//! Natural logarithms of ratios, by series, and their multiples rounded to integers.

use vstd::arithmetic::div_mod::*;
use vstd::arithmetic::mul::*;
use vstd::arithmetic::power2::*;
use vstd::prelude::*;

verus! {

/// `z^(2i + 1)`.
pub open spec fn odd_power(z: real, i: nat) -> real
    decreases i,
{
    if i == 0 {
        z
    } else {
        odd_power(z, (i - 1) as nat) * (z * z)
    }
}

/// The first terms of the inverse hyperbolic tangent of `z`: `z + z^3/3 + z^5/5 + ...`.
pub open spec fn atanh_sum(z: real, terms: nat) -> real
    decreases terms,
{
    if terms == 0 {
        0 as real
    } else {
        atanh_sum(z, (terms - 1) as nat) + odd_power(z, (terms - 1) as nat) / ((2 * terms
            - 1) as real)
    }
}

/// `(x - 1) / (x + 1)` for `x = a / b`.
pub open spec fn atanh_argument(a: nat, b: nat) -> real {
    ((a - b) as real) / ((a + b) as real)
}

/// The natural logarithm of `a / b`, for `0 < b <= a`, from so many terms of the series
/// `ln x = 2 atanh((x - 1) / (x + 1))`, after `ln x = ln 2 + ln (x / 2)` has brought `x` below
/// two. It grows with the number of terms, towards the logarithm.
pub open spec fn ln_sum(a: nat, b: nat, terms: nat) -> real
    decreases a - b,
{
    if 0 < b && 2 * b <= a {
        2 as real * atanh_sum(atanh_argument(2, 1), terms) + ln_sum(a, 2 * b, terms)
    } else {
        2 as real * atanh_sum(atanh_argument(a, b), terms)
    }
}

/// How far past the middle between two integers a value may lie and still be rounded down.
pub open spec fn tie_tolerance() -> real {
    1 as real / (pow2(33) as real)
}

/// Whether `r` is the integer closest to `scale * ln(a / b)`: the series gets as far as
/// `r - 1/2`, and never beyond `r + 1/2` by more than the tolerance.
pub open spec fn rounds_log(r: nat, scale: nat, a: nat, b: nat) -> bool {
    &&& exists|terms: nat|
        scale as real * #[trigger] ln_sum(a, b, terms) >= (2 * r - 1) as real / 2 as real
    &&& forall|terms: nat|
        scale as real * #[trigger] ln_sum(a, b, terms) <= (2 * r + 1) as real / 2 as real
            + tie_tolerance()
}

/// Whether `scale * ln(a / b)` lies just past the middle between `r` and `r + 1`: the series gets
/// as far as that, and never beyond by more than the tolerance.
pub open spec fn near_tie(r: nat, scale: nat, a: nat, b: nat) -> bool {
    &&& exists|terms: nat|
        scale as real * #[trigger] ln_sum(a, b, terms) >= (2 * r + 1) as real / 2 as real
    &&& forall|terms: nat|
        scale as real * #[trigger] ln_sum(a, b, terms) <= (2 * r + 1) as real / 2 as real
            + tie_tolerance()
}

/// The powers of a number between zero and one third stay between those bounds.
pub proof fn lemma_odd_power_bounds(z: real, i: nat)
    requires
        0 as real <= z <= 1 as real / 3 as real,
    ensures
        0 as real <= odd_power(z, i) <= 1 as real / 3 as real,
    decreases i,
{
    if i > 0 {
        lemma_odd_power_bounds(z, (i - 1) as nat);
        let u = odd_power(z, (i - 1) as nat);
        assert(0 as real <= u * (z * z) <= 1 as real / 3 as real) by (nonlinear_arith)
            requires
                0 as real <= z <= 1 as real / 3 as real,
                0 as real <= u <= 1 as real / 3 as real,
        ;
    }
}

/// More terms add up to no less.
pub proof fn lemma_atanh_sum_grows(z: real, few: nat, many: nat)
    requires
        0 as real <= z <= 1 as real / 3 as real,
        few <= many,
    ensures
        atanh_sum(z, few) <= atanh_sum(z, many),
    decreases many,
{
    if few < many {
        let last = (many - 1) as nat;
        lemma_atanh_sum_grows(z, few, last);
        lemma_odd_power_bounds(z, last);
        let u = odd_power(z, last);
        let d = (2 * many - 1) as real;
        assert(u / d >= 0 as real) by (nonlinear_arith)
            requires
                u >= 0 as real,
                d >= 1 as real,
        ;
    }
}

/// All that further terms can add is twice the next power.
proof fn lemma_atanh_tail(z: real, few: nat, many: nat)
    requires
        0 as real <= z <= 1 as real / 3 as real,
        few <= many,
    ensures
        atanh_sum(z, many) + 2 as real * odd_power(z, many) <= atanh_sum(z, few) + 2 as real
            * odd_power(z, few),
    decreases many,
{
    if few < many {
        let last = (many - 1) as nat;
        lemma_atanh_tail(z, few, last);
        lemma_odd_power_bounds(z, last);
        let u = odd_power(z, last);
        let d = (2 * many - 1) as real;
        assert(u / d <= u) by (nonlinear_arith)
            requires
                u >= 0 as real,
                d >= 1 as real,
        ;
        assert(u * (z * z) * 2 as real <= u) by (nonlinear_arith)
            requires
                u >= 0 as real,
                0 as real <= z <= 1 as real / 3 as real,
        ;
    }
}

/// No number of terms adds up to more than the first few and twice the next power.
proof fn lemma_atanh_sum_bounded(z: real, few: nat, terms: nat)
    requires
        0 as real <= z <= 1 as real / 3 as real,
    ensures
        atanh_sum(z, terms) <= atanh_sum(z, few) + 2 as real * odd_power(z, few),
{
    lemma_odd_power_bounds(z, few);
    if terms <= few {
        lemma_atanh_sum_grows(z, terms, few);
    } else {
        lemma_atanh_tail(z, few, terms);
        lemma_odd_power_bounds(z, terms);
    }
}

/// Integer division, seen as division of reals.
proof fn lemma_floor(n: nat, d: nat, x: real, y: real)
    requires
        d > 0,
        x == n as real,
        y == d as real,
    ensures
        ((n / d) as real) <= x / y,
        x / y < ((n / d) as real) + 1 as real,
{
    lemma_fundamental_div_mod(n as int, d as int);
    lemma_mod_bound(n as int, d as int);
    let q = n / d;
    let w = q as real;
    assert(n == d * q + n % d);
    assert(d * q <= n < d * q + d);
    assert((d * q) as real == y * w) by (nonlinear_arith)
        requires
            y == d as real,
            w == q as real,
    ;
    assert(w <= x / y && x / y < w + 1 as real) by (nonlinear_arith)
        requires
            y > 0 as real,
            y * w <= x,
            x < y * w + y,
    ;
}

/// The scale of the fixed-point sums.
spec fn unit() -> real {
    pow2(64) as real
}

/// One step of the fixed-point powers: the next one is as close to what it stands for as the
/// last one was, and less than an eighth of it.
proof fn lemma_fixed_power(z: real, num: nat, den: nat, i: nat, u: nat, v: nat)
    requires
        0 < den,
        z == (num as real) / (den as real),
        0 as real <= z <= 1 as real / 3 as real,
        u as real <= unit() * odd_power(z, i) <= u as real + 2 as real,
        v == (u * (num * num)) / (den * den),
    ensures
        v as real <= unit() * odd_power(z, i + 1) <= v as real + 2 as real,
        8 * v <= u,
{
    let w = unit();
    let p = odd_power(z, i);
    assert(odd_power(z, i + 1) == p * (z * z));
    let nn = num * num;
    let dd = den * den;
    lemma_mul_strictly_positive(den as int, den as int);
    let x = u as real;
    let y = v as real;
    let rn = num as real;
    let rd = den as real;
    assert(nn as real == rn * rn) by (nonlinear_arith)
        requires
            nn == num * num,
            rn == num as real,
    ;
    assert(dd as real == rd * rd) by (nonlinear_arith)
        requires
            dd == den * den,
            rd == den as real,
    ;
    assert((u * nn) as real == x * (rn * rn)) by (nonlinear_arith)
        requires
            x == u as real,
            nn as real == rn * rn,
    ;
    lemma_floor(u * nn, dd, x * (rn * rn), rd * rd);
    let zz = z * z;
    assert((x * (rn * rn)) / (rd * rd) == x * zz) by (nonlinear_arith)
        requires
            zz == z * z,
            z == rn / rd,
            rd > 0 as real,
    ;
    assert(0 as real <= zz <= 1 as real / 9 as real) by (nonlinear_arith)
        requires
            zz == z * z,
            0 as real <= z <= 1 as real / 3 as real,
    ;
    assert(y <= w * (p * zz) <= y + 2 as real) by (nonlinear_arith)
        requires
            x <= w * p <= x + 2 as real,
            y <= x * zz,
            x * zz < y + 1 as real,
            0 as real <= zz <= 1 as real / 9 as real,
    ;
    assert(x * zz <= x / 9 as real) by (nonlinear_arith)
        requires
            x >= 0 as real,
            zz <= 1 as real / 9 as real,
    ;
}

/// One step of the fixed-point sums: each falls behind what it stands for by at most three
/// units more.
proof fn lemma_fixed_sum(z: real, i: nat, u: nat, s: nat, k: nat)
    requires
        k == 2 * i + 1,
        u as real <= unit() * odd_power(z, i) <= u as real + 2 as real,
        s as real <= unit() * atanh_sum(z, i) <= (s + 3 * i) as real,
    ensures
        (s + u / k) as real <= unit() * atanh_sum(z, i + 1) <= (s + u / k + 3 * (i + 1)) as real,
{
    let w = unit();
    let p = odd_power(z, i);
    let a = atanh_sum(z, i);
    let x = u as real;
    let d = k as real;
    let q = (u / k) as real;
    lemma_floor(u, k, x, d);
    assert(2 * (i + 1) - 1 == k);
    assert(atanh_sum(z, i + 1) == a + p / d);
    assert(q <= w * (p / d) <= q + 3 as real) by (nonlinear_arith)
        requires
            x <= w * p <= x + 2 as real,
            q <= x / d,
            x / d < q + 1 as real,
            d >= 1 as real,
    ;
    assert(w * (a + p / d) == w * a + w * (p / d)) by (nonlinear_arith);
}

/// `z^(2i + 1)` in fixed point, for `z = num / den`, rounded down at every step.
spec fn fixed_power(num: nat, den: nat, i: nat) -> nat
    decreases i,
{
    if i == 0 {
        (num * pow2(64)) / den
    } else {
        (fixed_power(num, den, (i - 1) as nat) * (num * num)) / (den * den)
    }
}

/// The first terms of `atanh(num / den)` in fixed point.
spec fn fixed_sum(num: nat, den: nat, terms: nat) -> nat
    decreases terms,
{
    if terms == 0 {
        0
    } else {
        fixed_sum(num, den, (terms - 1) as nat) + fixed_power(num, den, (terms - 1) as nat) / (2
            * terms - 1) as nat
    }
}

/// How far the fixed-point numbers are from those that they stand for.
proof fn lemma_fixed(num: nat, den: nat, z: real, i: nat)
    requires
        0 < den,
        3 * num <= den,
        z == (num as real) / (den as real),
    ensures
        0 as real <= z <= 1 as real / 3 as real,
        fixed_power(num, den, i) as real <= unit() * odd_power(z, i) <= fixed_power(
            num,
            den,
            i,
        ) as real + 2 as real,
        fixed_sum(num, den, i) as real <= unit() * atanh_sum(z, i) <= (fixed_sum(num, den, i) + 3
            * i) as real,
        fixed_power(num, den, i) * pow2(3 * i) <= pow2(64),
        fixed_power(num, den, i) <= pow2(64),
        fixed_sum(num, den, i) <= i * pow2(64),
    decreases i,
{
    let rn = num as real;
    let rd = den as real;
    let w = unit();
    assert(3 as real * rn <= rd);
    assert(0 as real <= rn / rd <= 1 as real / 3 as real) by (nonlinear_arith)
        requires
            0 as real <= rn,
            rd > 0 as real,
            3 as real * rn <= rd,
    ;
    lemma2_to64();
    if i == 0 {
        assert((rn * w) / rd == w * (rn / rd)) by (nonlinear_arith)
            requires
                rd > 0 as real,
        ;
        lemma_real_product(num, pow2(64));
        lemma_floor(num * pow2(64), den, rn * w, rd);
        lemma_mul_inequality(num as int, den as int, pow2(64) as int);
        lemma_mul_is_commutative(den as int, pow2(64) as int);
        lemma_div_is_ordered((num * pow2(64)) as int, (pow2(64) * den) as int, den as int);
        lemma_div_multiples_vanish(pow2(64) as int, den as int);
        lemma_mul_is_commutative(pow2(64) as int, den as int);
        assert(w * atanh_sum(z, 0) == 0 as real);
        assert(pow2(3 * i) == 1);
    } else {
        let last = (i - 1) as nat;
        let u = fixed_power(num, den, last);
        let v = fixed_power(num, den, i);
        let k = (2 * i - 1) as nat;
        let c = pow2(3 * last);
        lemma_fixed(num, den, z, last);
        lemma_fixed_power(z, num, den, last, u, v);
        lemma_fixed_sum(z, last, u, fixed_sum(num, den, last), k);
        lemma_pow2_adds(3 * last, 3);
        assert(v * (c * 8) <= u * c) by (nonlinear_arith)
            requires
                8 * v <= u,
        ;
        lemma_div_nonincreasing(u as int, k as int);
        lemma_mul_is_distributive_add_other_way(pow2(64) as int, last as int, 1);
    }
}

/// Twenty-four terms are enough: no number of them gets further by more than a few units.
proof fn lemma_atanh_fixed(num: nat, den: nat, z: real)
    requires
        0 < den,
        3 * num <= den,
        z == (num as real) / (den as real),
    ensures
        fixed_sum(num, den, 24) as real <= unit() * atanh_sum(z, 24),
        forall|terms: nat|
            unit() * #[trigger] atanh_sum(z, terms) <= fixed_sum(num, den, 24) as real
                + 80 as real,
        unit() * (atanh_sum(z, 24) + 2 as real * odd_power(z, 24)) <= fixed_sum(
            num,
            den,
            24,
        ) as real + 80 as real,
        fixed_sum(num, den, 24) <= pow2(64),
{
    let w = unit();
    let s = fixed_sum(num, den, 24);
    let u = fixed_power(num, den, 24);
    lemma_fixed(num, den, z, 24);
    lemma2_to64();
    lemma2_to64_rest();
    lemma_pow2_adds(64, 8);
    assert(u == 0) by (nonlinear_arith)
        requires
            u * pow2(72) <= 0x1_0000_0000_0000_0000,
            pow2(72) == 0x1_0000_0000_0000_0000 * 256,
    ;
    assert(w * (atanh_sum(z, 24) + 2 as real * odd_power(z, 24)) <= s as real + 80 as real) by {
        let b = atanh_sum(z, 24);
        let p = odd_power(z, 24);
        assert(w * (b + 2 as real * p) == w * b + 2 as real * (w * p)) by (nonlinear_arith);
    }
    assert forall|terms: nat| w * #[trigger] atanh_sum(z, terms) <= s as real + 80 as real by {
        lemma_atanh_sum_bounded(z, 24, terms);
        let a = atanh_sum(z, terms);
        let b = atanh_sum(z, 24);
        let p = odd_power(z, 24);
        assert(w * a <= w * b + 2 as real * (w * p)) by (nonlinear_arith)
            requires
                a <= b + 2 as real * p,
                w >= 0 as real,
        ;
    }
    lemma_atanh_sum_bounded(z, 0, 24);
    let b = atanh_sum(z, 24);
    assert(w * b <= w) by (nonlinear_arith)
        requires
            b <= 2 as real * z,
            z <= 1 as real / 3 as real,
            w >= 0 as real,
    ;
}

/// `atanh(num / den)` in fixed point, from 24 terms of its series.
fn atanh_fixed(num: u64, den: u64) -> (sum: u128)
    requires
        0 < den <= 0x2_0000,
        3 * num <= den,
    ensures
        sum == fixed_sum(num as nat, den as nat, 24),
{
    let n: u128 = num as u128;
    let d: u128 = den as u128;
    proof {
        lemma2_to64_rest();
    }
    let mut power: u128 = (n * 0x1_0000_0000_0000_0000) / d;
    let mut sum: u128 = 0;
    let mut i: u128 = 0;
    while i < 24
        invariant
            i <= 24,
            n == num,
            d == den,
            0 < den <= 0x2_0000,
            3 * num <= den,
            pow2(64) == 0x1_0000_0000_0000_0000,
            power == fixed_power(num as nat, den as nat, i as nat),
            sum == fixed_sum(num as nat, den as nat, i as nat),
        decreases 24 - i,
    {
        proof {
            lemma_fixed(num as nat, den as nat, (num as real) / (den as real), i as nat);
            lemma_mul_upper_bound(n as int, 0x1_0000, n as int, 0x1_0000);
            lemma_mul_upper_bound(d as int, 0x2_0000, d as int, 0x2_0000);
            lemma_mul_strictly_positive(d as int, d as int);
            lemma_mul_upper_bound(
                power as int,
                0x1_0000_0000_0000_0000,
                n * n,
                0x1_0000_0000,
            );
            lemma_div_nonincreasing(power as int, 2 * i + 1);
            assert(2 * (i + 1) - 1 == 2 * i + 1);
        }
        sum = sum + power / (2 * i + 1);
        power = (power * (n * n)) / (d * d);
        i = i + 1;
    }
    sum
}

proof fn lemma_real_product(a: nat, b: nat)
    ensures
        (a * b) as real == (a as real) * (b as real),
{
    assert((a * b) as real == (a as real) * (b as real)) by (nonlinear_arith);
}

proof fn lemma_associates(a: real, b: real, c: real)
    ensures
        (a * b) * c == a * (b * c),
{
    assert((a * b) * c == a * (b * c)) by (nonlinear_arith);
}

proof fn lemma_commutes(a: real, b: real)
    ensures
        a * b == b * a,
{
    assert(a * b == b * a) by (nonlinear_arith);
}

proof fn lemma_distributes(a: real, b: real, c: real)
    ensures
        a * (b + c) == a * b + a * c,
{
    assert(a * (b + c) == a * b + a * c) by (nonlinear_arith);
}

proof fn lemma_scales(c: real, a: real, b: real)
    requires
        c >= 0 as real,
        a <= b,
    ensures
        c * a <= c * b,
{
    assert(c * a <= c * b) by (nonlinear_arith)
        requires
            c >= 0 as real,
            a <= b,
    ;
}

proof fn lemma_unscales(c: real, a: real, b: real)
    requires
        c > 0 as real,
        c * a <= c * b,
    ensures
        a <= b,
{
    assert(a <= b) by (nonlinear_arith)
        requires
            c > 0 as real,
            c * a <= c * b,
    ;
}

/// A multiple of a logarithm, taken apart into the sums that it is made of.
proof fn lemma_log_parts(w: real, m: real, h: real, p: real, q: real, l: real)
    requires
        l == (2 as real * h) * p + 2 as real * q,
    ensures
        w * (m * l) == 2 as real * (m * (h * (w * p) + w * q)),
{
    let s = h * p + q;
    lemma_associates(2 as real, h, p);
    assert(l == 2 as real * s);
    lemma_commutes(m, l);
    lemma_associates(2 as real, s, m);
    lemma_commutes(s, m);
    assert(m * l == 2 as real * (m * s));
    lemma_commutes(w, m * l);
    lemma_associates(2 as real, m * s, w);
    lemma_associates(m, s, w);
    lemma_commutes(s, w);
    assert(w * (m * l) == 2 as real * (m * (w * s)));
    lemma_distributes(w, h * p, q);
    lemma_associates(w, h, p);
    lemma_commutes(w, h);
    lemma_associates(h, w, p);
    assert(w * s == h * (w * p) + w * q);
}

/// The fixed-point sum behind a count, as a real number, and how the count rounds it.
proof fn lemma_scaled_sum(m: nat, halvings: nat, third: nat, rest: nat, r: nat, a: real, rx: real)
    requires
        a == halvings as real * third as real + rest as real,
        rx == 2 as real * (m as real * a),
        r == (2 * m * (halvings * third + rest) + pow2(63)) / pow2(64),
    ensures
        unit() == 0x1_0000_0000_0000_0000int as real,
        r as real * unit() - unit() / 2 as real <= rx,
        rx < r as real * unit() + unit() / 2 as real,
{
    lemma2_to64_rest();
    lemma2_to64();
    let w = unit();
    let x: nat = 2 * m * (halvings * third + rest);
    lemma_fundamental_div_mod((x + pow2(63)) as int, pow2(64) as int);
    lemma_mod_bound((x + pow2(63)) as int, pow2(64) as int);
    assert(r * pow2(64) <= x + pow2(63) < r * pow2(64) + pow2(64)) by (nonlinear_arith)
        requires
            x + pow2(63) == pow2(64) * r + (x + pow2(63)) % pow2(64),
            0 <= (x + pow2(63)) % pow2(64) < pow2(64),
    ;
    let inner: nat = halvings * third + rest;
    lemma_real_product(halvings, third);
    lemma_real_product(2 * m, inner);
    assert(inner as real == a);
    assert((2 * m) as real == 2 as real * m as real);
    lemma_associates(2 as real, m as real, a);
    assert(x as real == rx);
}

/// A logarithm whose parts are hardly above the fixed-point sums is hardly above the count.
proof fn lemma_scaled_upper(
    m: nat,
    halvings: nat,
    third: nat,
    rest: nat,
    r: nat,
    p: real,
    q: real,
    l: real,
)
    requires
        0 < m <= 0x1_0000,
        halvings <= 16,
        l == (2 * halvings) as real * p + 2 as real * q,
        unit() * p <= third as real + 80 as real,
        unit() * q <= rest as real + 80 as real,
        r == (2 * m * (halvings * third + rest) + pow2(63)) / pow2(64),
    ensures
        m as real * l <= (2 * r + 1) as real / 2 as real + tie_tolerance(),
{
    let w = unit();
    let rr = r as real;
    let rm = m as real;
    let h = halvings as real;
    let t = third as real;
    let s = rest as real;
    let a = h * t + s;
    let rx = 2 as real * (rm * a);
    lemma_scaled_sum(m, halvings, third, rest, r, a, rx);
    lemma2_to64_rest();
    assert((2 * halvings) as real == 2 as real * h);
    lemma_log_parts(w, rm, h, p, q, l);
    lemma_scales(h, w * p, t + 80 as real);
    lemma_distributes(h, t, 80 as real);
    // Sixteen halvings, and the rest of the ratio, are each behind by at most 80 units.
    assert(h * (w * p) + w * q <= a + 1360 as real);
    lemma_scales(rm, h * (w * p) + w * q, a + 1360 as real);
    lemma_distributes(rm, a, 1360 as real);
    assert(w * (rm * l) <= rx + 178257920 as real);
    let e = tie_tolerance();
    assert(e == 1 as real / 0x2_0000_0000int as real);
    assert(w * e == 0x8000_0000int as real) by (nonlinear_arith)
        requires
            w == 0x1_0000_0000_0000_0000int as real,
            e == 1 as real / 0x2_0000_0000int as real,
    ;
    lemma_distributes(w, rr + 1 as real / 2 as real, e);
    lemma_unscales(w, rm * l, rr + 1 as real / 2 as real + e);
}

/// A logarithm whose parts are no less than the fixed-point sums is no less than the count, but
/// for one half.
proof fn lemma_scaled_lower(
    m: nat,
    halvings: nat,
    third: nat,
    rest: nat,
    r: nat,
    p: real,
    q: real,
    l: real,
)
    requires
        0 < m,
        l == (2 * halvings) as real * p + 2 as real * q,
        third as real <= unit() * p,
        rest as real <= unit() * q,
        r == (2 * m * (halvings * third + rest) + pow2(63)) / pow2(64),
    ensures
        m as real * l >= (2 * r - 1) as real / 2 as real,
{
    let w = unit();
    let rr = r as real;
    let rm = m as real;
    let h = halvings as real;
    let t = third as real;
    let s = rest as real;
    let a = h * t + s;
    let rx = 2 as real * (rm * a);
    lemma_scaled_sum(m, halvings, third, rest, r, a, rx);
    assert((2 * halvings) as real == 2 as real * h);
    lemma_log_parts(w, rm, h, p, q, l);
    lemma_scales(h, t, w * p);
    lemma_scales(rm, a, h * (w * p) + w * q);
    assert(rx <= w * (rm * l));
    lemma_unscales(w, rr - 1 as real / 2 as real, rm * l);
}

/// From bounds on the fixed-point sum to bounds on the logarithm.
proof fn lemma_scaled_log(m: nat, b: nat, halvings: nat, z: real, third: nat, rest: nat, r: nat)
    requires
        0 < m <= 0x1_0000,
        halvings <= 16,
        forall|terms: nat|
            #[trigger] ln_sum(m, b, terms) == (2 * halvings) as real * atanh_sum(
                atanh_argument(2, 1),
                terms,
            ) + 2 as real * atanh_sum(z, terms),
        third as real <= unit() * atanh_sum(atanh_argument(2, 1), 24),
        rest as real <= unit() * atanh_sum(z, 24),
        forall|terms: nat|
            unit() * #[trigger] atanh_sum(atanh_argument(2, 1), terms) <= third as real
                + 80 as real,
        forall|terms: nat|
            unit() * #[trigger] atanh_sum(z, terms) <= rest as real + 80 as real,
        r == (2 * m * (halvings * third + rest) + pow2(63)) / pow2(64),
    ensures
        rounds_log(r, m, m, b),
{
    let third_argument = atanh_argument(2, 1);
    lemma_scaled_lower(
        m,
        halvings,
        third,
        rest,
        r,
        atanh_sum(third_argument, 24),
        atanh_sum(z, 24),
        ln_sum(m, b, 24),
    );
    assert forall|terms: nat|
        m as real * #[trigger] ln_sum(m, b, terms) <= (2 * r + 1) as real / 2 as real
            + tie_tolerance() by {
        lemma_scaled_upper(
            m,
            halvings,
            third,
            rest,
            r,
            atanh_sum(third_argument, terms),
            atanh_sum(z, terms),
            ln_sum(m, b, terms),
        );
    }
}

/// How often a ratio can be halved before it is below two.
spec fn halvings(a: nat, b: nat) -> nat
    decreases a - b,
{
    if 0 < b && 2 * b <= a {
        1 + halvings(a, 2 * b)
    } else {
        0
    }
}

/// The divisor of the ratio after these halvings.
spec fn doubled(a: nat, b: nat) -> nat
    decreases a - b,
{
    if 0 < b && 2 * b <= a {
        doubled(a, 2 * b)
    } else {
        b
    }
}

/// The integer closest to `m ln(m / divisor)`, where no tie is near: [`lemma_log_count`] says
/// how close it is.
pub closed spec fn log_count(m: nat, divisor: nat) -> nat {
    let b = doubled(m, divisor);
    let sum = halvings(m, divisor) * fixed_sum(1, 3, 24) + fixed_sum(
        (m - b) as nat,
        m + b,
        24,
    );
    (2 * m * sum + pow2(63)) / pow2(64)
}

/// A halving of the ratio takes `ln 2` off its logarithm.
proof fn lemma_halvings(a: nat, b: nat)
    requires
        0 < b <= a,
    ensures
        b <= doubled(a, b) <= a < 2 * doubled(a, b),
        doubled(a, b) == b * pow2(halvings(a, b)),
        forall|terms: nat|
            #[trigger] ln_sum(a, b, terms) == (2 * halvings(a, b)) as real * atanh_sum(
                atanh_argument(2, 1),
                terms,
            ) + 2 as real * atanh_sum(atanh_argument(a, doubled(a, b)), terms),
    decreases a - b,
{
    if 2 * b <= a {
        let h = (2 * halvings(a, 2 * b)) as real;
        lemma_halvings(a, 2 * b);
        lemma_pow2_unfold(halvings(a, b));
        let c = pow2(halvings(a, 2 * b));
        assert((2 * b) * c == b * (2 * c)) by (nonlinear_arith);
        assert forall|terms: nat| #[trigger]
            ln_sum(a, b, terms) == (2 * halvings(a, b)) as real * atanh_sum(
                atanh_argument(2, 1),
                terms,
            ) + 2 as real * atanh_sum(atanh_argument(a, doubled(a, b)), terms) by {
            let p = atanh_sum(atanh_argument(2, 1), terms);
            assert(ln_sum(a, b, terms) == 2 as real * p + ln_sum(a, 2 * b, terms));
            assert((h + 2 as real) * p == h * p + 2 as real * p) by (nonlinear_arith);
        }
    } else {
        lemma2_to64();
        lemma_mul_basics(b as int);
        assert(pow2(halvings(a, b)) == 1);
        assert forall|terms: nat| #[trigger]
            ln_sum(a, b, terms) == (2 * halvings(a, b)) as real * atanh_sum(
                atanh_argument(2, 1),
                terms,
            ) + 2 as real * atanh_sum(atanh_argument(a, doubled(a, b)), terms) by {
            let p = atanh_sum(atanh_argument(2, 1), terms);
            assert(0 as real * p == 0 as real) by (nonlinear_arith);
        }
    }
}

/// A ratio of at most `2^16` takes at most 16 halvings.
proof fn lemma_few_halvings(a: nat, b: nat)
    requires
        0 < b <= a <= 0x1_0000,
    ensures
        halvings(a, b) <= 16,
{
    let h = halvings(a, b);
    lemma_halvings(a, b);
    lemma_pow2_pos(h);
    lemma_mul_inequality(1, b as int, pow2(h) as int);
    if h > 16 {
        lemma2_to64();
        lemma_pow2_strictly_increases(16, h);
    }
}

/// What [`log_count`] promises.
pub proof fn lemma_log_count(m: nat, divisor: nat)
    requires
        0 < divisor <= m <= 0x1_0000,
    ensures
        rounds_log(log_count(m, divisor), m, m, divisor),
        log_count(m, divisor) < 0x40_0000,
{
    let b = doubled(m, divisor);
    let z = atanh_argument(m, b);
    lemma_halvings(m, divisor);
    lemma_few_halvings(m, divisor);
    lemma_atanh_fixed(1, 3, atanh_argument(2, 1));
    lemma_atanh_fixed((m - b) as nat, m + b, z);
    lemma_scaled_log(
        m,
        divisor,
        halvings(m, divisor),
        z,
        fixed_sum(1, 3, 24),
        fixed_sum((m - b) as nat, m + b, 24),
        log_count(m, divisor),
    );
    lemma_sum_fits(
        m,
        halvings(m, divisor),
        fixed_sum(1, 3, 24),
        fixed_sum((m - b) as nat, m + b, 24),
    );
}

/// What a count is enclosed by: the first terms of the series, and these with a bound on all the
/// others, for a ratio that was halved until it is below two.
pub proof fn lemma_log_count_enclosed(m: nat, divisor: nat) -> (parts: (nat, nat))
    requires
        0 < divisor <= m <= 0x1_0000,
    ensures
        parts.1 == divisor * pow2(parts.0),
        parts.1 <= m < 2 * parts.1,
        m as real * ((2 * parts.0) as real * atanh_sum(atanh_argument(2, 1), 24) + 2 as real
            * atanh_sum(atanh_argument(m, parts.1), 24)) >= (2 * log_count(m, divisor) - 1) as real
            / 2 as real,
        m as real * ((2 * parts.0) as real * (atanh_sum(atanh_argument(2, 1), 24) + 2 as real
            * odd_power(atanh_argument(2, 1), 24)) + 2 as real * (atanh_sum(
            atanh_argument(m, parts.1),
            24,
        ) + 2 as real * odd_power(atanh_argument(m, parts.1), 24))) <= (2 * log_count(m, divisor)
            + 1) as real / 2 as real + tie_tolerance(),
{
    let b = doubled(m, divisor);
    let h = halvings(m, divisor);
    let z = atanh_argument(m, b);
    let y = atanh_argument(2, 1);
    let third = fixed_sum(1, 3, 24);
    let rest = fixed_sum((m - b) as nat, m + b, 24);
    lemma_halvings(m, divisor);
    lemma_few_halvings(m, divisor);
    lemma_atanh_fixed(1, 3, y);
    lemma_atanh_fixed((m - b) as nat, m + b, z);
    let r = log_count(m, divisor);
    let p = atanh_sum(y, 24);
    let q = atanh_sum(z, 24);
    lemma_scaled_lower(m, h, third, rest, r, p, q, (2 * h) as real * p + 2 as real * q);
    let f = p + 2 as real * odd_power(y, 24);
    let g = q + 2 as real * odd_power(z, 24);
    lemma_scaled_upper(m, h, third, rest, r, f, g, (2 * h) as real * f + 2 as real * g);
    (h, b)
}

/// The fixed-point sum behind a count, and the count, stay within machine words.
proof fn lemma_sum_fits(m: nat, halvings: nat, third: nat, rest: nat)
    requires
        m <= 0x1_0000,
        halvings <= 16,
        third <= pow2(64),
        rest <= pow2(64),
    ensures
        halvings * third <= 0x10_0000_0000_0000_0000,
        2 * m * (halvings * third + rest) <= 0x2_0000 * 0x11_0000_0000_0000_0000,
        (2 * m * (halvings * third + rest) + pow2(63)) / pow2(64) < 0x40_0000,
{
    lemma2_to64_rest();
    lemma_mul_upper_bound(halvings as int, 16, third as int, 0x1_0000_0000_0000_0000);
    lemma_mul_upper_bound(
        (2 * m) as int,
        0x2_0000,
        (halvings * third + rest) as int,
        0x11_0000_0000_0000_0000,
    );
}

/// Two integers that are both closest to one logarithm are neighbours, with a tie between them.
pub proof fn lemma_rounds_log_unique(r: nat, q: nat, scale: nat, a: nat, b: nat)
    requires
        rounds_log(r, scale, a, b),
        rounds_log(q, scale, a, b),
        r < q,
    ensures
        q == r + 1,
        near_tie(r, scale, a, b),
{
    lemma_tolerance();
    let terms = choose|terms: nat|
        scale as real * #[trigger] ln_sum(a, b, terms) >= (2 * q - 1) as real / 2 as real;
    let x = scale as real * ln_sum(a, b, terms);
    assert(x <= (2 * r + 1) as real / 2 as real + tie_tolerance());
    assert((2 * q - 1) as real <= (2 * r + 1) as real + 1 as real);
    assert(scale as real * ln_sum(a, b, terms) >= (2 * r + 1) as real / 2 as real);
}

/// The tolerance is far below one half.
proof fn lemma_tolerance()
    ensures
        0 as real <= tie_tolerance() <= 1 as real / 8 as real,
{
    lemma2_to64_rest();
    let e = tie_tolerance();
    assert(e == 1 as real / 0x2_0000_0000int as real);
    assert(0 as real <= e <= 1 as real / 8 as real) by (nonlinear_arith)
        requires
            e == 1 as real / 0x2_0000_0000int as real,
    ;
}

/// The first term of the series.
proof fn lemma_first_term(z: real)
    ensures
        atanh_sum(z, 1) == z,
        odd_power(z, 1) == z * (z * z),
{
    assert(atanh_sum(z, 0) == 0 as real);
    assert(odd_power(z, 0) == z);
    assert(z / 1 as real == z) by (nonlinear_arith);
    reveal_with_fuel(odd_power, 2);
}

/// The series for a ratio just above one: its argument `z`, with `m` and `m - k` in the ratio,
/// and bounds on what it adds up to.
proof fn lemma_short_series(m: real, k: real, z: real)
    requires
        m > 0 as real,
        0 as real <= k,
        2 as real * (k * k) <= m,
        4 as real * k <= m,
        z == k / (2 as real * m - k),
    ensures
        0 as real <= z <= 1 as real / 7 as real,
        m * (2 as real * z) >= k,
        m * (2 as real * (z + 2 as real * (z * (z * z)))) < k + 1 as real / 2 as real,
{
    let d = 2 as real * m - k;
    let y = k * z;
    assert(z * d == k) by (nonlinear_arith)
        requires
            z == k / d,
            d > 0 as real,
    ;
    assert(0 as real <= z <= 1 as real / 7 as real) by (nonlinear_arith)
        requires
            z * d == k,
            0 as real <= k,
            7 as real * k <= d,
            d > 0 as real,
    ;
    assert(y * d == k * k) by (nonlinear_arith)
        requires
            y == k * z,
            z * d == k,
    ;
    lemma_scales(k, 0 as real, k);
    assert(0 as real <= y <= 2 as real / 7 as real) by (nonlinear_arith)
        requires
            y * d == k * k,
            0 as real <= k * k,
            7 as real * (k * k) <= 2 as real * d,
            d > 0 as real,
    ;
    assert(m * (2 as real * z) == k + y) by (nonlinear_arith)
        requires
            2 as real * m == d + k,
            z * d == k,
            y == k * z,
    ;
    let zz = z * z;
    let x = 2 as real * z;
    assert(2 as real * (z + 2 as real * (z * zz)) == x * (1 as real + 2 as real * zz))
        by (nonlinear_arith)
        requires
            x == 2 as real * z,
    ;
    lemma_associates(m, x, 1 as real + 2 as real * zz);
    assert((k + y) * (1 as real + 2 as real * zz) == k + y + 2 as real * (y * z) + 2 as real * (y
        * zz)) by (nonlinear_arith)
        requires
            y == k * z,
            zz == z * z,
    ;
    assert(y * z <= y / 7 as real) by (nonlinear_arith)
        requires
            0 as real <= y,
            z <= 1 as real / 7 as real,
    ;
    assert(zz <= 1 as real / 49 as real) by (nonlinear_arith)
        requires
            zz == z * z,
            0 as real <= z <= 1 as real / 7 as real,
    ;
    assert(y * zz <= y / 49 as real) by (nonlinear_arith)
        requires
            0 as real <= y,
            zz <= 1 as real / 49 as real,
    ;
}

/// While `k` is small beside `m`, the integer closest to `m ln(m / (m - k))` is `k`.
pub proof fn lemma_log_count_exact(m: nat, k: nat)
    requires
        16 <= m <= 0x1_0000,
        2 * (k * k) <= m,
    ensures
        k < m,
        log_count(m, (m - k) as nat) == k,
{
    assert(4 * k <= m) by (nonlinear_arith)
        requires
            16 <= m,
            2 * (k * k) <= m,
    ;
    let b = (m - k) as nat;
    let r = log_count(m, b);
    let z = atanh_argument(m, b);
    let rm = m as real;
    let rk = k as real;
    lemma_real_product(k, k);
    assert(((m - b) as real) == rk);
    assert(((m + b) as real) == 2 as real * rm - rk);
    lemma_short_series(rm, rk, z);
    lemma_tolerance();
    lemma_log_count(m, b);
    lemma_first_term(z);
    // One term shows that `r` is no less than `k`.
    assert(ln_sum(m, b, 1) == 2 as real * z);
    assert(rm * ln_sum(m, b, 1) <= (2 * r + 1) as real / 2 as real + tie_tolerance());
    // No number of them shows that it is more.
    let terms = choose|terms: nat|
        rm * #[trigger] ln_sum(m, b, terms) >= (2 * r - 1) as real / 2 as real;
    let top = 2 as real * (z + 2 as real * (z * (z * z)));
    lemma_atanh_sum_bounded(z, 1, terms);
    assert(ln_sum(m, b, terms) <= top);
    lemma_scales(rm, ln_sum(m, b, terms), top);
}

/// The integer closest to `m ln(m / divisor)` is zero for no proper ratio.
pub proof fn lemma_log_count_positive(m: nat, divisor: nat)
    requires
        16 <= m <= 0x1_0000,
        0 < divisor < m,
    ensures
        log_count(m, divisor) > 0,
{
    let b = doubled(m, divisor);
    let h = halvings(m, divisor);
    let z = atanh_argument(m, b);
    let third = atanh_argument(2, 1);
    let rm = m as real;
    let rb = b as real;
    lemma_tolerance();
    lemma_log_count(m, divisor);
    lemma_halvings(m, divisor);
    lemma_first_term(z);
    lemma_first_term(third);
    let l = ln_sum(m, divisor, 1);
    assert(l == (2 * h) as real * third + 2 as real * z);
    assert(third == 1 as real / 3 as real);
    assert(z == (rm - rb) / (rm + rb));
    if h == 0 {
        assert(b == divisor);
        assert(0 as real * third == 0 as real);
        assert(rm * (2 as real * z) >= 1 as real) by (nonlinear_arith)
            requires
                z == (rm - rb) / (rm + rb),
                rm >= rb + 1 as real,
                rb >= 1 as real,
        ;
    } else {
        assert(z >= 0 as real) by (nonlinear_arith)
            requires
                z == (rm - rb) / (rm + rb),
                rm >= rb,
                rb >= 1 as real,
        ;
        lemma_scales(third, 2 as real, (2 * h) as real);
        lemma_commutes(third, (2 * h) as real);
        assert(l >= 2 as real / 3 as real);
        lemma_scales(rm, 2 as real / 3 as real, l);
    }
    assert(rm * l <= (2 * log_count(m, divisor) + 1) as real / 2 as real + tie_tolerance());
}

/// The integer closest to `m ln(m / divisor)`.
pub(crate) fn scaled_log(m: u64, divisor: u64) -> (r: u64)
    requires
        0 < divisor <= m <= 0x1_0000,
    ensures
        r == log_count(m as nat, divisor as nat),
        rounds_log(r as nat, m as nat, m as nat, divisor as nat),
{
    let mut b: u64 = divisor;
    let mut count: u64 = 0;
    while 2 * b <= m
        invariant
            0 < b <= m <= 0x1_0000,
            count <= b,
            doubled(m as nat, b as nat) == doubled(m as nat, divisor as nat),
            count + halvings(m as nat, b as nat) == halvings(m as nat, divisor as nat),
        decreases m - b,
    {
        b = 2 * b;
        count = count + 1;
    }
    let third: u128 = atanh_fixed(1, 3);
    let rest: u128 = atanh_fixed(m - b, m + b);
    proof {
        let z = atanh_argument(m as nat, b as nat);
        lemma2_to64_rest();
        lemma_few_halvings(m as nat, divisor as nat);
        lemma_atanh_fixed(1, 3, atanh_argument(2, 1));
        lemma_atanh_fixed((m - b) as nat, (m + b) as nat, z);
        lemma_sum_fits(m as nat, count as nat, third as nat, rest as nat);
        lemma_log_count(m as nat, divisor as nat);
    }
    let sum: u128 = count as u128 * third + rest;
    ((2 * m as u128 * sum + 0x8000_0000_0000_0000) / 0x1_0000_0000_0000_0000) as u64
}

} // verus!
