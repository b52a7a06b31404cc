//! Natural logarithms by the powers that enclose them: `y <= ln x` exactly if no power
//! `(1 + y/n)^n` exceeds `x`, and `y >= ln x` exactly if no power `(1 - y/n)^n` exceeds `1/x`.

use vstd::arithmetic::power::*;
use vstd::arithmetic::power2::*;
use vstd::prelude::*;

use crate::logarithm;

verus! {

/// `x^n`.
pub open spec fn power(x: real, n: nat) -> real
    decreases n,
{
    if n == 0 {
        1 as real
    } else {
        power(x, (n - 1) as nat) * x
    }
}

/// Whether `y <= ln x`, for `y >= 0`.
pub open spec fn at_most_ln(y: real, x: real) -> bool {
    forall|n: nat| n >= 1 ==> #[trigger] power(1 as real + y / (n as real), n) <= x
}

/// Whether `y >= ln x`, for `x >= 1`.
pub open spec fn at_least_ln(y: real, x: real) -> bool {
    forall|n: nat|
        n >= 1 && n as real > y ==> x * #[trigger] power(1 as real - y / (n as real), n)
            <= 1 as real
}

proof fn lemma_product_nonnegative(a: real, b: real)
    by (nonlinear_arith)
    requires
        a >= 0 as real,
        b >= 0 as real,
    ensures
        a * b >= 0 as real,
{
}

proof fn lemma_product_positive(a: real, b: real)
    by (nonlinear_arith)
    requires
        a > 0 as real,
        b > 0 as real,
    ensures
        a * b > 0 as real,
{
}

proof fn lemma_product_grows(a: real, b: real, c: real, d: real)
    by (nonlinear_arith)
    requires
        0 as real <= a <= c,
        0 as real <= b <= d,
    ensures
        a * b <= c * d,
{
}

/// Powers of positive numbers are positive.
proof fn lemma_power_positive(x: real, n: nat)
    requires
        x > 0 as real,
    ensures
        power(x, n) > 0 as real,
    decreases n,
{
    if n > 0 {
        lemma_power_positive(x, (n - 1) as nat);
        lemma_product_positive(power(x, (n - 1) as nat), x);
    }
}

/// Powers grow with their base.
proof fn lemma_power_grows(a: real, b: real, n: nat)
    requires
        0 as real <= a <= b,
    ensures
        0 as real <= power(a, n) <= power(b, n),
    decreases n,
{
    if n > 0 {
        lemma_power_grows(a, b, (n - 1) as nat);
        lemma_product_nonnegative(power(a, (n - 1) as nat), a);
        lemma_product_grows(power(a, (n - 1) as nat), a, power(b, (n - 1) as nat), b);
    }
}

/// The power of a product is the product of the powers.
proof fn lemma_power_of_product(a: real, b: real, n: nat)
    ensures
        power(a * b, n) == power(a, n) * power(b, n),
    decreases n,
{
    if n > 0 {
        lemma_power_of_product(a, b, (n - 1) as nat);
        let p = power(a, (n - 1) as nat);
        let q = power(b, (n - 1) as nat);
        assert((p * q) * (a * b) == (p * a) * (q * b)) by (nonlinear_arith);
    } else {
        assert(1 as real * 1 as real == 1 as real);
    }
}

/// The powers of one are one.
proof fn lemma_power_of_one(n: nat)
    ensures
        power(1 as real, n) == 1 as real,
    decreases n,
{
    if n > 0 {
        lemma_power_of_one((n - 1) as nat);
    }
}

/// Bernoulli's inequality.
proof fn lemma_bernoulli(u: real, n: nat)
    requires
        u >= -(1 as real),
    ensures
        power(1 as real + u, n) >= 1 as real + n as real * u,
    decreases n,
{
    if n > 0 {
        let k = (n - 1) as nat;
        lemma_bernoulli(u, k);
        let p = power(1 as real + u, k);
        let rk = k as real;
        assert(n as real == rk + 1 as real);
        assert(p * (1 as real + u) >= 1 as real + (rk + 1 as real) * u) by (nonlinear_arith)
            requires
                p >= 1 as real + rk * u,
                u >= -(1 as real),
                rk >= 0 as real,
        ;
    } else {
        assert(0 as real * u == 0 as real) by (nonlinear_arith);
    }
}

/// Logarithms of products add up, from below.
pub proof fn lemma_at_most_ln_of_product(y1: real, x1: real, y2: real, x2: real)
    requires
        y1 >= 0 as real,
        y2 >= 0 as real,
        at_most_ln(y1, x1),
        at_most_ln(y2, x2),
    ensures
        at_most_ln(y1 + y2, x1 * x2),
{
    assert forall|n: nat| n >= 1 implies #[trigger] power(
        1 as real + (y1 + y2) / (n as real),
        n,
    ) <= x1 * x2 by {
        let r = n as real;
        let u = y1 / r;
        let v = y2 / r;
        assert((y1 + y2) / r == u + v) by (nonlinear_arith)
            requires
                r > 0 as real,
                u == y1 / r,
                v == y2 / r,
        ;
        assert(u >= 0 as real && v >= 0 as real) by (nonlinear_arith)
            requires
                r > 0 as real,
                y1 >= 0 as real,
                y2 >= 0 as real,
                u == y1 / r,
                v == y2 / r,
        ;
        let a = 1 as real + u;
        let b = 1 as real + v;
        assert(1 as real + (u + v) <= a * b) by (nonlinear_arith)
            requires
                a == 1 as real + u,
                b == 1 as real + v,
                u >= 0 as real,
                v >= 0 as real,
        ;
        lemma_power_grows(1 as real + (u + v), a * b, n);
        lemma_power_of_product(a, b, n);
        lemma_power_positive(a, n);
        lemma_power_positive(b, n);
        lemma_product_grows(power(a, n), power(b, n), x1, x2);
    }
}

/// Logarithms of products add up, from above.
pub proof fn lemma_at_least_ln_of_product(y1: real, x1: real, y2: real, x2: real)
    requires
        y1 >= 0 as real,
        y2 >= 0 as real,
        x1 >= 0 as real,
        x2 >= 0 as real,
        at_least_ln(y1, x1),
        at_least_ln(y2, x2),
    ensures
        at_least_ln(y1 + y2, x1 * x2),
{
    assert forall|n: nat| n >= 1 && n as real > y1 + y2 implies (x1 * x2) * #[trigger] power(
        1 as real - (y1 + y2) / (n as real),
        n,
    ) <= 1 as real by {
        let r = n as real;
        let u = y1 / r;
        let v = y2 / r;
        assert((y1 + y2) / r == u + v && u + v < 1 as real) by (nonlinear_arith)
            requires
                r > y1 + y2,
                r > 0 as real,
                u == y1 / r,
                v == y2 / r,
        ;
        assert(u >= 0 as real && v >= 0 as real) by (nonlinear_arith)
            requires
                r > 0 as real,
                y1 >= 0 as real,
                y2 >= 0 as real,
                u == y1 / r,
                v == y2 / r,
        ;
        let a = 1 as real - u;
        let b = 1 as real - v;
        let c = 1 as real - (u + v);
        assert(c <= a * b) by (nonlinear_arith)
            requires
                a == 1 as real - u,
                b == 1 as real - v,
                c == 1 as real - (u + v),
                u >= 0 as real,
                v >= 0 as real,
        ;
        lemma_power_grows(c, a * b, n);
        lemma_power_of_product(a, b, n);
        lemma_power_positive(a, n);
        lemma_power_positive(b, n);
        let p = power(a, n);
        let q = power(b, n);
        assert(x1 * p <= 1 as real);
        assert(x2 * q <= 1 as real);
        lemma_product_nonnegative(x1, p);
        lemma_product_nonnegative(x2, q);
        lemma_product_nonnegative(x1, x2);
        lemma_product_grows(x1 * p, x2 * q, 1 as real, 1 as real);
        lemma_product_grows(x1 * x2, power(c, n), x1 * x2, p * q);
        assert((x1 * x2) * (p * q) == (x1 * p) * (x2 * q)) by (nonlinear_arith);
    }
}

/// `d <= ln(1 / (1 - d))`.
proof fn lemma_at_most_ln_step(d: real, x: real)
    requires
        d >= 0 as real,
        d < 1 as real,
        x * (1 as real - d) == 1 as real,
    ensures
        at_most_ln(d, x),
{
    assert forall|n: nat| n >= 1 implies #[trigger] power(1 as real + d / (n as real), n) <= x by {
        let r = n as real;
        let u = d / r;
        assert(u >= 0 as real && r * u == d) by (nonlinear_arith)
            requires
                r > 0 as real,
                d >= 0 as real,
                u == d / r,
        ;
        let a = 1 as real + u;
        let w = u / a;
        let v = 1 as real - w;
        assert(a * v == 1 as real && w >= 0 as real && w <= 1 as real && w <= u)
            by (nonlinear_arith)
            requires
                a == 1 as real + u,
                u >= 0 as real,
                w == u / a,
                v == 1 as real - w,
        ;
        lemma_bernoulli(-w, n);
        assert(r * (-w) >= -d) by (nonlinear_arith)
            requires
                w <= u,
                r * u == d,
                r > 0 as real,
        ;
        assert(1 as real + (-w) == v);
        lemma_power_of_product(a, v, n);
        lemma_power_of_one(n);
        lemma_power_positive(a, n);
        let p = power(a, n);
        let q = power(v, n);
        assert(p <= x) by (nonlinear_arith)
            requires
                p * q == 1 as real,
                q >= 1 as real - d,
                p > 0 as real,
                d < 1 as real,
                x * (1 as real - d) == 1 as real,
        ;
    }
}

/// `d >= ln(1 + d)`.
proof fn lemma_at_least_ln_step(d: real)
    requires
        d >= 0 as real,
    ensures
        at_least_ln(d, 1 as real + d),
{
    assert forall|n: nat| n >= 1 && n as real > d implies (1 as real + d) * #[trigger] power(
        1 as real - d / (n as real),
        n,
    ) <= 1 as real by {
        let r = n as real;
        let u = d / r;
        assert(u >= 0 as real && u < 1 as real && r * u == d) by (nonlinear_arith)
            requires
                r > d,
                d >= 0 as real,
                u == d / r,
        ;
        let a = 1 as real - u;
        let w = u / a;
        let v = 1 as real + w;
        assert(a * v == 1 as real && w >= u) by (nonlinear_arith)
            requires
                a == 1 as real - u,
                u >= 0 as real,
                u < 1 as real,
                w == u / a,
                v == 1 as real + w,
        ;
        lemma_bernoulli(w, n);
        assert(r * w >= d) by (nonlinear_arith)
            requires
                w >= u,
                r * u == d,
                r > 0 as real,
        ;
        lemma_power_of_product(a, v, n);
        lemma_power_of_one(n);
        lemma_power_positive(a, n);
        let p = power(a, n);
        let q = power(v, n);
        assert((1 as real + d) * p <= 1 as real) by (nonlinear_arith)
            requires
                p * q == 1 as real,
                q >= 1 as real + d,
                p > 0 as real,
        ;
    }
}

/// A smaller number is below a logarithm too.
pub proof fn lemma_at_most_ln_smaller(y: real, z: real, x: real)
    requires
        0 as real <= y <= z,
        at_most_ln(z, x),
    ensures
        at_most_ln(y, x),
{
    assert forall|n: nat| n >= 1 implies #[trigger] power(1 as real + y / (n as real), n) <= x by {
        let r = n as real;
        assert(0 as real <= y / r && y / r <= z / r) by (nonlinear_arith)
            requires
                r > 0 as real,
                0 as real <= y <= z,
        ;
        lemma_power_grows(1 as real + y / r, 1 as real + z / r, n);
    }
}

/// A larger number is above a logarithm too.
pub proof fn lemma_at_least_ln_larger(y: real, z: real, x: real)
    requires
        0 as real <= y <= z,
        x >= 0 as real,
        at_least_ln(y, x),
    ensures
        at_least_ln(z, x),
{
    assert forall|n: nat| n >= 1 && n as real > z implies x * #[trigger] power(
        1 as real - z / (n as real),
        n,
    ) <= 1 as real by {
        let r = n as real;
        assert(y / r <= z / r && z / r < 1 as real) by (nonlinear_arith)
            requires
                r > z,
                r > 0 as real,
                y <= z,
        ;
        let a = 1 as real - z / r;
        let b = 1 as real - y / r;
        lemma_power_grows(a, b, n);
        assert(x * power(b, n) <= 1 as real);
        lemma_product_grows(x, power(a, n), x, power(b, n));
    }
}

/// `z^(2i)`.
spec fn even_power(z: real, i: nat) -> real
    decreases i,
{
    if i == 0 {
        1 as real
    } else {
        even_power(z, (i - 1) as nat) * (z * z)
    }
}

/// `1 + z^2 + z^4 + ...`, so many terms: what the series of `atanh` grows by.
spec fn even_sum(z: real, terms: nat) -> real
    decreases terms,
{
    if terms == 0 {
        0 as real
    } else {
        even_sum(z, (terms - 1) as nat) + even_power(z, (terms - 1) as nat)
    }
}

/// How the powers are related, and that they grow with their base.
proof fn lemma_even_power(a: real, b: real, i: nat)
    requires
        0 as real <= a <= b,
    ensures
        logarithm::odd_power(a, i) == a * even_power(a, i),
        logarithm::odd_power(b, i) == b * even_power(b, i),
        0 as real <= even_power(a, i) <= even_power(b, i),
    decreases i,
{
    if i > 0 {
        let j = (i - 1) as nat;
        lemma_even_power(a, b, j);
        let p = even_power(a, j);
        let q = even_power(b, j);
        assert((a * p) * (a * a) == a * (p * (a * a))) by (nonlinear_arith);
        assert((b * q) * (b * b) == b * (q * (b * b))) by (nonlinear_arith);
        lemma_product_grows(a, a, b, b);
        lemma_product_nonnegative(a, a);
        lemma_product_nonnegative(p, a * a);
        lemma_product_grows(p, a * a, q, b * b);
    } else {
        assert(a * 1 as real == a);
        assert(b * 1 as real == b);
    }
}

/// An odd power grows between two points at least as fast as at the first, and at most as fast as
/// at the second.
#[verifier::spinoff_prover]
proof fn lemma_odd_power_increment(a: real, b: real, i: nat)
    requires
        0 as real <= a <= b,
    ensures
        logarithm::odd_power(b, i) - logarithm::odd_power(a, i) >= (2 * i + 1) as real * ((b - a)
            * even_power(a, i)),
        logarithm::odd_power(b, i) - logarithm::odd_power(a, i) <= (2 * i + 1) as real * ((b - a)
            * even_power(b, i)),
    decreases i,
{
    let h = b - a;
    if i == 0 {
        assert((2 * i + 1) as real == 1 as real);
        let one = even_power(a, i);
        let k = (2 * i + 1) as real;
        assert(k * (h * one) == h) by (nonlinear_arith)
            requires
                k == 1 as real,
                one == 1 as real,
        ;
        assert(even_power(b, i) == one);
    } else {
        let j = (i - 1) as nat;
        lemma_odd_power_increment(a, b, j);
        lemma_even_power(a, b, j);
        let u = logarithm::odd_power(b, j);
        let v = logarithm::odd_power(a, j);
        let p = even_power(a, j);
        let q = even_power(b, j);
        let k = (2 * j + 1) as real;
        assert((2 * i + 1) as real == k + 2 as real);
        // From below.
        let aa = a * a;
        let bb = b * b;
        lemma_product_nonnegative(a, a);
        assert(bb - aa == h * (a + b)) by (nonlinear_arith)
            requires
                aa == a * a,
                bb == b * b,
                h == b - a,
        ;
        assert(u * bb - v * aa == (u - v) * aa + u * (bb - aa)) by (nonlinear_arith);
        assert(u * bb - v * aa == (u - v) * bb + v * (bb - aa)) by (nonlinear_arith);
        assert((u - v) * aa >= k * (h * (p * aa))) by (nonlinear_arith)
            requires
                u - v >= k * (h * p),
                aa >= 0 as real,
        ;
        // `u (b^2 - a^2)` is `b q h (a + b)`, and so at least `2 h p a^2`.
        lemma_product_grows(a, p, b, q);
        lemma_product_nonnegative(a, p);
        assert(u >= a * p);
        assert((a * p) * (h * (2 as real * a)) == 2 as real * (h * (p * aa))) by (nonlinear_arith)
            requires
                aa == a * a,
        ;
        assert(h * (a + b) >= h * (2 as real * a)) by (nonlinear_arith)
            requires
                h >= 0 as real,
                b >= a,
        ;
        lemma_product_nonnegative(h, 2 as real * a);
        lemma_product_grows(a * p, h * (2 as real * a), u, h * (a + b));
        let e = h * (p * aa);
        assert((k + 2 as real) * e == k * e + 2 as real * e) by (nonlinear_arith);
        // From above.
        lemma_product_nonnegative(b, b);
        assert((u - v) * bb <= k * (h * (q * bb))) by (nonlinear_arith)
            requires
                u - v <= k * (h * q),
                bb >= 0 as real,
        ;
        assert(v <= b * q);
        assert(h * (a + b) <= h * (2 as real * b)) by (nonlinear_arith)
            requires
                h >= 0 as real,
                b >= a,
        ;
        lemma_product_nonnegative(h, a + b);
        lemma_product_grows(v, h * (a + b), b * q, h * (2 as real * b));
        assert((b * q) * (h * (2 as real * b)) == 2 as real * (h * (q * bb))) by (nonlinear_arith)
            requires
                bb == b * b,
        ;
        let f = h * (q * bb);
        assert((k + 2 as real) * f == k * f + 2 as real * f) by (nonlinear_arith);
        assert(logarithm::odd_power(b, i) - logarithm::odd_power(a, i) == u * bb - v * aa);
        assert(even_power(a, i) == p * aa);
        assert(even_power(b, i) == q * bb);
    }
}

/// So does the series of `atanh`.
proof fn lemma_atanh_increment(a: real, b: real, terms: nat)
    requires
        0 as real <= a <= b,
    ensures
        logarithm::atanh_sum(b, terms) - logarithm::atanh_sum(a, terms) >= (b - a) * even_sum(
            a,
            terms,
        ),
        logarithm::atanh_sum(b, terms) - logarithm::atanh_sum(a, terms) <= (b - a) * even_sum(
            b,
            terms,
        ),
    decreases terms,
{
    let h = b - a;
    if terms == 0 {
        assert(h * 0 as real == 0 as real);
    } else {
        let i = (terms - 1) as nat;
        lemma_atanh_increment(a, b, i);
        lemma_odd_power_increment(a, b, i);
        let u = logarithm::odd_power(b, i);
        let v = logarithm::odd_power(a, i);
        let k = (2 * i + 1) as real;
        assert((2 * terms - 1) as real == k);
        let low = h * even_power(a, i);
        let high = h * even_power(b, i);
        assert(u / k - v / k >= low && u / k - v / k <= high) by (nonlinear_arith)
            requires
                k > 0 as real,
                u - v >= k * low,
                u - v <= k * high,
        ;
        let p = even_sum(a, i);
        let q = even_power(a, i);
        assert(h * (p + q) == h * p + h * q) by (nonlinear_arith);
        let r = even_sum(b, i);
        let s = even_power(b, i);
        assert(h * (r + s) == h * r + h * s) by (nonlinear_arith);
    }
}

/// The geometric sum.
proof fn lemma_even_sum(z: real, terms: nat)
    ensures
        even_sum(z, terms) * (1 as real - z * z) == 1 as real - even_power(z, terms),
    decreases terms,
{
    let c = 1 as real - z * z;
    if terms == 0 {
        assert(0 as real * c == 0 as real) by (nonlinear_arith);
    } else {
        let i = (terms - 1) as nat;
        lemma_even_sum(z, i);
        let p = even_sum(z, i);
        let q = even_power(z, i);
        let zz = z * z;
        assert((p + q) * c == p * c + q * c) by (nonlinear_arith);
        assert(q * (1 as real - zz) == q - q * zz) by (nonlinear_arith);
    }
}

/// The ratio whose logarithm is twice `atanh z`.
pub open spec fn atanh_ratio(z: real) -> real {
    (1 as real + z) / (1 as real - z)
}

/// What a step from `a` to `b` does to the ratio, and how it compares with the step.
#[verifier::spinoff_prover]
proof fn lemma_ratio_step(a: real, b: real, h: real, d: real, e: real, rho: real)
    requires
        0 as real <= a,
        h == b - a,
        h >= 0 as real,
        b <= 1 as real / 3 as real,
        d == (2 as real * h) / ((1 as real + b) * (1 as real - a)),
        e == (2 as real * h) / ((1 as real - b) * (1 as real + a)),
        rho == 1 as real + e,
    ensures
        0 as real <= d < 1 as real,
        e >= 0 as real,
        rho * (1 as real - d) == 1 as real,
        atanh_ratio(b) == atanh_ratio(a) * rho,
{
    let p = (1 as real + b) * (1 as real - a);
    let q = (1 as real - b) * (1 as real + a);
    assert(p - 2 as real * h == q) by (nonlinear_arith)
        requires
            p == (1 as real + b) * (1 as real - a),
            q == (1 as real - b) * (1 as real + a),
            h == b - a,
    ;
    lemma_product_positive(1 as real + b, 1 as real - a);
    lemma_product_positive(1 as real - b, 1 as real + a);
    assert(d * p == 2 as real * h) by (nonlinear_arith)
        requires
            d == (2 as real * h) / p,
            p > 0 as real,
    ;
    assert(e * q == 2 as real * h) by (nonlinear_arith)
        requires
            e == (2 as real * h) / q,
            q > 0 as real,
    ;
    assert(0 as real <= d && d < 1 as real) by (nonlinear_arith)
        requires
            d * p == 2 as real * h,
            h >= 0 as real,
            p - 2 as real * h == q,
            q > 0 as real,
            p > 0 as real,
    ;
    assert(e >= 0 as real) by (nonlinear_arith)
        requires
            e * q == 2 as real * h,
            h >= 0 as real,
            q > 0 as real,
    ;
    // `rho q` is `p` and `p (1 - d)` is `q`.
    assert(rho * q == p) by (nonlinear_arith)
        requires
            rho == 1 as real + e,
            e * q == 2 as real * h,
            p - 2 as real * h == q,
    ;
    let f = 1 as real - d;
    assert(p * f == q) by (nonlinear_arith)
        requires
            f == 1 as real - d,
            d * p == 2 as real * h,
            p - 2 as real * h == q,
    ;
    assert(rho * f == 1 as real) by (nonlinear_arith)
        requires
            rho * q == p,
            p * f == q,
            p > 0 as real,
            q > 0 as real,
    ;
    let x = atanh_ratio(a);
    let y = atanh_ratio(b);
    let a1 = 1 as real + a;
    let a2 = 1 as real - a;
    let b1 = 1 as real + b;
    let b2 = 1 as real - b;
    assert(x * a2 == a1) by (nonlinear_arith)
        requires
            x == a1 / a2,
            a2 > 0 as real,
    ;
    assert(y * b2 == b1) by (nonlinear_arith)
        requires
            y == b1 / b2,
            b2 > 0 as real,
    ;
    // `x rho (b2 a1)` is `x p`, which is `x b1 a2`, which is `a1 b1`.
    let xr = x * rho;
    assert(xr * (b2 * a1) == (x * a2) * b1) by (nonlinear_arith)
        requires
            xr == x * rho,
            rho * (b2 * a1) == b1 * a2,
    ;
    assert((xr * b2) * a1 == b1 * a1) by (nonlinear_arith)
        requires
            xr * (b2 * a1) == (x * a2) * b1,
            x * a2 == a1,
    ;
    assert(xr * b2 == b1) by (nonlinear_arith)
        requires
            (xr * b2) * a1 == b1 * a1,
            a1 > 0 as real,
    ;
    assert(xr == y) by (nonlinear_arith)
        requires
            xr * b2 == b1,
            y * b2 == b1,
            b2 > 0 as real,
    ;
}

/// The series grows by less than the logarithm in a step, but for a part that shrinks with it.
#[verifier::spinoff_prover]
proof fn lemma_series_step_below(a: real, b: real, h: real, d: real, terms: nat)
    requires
        0 as real <= a,
        h == b - a,
        h >= 0 as real,
        b <= 1 as real / 3 as real,
        d == (2 as real * h) / ((1 as real + b) * (1 as real - a)),
    ensures
        (2 as real * (1 as real - 2 as real * h)) * (logarithm::atanh_sum(b, terms)
            - logarithm::atanh_sum(a, terms)) <= d,
{
    lemma_atanh_increment(a, b, terms);
    lemma_even_sum(b, terms);
    lemma_even_power(a, b, terms);
    let inc = logarithm::atanh_sum(b, terms) - logarithm::atanh_sum(a, terms);
    lemma_even_sum_nonnegative(a, terms);
    let es = even_sum(b, terms);
    let a2 = 1 as real - a;
    let b1 = 1 as real + b;
    let b2 = 1 as real - b;
    lemma_product_nonnegative(h, even_sum(a, terms));
    assert(1 as real - b * b == b1 * b2) by (nonlinear_arith)
        requires
            b1 == 1 as real + b,
            b2 == 1 as real - b,
    ;
    let g = b1 * b2;
    lemma_product_positive(b1, b2);
    assert(es * g <= 1 as real);
    assert(inc * g <= h) by (nonlinear_arith)
        requires
            inc <= h * es,
            es * g <= 1 as real,
            g > 0 as real,
            h >= 0 as real,
    ;
    let c = 1 as real - 2 as real * h;
    assert(c * a2 <= b2) by (nonlinear_arith)
        requires
            c == 1 as real - 2 as real * h,
            a2 == b2 + h,
            a2 >= 1 as real / 2 as real,
            h >= 0 as real,
    ;
    let p = b1 * a2;
    lemma_product_positive(b1, a2);
    assert((c * inc) * p == (c * a2) * (inc * b1)) by (nonlinear_arith)
        requires
            p == b1 * a2,
    ;
    lemma_product_nonnegative(inc, b1);
    let ib = inc * b1;
    assert((c * a2) * ib <= b2 * ib) by (nonlinear_arith)
        requires
            c * a2 <= b2,
            ib >= 0 as real,
    ;
    assert(b2 * ib == inc * g) by (nonlinear_arith)
        requires
            ib == inc * b1,
            g == b1 * b2,
    ;
    let ci = c * inc;
    assert((2 as real * c) * inc == 2 as real * ci) by (nonlinear_arith)
        requires
            ci == c * inc,
    ;
    assert(2 as real * ci <= d) by (nonlinear_arith)
        requires
            ci * p <= h,
            d == (2 as real * h) / p,
            p > 0 as real,
    ;
}

proof fn lemma_even_sum_nonnegative(z: real, terms: nat)
    requires
        z >= 0 as real,
    ensures
        even_sum(z, terms) >= 0 as real,
    decreases terms,
{
    if terms > 0 {
        lemma_even_sum_nonnegative(z, (terms - 1) as nat);
        lemma_even_power(z, z, (terms - 1) as nat);
    }
}

/// The first terms of `atanh z`, and more than all the others.
pub open spec fn atanh_bound(z: real, terms: nat) -> real {
    logarithm::atanh_sum(z, terms) + 2 as real * logarithm::odd_power(z, terms)
}

/// The bound grows by more than the logarithm in a step, but for a part that shrinks with it.
#[verifier::spinoff_prover]
proof fn lemma_series_step_above(a: real, b: real, h: real, e: real, terms: nat)
    requires
        0 as real <= a,
        h == b - a,
        h >= 0 as real,
        b <= 1 as real / 3 as real,
        e == (2 as real * h) / ((1 as real - b) * (1 as real + a)),
    ensures
        (2 as real * (1 as real + 2 as real * h)) * (atanh_bound(b, terms) - atanh_bound(a, terms))
            >= e,
        atanh_bound(b, terms) >= atanh_bound(a, terms),
{
    lemma_atanh_increment(a, b, terms);
    lemma_odd_power_increment(a, b, terms);
    lemma_even_sum(a, terms);
    lemma_even_power(a, b, terms);
    lemma_even_sum_nonnegative(a, terms);
    let inc = atanh_bound(b, terms) - atanh_bound(a, terms);
    let es = even_sum(a, terms);
    let ev = even_power(a, terms);
    let k = (2 * terms + 1) as real;
    let he = h * ev;
    lemma_product_nonnegative(h, ev);
    assert(k * he >= he) by (nonlinear_arith)
        requires
            k >= 1 as real,
            he >= 0 as real,
    ;
    let m = es + 2 as real * ev;
    assert(h * m == h * es + 2 as real * he) by (nonlinear_arith)
        requires
            m == es + 2 as real * ev,
            he == h * ev,
    ;
    assert(inc >= h * m);
    lemma_product_nonnegative(h, m);
    let aa = a * a;
    let g = 1 as real - aa;
    lemma_product_grows(a, a, 1 as real / 3 as real, 1 as real / 3 as real);
    assert(aa <= 1 as real / 9 as real);
    assert(ev * g >= ev / 2 as real) by (nonlinear_arith)
        requires
            ev >= 0 as real,
            g >= 1 as real / 2 as real,
    ;
    assert(m * g == es * g + 2 as real * (ev * g)) by (nonlinear_arith)
        requires
            m == es + 2 as real * ev,
    ;
    assert(m * g >= 1 as real);
    assert(inc * g >= h) by (nonlinear_arith)
        requires
            inc >= h * m,
            m * g >= 1 as real,
            g >= 1 as real / 2 as real,
            h >= 0 as real,
    ;
    let a1 = 1 as real + a;
    let a2 = 1 as real - a;
    let b2 = 1 as real - b;
    assert(g == a1 * a2) by (nonlinear_arith)
        requires
            g == 1 as real - a * a,
            a1 == 1 as real + a,
            a2 == 1 as real - a,
    ;
    let c = 1 as real + 2 as real * h;
    assert(c * b2 >= a2) by (nonlinear_arith)
        requires
            c == 1 as real + 2 as real * h,
            a2 == b2 + h,
            b2 >= 1 as real / 2 as real,
            h >= 0 as real,
    ;
    let q = b2 * a1;
    lemma_product_positive(b2, a1);
    assert((c * inc) * q == (c * b2) * (inc * a1)) by (nonlinear_arith)
        requires
            q == b2 * a1,
    ;
    lemma_product_nonnegative(inc, a1);
    let ia = inc * a1;
    assert((c * b2) * ia >= a2 * ia) by (nonlinear_arith)
        requires
            c * b2 >= a2,
            ia >= 0 as real,
    ;
    assert(a2 * ia == inc * g) by (nonlinear_arith)
        requires
            ia == inc * a1,
            g == a1 * a2,
    ;
    let ci = c * inc;
    assert((2 as real * c) * inc == 2 as real * ci) by (nonlinear_arith)
        requires
            ci == c * inc,
    ;
    assert(2 as real * ci >= e) by (nonlinear_arith)
        requires
            ci * q >= h,
            e == (2 as real * h) / q,
            q > 0 as real,
    ;
}

/// Where the series starts.
proof fn lemma_series_at_zero(terms: nat)
    ensures
        logarithm::atanh_sum(0 as real, terms) == 0 as real,
        logarithm::odd_power(0 as real, terms) == 0 as real,
    decreases terms,
{
    lemma_even_power(0 as real, 0 as real, terms);
    let e = even_power(0 as real, terms);
    assert(0 as real * e == 0 as real) by (nonlinear_arith);
    if terms > 0 {
        lemma_series_at_zero((terms - 1) as nat);
        let k = (2 * terms - 1) as real;
        assert(0 as real / k == 0 as real) by (nonlinear_arith)
            requires
                k > 0 as real,
        ;
    }
}

/// From zero to `k h` in steps of `h`, the series stays below the logarithm, but for a part that
/// shrinks with the steps.
proof fn lemma_walk_below(h: real, k: nat, terms: nat)
    requires
        0 as real <= h <= 1 as real / 3 as real,
        k as real * h <= 1 as real / 3 as real,
    ensures
        at_most_ln(
            (2 as real * (1 as real - 2 as real * h)) * logarithm::atanh_sum(k as real * h, terms),
            atanh_ratio(k as real * h),
        ),
    decreases k,
{
    let c = 2 as real * (1 as real - 2 as real * h);
    let b = k as real * h;
    if k == 0 {
        assert(b == 0 as real) by (nonlinear_arith)
            requires
                b == k as real * h,
                k == 0,
        ;
        lemma_series_at_zero(terms);
        assert(c * 0 as real == 0 as real);
        assert(1 as real / 1 as real == 1 as real);
        assert forall|n: nat| n >= 1 implies #[trigger] power(
            1 as real + 0 as real / (n as real),
            n,
        ) <= 1 as real by {
            let r = n as real;
            assert(0 as real / r == 0 as real) by (nonlinear_arith)
                requires
                    r > 0 as real,
            ;
            lemma_power_of_one(n);
        }
    } else {
        let a = (k - 1) as real * h;
        assert(a + h == b && a >= 0 as real) by (nonlinear_arith)
            requires
                a == (k - 1) as real * h,
                b == k as real * h,
                k >= 1,
                h >= 0 as real,
        ;
        lemma_walk_below(h, (k - 1) as nat, terms);
        let d = (2 as real * h) / ((1 as real + b) * (1 as real - a));
        let e = (2 as real * h) / ((1 as real - b) * (1 as real + a));
        let rho = 1 as real + e;
        lemma_ratio_step(a, b, h, d, e, rho);
        lemma_series_step_below(a, b, h, d, terms);
        lemma_at_most_ln_step(d, rho);
        logarithm::lemma_atanh_sum_grows(a, 0, terms);
        logarithm::lemma_atanh_sum_grows(b, 0, terms);
        let fa = logarithm::atanh_sum(a, terms);
        let fb = logarithm::atanh_sum(b, terms);
        lemma_product_nonnegative(c, fa);
        lemma_product_nonnegative(c, fb);
        lemma_at_most_ln_of_product(c * fa, atanh_ratio(a), d, rho);
        assert(c * (fb - fa) == c * fb - c * fa) by (nonlinear_arith);
        lemma_at_most_ln_smaller(c * fb, c * fa + d, atanh_ratio(b));
    }
}

/// From zero to `k h` in steps of `h`, the bound stays above the logarithm, with a part that
/// shrinks with the steps.
proof fn lemma_walk_above(h: real, k: nat, terms: nat)
    requires
        0 as real <= h <= 1 as real / 3 as real,
        k as real * h <= 1 as real / 3 as real,
    ensures
        at_least_ln(
            (2 as real * (1 as real + 2 as real * h)) * atanh_bound(k as real * h, terms),
            atanh_ratio(k as real * h),
        ),
        atanh_bound(k as real * h, terms) >= 0 as real,
        atanh_ratio(k as real * h) >= 0 as real,
    decreases k,
{
    let c = 2 as real * (1 as real + 2 as real * h);
    let b = k as real * h;
    if k == 0 {
        assert(b == 0 as real) by (nonlinear_arith)
            requires
                b == k as real * h,
                k == 0,
        ;
        lemma_series_at_zero(terms);
        assert(c * 0 as real == 0 as real);
        assert(1 as real / 1 as real == 1 as real);
        assert forall|n: nat| n >= 1 && n as real > 0 as real implies 1 as real
            * #[trigger] power(1 as real - 0 as real / (n as real), n) <= 1 as real by {
            let r = n as real;
            assert(0 as real / r == 0 as real) by (nonlinear_arith)
                requires
                    r > 0 as real,
            ;
            lemma_power_of_one(n);
        }
    } else {
        let a = (k - 1) as real * h;
        assert(a + h == b && a >= 0 as real) by (nonlinear_arith)
            requires
                a == (k - 1) as real * h,
                b == k as real * h,
                k >= 1,
                h >= 0 as real,
        ;
        lemma_walk_above(h, (k - 1) as nat, terms);
        let d = (2 as real * h) / ((1 as real + b) * (1 as real - a));
        let e = (2 as real * h) / ((1 as real - b) * (1 as real + a));
        let rho = 1 as real + e;
        lemma_ratio_step(a, b, h, d, e, rho);
        lemma_series_step_above(a, b, h, e, terms);
        lemma_at_least_ln_step(e);
        let ga = atanh_bound(a, terms);
        let gb = atanh_bound(b, terms);
        lemma_product_nonnegative(c, ga);
        lemma_at_least_ln_of_product(c * ga, atanh_ratio(a), e, rho);
        lemma_product_nonnegative(atanh_ratio(a), rho);
        assert(c * (gb - ga) == c * gb - c * ga) by (nonlinear_arith);
        lemma_at_least_ln_larger(c * ga + e, c * gb, atanh_ratio(b));
    }
}

/// So many steps that what they cost is less than `gap`.
proof fn lemma_enough_steps(cost: real, gap: real) -> (steps: nat)
    requires
        cost >= 0 as real,
        gap > 0 as real,
    ensures
        steps >= 1,
        cost / (steps as real) < gap,
{
    let k = cost / gap;
    assert(k >= 0 as real && k * gap == cost) by (nonlinear_arith)
        requires
            k == cost / gap,
            cost >= 0 as real,
            gap > 0 as real,
    ;
    let f = k.floor();
    assert(f as real <= k && k < f as real + 1 as real);
    let steps = (f + 1) as nat;
    let r = steps as real;
    assert(r > k && r > 0 as real);
    assert(cost / r < gap) by (nonlinear_arith)
        requires
            k * gap == cost,
            r > k,
            r > 0 as real,
            gap > 0 as real,
    ;
    steps
}

/// Any number of terms of the series is below the logarithm.
pub proof fn lemma_series_below(z: real, terms: nat)
    requires
        0 as real <= z <= 1 as real / 3 as real,
    ensures
        at_most_ln(2 as real * logarithm::atanh_sum(z, terms), atanh_ratio(z)),
{
    let f = logarithm::atanh_sum(z, terms);
    let y = 2 as real * f;
    let x = atanh_ratio(z);
    logarithm::lemma_atanh_sum_grows(z, 0, terms);
    assert forall|n: nat| n >= 1 implies #[trigger] power(1 as real + y / (n as real), n) <= x by {
        let r = n as real;
        let u = y / r;
        let a = 1 as real + u;
        let p = power(a, n);
        assert(u >= 0 as real) by (nonlinear_arith)
            requires
                u == y / r,
                y >= 0 as real,
                r > 0 as real,
        ;
        if p > x {
            lemma_power_positive(a, n);
            let rp = r * p;
            lemma_product_nonnegative(r, p);
            lemma_product_nonnegative(2 as real * z, rp);
            let cost = (2 as real * z) * rp;
            let steps = lemma_enough_steps(cost, p - x);
            let big = steps as real;
            let h = z / big;
            assert(h * big == z && h >= 0 as real && h <= z) by (nonlinear_arith)
                requires
                    h == z / big,
                    big >= 1 as real,
                    z >= 0 as real,
            ;
            lemma_commutes(h, big);
            lemma_walk_below(h, steps, terms);
            let c = 1 as real - 2 as real * h;
            assert((2 as real * c) * f == c * y) by (nonlinear_arith)
                requires
                    y == 2 as real * f,
            ;
            let b = 1 as real + (c * y) / r;
            assert(power(b, n) <= x);
            assert((c * y) / r == c * u) by (nonlinear_arith)
                requires
                    u == y / r,
                    r > 0 as real,
            ;
            assert(a * c <= b) by (nonlinear_arith)
                requires
                    a == 1 as real + u,
                    b == 1 as real + c * u,
                    c <= 1 as real,
            ;
            lemma_product_nonnegative(a, c);
            lemma_power_grows(a * c, b, n);
            lemma_power_of_product(a, c, n);
            lemma_bernoulli(-(2 as real * h), n);
            assert(1 as real + (-(2 as real * h)) == c);
            let q = power(c, n);
            let loss = r * (2 as real * h);
            assert(q >= 1 as real - loss) by {
                assert(r * (-(2 as real * h)) == -loss) by (nonlinear_arith)
                    requires
                        loss == r * (2 as real * h),
                ;
            }
            assert(p * q >= p - p * loss) by (nonlinear_arith)
                requires
                    q >= 1 as real - loss,
                    p > 0 as real,
            ;
            assert(p * loss == cost / big) by (nonlinear_arith)
                requires
                    loss == r * (2 as real * h),
                    cost == (2 as real * z) * rp,
                    rp == r * p,
                    h == z / big,
                    big >= 1 as real,
            ;
        }
    }
}

proof fn lemma_commutes(a: real, b: real)
    by (nonlinear_arith)
    ensures
        a * b == b * a,
{
}

/// The bound is above the logarithm, for any number of terms.
pub proof fn lemma_series_above(z: real, terms: nat)
    requires
        0 as real <= z <= 1 as real / 3 as real,
    ensures
        at_least_ln(2 as real * atanh_bound(z, terms), atanh_ratio(z)),
        atanh_bound(z, terms) >= 0 as real,
        atanh_ratio(z) >= 0 as real,
{
    let g = atanh_bound(z, terms);
    let y = 2 as real * g;
    let x = atanh_ratio(z);
    assert(1 as real * z == z);
    lemma_walk_above(z, 1, terms);
    assert forall|n: nat| n >= 1 && n as real > y implies x * #[trigger] power(
        1 as real - y / (n as real),
        n,
    ) <= 1 as real by {
        let r = n as real;
        let u = y / r;
        let a = 1 as real - u;
        let p = power(a, n);
        assert(u >= 0 as real && u < 1 as real && r * u == y) by (nonlinear_arith)
            requires
                u == y / r,
                y >= 0 as real,
                r > y,
                r > 0 as real,
        ;
        let xp = x * p;
        if xp > 1 as real {
            lemma_power_positive(a, n);
            // What a step of `h` costs is `2 h y / a`, relative to the power.
            let v = u / a;
            assert(v >= 0 as real && v * a == u) by (nonlinear_arith)
                requires
                    v == u / a,
                    a > 0 as real,
                    u >= 0 as real,
            ;
            let rv = r * v;
            lemma_product_nonnegative(r, v);
            let w = xp * rv;
            lemma_product_nonnegative(xp, rv);
            lemma_product_nonnegative(2 as real * z, w);
            lemma_product_nonnegative(2 as real * z, v);
            let cost = (2 as real * z) * w + (2 as real * z) * v;
            let gap = if xp < 2 as real {
                xp - 1 as real
            } else {
                1 as real
            };
            let steps = lemma_enough_steps(cost, gap);
            let big = steps as real;
            let h = z / big;
            assert(h * big == z && h >= 0 as real && h <= z) by (nonlinear_arith)
                requires
                    h == z / big,
                    big >= 1 as real,
                    z >= 0 as real,
            ;
            lemma_commutes(h, big);
            lemma_walk_above(h, steps, terms);
            let hv = (2 as real * h) * v;
            let hw = (2 as real * h) * w;
            lemma_product_nonnegative(2 as real * h, v);
            lemma_product_nonnegative(2 as real * h, w);
            assert(cost / big == hw + hv) by (nonlinear_arith)
                requires
                    cost == (2 as real * z) * w + (2 as real * z) * v,
                    hv == (2 as real * h) * v,
                    hw == (2 as real * h) * w,
                    h == z / big,
                    big >= 1 as real,
            ;
            let c = 1 as real + 2 as real * h;
            assert((2 as real * c) * g == c * y) by (nonlinear_arith)
                requires
                    y == 2 as real * g,
            ;
            assert((c * y) / r == c * u) by (nonlinear_arith)
                requires
                    u == y / r,
                    r > 0 as real,
            ;
            let b = 1 as real - (c * y) / r;
            let t = 1 as real - hv;
            assert(b == a * t) by (nonlinear_arith)
                requires
                    b == 1 as real - c * u,
                    c == 1 as real + 2 as real * h,
                    a == 1 as real - u,
                    t == 1 as real - hv,
                    hv == (2 as real * h) * v,
                    v * a == u,
            ;
            assert(t > 0 as real);
            lemma_product_positive(a, t);
            assert(c * y < r) by (nonlinear_arith)
                requires
                    b == 1 as real - (c * y) / r,
                    b > 0 as real,
                    r > 0 as real,
            ;
            assert(x * power(b, n) <= 1 as real);
            lemma_power_of_product(a, t, n);
            lemma_bernoulli(-hv, n);
            assert(1 as real + (-hv) == t);
            let q = power(t, n);
            let loss = r * hv;
            assert(r * (-hv) == -loss) by (nonlinear_arith)
                requires
                    loss == r * hv,
            ;
            assert(x * (p * q) == xp * q) by (nonlinear_arith)
                requires
                    xp == x * p,
            ;
            assert(xp * q >= xp - xp * loss) by (nonlinear_arith)
                requires
                    q >= 1 as real - loss,
                    xp > 0 as real,
            ;
            assert(xp * loss == hw) by (nonlinear_arith)
                requires
                    loss == r * hv,
                    hv == (2 as real * h) * v,
                    hw == (2 as real * h) * w,
                    w == xp * rv,
                    rv == r * v,
            ;
        }
    }
}

/// Logarithms of powers are multiples, from below.
proof fn lemma_at_most_ln_of_power(y: real, x: real, k: nat)
    requires
        y >= 0 as real,
        at_most_ln(y, x),
    ensures
        at_most_ln(k as real * y, power(x, k)),
        k as real * y >= 0 as real,
    decreases k,
{
    let r = k as real;
    lemma_product_nonnegative(r, y);
    if k == 0 {
        assert(r * y == 0 as real) by (nonlinear_arith)
            requires
                r == 0 as real,
        ;
        assert forall|n: nat| n >= 1 implies #[trigger] power(
            1 as real + 0 as real / (n as real),
            n,
        ) <= 1 as real by {
            let d = n as real;
            assert(0 as real / d == 0 as real) by (nonlinear_arith)
                requires
                    d > 0 as real,
            ;
            lemma_power_of_one(n);
        }
    } else {
        let j = (k - 1) as nat;
        lemma_at_most_ln_of_power(y, x, j);
        lemma_at_most_ln_of_product(j as real * y, power(x, j), y, x);
        assert(j as real * y + y == r * y) by (nonlinear_arith)
            requires
                r == j as real + 1 as real,
        ;
    }
}

/// Logarithms of powers are multiples, from above.
proof fn lemma_at_least_ln_of_power(y: real, x: real, k: nat)
    requires
        y >= 0 as real,
        x > 0 as real,
        at_least_ln(y, x),
    ensures
        at_least_ln(k as real * y, power(x, k)),
        k as real * y >= 0 as real,
    decreases k,
{
    let r = k as real;
    lemma_product_nonnegative(r, y);
    if k == 0 {
        assert(r * y == 0 as real) by (nonlinear_arith)
            requires
                r == 0 as real,
        ;
        assert forall|n: nat| n >= 1 && n as real > 0 as real implies 1 as real
            * #[trigger] power(1 as real - 0 as real / (n as real), n) <= 1 as real by {
            let d = n as real;
            assert(0 as real / d == 0 as real) by (nonlinear_arith)
                requires
                    d > 0 as real,
            ;
            lemma_power_of_one(n);
        }
    } else {
        let j = (k - 1) as nat;
        lemma_at_least_ln_of_power(y, x, j);
        lemma_power_positive(x, j);
        lemma_at_least_ln_of_product(j as real * y, power(x, j), y, x);
        assert(j as real * y + y == r * y) by (nonlinear_arith)
            requires
                r == j as real + 1 as real,
        ;
    }
}

/// The powers of integers are integers.
proof fn lemma_power_of_integer(a: int, n: nat)
    ensures
        power(a as real, n) == pow(a, n) as real,
    decreases n,
{
    reveal(pow);
    if n > 0 {
        let k = (n - 1) as nat;
        lemma_power_of_integer(a, k);
        let p = pow(a, k);
        assert((a * p) as real == (p as real) * (a as real)) by (nonlinear_arith);
    }
}

/// The powers of two are powers of two.
proof fn lemma_power_of_two(k: nat)
    ensures
        power(2 as real, k) == pow2(k) as real,
    decreases k,
{
    if k > 0 {
        lemma_power_of_two((k - 1) as nat);
        lemma_pow2_unfold(k);
    } else {
        lemma2_to64();
    }
}

/// The power of a quotient is the quotient of the powers.
proof fn lemma_power_of_quotient(u: real, v: real, n: nat)
    requires
        v > 0 as real,
    ensures
        power(u / v, n) * power(v, n) == power(u, n),
{
    lemma_power_of_product(u / v, v, n);
    assert((u / v) * v == u) by (nonlinear_arith)
        requires
            v > 0 as real,
    ;
}

/// What it means for a fraction to be below the logarithm of another, in integers.
pub proof fn lemma_at_most_ln_in_integers(num: nat, den: nat, a: nat, b: nat, n: nat)
    requires
        at_most_ln(num as real / den as real, a as real / b as real),
        den > 0,
        b > 0,
        n > 0,
    ensures
        b * pow((den * n + num) as int, n) <= a * pow((den * n) as int, n),
{
    let s = num as real;
    let d = den as real;
    let r = n as real;
    let u = (den * n + num) as real;
    let v = (den * n) as real;
    assert(v == d * r) by (nonlinear_arith)
        requires
            v == (den * n) as real,
            d == den as real,
            r == n as real,
    ;
    lemma_product_positive(d, r);
    assert(u == v + s);
    assert(1 as real + (s / d) / r == u / v) by (nonlinear_arith)
        requires
            v == d * r,
            u == v + s,
            d > 0 as real,
            r > 0 as real,
    ;
    lemma_power_of_quotient(u, v, n);
    lemma_power_of_integer((den * n + num) as int, n);
    lemma_power_of_integer((den * n) as int, n);
    lemma_power_positive(v, n);
    let e = power(u / v, n);
    let p = power(u, n);
    let q = power(v, n);
    let x = a as real;
    let y = b as real;
    assert(e <= x / y);
    assert(y * p <= x * q) by (nonlinear_arith)
        requires
            e * q == p,
            e <= x / y,
            y > 0 as real,
            q > 0 as real,
    ;
    lemma_compare_products(
        b as int,
        pow((den * n + num) as int, n),
        a as int,
        pow((den * n) as int, n),
    );
}

/// What it means for a fraction to be above the logarithm of another, in integers.
pub proof fn lemma_at_least_ln_in_integers(num: nat, den: nat, a: nat, b: nat, n: nat)
    requires
        at_least_ln(num as real / den as real, a as real / b as real),
        den > 0,
        b > 0,
        n > 0,
        den * n > num,
    ensures
        a * pow(den * n - num, n) <= b * pow((den * n) as int, n),
{
    let s = num as real;
    let d = den as real;
    let r = n as real;
    let u = (den * n - num) as real;
    let v = (den * n) as real;
    assert(v == d * r) by (nonlinear_arith)
        requires
            v == (den * n) as real,
            d == den as real,
            r == n as real,
    ;
    lemma_product_positive(d, r);
    assert(u == v - s);
    assert(1 as real - (s / d) / r == u / v) by (nonlinear_arith)
        requires
            v == d * r,
            u == v - s,
            d > 0 as real,
            r > 0 as real,
    ;
    assert(r > s / d) by (nonlinear_arith)
        requires
            v == d * r,
            v > s,
            d > 0 as real,
    ;
    lemma_power_of_quotient(u, v, n);
    lemma_power_of_integer(den * n - num, n);
    lemma_power_of_integer((den * n) as int, n);
    lemma_power_positive(v, n);
    let e = power(u / v, n);
    let p = power(u, n);
    let q = power(v, n);
    let x = a as real;
    let y = b as real;
    let t = x / y;
    assert(t * e <= 1 as real);
    assert(x * p <= y * q) by (nonlinear_arith)
        requires
            e * q == p,
            t * e <= 1 as real,
            t == x / y,
            y > 0 as real,
            q > 0 as real,
    ;
    lemma_compare_products(a as int, pow(den * n - num, n), b as int, pow((den * n) as int, n));
}

/// Products of integers compare as reals do.
proof fn lemma_compare_products(a: int, b: int, c: int, d: int)
    requires
        (a as real) * (b as real) <= (c as real) * (d as real),
    ensures
        a * b <= c * d,
{
    assert((a * b) as real == (a as real) * (b as real)) by (nonlinear_arith);
    assert((c * d) as real == (c as real) * (d as real)) by (nonlinear_arith);
}

/// The ratio that a series argument stands for.
proof fn lemma_atanh_ratio(a: nat, b: nat)
    requires
        0 < b <= a < 2 * b,
    ensures
        atanh_ratio(logarithm::atanh_argument(a, b)) == a as real / b as real,
        0 as real <= logarithm::atanh_argument(a, b) <= 1 as real / 3 as real,
{
    let x = a as real;
    let y = b as real;
    let z = logarithm::atanh_argument(a, b);
    assert(z == (x - y) / (x + y));
    assert(z * (x + y) == x - y) by (nonlinear_arith)
        requires
            z == (x - y) / (x + y),
            x + y > 0 as real,
    ;
    assert(0 as real <= z && z <= 1 as real / 3 as real) by (nonlinear_arith)
        requires
            z * (x + y) == x - y,
            y > 0 as real,
            y <= x,
            x < 2 as real * y,
    ;
    let p = 1 as real + z;
    let q = 1 as real - z;
    assert(p * (x + y) == 2 as real * x && q * (x + y) == 2 as real * y) by (nonlinear_arith)
        requires
            p == 1 as real + z,
            q == 1 as real - z,
            z * (x + y) == x - y,
    ;
    assert(p * y == x * q) by (nonlinear_arith)
        requires
            p * (x + y) == 2 as real * x,
            q * (x + y) == 2 as real * y,
            x + y > 0 as real,
    ;
    assert(p / q == x / y) by (nonlinear_arith)
        requires
            p * y == x * q,
            q > 0 as real,
            y > 0 as real,
    ;
}

/// The ratio of two, by which the others are halved.
proof fn lemma_atanh_ratio_of_two()
    ensures
        atanh_ratio(logarithm::atanh_argument(2, 1)) == 2 as real,
        0 as real <= logarithm::atanh_argument(2, 1) <= 1 as real / 3 as real,
{
    let z = logarithm::atanh_argument(2, 1);
    assert(z == 1 as real / 3 as real);
    let p = 1 as real + z;
    let q = 1 as real - z;
    assert(p / q == 2 as real) by (nonlinear_arith)
        requires
            p == 2 as real * q,
            q > 0 as real,
    ;
}

/// The integer that [`logarithm::log_count`] gives is the closest to `m ln(m / divisor)`, by the
/// powers that enclose the logarithm.
pub proof fn lemma_log_count_between_powers(m: nat, divisor: nat)
    requires
        0 < divisor <= m <= 0x1_0000,
    ensures
        logarithm::log_count(m, divisor) >= 1 ==> at_most_ln(
            (2 * logarithm::log_count(m, divisor) - 1) as real / ((2 * m) as real),
            m as real / divisor as real,
        ),
        at_least_ln(
            (0x1_0000_0000 * (2 * logarithm::log_count(m, divisor) + 1) + 1) as real / ((
            0x2_0000_0000 * m) as real),
            m as real / divisor as real,
        ),
{
    let c = logarithm::log_count(m, divisor);
    let parts = logarithm::lemma_log_count_enclosed(m, divisor);
    let h = parts.0;
    let b = parts.1;
    let y = logarithm::atanh_argument(2, 1);
    let z = logarithm::atanh_argument(m, b);
    let rm = m as real;
    let rh = h as real;
    let x = rm / divisor as real;
    lemma_pow2_pos(h);
    lemma_atanh_ratio_of_two();
    lemma_atanh_ratio(m, b);
    lemma_power_of_two(h);
    // The ratio is put together again.
    let two = power(2 as real, h);
    let rb = b as real;
    let rd = divisor as real;
    let low = rm / rb;
    assert(rb == rd * two) by {
        let k = pow2(h);
        assert((divisor * k) as real == (divisor as real) * (k as real)) by (nonlinear_arith);
    }
    assert(two * low == x) by (nonlinear_arith)
        requires
            rb == rd * two,
            low == rm / rb,
            x == rm / rd,
            two > 0 as real,
            rd > 0 as real,
    ;
    assert((2 * h) as real == 2 as real * rh);
    assert(low >= 0 as real && x >= 0 as real) by (nonlinear_arith)
        requires
            low == rm / rb,
            x == rm / rd,
            rm >= 0 as real,
            rb > 0 as real,
            rd > 0 as real,
    ;
    // From below.
    let p = logarithm::atanh_sum(y, 24);
    let q = logarithm::atanh_sum(z, 24);
    lemma_series_below(y, 24);
    lemma_series_below(z, 24);
    logarithm::lemma_atanh_sum_grows(y, 0, 24);
    logarithm::lemma_atanh_sum_grows(z, 0, 24);
    lemma_at_most_ln_of_power(2 as real * p, 2 as real, h);
    lemma_at_most_ln_of_product(rh * (2 as real * p), two, 2 as real * q, low);
    let l = (2 as real * rh) * p + 2 as real * q;
    assert(rh * (2 as real * p) == (2 as real * rh) * p) by (nonlinear_arith);
    if c >= 1 {
        let s = (2 * c - 1) as real;
        let d = (2 * m) as real;
        assert(d == 2 as real * rm);
        assert(0 as real <= s / d && s / d <= l) by (nonlinear_arith)
            requires
                rm * l >= s / 2 as real,
                d == 2 as real * rm,
                rm > 0 as real,
                s >= 0 as real,
        ;
        lemma_at_most_ln_smaller(s / d, l, x);
    }
    // From above.
    let f = atanh_bound(y, 24);
    let g = atanh_bound(z, 24);
    lemma_series_above(y, 24);
    lemma_series_above(z, 24);
    lemma_at_least_ln_of_power(2 as real * f, 2 as real, h);
    lemma_at_least_ln_of_product(rh * (2 as real * f), two, 2 as real * g, low);
    let u = (2 as real * rh) * f + 2 as real * g;
    assert(rh * (2 as real * f) == (2 as real * rh) * f) by (nonlinear_arith);
    let s = (0x1_0000_0000 * (2 * c + 1) + 1) as real;
    let d = (0x2_0000_0000 * m) as real;
    let limit = (2 * c + 1) as real / 2 as real + logarithm::tie_tolerance();
    lemma2_to64_rest();
    let e = logarithm::tie_tolerance();
    assert(e == 1 as real / 0x2_0000_0000int as real);
    assert(limit * 0x2_0000_0000int as real == s) by {
        let k = (2 * c + 1) as real;
        assert(s == 0x1_0000_0000int as real * k + 1 as real);
        assert(e * 0x2_0000_0000int as real == 1 as real) by (nonlinear_arith)
            requires
                e == 1 as real / 0x2_0000_0000int as real,
        ;
    }
    assert(d == 0x2_0000_0000int as real * rm);
    assert(u <= s / d) by (nonlinear_arith)
        requires
            rm * u <= limit,
            limit * 0x2_0000_0000int as real == s,
            d == 0x2_0000_0000int as real * rm,
            rm > 0 as real,
    ;
    lemma_at_least_ln_larger(u, s / d, x);
}

} // verus!
