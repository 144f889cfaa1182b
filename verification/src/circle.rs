//! Sine and cosine lie on the unit circle, as near as a game has to know.
use crate::angle::{lemma_series_bounds, next_term, series, ONE, TERMS, WIDEST};
use vstd::arithmetic::div_mod::*;
use vstd::arithmetic::mul::*;
use vstd::arithmetic::power::*;
use vstd::prelude::*;

verus! {

/// `u^k * m^(n - k)`.
spec fn mono(u: int, m: int, n: nat, k: nat) -> int {
    pow(u, k) * pow(m, (n - k) as nat)
}

/// A factor of a multiple can be drawn out.
proof fn lemma_draw(k: int, c: int, x: int)
    ensures
        k * (c * x) == c * (k * x),
{
    lemma_mul_is_associative(k, c, x);
    lemma_mul_is_commutative(k, c);
    lemma_mul_is_associative(c, k, x);
}

/// The product with a sum of five multiples.
proof fn lemma_dot(k: int, c: (int, int, int, int, int), x: (int, int, int, int, int))
    ensures
        k * (c.0 * x.0 + c.1 * x.1 + c.2 * x.2 + c.3 * x.3 + c.4 * x.4) == c.0 * (k * x.0) + c.1
            * (k * x.1) + c.2 * (k * x.2) + c.3 * (k * x.3) + c.4 * (k * x.4),
{
    let a = c.0 * x.0;
    let b = c.1 * x.1;
    let d = c.2 * x.2;
    let e = c.3 * x.3;
    let f = c.4 * x.4;
    lemma_mul_is_distributive_add(k, a + b + d + e, f);
    lemma_mul_is_distributive_add(k, a + b + d, e);
    lemma_mul_is_distributive_add(k, a + b, d);
    lemma_mul_is_distributive_add(k, a, b);
    lemma_draw(k, c.0, x.0);
    lemma_draw(k, c.1, x.1);
    lemma_draw(k, c.2, x.2);
    lemma_draw(k, c.3, x.3);
    lemma_draw(k, c.4, x.4);
}

/// The product of two monomials of degree four by one of degree one.
proof fn lemma_mono(u: int, m: int, i: nat, j: nat)
    requires
        i <= 4,
        j <= 4,
    ensures
        u * (mono(u, m, 4, i) * mono(u, m, 4, j)) == mono(u, m, 9, i + j + 1),
        m * (mono(u, m, 4, i) * mono(u, m, 4, j)) == mono(u, m, 9, i + j),
{
    let a = pow(u, i);
    let b = pow(m, (4 - i) as nat);
    let c = pow(u, j);
    let d = pow(m, (4 - j) as nat);
    lemma_mul_is_associative(a, b, c * d);
    lemma_draw(b, c, d);
    lemma_mul_is_associative(a, c, b * d);
    lemma_pow_adds(u, i, j);
    lemma_pow_adds(m, (4 - i) as nat, (4 - j) as nat);
    let p = pow(u, i + j);
    let q = pow(m, (8 - i - j) as nat);
    assert(mono(u, m, 4, i) * mono(u, m, 4, j) == p * q);
    lemma_mul_is_associative(u, p, q);
    reveal(pow);
    assert(pow(u, i + j + 1) == u * p);
    lemma_draw(m, p, q);
    assert(pow(m, (9 - i - j) as nat) == m * q);
}

/// A sum of monomials of degree four.
spec fn sum4(u: int, m: int, c: (int, int, int, int, int)) -> int {
    c.0 * mono(u, m, 4, 0) + c.1 * mono(u, m, 4, 1) + c.2 * mono(u, m, 4, 2) + c.3 * mono(
        u,
        m,
        4,
        3,
    ) + c.4 * mono(u, m, 4, 4)
}

/// A factor times a monomial times a sum, spelt out.
proof fn lemma_row(u: int, m: int, c: (int, int, int, int, int), i: nat)
    requires
        i <= 4,
    ensures
        u * (mono(u, m, 4, i) * sum4(u, m, c)) == c.0 * mono(u, m, 9, i + 1) + c.1 * mono(
            u,
            m,
            9,
            i + 2,
        ) + c.2 * mono(u, m, 9, i + 3) + c.3 * mono(u, m, 9, i + 4) + c.4 * mono(u, m, 9, i + 5),
        m * (mono(u, m, 4, i) * sum4(u, m, c)) == c.0 * mono(u, m, 9, i) + c.1 * mono(
            u,
            m,
            9,
            i + 1,
        ) + c.2 * mono(u, m, 9, i + 2) + c.3 * mono(u, m, 9, i + 3) + c.4 * mono(u, m, 9, i + 4),
{
    let x = (
        mono(u, m, 4, 0),
        mono(u, m, 4, 1),
        mono(u, m, 4, 2),
        mono(u, m, 4, 3),
        mono(u, m, 4, 4),
    );
    let z = mono(u, m, 4, i);
    lemma_dot(z, c, x);
    let y = (z * x.0, z * x.1, z * x.2, z * x.3, z * x.4);
    lemma_dot(u, c, y);
    lemma_dot(m, c, y);
    lemma_mono(u, m, i, 0);
    lemma_mono(u, m, i, 1);
    lemma_mono(u, m, i, 2);
    lemma_mono(u, m, i, 3);
    lemma_mono(u, m, i, 4);
}

/// A factor times the square of a sum, row by row.
proof fn lemma_square(k: int, u: int, m: int, c: (int, int, int, int, int))
    ensures
        ({
            let s = sum4(u, m, c);
            k * (s * s) == c.0 * (k * (mono(u, m, 4, 0) * s)) + c.1 * (k * (mono(u, m, 4, 1) * s))
                + c.2 * (k * (mono(u, m, 4, 2) * s)) + c.3 * (k * (mono(u, m, 4, 3) * s)) + c.4 * (k
                * (mono(u, m, 4, 4) * s))
        }),
{
    let s = sum4(u, m, c);
    let x = (
        mono(u, m, 4, 0),
        mono(u, m, 4, 1),
        mono(u, m, 4, 2),
        mono(u, m, 4, 3),
        mono(u, m, 4, 4),
    );
    lemma_dot(s, c, x);
    lemma_mul_is_commutative(s, x.0);
    lemma_mul_is_commutative(s, x.1);
    lemma_mul_is_commutative(s, x.2);
    lemma_mul_is_commutative(s, x.3);
    lemma_mul_is_commutative(s, x.4);
    lemma_dot(k, c, (x.0 * s, x.1 * s, x.2 * s, x.3 * s, x.4 * s));
}

/// The series of the sine up to its fifth term, over the angle, whose square is
/// `u / m`, as a multiple of `1 / (9! * m^4)`.
spec fn sine_sum(u: int, m: int) -> int {
    sum4(u, m, (362880, -60480, 3024, -72, 1))
}

/// The series of the cosine up to its fifth term, likewise.
spec fn cosine_sum(u: int, m: int) -> int {
    sum4(u, m, (362880, -181440, 15120, -504, 9))
}

/// The terms of the two squares cancel up to the fifth power of the square.
proof fn lemma_identity(u: int, m: int)
    ensures
        u * (sine_sum(u, m) * sine_sum(u, m)) + m * (cosine_sum(u, m) * cosine_sum(u, m))
            == 131681894400 * mono(u, m, 9, 0) + 72576 * mono(u, m, 9, 5) - 30240 * mono(u, m, 9, 6)
            + 2160 * mono(u, m, 9, 7) - 63 * mono(u, m, 9, 8) + mono(u, m, 9, 9),
{
    let c = (362880int, -60480int, 3024int, -72int, 1int);
    let d = (362880int, -181440int, 15120int, -504int, 9int);
    lemma_square(u, u, m, c);
    lemma_square(m, u, m, d);
    lemma_row(u, m, c, 0);
    lemma_row(u, m, c, 1);
    lemma_row(u, m, c, 2);
    lemma_row(u, m, c, 3);
    lemma_row(u, m, c, 4);
    lemma_row(u, m, d, 0);
    lemma_row(u, m, d, 1);
    lemma_row(u, m, d, 2);
    lemma_row(u, m, d, 3);
    lemma_row(u, m, d, 4);
}

/// The next term of a series, against the exact one.
pub proof fn lemma_term(x: nat, t: nat, k: nat, u: int, m: int)
    requires
        x <= WIDEST,
        u == x * x,
        m == ONE * ONE,
    ensures
        ({
            let d = (k + 1) * (k + 2);
            let n = next_term(x, t, k);
            &&& m * (d * n) <= t * u
            &&& t * u <= m * (d * (n + 3))
            &&& d >= 2
        }),
{
    let one: int = ONE as int;
    let a: int = (t * x) as int / one;
    let b: int = (a * x) / one;
    let d: int = ((k + 1) * (k + 2)) as int;
    assert(d >= 2) by (nonlinear_arith)
        requires
            d == (k + 1) * (k + 2),
            k >= 0,
    ;
    lemma_mul_nonnegative(t as int, x as int);
    lemma_div_pos_is_pos((t * x) as int, one);
    lemma_mul_nonnegative(a, x as int);
    lemma_div_pos_is_pos(a * x, one);
    lemma_div_pos_is_pos(b, d);
    let n: int = b / d;
    lemma_fundamental_div_mod((t * x) as int, one);
    lemma_fundamental_div_mod(a * x, one);
    lemma_fundamental_div_mod(b, d);
    let w: int = (t * x) as int;
    let q: int = one * a;
    let v: int = a * x;
    let p: int = one * b;
    // From below.
    assert(d * n <= b < d * n + d);
    assert(m * (d * n) <= m * b) by {
        lemma_mul_inequality(d * n, b, m);
        lemma_mul_is_commutative(m, d * n);
        lemma_mul_is_commutative(m, b);
    }
    assert(m * b == one * p) by {
        lemma_mul_is_associative(one, one, b);
    }
    assert(one * p <= one * v) by {
        lemma_mul_inequality(p, v, one);
        lemma_mul_is_commutative(one, p);
        lemma_mul_is_commutative(one, v);
    }
    assert(one * v == q * x) by {
        lemma_mul_is_associative(one, a, x as int);
    }
    assert(q * x <= w * x) by {
        lemma_mul_inequality(q, w, x as int);
    }
    assert(w * x == t * u) by {
        lemma_mul_is_associative(t as int, x as int, x as int);
    }
    // From above.
    assert(w * x <= (q + one) * x) by {
        lemma_mul_inequality(w, q + one, x as int);
    }
    assert((q + one) * x == q * x + one * x) by {
        lemma_mul_is_distributive_add_other_way(x as int, q, one);
    }
    assert(one * v <= one * (p + one)) by {
        lemma_mul_inequality(v, p + one, one);
        lemma_mul_is_commutative(one, v);
        lemma_mul_is_commutative(one, p + one);
    }
    assert(one * (p + one) == one * p + m) by {
        lemma_mul_is_distributive_add(one, p, one);
    }
    assert(one * x <= 2 * m);
    let e: int = d * (n + 3);
    assert(e == d * n + 3 * d) by {
        lemma_mul_is_distributive_add(d, n, 3);
    }
    assert(m * (b + 3) <= m * e) by {
        lemma_mul_inequality(b + 3, e, m);
        lemma_mul_is_commutative(m, b + 3);
        lemma_mul_is_commutative(m, e);
    }
    assert(m * (b + 3) == m * b + 3 * m) by {
        lemma_mul_is_distributive_add(m, b, 3);
    }
}

/// One more term, each with what is known of it from the first on: `g` times a
/// term is `v`, but for what `e` units of it come to.
proof fn lemma_more(x: nat, t: nat, k: nat, u: int, m: int, g: int, v: int, e: int)
    requires
        x <= WIDEST,
        u == x * x,
        m == ONE * ONE,
        g > 0,
        e >= 0,
        g * t <= v <= g * (t + e),
    ensures
        ({
            let d = (k + 1) * (k + 2);
            let n = next_term(x, t, k);
            let h = (g * d) * m;
            h > 0 && h * n <= v * u <= h * (n + e + 3)
        }),
{
    let d: int = ((k + 1) * (k + 2)) as int;
    let n: int = next_term(x, t, k) as int;
    let h = (g * d) * m;
    lemma_term(x, t, k, u, m);
    assert(0 <= u <= 2 * m) by {
        lemma_mul_upper_bound(x as int, WIDEST as int, x as int, WIDEST as int);
        lemma_mul_nonnegative(x as int, x as int);
    }
    lemma_mul_strictly_positive(g, d);
    lemma_mul_strictly_positive(g * d, m);
    // h * y is g * (m * (d * y)).
    lemma_regroup(g, d, m, n);
    lemma_regroup(g, d, m, n + 3);
    lemma_regroup(g, d, m, n + e + 3);
    lemma_mul_inequality(m * (d * n), t * u, g);
    lemma_mul_inequality(t * u, m * (d * (n + 3)), g);
    lemma_mul_is_commutative(g, m * (d * n));
    lemma_mul_is_commutative(g, t * u);
    lemma_mul_is_commutative(g, m * (d * (n + 3)));
    // (g * t) * u is g * (t * u).
    lemma_mul_is_associative(g, t as int, u);
    lemma_mul_inequality(g * t, v, u);
    lemma_mul_inequality(v, g * (t + e), u);
    lemma_mul_is_distributive_add(g, t as int, e);
    lemma_mul_is_distributive_add_other_way(u, g * t, g * e);
    // (g * e) * u is at most h * e.
    lemma_mul_nonnegative(g, e);
    assert(2 * m <= d * m) by {
        lemma_mul_inequality(2, d, m);
    }
    lemma_mul_inequality(u, d * m, g * e);
    lemma_mul_is_commutative(u, g * e);
    lemma_mul_is_commutative(d * m, g * e);
    assert((g * e) * (d * m) == h * e) by {
        lemma_mul_is_associative(g, e, d * m);
        lemma_mul_is_commutative(e, d * m);
        lemma_mul_is_associative(g, d * m, e);
        lemma_mul_is_associative(g, d, m);
    }
    lemma_mul_is_distributive_add(h, n + 3, e);
}

/// A product in another order.
proof fn lemma_regroup(g: int, d: int, m: int, y: int)
    ensures
        ((g * d) * m) * y == g * (m * (d * y)),
{
    lemma_mul_is_associative(g * d, m, y);
    lemma_mul_is_associative(g, d, m * y);
    lemma_draw(d, m, y);
}

/// One more term, with its powers named.
proof fn lemma_power(
    x: nat,
    t: nat,
    k: nat,
    u: int,
    m: int,
    y: int,
    f: int,
    j: nat,
    e: int,
)
    requires
        x <= WIDEST,
        u == x * x,
        m == ONE * ONE,
        f > 0,
        e >= 0,
        (f * pow(m, j)) * t <= y * pow(u, j) <= (f * pow(m, j)) * (t + e),
    ensures
        ({
            let d = (k + 1) * (k + 2);
            let n = next_term(x, t, k);
            let g = (f * d) * pow(m, j + 1);
            g * n <= y * pow(u, j + 1) <= g * (n + e + 3)
        }),
{
    let d: int = ((k + 1) * (k + 2)) as int;
    let p = pow(m, j);
    let g = f * p;
    lemma_pow_positive(m, j);
    lemma_mul_strictly_positive(f, p);
    lemma_more(x, t, k, u, m, g, y * pow(u, j), e);
    reveal(pow);
    assert(pow(m, j + 1) == m * p);
    assert(pow(u, j + 1) == u * pow(u, j));
    assert((f * d) * (m * p) == ((f * p) * d) * m) by (nonlinear_arith);
    let v = pow(u, j);
    assert(y * (u * v) == (y * v) * u) by (nonlinear_arith);
}

/// A term over the common denominator.
proof fn lemma_common(u: int, m: int, y: int, f: int, c: int, j: nat, t: nat, e: int)
    requires
        m > 0,
        c > 0,
        c * f == 362880,
        j <= 4,
        (f * pow(m, j)) * t <= y * pow(u, j) <= (f * pow(m, j)) * (t + e),
    ensures
        ({
            let a = 362880 * pow(m, 4);
            a * t <= c * (y * mono(u, m, 4, j)) <= a * t + a * e
        }),
{
    let p = pow(m, (4 - j) as nat);
    let q = pow(m, j);
    let v = pow(u, j);
    let a = 362880 * pow(m, 4);
    lemma_pow_adds(m, (4 - j) as nat, j);
    lemma_pow_positive(m, (4 - j) as nat);
    lemma_mul_strictly_positive(c, p);
    let k = c * p;
    let w: int = t + e;
    lemma_mul_inequality((f * q) * t, y * v, k);
    lemma_mul_inequality(y * v, (f * q) * w, k);
    assert(((f * q) * t) * (c * p) == ((c * f) * (p * q)) * t) by (nonlinear_arith);
    assert(((f * q) * w) * (c * p) == ((c * f) * (p * q)) * w) by (nonlinear_arith);
    assert((y * v) * (c * p) == c * (y * (v * p))) by (nonlinear_arith);
    lemma_mul_is_distributive_add(a, t as int, e);
}

/// A number close under a sum of five terms, alternating, that starts a series.
pub proof fn lemma_head(x: nat, y: nat, k: nat) -> (t: (nat, nat, nat, nat, nat, nat))
    requires
        x <= WIDEST,
    ensures
        t.0 == y,
        t.1 == next_term(x, t.0, k),
        t.2 == next_term(x, t.1, k + 2),
        t.3 == next_term(x, t.2, k + 4),
        t.4 == next_term(x, t.3, k + 6),
        t.5 == next_term(x, t.4, k + 8),
        t.0 - t.1 + t.2 - t.3 + t.4 - t.5 <= series(x, y, k, TERMS as nat) <= t.0 - t.1 + t.2 - t.3
            + t.4,
{
    let a = next_term(x, y, k);
    let b = next_term(x, a, k + 2);
    let c = next_term(x, b, k + 4);
    let d = next_term(x, c, k + 6);
    let e = next_term(x, d, k + 8);
    lemma_series_bounds(x, e, k + 10, 7);
    reveal_with_fuel(series, 6);
    (y, a, b, c, d, e)
}

/// The fifth power of a square of at most a little over one.
proof fn lemma_fifth(u: int, m: int, y: int)
    requires
        0 <= u,
        0 < m,
        100 * u <= 111 * m,
        y >= 0,
    ensures
        1000 * (y * pow(u, 5)) <= 1686 * (y * pow(m, 5)),
{
    let v1 = pow(u, 1);
    let v2 = pow(u, 2);
    let v3 = pow(u, 3);
    let v4 = pow(u, 4);
    let v5 = pow(u, 5);
    let n1 = pow(m, 1);
    let n2 = pow(m, 2);
    let n3 = pow(m, 3);
    let n4 = pow(m, 4);
    let n5 = pow(m, 5);
    reveal(pow);
    lemma_pow1(u);
    lemma_pow1(m);
    lemma_pow_positive(m, 2);
    lemma_pow_positive(m, 3);
    lemma_pow_positive(m, 4);
    assert(v2 == u * v1 && v3 == u * v2 && v4 == u * v3 && v5 == u * v4);
    assert(n2 == m * n1 && n3 == m * n2 && n4 == m * n3 && n5 == m * n4);
    lemma_grow(u, m, v1, n1, 11100, 12322);
    lemma_grow(u, m, v2, n2, 12322, 13678);
    lemma_grow(u, m, v3, n3, 13678, 15183);
    lemma_grow(u, m, v4, n4, 15183, 16854);
    assert(10000 * v5 <= 16854 * n5);
    lemma_mul_inequality(10000 * v5, 16854 * n5, y);
    lemma_mul_is_associative(10000, v5, y);
    lemma_mul_is_associative(16854, n5, y);
    lemma_mul_is_commutative(v5, y);
    lemma_mul_is_commutative(n5, y);
    lemma_pow_positive(m, 5);
    lemma_mul_nonnegative(y, n5);
}

/// One power more.
proof fn lemma_grow(u: int, m: int, v: int, n: int, k: int, l: int)
    requires
        0 <= u,
        0 < m,
        0 <= v,
        0 < n,
        100 * u <= 111 * m,
        10000 * v <= k * n,
        0 < k,
        111 * k <= 100 * l,
    ensures
        10000 * (u * v) <= l * (m * n),
        0 <= u * v,
{
    // u * v, m * v and m * n.
    lemma_mul_inequality(100 * u, 111 * m, v);
    lemma_mul_is_associative(100, u, v);
    lemma_mul_is_associative(111, m, v);
    lemma_mul_inequality(10000 * v, k * n, m);
    lemma_mul_is_associative(10000, v, m);
    lemma_mul_is_commutative(v, m);
    lemma_mul_is_associative(k, n, m);
    lemma_mul_is_commutative(n, m);
    lemma_mul_nonnegative(u, v);
    let z = m * n;
    lemma_mul_strictly_positive(m, n);
    assert(1000000 * (u * v) <= 111 * (k * z));
    assert(111 * (k * z) <= 100 * (l * z)) by {
        lemma_mul_inequality(111 * k, 100 * l, z);
        lemma_mul_is_associative(111, k, z);
        lemma_mul_is_associative(100, l, z);
    }
}

/// A series is close to its first five terms, taken exactly.
proof fn lemma_close(
    x: nat,
    y: nat,
    k: nat,
    f: (int, int, int, int, int),
    c: (int, int, int, int),
) -> (last: nat)
    requires
        x <= WIDEST,
        f.0 == (k + 1) * (k + 2),
        f.1 == f.0 * ((k + 3) * (k + 4)),
        f.2 == f.1 * ((k + 5) * (k + 6)),
        f.3 == f.2 * ((k + 7) * (k + 8)),
        f.4 == f.3 * ((k + 9) * (k + 10)),
        f.0 > 0 && f.1 > 0 && f.2 > 0 && f.3 > 0 && f.4 > 0,
        c.0 > 0 && c.1 > 0 && c.2 > 0 && c.3 > 0,
        c.0 * f.0 == 362880,
        c.1 * f.1 == 362880,
        c.2 * f.2 == 362880,
        c.3 * f.3 == 362880,
    ensures
        ({
            let m = ONE * ONE;
            let u: int = (x * x) as int;
            let a = 362880 * pow(m, 4);
            let s = series(x, y, k, TERMS as nat);
            let z = y * sum4(u, m, (362880, -c.0, c.1, -c.2, c.3));
            &&& a > 0
            &&& z - 18 * a - a * last <= a * s <= z + 18 * a
            &&& (f.4 * pow(m, 5)) * last <= y * pow(u, 5)
        }),
{
    let m = ONE * ONE;
    let u: int = (x * x) as int;
    let a = 362880 * pow(m, 4);
    let yi: int = y as int;
    let t = lemma_head(x, y, k);
    lemma_pow_positive(m, 4);
    lemma_pow0(m);
    lemma_pow0(u);
    lemma_mul_basics(yi);
    lemma_mul_basics(pow(m, 0));
    lemma_mul_basics(f.0);
    lemma_power(x, t.0, k, u, m, yi, 1, 0, 0);
    lemma_power(x, t.1, k + 2, u, m, yi, f.0, 1, 3);
    lemma_power(x, t.2, k + 4, u, m, yi, f.1, 2, 6);
    lemma_power(x, t.3, k + 6, u, m, yi, f.2, 3, 9);
    lemma_power(x, t.4, k + 8, u, m, yi, f.3, 4, 12);
    lemma_common(u, m, yi, 1, 362880, 0, t.0, 0);
    lemma_common(u, m, yi, f.0, c.0, 1, t.1, 3);
    lemma_common(u, m, yi, f.1, c.1, 2, t.2, 6);
    lemma_common(u, m, yi, f.2, c.2, 3, t.3, 9);
    lemma_common(u, m, yi, f.3, c.3, 4, t.4, 12);
    let v = (
        mono(u, m, 4, 0),
        mono(u, m, 4, 1),
        mono(u, m, 4, 2),
        mono(u, m, 4, 3),
        mono(u, m, 4, 4),
    );
    lemma_dot(yi, (362880, -c.0, c.1, -c.2, c.3), v);
    lemma_mul_unary_negation(c.0, yi * v.1);
    lemma_mul_unary_negation(c.2, yi * v.3);
    let s = series(x, y, k, TERMS as nat);
    let h: int = t.0 - t.1 + t.2 - t.3 + t.4;
    lemma_spread(a, t.0 as int, t.1 as int, t.2 as int, t.3 as int, t.4 as int);
    lemma_mul_inequality(s, h, a);
    lemma_mul_inequality(h - t.5, s, a);
    lemma_mul_is_commutative(s, a);
    lemma_mul_is_commutative(h, a);
    lemma_mul_is_commutative(h - t.5, a);
    lemma_mul_is_distributive_sub(a, h, t.5 as int);
    lemma_mul_basics(a);
    t.5
}

/// A multiple of an alternating sum.
proof fn lemma_spread(a: int, p: int, q: int, r: int, s: int, t: int)
    ensures
        a * (p - q + r - s + t) == a * p - a * q + a * r - a * s + a * t,
{
    lemma_mul_is_distributive_sub(a, p, q);
    lemma_mul_is_distributive_add(a, p - q, r);
    lemma_mul_is_distributive_sub(a, p - q + r, s);
    lemma_mul_is_distributive_add(a, p - q + r - s, t);
}

/// The last term that counts, as a share of one.
proof fn lemma_last(u: int, y: int, f: int, last: nat, k: int)
    requires
        0 <= u,
        100 * u <= 111 * (ONE * ONE),
        0 <= y,
        (f * pow(ONE * ONE, 5)) * last <= y * pow(u, 5),
        f > 0,
        1686 * k <= 1000 * f,
        k > 0,
    ensures
        k * last <= y,
{
    let m = ONE * ONE;
    let n = pow(m, 5);
    lemma_pow_positive(m, 5);
    lemma_fifth(u, m, y);
    // f * (n * last) is at most 1.686 times y * n.
    assert((f * n) * last == n * (f * last)) by (nonlinear_arith);
    lemma_mul_is_commutative(y, n);
    let g: int = f * last;
    assert(1000 * (n * g) <= 1686 * (n * y));
    lemma_draw(n, 1000, g);
    lemma_draw(n, 1686, y);
    if 1000 * g > 1686 * y {
        lemma_mul_strict_inequality(1686 * y, 1000 * g, n);
        lemma_mul_is_commutative(1686 * y, n);
        lemma_mul_is_commutative(1000 * g, n);
    }
    assert(1686 * (k * last) <= 1000 * (f * last)) by {
        lemma_mul_inequality(1686 * k, 1000 * f, last as int);
        lemma_mul_is_associative(1686, k, last as int);
        lemma_mul_is_associative(1000, f, last as int);
    }
}

/// Squares of numbers that are close are close.
proof fn lemma_squares(p: int, q: int, e: int, l: int)
    requires
        -e <= p - q <= e,
        0 <= p <= l,
    ensures
        -(e * (2 * l + e)) <= p * p - q * q <= e * (2 * l + e),
{
    let d = p - q;
    let n = p + q;
    let k = 2 * l + e;
    assert(p * p - q * q == d * n) by {
        lemma_mul_is_distributive_sub_other_way(n, p, q);
        lemma_mul_is_distributive_add(p, p, q);
        lemma_mul_is_distributive_add(q, p, q);
        lemma_mul_is_commutative(p, q);
    }
    assert(-(e * k) <= d * n <= e * k) by (nonlinear_arith)
        requires
            -e <= d <= e,
            -k <= n <= k,
    ;
}

/// Sine and cosine are on the unit circle, but for three parts in a million at
/// most, for every angle at which the paddle returns the ball.
pub proof fn sine_and_cosine_lie_on_the_circle(x: nat)
    requires
        10000 * x <= 10501 * ONE,
    ensures
        ({
            let s = series(x, x, 1, TERMS as nat);
            let c = series(x, ONE as nat, 0, TERMS as nat);
            let m = ONE * ONE;
            -21 * m <= 10_000_000 * (s * s + c * c - m) <= 21 * m
        }),
{
    let one: int = ONE as int;
    let m = ONE * ONE;
    let u: int = (x * x) as int;
    let xi: int = x as int;
    let a = 362880 * pow(m, 4);
    let s = series(x, x, 1, TERMS as nat);
    let c = series(x, ONE as nat, 0, TERMS as nat);
    lemma_mul_nonnegative(xi, xi);
    assert(100 * u <= 111 * m) by {
        lemma_mul_upper_bound(10000 * xi, 10501 * one, 10000 * xi, 10501 * one);
        assert((10000 * xi) * (10000 * xi) == 100000000 * u) by (nonlinear_arith)
            requires
                u == xi * xi,
        ;
        assert((10501 * one) * (10501 * one) == 110271001 * m) by (nonlinear_arith)
            requires
                m == one * one,
        ;
    }
    // Each is close to its exact head.
    assert((1 + 1) * (1 + 2) == 6 && 6 * ((1 + 3) * (1 + 4)) == 120 && 120 * ((1 + 5) * (1 + 6))
        == 5040 && 5040 * ((1 + 7) * (1 + 8)) == 362880 && 362880 * ((1 + 9) * (1 + 10))
        == 39916800) by (nonlinear_arith);
    assert((0 + 1) * (0 + 2) == 2 && 2 * ((0 + 3) * (0 + 4)) == 24 && 24 * ((0 + 5) * (0 + 6))
        == 720 && 720 * ((0 + 7) * (0 + 8)) == 40320 && 40320 * ((0 + 9) * (0 + 10)) == 3628800)
        by (nonlinear_arith);
    let last = lemma_close(
        x,
        x,
        1,
        (6, 120, 5040, 362880, 39916800),
        (60480, 3024, 72, 1),
    );
    lemma_last(u, xi, 39916800, last, 23675444);
    let tail = lemma_close(
        x,
        ONE as nat,
        0,
        (2, 24, 720, 40320, 3628800),
        (181440, 15120, 504, 9),
    );
    lemma_last(u, one, 3628800, tail, 2152313);
    lemma_series_bounds(x, x, 1, TERMS as nat);
    lemma_series_bounds(x, ONE as nat, 0, TERMS as nat);
    let p = sine_sum(u, m);
    let q = cosine_sum(u, m);
    let w = a * one;
    assert(46 * (2 * 1_060_000_000 + 46) == 97_520_002_116 && 466 * (2 * 1_000_000_000 + 466)
        == 932_000_217_156) by (nonlinear_arith);
    lemma_near(a, one, s, xi * p, last as int, 46, 1_060_000_000, 97_520_002_116);
    lemma_near(a, one, c, one * q, tail as int, 466, 1_000_000_000, 932_000_217_156);
    // The exact heads are on the circle, but for the rest.
    lemma_identity(u, m);
    lemma_little(u, m);
    assert((xi * p) * (xi * p) == u * (p * p)) by (nonlinear_arith)
        requires
            u == xi * xi,
    ;
    assert((one * q) * (one * q) == m * (q * q)) by (nonlinear_arith)
        requires
            m == one * one,
    ;
    let r = 131681894400 * mono(u, m, 9, 0);
    assert(w * w == r) by {
        lemma_ninth(u, m);
    }
    let b = a * a;
    assert((a * s) * (a * s) == b * (s * s)) by (nonlinear_arith)
        requires
            b == a * a,
    ;
    assert((a * c) * (a * c) == b * (c * c)) by (nonlinear_arith)
        requires
            b == a * a,
    ;
    assert(w * w == b * m) by (nonlinear_arith)
        requires
            b == a * a,
            w == a * one,
            m == one * one,
    ;
    let d = s * s + c * c - m;
    assert(b * d == b * (s * s) + b * (c * c) - b * m) by {
        lemma_mul_is_distributive_sub(b, s * s + c * c, m);
        lemma_mul_is_distributive_add(b, s * s, c * c);
    }
    let e: int = b * m;
    lemma_add_up(
        e,
        (a * s) * (a * s) - (xi * p) * (xi * p),
        (a * c) * (a * c) - (one * q) * (one * q),
        u * (p * p) + m * (q * q) - r,
        b * d,
    );
    lemma_mul_strictly_positive(a, a);
    lemma_draw(b, 10_000_000, d);
    lemma_draw(b, 21, m);
    lemma_draw(b, -21, m);
    if 10_000_000 * d > 21 * m {
        lemma_mul_strict_inequality(21 * m, 10_000_000 * d, b);
        lemma_mul_is_commutative(21 * m, b);
        lemma_mul_is_commutative(10_000_000 * d, b);
    }
    if 10_000_000 * d < -21 * m {
        lemma_mul_strict_inequality(10_000_000 * d, -21 * m, b);
        lemma_mul_is_commutative(-21 * m, b);
        lemma_mul_is_commutative(10_000_000 * d, b);
    }
}

/// The three deviations together.
proof fn lemma_add_up(e: int, f: int, g: int, r: int, d: int)
    requires
        -(97_520_002_116 * e) <= 1_000_000_000_000_000_000 * f <= 97_520_002_116 * e,
        -(932_000_217_156 * e) <= 1_000_000_000_000_000_000 * g <= 932_000_217_156 * e,
        0 <= 1_000_000_000 * r <= 965 * e,
        d == f + g + r,
    ensures
        -21 * e <= 10_000_000 * d <= 21 * e,
{
}

/// The square of a series against that of its exact head.
proof fn lemma_near(a: int, one: int, s: int, z: int, last: int, k: int, l: int, n: int)
    requires
        n == k * (2 * l + k),
        a > 0,
        one == ONE,
        k > 0,
        l > 0,
        z - 18 * a - a * last <= a * s <= z + 18 * a,
        last >= 0,
        1_000_000_000 * (last + 18) <= k * one,
        0 <= 1_000_000_000 * s <= l * one,
    ensures
        ({
            let w = a * one;
            let b = n * (w * w);
            -b <= 1_000_000_000_000_000_000 * ((a * s) * (a * s) - z * z) <= b
        }),
{
    let g: int = 1_000_000_000;
    let w = a * one;
    let v = a * s;
    let p = g * v;
    let q = g * z;
    let e = k * w;
    let h = l * w;
    lemma_mul_nonnegative(a, last);
    assert(g * (a * (last + 18)) <= k * w) by {
        lemma_mul_inequality(g * (last + 18), k * one, a);
        lemma_mul_is_commutative(g * (last + 18), a);
        lemma_mul_is_commutative(k * one, a);
        lemma_draw(a, g, last + 18);
        lemma_draw(a, k, one);
    }
    lemma_mul_is_distributive_add(a, last, 18);
    assert(0 <= p <= h) by {
        lemma_mul_inequality(g * s, l * one, a);
        lemma_mul_is_commutative(g * s, a);
        lemma_mul_is_commutative(l * one, a);
        lemma_draw(a, g, s);
        lemma_draw(a, l, one);
        lemma_mul_nonnegative(a, s);
    }
    lemma_squares(p, q, e, h);
    assert(p * p == 1_000_000_000_000_000_000 * (v * v)) by (nonlinear_arith)
        requires
            p == 1_000_000_000 * v,
    ;
    assert(q * q == 1_000_000_000_000_000_000 * (z * z)) by (nonlinear_arith)
        requires
            q == 1_000_000_000 * z,
    ;
    assert(e * (2 * h + e) == (k * (2 * l + k)) * (w * w)) by (nonlinear_arith)
        requires
            e == k * w,
            h == l * w,
    ;
}

/// The ninth power of what everything is a share of.
proof fn lemma_ninth(u: int, m: int)
    requires
        m == ONE * ONE,
    ensures
        ((362880 * pow(m, 4)) * ONE) * ((362880 * pow(m, 4)) * ONE) == 131681894400 * mono(
            u,
            m,
            9,
            0,
        ),
{
    let one: int = ONE as int;
    let p = pow(m, 4);
    lemma_pow_adds(m, 4, 4);
    reveal(pow);
    assert(pow(m, 9) == m * pow(m, 8));
    lemma_pow0(u);
    lemma_mul_basics(pow(m, 9));
    assert(((362880 * p) * one) * ((362880 * p) * one) == 131681894400 * (m * (p * p)))
        by (nonlinear_arith)
        requires
            m == one * one,
    ;
}

/// What is left of the circle is little.
proof fn lemma_little(u: int, m: int)
    requires
        0 <= u,
        0 < m,
        100 * u <= 111 * m,
    ensures
        ({
            let r = 72576 * mono(u, m, 9, 5) - 30240 * mono(u, m, 9, 6) + 2160 * mono(u, m, 9, 7)
                - 63 * mono(u, m, 9, 8) + mono(u, m, 9, 9);
            0 <= r && 1_000_000_000 * r <= 965 * (131681894400 * mono(u, m, 9, 0))
        }),
{
    lemma_fall(u, m, 0);
    lemma_fall(u, m, 1);
    lemma_fall(u, m, 2);
    lemma_fall(u, m, 3);
    lemma_fall(u, m, 4);
    lemma_fall(u, m, 5);
    lemma_fall(u, m, 6);
    lemma_fall(u, m, 7);
    lemma_fall(u, m, 8);
}

/// Each monomial is at most a little over the one before.
proof fn lemma_fall(u: int, m: int, k: nat)
    requires
        0 <= u,
        0 < m,
        100 * u <= 111 * m,
        k <= 8,
    ensures
        0 <= 100 * mono(u, m, 9, k + 1) <= 111 * mono(u, m, 9, k),
{
    let p = pow(u, k);
    let q = pow(m, (8 - k) as nat);
    reveal(pow);
    assert(pow(u, k + 1) == u * p);
    assert(pow(m, (9 - k) as nat) == m * q);
    lemma_pow_positive(m, (8 - k) as nat);
    if u == 0 {
        lemma_pow_none(k);
    } else {
        lemma_pow_positive(u, k);
    }
    let v = p * q;
    lemma_mul_nonnegative(p, q);
    lemma_mul_is_associative(u, p, q);
    lemma_draw(p, m, q);
    lemma_mul_inequality(100 * u, 111 * m, v);
    lemma_mul_is_associative(100, u, v);
    lemma_mul_is_associative(111, m, v);
    lemma_mul_nonnegative(u, v);
}

/// Powers of nothing are not under it.
proof fn lemma_pow_none(k: nat)
    ensures
        pow(0, k) >= 0,
{
    if k == 0 {
        lemma_pow0(0);
    } else {
        lemma0_pow(k);
    }
}

} // verus!
