//! A few facts of real arithmetic, each small enough for the solver.

use vstd::prelude::*;

verus! {

/// A square is not negative.
pub proof fn lemma_square_not_negative(x: real)
    ensures
        x * x >= 0real,
{
    assert(x * x >= 0real) by (nonlinear_arith);
}

/// A product of two numbers that are not negative is not negative.
pub proof fn lemma_product_not_negative(x: real, y: real)
    requires
        x >= 0real,
        y >= 0real,
    ensures
        x * y >= 0real,
{
    assert(x * y >= 0real) by (nonlinear_arith)
        requires
            x >= 0real,
            y >= 0real,
    ;
}

/// Multiplying by a number that is not negative keeps the order.
pub proof fn lemma_product_monotonic(u: real, v: real, w: real)
    requires
        u <= v,
        w >= 0real,
    ensures
        u * w <= v * w,
        w * u <= w * v,
{
    assert(u * w <= v * w && w * u <= w * v) by (nonlinear_arith)
        requires
            u <= v,
            w >= 0real,
    ;
}

/// A number that is not negative, over a positive number that is at least
/// as large, lies between zero and one.
pub proof fn lemma_quotient_in_unit_interval(x: real, y: real)
    requires
        0real <= x <= y,
        0real < y,
    ensures
        0real <= x / y <= 1real,
{
    assert(0real <= x / y <= 1real) by (nonlinear_arith)
        requires
            0real <= x <= y,
            0real < y,
    ;
}

/// A positive number over a positive number that is at most as large is at
/// least one, and one only where the two are equal.
pub proof fn lemma_quotient_at_least_one(x: real, y: real)
    requires
        0real < y <= x,
    ensures
        x / y >= 1real,
        x / y == 1real <==> x == y,
{
    assert(x / y >= 1real && (x / y == 1real <==> x == y)) by (nonlinear_arith)
        requires
            0real < y <= x,
    ;
}

/// A positive number over the smaller of two positive numbers is larger
/// than over the larger one.
pub proof fn lemma_quotient_falls(x: real, small: real, large: real)
    requires
        0real < x,
        0real < small < large,
    ensures
        0real < x / large < x / small,
{
    let a = x / large;
    let b = x / small;
    assert(a * large == x && b * small == x) by (nonlinear_arith)
        requires
            a == x / large,
            b == x / small,
            0real < small < large,
    ;
    assert(0real < a) by (nonlinear_arith)
        requires
            a * large == x,
            0real < x,
            0real < large,
    ;
    assert(a < b) by (nonlinear_arith)
        requires
            a * large == x,
            b * small == x,
            0real < a,
            0real < small < large,
    ;
}

/// A number other than zero over itself is one.
pub proof fn lemma_quotient_of_equals(y: real)
    requires
        y != 0real,
    ensures
        y / y == 1real,
{
    assert(y / y == 1real) by (nonlinear_arith)
        requires
            y != 0real,
    ;
}

/// Of two numbers that are not negative the larger has the larger square.
pub proof fn lemma_square_monotonic(s: real, t: real)
    requires
        0real <= s < t,
    ensures
        s * s < t * t,
{
    assert(s * s < t * t) by (nonlinear_arith)
        requires
            0real <= s < t,
    ;
}

/// The arithmetic mean of two numbers that are not negative is at least a
/// number whose square is at most their product.
pub proof fn lemma_mean_bounds_root(p: real, q: real, c: real)
    requires
        p >= 0real,
        q >= 0real,
        c * c <= p * q,
    ensures
        2real * c <= p + q,
{
    if 2real * c > p + q {
        let s = p + q;
        let t = 2real * c;
        lemma_square_monotonic(s, t);
        assert(t * t == 4real * (c * c)) by (nonlinear_arith)
            requires
                t == 2real * c,
        ;
        assert(s * s == p * p + 2real * (p * q) + q * q) by (nonlinear_arith)
            requires
                s == p + q,
        ;
        lemma_square_not_negative(p - q);
        assert((p - q) * (p - q) == p * p - 2real * (p * q) + q * q) by (nonlinear_arith);
        assert(false);
    }
}

/// One more pair keeps the inequality of Cauchy and Schwarz: if the square
/// of a sum of products is at most the product of the sums of squares, it
/// stays so when `x * y` joins the one and `x * x` and `y * y` the others.
pub proof fn lemma_cauchy_schwarz_step(s: real, a: real, b: real, x: real, y: real)
    requires
        s * s <= a * b,
        a >= 0real,
        b >= 0real,
    ensures
        (s + x * y) * (s + x * y) <= (a + x * x) * (b + y * y),
{
    let c = x * y;
    let xx = x * x;
    let yy = y * y;
    let p = a * yy;
    let q = xx * b;
    let m = s * c;
    lemma_square_not_negative(x);
    lemma_square_not_negative(y);
    lemma_product_not_negative(a, yy);
    lemma_product_not_negative(xx, b);
    lemma_product_not_negative(xx, yy);
    assert(c * c == xx * yy) by (nonlinear_arith)
        requires
            c == x * y,
            xx == x * x,
            yy == y * y,
    ;
    assert(m * m == (s * s) * (c * c)) by (nonlinear_arith)
        requires
            m == s * c,
    ;
    lemma_product_monotonic(s * s, a * b, xx * yy);
    assert((a * b) * (xx * yy) == p * q) by (nonlinear_arith)
        requires
            p == a * yy,
            q == xx * b,
    ;
    assert(m * m <= p * q);
    lemma_mean_bounds_root(p, q, m);
    assert((s + c) * (s + c) == s * s + 2real * m + c * c) by (nonlinear_arith)
        requires
            m == s * c,
    ;
    assert((a + xx) * (b + yy) == a * b + p + q + xx * yy) by (nonlinear_arith)
        requires
            p == a * yy,
            q == xx * b,
    ;
}

} // verus!
