//! Two filter sections in a row, over the real numbers: how loud both sides of a crossover are, and
//! that they are in phase.
use vstd::prelude::*;

use crate::algebra::{lemma_product_squared, lemma_units};
use crate::biquad::{alpha_of, BiquadCoeffs, Phasor};
use crate::flat::{coeffs, lemma_alpha, lemma_divisor, lemma_high, lemma_low, on_circle};
use crate::power::{
    high_end, high_power, law_sections_are_butterworth, lemma_not_negative, lemma_numerator_parts,
    lemma_squares, low_end, low_power, shared_power,
};
use crate::scalar::{exact, rooted, Number};

verus! {

/// `k0 + k1 / z + k2 / (z z)` at the point `u + v i` of the unit circle, as its real and its
/// imaginary part.
pub open spec fn weighting_at(k0: real, k1: real, k2: real, u: real, v: real) -> (real, real) {
    (k0 + k1 * u + k2 * (u * u - v * v), -(k1 * v + k2 * (2 as real * (u * v))))
}

/// What the complex number `n` comes to when it is applied twice.
pub open spec fn squared(n: (real, real)) -> (real, real) {
    (n.0 * n.0 - n.1 * n.1, 2 as real * (n.0 * n.1))
}

/// The square of the absolute value of a complex number.
pub open spec fn power_of(n: (real, real)) -> real {
    n.0 * n.0 + n.1 * n.1
}

/// Two complex numbers point into the same direction, as far as they point anywhere.
pub open spec fn in_phase(m: (real, real), n: (real, real)) -> bool {
    &&& m.0 * n.1 == m.1 * n.0
    &&& m.0 * n.0 + m.1 * n.1 >= 0 as real
}

/// What two low-passes for `at` in a row make of a sine at the point `u + v i` of the unit circle,
/// before it is divided by what both crossover sides divide by twice.
pub open spec fn two_low<S: Number>(at: Phasor<S>, u: real, v: real) -> (real, real) {
    let low = coeffs(BiquadCoeffs::low(at));
    squared(weighting_at(low.b0, low.b1, low.b2, u, v))
}

/// What two high-passes for `at` in a row make of a sine.
pub open spec fn two_high<S: Number>(at: Phasor<S>, u: real, v: real) -> (real, real) {
    let high = coeffs(BiquadCoeffs::high(at));
    squared(weighting_at(high.b0, high.b1, high.b2, u, v))
}

proof fn lemma_power_of_square(n: (real, real))
    ensures
        power_of(squared(n)) == power_of(n) * power_of(n),
{
    let (a, b, c) = (n.0 * n.0, n.1 * n.1, n.0 * n.1);
    lemma_squares(a, b);
    lemma_product_squared(n.0, n.1);
    lemma_product_squared(2 as real, c);
}

/// Numbers that are real multiples of the same one point into the same direction once squared.
proof fn lemma_multiples_in_phase(u: real, v: real, x: real, y: real)
    ensures
        in_phase(
            squared((2 as real * (u * x), -(2 as real * (v * x)))),
            squared((2 as real * (u * y), -(2 as real * (v * y)))),
        ),
{
    let (w, t) = (u * u - v * v, 2 as real * (u * v));
    let (p, q) = (4 as real * (x * x), 4 as real * (y * y));
    lemma_multiple_squared(u, v, x);
    lemma_multiple_squared(u, v, y);
    let (a, b, c, d) = (p * w, p * t, q * w, q * t);
    assert(a * -d == -b * c) by (nonlinear_arith)
        requires
            a == p * w,
            b == p * t,
            c == q * w,
            d == q * t,
    ;
    lemma_not_negative(x);
    lemma_not_negative(y);
    let pq = p * q;
    assert(pq >= 0 as real) by (nonlinear_arith)
        requires
            pq == p * q,
            p >= 0 as real,
            q >= 0 as real,
    ;
    lemma_not_negative(w);
    lemma_not_negative(t);
    let (ww, tt) = (w * w, t * t);
    assert(a * c == pq * ww) by (nonlinear_arith)
        requires
            a == p * w,
            c == q * w,
            pq == p * q,
            ww == w * w,
    ;
    assert(-b * -d == pq * tt) by (nonlinear_arith)
        requires
            b == p * t,
            d == q * t,
            pq == p * q,
            tt == t * t,
    ;
    assert(pq * ww >= 0 as real && pq * tt >= 0 as real) by (nonlinear_arith)
        requires
            pq >= 0 as real,
            ww >= 0 as real,
            tt >= 0 as real,
    ;
}

proof fn lemma_multiple_squared(u: real, v: real, x: real)
    ensures
        squared((2 as real * (u * x), -(2 as real * (v * x)))) == (
            4 as real * (x * x) * (u * u - v * v),
            -(4 as real * (x * x) * (2 as real * (u * v))),
        ),
{
    let (a, b, xx, uu, vv, uv) = (u * x, v * x, x * x, u * u, v * v, u * v);
    lemma_product_squared(u, x);
    lemma_product_squared(v, x);
    assert(a * b == uv * xx) by (nonlinear_arith)
        requires
            a == u * x,
            b == v * x,
            uv == u * v,
            xx == x * x,
    ;
    lemma_product_squared(2 as real, a);
    lemma_product_squared(2 as real, b);
    assert((-(2 as real * b)) * (-(2 as real * b)) == (2 as real * b) * (2 as real * b))
        by (nonlinear_arith);
    assert((2 as real * a) * (-(2 as real * b)) == -(4 as real * (a * b))) by (nonlinear_arith);
    assert(4 as real * xx * (uu - vv) == 4 as real * (uu * xx) - 4 as real * (vv * xx))
        by (nonlinear_arith);
    assert(4 as real * xx * (2 as real * uv) == 8 as real * (uv * xx)) by (nonlinear_arith);
}

/// Two sections in a row make up one side of a Linkwitz-Riley crossover of 24 dB per octave: of the
/// power they pass the square of the share that [`law_sections_are_butterworth`] gives one of them,
/// and at every frequency what the two sides give out is in phase. This holds if the arithmetic does
/// not round.
pub proof fn law_two_sections_are_linkwitz_riley<S: Number>(at: Phasor<S>, u: real, v: real)
    requires
        exact::<S>(),
        rooted::<S>(),
        on_circle(at),
        u * u + v * v == 1 as real,
    ensures
        ({
            let c = at.cos.value();
            let (p, q) = (low_end(c, u), high_end(c, u));
            let shared = shared_power(at, u, v) * shared_power(at, u, v);
            &&& power_of(two_low(at, u, v)) * ((p + q) * (p + q)) == shared * (p * p)
            &&& power_of(two_high(at, u, v)) * ((p + q) * (p + q)) == shared * (q * q)
            &&& in_phase(two_low(at, u, v), two_high(at, u, v))
        }),
{
    law_sections_are_butterworth(at, u, v);
    let (c, s, al) = (at.cos.value(), at.sin.value(), alpha_of(at).value());
    let (p, q) = (low_end(c, u), high_end(c, u));
    let (l, h, m) = (low_power(at, u, v), high_power(at, u, v), shared_power(at, u, v));
    let low = coeffs(BiquadCoeffs::low(at));
    let high = coeffs(BiquadCoeffs::high(at));
    let n = weighting_at(low.b0, low.b1, low.b2, u, v);
    let k = weighting_at(high.b0, high.b1, high.b2, u, v);
    lemma_opposite_squared(-n.1);
    lemma_opposite_squared(-k.1);
    assert(power_of(n) == l && power_of(k) == h);
    lemma_power_of_square(n);
    lemma_power_of_square(k);
    lemma_product_squared(l, p + q);
    lemma_product_squared(h, p + q);
    lemma_product_squared(m, p);
    lemma_product_squared(m, q);
    lemma_alpha(at);
    lemma_divisor(c, s, al);
    lemma_low(at);
    lemma_high(at);
    let one = 1 as real;
    lemma_units(2 as real * low.b0, u, u, u);
    lemma_numerator_parts(low.b0, one, u, v);
    lemma_numerator_parts(high.b0, -one, u, v);
    assert(-one * (2 as real * high.b0) == -(2 as real * high.b0)) by (nonlinear_arith)
        requires
            one == 1 as real,
    ;
    lemma_multiples_in_phase(u, v, low.b0 * (one + u), high.b0 * (-one + u));
}

proof fn lemma_opposite_squared(x: real)
    ensures
        (-x) * (-x) == x * x,
{
    assert((-x) * (-x) == x * x) by (nonlinear_arith);
}

} // verus!
