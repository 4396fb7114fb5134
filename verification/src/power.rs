//! How loud filter sections are at each frequency, over the real numbers.
use vstd::prelude::*;

use crate::algebra::{
    lemma_lag, lemma_product, lemma_product_squared, lemma_share, lemma_units, lemma_zeros,
};
use crate::biquad::{alpha_of, halves_cleanly, BiquadCoeffs, Phasor};
use crate::flat::{
    coeffs, lemma_all, lemma_alpha, lemma_cancel, lemma_divisor, lemma_high, lemma_low, on_circle,
};
use crate::response::power_at;
use crate::scalar::{exact, rooted, Number};

verus! {

pub proof fn lemma_squares(a: real, b: real)
    ensures
        (a + b) * (a + b) == a * a + 2 as real * (a * b) + b * b,
        (a - b) * (a - b) == a * a - 2 as real * (a * b) + b * b,
{
    assert((a + b) * (a + b) == a * a + 2 as real * (a * b) + b * b) by (nonlinear_arith);
    assert((a - b) * (a - b) == a * a - 2 as real * (a * b) + b * b) by (nonlinear_arith);
}

/// Turning a point of the plane by a point of the unit circle does not change how far out it is.
proof fn lemma_turned(u: real, v: real, x: real, y: real)
    requires
        u * u + v * v == 1 as real,
    ensures
        (u * x + v * y) * (u * x + v * y) + (v * x - u * y) * (v * x - u * y) == x * x + y * y,
{
    let (a, b, c, d) = (u * x, v * y, v * x, u * y);
    lemma_squares(a, b);
    lemma_squares(c, d);
    assert(a * b == c * d) by (nonlinear_arith)
        requires
            a == u * x,
            b == v * y,
            c == v * x,
            d == u * y,
    ;
    lemma_product_squared(u, x);
    lemma_product_squared(v, y);
    lemma_product_squared(v, x);
    lemma_product_squared(u, y);
    let (uu, vv, xx, yy) = (u * u, v * v, x * x, y * y);
    lemma_lag(uu, vv, 1 as real, xx);
    lemma_lag(uu, vv, 1 as real, yy);
    lemma_units(xx, yy, xx, yy);
}

/// The power of what is scaled is scaled by the square.
proof fn lemma_scaled_power(k: real, k0: real, k1: real, k2: real, u: real, v: real)
    ensures
        power_at(k * k0, k * k1, k * k2, u, v) == (k * k) * power_at(k0, k1, k2, u, v),
{
    let (w, t) = (u * u - v * v, 2 as real * (u * v));
    let (re, im) = (k0 + k1 * u + k2 * w, k1 * v + k2 * t);
    let (a, b, c) = (k1 * u, k2 * w, k1 * v);
    let e = k2 * t;
    lemma_product(k, k1, u);
    lemma_product(k, k2, w);
    lemma_product(k, k1, v);
    lemma_product(k, k2, t);
    lemma_distribute(k, k0, a, b);
    lemma_distribute(k, c, e, 0 as real);
    lemma_zeros(k, k);
    assert(k * re == k * k0 + k * k1 * u + k * k2 * w);
    assert(k * im == k * k1 * v + k * k2 * t);
    lemma_product_squared(k, re);
    lemma_product_squared(k, im);
    let (rr, ii) = (re * re, im * im);
    lemma_share(k * k, rr, ii, rr + ii);
}

proof fn lemma_distribute(k: real, a: real, b: real, c: real)
    ensures
        k * (a + b + c) == k * a + k * b + k * c,
{
    assert(k * (a + b + c) == k * a + k * b + k * c) by (nonlinear_arith);
}

/// How loud a weighting of the form `x + al`, `-2 c`, `x - al` of a section's denominator is.
proof fn lemma_denominator_power(al: real, c: real, u: real, v: real)
    requires
        u * u + v * v == 1 as real,
    ensures
        power_at(1 as real + al, -(2 as real * c), 1 as real - al, u, v) == 4 as real * ((u - c) * (u
            - c) + (al * v) * (al * v)),
{
    let (x, y) = (u - c, al * v);
    let (uu, vv, uv) = (u * u, v * v, u * v);
    let (w, t) = (uu - vv, 2 as real * uv);
    let (k1, k2) = (-(2 as real * c), 1 as real - al);
    let (re, im) = (1 as real + al + k1 * u + k2 * w, k1 * v + k2 * t);
    let (p, q) = (u * x + v * y, v * x - u * y);
    // the real part
    let (cu, cv, avv, auv) = (c * u, c * v, al * vv, al * uv);
    assert(k1 * u == -(2 as real * cu)) by (nonlinear_arith)
        requires
            k1 == -(2 as real * c),
            cu == c * u,
    ;
    assert(k1 * v == -(2 as real * cv)) by (nonlinear_arith)
        requires
            k1 == -(2 as real * c),
            cv == c * v,
    ;
    assert(w == 1 as real - 2 as real * vv);
    assert(k2 * w == 1 as real - al - 2 as real * vv + 2 as real * avv) by (nonlinear_arith)
        requires
            k2 == 1 as real - al,
            w == 1 as real - 2 as real * vv,
            avv == al * vv,
    ;
    assert(k2 * t == 2 as real * uv - 2 as real * auv) by (nonlinear_arith)
        requires
            k2 == 1 as real - al,
            t == 2 as real * uv,
            auv == al * uv,
    ;
    assert(u * x == uu - cu) by (nonlinear_arith)
        requires
            x == u - c,
            uu == u * u,
            cu == c * u,
    ;
    assert(v * x == uv - cv) by (nonlinear_arith)
        requires
            x == u - c,
            uv == u * v,
            cv == c * v,
    ;
    assert(v * y == avv) by (nonlinear_arith)
        requires
            y == al * v,
            vv == v * v,
            avv == al * vv,
    ;
    assert(u * y == auv) by (nonlinear_arith)
        requires
            y == al * v,
            uv == u * v,
            auv == al * uv,
    ;
    assert(re == 2 as real * p);
    assert(im == 2 as real * q);
    lemma_turned(u, v, x, y);
    lemma_product_squared(2 as real, p);
    lemma_product_squared(2 as real, q);
}

/// What a weighting with `g`, `2 g` or `-2 g`, and `g` comes to: twice `g (sign + u)`, turned back
/// by the point `u + v i`.
pub proof fn lemma_numerator_parts(g: real, sign: real, u: real, v: real)
    requires
        u * u + v * v == 1 as real,
    ensures
        ({
            let (k1, x) = (sign * (2 as real * g), g * (sign + u));
            &&& g + k1 * u + g * (u * u - v * v) == 2 as real * (u * x)
            &&& k1 * v + g * (2 as real * (u * v)) == 2 as real * (v * x)
        }),
{
    let x = g * (sign + u);
    let (uu, vv, uv) = (u * u, v * v, u * v);
    let (w, t) = (uu - vv, 2 as real * uv);
    let k1 = sign * (2 as real * g);
    let h = sign * g;
    assert(k1 == 2 as real * h) by (nonlinear_arith)
        requires
            k1 == sign * (2 as real * g),
            h == sign * g,
    ;
    let (hu, hv, guu, guv, gvv) = (h * u, h * v, g * uu, g * uv, g * vv);
    assert(k1 * u == 2 as real * hu && k1 * v == 2 as real * hv) by (nonlinear_arith)
        requires
            k1 == 2 as real * h,
            hu == h * u,
            hv == h * v,
    ;
    assert(g * w == guu - gvv) by (nonlinear_arith)
        requires
            w == uu - vv,
            guu == g * uu,
            gvv == g * vv,
    ;
    lemma_share(g, uu, vv, 1 as real);
    lemma_units(g, g, g, g);
    assert(g * t == 2 as real * guv) by (nonlinear_arith)
        requires
            t == 2 as real * uv,
            guv == g * uv,
    ;
    assert(x == h + g * u) by (nonlinear_arith)
        requires
            x == g * (sign + u),
            h == sign * g,
    ;
    let gu = g * u;
    assert(u * x == hu + guu) by (nonlinear_arith)
        requires
            x == h + gu,
            gu == g * u,
            hu == h * u,
            uu == u * u,
            guu == g * uu,
    ;
    assert(v * x == hv + guv) by (nonlinear_arith)
        requires
            x == h + gu,
            gu == g * u,
            hv == h * v,
            uv == u * v,
            guv == g * uv,
    ;
}

/// How loud a weighting with `g`, `2 g` or `-2 g`, and `g` is.
proof fn lemma_numerator_power(g: real, sign: real, u: real, v: real)
    requires
        u * u + v * v == 1 as real,
        sign == 1 as real || sign == -(1 as real),
    ensures
        power_at(g, sign * (2 as real * g), g, u, v) == 4 as real * ((g * (1 as real + sign * u)) * (g
            * (1 as real + sign * u))),
{
    let x = g * (sign + u);
    lemma_numerator_parts(g, sign, u, v);
    lemma_turned(u, v, x, 0 as real);
    lemma_zeros(u, v);
    lemma_product_squared(2 as real, u * x);
    lemma_product_squared(2 as real, v * x);
    // x and g (1 + sign u) differ in their sign at most
    let y = g * (1 as real + sign * u);
    if sign == 1 as real {
        lemma_units(u, u, u, u);
        assert(x == y);
    } else {
        assert(sign * u == -u) by (nonlinear_arith)
            requires
                sign == -(1 as real),
        ;
        assert(y == -x) by (nonlinear_arith)
            requires
                x == g * (sign + u),
                y == g * (1 as real - u),
                sign == -(1 as real),
        ;
        assert(y * y == x * x) by (nonlinear_arith)
            requires
                y == -x,
        ;
    }
}

/// The two ends that a section's power lies between.
proof fn lemma_ends(c: real, s: real, al: real, u: real, v: real)
    requires
        c * c + s * s == 1 as real,
        2 as real * (al * al) == s * s,
        u * u + v * v == 1 as real,
    ensures
        4 as real * ((u - c) * (u - c) + (al * v) * (al * v)) == ((1 as real - c) * (1 as real + u)) * ((
        1 as real - c) * (1 as real + u)) + ((1 as real + c) * (1 as real - u)) * ((1 as real + c) * (
        1 as real - u)),
{
    let (a, b) = ((1 as real - c) * (1 as real + u), (1 as real + c) * (1 as real - u));
    let (cu, cc, uu) = (c * u, c * c, u * u);
    let (m, x) = (1 as real - cu, u - c);
    assert(a == m + x) by (nonlinear_arith)
        requires
            a == (1 as real - c) * (1 as real + u),
            m == 1 as real - cu,
            cu == c * u,
            x == u - c,
    ;
    assert(b == m - x) by (nonlinear_arith)
        requires
            b == (1 as real + c) * (1 as real - u),
            m == 1 as real - cu,
            cu == c * u,
            x == u - c,
    ;
    lemma_squares(m, x);
    lemma_squares(u, c);
    lemma_squares(1 as real, cu);
    lemma_product_squared(c, u);
    lemma_product_squared(al, v);
    let (aa, vv, ss) = (al * al, v * v, s * s);
    assert(2 as real * (aa * vv) == ss * vv) by (nonlinear_arith)
        requires
            2 as real * aa == ss,
    ;
    assert(ss * vv == 1 as real - cc - uu + cc * uu) by (nonlinear_arith)
        requires
            ss == 1 as real - cc,
            vv == 1 as real - uu,
    ;
    assert(u * c == cu) by (nonlinear_arith)
        requires
            cu == c * u,
    ;
    lemma_units(cu, cu, cu, cu);
}

/// What the powers of the low-pass, of the high-pass and of what both are divided by come to at
/// the point `u + v i` of the unit circle, for a crossover point at `c + s i`.
proof fn lemma_section_powers(
    c: real,
    s: real,
    al: real,
    d: real,
    g: real,
    h: real,
    a1: real,
    a2: real,
    u: real,
    v: real,
)
    requires
        c * c + s * s == 1 as real,
        2 as real * (al * al) == s * s,
        u * u + v * v == 1 as real,
        d == 1 as real + al,
        d * g == (1 as real - c) / 2 as real,
        d * h == (1 as real + c) / 2 as real,
        d * a1 == -(2 as real * c),
        d * a2 == 1 as real - al,
    ensures
        ({
            let (p, q) = (low_end(c, u), high_end(c, u));
            &&& (d * d) * power_at(g, 2 as real * g, g, u, v) == p
            &&& (d * d) * power_at(h, -(2 as real * h), h, u, v) == q
            &&& (d * d) * power_at(1 as real, a1, a2, u, v) == p + q
        }),
{
    lemma_scaled_power(d, 1 as real, a1, a2, u, v);
    lemma_units(d, d, d, d);
    lemma_denominator_power(al, c, u, v);
    lemma_ends(c, s, al, u, v);
    let one = 1 as real;
    lemma_units(2 as real * g, u, g, g);
    lemma_numerator_power(g, one, u, v);
    lemma_numerator_power(h, -one, u, v);
    assert(-one * (2 as real * h) == -(2 as real * h)) by (nonlinear_arith)
        requires
            one == 1 as real,
    ;
    assert(-one * u == -u) by (nonlinear_arith)
        requires
            one == 1 as real,
    ;
    lemma_half_scaled(d, g, 1 as real - c, 1 as real + u);
    lemma_half_scaled(d, h, 1 as real + c, 1 as real - u);
}

proof fn lemma_half_scaled(d: real, g: real, x: real, y: real)
    requires
        d * g == x / 2 as real,
    ensures
        (d * d) * (4 as real * ((g * y) * (g * y))) == (x * y) * (x * y),
{
    let (gy, xy) = (g * y, x * y);
    assert(2 as real * (d * gy) == xy) by (nonlinear_arith)
        requires
            2 as real * (d * g) == x,
            gy == g * y,
            xy == x * y,
    ;
    let e = d * gy;
    lemma_product_squared(d, gy);
    let (dd, yy) = (d * d, gy * gy);
    assert(dd * (4 as real * yy) == 4 as real * (dd * yy)) by (nonlinear_arith);
    lemma_product_squared(2 as real, e);
}

/// The square of `(1 - c) (1 + u)`: it grows towards low frequencies `u`.
pub open spec fn low_end(c: real, u: real) -> real {
    ((1 as real - c) * (1 as real + u)) * ((1 as real - c) * (1 as real + u))
}

/// The square of `(1 + c) (1 - u)`: it grows towards high frequencies `u`.
pub open spec fn high_end(c: real, u: real) -> real {
    ((1 as real + c) * (1 as real - u)) * ((1 as real + c) * (1 as real - u))
}

proof fn lemma_designed_powers<S: Number>(at: Phasor<S>, u: real, v: real)
    requires
        exact::<S>(),
        rooted::<S>(),
        on_circle(at),
        u * u + v * v == 1 as real,
    ensures
        ({
            let (c, d) = (at.cos.value(), 1 as real + alpha_of(at).value());
            &&& d != 0 as real
            &&& (d * d) * low_power(at, u, v) == low_end(c, u)
            &&& (d * d) * high_power(at, u, v) == high_end(c, u)
            &&& (d * d) * shared_power(at, u, v) == low_end(c, u) + high_end(c, u)
        }),
{
    let (c, s, al) = (at.cos.value(), at.sin.value(), alpha_of(at).value());
    let low = coeffs(BiquadCoeffs::low(at));
    let high = coeffs(BiquadCoeffs::high(at));
    let all = coeffs(BiquadCoeffs::all(at));
    lemma_alpha(at);
    lemma_divisor(c, s, al);
    lemma_low(at);
    lemma_high(at);
    lemma_all(at);
    lemma_section_powers(c, s, al, 1 as real + al, low.b0, high.b0, all.a1, all.a2, u, v);
}

/// The power of the low-pass for `at`, before it is divided by [`shared_power`], at the point
/// `u + v i` of the unit circle.
pub open spec fn low_power<S: Number>(at: Phasor<S>, u: real, v: real) -> real {
    let low = coeffs(BiquadCoeffs::low(at));
    power_at(low.b0, low.b1, low.b2, u, v)
}

/// The power of the high-pass for `at`, before it is divided by [`shared_power`].
pub open spec fn high_power<S: Number>(at: Phasor<S>, u: real, v: real) -> real {
    let high = coeffs(BiquadCoeffs::high(at));
    power_at(high.b0, high.b1, high.b2, u, v)
}

/// What the powers of both sections for `at` are divided by.
pub open spec fn shared_power<S: Number>(at: Phasor<S>, u: real, v: real) -> real {
    let low = coeffs(BiquadCoeffs::low(at));
    power_at(1 as real, low.a1, low.a2, u, v)
}

/// At its crossover point each section passes half the power, so that two in a row are at -6 dB,
/// if the arithmetic does not round.
pub proof fn law_sections_halve_the_power_at_their_corner<S: Number>(at: Phasor<S>)
    requires
        exact::<S>(),
        rooted::<S>(),
        on_circle(at),
    ensures
        ({
            let (u, v) = (at.cos.value(), at.sin.value());
            &&& 2 as real * low_power(at, u, v) == shared_power(at, u, v)
            &&& 2 as real * high_power(at, u, v) == shared_power(at, u, v)
        }),
{
    let (c, s, d) = (at.cos.value(), at.sin.value(), 1 as real + alpha_of(at).value());
    lemma_designed_powers(at, c, s);
    let (p, q) = ((1 as real - c) * (1 as real + c), (1 as real + c) * (1 as real - c));
    assert(p == q) by (nonlinear_arith)
        requires
            p == (1 as real - c) * (1 as real + c),
            q == (1 as real + c) * (1 as real - c),
    ;
    lemma_half(d, low_power(at, c, s), shared_power(at, c, s), low_end(c, c));
    lemma_half(d, high_power(at, c, s), shared_power(at, c, s), low_end(c, c));
}

proof fn lemma_half(d: real, n: real, m: real, p: real)
    requires
        d != 0 as real,
        (d * d) * n == p,
        (d * d) * m == p + p,
    ensures
        2 as real * n == m,
{
    let k = d * d;
    assert(k != 0 as real) by (nonlinear_arith)
        requires
            d != 0 as real,
            k == d * d,
    ;
    assert(k * (2 as real * n) == 2 as real * (k * n)) by (nonlinear_arith);
    lemma_cancel(k, 2 as real * n, m);
}

/// Each section is a Butterworth one: the ratio of [`low_end`] to [`high_end`] is the fourth power
/// of how far above the frequency the crossover point lies, on the scale of the tangents of half the
/// angles, and of the power a section passes the share of its own end. So two low-passes in a row
/// fall, and two high-passes rise, with at least the eighth power of the frequency on that scale,
/// which is 24 dB per octave. This holds if the arithmetic does not round.
pub proof fn law_sections_are_butterworth<S: Number>(at: Phasor<S>, u: real, v: real)
    requires
        exact::<S>(),
        rooted::<S>(),
        on_circle(at),
        u * u + v * v == 1 as real,
    ensures
        ({
            let c = at.cos.value();
            let (p, q) = (low_end(c, u), high_end(c, u));
            &&& low_power(at, u, v) * (p + q) == shared_power(at, u, v) * p
            &&& high_power(at, u, v) * (p + q) == shared_power(at, u, v) * q
            &&& low_power(at, u, v) * q <= shared_power(at, u, v) * p
            &&& high_power(at, u, v) * p <= shared_power(at, u, v) * q
        }),
{
    let (c, d) = (at.cos.value(), 1 as real + alpha_of(at).value());
    lemma_designed_powers(at, u, v);
    let (p, q) = (low_end(c, u), high_end(c, u));
    lemma_not_negative((1 as real - c) * (1 as real + u));
    lemma_not_negative((1 as real + c) * (1 as real - u));
    lemma_share_of(d, low_power(at, u, v), shared_power(at, u, v), p, q);
    lemma_share_of(d, high_power(at, u, v), shared_power(at, u, v), q, p);
}

pub proof fn lemma_not_negative(x: real)
    ensures
        x * x >= 0 as real,
{
    assert(x * x >= 0 as real) by (nonlinear_arith);
}

proof fn lemma_share_of(d: real, n: real, m: real, p: real, q: real)
    requires
        d != 0 as real,
        (d * d) * n == p,
        (d * d) * m == p + q,
        p >= 0 as real,
        q >= 0 as real,
    ensures
        n * (p + q) == m * p,
        n * (q + p) == m * p,
        n * q <= m * p,
{
    let (k, r) = (d * d, p + q);
    assert(k > 0 as real) by (nonlinear_arith)
        requires
            d != 0 as real,
            k == d * d,
    ;
    assert(n * r == m * p) by (nonlinear_arith)
        requires
            k * n == p,
            k * m == r,
    ;
    assert(n >= 0 as real) by (nonlinear_arith)
        requires
            k > 0 as real,
            k * n == p,
            p >= 0 as real,
    ;
    assert(n * q <= n * r) by (nonlinear_arith)
        requires
            n >= 0 as real,
            q <= r,
    ;
}

// ---- both ends of the spectrum ----

/// The low-pass passes what is constant as it is, and nothing that changes its sign with every
/// sample; with the high-pass it is the other way round; and halving is clean for both. This holds
/// if the arithmetic does not round.
pub proof fn law_sections_pass_their_ends<S: Number>(at: Phasor<S>)
    requires
        exact::<S>(),
        rooted::<S>(),
        on_circle(at),
    ensures
        ({
            let (low, high) = (coeffs(BiquadCoeffs::low(at)), coeffs(BiquadCoeffs::high(at)));
            let a0 = S::unit().plus(alpha_of(at));
            &&& low.b0 + low.b1 + low.b2 == 1 as real + low.a1 + low.a2
            &&& low.b0 - low.b1 + low.b2 == 0 as real
            &&& high.b0 - high.b1 + high.b2 == 1 as real - high.a1 + high.a2
            &&& high.b0 + high.b1 + high.b2 == 0 as real
            &&& halves_cleanly(S::unit().plus(at.cos), a0)
            &&& halves_cleanly(S::unit().minus(at.cos), a0)
        }),
{
    let (c, s, al) = (at.cos.value(), at.sin.value(), alpha_of(at).value());
    let d = 1 as real + al;
    let low = coeffs(BiquadCoeffs::low(at));
    let high = coeffs(BiquadCoeffs::high(at));
    lemma_alpha(at);
    lemma_divisor(c, s, al);
    lemma_low(at);
    lemma_high(at);
    lemma_all(at);
    let all = coeffs(BiquadCoeffs::all(at));
    lemma_distribute(d, 1 as real, all.a1, all.a2);
    lemma_distribute(d, 1 as real, -all.a1, all.a2);
    lemma_units(d, d, d, d);
    assert(d * -all.a1 == -(d * all.a1)) by (nonlinear_arith);
    assert(d * (4 as real * low.b0) == 4 as real * (d * low.b0)) by (nonlinear_arith);
    assert(d * (4 as real * high.b0) == 4 as real * (d * high.b0)) by (nonlinear_arith);
    lemma_cancel(d, 4 as real * low.b0, 1 as real + all.a1 + all.a2);
    lemma_cancel(d, 4 as real * high.b0, 1 as real - all.a1 + all.a2);
    let (p, q) = (1 as real + c, 1 as real - c);
    assert(S::fraction(2, 1).value() == 2 as real);
    lemma_clean_halves(p, d);
    lemma_clean_halves(q, d);
}

proof fn lemma_clean_halves(x: real, d: real)
    requires
        d != 0 as real,
    ensures
        2 as real * (x / 2 as real / d) == x / d,
        -x / d == -(x / d),
{
    let (h, y) = (x / 2 as real, x / d);
    assert(y * d == x) by (nonlinear_arith)
        requires
            y == x / d,
            d != 0 as real,
    ;
    let z = h / d;
    assert(z * d == h) by (nonlinear_arith)
        requires
            z == h / d,
            d != 0 as real,
    ;
    assert(2 as real * z == y) by (nonlinear_arith)
        requires
            d != 0 as real,
            2 as real * (z * d) == y * d,
    ;
    assert(-x / d == -(x / d)) by (nonlinear_arith)
        requires
            d != 0 as real,
    ;
}

} // verus!
