//! What filter sections do to whole signals, over the real numbers.
use vstd::prelude::*;

use crate::algebra::{
    lemma_lag, lemma_product, lemma_product_squared, lemma_share, lemma_units, lemma_zeros,
};
use crate::biquad::{BiquadCoeffs, BiquadState};

verus! {

/// A signal: a real number for each sampling instant. Before instant 0 a signal is silent, if
/// it is [`causal`].
pub type Signal = spec_fn(int) -> real;

pub open spec fn causal(x: Signal) -> bool {
    forall|n: int| n < 0 ==> #[trigger] x(n) == 0 as real
}

/// The sum of two signals.
pub open spec fn mixed(x: Signal, y: Signal) -> Signal {
    |n: int| x(n) + y(n)
}

pub open spec fn rest() -> BiquadState<real> {
    BiquadState { z1: 0 as real, z2: 0 as real }
}

/// What a section gives out for the sample `x`.
pub open spec fn gives(c: BiquadCoeffs<real>, s: BiquadState<real>, x: real) -> real {
    c.b0 * x + s.z1
}

/// The state that the sample `x` leaves behind.
pub open spec fn leaves(c: BiquadCoeffs<real>, s: BiquadState<real>, x: real) -> BiquadState<real> {
    let y = gives(c, s, x);
    BiquadState { z1: c.b1 * x - c.a1 * y + s.z2, z2: c.b2 * x - c.a2 * y }
}

/// The state of a section that was at rest and has heard `x` from instant 0 to before `n`.
pub open spec fn state_at(c: BiquadCoeffs<real>, x: Signal, n: int) -> BiquadState<real>
    decreases n,
{
    if n <= 0 {
        rest()
    } else {
        leaves(c, state_at(c, x, n - 1), x(n - 1))
    }
}

/// The signal that a section, at rest at first, makes of `x`.
pub open spec fn filtered(c: BiquadCoeffs<real>, x: Signal) -> Signal {
    |n: int|
        if n < 0 {
            0 as real
        } else {
            gives(c, state_at(c, x, n), x(n))
        }
}

/// `x` weighted with its own last two samples.
pub open spec fn weighted(k0: real, k1: real, k2: real, x: Signal) -> Signal {
    |n: int| k0 * x(n) + k1 * x(n - 1) + k2 * x(n - 2)
}

/// The denominator of a section, at work on a signal.
pub open spec fn denominator(c: BiquadCoeffs<real>, y: Signal) -> Signal {
    weighted(1 as real, c.a1, c.a2, y)
}

/// The numerator of a section, at work on a signal.
pub open spec fn numerator(c: BiquadCoeffs<real>, x: Signal) -> Signal {
    weighted(c.b0, c.b1, c.b2, x)
}

/// A section solves its difference equation.
pub proof fn lemma_difference_equation(c: BiquadCoeffs<real>, x: Signal, n: int)
    requires
        causal(x),
    ensures
        denominator(c, filtered(c, x))(n) == numerator(c, x)(n),
{
    let y = filtered(c, x);
    if n < 0 {
        lemma_zeros(c.a1, c.a2);
        lemma_zeros(c.b0, c.b1);
        lemma_zeros(c.b2, c.b2);
    } else if n == 0 {
        lemma_zeros(c.a1, c.a2);
        lemma_zeros(c.b1, c.b2);
    } else if n == 1 {
        lemma_zeros(c.a1, c.a2);
        lemma_zeros(c.b1, c.b2);
        assert(state_at(c, x, 1) == leaves(c, state_at(c, x, 0), x(0)));
    } else {
        assert(state_at(c, x, n) == leaves(c, state_at(c, x, n - 1), x(n - 1)));
        assert(state_at(c, x, n - 1) == leaves(c, state_at(c, x, n - 2), x(n - 2)));
    }
}

/// Two weightings can be applied in either order.
proof fn lemma_weightings_commute(
    j0: real,
    j1: real,
    j2: real,
    k0: real,
    k1: real,
    k2: real,
    x: Signal,
    n: int,
)
    ensures
        weighted(j0, j1, j2, weighted(k0, k1, k2, x))(n) == weighted(
            k0,
            k1,
            k2,
            weighted(j0, j1, j2, x),
        )(n),
        weighted(j0, j1, j2, weighted(k0, k1, k2, x))(n) == j0 * k0 * x(n) + (j0 * k1 + j1 * k0) * x(
            n - 1,
        ) + (j0 * k2 + j1 * k1 + j2 * k0) * x(n - 2) + (j1 * k2 + j2 * k1) * x(n - 3) + j2 * k2 * x(
            n - 4,
        ),
{
    let (x0, x1, x2, x3, x4) = (x(n), x(n - 1), x(n - 2), x(n - 3), x(n - 4));
    lemma_row(j0, k0, k1, k2, x0, x1, x2);
    lemma_row(j1, k0, k1, k2, x1, x2, x3);
    lemma_row(j2, k0, k1, k2, x2, x3, x4);
    lemma_row(k0, j0, j1, j2, x0, x1, x2);
    lemma_row(k1, j0, j1, j2, x1, x2, x3);
    lemma_row(k2, j0, j1, j2, x2, x3, x4);
    lemma_column(j0 * k1, j1 * k0, 0 as real, x1);
    lemma_column(j0 * k2, j1 * k1, j2 * k0, x2);
    lemma_column(j1 * k2, j2 * k1, 0 as real, x3);
    lemma_zeros(x1, x3);
}

proof fn lemma_row(j: real, k0: real, k1: real, k2: real, x0: real, x1: real, x2: real)
    ensures
        j * (k0 * x0 + k1 * x1 + k2 * x2) == j * k0 * x0 + j * k1 * x1 + j * k2 * x2,
        j * k0 * x0 == k0 * j * x0,
        j * k1 * x1 == k1 * j * x1,
        j * k2 * x2 == k2 * j * x2,
{
    let (a, b, c) = (k0 * x0, k1 * x1, k2 * x2);
    assert(j * (a + b + c) == j * a + j * b + j * c) by (nonlinear_arith);
    lemma_product(j, k0, x0);
    lemma_product(j, k1, x1);
    lemma_product(j, k2, x2);
}

proof fn lemma_column(a: real, b: real, c: real, x: real)
    ensures
        (a + b + c) * x == a * x + b * x + c * x,
{
    assert((a + b + c) * x == a * x + b * x + c * x) by (nonlinear_arith);
}

/// `lp` and `hp`, each taken twice, and `ap` belong to one Linkwitz-Riley crossover point.
pub open spec fn matched(
    lp: BiquadCoeffs<real>,
    hp: BiquadCoeffs<real>,
    ap: BiquadCoeffs<real>,
) -> bool {
    &&& lp.b1 == 2 as real * lp.b0
    &&& lp.b2 == lp.b0
    &&& hp.b1 == -(2 as real * hp.b0)
    &&& hp.b2 == hp.b0
    &&& lp.a1 == ap.a1
    &&& lp.a2 == ap.a2
    &&& hp.a1 == ap.a1
    &&& hp.a2 == ap.a2
    &&& ap.b0 == ap.a2
    &&& ap.b1 == ap.a1
    &&& ap.b2 == 1 as real
    &&& lp.b0 * lp.b0 + hp.b0 * hp.b0 == ap.a2
    &&& 4 as real * (lp.b0 * lp.b0 - hp.b0 * hp.b0) == ap.a1 * (1 as real + ap.a2)
    &&& 6 as real * (lp.b0 * lp.b0 + hp.b0 * hp.b0) == 1 as real + ap.a1 * ap.a1 + ap.a2 * ap.a2
}

/// The denominator of a section undoes what two of its kind in a row divide by.
proof fn lemma_twice(c: BiquadCoeffs<real>, x: Signal, n: int)
    requires
        causal(x),
    ensures
        denominator(c, denominator(c, filtered(c, filtered(c, x))))(n) == numerator(
            c,
            numerator(c, x),
        )(n),
{
    let p = filtered(c, x);
    let u = filtered(c, p);
    lemma_difference_equation(c, p, n);
    lemma_difference_equation(c, p, n - 1);
    lemma_difference_equation(c, p, n - 2);
    assert(denominator(c, denominator(c, u))(n) == denominator(c, numerator(c, p))(n));
    lemma_weightings_commute(1 as real, c.a1, c.a2, c.b0, c.b1, c.b2, p, n);
    lemma_difference_equation(c, x, n);
    lemma_difference_equation(c, x, n - 1);
    lemma_difference_equation(c, x, n - 2);
    assert(numerator(c, denominator(c, p))(n) == numerator(c, numerator(c, x))(n));
}

proof fn lemma_once(c: BiquadCoeffs<real>, x: Signal, n: int)
    requires
        causal(x),
    ensures
        denominator(c, denominator(c, filtered(c, x)))(n) == denominator(c, numerator(c, x))(n),
{
    lemma_difference_equation(c, x, n);
    lemma_difference_equation(c, x, n - 1);
    lemma_difference_equation(c, x, n - 2);
}

/// The two numerators of a matched pair add up to the product of the all-pass's own two sides.
proof fn lemma_numerators(
    lp: BiquadCoeffs<real>,
    hp: BiquadCoeffs<real>,
    ap: BiquadCoeffs<real>,
    x: Signal,
    n: int,
)
    requires
        matched(lp, hp, ap),
    ensures
        numerator(lp, numerator(lp, x))(n) + numerator(hp, numerator(hp, x))(n) == denominator(
            ap,
            numerator(ap, x),
        )(n),
{
    lemma_weightings_commute(lp.b0, lp.b1, lp.b2, lp.b0, lp.b1, lp.b2, x, n);
    lemma_weightings_commute(hp.b0, hp.b1, hp.b2, hp.b0, hp.b1, hp.b2, x, n);
    lemma_weightings_commute(1 as real, ap.a1, ap.a2, ap.b0, ap.b1, ap.b2, x, n);
    let (g, h, a1, a2, t) = (lp.b0, hp.b0, ap.a1, ap.a2, 2 as real);
    let (gg, hh) = (g * g, h * h);
    assert(g * (t * g) == t * gg && (t * g) * g == t * gg && (t * g) * (t * g) == 4 as real * gg)
        by (nonlinear_arith)
        requires
            gg == g * g,
            t == 2 as real,
    ;
    assert(h * -(t * h) == -(t * hh) && -(t * h) * h == -(t * hh) && (-(t * h)) * (-(t * h)) == 4 as real
        * hh) by (nonlinear_arith)
        requires
            hh == h * h,
            t == 2 as real,
    ;
    assert(a1 * (1 as real + a2) == a1 + a1 * a2) by (nonlinear_arith);
    assert(a1 * a2 == a2 * a1) by (nonlinear_arith);
    lemma_lag(gg, hh, a2, x(n));
    lemma_lag(4 as real * gg, -(4 as real * hh), a1 + a1 * a2, x(n - 1));
    lemma_lag(6 as real * gg, 6 as real * hh, 1 as real + a1 * a1 + a2 * a2, x(n - 2));
    lemma_lag(4 as real * gg, -(4 as real * hh), a1 + a1 * a2, x(n - 3));
    lemma_lag(gg, hh, a2, x(n - 4));
}

/// The low half and the high half of a matched crossover point add up to its all-pass.
pub proof fn law_halves_sum_to_allpass(
    lp: BiquadCoeffs<real>,
    hp: BiquadCoeffs<real>,
    ap: BiquadCoeffs<real>,
    x: Signal,
    n: int,
)
    requires
        matched(lp, hp, ap),
        causal(x),
    ensures
        filtered(lp, filtered(lp, x))(n) + filtered(hp, filtered(hp, x))(n) == filtered(ap, x)(n),
    decreases n + 4,
{
    if n >= 0 {
        let u = filtered(lp, filtered(lp, x));
        let v = filtered(hp, filtered(hp, x));
        let w = filtered(ap, x);
        let (a1, a2) = (ap.a1, ap.a2);
        law_halves_sum_to_allpass(lp, hp, ap, x, n - 1);
        law_halves_sum_to_allpass(lp, hp, ap, x, n - 2);
        law_halves_sum_to_allpass(lp, hp, ap, x, n - 3);
        law_halves_sum_to_allpass(lp, hp, ap, x, n - 4);
        lemma_twice(lp, x, n);
        lemma_twice(hp, x, n);
        lemma_once(ap, x, n);
        lemma_numerators(lp, hp, ap, x, n);
        lemma_weightings_commute(1 as real, a1, a2, 1 as real, a1, a2, u, n);
        lemma_weightings_commute(1 as real, a1, a2, 1 as real, a1, a2, v, n);
        lemma_weightings_commute(1 as real, a1, a2, 1 as real, a1, a2, w, n);
        let c1 = 1 as real * a1 + a1 * 1 as real;
        let c2 = 1 as real * a2 + a1 * a1 + a2 * 1 as real;
        let c3 = a1 * a2 + a2 * a1;
        let c4 = a2 * a2;
        lemma_share(c1, u(n - 1), v(n - 1), w(n - 1));
        lemma_share(c2, u(n - 2), v(n - 2), w(n - 2));
        lemma_share(c3, u(n - 3), v(n - 3), w(n - 3));
        lemma_share(c4, u(n - 4), v(n - 4), w(n - 4));
    }
}

/// A section treats the parts of a mix as it treats them alone.
pub proof fn law_sections_are_linear(c: BiquadCoeffs<real>, x: Signal, y: Signal, n: int)
    ensures
        filtered(c, mixed(x, y))(n) == filtered(c, x)(n) + filtered(c, y)(n),
{
    if n >= 0 {
        lemma_states_are_linear(c, x, y, n);
        lemma_share(c.b0, x(n), y(n), mixed(x, y)(n));
    }
}

proof fn lemma_states_are_linear(c: BiquadCoeffs<real>, x: Signal, y: Signal, n: int)
    ensures
        state_at(c, mixed(x, y), n).z1 == state_at(c, x, n).z1 + state_at(c, y, n).z1,
        state_at(c, mixed(x, y), n).z2 == state_at(c, x, n).z2 + state_at(c, y, n).z2,
    decreases n,
{
    if n > 0 {
        lemma_states_are_linear(c, x, y, n - 1);
        let m = mixed(x, y);
        let (sx, sy, sm) = (state_at(c, x, n - 1), state_at(c, y, n - 1), state_at(c, m, n - 1));
        let (p, q, r) = (x(n - 1), y(n - 1), m(n - 1));
        lemma_share(c.b0, p, q, r);
        lemma_share(c.b1, p, q, r);
        lemma_share(c.b2, p, q, r);
        lemma_share(c.a1, gives(c, sx, p), gives(c, sy, q), gives(c, sm, r));
        lemma_share(c.a2, gives(c, sx, p), gives(c, sy, q), gives(c, sm, r));
    }
}

/// What a section makes of a signal up to an instant depends on the signal up to that instant.
pub proof fn lemma_sections_hear_the_past(c: BiquadCoeffs<real>, x: Signal, y: Signal, n: int)
    requires
        forall|k: int| 0 <= k <= n ==> #[trigger] x(k) == y(k),
    ensures
        filtered(c, x)(n) == filtered(c, y)(n),
        n >= 0 ==> state_at(c, x, n) == state_at(c, y, n),
    decreases n,
{
    if n > 0 {
        lemma_sections_hear_the_past(c, x, y, n - 1);
        assert(x(n - 1) == y(n - 1));
    }
    if n >= 0 {
        assert(x(n) == y(n));
    }
}

/// The square of the absolute value of `k0 + k1 / z + k2 / (z z)` at the point `u + v i` of the
/// unit circle.
pub open spec fn power_at(k0: real, k1: real, k2: real, u: real, v: real) -> real {
    let (re, im) = (k0 + k1 * u + k2 * (u * u - v * v), k1 * v + k2 * (2 as real * (u * v)));
    re * re + im * im
}

/// The all-pass of a matched crossover point is as loud behind as before at every frequency.
pub proof fn law_allpass_is_flat(
    lp: BiquadCoeffs<real>,
    hp: BiquadCoeffs<real>,
    ap: BiquadCoeffs<real>,
    u: real,
    v: real,
)
    requires
        matched(lp, hp, ap),
        u * u + v * v == 1 as real,
    ensures
        power_at(ap.b0, ap.b1, ap.b2, u, v) == power_at(1 as real, ap.a1, ap.a2, u, v),
{
    let (a, b) = (ap.a1, ap.a2);
    let (w, t) = (u * u - v * v, 2 as real * (u * v));
    lemma_double_angle(u, v);
    let (p, q) = (a * u, a * v);
    lemma_square_of_three(b, p, w);
    lemma_square_of_three(0 as real, q, t);
    lemma_square_of_three(1 as real, p, b * w);
    lemma_square_of_three(0 as real, q, b * t);
    lemma_zeros(q, t);
    lemma_zeros(b * t, b * t);
    // both mixed terms come down to the same multiple of u
    lemma_product(a, u, w);
    lemma_product(a, v, t);
    lemma_share(a, u * w, v * t, u);
    lemma_product(b, p, w);
    lemma_product(b, q, t);
    lemma_product(p, b, w);
    lemma_product(q, b, t);
    lemma_share(b, p * w, q * t, p);
    // and both outer terms to the same square
    lemma_product_squared(b, w);
    lemma_product_squared(b, t);
    lemma_share(b * b, w * w, t * t, 1 as real);
    lemma_units(p, w, t, q);
    lemma_units(b * b, b * w, b * t, q);
}

/// The square of a point of the unit circle lies on it, and turned back is that point again.
proof fn lemma_double_angle(u: real, v: real)
    requires
        u * u + v * v == 1 as real,
    ensures
        ({
            let (w, t) = (u * u - v * v, 2 as real * (u * v));
            &&& w * w + t * t == 1 as real
            &&& u * w + v * t == u
        }),
{
    let (x, y, m) = (u * u, v * v, u * v);
    let (w, t, s) = (x - y, 2 as real * m, x + y);
    lemma_product_squared(u, v);
    lemma_square_of_three(x, -y, 0 as real);
    lemma_square_of_three(x, y, 0 as real);
    lemma_zeros(x, y);
    lemma_zeros(-y, y);
    assert(x * -y == -(x * y)) by (nonlinear_arith);
    assert((-y) * (-y) == y * y) by (nonlinear_arith);
    assert((2 as real * m) * (2 as real * m) == 4 as real * (m * m)) by (nonlinear_arith);
    assert(s * s == 1 as real) by (nonlinear_arith)
        requires
            s == 1 as real,
    ;
    assert(u * (x - y) == u * x - u * y) by (nonlinear_arith);
    assert(v * (2 as real * m) == 2 as real * (v * m)) by (nonlinear_arith);
    lemma_product(v, u, v);
    lemma_product(u, v, v);
    lemma_share(u, x, y, 1 as real);
    lemma_units(u, u, u, u);
}

proof fn lemma_square_of_three(a: real, b: real, c: real)
    ensures
        (a + b + c) * (a + b + c) == a * a + b * b + c * c + 2 as real * (a * b) + 2 as real * (a * c)
            + 2 as real * (b * c),
{
    assert((a + b + c) * (a + b + c) == a * a + b * b + c * c + 2 as real * (a * b) + 2 as real * (a
        * c) + 2 as real * (b * c)) by (nonlinear_arith);
}

/// A section that only has its first coefficient, and that one is 1, changes nothing.
pub proof fn law_identity_changes_nothing(c: BiquadCoeffs<real>, x: Signal, n: int)
    requires
        c == (BiquadCoeffs {
            b0: 1 as real,
            b1: 0 as real,
            b2: 0 as real,
            a1: 0 as real,
            a2: 0 as real,
        }),
        causal(x),
    ensures
        filtered(c, x)(n) == x(n),
{
    lemma_identity_keeps_nothing(c, x, n);
}

proof fn lemma_identity_keeps_nothing(c: BiquadCoeffs<real>, x: Signal, n: int)
    requires
        c.b1 == 0 as real,
        c.b2 == 0 as real,
        c.a1 == 0 as real,
        c.a2 == 0 as real,
    ensures
        state_at(c, x, n) == rest(),
    decreases n,
{
    if n > 0 {
        lemma_identity_keeps_nothing(c, x, n - 1);
    }
}

} // verus!
