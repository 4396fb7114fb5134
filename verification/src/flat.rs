//! Why the bands of a crossover add up to the signal again.
use vstd::prelude::*;

use crate::biquad::{alpha_of, BiquadCoeffs, BiquadState, Phasor};
use crate::crossover::{splits, Crossover, CrossoverState, MAX_BANDS, MAX_CROSSOVERS};
use crate::response::{
    causal, filtered, gives, law_halves_sum_to_allpass, law_identity_changes_nothing, law_sections_are_linear, leaves,
    lemma_sections_hear_the_past, matched, mixed, rest, state_at, Signal,
};
use crate::scalar::{exact, rooted, Number};

verus! {

/// The real numbers that coefficients stand for.
pub open spec fn coeffs<S: Number>(c: BiquadCoeffs<S>) -> BiquadCoeffs<real> {
    BiquadCoeffs {
        b0: c.b0.value(),
        b1: c.b1.value(),
        b2: c.b2.value(),
        a1: c.a1.value(),
        a2: c.a2.value(),
    }
}

/// The real numbers that a state stands for.
pub open spec fn state<S: Number>(s: BiquadState<S>) -> BiquadState<real> {
    BiquadState { z1: s.z1.value(), z2: s.z2.value() }
}

/// The signal that starts with the samples `xs` and is silent afterwards.
pub open spec fn samples<S: Number>(xs: Seq<S>) -> Signal {
    |n: int|
        if 0 <= n < xs.len() {
            xs[n].value()
        } else {
            0 as real
        }
}

/// Two sections in a row.
pub open spec fn twice<S: Number>(c: Seq<BiquadCoeffs<S>>, x: Signal) -> Signal {
    filtered(coeffs(c[1]), filtered(coeffs(c[0]), x))
}

/// What `band` makes of the signal `x` at the crossover `i`.
pub open spec fn section<S: Number>(c: &Crossover<S>, band: int, i: int, x: Signal) -> Signal {
    if i < band {
        twice(c.hp[i]@, x)
    } else if i == band {
        twice(c.lp[i]@, x)
    } else {
        filtered(coeffs(c.ap[i]), x)
    }
}

/// What is left of the signal `x` in `band` behind its first `i` crossovers.
pub open spec fn band_signal<S: Number>(c: &Crossover<S>, x: Signal, band: int, i: int) -> Signal
    decreases i,
{
    if i <= 0 {
        x
    } else {
        section(c, band, i - 1, band_signal(c, x, band, i - 1))
    }
}

/// The signal `x` behind the all-pass sections of the first `i` crossovers.
pub open spec fn allpassed<S: Number>(c: &Crossover<S>, x: Signal, i: int) -> Signal
    decreases i,
{
    if i <= 0 {
        x
    } else {
        filtered(coeffs(c.ap[i - 1]), allpassed(c, x, i - 1))
    }
}

/// The sections of the crossover `i` belong to one Linkwitz-Riley crossover point.
pub open spec fn matched_at<S: Number>(c: &Crossover<S>, i: int) -> bool {
    &&& c.lp[i]@[0] == c.lp[i]@[1]
    &&& c.hp[i]@[0] == c.hp[i]@[1]
    &&& matched(coeffs(c.lp[i]@[0]), coeffs(c.hp[i]@[0]), coeffs(c.ap[i]))
}

/// The sum of the first `n` of the numbers `out`.
pub open spec fn total<S: Number>(out: Seq<S>, n: int) -> real
    decreases n,
{
    if n <= 0 {
        0 as real
    } else {
        total(out, n - 1) + out[n - 1].value()
    }
}

// ---- the same chains, taken from the other end ----

/// What `band` makes of the signal `x` at its crossovers from `j` to before `m`.
spec fn chain<S: Number>(c: &Crossover<S>, x: Signal, band: int, j: int, m: int) -> Signal
    decreases m - j,
{
    if j >= m {
        x
    } else {
        chain(c, section(c, band, j, x), band, j + 1, m)
    }
}

spec fn allpass_chain<S: Number>(c: &Crossover<S>, x: Signal, j: int, m: int) -> Signal
    decreases m - j,
{
    if j >= m {
        x
    } else {
        allpass_chain(c, filtered(coeffs(c.ap[j]), x), j + 1, m)
    }
}

/// The bands from `k` to `m`, added up behind their crossovers from `j` on.
spec fn upper_bands<S: Number>(c: &Crossover<S>, x: Signal, j: int, k: int, m: int, n: int) -> real
    decreases m - k + 1,
{
    if k > m {
        0 as real
    } else {
        chain(c, x, k, j, m)(n) + upper_bands(c, x, j, k + 1, m, n)
    }
}

proof fn lemma_chain_grows<S: Number>(c: &Crossover<S>, x: Signal, band: int, j: int, m: int)
    requires
        j <= m,
    ensures
        chain(c, x, band, j, m + 1) == section(c, band, m, chain(c, x, band, j, m)),
    decreases m - j,
{
    reveal_with_fuel(chain, 2);
    if j < m {
        lemma_chain_grows(c, section(c, band, j, x), band, j + 1, m);
    }
}

proof fn lemma_chain_is_band_signal<S: Number>(c: &Crossover<S>, x: Signal, band: int, m: int)
    requires
        0 <= m,
    ensures
        chain(c, x, band, 0, m) == band_signal(c, x, band, m),
    decreases m,
{
    if m > 0 {
        lemma_chain_is_band_signal(c, x, band, m - 1);
        lemma_chain_grows(c, x, band, 0, m - 1);
    }
}

proof fn lemma_allpass_chain_grows<S: Number>(c: &Crossover<S>, x: Signal, j: int, m: int)
    requires
        j <= m,
    ensures
        allpass_chain(c, x, j, m + 1) == filtered(coeffs(c.ap[m]), allpass_chain(c, x, j, m)),
    decreases m - j,
{
    reveal_with_fuel(allpass_chain, 2);
    if j < m {
        lemma_allpass_chain_grows(c, filtered(coeffs(c.ap[j]), x), j + 1, m);
    }
}

proof fn lemma_allpass_chain_is_allpassed<S: Number>(c: &Crossover<S>, x: Signal, m: int)
    requires
        0 <= m,
    ensures
        allpass_chain(c, x, 0, m) == allpassed(c, x, m),
    decreases m,
{
    if m > 0 {
        lemma_allpass_chain_is_allpassed(c, x, m - 1);
        lemma_allpass_chain_grows(c, x, 0, m - 1);
    }
}

/// Above its own crossover a band only passes all-pass sections.
proof fn lemma_band_ends_in_allpasses<S: Number>(
    c: &Crossover<S>,
    x: Signal,
    band: int,
    j: int,
    m: int,
)
    requires
        band < j,
    ensures
        chain(c, x, band, j, m) == allpass_chain(c, x, j, m),
    decreases m - j,
{
    if j < m {
        lemma_band_ends_in_allpasses(c, filtered(coeffs(c.ap[j]), x), band, j + 1, m);
    }
}

/// The bands above the crossover `j` share its high-pass.
proof fn lemma_upper_bands_share<S: Number>(
    c: &Crossover<S>,
    x: Signal,
    j: int,
    k: int,
    m: int,
    n: int,
)
    requires
        j < k,
        j < m,
    ensures
        upper_bands(c, x, j, k, m, n) == upper_bands(c, twice(c.hp[j]@, x), j + 1, k, m, n),
    decreases m - k + 1,
{
    if k <= m {
        lemma_upper_bands_share(c, x, j, k + 1, m, n);
    }
}

proof fn lemma_allpasses_are_linear<S: Number>(
    c: &Crossover<S>,
    x: Signal,
    y: Signal,
    j: int,
    m: int,
)
    ensures
        allpass_chain(c, mixed(x, y), j, m) == mixed(
            allpass_chain(c, x, j, m),
            allpass_chain(c, y, j, m),
        ),
    decreases m - j,
{
    if j < m {
        let f = coeffs(c.ap[j]);
        assert forall|n: int|
            #[trigger] filtered(f, mixed(x, y))(n) == mixed(filtered(f, x), filtered(f, y))(n) by {
            law_sections_are_linear(f, x, y, n);
        }
        assert(filtered(f, mixed(x, y)) =~= mixed(filtered(f, x), filtered(f, y)));
        lemma_allpasses_are_linear(c, filtered(f, x), filtered(f, y), j + 1, m);
    } else {
        assert(mixed(x, y) =~= mixed(x, y));
    }
}

proof fn lemma_bands_from<S: Number>(c: &Crossover<S>, x: Signal, j: int, m: int, n: int)
    requires
        0 <= j <= m,
        causal(x),
        forall|i: int| 0 <= i < m ==> #[trigger] matched_at(c, i),
    ensures
        upper_bands(c, x, j, j, m, n) == allpass_chain(c, x, j, m)(n),
    decreases m - j,
{
    reveal_with_fuel(upper_bands, 2);
    if j < m {
        assert(matched_at(c, j));
        let low = twice(c.lp[j]@, x);
        let high = twice(c.hp[j]@, x);
        let passed = filtered(coeffs(c.ap[j]), x);
        assert forall|t: int| #[trigger] mixed(low, high)(t) == passed(t) by {
            law_halves_sum_to_allpass(
                coeffs(c.lp[j]@[0]),
                coeffs(c.hp[j]@[0]),
                coeffs(c.ap[j]),
                x,
                t,
            );
        }
        assert(mixed(low, high) =~= passed);
        lemma_band_ends_in_allpasses(c, low, j, j + 1, m);
        lemma_upper_bands_share(c, x, j, j + 1, m, n);
        lemma_bands_from(c, high, j + 1, m, n);
        lemma_allpasses_are_linear(c, low, high, j + 1, m);
    }
}

// ---- the three designs of one crossover point ----

pub proof fn lemma_cancel(k: real, x: real, y: real)
    requires
        k * x == k * y,
        k != 0 as real,
    ensures
        x == y,
{
    assert(x == y) by (nonlinear_arith)
        requires
            k * x == k * y,
            k != 0 as real,
    ;
}

proof fn lemma_scaled_square(k: real, x: real, p: real)
    requires
        k * x == p,
    ensures
        (k * k) * (x * x) == p * p,
{
    assert((k * k) * (x * x) == (k * x) * (k * x)) by (nonlinear_arith);
}

proof fn lemma_quotient(x: real, y: real)
    requires
        y != 0 as real,
    ensures
        y * (x / y) == x,
{
    assert(y * (x / y) == x) by (nonlinear_arith)
        requires
            y != 0 as real,
    ;
}

/// The design equations, with `al` for the bandwidth term and `a0` for what is divided by.
proof fn lemma_design(c: real, s: real, al: real, a0: real, g: real, h: real, a1: real, a2: real)
    requires
        s * s + c * c == 1 as real,
        2 as real * (al * al) == s * s,
        a0 == 1 as real + al,
        a0 != 0 as real,
        a0 * g == (1 as real - c) / 2 as real,
        a0 * h == (1 as real + c) / 2 as real,
        a0 * a1 == -(2 as real * c),
        a0 * a2 == 1 as real - al,
    ensures
        g * g + h * h == a2,
        4 as real * (g * g - h * h) == a1 * (1 as real + a2),
        6 as real * (g * g + h * h) == 1 as real + a1 * a1 + a2 * a2,
{
    let k = a0 * a0;
    let (p, q, t) = ((1 as real - c) / 2 as real, (1 as real + c) / 2 as real, 1 as real - al);
    let (cc, ss, aa) = (c * c, s * s, al * al);
    assert(k != 0 as real) by (nonlinear_arith)
        requires
            a0 != 0 as real,
            k == a0 * a0,
    ;
    lemma_scaled_square(a0, g, p);
    lemma_scaled_square(a0, h, q);
    lemma_scaled_square(a0, a1, -(2 as real * c));
    lemma_scaled_square(a0, a2, t);
    assert(4 as real * (p * p) == 1 as real - 2 as real * c + cc) by (nonlinear_arith)
        requires
            2 as real * p == 1 as real - c,
            cc == c * c,
    ;
    assert(4 as real * (q * q) == 1 as real + 2 as real * c + cc) by (nonlinear_arith)
        requires
            2 as real * q == 1 as real + c,
            cc == c * c,
    ;
    assert((-(2 as real * c)) * (-(2 as real * c)) == 4 as real * cc) by (nonlinear_arith)
        requires
            cc == c * c,
    ;
    assert(t * t == 1 as real - 2 as real * al + aa) by (nonlinear_arith)
        requires
            t == 1 as real - al,
            aa == al * al,
    ;
    assert(k == 1 as real + 2 as real * al + aa) by (nonlinear_arith)
        requires
            k == a0 * a0,
            a0 == 1 as real + al,
            aa == al * al,
    ;
    assert(a0 * t == 1 as real - aa) by (nonlinear_arith)
        requires
            t == 1 as real - al,
            a0 == 1 as real + al,
            aa == al * al,
    ;
    // the sum of the squares
    assert(k * a2 == a0 * t) by (nonlinear_arith)
        requires
            k == a0 * a0,
            a0 * a2 == t,
    ;
    lemma_spread(k, g * g, h * h);
    lemma_cancel(k, g * g + h * h, a2);
    // the difference of the squares
    assert(k * (a1 * (1 as real + a2)) == (a0 * a1) * (a0 + a0 * a2)) by (nonlinear_arith)
        requires
            k == a0 * a0,
    ;
    assert((-(2 as real * c)) * (a0 + t) == -(4 as real * c)) by (nonlinear_arith)
        requires
            a0 + t == 2 as real,
    ;
    lemma_spread(k, g * g, -(h * h));
    lemma_minus(k, h * h);
    lemma_fold(k, 4 as real, g * g - h * h);
    lemma_cancel(k, 4 as real * (g * g - h * h), a1 * (1 as real + a2));
    // the middle term
    lemma_fold(k, 6 as real, g * g + h * h);
    lemma_spread(k, 1 as real + a1 * a1, a2 * a2);
    lemma_spread(k, 1 as real, a1 * a1);
    lemma_cancel(k, 6 as real * (g * g + h * h), 1 as real + a1 * a1 + a2 * a2);
}

proof fn lemma_spread(k: real, x: real, y: real)
    ensures
        k * (x + y) == k * x + k * y,
{
    assert(k * (x + y) == k * x + k * y) by (nonlinear_arith);
}

proof fn lemma_minus(k: real, x: real)
    ensures
        k * -x == -(k * x),
{
    assert(k * -x == -(k * x)) by (nonlinear_arith);
}

proof fn lemma_fold(k: real, m: real, x: real)
    ensures
        k * (m * x) == m * (k * x),
{
    assert(k * (m * x) == m * (k * x)) by (nonlinear_arith);
}

/// `at` lies on the unit circle.
pub open spec fn on_circle<S: Number>(at: Phasor<S>) -> bool {
    at.cos.value() * at.cos.value() + at.sin.value() * at.sin.value() == 1 as real
}

/// On the unit circle, what the designs divide by is not zero.
pub proof fn lemma_divisor(c: real, s: real, al: real)
    requires
        c * c + s * s == 1 as real,
        2 as real * (al * al) == s * s,
    ensures
        1 as real + al != 0 as real,
{
    let cc = c * c;
    assert(cc >= 0 as real) by (nonlinear_arith)
        requires
            cc == c * c,
    ;
    if al == -(1 as real) {
        let aa = al * al;
        assert(aa == 1 as real) by (nonlinear_arith)
            requires
                aa == al * al,
                al == -(1 as real),
        ;
    }
}

/// The square of the bandwidth term is half that of the sine.
pub proof fn lemma_alpha<S: Number>(at: Phasor<S>)
    requires
        exact::<S>(),
        rooted::<S>(),
    ensures
        2 as real * (alpha_of(at).value() * alpha_of(at).value()) == at.sin.value() * at.sin.value(),
{
    let (s, al) = (at.sin.value(), alpha_of(at).value());
    let r = S::half_power().value();
    let q2 = S::fraction(2, 1).times(S::half_power()).value();
    assert(S::fraction(2, 1).value() == 2 as real);
    assert(q2 == 2 as real * r);
    assert(q2 != 0 as real) by (nonlinear_arith)
        requires
            q2 == 2 as real * r,
            r > 0 as real,
    ;
    lemma_quotient(s, q2);
    lemma_scaled_square(q2, al, s);
    assert(q2 * q2 == 2 as real) by (nonlinear_arith)
        requires
            q2 == 2 as real * r,
            r * r * 2 as real == 1 as real,
    ;
}

/// What the low-pass, multiplied by what it was divided by, comes to.
pub proof fn lemma_low<S: Number>(at: Phasor<S>)
    requires
        exact::<S>(),
        1 as real + alpha_of(at).value() != 0 as real,
    ensures
        ({
            let (c, d, low) = (
                at.cos.value(),
                1 as real + alpha_of(at).value(),
                coeffs(BiquadCoeffs::low(at)),
            );
            &&& d * low.b0 == (1 as real - c) / 2 as real
            &&& low.b1 == 2 as real * low.b0
            &&& low.b2 == low.b0
        }),
{
    let (c, d) = (at.cos.value(), 1 as real + alpha_of(at).value());
    let low = coeffs(BiquadCoeffs::low(at));
    let p = (1 as real - c) / 2 as real;
    assert(S::fraction(2, 1).value() == 2 as real);
    assert(low.b0 == p / d && low.b1 == (1 as real - c) / d);
    lemma_quotient(p, d);
    lemma_quotient(1 as real - c, d);
    lemma_fold(d, 2 as real, low.b0);
    lemma_cancel(d, low.b1, 2 as real * low.b0);
}

/// What the high-pass, multiplied by what it was divided by, comes to.
pub proof fn lemma_high<S: Number>(at: Phasor<S>)
    requires
        exact::<S>(),
        1 as real + alpha_of(at).value() != 0 as real,
    ensures
        ({
            let (c, d, high) = (
                at.cos.value(),
                1 as real + alpha_of(at).value(),
                coeffs(BiquadCoeffs::high(at)),
            );
            &&& d * high.b0 == (1 as real + c) / 2 as real
            &&& high.b1 == -(2 as real * high.b0)
            &&& high.b2 == high.b0
        }),
{
    let (c, d) = (at.cos.value(), 1 as real + alpha_of(at).value());
    let high = coeffs(BiquadCoeffs::high(at));
    let q = (1 as real + c) / 2 as real;
    assert(S::fraction(2, 1).value() == 2 as real);
    assert(high.b0 == q / d && high.b1 == (-(1 as real + c)) / d);
    lemma_quotient(q, d);
    lemma_quotient(-(1 as real + c), d);
    lemma_fold(d, 2 as real, high.b0);
    lemma_minus(d, 2 as real * high.b0);
    lemma_cancel(d, high.b1, -(2 as real * high.b0));
}

/// What the all-pass, multiplied by what it was divided by, comes to.
pub proof fn lemma_all<S: Number>(at: Phasor<S>)
    requires
        exact::<S>(),
        1 as real + alpha_of(at).value() != 0 as real,
    ensures
        ({
            let (c, al, d, all) = (
                at.cos.value(),
                alpha_of(at).value(),
                1 as real + alpha_of(at).value(),
                coeffs(BiquadCoeffs::all(at)),
            );
            &&& d * all.a1 == -(2 as real * c)
            &&& d * all.a2 == 1 as real - al
            &&& all.b0 == all.a2
            &&& all.b1 == all.a1
            &&& all.b2 == 1 as real
        }),
{
    let (c, al, d) = (at.cos.value(), alpha_of(at).value(), 1 as real + alpha_of(at).value());
    let all = coeffs(BiquadCoeffs::all(at));
    assert(S::fraction(-2, 1).value() == -(2 as real));
    assert(all.a1 == (-(2 as real) * c) / d && all.a2 == (1 as real - al) / d);
    assert(all.b2 == d / d);
    lemma_quotient(-(2 as real) * c, d);
    lemma_quotient(1 as real - al, d);
    lemma_quotient(d, d);
    assert(d * (1 as real) == d) by (nonlinear_arith);
    lemma_cancel(d, all.b2, 1 as real);
}

/// The low-pass, the high-pass and the all-pass that are designed for the same point of the unit
/// circle belong to one Linkwitz-Riley crossover point, if the arithmetic does not round.
pub proof fn law_designs_match<S: Number>(at: Phasor<S>)
    requires
        exact::<S>(),
        rooted::<S>(),
        on_circle(at),
    ensures
        matched(
            coeffs(BiquadCoeffs::low(at)),
            coeffs(BiquadCoeffs::high(at)),
            coeffs(BiquadCoeffs::all(at)),
        ),
{
    let (c, s, al) = (at.cos.value(), at.sin.value(), alpha_of(at).value());
    let low = coeffs(BiquadCoeffs::low(at));
    let high = coeffs(BiquadCoeffs::high(at));
    let all = coeffs(BiquadCoeffs::all(at));
    lemma_alpha(at);
    lemma_divisor(c, s, al);
    lemma_low(at);
    lemma_high(at);
    lemma_all(at);
    lemma_design(c, s, al, 1 as real + al, low.b0, high.b0, all.a1, all.a2);
}

// ---- from samples to signals ----

proof fn lemma_section_steps<S: Number>(c: BiquadCoeffs<S>, s: BiquadState<S>, x: S)
    requires
        exact::<S>(),
    ensures
        c.output(s, x).value() == gives(coeffs(c), state(s), x.value()),
        state(c.next(s, x)) == leaves(coeffs(c), state(s), x.value()),
{
}

/// The states `s` are those of two sections in a row that have heard `x` up to before `n`.
pub open spec fn pair_has_heard<S: Number>(
    c: Seq<BiquadCoeffs<S>>,
    s: Seq<BiquadState<S>>,
    x: Signal,
    n: int,
) -> bool {
    &&& state(s[0]) == state_at(coeffs(c[0]), x, n)
    &&& state(s[1]) == state_at(coeffs(c[1]), filtered(coeffs(c[0]), x), n)
}

/// The states that `band` keeps for the crossover `i` are those of sections that have heard `x`
/// up to before `n`.
pub open spec fn section_has_heard<S: Number>(
    c: &Crossover<S>,
    st: &CrossoverState<S>,
    band: int,
    i: int,
    x: Signal,
    n: int,
) -> bool {
    let s = st.section(band, i);
    if i < band {
        pair_has_heard(c.hp[i]@, s, x, n)
    } else if i == band {
        pair_has_heard(c.lp[i]@, s, x, n)
    } else {
        state(s[0]) == state_at(coeffs(c.ap[i]), x, n)
    }
}

/// `st` is what a crossover of `m + 1` bands keeps of the samples `xs`.
pub open spec fn has_heard<S: Number>(
    c: &Crossover<S>,
    st: &CrossoverState<S>,
    m: int,
    xs: Seq<S>,
) -> bool {
    forall|band: int, i: int|
        0 <= band <= m && 0 <= i < m ==> #[trigger] section_has_heard(
            c,
            st,
            band,
            i,
            band_signal(c, samples(xs), band, i),
            xs.len() as int,
        )
}

proof fn lemma_band_signal_hears_the_past<S: Number>(
    c: &Crossover<S>,
    x: Signal,
    y: Signal,
    band: int,
    i: int,
    n: int,
)
    requires
        forall|k: int| 0 <= k <= n ==> #[trigger] x(k) == y(k),
    ensures
        forall|k: int|
            0 <= k <= n ==> #[trigger] band_signal(c, x, band, i)(k) == band_signal(c, y, band, i)(k),
    decreases i,
{
    if i > 0 {
        lemma_band_signal_hears_the_past(c, x, y, band, i - 1, n);
        let p = band_signal(c, x, band, i - 1);
        let q = band_signal(c, y, band, i - 1);
        assert forall|k: int| 0 <= k <= n implies #[trigger] section(c, band, i - 1, p)(k) == section(
            c,
            band,
            i - 1,
            q,
        )(k) by {
            lemma_section_hears_the_past(c, band, i - 1, p, q, k);
        }
    }
}

proof fn lemma_section_hears_the_past<S: Number>(
    c: &Crossover<S>,
    band: int,
    i: int,
    p: Signal,
    q: Signal,
    n: int,
)
    requires
        forall|k: int| 0 <= k <= n ==> #[trigger] p(k) == q(k),
    ensures
        section(c, band, i, p)(n) == section(c, band, i, q)(n),
{
    if i > band {
        lemma_sections_hear_the_past(coeffs(c.ap[i]), p, q, n);
    } else {
        let f = if i < band {
            c.hp[i]@
        } else {
            c.lp[i]@
        };
        assert forall|k: int| 0 <= k <= n implies #[trigger] filtered(coeffs(f[0]), p)(k) == filtered(
            coeffs(f[0]),
            q,
        )(k) by {
            lemma_sections_hear_the_past(coeffs(f[0]), p, q, k);
        }
        lemma_sections_hear_the_past(
            coeffs(f[1]),
            filtered(coeffs(f[0]), p),
            filtered(coeffs(f[0]), q),
            n,
        );
    }
}

proof fn lemma_state_hears_the_past(c: BiquadCoeffs<real>, p: Signal, q: Signal, n: int)
    requires
        0 <= n,
        forall|k: int| 0 <= k < n ==> #[trigger] p(k) == q(k),
    ensures
        state_at(c, p, n) == state_at(c, q, n),
{
    if n > 0 {
        lemma_sections_hear_the_past(c, p, q, n - 1);
        assert(p(n - 1) == q(n - 1));
    }
}

/// A section that has heard a signal gives out what the signal is filtered to, and has then
/// heard one sample more.
proof fn lemma_section_goes_on<S: Number>(
    c: &Crossover<S>,
    before: &CrossoverState<S>,
    after: &CrossoverState<S>,
    band: int,
    i: int,
    p: Signal,
    n: int,
    x: S,
)
    requires
        exact::<S>(),
        0 <= n,
        section_has_heard(c, before, band, i, p, n),
        x.value() == p(n),
        after.section(band, i) == c.section_next(band, i, before.section(band, i), x),
    ensures
        section_has_heard(c, after, band, i, p, n + 1),
        c.section_output(band, i, before.section(band, i), x).value() == section(c, band, i, p)(n),
{
    let s = before.section(band, i);
    if i > band {
        lemma_section_steps(c.ap[i], s[0], x);
    } else {
        let f = if i < band {
            c.hp[i]@
        } else {
            c.lp[i]@
        };
        let y = f[0].output(s[0], x);
        lemma_section_steps(f[0], s[0], x);
        lemma_section_steps(f[1], s[1], y);
        assert(y.value() == filtered(coeffs(f[0]), p)(n));
    }
}

proof fn lemma_signal_goes_on<S: Number>(
    c: &Crossover<S>,
    before: &CrossoverState<S>,
    m: int,
    xs: Seq<S>,
    x: S,
    band: int,
    i: int,
)
    requires
        exact::<S>(),
        has_heard(c, before, m, xs),
        0 <= band <= m,
        0 <= i <= m,
    ensures
        c.signal(before, x, band, i).value() == band_signal(c, samples(xs.push(x)), band, i)(
            xs.len() as int,
        ),
        i < m ==> section_has_heard(
            c,
            before,
            band,
            i,
            band_signal(c, samples(xs.push(x)), band, i),
            xs.len() as int,
        ),
    decreases i,
{
    let n = xs.len() as int;
    let old_x = samples(xs);
    let new_x = samples(xs.push(x));
    if i < m {
        assert(section_has_heard(c, before, band, i, band_signal(c, old_x, band, i), n));
        lemma_band_signal_hears_the_past(c, old_x, new_x, band, i, n - 1);
        lemma_hearing_the_past(
            c,
            before,
            band,
            i,
            band_signal(c, old_x, band, i),
            band_signal(c, new_x, band, i),
            n,
        );
    }
    if i > 0 {
        lemma_signal_goes_on(c, before, m, xs, x, band, i - 1);
        lemma_section_output_goes_on(
            c,
            before,
            band,
            i - 1,
            band_signal(c, new_x, band, i - 1),
            n,
            c.signal(before, x, band, i - 1),
        );
    }
}

proof fn lemma_hearing_the_past<S: Number>(
    c: &Crossover<S>,
    st: &CrossoverState<S>,
    band: int,
    i: int,
    p: Signal,
    q: Signal,
    n: int,
)
    requires
        0 <= n,
        section_has_heard(c, st, band, i, p, n),
        forall|k: int| 0 <= k < n ==> #[trigger] p(k) == q(k),
    ensures
        section_has_heard(c, st, band, i, q, n),
{
    if i > band {
        lemma_state_hears_the_past(coeffs(c.ap[i]), p, q, n);
    } else {
        let f = if i < band {
            c.hp[i]@
        } else {
            c.lp[i]@
        };
        lemma_state_hears_the_past(coeffs(f[0]), p, q, n);
        assert forall|k: int| 0 <= k < n implies #[trigger] filtered(coeffs(f[0]), p)(k) == filtered(
            coeffs(f[0]),
            q,
        )(k) by {
            lemma_sections_hear_the_past(coeffs(f[0]), p, q, k);
        }
        lemma_state_hears_the_past(
            coeffs(f[1]),
            filtered(coeffs(f[0]), p),
            filtered(coeffs(f[0]), q),
            n,
        );
    }
}

proof fn lemma_section_output_goes_on<S: Number>(
    c: &Crossover<S>,
    st: &CrossoverState<S>,
    band: int,
    i: int,
    p: Signal,
    n: int,
    x: S,
)
    requires
        exact::<S>(),
        0 <= n,
        section_has_heard(c, st, band, i, p, n),
        x.value() == p(n),
    ensures
        c.section_output(band, i, st.section(band, i), x).value() == section(c, band, i, p)(n),
{
    let s = st.section(band, i);
    if i > band {
        lemma_section_steps(c.ap[i], s[0], x);
    } else {
        let f = if i < band {
            c.hp[i]@
        } else {
            c.lp[i]@
        };
        lemma_section_steps(f[0], s[0], x);
        lemma_section_steps(f[1], s[1], f[0].output(s[0], x));
    }
}

/// A crossover that has been reset has heard nothing.
pub proof fn law_reset_has_heard_nothing<S: Number>(c: &Crossover<S>, st: &CrossoverState<S>, m: int)
    requires
        exact::<S>(),
        st.silent(),
        0 <= m <= MAX_CROSSOVERS,
    ensures
        has_heard(c, st, m, Seq::empty()),
{
    assert(state(BiquadState::<S>::silent()) == rest());
    assert forall|band: int, i: int| 0 <= band <= m && 0 <= i < m implies #[trigger] section_has_heard(
        c,
        st,
        band,
        i,
        band_signal(c, samples(Seq::<S>::empty()), band, i),
        0,
    ) by {
        assert(st.section(band, i) == seq![BiquadState::<S>::silent(), BiquadState::<S>::silent()]);
    }
}

/// Splitting one sample more leaves the crossover having heard one sample more, and each band
/// gives out what its sections make of the whole signal so far, if the arithmetic does not round.
pub proof fn law_bands_follow_the_signal<S: Number>(
    c: &Crossover<S>,
    before: &CrossoverState<S>,
    xs: Seq<S>,
    x: S,
    num_bands: int,
    after: &CrossoverState<S>,
    out: Seq<S>,
)
    requires
        exact::<S>(),
        num_bands >= 1,
        has_heard(c, before, splits(num_bands), xs),
        c.split(before, x, num_bands, after, out),
    ensures
        has_heard(c, after, splits(num_bands), xs.push(x)),
        forall|band: int|
            0 <= band <= splits(num_bands) ==> #[trigger] out[band].value() == band_signal(
                c,
                samples(xs.push(x)),
                band,
                splits(num_bands),
            )(xs.len() as int),
{
    let m = splits(num_bands);
    let n = xs.len() as int;
    let heard = samples(xs.push(x));
    assert forall|band: int| 0 <= band <= m implies #[trigger] out[band].value() == band_signal(
        c,
        heard,
        band,
        m,
    )(n) by {
        lemma_signal_goes_on(c, before, m, xs, x, band, m);
    }
    assert forall|band: int, i: int| 0 <= band <= m && 0 <= i < m implies #[trigger] section_has_heard(
        c,
        after,
        band,
        i,
        band_signal(c, heard, band, i),
        n + 1,
    ) by {
        lemma_signal_goes_on(c, before, m, xs, x, band, i);
        assert(after.section(band, i) == c.section_next(
            band,
            i,
            before.section(band, i),
            c.signal(before, x, band, i),
        ));
        lemma_section_goes_on(
            c,
            before,
            after,
            band,
            i,
            band_signal(c, heard, band, i),
            n,
            c.signal(before, x, band, i),
        );
    }
}

proof fn lemma_total_of_bands<S: Number>(
    c: &Crossover<S>,
    x: Signal,
    out: Seq<S>,
    k: int,
    m: int,
    n: int,
)
    requires
        0 <= k <= m + 1,
        forall|band: int|
            0 <= band <= m ==> #[trigger] out[band].value() == band_signal(c, x, band, m)(n),
    ensures
        total(out, k) + upper_bands(c, x, 0, k, m, n) == total(out, m + 1),
    decreases m + 1 - k,
{
    if k <= m {
        lemma_total_of_bands(c, x, out, k + 1, m, n);
        lemma_chain_is_band_signal(c, x, k, m);
        assert(out[k].value() == band_signal(c, x, k, m)(n));
    }
}

/// The bands recombine flat: behind crossover points that are all matched, the bands of each
/// sample add up to the signal behind the all-pass sections alone, if the arithmetic does not
/// round.
pub proof fn law_bands_sum_to_allpass<S: Number>(
    c: &Crossover<S>,
    before: &CrossoverState<S>,
    xs: Seq<S>,
    x: S,
    num_bands: int,
    after: &CrossoverState<S>,
    out: Seq<S>,
)
    requires
        exact::<S>(),
        num_bands >= 1,
        has_heard(c, before, splits(num_bands), xs),
        forall|i: int| 0 <= i < splits(num_bands) ==> #[trigger] matched_at(c, i),
        c.split(before, x, num_bands, after, out),
    ensures
        total(out, MAX_BANDS as int) == allpassed(c, samples(xs.push(x)), splits(num_bands))(
            xs.len() as int,
        ),
{
    let m = splits(num_bands);
    let n = xs.len() as int;
    let heard = samples(xs.push(x));
    law_bands_follow_the_signal(c, before, xs, x, num_bands, after, out);
    lemma_total_of_bands(c, heard, out, 0, m, n);
    lemma_bands_from(c, heard, 0, m, n);
    lemma_allpass_chain_is_allpassed(c, heard, m);
    lemma_silent_bands(c, before, x, num_bands, after, out, MAX_BANDS as int);
}

proof fn lemma_silent_bands<S: Number>(
    c: &Crossover<S>,
    before: &CrossoverState<S>,
    x: S,
    num_bands: int,
    after: &CrossoverState<S>,
    out: Seq<S>,
    k: int,
)
    requires
        exact::<S>(),
        num_bands >= 1,
        c.split(before, x, num_bands, after, out),
        splits(num_bands) + 1 <= k <= MAX_BANDS,
    ensures
        total(out, k) == total(out, splits(num_bands) + 1),
    decreases k,
{
    if k > splits(num_bands) + 1 {
        lemma_silent_bands(c, before, x, num_bands, after, out, k - 1);
        assert(out[k - 1] == S::nought());
    }
}

/// A crossover that was built for points of the unit circle is matched at each of them, if the
/// arithmetic does not round.
pub proof fn law_tuned_crossovers_match<S: Number>(c: &Crossover<S>, i: int, at: Phasor<S>)
    requires
        exact::<S>(),
        rooted::<S>(),
        c.tuned(i, at),
        on_circle(at),
    ensures
        matched_at(c, i),
{
    law_designs_match(at);
}

/// A crossover that was built for points of the unit circle recombines flat: with no more bands
/// than it was built for, the bands of each sample add up to the signal behind the all-pass
/// sections alone, if the arithmetic does not round.
pub proof fn law_crossover_is_flat<S: Number>(
    c: &Crossover<S>,
    corners: Seq<Phasor<S>>,
    before: &CrossoverState<S>,
    xs: Seq<S>,
    x: S,
    num_bands: int,
    after: &CrossoverState<S>,
    out: Seq<S>,
)
    requires
        exact::<S>(),
        rooted::<S>(),
        c.follows(corners),
        forall|i: int| 0 <= i < corners.len() ==> on_circle(#[trigger] corners[i]),
        num_bands >= 1,
        splits(num_bands) <= corners.len(),
        has_heard(c, before, splits(num_bands), xs),
        c.split(before, x, num_bands, after, out),
    ensures
        total(out, MAX_BANDS as int) == allpassed(c, samples(xs.push(x)), splits(num_bands))(
            xs.len() as int,
        ),
        has_heard(c, after, splits(num_bands), xs.push(x)),
{
    assert forall|i: int| 0 <= i < splits(num_bands) implies #[trigger] matched_at(c, i) by {
        assert(c.tuned(i, corners[i]));
        law_tuned_crossovers_match(c, i, corners[i]);
    }
    law_bands_follow_the_signal(c, before, xs, x, num_bands, after, out);
    law_bands_sum_to_allpass(c, before, xs, x, num_bands, after, out);
}

/// An idle crossover passes every band through unchanged, if the arithmetic does not round.
pub proof fn law_idle_crossovers_change_nothing<S: Number>(
    c: &Crossover<S>,
    band: int,
    i: int,
    x: Signal,
    n: int,
)
    requires
        exact::<S>(),
        c.idle(i),
        causal(x),
    ensures
        section(c, band, i, x)(n) == x(n),
{
    let through = coeffs(BiquadCoeffs::<S>::through());
    law_identity_changes_nothing(through, x, n);
    law_identity_changes_nothing(through, filtered(through, x), n);
}

} // verus!
