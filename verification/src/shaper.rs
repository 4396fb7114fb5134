//! The transient shaper of a band.
use vstd::prelude::*;

use crate::scalar::{clamp, Scalar};
#[allow(unused_imports)]
use crate::rounding::{
    compares, law_clamped_numbers_lie_between, law_fractions_cut, law_rounding_stays_between,
    level_with, rounded, rounds, unital,
};
#[allow(unused_imports)]
use crate::scalar::{clamped, exact, is_function, mirrored, ordered, Number};

verus! {

/// A per-band transient shaper.
///
/// It tracks a fast peak envelope and a slower "body" envelope. The difference
/// between the two indicates how much of the signal is currently an attack
/// transient versus a sustained/decaying body, and is used to crossfade between
/// an attack gain and a sustain gain. The two gains are derived from a single
/// "shaping" value so the band only ever cuts the attack or the sustain.
pub struct TransientShaper<S> {
    pub env: S,
    pub body: S,
    pub gain: S,
    pub release_coef: S,
    pub body_coef: S,
    pub gain_coef: S,
}

/// One number for each of the three one-pole smoothers of a shaper.
#[derive(Clone, Copy, Debug)]
pub struct Decays<S> {
    pub release: S,
    pub body: S,
    pub gain: S,
}

/// The exponent of the decay over one sample of a smoother with time constant `time`.
pub open spec fn exponent_of<S: Number>(sample_rate: S, time: S) -> S {
    S::fraction(-1, 1).over(sample_rate.greater(S::unit()).times(time))
}

/// The release time, in seconds, for the recovery time `speed_ms` in milliseconds.
pub open spec fn release_time<S: Number>(speed_ms: S) -> S {
    speed_ms.greater(S::fraction(2, 1)).over(S::fraction(1000, 1))
}

/// The exponents of the decays over one sample. `speed_ms` is the fast envelope's
/// release/recovery time in milliseconds.
pub open spec fn exponents_of<S: Number>(sample_rate: S, speed_ms: S) -> Decays<S> {
    let release = release_time(speed_ms);
    Decays {
        release: exponent_of(sample_rate, release),
        // Keep the body envelope on the same timescale as the fast envelope so
        // the `speed` control really reads as the transient window length.
        body: exponent_of(sample_rate, release.greater(S::fraction(3, 1000))),
        gain: exponent_of(sample_rate, S::fraction(3, 1000)),
    }
}

/// The exponents of the decays over one sample. `speed_ms` is the fast envelope's
/// release/recovery time in milliseconds.
pub fn exponents<S: Scalar>(sample_rate: S, speed_ms: S) -> (r: Decays<S>)
    ensures
        r == exponents_of(sample_rate, speed_ms),
{
    let sr = sample_rate.max(S::one());
    let release_time = speed_ms.max(S::ratio(2, 1)).div(S::ratio(1000, 1));
    let body_time = release_time.max(S::ratio(3, 1000));
    Decays {
        release: S::ratio(-1, 1).div(sr.mul(release_time)),
        body: S::ratio(-1, 1).div(sr.mul(body_time)),
        gain: S::ratio(-1, 1).div(sr.mul(S::ratio(3, 1000))),
    }
}

/// `d` are the exponentials of the exponents for `sample_rate` and `speed_ms`.
pub open spec fn are_decays<S: Number, E: Fn(S) -> S>(
    d: Decays<S>,
    sample_rate: S,
    speed_ms: S,
    exp: &E,
) -> bool {
    let exponents = exponents_of(sample_rate, speed_ms);
    &&& call_ensures(exp, (exponents.release,), d.release)
    &&& call_ensures(exp, (exponents.body,), d.body)
    &&& call_ensures(exp, (exponents.gain,), d.gain)
}

/// By how much the smoothers decay in one sample. `exp` is the exponential function.
pub fn decays<S: Scalar, E: Fn(S) -> S>(sample_rate: S, speed_ms: S, exp: &E) -> (r: Decays<S>)
    requires
        forall|x: S| #[trigger] call_requires(exp, (x,)),
    ensures
        are_decays(r, sample_rate, speed_ms, exp),
{
    let exponents = exponents(sample_rate, speed_ms);
    Decays { release: exp(exponents.release), body: exp(exponents.body), gain: exp(exponents.gain) }
}

impl<S: Number> TransientShaper<S> {
    /// The envelopes are at rest and the gain is neutral.
    pub open spec fn at_rest(self) -> bool {
        &&& self.env == S::nought()
        &&& self.body == S::nought()
        &&& self.gain == S::unit()
    }

    /// The fast peak envelope behind the sample `x`: instant attack, exponential release.
    pub open spec fn env_next(self, x: S) -> S {
        let ax = x.size();
        if self.env.below(ax) {
            ax
        } else {
            ax.plus(self.release_coef.times(self.env.minus(ax)))
        }
    }

    /// The body envelope behind the sample `x`: a slow low-pass of the fast envelope.
    pub open spec fn body_next(self, x: S) -> S {
        self.body.plus(self.body_coef.times(self.env_next(x).minus(self.body)))
    }

    /// The fraction of the level behind the sample `x` that is an attack transient.
    pub open spec fn attack_fraction(self, x: S) -> S {
        if S::fraction(1, 1000000).below(self.env_next(x)) {
            clamped(
                self.env_next(x).minus(self.body_next(x)).over(self.env_next(x)),
                S::nought(),
                S::unit(),
            )
        } else {
            S::nought()
        }
    }

    /// The gain that the sample `x` asks for.
    pub open spec fn target(self, x: S, attack_gain: S, sustain_gain: S) -> S {
        let frac = self.attack_fraction(x);
        frac.times(attack_gain).plus(S::unit().minus(frac).times(sustain_gain))
    }

    /// The gain that the sample `x` is given.
    pub open spec fn gain_next(self, x: S, attack_gain: S, sustain_gain: S) -> S {
        self.gain.plus(self.gain_coef.times(self.target(x, attack_gain, sustain_gain).minus(self.gain)))
    }

    /// The shaper behind the sample `x`.
    pub open spec fn next(self, x: S, attack_gain: S, sustain_gain: S) -> Self {
        TransientShaper {
            env: self.env_next(x),
            body: self.body_next(x),
            gain: self.gain_next(x, attack_gain, sustain_gain),
            ..self
        }
    }

    /// What the shaper gives out for the sample `x`.
    pub open spec fn shaped(self, x: S, attack_gain: S, sustain_gain: S) -> S {
        x.times(self.next(x, attack_gain, sustain_gain).gain)
    }

    /// The envelopes and the gain are those of `other`.
    pub open spec fn sounds_as(self, other: Self) -> bool {
        &&& self.env == other.env
        &&& self.body == other.body
        &&& self.gain == other.gain
    }

    /// This shaper with the coefficients for smoothers that decay by `decays` in one sample.
    pub open spec fn smoothing(self, decays: Decays<S>) -> Self {
        TransientShaper {
            release_coef: decays.release,
            body_coef: S::unit().minus(decays.body),
            gain_coef: S::unit().minus(decays.gain),
            ..self
        }
    }
}

impl<S: Scalar> TransientShaper<S> {
    pub fn new() -> (r: Self)
        ensures
            r.at_rest(),
            r.release_coef == S::nought(),
            r.body_coef == S::nought(),
            r.gain_coef == S::nought(),
    {
        TransientShaper {
            env: S::zero(),
            body: S::zero(),
            gain: S::one(),
            release_coef: S::zero(),
            body_coef: S::zero(),
            gain_coef: S::zero(),
        }
    }

    pub fn reset(&mut self)
        ensures
            final(self).at_rest(),
            final(self).release_coef == old(self).release_coef,
            final(self).body_coef == old(self).body_coef,
            final(self).gain_coef == old(self).gain_coef,
    {
        self.env = S::zero();
        self.body = S::zero();
        self.gain = S::one();
    }

    /// Recompute the envelope smoothing coefficients. `speed_ms` is the fast envelope's
    /// release/recovery time in milliseconds, and `exp` the exponential function.
    pub fn update<E: Fn(S) -> S>(&mut self, sample_rate: S, speed_ms: S, exp: &E)
        requires
            forall|x: S| #[trigger] call_requires(exp, (x,)),
        ensures
            exists|d: Decays<S>|
                are_decays(d, sample_rate, speed_ms, exp) && *final(self) == #[trigger] old(
                    self,
                ).smoothing(d),
    {
        let d = decays(sample_rate, speed_ms, exp);
        self.smooth(d);
    }

    /// Takes over the coefficients for smoothers that decay by `decays` in one sample.
    pub fn smooth(&mut self, decays: Decays<S>)
        ensures
            *final(self) == old(self).smoothing(decays),
    {
        self.release_coef = decays.release;
        self.body_coef = S::one().sub(decays.body);
        self.gain_coef = S::one().sub(decays.gain);
    }

    pub fn process(&mut self, x: S, attack_gain: S, sustain_gain: S) -> (y: S)
        ensures
            *final(self) == old(self).next(x, attack_gain, sustain_gain),
            y == x.times(final(self).gain),
            y == old(self).shaped(x, attack_gain, sustain_gain),
    {
        let ax = x.abs();
        // Fast peak envelope: instant attack, exponential release.
        if self.env.lt(ax) {
            self.env = ax;
        } else {
            self.env = ax.add(self.release_coef.mul(self.env.sub(ax)));
        }
        // Body envelope: a slow low-pass of the fast envelope.
        self.body = self.body.add(self.body_coef.mul(self.env.sub(self.body)));
        // Fraction of the current level that is an attack transient, in [0, 1].
        let frac = if S::ratio(1, 1000000).lt(self.env) {
            clamp(self.env.sub(self.body).div(self.env), S::zero(), S::one())
        } else {
            S::zero()
        };
        let target = frac.mul(attack_gain).add(S::one().sub(frac).mul(sustain_gain));
        self.gain = self.gain.add(self.gain_coef.mul(target.sub(self.gain)));
        x.mul(self.gain)
    }
}

impl<S: Scalar> Default for TransientShaper<S> {
    fn default() -> (r: Self)
        ensures
            r.at_rest(),
            r.release_coef == S::nought(),
            r.body_coef == S::nought(),
            r.gain_coef == S::nought(),
    {
        Self::new()
    }
}

/// `x` is a number in the interval from 0 to 1.
pub open spec fn in_unit<S: Number>(x: S) -> bool {
    x.finite() && 0 as real <= x.value() <= 1 as real
}

impl<S: Number> TransientShaper<S> {
    /// The gain and all the coefficients lie between 0 and 1, and no envelope is below 0 or beyond
    /// what numbers can hold.
    pub open spec fn steady(self) -> bool {
        &&& in_unit(self.gain)
        &&& in_unit(self.release_coef)
        &&& in_unit(self.body_coef)
        &&& in_unit(self.gain_coef)
        &&& self.env.finite() && 0 as real <= self.env.value()
        &&& self.body.finite() && 0 as real <= self.body.value()
    }

    /// The sample `x` takes neither envelope beyond what numbers can hold. Where all numbers are
    /// finite this is so of every sample.
    pub open spec fn holds(self, x: S) -> bool {
        x.finite() && self.env_next(x).finite() && self.body_next(x).finite()
    }
}

// ---- what the shaper does to a sample ----

/// A step from one number that is not below zero towards another, by a fraction of the way, does
/// not go below zero.
proof fn lemma_step_is_not_negative<S: Number>(x: S, y: S, k: S)
    requires
        compares::<S>(),
        rounds::<S>(),
        x.finite() && 0 as real <= x.value(),
        y.finite() && 0 as real <= y.value(),
        in_unit(k),
    ensures
        S::nought().upto(x.plus(k.times(y.minus(x)))),
        y.minus(x).finite(),
        k.times(y.minus(x)).finite(),
        x.value() <= y.value() ==> x.upto(x.plus(k.times(y.minus(x)))),
        y.value() <= x.value() ==> x.plus(k.times(y.minus(x))).upto(x),
{
    let (d, v) = (y.minus(x), y.value() - x.value());
    assert(x.opposite().finite());
    law_rounding_stays_between(d, v, x.opposite(), y);
    if 0 as real <= v {
        law_rounding_stays_between(d, v, S::nought(), y);
    } else {
        law_rounding_stays_between(d, v, x.opposite(), S::nought());
    }
    law_fractions_cut(d, k);
    let p = k.times(d);
    assert(rounded(x.plus(p), x.value() + p.value()));
    assert(S::nought().finite() && x.finite());
}

/// The fast envelope rises to every peak at once, and neither envelope goes below zero.
pub proof fn law_envelopes_cover_the_level<S: Number>(shaper: TransientShaper<S>, x: S)
    requires
        compares::<S>(),
        rounds::<S>(),
        shaper.steady(),
        shaper.holds(x),
    ensures
        x.size().finite(),
        x.size().value() <= shaper.env_next(x).value(),
        0 as real <= shaper.env_next(x).value(),
        0 as real <= shaper.body_next(x).value(),
{
    let ax = x.size();
    assert(ax.finite());
    assert(shaper.env.below(ax) <==> shaper.env.upto(ax) && !ax.upto(shaper.env));
    assert(ax.upto(shaper.env) <==> ax.value() <= shaper.env.value());
    assert(shaper.env.upto(ax) <==> shaper.env.value() <= ax.value());
    if !shaper.env.below(ax) {
        lemma_step_is_not_negative(ax, shaper.env, shaper.release_coef);
        assert(ax.upto(shaper.env_next(x)));
    }
    lemma_step_is_not_negative(shaper.body, shaper.env_next(x), shaper.body_coef);
    assert(S::nought().upto(shaper.body_next(x)));
}

/// A sample takes no envelope beyond what numbers can hold as long as the sample and the envelopes
/// are no more than a third of it: no more than a `top` that can be added to itself twice.
pub proof fn law_quiet_samples_are_held<S: Number>(shaper: TransientShaper<S>, x: S, top: S)
    requires
        compares::<S>(),
        rounds::<S>(),
        shaper.steady(),
        x.finite(),
        top.finite(),
        top.plus(top).finite(),
        top.plus(top).plus(top).finite(),
        x.size().value() <= top.value(),
        shaper.env.value() <= top.value(),
        shaper.body.value() <= top.value(),
    ensures
        shaper.holds(x),
{
    let (zero, ax, e, b) = (S::nought(), x.size(), shaper.env_next(x), shaper.body);
    let twice = top.plus(top);
    assert(ax.finite());
    assert(rounded(twice, top.value() + top.value()));
    assert(top.upto(twice));
    assert(zero.upto(ax) && ax.upto(top) && zero.upto(twice));
    if !shaper.env.below(ax) {
        let d = shaper.env.minus(ax);
        lemma_step_is_not_negative(ax, shaper.env, shaper.release_coef);
        assert(ax.upto(shaper.env));
        law_rounding_stays_between(d, shaper.env.value() - ax.value(), zero, shaper.env);
        law_fractions_cut(d, shaper.release_coef);
        assert(e.upto(twice));
        assert(zero.upto(e));
    } else {
        assert(e.upto(twice));
    }
    assert(e.finite());
    let d = e.minus(b);
    lemma_step_is_not_negative(b, e, shaper.body_coef);
    assert(rounded(d, e.value() - b.value()));
    assert(d.upto(e));
    law_fractions_cut(d, shaper.body_coef);
    let q = shaper.body_coef.times(d);
    assert(q.value() <= twice.value());
    assert(b.plus(q).upto(twice.plus(top)));
}

/// The fraction of the level that is an attack transient lies between 0 and 1.
pub proof fn law_attack_fraction_is_a_fraction<S: Number>(shaper: TransientShaper<S>, x: S)
    requires
        compares::<S>(),
        rounds::<S>(),
        shaper.steady(),
        shaper.holds(x),
    ensures
        in_unit(shaper.attack_fraction(x)),
{
    law_envelopes_cover_the_level(shaper, x);
    let (e, b, small) = (shaper.env_next(x), shaper.body_next(x), S::fraction(1, 1000000));
    assert(small.finite() && small.value() > 0 as real);
    if small.below(e) {
        assert(small.upto(e));
        assert(b.opposite().finite());
        law_rounding_stays_between(e.minus(b), e.value() - b.value(), b.opposite(), e);
        let d = e.minus(b);
        assert(d.upto(d));
        assert(d.over(e).upto(d.over(e)));
        law_clamped_numbers_lie_between(d.over(e), S::nought(), S::unit());
    }
}

/// A crossfade of two fractions is one.
proof fn lemma_crossfade_is_a_fraction<S: Number>(f: S, a: S, s: S)
    requires
        compares::<S>(),
        rounds::<S>(),
        unital::<S>(),
        in_unit(f),
        in_unit(a),
        in_unit(s),
    ensures
        in_unit(f.times(a).plus(S::unit().minus(f).times(s))),
{
    let rest = S::unit().minus(f);
    law_rounding_stays_between(rest, 1 as real - f.value(), S::nought(), S::unit());
    law_fractions_cut(f, a);
    law_fractions_cut(rest, s);
    let (p, q) = (f.times(a), rest.times(s));
    assert(p.plus(q).upto(f.plus(rest)));
    assert(rounded(p.plus(q), p.value() + q.value()));
    assert(S::nought().finite());
    assert(S::nought().upto(p.plus(q)) && p.plus(q).upto(S::unit()));
    assert(p.plus(q).finite());
}

/// A step from a fraction towards another, by a fraction of the way, leads to one.
proof fn lemma_step_is_a_fraction<S: Number>(g: S, t: S, k: S)
    requires
        compares::<S>(),
        rounds::<S>(),
        unital::<S>(),
        in_unit(g),
        in_unit(t),
        in_unit(k),
    ensures
        in_unit(g.plus(k.times(t.minus(g)))),
{
    lemma_step_is_not_negative(g, t, k);
    let (d, rest) = (t.minus(g), S::unit().minus(g));
    let r = g.plus(k.times(d));
    if g.value() <= t.value() {
        law_rounding_stays_between(rest, 1 as real - g.value(), S::nought(), S::unit());
        assert(d.upto(rest));
        assert(rounded(d, t.value() - g.value()));
        assert(S::nought().finite() && S::nought().upto(d));
        law_fractions_cut(d, k);
        assert(r.upto(g.plus(rest)));
    } else {
        assert(r.upto(g) && g.upto(S::unit()));
    }
    assert(S::nought().upto(r) && r.upto(S::unit()));
    assert(r.finite());
}

/// Where neither the attack nor the sustain is boosted, the shaper only ever cuts: what comes out
/// lies between zero and the sample, so that it is neither louder nor inverted, and the gain stays
/// between 0 and 1. This holds however results are rounded.
pub proof fn law_shaper_only_cuts<S: Number>(
    shaper: TransientShaper<S>,
    x: S,
    attack_gain: S,
    sustain_gain: S,
)
    requires
        compares::<S>(),
        rounds::<S>(),
        unital::<S>(),
        shaper.steady(),
        shaper.holds(x),
        in_unit(attack_gain),
        in_unit(sustain_gain),
    ensures
        ({
            let after = shaper.next(x, attack_gain, sustain_gain);
            let y = x.times(after.gain);
            &&& after.steady()
            &&& x.size().value() <= after.env.value()
            &&& y.finite()
            &&& 0 as real <= x.value() ==> 0 as real <= y.value() <= x.value()
            &&& x.value() <= 0 as real ==> x.value() <= y.value() <= 0 as real
            &&& y.value() * x.value() >= 0 as real
        }),
{
    law_envelopes_cover_the_level(shaper, x);
    law_attack_fraction_is_a_fraction(shaper, x);
    lemma_crossfade_is_a_fraction(shaper.attack_fraction(x), attack_gain, sustain_gain);
    lemma_step_is_a_fraction(
        shaper.gain,
        shaper.target(x, attack_gain, sustain_gain),
        shaper.gain_coef,
    );
    let g = shaper.next(x, attack_gain, sustain_gain).gain;
    law_fractions_cut(x, g);
    let (v, w) = (x.value(), x.times(g).value());
    assert(w * v >= 0 as real) by (nonlinear_arith)
        requires
            (v >= 0 as real && w >= 0 as real) || (v <= 0 as real && w <= 0 as real),
    ;
}

/// With both gains one, a steady shaper whose gain is one passes every sample through as it is, and
/// its gain stays one, even where the arithmetic rounds. A reset and an update leave it so, too.
pub proof fn law_neutral_shaper_changes_nothing<S: Number>(
    shaper: TransientShaper<S>,
    x: S,
    d: Decays<S>,
)
    requires
        compares::<S>(),
        rounds::<S>(),
        unital::<S>(),
        shaper.steady(),
        shaper.holds(x),
        shaper.gain == S::unit(),
    ensures
        shaper.next(x, S::unit(), S::unit()).gain == S::unit(),
        x.times(shaper.next(x, S::unit(), S::unit()).gain) == x,
        shaper.next(x, S::unit(), S::unit()).steady(),
        shaper.smoothing(d).gain == S::unit(),
        forall|other: TransientShaper<S>| other.at_rest() ==> (#[trigger] other.gain) == S::unit(),
{
    law_shaper_only_cuts(shaper, x, S::unit(), S::unit());
    law_attack_fraction_is_a_fraction(shaper, x);
    let f = shaper.attack_fraction(x);
    law_rounding_stays_between(S::unit().minus(f), 1 as real - f.value(), S::nought(), S::unit());
    assert(f.times(S::unit()) == f);
    assert(S::unit().minus(f).times(S::unit()) == S::unit().minus(f));
    assert(f.plus(S::unit().minus(f)) == S::unit());
    assert(shaper.target(x, S::unit(), S::unit()) == S::unit());
    let k = shaper.gain_coef;
    assert(S::unit().plus(k.times(S::nought())) == S::unit());
}

proof fn lemma_crossfade(f: real, a: real, s: real)
    ensures
        f * a + (1 as real - f) * s == s + f * (a - s),
{
    assert((1 as real - f) * s == s - f * s) by (nonlinear_arith);
    assert(f * (a - s) == f * a - f * s) by (nonlinear_arith);
}

/// With both gains neutral, a shaper that starts neutral passes the signal through.
pub proof fn law_neutral_shaper_passes_through<S: Number>(
    shaper: TransientShaper<S>,
    x: S,
    attack_gain: S,
    sustain_gain: S,
)
    requires
        exact::<S>(),
        shaper.gain.value() == 1 as real,
        attack_gain.value() == 1 as real,
        sustain_gain.value() == 1 as real,
    ensures
        shaper.next(x, attack_gain, sustain_gain).gain.value() == 1 as real,
        x.times(shaper.next(x, attack_gain, sustain_gain).gain).value() == x.value(),
{
    let f = shaper.attack_fraction(x).value();
    lemma_crossfade(f, 1 as real, 1 as real);
    assert(f * (1 as real - 1 as real) == 0 as real) by (nonlinear_arith);
    let k = shaper.gain_coef.value();
    assert(k * (1 as real - 1 as real) == 0 as real) by (nonlinear_arith);
    assert(shaper.target(x, attack_gain, sustain_gain).value() == 1 as real);
    let v = x.value();
    assert(v * (1 as real) == v) by (nonlinear_arith);
}

/// A step from `x` towards `y` does not leave the interval between them.
proof fn lemma_step_stays_between(x: real, y: real, k: real, lo: real, hi: real)
    requires
        0 as real <= k <= 1 as real,
        lo <= x <= hi,
        lo <= y <= hi,
    ensures
        lo <= x + k * (y - x) <= hi,
{
    assert(k * (y - x) <= hi - x) by (nonlinear_arith)
        requires
            0 as real <= k <= 1 as real,
            y - x <= hi - x,
            0 as real <= hi - x,
    ;
    assert(k * (y - x) >= lo - x) by (nonlinear_arith)
        requires
            0 as real <= k <= 1 as real,
            y - x >= lo - x,
            0 as real >= lo - x,
    ;
}

/// The fast envelope rises to every peak at once, and otherwise falls towards the signal; the
/// body envelope follows it without ever leaving the interval that the two have spanned, if the
/// arithmetic does not round.
pub proof fn law_envelopes_follow_the_level<S: Number>(shaper: TransientShaper<S>, x: S)
    requires
        exact::<S>(),
        ordered::<S>(),
        0 as real <= shaper.release_coef.value() <= 1 as real,
        0 as real <= shaper.body_coef.value() <= 1 as real,
        0 as real <= shaper.body.value(),
        0 as real <= shaper.env.value(),
    ensures
        x.size().value() <= shaper.env_next(x).value(),
        shaper.env_next(x).value() <= x.size().value() || shaper.env_next(x).value()
            <= shaper.env.value(),
        0 as real <= shaper.body_next(x).value(),
        shaper.body_next(x).value() <= shaper.body.value() || shaper.body_next(x).value()
            <= shaper.env_next(x).value(),
{
    let (e, ax, r) = (shaper.env.value(), x.size().value(), shaper.release_coef.value());
    if ax <= e {
        lemma_step_stays_between(ax, e, r, ax, e);
    }
    let (b, e2, k) = (shaper.body.value(), shaper.env_next(x).value(), shaper.body_coef.value());
    if b <= e2 {
        lemma_step_stays_between(b, e2, k, b, e2);
    } else {
        lemma_step_stays_between(b, e2, k, e2, b);
    }
}

/// The shaper hears how far a sample is from zero and nothing else of it, and a sample changes none
/// of the coefficients.
pub proof fn law_the_shaper_hears_sizes<S: Number>(
    shaper: TransientShaper<S>,
    x: S,
    y: S,
    attack_gain: S,
    sustain_gain: S,
)
    ensures
        x.size() == y.size() ==> shaper.next(x, attack_gain, sustain_gain) == shaper.next(
            y,
            attack_gain,
            sustain_gain,
        ),
        shaper.next(x, attack_gain, sustain_gain).release_coef == shaper.release_coef,
        shaper.next(x, attack_gain, sustain_gain).body_coef == shaper.body_coef,
        shaper.next(x, attack_gain, sustain_gain).gain_coef == shaper.gain_coef,
{
}

/// The shaper does the same to a sample and to its mirror image: what it gives out are mirror
/// images, and it keeps the same.
pub proof fn law_shaper_is_odd<S: Number>(
    shaper: TransientShaper<S>,
    x: S,
    attack_gain: S,
    sustain_gain: S,
)
    requires
        mirrored(x, shaper.next(x, attack_gain, sustain_gain).gain),
    ensures
        shaper.next(x.opposite(), attack_gain, sustain_gain) == shaper.next(
            x,
            attack_gain,
            sustain_gain,
        ),
        x.opposite().times(shaper.next(x.opposite(), attack_gain, sustain_gain).gain) == x.times(
            shaper.next(x, attack_gain, sustain_gain).gain,
        ).opposite(),
{
}

// ---- coefficients ----

/// The exponential `exp` of a number that is not above zero lies between 0 and 1.
pub open spec fn decays_down<S: Number, E: Fn(S) -> S>(exp: &E) -> bool {
    forall|x: S, y: S| #[trigger]
        call_ensures(exp, (x,), y) && x.upto(S::nought()) ==> in_unit(y)
}

/// `exp` does not decrease.
pub open spec fn rises<S: Number, E: Fn(S) -> S>(exp: &E) -> bool {
    forall|x: S, y: S, p: S, q: S| #[trigger]
        call_ensures(exp, (x,), p) && #[trigger] call_ensures(exp, (y,), q) && x.upto(y) ==> p.upto(q)
}

/// The greater of any number, or of what is none, and a positive one is no smaller than that.
proof fn lemma_at_least<S: Number>(x: S, least: S)
    requires
        compares::<S>(),
        rounds::<S>(),
        least.finite(),
        least.value() > 0 as real,
    ensures
        least.upto(x.greater(least)),
        S::nought().below(x.greater(least)),
        x.upto(least) ==> x.greater(least) == least,
        least.upto(x) ==> x.greater(least) == x,
{
    let (zero, g) = (S::nought(), x.greater(least));
    assert(zero.upto(least) && !least.upto(zero) && least.upto(least));
    assert(!least.same(zero));
    if !x.upto(x) {
        assert(!x.upto(least) && !least.upto(x));
    } else if x.upto(least) {
        assert(level_with(g, least));
        assert(g.same(least) && g.same(zero) ==> least.upto(g) && g.upto(zero));
        assert(g == least);
    } else {
        assert(least.upto(x));
        assert(level_with(g, x));
        assert(x.upto(zero) ==> least.upto(zero));
        assert(g.same(x) && g.same(zero) ==> x.upto(g) && g.upto(zero));
        assert(g == x);
    }
    if x.upto(least) && least.upto(x) {
        assert(x.same(least));
        assert(x.same(zero) ==> x.upto(zero));
        assert(least.upto(x) && x.upto(zero) ==> least.upto(zero));
        assert(x == least);
    }
    assert(least.upto(g));
    assert(zero.upto(g));
    assert(g.upto(zero) ==> least.upto(zero));
}

/// Every smoother decays, at any sample rate and for any recovery time.
proof fn lemma_times_are_positive<S: Number>(sample_rate: S, speed_ms: S)
    requires
        compares::<S>(),
        rounds::<S>(),
    ensures
        S::unit().upto(sample_rate.greater(S::unit())),
        S::nought().below(sample_rate.greater(S::unit())),
        S::nought().below(release_time(speed_ms)),
        S::nought().below(release_time(speed_ms).greater(S::fraction(3, 1000))),
{
    let (two, thousand, three) = (S::fraction(2, 1), S::fraction(1000, 1), S::fraction(3, 1000));
    assert(two.finite() && two.value() > 0 as real);
    assert(thousand.finite() && thousand.value() > 0 as real);
    assert(three.finite() && three.value() > 0 as real);
    lemma_at_least(sample_rate, S::unit());
    lemma_at_least(speed_ms, two);
    let (t, least) = (release_time(speed_ms), two.over(thousand));
    assert(S::fraction(2, 1000) == least);
    assert(least.upto(t));
    lemma_above(least, t);
    lemma_at_least(t, three);
}

proof fn lemma_above<S: Number>(least: S, t: S)
    requires
        compares::<S>(),
        rounds::<S>(),
        least.finite(),
        least.value() > 0 as real,
        least.upto(t),
    ensures
        S::nought().below(t),
{
    let zero = S::nought();
    assert(zero.upto(least) && !least.upto(zero));
    assert(zero.upto(t));
    assert(t.upto(zero) ==> least.upto(zero));
}

/// A smoother with a positive time constant decays.
proof fn lemma_exponent<S: Number>(sample_rate: S, time: S)
    requires
        compares::<S>(),
        rounds::<S>(),
        S::unit().upto(sample_rate.greater(S::unit())),
        S::nought().below(time),
    ensures
        S::nought().below(sample_rate.greater(S::unit()).times(time)),
        exponent_of(sample_rate, time).upto(S::nought()),
{
    let (zero, p) = (S::nought(), sample_rate.greater(S::unit()).times(time));
    assert(time.upto(p));
    assert(zero.upto(time));
    assert(zero.upto(p));
    assert(p.upto(zero) ==> time.upto(zero));
    let minus_one = S::fraction(-1, 1);
    assert(minus_one.finite() && minus_one.value() == -(1 as real));
}

/// All the smoothers decay, at any sample rate and for any recovery time, even if these are
/// infinite or no numbers at all.
pub proof fn law_smoothers_decay<S: Number>(sample_rate: S, speed_ms: S)
    requires
        compares::<S>(),
        rounds::<S>(),
    ensures
        exponents_of(sample_rate, speed_ms).release.upto(S::nought()),
        exponents_of(sample_rate, speed_ms).body.upto(S::nought()),
        exponents_of(sample_rate, speed_ms).gain.upto(S::nought()),
{
    lemma_times_are_positive(sample_rate, speed_ms);
    let three = S::fraction(3, 1000);
    assert(three.finite() && three.value() > 0 as real);
    assert(three.upto(three));
    lemma_above(three, three);
    lemma_exponent(sample_rate, release_time(speed_ms));
    lemma_exponent(sample_rate, release_time(speed_ms).greater(three));
    lemma_exponent(sample_rate, three);
}

/// The coefficients that an update gives lie between 0 and 1, at any sample rate and for any
/// recovery time, even if these are infinite or no numbers at all. They do not depend on what was
/// there before, and the envelopes and the gain stay as they are.
pub proof fn law_updated_coefficients_are_fractions<S: Number, E: Fn(S) -> S>(
    shaper: TransientShaper<S>,
    other: TransientShaper<S>,
    sample_rate: S,
    speed_ms: S,
    exp: &E,
    d: Decays<S>,
)
    requires
        compares::<S>(),
        rounds::<S>(),
        decays_down(exp),
        are_decays(d, sample_rate, speed_ms, exp),
    ensures
        in_unit(shaper.smoothing(d).release_coef),
        in_unit(shaper.smoothing(d).body_coef),
        in_unit(shaper.smoothing(d).gain_coef),
        shaper.smoothing(d).sounds_as(shaper),
        other.smoothing(d).release_coef == shaper.smoothing(d).release_coef,
        other.smoothing(d).body_coef == shaper.smoothing(d).body_coef,
        other.smoothing(d).gain_coef == shaper.smoothing(d).gain_coef,
{
    law_smoothers_decay(sample_rate, speed_ms);
    let e = exponents_of(sample_rate, speed_ms);
    assert(call_ensures(exp, (e.release,), d.release));
    assert(call_ensures(exp, (e.body,), d.body));
    assert(call_ensures(exp, (e.gain,), d.gain));
    let one = S::unit();
    law_rounding_stays_between(one.minus(d.body), 1 as real - d.body.value(), S::nought(), one);
    law_rounding_stays_between(one.minus(d.gain), 1 as real - d.gain.value(), S::nought(), one);
}

impl<S: Number> TransientShaper<S> {
    /// `after` is this shaper after a reset, an update, or a sample with gains that boost nothing.
    pub open spec fn may_become<E: Fn(S) -> S>(self, after: Self, exp: &E) -> bool {
        ||| {
            &&& after.at_rest()
            &&& after.release_coef == self.release_coef
            &&& after.body_coef == self.body_coef
            &&& after.gain_coef == self.gain_coef
        }
        ||| exists|sample_rate: S, speed_ms: S, d: Decays<S>| #[trigger]
            are_decays(d, sample_rate, speed_ms, exp) && after == self.smoothing(d)
        ||| exists|x: S, attack_gain: S, sustain_gain: S|
            self.holds(x) && in_unit(attack_gain) && in_unit(sustain_gain)
                && after == #[trigger] self.next(x, attack_gain, sustain_gain)
    }
}

/// A shaper only ever cuts, however results are rounded: a new one is steady, nothing that is done
/// to it changes that, and what a steady one gives out lies between zero and the sample.
pub proof fn law_shapers_only_ever_cut<S: Number, E: Fn(S) -> S>(
    shaper: TransientShaper<S>,
    after: TransientShaper<S>,
    exp: &E,
    x: S,
    attack_gain: S,
    sustain_gain: S,
)
    requires
        compares::<S>(),
        rounds::<S>(),
        unital::<S>(),
        decays_down(exp),
        shaper.holds(x),
        in_unit(attack_gain),
        in_unit(sustain_gain),
    ensures
        shaper.at_rest() && shaper.release_coef == S::nought() && shaper.body_coef == S::nought()
            && shaper.gain_coef == S::nought() ==> shaper.steady(),
        shaper.steady() && shaper.may_become(after, exp) ==> after.steady(),
        shaper.steady() ==> {
            let y = x.times(shaper.next(x, attack_gain, sustain_gain).gain);
            &&& y.finite()
            &&& 0 as real <= x.value() ==> 0 as real <= y.value() <= x.value()
            &&& x.value() <= 0 as real ==> x.value() <= y.value() <= 0 as real
            &&& y.value() * x.value() >= 0 as real
        },
{
    if shaper.steady() {
        law_shaper_only_cuts(shaper, x, attack_gain, sustain_gain);
        let is_reset = after.at_rest() && after.release_coef == shaper.release_coef
            && after.body_coef == shaper.body_coef && after.gain_coef == shaper.gain_coef;
        if shaper.may_become(after, exp) && !is_reset {
            if exists|sample_rate: S, speed_ms: S, d: Decays<S>| #[trigger]
                are_decays(d, sample_rate, speed_ms, exp) && after == shaper.smoothing(d) {
                let (sample_rate, speed_ms, d) = choose|sample_rate: S, speed_ms: S, d: Decays<S>| #[trigger]
                    are_decays(d, sample_rate, speed_ms, exp) && after == shaper.smoothing(d);
                law_updated_coefficients_are_fractions(
                    shaper,
                    shaper,
                    sample_rate,
                    speed_ms,
                    exp,
                    d,
                );
            } else {
                let (y, a, s) = choose|y: S, a: S, s: S|
                    shaper.holds(y) && in_unit(a) && in_unit(s) && after == #[trigger] shaper.next(
                        y,
                        a,
                        s,
                    );
                law_shaper_only_cuts(shaper, y, a, s);
            }
        }
    }
}

// ---- recovery time ----

/// From 3 ms on, the body envelope takes up just what the fast one gives up.
pub proof fn law_the_envelopes_share_their_time<S: Number, E: Fn(S) -> S>(
    shaper: TransientShaper<S>,
    sample_rate: S,
    speed_ms: S,
    exp: &E,
    d: Decays<S>,
)
    requires
        compares::<S>(),
        rounds::<S>(),
        is_function(exp),
        S::fraction(3, 1).upto(speed_ms),
        are_decays(d, sample_rate, speed_ms, exp),
    ensures
        shaper.smoothing(d).body_coef == S::unit().minus(shaper.smoothing(d).release_coef),
{
    let (two, thousand) = (S::fraction(2, 1), S::fraction(1000, 1));
    let (three, least) = (S::fraction(3, 1), S::fraction(3, 1000));
    assert(two.finite() && two.value() == 2 as real);
    assert(three.finite() && three.value() == 3 as real);
    assert(thousand.finite() && thousand.value() > 0 as real);
    assert(two.upto(three));
    assert(two.upto(speed_ms));
    lemma_at_least(speed_ms, two);
    let t = release_time(speed_ms);
    assert(t == speed_ms.over(thousand));
    assert(least.finite() && least.value() > 0 as real && least == three.over(thousand));
    assert(least.upto(t));
    lemma_at_least(t, least);
    let e = exponents_of(sample_rate, speed_ms);
    assert(e.body == e.release);
    assert(call_ensures(exp, (e.release,), d.release));
    assert(call_ensures(exp, (e.release,), d.body));
}

/// All recovery times below 2 ms are as good as 2 ms, and so is what is no number.
pub proof fn law_the_shortest_time_is_two_ms<S: Number>(sample_rate: S, speed_ms: S)
    requires
        compares::<S>(),
        rounds::<S>(),
        speed_ms.upto(S::fraction(2, 1)) || !speed_ms.same(speed_ms),
    ensures
        exponents_of(sample_rate, speed_ms) == exponents_of(sample_rate, S::fraction(2, 1)),
{
    let two = S::fraction(2, 1);
    assert(two.finite() && two.value() > 0 as real);
    lemma_at_least(speed_ms, two);
    assert(two.upto(two));
    lemma_at_least(two, two);
    assert(speed_ms.greater(two) == two);
}

/// Longer time constants make for exponents that are no smaller.
proof fn lemma_exponents_grow<S: Number>(sample_rate: S, t: S, u: S)
    requires
        compares::<S>(),
        rounds::<S>(),
        S::unit().upto(sample_rate.greater(S::unit())),
        S::nought().below(sample_rate.greater(S::unit())),
        S::nought().below(t),
        t.upto(u),
    ensures
        exponent_of(sample_rate, t).upto(exponent_of(sample_rate, u)),
{
    lemma_exponent(sample_rate, t);
    let sr = sample_rate.greater(S::unit());
    assert(sr.times(t).upto(sr.times(u)));
    let minus_one = S::fraction(-1, 1);
    assert(minus_one.finite() && minus_one.value() == -(1 as real));
}

/// The greater of a larger number and a positive one is no smaller.
proof fn lemma_greater_grows<S: Number>(x: S, y: S, least: S)
    requires
        compares::<S>(),
        rounds::<S>(),
        least.finite(),
        least.value() > 0 as real,
        x.upto(y),
    ensures
        x.greater(least).upto(y.greater(least)),
{
    lemma_at_least(x, least);
    lemma_at_least(y, least);
    assert(x.upto(x) && y.upto(y) && least.upto(least));
    if !x.upto(least) {
        assert(least.upto(x));
        assert(least.upto(y));
    }
}

/// Lower is snappier: the shorter the recovery time, the more both envelopes decay in one sample.
/// The gain is smoothed at the same rate whatever the recovery time.
pub proof fn law_lower_speed_is_snappier<S: Number>(sample_rate: S, fast_ms: S, slow_ms: S)
    requires
        compares::<S>(),
        rounds::<S>(),
        fast_ms.upto(slow_ms),
    ensures
        ({
            let (fast, slow) = (
                exponents_of(sample_rate, fast_ms),
                exponents_of(sample_rate, slow_ms),
            );
            &&& fast.release.upto(slow.release)
            &&& fast.body.upto(slow.body)
            &&& fast.gain == slow.gain
        }),
{
    let (two, thousand, three) = (S::fraction(2, 1), S::fraction(1000, 1), S::fraction(3, 1000));
    assert(two.finite() && two.value() > 0 as real);
    assert(thousand.finite() && thousand.value() > 0 as real);
    assert(three.finite() && three.value() > 0 as real);
    lemma_greater_grows(fast_ms, slow_ms, two);
    let (t, u) = (release_time(fast_ms), release_time(slow_ms));
    assert(t.upto(u));
    lemma_greater_grows(t, u, three);
    lemma_times_are_positive(sample_rate, fast_ms);
    lemma_exponents_grow(sample_rate, t, u);
    lemma_exponents_grow(sample_rate, t.greater(three), u.greater(three));
}

/// The shorter the recovery time, the less of the fast envelope a sample leaves, and the more of
/// it the body takes up, however results are rounded. The gain is smoothed the same.
pub proof fn law_lower_speed_gives_snappier_coefficients<S: Number, E: Fn(S) -> S>(
    shaper: TransientShaper<S>,
    sample_rate: S,
    fast_ms: S,
    slow_ms: S,
    exp: &E,
    fast: Decays<S>,
    slow: Decays<S>,
)
    requires
        compares::<S>(),
        rounds::<S>(),
        is_function(exp),
        rises(exp),
        decays_down(exp),
        fast_ms.upto(slow_ms),
        are_decays(fast, sample_rate, fast_ms, exp),
        are_decays(slow, sample_rate, slow_ms, exp),
    ensures
        shaper.smoothing(fast).release_coef.value() <= shaper.smoothing(slow).release_coef.value(),
        shaper.smoothing(fast).body_coef.value() >= shaper.smoothing(slow).body_coef.value(),
        shaper.smoothing(fast).gain_coef == shaper.smoothing(slow).gain_coef,
{
    law_lower_speed_is_snappier(sample_rate, fast_ms, slow_ms);
    law_updated_coefficients_are_fractions(shaper, shaper, sample_rate, fast_ms, exp, fast);
    law_updated_coefficients_are_fractions(shaper, shaper, sample_rate, slow_ms, exp, slow);
    law_smoothers_decay(sample_rate, fast_ms);
    law_smoothers_decay(sample_rate, slow_ms);
    let (p, q) = (exponents_of(sample_rate, fast_ms), exponents_of(sample_rate, slow_ms));
    assert(call_ensures(exp, (p.release,), fast.release));
    assert(call_ensures(exp, (q.release,), slow.release));
    assert(call_ensures(exp, (p.body,), fast.body));
    assert(call_ensures(exp, (q.body,), slow.body));
    assert(call_ensures(exp, (p.gain,), fast.gain));
    assert(call_ensures(exp, (p.gain,), slow.gain));
    assert(fast.release.upto(slow.release));
    assert(fast.body.upto(slow.body));
    assert(S::unit().minus(slow.body).upto(S::unit().minus(fast.body)));
}

} // verus!
