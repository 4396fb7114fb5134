//! How the transient shaper follows the level, and what its gain comes to, over the real numbers.
use vstd::prelude::*;

use crate::algebra::lemma_undivide;
use crate::scalar::{exact, ordered, Number};
use crate::shaper::{exponent_of, exponents_of, release_time, Decays, TransientShaper};

verus! {

// ---- time constants ----

proof fn lemma_exponent_times_time<S: Number>(sample_rate: S, time: S)
    requires
        exact::<S>(),
        ordered::<S>(),
        sample_rate.value() >= 1 as real,
        time.value() > 0 as real,
    ensures
        exponent_of(sample_rate, time).value() * (sample_rate.value() * time.value())
            == -(1 as real),
{
    let (r, t) = (sample_rate.value(), time.value());
    assert(S::fraction(-1, 1).value() == -(1 as real));
    assert(sample_rate.greater(S::unit()).value() == r);
    assert(r * t != 0 as real) by (nonlinear_arith)
        requires
            r >= 1 as real,
            t > 0 as real,
    ;
    lemma_undivide(-(1 as real), r * t);
}

/// The speed is the time in milliseconds in which the fast envelope recovers, at every sample rate:
/// the exponents of all its samples over that time come to -1. The body envelope takes as long, but
/// 3 ms at least, and the gain is smoothed over 3 ms. This holds if the arithmetic does not round.
pub proof fn law_smoothers_take_their_time<S: Number>(sample_rate: S, speed_ms: S)
    requires
        exact::<S>(),
        ordered::<S>(),
        sample_rate.value() >= 1 as real,
        speed_ms.value() >= 2 as real,
    ensures
        ({
            let (r, t) = (sample_rate.value(), speed_ms.value());
            let e = exponents_of(sample_rate, speed_ms);
            &&& e.release.value() * (r * t) == -(1000 as real)
            &&& t >= 3 as real ==> e.body.value() * (r * t) == -(1000 as real)
            &&& t <= 3 as real ==> e.body.value() * (r * 3 as real) == -(1000 as real)
            &&& e.gain.value() * (r * 3 as real) == -(1000 as real)
        }),
{
    let (r, t) = (sample_rate.value(), speed_ms.value());
    let (thousand, three) = (S::fraction(1000, 1), S::fraction(3, 1000));
    assert(S::fraction(2, 1).value() == 2 as real && thousand.value() == 1000 as real);
    assert(three.value() == 3 as real / 1000 as real);
    let release = release_time(speed_ms);
    assert(release.value() == t / 1000 as real);
    let body = release.greater(three);
    assert(body.value() == if t >= 3 as real {
        t / 1000 as real
    } else {
        3 as real / 1000 as real
    });
    lemma_exponent_times_time(sample_rate, release);
    lemma_exponent_times_time(sample_rate, body);
    lemma_exponent_times_time(sample_rate, three);
    let e = exponents_of(sample_rate, speed_ms);
    lemma_in_milliseconds(e.release.value(), r, release.value());
    lemma_in_milliseconds(e.body.value(), r, body.value());
    lemma_in_milliseconds(e.gain.value(), r, three.value());
    assert(1000 as real * release.value() == t);
    assert(1000 as real * three.value() == 3 as real);
    assert(t >= 3 as real ==> 1000 as real * body.value() == t);
    assert(t <= 3 as real ==> 1000 as real * body.value() == 3 as real);
}

proof fn lemma_in_milliseconds(e: real, r: real, t: real)
    requires
        e * (r * t) == -(1 as real),
    ensures
        e * (r * (1000 as real * t)) == -(1000 as real),
{
    let rt = r * t;
    assert(r * (1000 as real * t) == 1000 as real * rt) by (nonlinear_arith)
        requires
            rt == r * t,
    ;
    assert(e * (1000 as real * rt) == 1000 as real * (e * rt)) by (nonlinear_arith);
}

// ---- one sample ----

/// How far a number is from zero.
pub open spec fn magnitude(x: real) -> real {
    if x < 0 as real {
        -x
    } else {
        x
    }
}

proof fn lemma_rest_of_step(a: real, b: real, d: real)
    ensures
        a + d * (b - a) - b == (1 as real - d) * (a - b),
        b - (a + (1 as real - d) * (b - a)) == d * (b - a),
{
    let k = b - a;
    assert((1 as real - d) * k == k - d * k) by (nonlinear_arith);
    assert((1 as real - d) * (a - b) == (a - b) + d * k) by (nonlinear_arith)
        requires
            k == b - a,
    ;
}

/// The fast envelope jumps to a level above it, and of what it stands above the level a sample
/// leaves the share that it decays by; of what the body lacks of the fast envelope a sample leaves
/// the share that the body decays by; and so it is with the gain and the one that is asked for. This
/// holds if the arithmetic does not round.
pub proof fn law_smoothers_close_in<S: Number>(
    before: TransientShaper<S>,
    d: Decays<S>,
    x: S,
    attack_gain: S,
    sustain_gain: S,
)
    requires
        exact::<S>(),
        ordered::<S>(),
    ensures
        ({
            let shaper = before.smoothing(d);
            let after = shaper.next(x, attack_gain, sustain_gain);
            let level = magnitude(x.value());
            let target = shaper.target(x, attack_gain, sustain_gain).value();
            &&& before.env.value() <= level ==> after.env.value() == level
            &&& before.env.value() >= level ==> after.env.value() - level == d.release.value() * (
            before.env.value() - level)
            &&& after.env.value() - after.body.value() == d.body.value() * (after.env.value()
                - before.body.value())
            &&& target - after.gain.value() == d.gain.value() * (target - before.gain.value())
        }),
{
    let shaper = before.smoothing(d);
    let after = shaper.next(x, attack_gain, sustain_gain);
    let (level, e) = (x.size().value(), before.env.value());
    let r = d.release.value();
    if e == level {
        let zero = e - level;
        assert(r * zero == 0 as real) by (nonlinear_arith)
            requires
                zero == 0 as real,
        ;
    }
    let (env, b, t, g) = (
        after.env.value(),
        before.body.value(),
        shaper.target(x, attack_gain, sustain_gain).value(),
        before.gain.value(),
    );
    lemma_rest_of_step(b, env, d.body.value());
    lemma_rest_of_step(g, t, d.gain.value());
}

/// The attack fraction is what the body lacks of the fast envelope, in relation to that: nothing
/// where the body has caught up, all of it where there is no body, and nothing in silence. This
/// holds if the arithmetic does not round.
pub proof fn law_attacks_are_what_the_body_lacks<S: Number>(shaper: TransientShaper<S>, x: S)
    requires
        exact::<S>(),
        ordered::<S>(),
    ensures
        ({
            let (e, b) = (shaper.env_next(x).value(), shaper.body_next(x).value());
            let f = shaper.attack_fraction(x).value();
            &&& 1000000 as real * e <= 1 as real ==> f == 0 as real
            &&& 1000000 as real * e > 1 as real && b >= e ==> f == 0 as real
            &&& 1000000 as real * e > 1 as real && b <= 0 as real ==> f == 1 as real
            &&& 1000000 as real * e > 1 as real && 0 as real <= b <= e ==> f * e == e - b
        }),
{
    let (e, b) = (shaper.env_next(x).value(), shaper.body_next(x).value());
    assert(S::fraction(1, 1000000).value() == 1 as real / 1000000 as real);
    if 1000000 as real * e > 1 as real {
        let q = (e - b) / e;
        lemma_undivide(e - b, e);
        assert(b >= e ==> q <= 0 as real) by (nonlinear_arith)
            requires
                q * e == e - b,
                e > 0 as real,
        ;
        assert(b <= 0 as real ==> q >= 1 as real) by (nonlinear_arith)
            requires
                q * e == e - b,
                e > 0 as real,
        ;
        assert(0 as real <= b <= e ==> 0 as real <= q <= 1 as real) by (nonlinear_arith)
            requires
                q * e == e - b,
                e > 0 as real,
        ;
    }
}

/// The gain that a sample asks for goes from the sustain gain, where nothing of it is an attack, to
/// the attack gain, where all of it is, in proportion. This holds if the arithmetic does not round.
pub proof fn law_target_crossfades<S: Number>(
    shaper: TransientShaper<S>,
    x: S,
    attack_gain: S,
    sustain_gain: S,
)
    requires
        exact::<S>(),
    ensures
        ({
            let f = shaper.attack_fraction(x).value();
            let t = shaper.target(x, attack_gain, sustain_gain).value();
            let (a, s) = (attack_gain.value(), sustain_gain.value());
            &&& f == 0 as real ==> t == s
            &&& f == 1 as real ==> t == a
            &&& t - s == f * (a - s)
        }),
{
    let f = shaper.attack_fraction(x).value();
    let (a, s) = (attack_gain.value(), sustain_gain.value());
    assert((1 as real - f) * s == s - f * s) by (nonlinear_arith);
    assert(f * (a - s) == f * a - f * s) by (nonlinear_arith);
    assert(f == 0 as real ==> f * (a - s) == 0 as real) by (nonlinear_arith);
    assert(f == 1 as real ==> f * (a - s) == a - s) by (nonlinear_arith);
}

/// What comes out is the sample at the gain that the shaper has come to with this very sample: one
/// that does not smooth its gain gives a sample out at the gain that it asks for. This holds if the
/// arithmetic does not round.
pub proof fn law_samples_come_out_at_the_gain<S: Number>(
    before: TransientShaper<S>,
    d: Decays<S>,
    x: S,
    attack_gain: S,
    sustain_gain: S,
)
    requires
        exact::<S>(),
        ordered::<S>(),
    ensures
        ({
            let shaper = before.smoothing(d);
            let y = shaper.shaped(x, attack_gain, sustain_gain).value();
            let target = shaper.target(x, attack_gain, sustain_gain).value();
            &&& d.gain.value() == 0 as real ==> y == x.value() * target
            &&& d.gain.value() == 1 as real ==> y == x.value() * before.gain.value()
            &&& y == x.value() * (target - d.gain.value() * (target - before.gain.value()))
        }),
{
    law_smoothers_close_in(before, d, x, attack_gain, sustain_gain);
    let shaper = before.smoothing(d);
    let target = shaper.target(x, attack_gain, sustain_gain).value();
    let (g, k) = (target - before.gain.value(), d.gain.value());
    assert(k == 0 as real ==> k * g == 0 as real) by (nonlinear_arith);
    assert(k == 1 as real ==> k * g == g) by (nonlinear_arith);
}

// ---- many samples ----

/// `r` to the power of `n`.
pub open spec fn powered(r: real, n: nat) -> real
    decreases n,
{
    if n == 0 {
        1 as real
    } else {
        r * powered(r, (n - 1) as nat)
    }
}

/// The shaper behind the sample `x`, `n` times.
pub open spec fn behind<S: Number>(
    shaper: TransientShaper<S>,
    x: S,
    attack_gain: S,
    sustain_gain: S,
    n: nat,
) -> TransientShaper<S>
    decreases n,
{
    if n == 0 {
        shaper
    } else {
        behind(shaper, x, attack_gain, sustain_gain, (n - 1) as nat).next(
            x,
            attack_gain,
            sustain_gain,
        )
    }
}

proof fn lemma_coefficients_stay<S: Number>(
    shaper: TransientShaper<S>,
    d: Decays<S>,
    x: S,
    attack_gain: S,
    sustain_gain: S,
    n: nat,
)
    requires
        shaper == shaper.smoothing(d),
    ensures
        ({
            let after = behind(shaper, x, attack_gain, sustain_gain, n);
            after == after.smoothing(d)
        }),
    decreases n,
{
    if n > 0 {
        lemma_coefficients_stay(shaper, d, x, attack_gain, sustain_gain, (n - 1) as nat);
    }
}

/// Under a constant level the body catches up: of what it lacks, each sample leaves the share that
/// the body decays by, so that the attack fraction dies down like a power. This holds if the
/// arithmetic does not round.
pub proof fn law_the_body_catches_up<S: Number>(
    shaper: TransientShaper<S>,
    d: Decays<S>,
    x: S,
    attack_gain: S,
    sustain_gain: S,
    n: nat,
)
    requires
        exact::<S>(),
        ordered::<S>(),
        shaper == shaper.smoothing(d),
        shaper.env.value() == magnitude(x.value()),
    ensures
        ({
            let after = behind(shaper, x, attack_gain, sustain_gain, n);
            let level = magnitude(x.value());
            &&& after.env.value() == level
            &&& level - after.body.value() == powered(d.body.value(), n) * (level
                - shaper.body.value())
        }),
    decreases n,
{
    let (level, k, b) = (magnitude(x.value()), d.body.value(), level_gap(shaper, x));
    if n == 0 {
        assert(1 as real * b == b);
    } else {
        let m = (n - 1) as nat;
        let before = behind(shaper, x, attack_gain, sustain_gain, m);
        law_the_body_catches_up(shaper, d, x, attack_gain, sustain_gain, m);
        lemma_coefficients_stay(shaper, d, x, attack_gain, sustain_gain, m);
        law_smoothers_close_in(before, d, x, attack_gain, sustain_gain);
        let p = powered(k, m);
        assert((k * p) * b == k * (p * b)) by (nonlinear_arith);
    }
}

/// What the body lacks of the level of `x`.
spec fn level_gap<S: Number>(shaper: TransientShaper<S>, x: S) -> real {
    magnitude(x.value()) - shaper.body.value()
}

/// Once the body has caught up with a constant level, the gain converges to the sustain gain,
/// whatever that is: of what it is away from it, each sample leaves the share that the gain decays
/// by. This holds if the arithmetic does not round.
pub proof fn law_the_gain_settles_at_the_sustain_gain<S: Number>(
    shaper: TransientShaper<S>,
    d: Decays<S>,
    x: S,
    attack_gain: S,
    sustain_gain: S,
    n: nat,
)
    requires
        exact::<S>(),
        ordered::<S>(),
        shaper == shaper.smoothing(d),
        shaper.env.value() == magnitude(x.value()),
        shaper.body.value() == magnitude(x.value()),
    ensures
        ({
            let after = behind(shaper, x, attack_gain, sustain_gain, n);
            let s = sustain_gain.value();
            s - after.gain.value() == powered(d.gain.value(), n) * (s - shaper.gain.value())
        }),
    decreases n,
{
    let (k, s, g) = (d.gain.value(), sustain_gain.value(), shaper.gain.value());
    let gap = s - g;
    if n == 0 {
        assert(1 as real * gap == gap);
    } else {
        let m = (n - 1) as nat;
        let before = behind(shaper, x, attack_gain, sustain_gain, m);
        law_the_gain_settles_at_the_sustain_gain(shaper, d, x, attack_gain, sustain_gain, m);
        lemma_coefficients_stay(shaper, d, x, attack_gain, sustain_gain, m);
        law_the_body_catches_up(shaper, d, x, attack_gain, sustain_gain, m);
        law_the_body_catches_up(shaper, d, x, attack_gain, sustain_gain, n);
        let (pb, qb, zero) = (
            powered(d.body.value(), m),
            powered(d.body.value(), n),
            0 as real,
        );
        assert(pb * zero == zero && qb * zero == zero) by (nonlinear_arith)
            requires
                zero == 0 as real,
        ;
        law_attacks_are_what_the_body_lacks(before, x);
        law_target_crossfades(before, x, attack_gain, sustain_gain);
        law_smoothers_close_in(before, d, x, attack_gain, sustain_gain);
        let p = powered(k, m);
        assert((k * p) * gap == k * (p * gap)) by (nonlinear_arith);
    }
}

/// A shaper at rest has heard nothing and stands at a gain of 1, and with both gains at 1 silence
/// leaves it so. This holds if the arithmetic does not round.
pub proof fn law_shapers_rest_in_silence<S: Number>(shaper: TransientShaper<S>, x: S, gain: S)
    requires
        exact::<S>(),
        ordered::<S>(),
        shaper.at_rest(),
        x.value() == 0 as real,
        gain.value() == 1 as real,
    ensures
        shaper.env.value() == 0 as real,
        shaper.body.value() == 0 as real,
        shaper.gain.value() == 1 as real,
        shaper.next(x, gain, gain).env.value() == 0 as real,
        shaper.next(x, gain, gain).body.value() == 0 as real,
        shaper.next(x, gain, gain).gain.value() == 1 as real,
{
    let (r, b, g, zero) = (
        shaper.release_coef.value(),
        shaper.body_coef.value(),
        shaper.gain_coef.value(),
        0 as real,
    );
    assert(r * zero == zero && b * zero == zero && g * zero == zero) by (nonlinear_arith)
        requires
            zero == 0 as real,
    ;
    law_target_crossfades(shaper, x, gain, gain);
    let f = shaper.attack_fraction(x).value();
    assert(f * zero == zero) by (nonlinear_arith)
        requires
            zero == 0 as real,
    ;
}

/// Sample rates below 1 count as 1, if the arithmetic does not round.
pub proof fn law_rates_below_one_count_as_one<S: Number>(sample_rate: S, speed_ms: S)
    requires
        exact::<S>(),
        ordered::<S>(),
        sample_rate.value() < 1 as real,
    ensures
        exponents_of(sample_rate, speed_ms) == exponents_of(S::unit(), speed_ms),
{
    assert(sample_rate.greater(S::unit()) == S::unit());
    assert(S::unit().greater(S::unit()) == S::unit());
}

} // verus!
