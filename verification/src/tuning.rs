//! Where the crossovers stand: at the frequencies that were asked for, at every sample rate, and with
//! the bands in their order.
use vstd::prelude::*;

use crate::algebra::lemma_undivide;
use crate::bands::law_crossovers_start_in_order;
use crate::biquad::{alpha_of, angle_of, BiquadCoeffs, BiquadState, Phasor};
use crate::crossover::{
    are_corners, corner_of, highest_corner, is_corner, Crossover, MAX_BANDS, MAX_CROSSOVERS,
};
use crate::flat::{
    coeffs, lemma_all, lemma_alpha, lemma_cancel, lemma_divisor, lemma_high, lemma_low, on_circle,
};
use crate::params::default_xovers;
use crate::plugin::{traces_the_circle, MbTransient};
use crate::power::{law_sections_halve_the_power_at_their_corner, law_sections_pass_their_ends};
use crate::response::power_at;
use crate::rounding::compares;
use crate::scalar::{exact, ordered, rooted, Number};
use crate::spectrum::{are_window_cosines, law_peaks_fall_by_time};

verus! {

// ---- angles ----

/// At every sample rate, a sine advances from one sample to the next by the angle that its sections
/// are designed for: over one second, that is over as many samples as the rate says, it comes to as
/// many turns as its frequency says. This holds if the arithmetic does not round.
pub proof fn law_angles_make_up_the_frequency<S: Number>(sample_rate: S, frequency: S)
    requires
        exact::<S>(),
        sample_rate.value() != 0 as real,
    ensures
        angle_of(sample_rate, frequency).value() * sample_rate.value() == S::turn().value()
            * frequency.value(),
{
    let (t, f, r) = (S::turn().value(), frequency.value(), sample_rate.value());
    lemma_undivide(f, r);
    let q = f / r;
    assert((t * q) * r == t * (q * r)) by (nonlinear_arith);
}

/// What matters is the frequency in relation to the sample rate: when both are multiplied by the
/// same, the angle stays as it is, if the arithmetic does not round.
pub proof fn law_angles_scale<S: Number>(
    sample_rate: S,
    frequency: S,
    other_rate: S,
    other_frequency: S,
    k: real,
)
    requires
        exact::<S>(),
        sample_rate.value() != 0 as real,
        k != 0 as real,
        other_rate.value() == k * sample_rate.value(),
        other_frequency.value() == k * frequency.value(),
    ensures
        angle_of(other_rate, other_frequency).value() == angle_of(sample_rate, frequency).value(),
{
    let (t, f, r) = (S::turn().value(), frequency.value(), sample_rate.value());
    let kr = other_rate.value();
    assert(kr != 0 as real) by (nonlinear_arith)
        requires
            kr == k * r,
            k != 0 as real,
            r != 0 as real,
    ;
    law_angles_make_up_the_frequency(sample_rate, frequency);
    law_angles_make_up_the_frequency(other_rate, other_frequency);
    let (a, b) = (
        angle_of(sample_rate, frequency).value(),
        angle_of(other_rate, other_frequency).value(),
    );
    assert(t * (k * f) == k * (t * f)) by (nonlinear_arith);
    assert(kr * b == b * kr && a * kr == kr * a) by (nonlinear_arith);
    assert(a * kr == k * (a * r)) by (nonlinear_arith)
        requires
            kr == k * r,
    ;
    lemma_cancel(kr, b, a);
}

// ---- corners ----

/// A crossover is placed at the frequency that is asked for, as long as that lies between 20 Hz and
/// 95 % of half the sample rate, and else at the nearer end of this range, if the arithmetic does
/// not round.
pub proof fn law_corners_are_where_asked<S: Number>(sample_rate: S, frequency: S)
    requires
        exact::<S>(),
        ordered::<S>(),
        800 as real <= 19 as real * sample_rate.value(),
    ensures
        ({
            let (f, r) = (frequency.value(), sample_rate.value());
            let corner = corner_of(sample_rate, frequency);
            &&& 20 as real <= f && 40 as real * f <= 19 as real * r ==> corner == frequency
            &&& f <= 20 as real ==> corner.value() == 20 as real
            &&& 40 as real * f >= 19 as real * r ==> 40 as real * corner.value() == 19 as real * r
        }),
{
    let (f, r) = (frequency.value(), sample_rate.value());
    let (half, most) = (S::fraction(1, 2).value(), S::fraction(19, 20).value());
    assert(half == 1 as real / 2 as real && most == 19 as real / 20 as real);
    assert(S::fraction(20, 1).value() == 20 as real);
    let top = highest_corner(sample_rate).value();
    let rh = r * half;
    assert(rh == r / 2 as real) by (nonlinear_arith)
        requires
            rh == r * half,
            half == 1 as real / 2 as real,
    ;
    assert(20 as real * (rh * most) == 19 as real * rh) by (nonlinear_arith)
        requires
            most == 19 as real / 20 as real,
    ;
    assert(40 as real * top == 19 as real * r);
}

/// Half the power of a sine at the point `u + v i` of the unit circle passes the section `c`.
pub open spec fn passes_half<S: Number>(c: BiquadCoeffs<S>, u: real, v: real) -> bool {
    let k = coeffs(c);
    2 as real * power_at(k.b0, k.b1, k.b2, u, v) == power_at(1 as real, k.a1, k.a2, u, v)
}

/// The bands below and above the crossover `i` meet at the angle of `frequency` at `sample_rate`:
/// there every one of their sections passes half the power.
pub open spec fn meets_at<S: Number, C: Fn(S) -> Phasor<S>>(
    crossover: &Crossover<S>,
    i: int,
    sample_rate: real,
    frequency: real,
    circle: &C,
) -> bool {
    exists|angle: S, at: Phasor<S>| #[trigger]
        call_ensures(circle, (angle,), at) && {
            &&& angle.value() * sample_rate == S::turn().value() * frequency
            &&& passes_half(crossover.lp[i]@[0], at.cos.value(), at.sin.value())
            &&& passes_half(crossover.lp[i]@[1], at.cos.value(), at.sin.value())
            &&& passes_half(crossover.hp[i]@[0], at.cos.value(), at.sin.value())
            &&& passes_half(crossover.hp[i]@[1], at.cos.value(), at.sin.value())
        }
}

/// The frequency `f`, or the nearer end of the range from 20 Hz to 95 % of half the sample rate `r`,
/// if it lies outside.
pub open spec fn placed(r: real, f: real) -> real {
    if f <= 20 as real {
        20 as real
    } else if 40 as real * f >= 19 as real * r {
        19 as real * r / 40 as real
    } else {
        f
    }
}

/// Each crossover stands at its own frequency: there the bands below and above it meet, at every
/// sample rate. One that lies outside of the range that there is room for stands at the nearer end.
/// This holds if the arithmetic does not round.
pub proof fn law_bands_meet_where_asked<S: Number, C: Fn(S) -> Phasor<S>>(
    crossover: &Crossover<S>,
    sample_rate: S,
    frequencies: Seq<S>,
    circle: &C,
    i: int,
)
    requires
        exact::<S>(),
        ordered::<S>(),
        rooted::<S>(),
        traces_the_circle(circle),
        exists|corners: Seq<Phasor<S>>|
            are_corners(corners, sample_rate, frequencies, circle)
                && #[trigger] crossover.follows(corners),
        0 <= i < frequencies.len(),
        i < MAX_CROSSOVERS,
        800 as real <= 19 as real * sample_rate.value(),
    ensures
        meets_at(
            crossover,
            i,
            sample_rate.value(),
            placed(sample_rate.value(), frequencies[i].value()),
            circle,
        ),
{
    let corners = choose|corners: Seq<Phasor<S>>|
        are_corners(corners, sample_rate, frequencies, circle)
            && #[trigger] crossover.follows(corners);
    let (at, f) = (corners[i], frequencies[i]);
    law_corners_are_where_asked(sample_rate, f);
    let corner = corner_of(sample_rate, f);
    assert(corner.value() == placed(sample_rate.value(), f.value()));
    law_angles_make_up_the_frequency(sample_rate, corner);
    let angle = angle_of(sample_rate, corner);
    assert(is_corner(at, sample_rate, f, circle));
    assert(call_ensures(circle, (angle,), at));
    assert(crossover.tuned(i, at));
    law_sections_halve_the_power_at_their_corner(at);
    let (low, high) = (coeffs(BiquadCoeffs::low(at)), coeffs(BiquadCoeffs::high(at)));
    assert(low.a1 == high.a1 && low.a2 == high.a2);
}

// ---- frames ----

/// After every frame the crossover stands at the frequencies that the frame asked for, one by one,
/// whether these have moved up, down or not at all.
pub proof fn law_frames_stand_where_asked<S: Number, C: Fn(S) -> Phasor<S>>(
    before: &MbTransient<S>,
    freqs: Seq<S>,
    circle: &C,
    after: &MbTransient<S>,
)
    requires
        compares::<S>(),
        before.stands(circle),
        before.tunes_to(freqs, circle, after),
        after.sample_rate == before.sample_rate,
        freqs.len() <= MAX_CROSSOVERS,
    ensures
        after.stands(circle),
        freqs.len() <= after.tuned,
        forall|i: int|
            0 <= i < freqs.len() && freqs[i].upto(freqs[i]) ==> {
                &&& (#[trigger] freqs[i]).upto(after.last_crossover_freqs@[i])
                &&& after.last_crossover_freqs@[i].upto(freqs[i])
            },
{
    if before.is_tuned_to(freqs) {
        let last = before.last_crossover_freqs@.take(before.tuned as int);
        let corners = choose|corners: Seq<Phasor<S>>|
            are_corners(corners, before.sample_rate, last, circle)
                && #[trigger] before.crossover.follows(corners);
        assert(after.crossover.follows(corners));
        assert forall|i: int| 0 <= i < freqs.len() implies {
            &&& (#[trigger] freqs[i]).upto(after.last_crossover_freqs@[i])
            &&& after.last_crossover_freqs@[i].upto(freqs[i])
        } by {
            assert(freqs[i].same(after.last_crossover_freqs@[i]));
        }
    } else {
        assert(after.last_crossover_freqs@.take(after.tuned as int) =~= freqs);
        assert forall|i: int| 0 <= i < freqs.len() implies #[trigger] freqs[i]
            == after.last_crossover_freqs@[i] by {}
    }
}

/// After every frame the bands meet where the frame asked for it, wherever they met before, if the
/// arithmetic does not round.
pub proof fn law_frames_cross_where_asked<S: Number, C: Fn(S) -> Phasor<S>>(
    before: &MbTransient<S>,
    freqs: Seq<S>,
    circle: &C,
    after: &MbTransient<S>,
    i: int,
)
    requires
        exact::<S>(),
        ordered::<S>(),
        rooted::<S>(),
        traces_the_circle(circle),
        before.stands(circle),
        before.tunes_to(freqs, circle, after),
        after.sample_rate == before.sample_rate,
        0 <= i < freqs.len() <= MAX_CROSSOVERS,
        800 as real <= 19 as real * after.sample_rate.value(),
    ensures
        after.last_crossover_freqs@[i].value() == freqs[i].value(),
        meets_at(
            &after.crossover,
            i,
            after.sample_rate.value(),
            placed(after.sample_rate.value(), freqs[i].value()),
            circle,
        ),
{
    if before.is_tuned_to(freqs) {
        let last = before.last_crossover_freqs@.take(before.tuned as int);
        assert(freqs[i].same(before.last_crossover_freqs@[i]));
        assert(last[i] == before.last_crossover_freqs@[i]);
        law_bands_meet_where_asked(&before.crossover, before.sample_rate, last, circle, i);
    } else {
        assert(after.last_crossover_freqs@[i] == freqs[i]);
        law_bands_meet_where_asked(&after.crossover, after.sample_rate, freqs, circle, i);
    }
}

// ---- the order of the bands ----

/// A section is left as it was.
pub open spec fn repeats<S: Number>(s: BiquadState<S>, t: BiquadState<S>) -> bool {
    t.z1.value() == s.z1.value() && t.z2.value() == s.z2.value()
}

/// A section is left as the opposite of what it was.
pub open spec fn alternates<S: Number>(s: BiquadState<S>, t: BiquadState<S>) -> bool {
    t.z1.value() == -s.z1.value() && t.z2.value() == -s.z2.value()
}

proof fn lemma_settled<S: Number>(c: BiquadCoeffs<S>, s: BiquadState<S>, x: S)
    requires
        exact::<S>(),
    ensures
        ({
            let (k, y) = (coeffs(c), c.output(s, x).value());
            &&& repeats(s, c.next(s, x)) ==> (1 as real + k.a1 + k.a2) * y == (k.b0 + k.b1 + k.b2)
                * x.value()
            &&& alternates(s, c.next(s, x)) ==> (1 as real - k.a1 + k.a2) * y == (k.b0 - k.b1 + k.b2)
                * x.value()
        }),
{
    let (k, y, v) = (coeffs(c), c.output(s, x).value(), x.value());
    let (p0, p1, p2, q1, q2) = (k.b0 * v, k.b1 * v, k.b2 * v, k.a1 * y, k.a2 * y);
    assert((1 as real + k.a1 + k.a2) * y == y + q1 + q2) by (nonlinear_arith)
        requires
            q1 == k.a1 * y,
            q2 == k.a2 * y,
    ;
    assert((1 as real - k.a1 + k.a2) * y == y - q1 + q2) by (nonlinear_arith)
        requires
            q1 == k.a1 * y,
            q2 == k.a2 * y,
    ;
    assert((k.b0 + k.b1 + k.b2) * v == p0 + p1 + p2) by (nonlinear_arith)
        requires
            p0 == k.b0 * v,
            p1 == k.b1 * v,
            p2 == k.b2 * v,
    ;
    assert((k.b0 - k.b1 + k.b2) * v == p0 - p1 + p2) by (nonlinear_arith)
        requires
            p0 == k.b0 * v,
            p1 == k.b1 * v,
            p2 == k.b2 * v,
    ;
}

/// What a section that has settled makes of a constant and of what changes its sign with every
/// sample.
proof fn lemma_settled_sections<S: Number>(at: Phasor<S>, s: BiquadState<S>, x: S)
    requires
        exact::<S>(),
        rooted::<S>(),
        on_circle(at),
        at.cos.value() != 1 as real,
        at.cos.value() != -(1 as real),
    ensures
        ({
            let (low, high, all) = (
                BiquadCoeffs::low(at),
                BiquadCoeffs::high(at),
                BiquadCoeffs::all(at),
            );
            &&& repeats(s, low.next(s, x)) ==> low.output(s, x).value() == x.value()
            &&& repeats(s, high.next(s, x)) ==> high.output(s, x).value() == 0 as real
            &&& repeats(s, all.next(s, x)) ==> all.output(s, x).value() == x.value()
            &&& alternates(s, low.next(s, x)) ==> low.output(s, x).value() == 0 as real
            &&& alternates(s, high.next(s, x)) ==> high.output(s, x).value() == x.value()
            &&& alternates(s, all.next(s, x)) ==> all.output(s, x).value() == x.value()
        }),
{
    let (low, high, all) = (BiquadCoeffs::low(at), BiquadCoeffs::high(at), BiquadCoeffs::all(at));
    let (l, h, a) = (coeffs(low), coeffs(high), coeffs(all));
    law_sections_pass_their_ends(at);
    lemma_settled(low, s, x);
    lemma_settled(high, s, x);
    lemma_settled(all, s, x);
    let (c, al) = (at.cos.value(), alpha_of(at).value());
    let d = 1 as real + al;
    lemma_alpha(at);
    lemma_divisor(c, at.sin.value(), al);
    lemma_low(at);
    lemma_all(at);
    lemma_high(at);
    let (p, q) = (1 as real + l.a1 + l.a2, 1 as real - l.a1 + l.a2);
    assert(p == 4 as real * l.b0 && q == 4 as real * h.b0);
    lemma_not_null(d, l.b0, 1 as real - c);
    lemma_not_null(d, h.b0, 1 as real + c);
    let zero = 0 as real;
    assert(p * zero == zero && q * zero == zero) by (nonlinear_arith)
        requires
            zero == 0 as real,
    ;
    assert(zero * x.value() == zero) by (nonlinear_arith)
        requires
            zero == 0 as real,
    ;
    if repeats(s, low.next(s, x)) {
        lemma_cancel(p, low.output(s, x).value(), x.value());
    }
    if repeats(s, high.next(s, x)) {
        lemma_cancel(p, high.output(s, x).value(), zero);
    }
    if repeats(s, all.next(s, x)) {
        lemma_cancel(p, all.output(s, x).value(), x.value());
    }
    if alternates(s, low.next(s, x)) {
        lemma_cancel(q, low.output(s, x).value(), zero);
    }
    if alternates(s, high.next(s, x)) {
        lemma_cancel(q, high.output(s, x).value(), x.value());
    }
    if alternates(s, all.next(s, x)) {
        lemma_cancel(q, all.output(s, x).value(), x.value());
    }
}

proof fn lemma_not_null(d: real, g: real, x: real)
    requires
        d * g == x / 2 as real,
        x != 0 as real,
    ensures
        4 as real * g != 0 as real,
{
    if g == 0 as real {
        assert(d * g == 0 as real) by (nonlinear_arith)
            requires
                g == 0 as real,
        ;
    }
}

/// The bands go from low to high. At each crossover, once its sections have settled, the bands above
/// it let nothing through of what is constant, and the band right below it nothing of what changes
/// its sign with every sample; all else passes as it is. This holds if the arithmetic does not
/// round.
pub proof fn law_bands_go_from_low_to_high<S: Number>(
    crossover: &Crossover<S>,
    i: int,
    at: Phasor<S>,
    band: int,
    s: Seq<BiquadState<S>>,
    x: S,
)
    requires
        exact::<S>(),
        rooted::<S>(),
        on_circle(at),
        at.cos.value() != 1 as real,
        at.cos.value() != -(1 as real),
        0 <= i < MAX_CROSSOVERS,
        0 <= band < MAX_BANDS,
        crossover.tuned(i, at),
        s.len() == 2,
    ensures
        ({
            let (t, y) = (
                crossover.section_next(band, i, s, x),
                crossover.section_output(band, i, s, x).value(),
            );
            &&& t.len() == 2
            &&& repeats(s[0], t[0]) && repeats(s[1], t[1]) ==> y == if band > i {
                0 as real
            } else {
                x.value()
            }
            &&& alternates(s[0], t[0]) && alternates(s[1], t[1]) ==> y == if band == i {
                0 as real
            } else {
                x.value()
            }
        }),
{
    let (low, high) = (BiquadCoeffs::low(at), BiquadCoeffs::high(at));
    lemma_settled_sections(at, s[0], x);
    lemma_settled_sections(at, s[1], low.output(s[0], x));
    lemma_settled_sections(at, s[1], high.output(s[0], x));
}

// ---- the sample rate of the host ----

/// Once it is told its sample rate, the plugin has all its bands meet where the crossovers start,
/// its peaks fall by 40 dB per second, and what it publishes tells the rate, all for that very
/// sample rate; and nothing has been heard. This holds if the arithmetic does not round.
pub proof fn law_the_plugin_follows_the_sample_rate<S: Number, C: Fn(S) -> Phasor<S>, W: Fn(S) -> S>(
    before: &MbTransient<S>,
    sample_rate: S,
    num_bands: i32,
    circle: &C,
    cos: &W,
    after: &MbTransient<S>,
    i: int,
)
    requires
        exact::<S>(),
        ordered::<S>(),
        rooted::<S>(),
        traces_the_circle(circle),
        before.initializes(sample_rate, num_bands, circle, cos, after),
        2 <= num_bands <= MAX_BANDS,
        0 <= i < num_bands - 1,
        sample_rate.value() >= 44100 as real,
    ensures
        after.at_rest(),
        after.sample_rate.value() == sample_rate.value(),
        after.spectrum.sample_rate.value() == sample_rate.value(),
        after.last_num_bands == num_bands,
        meets_at(
            &after.crossover,
            i,
            sample_rate.value(),
            default_xovers::<S>()[i].value(),
            circle,
        ),
        after.analyzer.fall_db.value() * (sample_rate.value() / 256 as real) == 40 as real,
{
    let freqs = after.last_crossover_freqs@.take(after.tuned as int);
    law_crossovers_start_in_order::<S>();
    assert(freqs[i] == default_xovers::<S>()[i]);
    law_bands_meet_where_asked(&after.crossover, sample_rate, freqs, circle, i);
    let cosines = choose|cosines: Seq<S>|
        are_window_cosines(cosines, cos) && #[trigger] after.analyzer.made_for(
            after.sample_rate,
            cosines,
        );
    law_peaks_fall_by_time(&after.analyzer, sample_rate, cosines);
}

} // verus!
