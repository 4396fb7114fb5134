//! Second-order filter sections.
use vstd::prelude::*;

use crate::scalar::Scalar;
#[allow(unused_imports)]
use crate::scalar::Number;

verus! {

/// Pre-normalized (divided by `a0`) transposed direct form II biquad coefficients.
#[derive(Clone, Copy, Debug)]
pub struct BiquadCoeffs<S> {
    pub b0: S,
    pub b1: S,
    pub b2: S,
    pub a1: S,
    pub a2: S,
}

/// Per-channel biquad state.
#[derive(Clone, Copy, Debug)]
pub struct BiquadState<S> {
    pub z1: S,
    pub z2: S,
}

/// The cosine and the sine of a section's angular frequency.
#[derive(Clone, Copy, Debug)]
pub struct Phasor<S> {
    pub cos: S,
    pub sin: S,
}

/// The angular frequency of `frequency` at `sample_rate`, in radians per sample.
pub open spec fn angle_of<S: Number>(sample_rate: S, frequency: S) -> S {
    S::turn().times(frequency.over(sample_rate))
}

/// The angular frequency of `frequency` at `sample_rate`, in radians per sample.
pub fn angle<S: Scalar>(sample_rate: S, frequency: S) -> (r: S)
    ensures
        r == angle_of(sample_rate, frequency),
{
    S::tau().mul(frequency.div(sample_rate))
}

/// `circle` can be asked for any angle.
pub open spec fn total_on_angles<S: Number, C: Fn(S) -> Phasor<S>>(circle: &C) -> bool {
    forall|angle: S| #[trigger] call_requires(circle, (angle,))
}

/// The bandwidth term of a section whose Q is the Butterworth one.
pub open spec fn alpha_of<S: Number>(at: Phasor<S>) -> S {
    at.sin.over(S::fraction(2, 1).times(S::half_power()))
}

fn alpha<S: Scalar>(at: Phasor<S>) -> (r: S)
    ensures
        r == alpha_of(at),
{
    at.sin.div(S::ratio(2, 1).mul(S::frac_1_sqrt_2()))
}

impl<S: Number> BiquadCoeffs<S> {
    /// Coefficients that are all zero.
    pub open spec fn null() -> Self {
        BiquadCoeffs {
            b0: S::nought(),
            b1: S::nought(),
            b2: S::nought(),
            a1: S::nought(),
            a2: S::nought(),
        }
    }

    /// The section that changes nothing.
    pub open spec fn through() -> Self {
        BiquadCoeffs {
            b0: S::unit(),
            b1: S::nought(),
            b2: S::nought(),
            a1: S::nought(),
            a2: S::nought(),
        }
    }

    pub open spec fn low(at: Phasor<S>) -> Self {
        let a0 = S::unit().plus(alpha_of(at));
        let rest = S::unit().minus(at.cos);
        BiquadCoeffs {
            b0: rest.over(S::fraction(2, 1)).over(a0),
            b1: rest.over(a0),
            b2: rest.over(S::fraction(2, 1)).over(a0),
            a1: S::fraction(-2, 1).times(at.cos).over(a0),
            a2: S::unit().minus(alpha_of(at)).over(a0),
        }
    }

    pub open spec fn high(at: Phasor<S>) -> Self {
        let a0 = S::unit().plus(alpha_of(at));
        let rest = S::unit().plus(at.cos);
        BiquadCoeffs {
            b0: rest.over(S::fraction(2, 1)).over(a0),
            b1: rest.opposite().over(a0),
            b2: rest.over(S::fraction(2, 1)).over(a0),
            a1: S::fraction(-2, 1).times(at.cos).over(a0),
            a2: S::unit().minus(alpha_of(at)).over(a0),
        }
    }

    pub open spec fn all(at: Phasor<S>) -> Self {
        let a0 = S::unit().plus(alpha_of(at));
        BiquadCoeffs {
            b0: S::unit().minus(alpha_of(at)).over(a0),
            b1: S::fraction(-2, 1).times(at.cos).over(a0),
            b2: S::unit().plus(alpha_of(at)).over(a0),
            a1: S::fraction(-2, 1).times(at.cos).over(a0),
            a2: S::unit().minus(alpha_of(at)).over(a0),
        }
    }

    /// What the section gives out for the sample `x`.
    pub open spec fn output(self, s: BiquadState<S>, x: S) -> S {
        self.b0.times(x).plus(s.z1)
    }

    /// The state that the sample `x` leaves behind.
    pub open spec fn next(self, s: BiquadState<S>, x: S) -> BiquadState<S> {
        let y = self.output(s, x);
        BiquadState {
            z1: self.b1.times(x).minus(self.a1.times(y)).plus(s.z2),
            z2: self.b2.times(x).minus(self.a2.times(y)),
        }
    }
}

impl<S: Scalar> BiquadCoeffs<S> {
    pub fn identity() -> (r: Self)
        ensures
            r == Self::through(),
    {
        BiquadCoeffs { b0: S::one(), b1: S::zero(), b2: S::zero(), a1: S::zero(), a2: S::zero() }
    }

    /// The low-pass for a point of the unit circle.
    pub fn lowpass_at(at: Phasor<S>) -> (r: Self)
        ensures
            r == Self::low(at),
    {
        let alpha = alpha(at);
        let a0 = S::one().add(alpha);
        BiquadCoeffs {
            b0: S::one().sub(at.cos).div(S::ratio(2, 1)).div(a0),
            b1: S::one().sub(at.cos).div(a0),
            b2: S::one().sub(at.cos).div(S::ratio(2, 1)).div(a0),
            a1: S::ratio(-2, 1).mul(at.cos).div(a0),
            a2: S::one().sub(alpha).div(a0),
        }
    }

    /// The high-pass for a point of the unit circle.
    pub fn highpass_at(at: Phasor<S>) -> (r: Self)
        ensures
            r == Self::high(at),
    {
        let alpha = alpha(at);
        let a0 = S::one().add(alpha);
        BiquadCoeffs {
            b0: S::one().add(at.cos).div(S::ratio(2, 1)).div(a0),
            b1: S::one().add(at.cos).neg().div(a0),
            b2: S::one().add(at.cos).div(S::ratio(2, 1)).div(a0),
            a1: S::ratio(-2, 1).mul(at.cos).div(a0),
            a2: S::one().sub(alpha).div(a0),
        }
    }

    /// The all-pass for a point of the unit circle.
    pub fn allpass_at(at: Phasor<S>) -> (r: Self)
        ensures
            r == Self::all(at),
    {
        let alpha = alpha(at);
        let a0 = S::one().add(alpha);
        BiquadCoeffs {
            b0: S::one().sub(alpha).div(a0),
            b1: S::ratio(-2, 1).mul(at.cos).div(a0),
            b2: S::one().add(alpha).div(a0),
            a1: S::ratio(-2, 1).mul(at.cos).div(a0),
            a2: S::one().sub(alpha).div(a0),
        }
    }
}

impl<S: Scalar> BiquadCoeffs<S> {
    /// The low-pass for `frequency`. `circle` gives the cosine and the sine of an angle.
    pub fn lowpass<C: Fn(S) -> Phasor<S>>(sample_rate: S, frequency: S, circle: &C) -> (r: Self)
        requires
            total_on_angles(circle),
        ensures
            exists|at: Phasor<S>|
                call_ensures(circle, (angle_of(sample_rate, frequency),), at) && r == #[trigger] Self::low(
                    at,
                ),
    {
        Self::lowpass_at(circle(angle(sample_rate, frequency)))
    }

    /// The high-pass for `frequency`. `circle` gives the cosine and the sine of an angle.
    pub fn highpass<C: Fn(S) -> Phasor<S>>(sample_rate: S, frequency: S, circle: &C) -> (r: Self)
        requires
            total_on_angles(circle),
        ensures
            exists|at: Phasor<S>|
                call_ensures(circle, (angle_of(sample_rate, frequency),), at) && r
                    == #[trigger] Self::high(at),
    {
        Self::highpass_at(circle(angle(sample_rate, frequency)))
    }

    /// The all-pass for `frequency`. `circle` gives the cosine and the sine of an angle.
    pub fn allpass<C: Fn(S) -> Phasor<S>>(sample_rate: S, frequency: S, circle: &C) -> (r: Self)
        requires
            total_on_angles(circle),
        ensures
            exists|at: Phasor<S>|
                call_ensures(circle, (angle_of(sample_rate, frequency),), at) && r == #[trigger] Self::all(
                    at,
                ),
    {
        Self::allpass_at(circle(angle(sample_rate, frequency)))
    }
}

impl<S: Number> BiquadState<S> {
    /// The state of a section that has heard nothing but silence.
    pub open spec fn silent() -> Self {
        BiquadState { z1: S::nought(), z2: S::nought() }
    }
}

impl<S: Scalar> Default for BiquadCoeffs<S> {
    fn default() -> (r: Self)
        ensures
            r == Self::null(),
    {
        BiquadCoeffs { b0: S::zero(), b1: S::zero(), b2: S::zero(), a1: S::zero(), a2: S::zero() }
    }
}

impl<S: Scalar> Default for BiquadState<S> {
    fn default() -> (r: Self)
        ensures
            r == Self::silent(),
    {
        BiquadState { z1: S::zero(), z2: S::zero() }
    }
}

/// Sends the sample `x` through one section.
pub fn process_biquad<S: Scalar>(c: &BiquadCoeffs<S>, s: &mut BiquadState<S>, x: S) -> (y: S)
    ensures
        y == c.output(*old(s), x),
        *final(s) == c.next(*old(s), x),
{
    let y = c.b0.mul(x).add(s.z1);
    s.z1 = c.b1.mul(x).sub(c.a1.mul(y)).add(s.z2);
    s.z2 = c.b2.mul(x).sub(c.a2.mul(y));
    y
}

/// What two sections in a row give out for the sample `x`.
pub open spec fn pair_output<S: Number>(
    c: Seq<BiquadCoeffs<S>>,
    s: Seq<BiquadState<S>>,
    x: S,
) -> S {
    c[1].output(s[1], c[0].output(s[0], x))
}

/// The states that the sample `x` leaves behind in two sections in a row.
pub open spec fn pair_next<S: Number>(
    c: Seq<BiquadCoeffs<S>>,
    s: Seq<BiquadState<S>>,
    x: S,
) -> Seq<BiquadState<S>> {
    seq![c[0].next(s[0], x), c[1].next(s[1], c[0].output(s[0], x))]
}

/// Sends the sample `x` through two sections in a row.
pub fn process_biquad_pair<S: Scalar>(
    c: &[BiquadCoeffs<S>; 2],
    s: &mut [BiquadState<S>; 2],
    x: S,
) -> (y: S)
    ensures
        y == pair_output(c@, old(s)@, x),
        final(s)@ == pair_next(c@, old(s)@, x),
{
    let y = process_biquad(&c[0], &mut s[0], x);
    process_biquad(&c[1], &mut s[1], y)
}

/// The quotient of half of `x` by `d` is half of that of `x`, and that of its opposite is its
/// opposite. This is so where nothing is rounded, and of binary floats as long as no quotient is too
/// small for all of its digits.
pub open spec fn halves_cleanly<S: Number>(x: S, d: S) -> bool {
    &&& 2 as real * x.over(S::fraction(2, 1)).over(d).value() == x.over(d).value()
    &&& x.opposite().over(d).value() == -x.over(d).value()
}

/// The three sections for a point of the unit circle divide by the same, and the outer weights of
/// the low-pass and of the high-pass are the same, whatever is rounded. Where halving is clean, the
/// weights of the high-pass add up to nothing, so that it lets through nothing that is constant, and
/// those of the low-pass do so once every other one is taken with the opposite sign.
pub proof fn law_sections_share_their_weights<S: Number>(at: Phasor<S>)
    ensures
        ({
            let (low, high, all) = (
                BiquadCoeffs::low(at),
                BiquadCoeffs::high(at),
                BiquadCoeffs::all(at),
            );
            let a0 = S::unit().plus(alpha_of(at));
            &&& high.a1 == low.a1
            &&& high.a1 == all.a1
            &&& high.a2 == low.a2
            &&& high.a2 == all.a2
            &&& high.b2 == high.b0
            &&& low.b2 == low.b0
            &&& all.b0 == all.a2
            &&& all.b1 == all.a1
            &&& halves_cleanly(S::unit().plus(at.cos), a0) ==> {
                &&& high.b1.value() == -(2 as real * high.b0.value())
                &&& high.b0.value() + high.b1.value() + high.b2.value() == 0 as real
            }
            &&& halves_cleanly(S::unit().minus(at.cos), a0) ==> {
                &&& low.b1.value() == 2 as real * low.b0.value()
                &&& low.b0.value() - low.b1.value() + low.b2.value() == 0 as real
            }
        }),
{
}

} // verus!
