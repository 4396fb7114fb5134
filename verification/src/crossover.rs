//! The crossover that splits the signal into bands.
use vstd::prelude::*;

use crate::biquad::{
    angle, process_biquad, process_biquad_pair, BiquadCoeffs, BiquadState, Phasor,
};
#[allow(unused_imports)]
use crate::biquad::{angle_of, pair_next, pair_output, total_on_angles};
use crate::scalar::{clamp, Scalar};
#[allow(unused_imports)]
use crate::scalar::{clamped, is_function, Number};

verus! {

/// Maximum number of frequency bands.
pub const MAX_BANDS: usize = 6;

/// Maximum number of crossovers (one fewer than the number of bands).
pub const MAX_CROSSOVERS: usize = 5;

/// Linkwitz-Riley 24 dB/oct crossover coefficients. Shared between channels.
///
/// The bands are ordered so that the signal can be reconstructed flat by simply
/// summing all band outputs. This requires the lower bands to be phase
/// compensated with second-order all-pass filters matching the higher crossover
/// points. For a band `k` out of `N` bands, the crossover at index `i`
/// (`0..N-2`) contributes:
///
/// * `i < k`  — a high-pass section
/// * `i == k` — a low-pass section
/// * `i > k`  — an all-pass section
pub struct Crossover<S> {
    pub lp: [[BiquadCoeffs<S>; 2]; MAX_CROSSOVERS],
    pub hp: [[BiquadCoeffs<S>; 2]; MAX_CROSSOVERS],
    pub ap: [BiquadCoeffs<S>; MAX_CROSSOVERS],
}

/// Per-channel crossover state: each band owns the state of the `N-1` sections
/// it passes through.
#[derive(Clone)]
pub struct CrossoverState<S> {
    pub sections: [[[BiquadState<S>; 2]; MAX_CROSSOVERS]; MAX_BANDS],
}

/// The frequency that a crossover is placed at when `frequency` is asked for: at least 20 Hz and
/// a little below half the sample rate.
pub open spec fn corner_of<S: Number>(sample_rate: S, frequency: S) -> S {
    clamped(frequency, S::fraction(20, 1), highest_corner(sample_rate))
}

pub open spec fn highest_corner<S: Number>(sample_rate: S) -> S {
    sample_rate.times(S::fraction(1, 2)).times(S::fraction(19, 20))
}

/// The frequency that a crossover is placed at when `frequency` is asked for.
pub fn corner<S: Scalar>(sample_rate: S, frequency: S) -> (r: S)
    requires
        S::fraction(20, 1).upto(highest_corner(sample_rate)),
    ensures
        r == corner_of(sample_rate, frequency),
{
    let nyquist = sample_rate.mul(S::ratio(1, 2));
    clamp(frequency, S::ratio(20, 1), nyquist.mul(S::ratio(19, 20)))
}

/// `at` is what `circle` gives for the angle of a crossover at `frequency`.
pub open spec fn is_corner<S: Number, C: Fn(S) -> Phasor<S>>(
    at: Phasor<S>,
    sample_rate: S,
    frequency: S,
    circle: &C,
) -> bool {
    call_ensures(circle, (angle_of(sample_rate, corner_of(sample_rate, frequency)),), at)
}

/// `corners` are what `circle` gives for the angles of crossovers at `frequencies`, as far as
/// there is room for them.
pub open spec fn are_corners<S: Number, C: Fn(S) -> Phasor<S>>(
    corners: Seq<Phasor<S>>,
    sample_rate: S,
    frequencies: Seq<S>,
    circle: &C,
) -> bool {
    &&& corners.len() == if frequencies.len() < MAX_CROSSOVERS {
        frequencies.len()
    } else {
        MAX_CROSSOVERS as nat
    }
    &&& forall|i: int|
        0 <= i < corners.len() ==> is_corner(
            #[trigger] corners[i],
            sample_rate,
            frequencies[i],
            circle,
        )
}

/// How many crossovers separate `num_bands` bands.
pub open spec fn splits(num_bands: int) -> int {
    if num_bands <= 1 {
        0
    } else if num_bands > MAX_BANDS {
        MAX_CROSSOVERS as int
    } else {
        num_bands - 1
    }
}

impl<S: Number> CrossoverState<S> {
    /// Nothing has been heard yet.
    pub open spec fn silent(&self) -> bool {
        forall|band: int, i: int|
            0 <= band < MAX_BANDS && 0 <= i < MAX_CROSSOVERS
                ==> #[trigger] self.section(band, i) == seq![BiquadState::<S>::silent(), BiquadState::<S>::silent()]
    }

    /// The states that `band` keeps for the crossover `i`.
    pub open spec fn section(&self, band: int, i: int) -> Seq<BiquadState<S>> {
        self.sections[band][i]@
    }
}

impl<S: Scalar> CrossoverState<S> {
    pub fn reset(&mut self)
        ensures
            final(self).silent(),
    {
        *self = Self::default();
    }
}

impl<S: Scalar> Default for CrossoverState<S> {
    fn default() -> (r: Self)
        ensures
            r.silent(),
    {
        let sections = [[[BiquadState::default(); 2]; MAX_CROSSOVERS]; MAX_BANDS];
        let r = CrossoverState { sections };
        assert forall|band: int, i: int|
            0 <= band < MAX_BANDS && 0 <= i < MAX_CROSSOVERS implies #[trigger] r.section(band, i) == seq![
            BiquadState::<S>::silent(),
            BiquadState::<S>::silent(),
        ] by {
            assert(r.section(band, i) =~= seq![
                BiquadState::<S>::silent(),
                BiquadState::<S>::silent(),
            ]);
        }
        r
    }
}

impl<S: Number> Crossover<S> {
    /// The crossover `i` is built for the angular frequency of `at`.
    pub open spec fn tuned(&self, i: int, at: Phasor<S>) -> bool {
        &&& self.lp[i]@ == seq![BiquadCoeffs::low(at), BiquadCoeffs::low(at)]
        &&& self.hp[i]@ == seq![BiquadCoeffs::high(at), BiquadCoeffs::high(at)]
        &&& self.ap[i] == BiquadCoeffs::all(at)
    }

    /// The crossover `i` passes audio through unchanged.
    pub open spec fn idle(&self, i: int) -> bool {
        &&& self.lp[i]@ == seq![BiquadCoeffs::<S>::through(), BiquadCoeffs::<S>::through()]
        &&& self.hp[i]@ == seq![BiquadCoeffs::<S>::through(), BiquadCoeffs::<S>::through()]
        &&& self.ap[i] == BiquadCoeffs::<S>::through()
    }

    /// The crossover is built for `corners`, in this order; those that it has beyond them are
    /// idle, and `corners` that it has no room for are left out.
    pub open spec fn follows(&self, corners: Seq<Phasor<S>>) -> bool {
        &&& forall|i: int|
            0 <= i < MAX_CROSSOVERS && i < corners.len() ==> #[trigger] self.tuned(i, corners[i])
        &&& forall|i: int| 0 <= i < MAX_CROSSOVERS && i >= corners.len() ==> #[trigger] self.idle(i)
    }

    /// What `band` makes of the sample `x` at the crossover `i`.
    pub open spec fn section_output(
        &self,
        band: int,
        i: int,
        s: Seq<BiquadState<S>>,
        x: S,
    ) -> S {
        if i < band {
            pair_output(self.hp[i]@, s, x)
        } else if i == band {
            pair_output(self.lp[i]@, s, x)
        } else {
            self.ap[i].output(s[0], x)
        }
    }

    /// The states that `band` then keeps for the crossover `i`.
    pub open spec fn section_next(
        &self,
        band: int,
        i: int,
        s: Seq<BiquadState<S>>,
        x: S,
    ) -> Seq<BiquadState<S>> {
        if i < band {
            pair_next(self.hp[i]@, s, x)
        } else if i == band {
            pair_next(self.lp[i]@, s, x)
        } else {
            seq![self.ap[i].next(s[0], x), s[1]]
        }
    }

    /// What is left of the sample `x` in `band` behind its first `i` crossovers.
    pub open spec fn signal(&self, st: &CrossoverState<S>, x: S, band: int, i: int) -> S
        decreases i,
    {
        if i <= 0 {
            x
        } else {
            self.section_output(
                band,
                i - 1,
                st.section(band, i - 1),
                self.signal(st, x, band, i - 1),
            )
        }
    }

    /// `out` is `x` split into `num_bands` bands, with nothing in the entries beyond them, and
    /// `after` is what the sections that it went through keep of it.
    pub open spec fn split(
        &self,
        before: &CrossoverState<S>,
        x: S,
        num_bands: int,
        after: &CrossoverState<S>,
        out: Seq<S>,
    ) -> bool {
        &&& out.len() == MAX_BANDS
        &&& forall|band: int|
            0 <= band < MAX_BANDS ==> #[trigger] out[band] == if band < num_bands {
                self.signal(before, x, band, splits(num_bands))
            } else {
                S::nought()
            }
        &&& forall|band: int, i: int|
            0 <= band < MAX_BANDS && 0 <= i < MAX_CROSSOVERS ==> #[trigger] after.section(band, i)
                == if band < num_bands && i < splits(num_bands) {
                self.section_next(
                    band,
                    i,
                    before.section(band, i),
                    self.signal(before, x, band, i),
                )
            } else {
                before.section(band, i)
            }
    }
}

impl<S: Scalar> Crossover<S> {
    /// A crossover at `frequencies`. `circle` gives the cosine and the sine of an angle.
    pub fn new<C: Fn(S) -> Phasor<S>>(sample_rate: S, frequencies: &[S], circle: &C) -> (r: Self)
        requires
            total_on_angles(circle),
            frequencies@.len() > 0 ==> S::fraction(20, 1).upto(highest_corner(sample_rate)),
        ensures
            exists|corners: Seq<Phasor<S>>|
                are_corners(corners, sample_rate, frequencies@, circle) && #[trigger] r.follows(corners),
    {
        let mut crossover = Crossover {
            lp: [[BiquadCoeffs::default(); 2]; MAX_CROSSOVERS],
            hp: [[BiquadCoeffs::default(); 2]; MAX_CROSSOVERS],
            ap: [BiquadCoeffs::default(); MAX_CROSSOVERS],
        };
        crossover.update(sample_rate, frequencies, circle);
        crossover
    }

    /// Moves the crossovers to `frequencies`. `circle` gives the cosine and the sine of an angle.
    pub fn update<C: Fn(S) -> Phasor<S>>(&mut self, sample_rate: S, frequencies: &[S], circle: &C)
        requires
            total_on_angles(circle),
            frequencies@.len() > 0 ==> S::fraction(20, 1).upto(highest_corner(sample_rate)),
        ensures
            exists|corners: Seq<Phasor<S>>|
                are_corners(corners, sample_rate, frequencies@, circle)
                    && #[trigger] final(self).follows(corners),
    {
        let num_crossovers: usize = if frequencies.len() < MAX_CROSSOVERS {
            frequencies.len()
        } else {
            MAX_CROSSOVERS
        };
        let mut corners = [Phasor { cos: S::one(), sin: S::zero() }; MAX_CROSSOVERS];
        for i in 0..num_crossovers
            invariant
                total_on_angles(circle),
                frequencies@.len() > 0 ==> S::fraction(20, 1).upto(highest_corner(sample_rate)),
                num_crossovers <= MAX_CROSSOVERS,
                num_crossovers <= frequencies@.len(),
                forall|k: int|
                    0 <= k < i ==> is_corner(#[trigger] corners[k], sample_rate, frequencies@[k], circle),
        {
            let f = corner(sample_rate, frequencies[i]);
            corners[i] = circle(angle(sample_rate, f));
        }
        self.follow(&corners, num_crossovers);
        assert(are_corners(
            corners@.take(num_crossovers as int),
            sample_rate,
            frequencies@,
            circle,
        ));
    }

    /// Moves the crossovers to the first `n` of the points `corners` of the unit circle.
    pub fn follow(&mut self, corners: &[Phasor<S>; MAX_CROSSOVERS], n: usize)
        requires
            n <= MAX_CROSSOVERS,
        ensures
            final(self).follows(corners@.take(n as int)),
    {
        let ghost used = corners@.take(n as int);
        for i in 0..n
            invariant
                n <= MAX_CROSSOVERS,
                used == corners@.take(n as int),
                forall|k: int| 0 <= k < i ==> #[trigger] self.tuned(k, used[k]),
        {
            let ghost before = *self;
            let lp = BiquadCoeffs::lowpass_at(corners[i]);
            let hp = BiquadCoeffs::highpass_at(corners[i]);
            let ap = BiquadCoeffs::allpass_at(corners[i]);
            self.lp[i] = [lp, lp];
            self.hp[i] = [hp, hp];
            self.ap[i] = ap;
            assert(self.lp[i as int]@ =~= seq![lp, lp]);
            assert(self.hp[i as int]@ =~= seq![hp, hp]);
            assert(forall|k: int|
                0 <= k < i && before.tuned(k, used[k]) ==> #[trigger] self.tuned(k, used[k]));
        }
        // Unused sections pass audio through unchanged.
        for i in n..MAX_CROSSOVERS
            invariant
                n <= MAX_CROSSOVERS,
                used == corners@.take(n as int),
                forall|k: int| 0 <= k < n ==> #[trigger] self.tuned(k, used[k]),
                forall|k: int| n <= k < i ==> #[trigger] self.idle(k),
        {
            let ghost before = *self;
            self.lp[i] = [BiquadCoeffs::identity(); 2];
            self.hp[i] = [BiquadCoeffs::identity(); 2];
            self.ap[i] = BiquadCoeffs::identity();
            let ghost through = BiquadCoeffs::<S>::through();
            assert(self.lp[i as int]@ =~= seq![through, through]);
            assert(self.hp[i as int]@ =~= seq![through, through]);
            assert(forall|k: int|
                0 <= k < i && before.tuned(k, used[k]) ==> #[trigger] self.tuned(k, used[k]));
            assert(forall|k: int| 0 <= k < i && before.idle(k) ==> #[trigger] self.idle(k));
        }
    }

    /// Split `x` into `num_bands` bands that sum back to a flat (all-pass)
    /// version of the input. Unused entries in the result are zero.
    pub fn process(&self, st: &mut CrossoverState<S>, x: S, num_bands: usize) -> (out: [S; MAX_BANDS])
        ensures
            self.split(old(st), x, num_bands as int, final(st), out@),
    {
        let mut out = [S::zero(); MAX_BANDS];
        let num_crossovers: usize = if num_bands <= 1 {
            0
        } else if num_bands > MAX_BANDS {
            MAX_CROSSOVERS
        } else {
            num_bands - 1
        };
        let bands: usize = if num_bands < MAX_BANDS {
            num_bands
        } else {
            MAX_BANDS
        };
        for band in 0..bands
            invariant
                bands <= MAX_BANDS,
                bands <= num_bands,
                num_crossovers <= MAX_CROSSOVERS,
                num_crossovers == splits(num_bands as int),
                forall|b: int|
                    0 <= b < MAX_BANDS ==> #[trigger] out[b] == if b < band {
                        self.signal(old(st), x, b, num_crossovers as int)
                    } else {
                        S::nought()
                    },
                forall|b: int, i: int|
                    0 <= b < MAX_BANDS && 0 <= i < MAX_CROSSOVERS ==> #[trigger] st.section(b, i)
                        == if b < band && i < num_crossovers {
                        self.section_next(
                            b,
                            i,
                            old(st).section(b, i),
                            self.signal(old(st), x, b, i),
                        )
                    } else {
                        old(st).section(b, i)
                    },
        {
            let mut y = x;
            for i in 0..num_crossovers
                invariant
                    band < bands,
                    bands <= MAX_BANDS,
                    num_crossovers <= MAX_CROSSOVERS,
                    y == self.signal(old(st), x, band as int, i as int),
                    forall|b: int, k: int|
                        0 <= b < MAX_BANDS && 0 <= k < MAX_CROSSOVERS ==> #[trigger] st.section(b, k)
                            == if (b < band && k < num_crossovers) || (b == band && k < i) {
                            self.section_next(
                                b,
                                k,
                                old(st).section(b, k),
                                self.signal(old(st), x, b, k),
                            )
                        } else {
                            old(st).section(b, k)
                        },
            {
                let ghost before = *st;
                let ghost s = st.section(band as int, i as int);
                let ghost input = y;
                let section = &mut st.sections[band][i];
                if i < band {
                    y = process_biquad_pair(&self.hp[i], section, y);
                } else if i == band {
                    y = process_biquad_pair(&self.lp[i], section, y);
                } else {
                    y = process_biquad(&self.ap[i], &mut section[0], y);
                }
                proof {
                    assert(st.section(band as int, i as int) =~= self.section_next(
                        band as int,
                        i as int,
                        s,
                        input,
                    ));
                    assert forall|b: int, k: int|
                        0 <= b < MAX_BANDS && 0 <= k < MAX_CROSSOVERS && !(b == band && k == i)
                        implies #[trigger] st.section(b, k) == before.section(b, k) by {}
                }
            }
            out[band] = y;
        }
        out
    }
}

/// The corners fix the whole crossover, section by section.
pub proof fn law_corners_fix_the_crossover<S: Number>(
    a: &Crossover<S>,
    b: &Crossover<S>,
    corners: Seq<Phasor<S>>,
)
    requires
        a.follows(corners),
        b.follows(corners),
    ensures
        *a == *b,
{
    assert forall|i: int| 0 <= i < MAX_CROSSOVERS implies a.lp[i] == b.lp[i] && a.hp[i] == b.hp[i]
        && a.ap[i] == b.ap[i] by {
        if i < corners.len() {
            assert(a.tuned(i, corners[i]) && b.tuned(i, corners[i]));
        } else {
            assert(a.idle(i) && b.idle(i));
        }
        assert forall|k: int| 0 <= k < 2 implies a.lp[i][k] == b.lp[i][k] && a.hp[i][k] == b.hp[i][k] by {
            assert(a.lp[i]@[k] == b.lp[i]@[k]);
            assert(a.hp[i]@[k] == b.hp[i]@[k]);
        }
        assert(a.lp[i] =~= b.lp[i]);
        assert(a.hp[i] =~= b.hp[i]);
    }
    assert(a.lp =~= b.lp);
    assert(a.hp =~= b.hp);
    assert(a.ap =~= b.ap);
}

/// A crossover that was moved to some frequencies is the same, section by section, as one that was
/// made for them.
pub proof fn law_update_is_as_new<S: Number, C: Fn(S) -> Phasor<S>>(
    updated: &Crossover<S>,
    made: &Crossover<S>,
    sample_rate: S,
    frequencies: Seq<S>,
    circle: &C,
)
    requires
        is_function(circle),
        exists|corners: Seq<Phasor<S>>|
            are_corners(corners, sample_rate, frequencies, circle)
                && #[trigger] updated.follows(corners),
        exists|corners: Seq<Phasor<S>>|
            are_corners(corners, sample_rate, frequencies, circle)
                && #[trigger] made.follows(corners),
    ensures
        *updated == *made,
{
    let p = choose|corners: Seq<Phasor<S>>|
        are_corners(corners, sample_rate, frequencies, circle)
            && #[trigger] updated.follows(corners);
    let q = choose|corners: Seq<Phasor<S>>|
        are_corners(corners, sample_rate, frequencies, circle)
            && #[trigger] made.follows(corners);
    assert forall|i: int| 0 <= i < p.len() implies #[trigger] p[i] == q[i] by {
        assert(is_corner(p[i], sample_rate, frequencies[i], circle));
        assert(is_corner(q[i], sample_rate, frequencies[i], circle));
    }
    assert(p =~= q);
    law_corners_fix_the_crossover(updated, made, p);
}

} // verus!
