//! The signal path of the whole plugin.
use vstd::prelude::*;
use vstd::slice::slice_subrange;

use crate::biquad::Phasor;
#[allow(unused_imports)]
use crate::biquad::total_on_angles;
use crate::crossover::{Crossover, CrossoverState, MAX_BANDS, MAX_CROSSOVERS};
#[allow(unused_imports)]
use crate::crossover::{are_corners, highest_corner, is_corner, splits};
#[allow(unused_imports)]
use crate::flat::{
    allpassed, has_heard, law_bands_follow_the_signal, law_bands_sum_to_allpass,
    law_reset_has_heard_nothing, law_tuned_crossovers_match, matched_at, on_circle, samples, total,
};
use crate::params::initial_xovers;
#[allow(unused_imports)]
use crate::params::default_xovers;
#[allow(unused_imports)]
use crate::rounding::{compares, law_rounding_stays_between, rounds};
use crate::scalar::Scalar;
#[allow(unused_imports)]
use crate::scalar::{exact, rooted, Number};
#[allow(unused_imports)]
use crate::shaper::{are_decays, law_neutral_shaper_passes_through};
use crate::shaper::{decays, Decays, TransientShaper};
use crate::spectrum::{SpectrumAnalyzer, SpectrumData};
#[allow(unused_imports)]
use crate::spectrum::{are_window_cosines, transforms_frames};

verus! {

/// How many dB the "cut" side of the shaping scheme removes.
pub const MAX_CUT_DB: i32 = 45;

/// The attack and the sustain gain in dB for the shaping value `p`: it sweeps from the attack cut
/// away through both at unity to the sustain cut away.
pub open spec fn shape_db_of<S: Number>(p: S) -> (S, S) {
    (
        if p.below(S::nought()) {
            p.times(S::fraction(MAX_CUT_DB as int, 1))
        } else {
            S::nought()
        },
        if S::nought().below(p) {
            p.opposite().times(S::fraction(MAX_CUT_DB as int, 1))
        } else {
            S::nought()
        },
    )
}

/// The attack and the sustain gain in dB for the shaping value `p`.
pub fn shape_db<S: Scalar>(p: S) -> (r: (S, S))
    ensures
        r == shape_db_of(p),
{
    let attack_db = if p.lt(S::zero()) {
        p.mul(S::ratio(MAX_CUT_DB, 1))
    } else {
        S::zero()
    };
    let sustain_db = if S::zero().lt(p) {
        p.neg().mul(S::ratio(MAX_CUT_DB, 1))
    } else {
        S::zero()
    };
    (attack_db, sustain_db)
}

/// A band only ever cuts the attack or the sustain: neither is boosted, at most one of them is
/// cut, and neither by more than `MAX_CUT_DB`, however results are rounded.
pub proof fn law_shape_cuts_one_side<S: Number>(p: S)
    requires
        compares::<S>(),
        rounds::<S>(),
        p.finite(),
        -(1 as real) <= p.value() <= 1 as real,
    ensures
        shape_db_of(p).0 == S::nought() || shape_db_of(p).1 == S::nought(),
        shape_db_of(p).0.finite(),
        shape_db_of(p).1.finite(),
        -(MAX_CUT_DB as real) <= shape_db_of(p).0.value() <= 0 as real,
        -(MAX_CUT_DB as real) <= shape_db_of(p).1.value() <= 0 as real,
        p.value() == 0 as real ==> shape_db_of(p) == (S::nought(), S::nought()),
{
    let (zero, cut, least) = (
        S::nought(),
        S::fraction(MAX_CUT_DB as int, 1),
        S::fraction(-(MAX_CUT_DB as int), 1),
    );
    assert(cut.finite() && cut.value() == 45 as real);
    assert(least.finite() && least.value() == -(45 as real));
    assert(p.upto(zero) <==> p.value() <= 0 as real);
    assert(zero.upto(p) <==> 0 as real <= p.value());
    if p.below(zero) {
        lemma_cut_stays(p, cut, least);
    }
    if zero.below(p) {
        assert(p.opposite().finite() && p.opposite().value() == -p.value());
        lemma_cut_stays(p.opposite(), cut, least);
    }
}

proof fn lemma_cut_stays<S: Number>(p: S, cut: S, least: S)
    requires
        compares::<S>(),
        rounds::<S>(),
        p.finite(),
        -(1 as real) <= p.value() <= 0 as real,
        cut.finite(),
        cut.value() == 45 as real,
        least.finite(),
        least.value() == -(45 as real),
    ensures
        p.times(cut).finite(),
        -(45 as real) <= p.times(cut).value() <= 0 as real,
{
    let (v, k) = (p.value(), cut.value());
    assert(v * k == 45 as real * v) by (nonlinear_arith)
        requires
            k == 45 as real,
    ;
    law_rounding_stays_between(p.times(cut), v * k, least, S::nought());
}

/// The gains of all the bands.
pub struct Gains<S> {
    pub attack: [S; MAX_BANDS],
    pub sustain: [S; MAX_BANDS],
}

impl<S: Number> Gains<S> {
    /// These are the gains for the shaping values `shapes`, one for each band that is in use.
    pub open spec fn made_for<G: Fn(S) -> S>(&self, shapes: Seq<S>, db_to_gain: &G) -> bool {
        &&& forall|band: int|
            0 <= band < shapes.len() ==> call_ensures(
                db_to_gain,
                (shape_db_of(shapes[band]).0,),
                #[trigger] self.attack[band],
            )
        &&& forall|band: int|
            0 <= band < shapes.len() ==> call_ensures(
                db_to_gain,
                (shape_db_of(shapes[band]).1,),
                #[trigger] self.sustain[band],
            )
        &&& forall|band: int|
            shapes.len() <= band < MAX_BANDS ==> #[trigger] self.attack[band] == S::nought()
        &&& forall|band: int|
            shapes.len() <= band < MAX_BANDS ==> #[trigger] self.sustain[band] == S::nought()
    }
}

impl<S: Scalar> Gains<S> {
    /// The gains for the shaping values `shapes`. `db_to_gain` gives the gain for a level in dB.
    pub fn new<G: Fn(S) -> S>(shapes: &[S], db_to_gain: &G) -> (r: Self)
        requires
            shapes@.len() <= MAX_BANDS,
            forall|db: S| #[trigger] call_requires(db_to_gain, (db,)),
        ensures
            r.made_for(shapes@, db_to_gain),
    {
        let mut attack = [S::zero(); MAX_BANDS];
        let mut sustain = [S::zero(); MAX_BANDS];
        for band in 0..shapes.len()
            invariant
                shapes@.len() <= MAX_BANDS,
                forall|db: S| #[trigger] call_requires(db_to_gain, (db,)),
                forall|b: int|
                    0 <= b < band ==> call_ensures(
                        db_to_gain,
                        (shape_db_of(shapes@[b]).0,),
                        #[trigger] attack[b],
                    ),
                forall|b: int|
                    0 <= b < band ==> call_ensures(
                        db_to_gain,
                        (shape_db_of(shapes@[b]).1,),
                        #[trigger] sustain[b],
                    ),
                forall|b: int| band <= b < MAX_BANDS ==> #[trigger] attack[b] == S::nought(),
                forall|b: int| band <= b < MAX_BANDS ==> #[trigger] sustain[b] == S::nought(),
        {
            let (attack_db, sustain_db) = shape_db(shapes[band]);
            attack[band] = db_to_gain(attack_db);
            sustain[band] = db_to_gain(sustain_db);
        }
        Gains { attack, sustain }
    }
}

/// What is kept for each audio channel.
pub struct ChannelState<S> {
    pub crossover: CrossoverState<S>,
    pub shapers: [TransientShaper<S>; MAX_BANDS],
}

impl<S: Number> ChannelState<S> {
    /// Nothing has been heard yet.
    pub open spec fn at_rest(&self) -> bool {
        &&& self.crossover.silent()
        &&& forall|band: int| 0 <= band < MAX_BANDS ==> (#[trigger] self.shapers[band]).at_rest()
    }

    /// The shapers smooth with the same coefficients as those of `other`.
    pub open spec fn smooths_as(&self, other: &Self) -> bool {
        forall|band: int|
            0 <= band < MAX_BANDS ==> {
                &&& (#[trigger] self.shapers[band]).release_coef == other.shapers[band].release_coef
                &&& self.shapers[band].body_coef == other.shapers[band].body_coef
                &&& self.shapers[band].gain_coef == other.shapers[band].gain_coef
            }
    }

    /// What the crossover makes of the sample `x` in `band`.
    pub open spec fn split(&self, crossover: &Crossover<S>, x: S, num_bands: int, band: int) -> S {
        crossover.signal(&self.crossover, x, band, splits(num_bands))
    }

    /// The shaper of `band` behind the sample `x`.
    pub open spec fn shaper_next(
        &self,
        crossover: &Crossover<S>,
        x: S,
        num_bands: int,
        gains: &Gains<S>,
        band: int,
    ) -> TransientShaper<S> {
        self.shapers[band].next(
            self.split(crossover, x, num_bands, band),
            gains.attack[band],
            gains.sustain[band],
        )
    }

    /// The sum of what the first `k` shapers give out for the sample `x`.
    pub open spec fn wet(
        &self,
        crossover: &Crossover<S>,
        x: S,
        num_bands: int,
        gains: &Gains<S>,
        k: int,
    ) -> S
        decreases k,
    {
        if k <= 0 {
            S::nought()
        } else {
            self.wet(crossover, x, num_bands, gains, k - 1).plus(
                self.split(crossover, x, num_bands, k - 1).times(
                    self.shaper_next(crossover, x, num_bands, gains, k - 1).gain,
                ),
            )
        }
    }

    /// `after` is what is kept once the sample `x` has gone through.
    pub open spec fn moves_to(
        &self,
        crossover: &Crossover<S>,
        x: S,
        num_bands: int,
        gains: &Gains<S>,
        after: &Self,
    ) -> bool {
        &&& forall|band: int, i: int|
            0 <= band < MAX_BANDS && 0 <= i < MAX_CROSSOVERS ==> #[trigger] after.crossover.section(
                band,
                i,
            ) == if band < num_bands && i < splits(num_bands) {
                crossover.section_next(
                    band,
                    i,
                    self.crossover.section(band, i),
                    crossover.signal(&self.crossover, x, band, i),
                )
            } else {
                self.crossover.section(band, i)
            }
        &&& forall|band: int|
            0 <= band < MAX_BANDS ==> #[trigger] after.shapers[band] == if band < num_bands {
                self.shaper_next(crossover, x, num_bands, gains, band)
            } else {
                self.shapers[band]
            }
    }

    /// `after` is what is kept once all the shapers have the coefficients for `decays`.
    pub open spec fn smooths_to(&self, decays: Decays<S>, after: &Self) -> bool {
        &&& after.crossover == self.crossover
        &&& forall|band: int|
            0 <= band < MAX_BANDS ==> #[trigger] after.shapers[band]
                == self.shapers[band].smoothing(decays)
    }
}

impl<S: Scalar> ChannelState<S> {
    /// Sends one sample through the crossover and the shapers and adds the bands up.
    pub fn process(&mut self, crossover: &Crossover<S>, x: S, num_bands: usize, gains: &Gains<S>) -> (wet:
        S)
        requires
            num_bands <= MAX_BANDS,
        ensures
            wet == old(self).wet(crossover, x, num_bands as int, gains, num_bands as int),
            old(self).moves_to(crossover, x, num_bands as int, gains, final(self)),
    {
        let bands = crossover.process(&mut self.crossover, x, num_bands);
        let ghost between = *self;
        let mut wet = S::zero();
        for band in 0..num_bands
            invariant
                num_bands <= MAX_BANDS,
                self.crossover == between.crossover,
                forall|b: int|
                    0 <= b < num_bands ==> #[trigger] bands[b] == old(self).split(
                        crossover,
                        x,
                        num_bands as int,
                        b,
                    ),
                forall|b: int|
                    0 <= b < MAX_BANDS ==> #[trigger] self.shapers[b] == if b < band {
                        old(self).shaper_next(crossover, x, num_bands as int, gains, b)
                    } else {
                        old(self).shapers[b]
                    },
                wet == old(self).wet(crossover, x, num_bands as int, gains, band as int),
        {
            wet = wet.add(
                self.shapers[band].process(bands[band], gains.attack[band], gains.sustain[band]),
            );
        }
        wet
    }

    /// Forgets what was heard.
    pub fn reset(&mut self)
        ensures
            final(self).at_rest(),
            final(self).smooths_as(old(self)),
    {
        self.crossover.reset();
        let ghost between = *self;
        for band in 0..MAX_BANDS
            invariant
                self.crossover == between.crossover,
                self.smooths_as(&between),
                forall|b: int| 0 <= b < band ==> (#[trigger] self.shapers[b]).at_rest(),
        {
            self.shapers[band].reset();
        }
    }

    /// Hands the coefficients for `decays` to all the shapers.
    pub fn smooth(&mut self, decays: Decays<S>)
        ensures
            old(self).smooths_to(decays, final(self)),
    {
        for band in 0..MAX_BANDS
            invariant
                self.crossover == old(self).crossover,
                forall|b: int|
                    0 <= b < MAX_BANDS ==> #[trigger] self.shapers[b] == if b < band {
                        old(self).shapers[b].smoothing(decays)
                    } else {
                        old(self).shapers[b]
                    },
        {
            self.shapers[band].smooth(decays);
        }
    }
}

impl<S: Scalar> Default for ChannelState<S> {
    fn default() -> (r: Self)
        ensures
            r.at_rest(),
            forall|band: int|
                0 <= band < MAX_BANDS ==> {
                    &&& (#[trigger] r.shapers[band]).release_coef == S::nought()
                    &&& r.shapers[band].body_coef == S::nought()
                    &&& r.shapers[band].gain_coef == S::nought()
                },
    {
        ChannelState {
            crossover: CrossoverState::default(),
            shapers: [
                TransientShaper::default(),
                TransientShaper::default(),
                TransientShaper::default(),
                TransientShaper::default(),
                TransientShaper::default(),
                TransientShaper::default(),
            ],
        }
    }
}

/// The plugin: its filters, what they keep for each channel, and the analyzer.
pub struct MbTransient<S> {
    pub sample_rate: S,
    pub crossover: Crossover<S>,
    pub channel_states: Vec<ChannelState<S>>,
    pub last_crossover_freqs: [S; MAX_CROSSOVERS],
    /// For how many of these frequencies the crossover is built.
    pub tuned: usize,
    pub last_num_bands: i32,
    pub spectrum: SpectrumData<S>,
    pub analyzer: SpectrumAnalyzer<S>,
}

/// The first `n` of two rows of frequencies are the same, one by one.
pub open spec fn same_freqs<S: Number>(a: Seq<S>, b: Seq<S>, n: int) -> bool {
    forall|i: int| 0 <= i < n ==> (#[trigger] a[i]).same(b[i])
}

/// The sum of the first `n` samples.
pub open spec fn mono<S: Number>(samples: Seq<S>, n: int) -> S
    decreases n,
{
    if n <= 0 {
        S::nought()
    } else {
        mono(samples, n - 1).plus(samples[n - 1])
    }
}

/// What a frame of `n` channels sums up to, scaled down to the level of one channel.
pub open spec fn mono_level<S: Number>(samples: Seq<S>, n: int) -> S {
    mono(samples, n).times(S::unit().over(S::count(n as nat)))
}

/// What comes in at one instant: a sample of each channel, the frequencies of the crossovers, the
/// shaping values of the bands, and the output trim in dB.
pub struct Frame<S> {
    pub samples: Seq<S>,
    pub freqs: Seq<S>,
    pub shapes: Seq<S>,
    pub output_db: S,
}

impl<S: Number> MbTransient<S> {
    pub open spec fn wf(&self) -> bool {
        &&& self.spectrum.wf()
        &&& self.analyzer.wf()
    }

    /// Nothing has been heard yet.
    pub open spec fn at_rest(&self) -> bool {
        &&& forall|ch: int|
            0 <= ch < self.channel_states@.len() ==> (#[trigger] self.channel_states@[ch]).at_rest()
        &&& self.analyzer.at_rest()
    }

    /// The crossover stands at `freqs`, for the sample rate of the plugin.
    pub open spec fn crosses_at<C: Fn(S) -> Phasor<S>>(&self, freqs: Seq<S>, circle: &C) -> bool {
        exists|corners: Seq<Phasor<S>>|
            are_corners(corners, self.sample_rate, freqs, circle)
                && #[trigger] self.crossover.follows(corners)
    }

    /// The crossover stands at those of the last frequencies that it is built for.
    pub open spec fn stands<C: Fn(S) -> Phasor<S>>(&self, circle: &C) -> bool {
        &&& self.tuned <= MAX_CROSSOVERS
        &&& self.crosses_at(self.last_crossover_freqs@.take(self.tuned as int), circle)
    }

    /// The crossover is built for `freqs` already.
    pub open spec fn is_tuned_to(&self, freqs: Seq<S>) -> bool {
        freqs.len() <= self.tuned && same_freqs(
            freqs,
            self.last_crossover_freqs@,
            freqs.len() as int,
        )
    }

    /// The analyzer is one for the sample rate of the plugin.
    pub open spec fn analyzes<W: Fn(S) -> S>(&self, cos: &W) -> bool {
        exists|cosines: Seq<S>|
            are_window_cosines(cosines, cos) && #[trigger] self.analyzer.made_for(
                self.sample_rate,
                cosines,
            )
    }

    /// Everything but what is kept for the channels is as in `other`.
    pub open spec fn differs_in_channels(&self, other: &Self) -> bool {
        &&& self.sample_rate == other.sample_rate
        &&& self.crossover == other.crossover
        &&& self.last_crossover_freqs == other.last_crossover_freqs
        &&& self.tuned == other.tuned
        &&& self.last_num_bands == other.last_num_bands
        &&& self.spectrum == other.spectrum
        &&& self.analyzer == other.analyzer
        &&& self.channel_states@.len() == other.channel_states@.len()
    }

    /// All the shapers smooth with the coefficients for `d`.
    pub open spec fn smooths_with(&self, d: Decays<S>) -> bool {
        forall|ch: int, band: int|
            0 <= ch < self.channel_states@.len() && 0 <= band < MAX_BANDS ==> (
            #[trigger] self.channel_states@[ch].shapers[band]) == self.channel_states@[ch].shapers[band].smoothing(
                d,
            )
    }

    /// `after` is the plugin once it is ready for a block of `num_channels` channels in `num_bands`
    /// bands, with the recovery time `speed_ms`.
    pub open spec fn prepares<E: Fn(S) -> S>(
        &self,
        num_channels: usize,
        num_bands: i32,
        speed_ms: S,
        exp: &E,
        after: &Self,
    ) -> bool {
        &&& after.channel_states@.len() == num_channels
        &&& after.last_num_bands == num_bands
        &&& if num_channels == self.channel_states@.len() && num_bands == self.last_num_bands {
            &&& after.analyzer == self.analyzer
            &&& forall|ch: int|
                0 <= ch < num_channels ==> (#[trigger] after.channel_states@[ch]).crossover
                    == self.channel_states@[ch].crossover
            &&& forall|ch: int, band: int|
                0 <= ch < num_channels && 0 <= band < MAX_BANDS ==> (
                #[trigger] after.channel_states@[ch].shapers[band]).sounds_as(
                    self.channel_states@[ch].shapers[band],
                )
        } else {
            after.at_rest() && after.analyzer.tuned_as(&self.analyzer)
        }
        &&& exists|d: Decays<S>| #[trigger]
            are_decays(d, self.sample_rate, speed_ms, exp) && after.smooths_with(d)
        &&& after.sample_rate == self.sample_rate
        &&& after.crossover == self.crossover
        &&& after.last_crossover_freqs == self.last_crossover_freqs
        &&& after.tuned == self.tuned
        &&& after.spectrum == self.spectrum
    }

    /// `after` is the plugin once it is ready for `sample_rate` and `num_bands` bands.
    pub open spec fn initializes<C: Fn(S) -> Phasor<S>, W: Fn(S) -> S>(
        &self,
        sample_rate: S,
        num_bands: i32,
        circle: &C,
        cos: &W,
        after: &Self,
    ) -> bool {
        &&& after.at_rest()
        &&& after.sample_rate == sample_rate
        &&& after.spectrum == (SpectrumData { sample_rate, ..self.spectrum })
        &&& after.last_crossover_freqs@ == default_xovers::<S>()
        &&& after.tuned == num_bands - 1
        &&& after.stands(circle)
        &&& after.last_num_bands == num_bands
        &&& after.analyzes(cos)
    }

    /// What the channel `ch` gives out for the sample `x`.
    pub open spec fn channel_output(
        &self,
        ch: int,
        x: S,
        num_bands: int,
        gains: &Gains<S>,
        output_gain: S,
    ) -> S {
        self.channel_states@[ch].wet(&self.crossover, x, num_bands, gains, num_bands).times(
            output_gain,
        )
    }

    /// What all the channels give out for one sample each.
    pub open spec fn outputs(
        &self,
        samples: Seq<S>,
        num_bands: int,
        gains: &Gains<S>,
        output_gain: S,
    ) -> Seq<S> {
        Seq::new(
            samples.len(),
            |ch: int| self.channel_output(ch, samples[ch], num_bands, gains, output_gain),
        )
    }

    /// `after` is what is kept for the channels once one sample each has gone through.
    pub open spec fn channels_move_to(
        &self,
        samples: Seq<S>,
        num_bands: int,
        gains: &Gains<S>,
        after: Seq<ChannelState<S>>,
    ) -> bool {
        &&& after.len() == self.channel_states@.len()
        &&& forall|ch: int|
            0 <= ch < after.len() ==> self.channel_states@[ch].moves_to(
                &self.crossover,
                samples[ch],
                num_bands,
                gains,
                #[trigger] &after[ch],
            )
    }

    /// `after` has its crossover at `freqs`, or where it was, if it is built for these already.
    pub open spec fn tunes_to<C: Fn(S) -> Phasor<S>>(
        &self,
        freqs: Seq<S>,
        circle: &C,
        after: &Self,
    ) -> bool {
        if self.is_tuned_to(freqs) {
            &&& after.crossover == self.crossover
            &&& after.last_crossover_freqs == self.last_crossover_freqs
            &&& after.tuned == self.tuned
        } else {
            &&& after.crosses_at(freqs, circle)
            &&& after.tuned == freqs.len()
            &&& after.last_crossover_freqs@ == freqs + self.last_crossover_freqs@.skip(
                freqs.len() as int,
            )
        }
    }

    /// `samples` come out as `outputs` when they go through the crossover of `after` with these
    /// gains, and `after` keeps what the channels then keep.
    pub open spec fn sends_to(
        &self,
        samples: Seq<S>,
        num_bands: int,
        gains: &Gains<S>,
        output_gain: S,
        outputs: Seq<S>,
        after: &Self,
    ) -> bool {
        let tuned = MbTransient { crossover: after.crossover, ..*self };
        &&& outputs == tuned.outputs(samples, num_bands, gains, output_gain)
        &&& tuned.channels_move_to(samples, num_bands, gains, after.channel_states@)
    }

    /// `frame` comes out as `outputs`, and `after` is what becomes of the plugin.
    pub open spec fn passes<
        C: Fn(S) -> Phasor<S>,
        G: Fn(S) -> S,
        F: Fn(Vec<S>) -> Vec<S>,
        L: Fn(S) -> S,
    >(
        &self,
        frame: Frame<S>,
        outputs: Seq<S>,
        after: &Self,
        circle: &C,
        db_to_gain: &G,
        fft: &F,
        log10: &L,
    ) -> bool {
        &&& self.tunes_to(frame.freqs, circle, after)
        &&& exists|gains: &Gains<S>, output_gain: S|
            #![trigger self.sends_to(frame.samples, frame.shapes.len() as int, gains, output_gain, outputs, after)]
            gains.made_for(frame.shapes, db_to_gain) && call_ensures(
                db_to_gain,
                (frame.output_db,),
                output_gain,
            ) && self.sends_to(
                frame.samples,
                frame.shapes.len() as int,
                gains,
                output_gain,
                outputs,
                after,
            )
        &&& after.sample_rate == self.sample_rate
        &&& after.last_num_bands == self.last_num_bands
        &&& frame.samples.len() == 0 ==> {
            &&& after.analyzer == self.analyzer
            &&& after.spectrum == self.spectrum
        }
        &&& frame.samples.len() > 0 ==> self.analyzer.steps_to(
            mono_level(frame.samples, frame.samples.len() as int),
            mono_level(outputs, frame.samples.len() as int),
            &self.spectrum,
            &after.analyzer,
            &after.spectrum,
            fft,
            log10,
        )
    }
}

impl<S: Scalar> MbTransient<S> {
    /// The plugin before it is told its sample rate. `circle` gives the cosine and the sine of an
    /// angle, and `cos` the cosine alone.
    pub fn new<C: Fn(S) -> Phasor<S>, W: Fn(S) -> S>(circle: &C, cos: &W) -> (r: Self)
        requires
            total_on_angles(circle),
            forall|x: S| #[trigger] call_requires(cos, (x,)),
            S::fraction(20, 1).upto(highest_corner(S::fraction(44100, 1))),
        ensures
            r.wf(),
            r.at_rest(),
            r.sample_rate == S::fraction(44100, 1),
            r.spectrum.sample_rate == S::fraction(44100, 1),
            r.spectrum.empty(),
            r.crosses_at(default_xovers::<S>().take(3), circle),
            r.channel_states@.len() == 0,
            r.last_crossover_freqs@ == default_xovers::<S>(),
            r.tuned == 3,
            r.stands(circle),
            r.last_num_bands == 4,
            r.analyzes(cos),
    {
        let xovers = initial_xovers();
        let freqs = slice_subrange(xovers.as_slice(), 0, 3);
        assert(freqs@ =~= default_xovers::<S>().take(3));
        let sample_rate = S::ratio(44100, 1);
        let crossover = Crossover::new(sample_rate, freqs, circle);
        let analyzer = SpectrumAnalyzer::new(sample_rate, cos);
        let r = MbTransient {
            sample_rate,
            crossover,
            channel_states: Vec::new(),
            last_crossover_freqs: xovers,
            tuned: 3,
            last_num_bands: 4,
            spectrum: SpectrumData::new(),
            analyzer,
        };
        assert(r.crossover.follows(choose|corners: Seq<Phasor<S>>|
            are_corners(corners, sample_rate, freqs@, circle)
                && #[trigger] crossover.follows(corners)));
        assert(r.analyzer.made_for(
            sample_rate,
            choose|cosines: Seq<S>|
                are_window_cosines(cosines, cos) && #[trigger] analyzer.made_for(
                    sample_rate,
                    cosines,
                ),
        ));
        r
    }

    /// Gets ready for `sample_rate`. `circle` gives the cosine and the sine of an angle, and `cos`
    /// the cosine alone.
    pub fn initialize<C: Fn(S) -> Phasor<S>, W: Fn(S) -> S>(
        &mut self,
        sample_rate: S,
        num_bands: i32,
        circle: &C,
        cos: &W,
    ) -> (ok: bool)
        requires
            old(self).wf(),
            1 <= num_bands <= MAX_BANDS,
            total_on_angles(circle),
            forall|x: S| #[trigger] call_requires(cos, (x,)),
            num_bands > 1 ==> S::fraction(20, 1).upto(highest_corner(sample_rate)),
        ensures
            ok,
            final(self).wf(),
            old(self).initializes(sample_rate, num_bands, circle, cos, final(self)),
            final(self).at_rest(),
            final(self).sample_rate == sample_rate,
            final(self).spectrum == (SpectrumData { sample_rate, ..old(self).spectrum }),
            final(self).crosses_at(default_xovers::<S>().take(num_bands - 1), circle),
            final(self).last_crossover_freqs@ == default_xovers::<S>(),
            final(self).tuned == num_bands - 1,
            final(self).stands(circle),
            final(self).last_num_bands == num_bands,
            final(self).analyzes(cos),
            final(self).channel_states@.len() == old(self).channel_states@.len(),
            forall|ch: int|
                0 <= ch < old(self).channel_states@.len() ==> (
                #[trigger] final(self).channel_states@[ch]).smooths_as(
                    &old(self).channel_states@[ch],
                ),
    {
        self.sample_rate = sample_rate;
        self.spectrum.sample_rate = sample_rate;
        self.analyzer = SpectrumAnalyzer::new(sample_rate, cos);
        self.last_num_bands = num_bands;
        self.last_crossover_freqs = initial_xovers();
        self.tuned = (num_bands - 1) as usize;
        let freqs = slice_subrange(
            self.last_crossover_freqs.as_slice(),
            0,
            (num_bands - 1) as usize,
        );
        assert(freqs@ =~= default_xovers::<S>().take(num_bands - 1));
        self.crossover.update(sample_rate, freqs, circle);
        let ghost between = *self;
        self.reset();
        assert(exists|cosines: Seq<S>|
            are_window_cosines(cosines, cos) && #[trigger] between.analyzer.made_for(
                sample_rate,
                cosines,
            ) && self.analyzer.made_for(sample_rate, cosines));
        true
    }

    /// Forgets what was heard.
    pub fn reset(&mut self)
        requires
            old(self).wf(),
        ensures
            final(self).wf(),
            final(self).at_rest(),
            final(self).sample_rate == old(self).sample_rate,
            final(self).crossover == old(self).crossover,
            final(self).last_crossover_freqs == old(self).last_crossover_freqs,
            final(self).tuned == old(self).tuned,
            final(self).last_num_bands == old(self).last_num_bands,
            final(self).spectrum == old(self).spectrum,
            final(self).analyzer.tuned_as(&old(self).analyzer),
            final(self).channel_states@.len() == old(self).channel_states@.len(),
            forall|ch: int|
                0 <= ch < old(self).channel_states@.len() ==> (
                #[trigger] final(self).channel_states@[ch]).smooths_as(
                    &old(self).channel_states@[ch],
                ),
    {
        let n: usize = self.channel_states.len();
        for ch in 0..n
            invariant
                n == self.channel_states@.len(),
                n == old(self).channel_states@.len(),
                self.sample_rate == old(self).sample_rate,
                self.crossover == old(self).crossover,
                self.last_crossover_freqs == old(self).last_crossover_freqs,
                self.tuned == old(self).tuned,
                self.last_num_bands == old(self).last_num_bands,
                self.spectrum == old(self).spectrum,
                self.analyzer == old(self).analyzer,
                forall|k: int| 0 <= k < ch ==> (#[trigger] self.channel_states@[k]).at_rest(),
                forall|k: int|
                    0 <= k < n ==> (#[trigger] self.channel_states@[k]).smooths_as(
                        &old(self).channel_states@[k],
                    ),
        {
            self.channel_states[ch].reset();
        }
        self.analyzer.reset();
    }

    /// Recomputes the smoothing coefficients of all the shapers for the recovery time `speed_ms`.
    /// `exp` is the exponential function.
    pub fn update_shaper_coefficients<E: Fn(S) -> S>(&mut self, speed_ms: S, exp: &E)
        requires
            forall|x: S| #[trigger] call_requires(exp, (x,)),
        ensures
            final(self).differs_in_channels(old(self)),
            exists|d: Decays<S>| #[trigger]
                are_decays(d, old(self).sample_rate, speed_ms, exp) && forall|ch: int|
                    0 <= ch < old(self).channel_states@.len() ==> old(
                        self,
                    ).channel_states@[ch].smooths_to(d, #[trigger] &final(self).channel_states@[ch]),
    {
        let d = decays(self.sample_rate, speed_ms, exp);
        let n: usize = self.channel_states.len();
        for ch in 0..n
            invariant
                n == self.channel_states@.len(),
                self.differs_in_channels(old(self)),
                forall|k: int|
                    ch <= k < n ==> #[trigger] self.channel_states@[k] == old(self).channel_states@[k],
                forall|k: int|
                    0 <= k < ch ==> old(self).channel_states@[k].smooths_to(
                        d,
                        #[trigger] &self.channel_states@[k],
                    ),
        {
            self.channel_states[ch].smooth(d);
        }
    }

    /// Gets ready for a block of `num_channels` channels in `num_bands` bands, with the recovery
    /// time `speed_ms`: when the number of either has changed, everything that was heard is
    /// forgotten. `exp` is the exponential function.
    pub fn prepare<E: Fn(S) -> S>(
        &mut self,
        num_channels: usize,
        num_bands: i32,
        speed_ms: S,
        exp: &E,
    )
        requires
            old(self).wf(),
            forall|x: S| #[trigger] call_requires(exp, (x,)),
        ensures
            final(self).wf(),
            old(self).prepares(num_channels, num_bands, speed_ms, exp, final(self)),
    {
        if self.channel_states.len() != num_channels {
            self.channel_states.truncate(num_channels);
            while self.channel_states.len() < num_channels
                invariant
                    self.channel_states@.len() <= num_channels,
                    self.wf(),
                    self.sample_rate == old(self).sample_rate,
                    self.crossover == old(self).crossover,
                    self.last_crossover_freqs == old(self).last_crossover_freqs,
                    self.tuned == old(self).tuned,
                    self.last_num_bands == old(self).last_num_bands,
                    self.spectrum == old(self).spectrum,
                    self.analyzer == old(self).analyzer,
                decreases num_channels - self.channel_states@.len(),
            {
                self.channel_states.push(ChannelState::default());
            }
            self.reset();
        }
        if self.last_num_bands != num_bands {
            self.last_num_bands = num_bands;
            self.reset();
        }
        let ghost between = *self;
        self.update_shaper_coefficients(speed_ms, exp);
        proof {
            let d = choose|d: Decays<S>| #[trigger]
                are_decays(d, between.sample_rate, speed_ms, exp) && forall|ch: int|
                    0 <= ch < between.channel_states@.len()
                        ==> between.channel_states@[ch].smooths_to(
                        d,
                        #[trigger] &self.channel_states@[ch],
                    );
            assert forall|ch: int, band: int|
                0 <= ch < num_channels && 0 <= band < MAX_BANDS implies (
            #[trigger] self.channel_states@[ch].shapers[band])
                == between.channel_states@[ch].shapers[band].smoothing(d) by {
                assert(between.channel_states@[ch].smooths_to(d, &self.channel_states@[ch]));
            }
            assert forall|ch: int| 0 <= ch < num_channels implies (
            #[trigger] self.channel_states@[ch]).crossover == between.channel_states@[ch].crossover by {
                assert(between.channel_states@[ch].smooths_to(d, &self.channel_states@[ch]));
            }
            assert(self.smooths_with(d));
        }
    }

    /// Whether the crossover has to be built anew for the frequencies `freqs`: when one of them has
    /// moved, or when there are more of them than it is built for.
    pub fn retune_due(&self, freqs: &[S]) -> (due: bool)
        requires
            freqs@.len() <= MAX_CROSSOVERS,
        ensures
            due == !self.is_tuned_to(freqs@),
    {
        if freqs.len() > self.tuned {
            return true;
        }
        for i in 0..freqs.len()
            invariant
                freqs@.len() <= MAX_CROSSOVERS,
                same_freqs(freqs@, self.last_crossover_freqs@, i as int),
        {
            if !freqs[i].equals(self.last_crossover_freqs[i]) {
                return true;
            }
        }
        false
    }

    /// Builds the crossover anew for the frequencies `freqs`. `circle` gives the cosine and the
    /// sine of an angle.
    pub fn retune<C: Fn(S) -> Phasor<S>>(&mut self, freqs: &[S], circle: &C)
        requires
            freqs@.len() <= MAX_CROSSOVERS,
            total_on_angles(circle),
            freqs@.len() > 0 ==> S::fraction(20, 1).upto(highest_corner(old(self).sample_rate)),
        ensures
            final(self).crosses_at(freqs@, circle),
            final(self).tuned == freqs@.len(),
            final(self).stands(circle),
            final(self).last_crossover_freqs@ == freqs@ + old(self).last_crossover_freqs@.skip(
                freqs@.len() as int,
            ),
            final(self).sample_rate == old(self).sample_rate,
            final(self).channel_states == old(self).channel_states,
            final(self).last_num_bands == old(self).last_num_bands,
            final(self).spectrum == old(self).spectrum,
            final(self).analyzer == old(self).analyzer,
    {
        self.crossover.update(self.sample_rate, freqs, circle);
        self.tuned = freqs.len();
        let ghost corners = choose|corners: Seq<Phasor<S>>|
            are_corners(corners, self.sample_rate, freqs@, circle)
                && #[trigger] self.crossover.follows(corners);
        for i in 0..freqs.len()
            invariant
                freqs@.len() <= MAX_CROSSOVERS,
                are_corners(corners, self.sample_rate, freqs@, circle),
                self.crossover.follows(corners),
                self.tuned == freqs@.len(),
                self.sample_rate == old(self).sample_rate,
                self.channel_states == old(self).channel_states,
                self.last_num_bands == old(self).last_num_bands,
                self.spectrum == old(self).spectrum,
                self.analyzer == old(self).analyzer,
                forall|k: int|
                    0 <= k < MAX_CROSSOVERS ==> #[trigger] self.last_crossover_freqs@[k] == if k < i {
                        freqs@[k]
                    } else {
                        old(self).last_crossover_freqs@[k]
                    },
        {
            self.last_crossover_freqs[i] = freqs[i];
        }
        assert(self.last_crossover_freqs@ =~= freqs@ + old(self).last_crossover_freqs@.skip(
            freqs@.len() as int,
        ));
        assert(self.last_crossover_freqs@.take(self.tuned as int) =~= freqs@);
    }

    /// Sends one sample of each channel through its bands, and gives the sum of what came in and
    /// that of what went out.
    pub fn send(
        &mut self,
        samples: &mut Vec<S>,
        num_bands: usize,
        gains: &Gains<S>,
        output_gain: S,
    ) -> (sums: (S, S))
        requires
            num_bands <= MAX_BANDS,
            old(samples)@.len() == old(self).channel_states@.len(),
        ensures
            final(self).differs_in_channels(old(self)),
            final(samples)@ == old(self).outputs(
                old(samples)@,
                num_bands as int,
                gains,
                output_gain,
            ),
            old(self).channels_move_to(
                old(samples)@,
                num_bands as int,
                gains,
                final(self).channel_states@,
            ),
            sums.0 == mono(old(samples)@, old(samples)@.len() as int),
            sums.1 == mono(final(samples)@, old(samples)@.len() as int),
    {
        let n: usize = samples.len();
        let mut mono_in = S::zero();
        let mut mono_out = S::zero();
        let ghost outputs = self.outputs(samples@, num_bands as int, gains, output_gain);
        for ch in 0..n
            invariant
                n == samples@.len(),
                n == old(samples)@.len(),
                n == self.channel_states@.len(),
                num_bands <= MAX_BANDS,
                self.differs_in_channels(old(self)),
                outputs == old(self).outputs(
                    old(samples)@,
                    num_bands as int,
                    gains,
                    output_gain,
                ),
                forall|k: int|
                    0 <= k < n ==> #[trigger] samples@[k] == if k < ch {
                        outputs[k]
                    } else {
                        old(samples)@[k]
                    },
                forall|k: int|
                    ch <= k < n ==> #[trigger] self.channel_states@[k] == old(self).channel_states@[k],
                forall|k: int|
                    0 <= k < ch ==> old(self).channel_states@[k].moves_to(
                        &old(self).crossover,
                        old(samples)@[k],
                        num_bands as int,
                        gains,
                        #[trigger] &self.channel_states@[k],
                    ),
                mono_in == mono(old(samples)@, ch as int),
                mono_out == mono(outputs, ch as int),
        {
            let x: S = samples[ch];
            let wet = self.channel_states[ch].process(&self.crossover, x, num_bands, gains);
            let out = wet.mul(output_gain);
            samples[ch] = out;
            mono_in = mono_in.add(x);
            mono_out = mono_out.add(out);
        }
        assert(samples@ =~= outputs);
        (mono_in, mono_out)
    }

    /// Sends one sample of each channel through the plugin: `freqs` are the frequencies of the
    /// crossovers, `shapes` the shaping values of the bands, and `output_db` the output trim.
    /// Tells whether a new spectrum was published.
    ///
    /// `circle` gives the cosine and the sine of an angle, `db_to_gain` the gain for a level in
    /// dB, `fft` the absolute values of the bins of a frame, and `log10` the decimal logarithm.
    pub fn process_frame<
        C: Fn(S) -> Phasor<S>,
        G: Fn(S) -> S,
        F: Fn(Vec<S>) -> Vec<S>,
        L: Fn(S) -> S,
    >(
        &mut self,
        samples: &mut Vec<S>,
        freqs: &[S],
        shapes: &[S],
        output_db: S,
        circle: &C,
        db_to_gain: &G,
        fft: &F,
        log10: &L,
    ) -> (due: bool)
        requires
            old(self).wf(),
            old(samples)@.len() == old(self).channel_states@.len(),
            shapes@.len() <= MAX_BANDS,
            freqs@.len() == shapes@.len() - 1,
            total_on_angles(circle),
            forall|db: S| #[trigger] call_requires(db_to_gain, (db,)),
            transforms_frames(fft),
            forall|x: S| #[trigger] call_requires(log10, (x,)),
            !old(self).is_tuned_to(freqs@) ==> S::fraction(20, 1).upto(highest_corner(old(self).sample_rate)),
        ensures
            final(self).wf(),
            old(self).passes(
                (Frame { samples: old(samples)@, freqs: freqs@, shapes: shapes@, output_db }),
                final(samples)@,
                final(self),
                circle,
                db_to_gain,
                fft,
                log10,
            ),
            due == (old(samples)@.len() > 0 && final(self).analyzer.hop_counter == 0),
    {
        if self.retune_due(freqs) {
            self.retune(freqs, circle);
        }
        let output_gain: S = db_to_gain(output_db);
        let gains = Gains::new(shapes, db_to_gain);
        let ghost tuned = *self;
        let n: usize = samples.len();
        let (mono_in, mono_out) = self.send(samples, shapes.len(), &gains, output_gain);
        assert(old(self).sends_to(
            old(samples)@,
            shapes@.len() as int,
            &gains,
            output_gain,
            samples@,
            self,
        )) by {
            let same = MbTransient { crossover: self.crossover, ..*old(self) };
            assert(same.outputs(old(samples)@, shapes@.len() as int, &gains, output_gain)
                =~= tuned.outputs(old(samples)@, shapes@.len() as int, &gains, output_gain));
        }
        let mut due = false;
        if n > 0 {
            let inv = S::one().div(S::from_usize(n));
            due = self.analyzer.process(
                mono_in.mul(inv),
                mono_out.mul(inv),
                &mut self.spectrum,
                fft,
                log10,
            );
        }
        let ghost frame = Frame {
            samples: old(samples)@,
            freqs: freqs@,
            shapes: shapes@,
            output_db,
        };
        assert(old(self).sends_to(
            frame.samples,
            frame.shapes.len() as int,
            &gains,
            output_gain,
            samples@,
            self,
        ));
        assert(old(self).passes(frame, samples@, self, circle, db_to_gain, fft, log10));
        due
    }
}

/// What a channel makes of a sample after a reset does not depend on what it had heard before.
pub proof fn law_reset_forgets<S: Number>(
    a: &ChannelState<S>,
    b: &ChannelState<S>,
    crossover: &Crossover<S>,
    x: S,
    num_bands: int,
    gains: &Gains<S>,
    k: int,
)
    requires
        a.at_rest(),
        b.at_rest(),
        a.smooths_as(b),
        0 <= k <= num_bands <= MAX_BANDS,
    ensures
        a.wet(crossover, x, num_bands, gains, k) == b.wet(crossover, x, num_bands, gains, k),
    decreases k,
{
    if k > 0 {
        law_reset_forgets(a, b, crossover, x, num_bands, gains, k - 1);
        lemma_silent_states_agree(
            &a.crossover,
            &b.crossover,
            crossover,
            x,
            k - 1,
            splits(num_bands),
        );
        assert(a.shapers[k - 1].at_rest() && b.shapers[k - 1].at_rest());
        assert(a.shapers[k - 1] == b.shapers[k - 1]);
    }
}

proof fn lemma_silent_states_agree<S: Number>(
    a: &CrossoverState<S>,
    b: &CrossoverState<S>,
    crossover: &Crossover<S>,
    x: S,
    band: int,
    i: int,
)
    requires
        a.silent(),
        b.silent(),
        0 <= band < MAX_BANDS,
        i <= MAX_CROSSOVERS,
    ensures
        crossover.signal(a, x, band, i) == crossover.signal(b, x, band, i),
    decreases i,
{
    if i > 0 {
        lemma_silent_states_agree(a, b, crossover, x, band, i - 1);
        assert(a.section(band, i - 1) == b.section(band, i - 1));
    }
}

/// What the crossover of a channel makes of the sample `x`, in all the slots that there are for
/// bands.
spec fn split_up<S: Number>(
    channel: &ChannelState<S>,
    crossover: &Crossover<S>,
    x: S,
    num_bands: int,
) -> Seq<S> {
    Seq::new(
        MAX_BANDS as nat,
        |band: int|
            if band < num_bands {
                channel.split(crossover, x, num_bands, band)
            } else {
                S::nought()
            },
    )
}

/// All the bands that are in use are neutral: their gains are 1, and so are the gains that their
/// shapers have smoothed towards so far.
pub open spec fn neutral<S: Number>(channel: &ChannelState<S>, num_bands: int, gains: &Gains<S>) -> bool {
    forall|band: int|
        0 <= band < num_bands ==> {
            &&& (#[trigger] channel.shapers[band]).gain.value() == 1 as real
            &&& gains.attack[band].value() == 1 as real
            &&& gains.sustain[band].value() == 1 as real
        }
}

proof fn lemma_neutral_bands_add_up<S: Number>(
    channel: &ChannelState<S>,
    crossover: &Crossover<S>,
    x: S,
    num_bands: int,
    gains: &Gains<S>,
    k: int,
)
    requires
        exact::<S>(),
        neutral(channel, num_bands, gains),
        0 <= k <= num_bands <= MAX_BANDS,
    ensures
        channel.wet(crossover, x, num_bands, gains, k).value() == total(
            split_up(channel, crossover, x, num_bands),
            k,
        ),
    decreases k,
{
    if k > 0 {
        lemma_neutral_bands_add_up(channel, crossover, x, num_bands, gains, k - 1);
        law_neutral_shaper_passes_through(
            channel.shapers[k - 1],
            channel.split(crossover, x, num_bands, k - 1),
            gains.attack[k - 1],
            gains.sustain[k - 1],
        );
    }
}

proof fn lemma_empty_slots_add_nothing<S: Number>(
    channel: &ChannelState<S>,
    crossover: &Crossover<S>,
    x: S,
    num_bands: int,
    k: int,
)
    requires
        exact::<S>(),
        0 <= num_bands <= k <= MAX_BANDS,
    ensures
        total(split_up(channel, crossover, x, num_bands), k) == total(
            split_up(channel, crossover, x, num_bands),
            num_bands,
        ),
    decreases k,
{
    if k > num_bands {
        lemma_empty_slots_add_nothing(channel, crossover, x, num_bands, k - 1);
    }
}

/// With all its bands neutral, a channel gives out its input behind the all-pass sections of the
/// crossover and nothing else, if the arithmetic does not round; and its bands stay neutral.
pub proof fn law_neutral_channel_is_flat<S: Number>(
    channel: &ChannelState<S>,
    crossover: &Crossover<S>,
    xs: Seq<S>,
    x: S,
    num_bands: int,
    gains: &Gains<S>,
    after: &ChannelState<S>,
)
    requires
        exact::<S>(),
        1 <= num_bands <= MAX_BANDS,
        neutral(channel, num_bands, gains),
        has_heard(crossover, &channel.crossover, splits(num_bands), xs),
        forall|i: int| 0 <= i < splits(num_bands) ==> #[trigger] matched_at(crossover, i),
        channel.moves_to(crossover, x, num_bands, gains, after),
    ensures
        channel.wet(crossover, x, num_bands, gains, num_bands).value() == allpassed(
            crossover,
            samples(xs.push(x)),
            splits(num_bands),
        )(xs.len() as int),
        neutral(after, num_bands, gains),
        has_heard(crossover, &after.crossover, splits(num_bands), xs.push(x)),
{
    let out = split_up(channel, crossover, x, num_bands);
    assert(crossover.split(&channel.crossover, x, num_bands, &after.crossover, out));
    law_bands_follow_the_signal(
        crossover,
        &channel.crossover,
        xs,
        x,
        num_bands,
        &after.crossover,
        out,
    );
    law_bands_sum_to_allpass(
        crossover,
        &channel.crossover,
        xs,
        x,
        num_bands,
        &after.crossover,
        out,
    );
    lemma_neutral_bands_add_up(channel, crossover, x, num_bands, gains, num_bands);
    lemma_empty_slots_add_nothing(channel, crossover, x, num_bands, MAX_BANDS as int);
    assert forall|band: int| 0 <= band < num_bands implies (#[trigger] after.shapers[band]).gain.value()
        == 1 as real by {
        assert(channel.shapers[band].gain.value() == 1 as real);
        law_neutral_shaper_passes_through(
            channel.shapers[band],
            channel.split(crossover, x, num_bands, band),
            gains.attack[band],
            gains.sustain[band],
        );
    }
}

/// What `circle` gives for an angle lies on the unit circle.
pub open spec fn traces_the_circle<S: Number, C: Fn(S) -> Phasor<S>>(circle: &C) -> bool {
    forall|angle: S, at: Phasor<S>| #[trigger] call_ensures(circle, (angle,), at) ==> on_circle(at)
}

/// Where the plugin's crossover stands at `freqs`, it is matched at each of them, if the
/// arithmetic does not round.
pub proof fn law_crossed_plugin_is_matched<S: Number, C: Fn(S) -> Phasor<S>>(
    plugin: &MbTransient<S>,
    freqs: Seq<S>,
    circle: &C,
    i: int,
)
    requires
        exact::<S>(),
        rooted::<S>(),
        traces_the_circle(circle),
        plugin.crosses_at(freqs, circle),
        0 <= i < freqs.len(),
        i < MAX_CROSSOVERS,
    ensures
        matched_at(&plugin.crossover, i),
{
    let corners = choose|corners: Seq<Phasor<S>>|
        are_corners(corners, plugin.sample_rate, freqs, circle)
            && #[trigger] plugin.crossover.follows(corners);
    assert(is_corner(corners[i], plugin.sample_rate, freqs[i], circle));
    assert(plugin.crossover.tuned(i, corners[i]));
    law_tuned_crossovers_match(&plugin.crossover, i, corners[i]);
}

/// From frame to frame the crossover stands at its frequencies, wherever these move and however
/// many bands there are, and it is matched wherever two bands meet, if the arithmetic does not
/// round.
pub proof fn law_frames_keep_the_bands_matched<S: Number, C: Fn(S) -> Phasor<S>>(
    before: &MbTransient<S>,
    freqs: Seq<S>,
    circle: &C,
    after: &MbTransient<S>,
)
    requires
        exact::<S>(),
        rooted::<S>(),
        traces_the_circle(circle),
        before.stands(circle),
        before.tunes_to(freqs, circle, after),
        after.sample_rate == before.sample_rate,
        freqs.len() <= MAX_CROSSOVERS,
    ensures
        after.stands(circle),
        forall|i: int| 0 <= i < freqs.len() ==> #[trigger] matched_at(&after.crossover, i),
{
    if before.is_tuned_to(freqs) {
        let last = before.last_crossover_freqs@.take(before.tuned as int);
        let corners = choose|corners: Seq<Phasor<S>>|
            are_corners(corners, before.sample_rate, last, circle)
                && #[trigger] before.crossover.follows(corners);
        assert(after.crossover.follows(corners));
    } else {
        assert(after.last_crossover_freqs@.take(after.tuned as int) =~= freqs);
    }
    assert forall|i: int| 0 <= i < freqs.len() implies #[trigger] matched_at(&after.crossover, i) by {
        law_crossed_plugin_is_matched(
            after,
            after.last_crossover_freqs@.take(after.tuned as int),
            circle,
            i,
        );
    }
}

/// A channel at rest has heard nothing, and it is neutral where its gains are, if the arithmetic
/// does not round.
pub proof fn law_channels_at_rest_are_neutral<S: Number>(
    channel: &ChannelState<S>,
    crossover: &Crossover<S>,
    num_bands: int,
    gains: &Gains<S>,
)
    requires
        exact::<S>(),
        channel.at_rest(),
        1 <= num_bands <= MAX_BANDS,
        forall|band: int|
            0 <= band < num_bands ==> (#[trigger] gains.attack[band]).value() == 1 as real,
        forall|band: int|
            0 <= band < num_bands ==> (#[trigger] gains.sustain[band]).value() == 1 as real,
    ensures
        neutral(channel, num_bands, gains),
        has_heard(crossover, &channel.crossover, splits(num_bands), Seq::empty()),
{
    law_reset_has_heard_nothing(crossover, &channel.crossover, splits(num_bands));
    assert forall|band: int| 0 <= band < num_bands implies {
        &&& (#[trigger] channel.shapers[band]).gain.value() == 1 as real
        &&& gains.attack[band].value() == 1 as real
        &&& gains.sustain[band].value() == 1 as real
    } by {
        assert(channel.shapers[band].at_rest());
    }
}

/// The plugin recombines its bands flat: with all of them neutral and with its crossover where it
/// was, however many bands there are, it gives out on each channel what came in, behind the
/// all-pass sections of the crossover and at the output level, if the arithmetic does not round.
pub proof fn law_neutral_plugin_is_flat<S: Number, C: Fn(S) -> Phasor<S>>(
    plugin: &MbTransient<S>,
    frame: Frame<S>,
    circle: &C,
    gains: &Gains<S>,
    output_gain: S,
    outputs: Seq<S>,
    after: &MbTransient<S>,
    ch: int,
    xs: Seq<S>,
)
    requires
        exact::<S>(),
        rooted::<S>(),
        traces_the_circle(circle),
        plugin.stands(circle),
        plugin.tunes_to(frame.freqs, circle, after),
        after.sample_rate == plugin.sample_rate,
        1 <= frame.shapes.len() <= MAX_BANDS,
        frame.freqs.len() == frame.shapes.len() - 1,
        0 <= ch < frame.samples.len() == plugin.channel_states@.len(),
        plugin.sends_to(
            frame.samples,
            frame.shapes.len() as int,
            gains,
            output_gain,
            outputs,
            after,
        ),
        neutral(&plugin.channel_states@[ch], frame.shapes.len() as int, gains),
        has_heard(
            &after.crossover,
            &plugin.channel_states@[ch].crossover,
            frame.freqs.len() as int,
            xs,
        ),
    ensures
        outputs[ch].value() == allpassed(
            &after.crossover,
            samples(xs.push(frame.samples[ch])),
            frame.freqs.len() as int,
        )(xs.len() as int) * output_gain.value(),
        neutral(&after.channel_states@[ch], frame.shapes.len() as int, gains),
        has_heard(
            &after.crossover,
            &after.channel_states@[ch].crossover,
            frame.freqs.len() as int,
            xs.push(frame.samples[ch]),
        ),
        after.stands(circle),
{
    law_frames_keep_the_bands_matched(plugin, frame.freqs, circle, after);
    law_neutral_channel_is_flat(
        &plugin.channel_states@[ch],
        &after.crossover,
        xs,
        frame.samples[ch],
        frame.shapes.len() as int,
        gains,
        &after.channel_states@[ch],
    );
}

} // verus!
