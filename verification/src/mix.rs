//! How the plugin mixes: the gains of its bands, their sum, and what the analyzer hears of it.
use vstd::prelude::*;

use crate::algebra::lemma_undivide;
use crate::biquad::Phasor;
use crate::crossover::{Crossover, MAX_BANDS};
use crate::envelope::{law_smoothers_take_their_time, law_target_crossfades};
use crate::flat::total;
use crate::plugin::{
    mono, mono_level, shape_db_of, ChannelState, Frame, Gains, MbTransient,
};
use crate::scalar::{exact, ordered, Number};
use crate::shaper::{are_decays, exponents_of, Decays};

verus! {

// ---- gains ----

/// The shaping value sweeps from the attack cut by 45 dB at -1, through both at 0 dB, to the
/// sustain cut by 45 dB at 1, in proportion. This holds if the arithmetic does not round.
pub proof fn law_shapes_sweep_the_gains<S: Number>(p: S)
    requires
        exact::<S>(),
        ordered::<S>(),
    ensures
        p.value() <= 0 as real ==> shape_db_of(p).0.value() == 45 as real * p.value()
            && shape_db_of(p).1.value() == 0 as real,
        p.value() >= 0 as real ==> shape_db_of(p).0.value() == 0 as real
            && shape_db_of(p).1.value() == -(45 as real * p.value()),
{
    let (v, cut) = (p.value(), S::fraction(45, 1).value());
    assert(cut == 45 as real);
    assert(v * cut == 45 as real * v && -v * cut == -(45 as real * v)) by (nonlinear_arith)
        requires
            cut == 45 as real,
    ;
}

/// Of each band that is in use, the shaping value decides both gains: below 0 it cuts the attack by
/// 45 dB for each unit and leaves the sustain at 0 dB, and above 0 it is the other way round. This
/// holds if the arithmetic does not round.
pub proof fn law_gains_follow_the_shapes<S: Number, G: Fn(S) -> S>(
    gains: &Gains<S>,
    shapes: Seq<S>,
    db_to_gain: &G,
    band: int,
)
    requires
        exact::<S>(),
        ordered::<S>(),
        gains.made_for(shapes, db_to_gain),
        0 <= band < shapes.len() <= MAX_BANDS,
    ensures
        exists|db: S| #[trigger]
            call_ensures(db_to_gain, (db,), gains.attack[band]) && db.value() == if shapes[band].value()
                <= 0 as real {
                45 as real * shapes[band].value()
            } else {
                0 as real
            },
        exists|db: S| #[trigger]
            call_ensures(db_to_gain, (db,), gains.sustain[band]) && db.value()
                == if shapes[band].value() <= 0 as real {
                0 as real
            } else {
                -(45 as real * shapes[band].value())
            },
{
    law_shapes_sweep_the_gains(shapes[band]);
    let (a, s) = shape_db_of(shapes[band]);
    assert(call_ensures(db_to_gain, (a,), gains.attack[band]));
    assert(call_ensures(db_to_gain, (s,), gains.sustain[band]));
}

/// Each band is shaped by its own gains: where nothing of its signal is an attack, the gain of its
/// shaper moves towards the sustain gain of this band, and where all of it is, towards its attack
/// gain. The shapers of bands that are not in use stay as they are. This holds if the arithmetic
/// does not round.
pub proof fn law_bands_have_their_own_gains<S: Number>(
    channel: &ChannelState<S>,
    crossover: &Crossover<S>,
    x: S,
    num_bands: int,
    gains: &Gains<S>,
    after: &ChannelState<S>,
    band: int,
)
    requires
        exact::<S>(),
        channel.moves_to(crossover, x, num_bands, gains, after),
        0 <= band < MAX_BANDS,
    ensures
        ({
            let shaper = channel.shapers[band];
            let f = shaper.attack_fraction(channel.split(crossover, x, num_bands, band)).value();
            let moved = after.shapers[band].gain.value() - shaper.gain.value();
            let (a, s) = (gains.attack[band].value(), gains.sustain[band].value());
            &&& band < num_bands && f == 0 as real ==> moved == shaper.gain_coef.value() * (s
                - shaper.gain.value())
            &&& band < num_bands && f == 1 as real ==> moved == shaper.gain_coef.value() * (a
                - shaper.gain.value())
            &&& band >= num_bands ==> after.shapers[band] == shaper
        }),
{
    law_target_crossfades(
        channel.shapers[band],
        channel.split(crossover, x, num_bands, band),
        gains.attack[band],
        gains.sustain[band],
    );
}

// ---- sums ----

/// What the shapers of the first `k` bands give out for the sample `x`.
pub open spec fn shaped_bands<S: Number>(
    channel: &ChannelState<S>,
    crossover: &Crossover<S>,
    x: S,
    num_bands: int,
    gains: &Gains<S>,
    k: nat,
) -> Seq<S> {
    Seq::new(
        k,
        |band: int|
            channel.shapers[band].shaped(
                channel.split(crossover, x, num_bands, band),
                gains.attack[band],
                gains.sustain[band],
            ),
    )
}

/// A channel gives out the sum of what the shapers of its bands give out, if the arithmetic does not
/// round.
pub proof fn law_channels_add_up_their_bands<S: Number>(
    channel: &ChannelState<S>,
    crossover: &Crossover<S>,
    x: S,
    num_bands: int,
    gains: &Gains<S>,
    k: nat,
)
    requires
        exact::<S>(),
        k <= num_bands <= MAX_BANDS,
    ensures
        channel.wet(crossover, x, num_bands, gains, k as int).value() == total(
            shaped_bands(channel, crossover, x, num_bands, gains, k),
            k as int,
        ),
    decreases k,
{
    if k > 0 {
        let m = (k - 1) as nat;
        law_channels_add_up_their_bands(channel, crossover, x, num_bands, gains, m);
        lemma_totals_agree(
            shaped_bands(channel, crossover, x, num_bands, gains, m),
            shaped_bands(channel, crossover, x, num_bands, gains, k),
            m as int,
        );
    }
}

proof fn lemma_totals_agree<S: Number>(a: Seq<S>, b: Seq<S>, n: int)
    requires
        n <= a.len(),
        n <= b.len(),
        forall|i: int| 0 <= i < n ==> #[trigger] a[i] == b[i],
    ensures
        total(a, n) == total(b, n),
    decreases n,
{
    if n > 0 {
        lemma_totals_agree(a, b, n - 1);
    }
}

/// The output trim scales what comes out of every channel, and nothing else: at 0 gain there is
/// silence, and at twice the gain it is twice as loud. This holds if the arithmetic does not round.
pub proof fn law_the_trim_scales_the_output<S: Number>(
    plugin: &MbTransient<S>,
    samples: Seq<S>,
    num_bands: int,
    gains: &Gains<S>,
    trim: S,
    other: S,
    ch: int,
)
    requires
        exact::<S>(),
        0 <= ch < samples.len(),
    ensures
        plugin.outputs(samples, num_bands, gains, trim).len() == samples.len(),
        plugin.outputs(samples, num_bands, gains, trim)[ch].value() * other.value()
            == plugin.outputs(samples, num_bands, gains, other)[ch].value() * trim.value(),
        trim.value() == 1 as real ==> plugin.outputs(samples, num_bands, gains, trim)[ch].value()
            == plugin.channel_states@[ch].wet(
            &plugin.crossover,
            samples[ch],
            num_bands,
            gains,
            num_bands,
        ).value(),
{
    let w = plugin.channel_states@[ch].wet(
        &plugin.crossover,
        samples[ch],
        num_bands,
        gains,
        num_bands,
    ).value();
    let (p, q) = (trim.value(), other.value());
    assert((w * p) * q == (w * q) * p) by (nonlinear_arith);
    assert(p == 1 as real ==> w * p == w) by (nonlinear_arith);
}

// ---- what the analyzer hears ----

proof fn lemma_mono_is_the_sum<S: Number>(samples: Seq<S>, n: int)
    requires
        exact::<S>(),
        n <= samples.len(),
    ensures
        mono(samples, n).value() == total(samples, n),
    decreases n,
{
    if n > 0 {
        lemma_mono_is_the_sum(samples, n - 1);
    }
}

/// What is heard of a frame is the mean of its channels: times their number it is their sum, if the
/// arithmetic does not round.
pub proof fn law_mono_is_the_mean<S: Number>(samples: Seq<S>)
    requires
        exact::<S>(),
        samples.len() > 0,
    ensures
        mono_level(samples, samples.len() as int).value() * samples.len() as real == total(
            samples,
            samples.len() as int,
        ),
{
    let (n, count) = (samples.len() as real, samples.len() as int);
    lemma_mono_is_the_sum(samples, count);
    lemma_undivide(1 as real, n);
    let (t, q) = (total(samples, count), 1 as real / n);
    assert(S::count(samples.len()).value() == n);
    assert((t * q) * n == t * (q * n)) by (nonlinear_arith);
    assert(t * (1 as real) == t);
}

/// A frame whose channels are all the same is heard as one of them, whatever their number, if the
/// arithmetic does not round.
pub proof fn law_equal_channels_are_heard_as_one<S: Number>(samples: Seq<S>, x: real)
    requires
        exact::<S>(),
        samples.len() > 0,
        forall|ch: int| 0 <= ch < samples.len() ==> (#[trigger] samples[ch]).value() == x,
    ensures
        mono_level(samples, samples.len() as int).value() == x,
{
    law_mono_is_the_mean(samples);
    lemma_total_of_equals(samples, x, samples.len() as int);
    let (m, n) = (
        mono_level(samples, samples.len() as int).value(),
        samples.len() as real,
    );
    assert(m == x) by (nonlinear_arith)
        requires
            m * n == n * x,
            n > 0 as real,
    ;
}

proof fn lemma_total_of_equals<S: Number>(samples: Seq<S>, x: real, n: int)
    requires
        0 <= n <= samples.len(),
        forall|ch: int| 0 <= ch < samples.len() ==> (#[trigger] samples[ch]).value() == x,
    ensures
        total(samples, n) == n as real * x,
    decreases n,
{
    if n > 0 {
        lemma_total_of_equals(samples, x, n - 1);
        let m = (n - 1) as real;
        assert(m * x + x == (m + 1 as real) * x) by (nonlinear_arith);
        assert(m + 1 as real == n as real);
    } else {
        assert(0 as real * x == 0 as real) by (nonlinear_arith);
    }
}

/// With every frame the analyzer takes in one sample of each spectrum: of the input the mean of what
/// came in on the channels, and of the output the mean of what went out, if the arithmetic does not
/// round.
pub proof fn law_the_analyzer_hears_the_mean<
    S: Number,
    C: Fn(S) -> Phasor<S>,
    G: Fn(S) -> S,
    F: Fn(Vec<S>) -> Vec<S>,
    L: Fn(S) -> S,
>(
    before: &MbTransient<S>,
    frame: Frame<S>,
    outputs: Seq<S>,
    after: &MbTransient<S>,
    circle: &C,
    db_to_gain: &G,
    fft: &F,
    log10: &L,
)
    requires
        exact::<S>(),
        before.wf(),
        before.passes(frame, outputs, after, circle, db_to_gain, fft, log10),
        frame.samples.len() > 0,
    ensures
        outputs.len() == frame.samples.len(),
        after.analyzer.input_history().last().value() * frame.samples.len() as real == total(
            frame.samples,
            frame.samples.len() as int,
        ),
        after.analyzer.output_history().last().value() * frame.samples.len() as real == total(
            outputs,
            frame.samples.len() as int,
        ),
{
    let n = frame.samples.len() as int;
    let (gains, gain) = choose|gains: &Gains<S>, gain: S|
        #![trigger before.sends_to(frame.samples, frame.shapes.len() as int, gains, gain, outputs, after)]
        gains.made_for(frame.shapes, db_to_gain) && call_ensures(
            db_to_gain,
            (frame.output_db,),
            gain,
        ) && before.sends_to(
            frame.samples,
            frame.shapes.len() as int,
            gains,
            gain,
            outputs,
            after,
        );
    assert(outputs.len() == n);
    law_mono_is_the_mean(frame.samples);
    law_mono_is_the_mean(outputs);
    let (x, y) = (mono_level(frame.samples, n), mono_level(outputs, n));
    assert(after.analyzer.input_history() == before.analyzer.input_history().drop_first().push(x));
    assert(after.analyzer.output_history() == before.analyzer.output_history().drop_first().push(y));
}

// ---- blocks ----

/// Another number of channels or of bands means a fresh start: all that was heard is forgotten.
/// Otherwise nothing is.
pub proof fn law_a_new_layout_starts_afresh<S: Number, E: Fn(S) -> S>(
    plugin: &MbTransient<S>,
    num_channels: usize,
    num_bands: i32,
    speed_ms: S,
    exp: &E,
    after: &MbTransient<S>,
    ch: int,
    band: int,
)
    requires
        plugin.prepares(num_channels, num_bands, speed_ms, exp, after),
        0 <= ch < num_channels,
        0 <= band < MAX_BANDS,
    ensures
        after.channel_states@.len() == num_channels,
        after.last_num_bands == num_bands,
        num_bands != plugin.last_num_bands ==> after.at_rest(),
        num_channels != plugin.channel_states@.len() ==> after.at_rest(),
        num_bands == plugin.last_num_bands && num_channels == plugin.channel_states@.len() ==> {
            let (p, q) = (plugin.channel_states@[ch], after.channel_states@[ch]);
            &&& q.crossover == p.crossover
            &&& q.shapers[band].env == p.shapers[band].env
            &&& q.shapers[band].body == p.shapers[band].body
            &&& q.shapers[band].gain == p.shapers[band].gain
            &&& after.analyzer == plugin.analyzer
        },
{
    if num_bands == plugin.last_num_bands && num_channels == plugin.channel_states@.len() {
        assert(after.channel_states@[ch].shapers[band].sounds_as(
            plugin.channel_states@[ch].shapers[band],
        ));
        assert(after.channel_states@[ch].crossover == plugin.channel_states@[ch].crossover);
    }
}

/// Every shaper of every channel recovers in the time that the speed says: what its fast envelope
/// keeps from one sample to the next is the exponential of an exponent that comes to -1 over that
/// time, if the arithmetic does not round.
pub proof fn law_all_shapers_recover_in_time<S: Number, E: Fn(S) -> S>(
    plugin: &MbTransient<S>,
    num_channels: usize,
    num_bands: i32,
    speed_ms: S,
    exp: &E,
    after: &MbTransient<S>,
    ch: int,
    band: int,
)
    requires
        exact::<S>(),
        ordered::<S>(),
        plugin.sample_rate.value() >= 1 as real,
        speed_ms.value() >= 2 as real,
        plugin.prepares(num_channels, num_bands, speed_ms, exp, after),
        0 <= ch < num_channels,
        0 <= band < MAX_BANDS,
    ensures
        exists|e: S| #[trigger]
            call_ensures(exp, (e,), after.channel_states@[ch].shapers[band].release_coef) && e.value() * (
            plugin.sample_rate.value() * speed_ms.value()) == -(1000 as real),
{
    let d = choose|d: Decays<S>| #[trigger]
        are_decays(d, plugin.sample_rate, speed_ms, exp) && after.smooths_with(d);
    law_smoothers_take_their_time(plugin.sample_rate, speed_ms);
    let shaper = after.channel_states@[ch].shapers[band];
    assert(shaper == shaper.smoothing(d));
    let e = exponents_of(plugin.sample_rate, speed_ms).release;
    assert(call_ensures(exp, (e,), shaper.release_coef));
}

} // verus!
