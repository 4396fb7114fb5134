//! What becomes of whole runs of frames.
use vstd::prelude::*;

use crate::biquad::Phasor;
#[allow(unused_imports)]
use crate::crossover::{law_update_is_as_new, Crossover, CrossoverState};
#[allow(unused_imports)]
use crate::crossover::{MAX_BANDS, MAX_CROSSOVERS};
#[allow(unused_imports)]
use crate::flat::{allpassed, has_heard, law_reset_has_heard_nothing, matched_at, samples};
use crate::plugin::{ChannelState, Frame, Gains, MbTransient};
#[allow(unused_imports)]
use crate::plugin::{
    law_frames_keep_the_bands_matched, law_neutral_plugin_is_flat, mono_level, neutral, shape_db_of, traces_the_circle,
};
#[allow(unused_imports)]
use crate::scalar::{exact, is_function, ordered, rooted, Number};
use crate::shaper::Decays;
#[allow(unused_imports)]
use crate::shaper::are_decays;
#[allow(unused_imports)]
use crate::spectrum::{is_transform, law_the_slot_does_not_matter, transforms_frames};

verus! {

impl<S> Frame<S> {
    /// The frame is one for `plugin`: a sample for each channel, and a frequency wherever two bands
    /// meet.
    pub open spec fn fits(&self, plugin: &MbTransient<S>) -> bool {
        &&& self.samples.len() == plugin.channel_states@.len()
        &&& self.shapes.len() <= MAX_BANDS
        &&& self.freqs.len() == self.shapes.len() - 1
    }
}

/// The plugin goes through `states` as `frames` come in and go out as `outs`.
pub open spec fn runs<
    S: Number,
    C: Fn(S) -> Phasor<S>,
    G: Fn(S) -> S,
    F: Fn(Vec<S>) -> Vec<S>,
    L: Fn(S) -> S,
>(
    states: Seq<MbTransient<S>>,
    frames: Seq<Frame<S>>,
    outs: Seq<Seq<S>>,
    circle: &C,
    db_to_gain: &G,
    fft: &F,
    log10: &L,
) -> bool {
    &&& states.len() == frames.len() + 1
    &&& outs.len() == frames.len()
    &&& forall|k: int|
        0 <= k < frames.len() ==> {
            &&& (#[trigger] frames[k]).fits(&states[k])
            &&& states[k].passes(
                frames[k],
                outs[k],
                &states[k + 1],
                circle,
                db_to_gain,
                fft,
                log10,
            )
        }
}

// ---- what a frame depends on ----

proof fn lemma_same_tuning<S: Number, C: Fn(S) -> Phasor<S>>(
    a: &MbTransient<S>,
    b: &MbTransient<S>,
    freqs: Seq<S>,
    circle: &C,
    a_after: &MbTransient<S>,
    b_after: &MbTransient<S>,
)
    requires
        is_function(circle),
        a.crosses_as(b),
        a.tunes_to(freqs, circle, a_after),
        b.tunes_to(freqs, circle, b_after),
        a_after.sample_rate == a.sample_rate,
        b_after.sample_rate == b.sample_rate,
    ensures
        a_after.crosses_as(b_after),
{
    if !a.is_tuned_to(freqs) {
        law_update_is_as_new(
            &a_after.crossover,
            &b_after.crossover,
            a_after.sample_rate,
            freqs,
            circle,
        );
        assert(a_after.last_crossover_freqs =~= b_after.last_crossover_freqs) by {
            assert forall|i: int| 0 <= i < MAX_CROSSOVERS implies a_after.last_crossover_freqs[i]
                == b_after.last_crossover_freqs[i] by {
                assert(a_after.last_crossover_freqs@[i] == b_after.last_crossover_freqs@[i]);
            }
        }
    }
}

proof fn lemma_same_shapes_same_gains<S: Number, G: Fn(S) -> S>(
    a: &Gains<S>,
    b: &Gains<S>,
    shapes: Seq<S>,
    db_to_gain: &G,
)
    requires
        is_function(db_to_gain),
        a.made_for(shapes, db_to_gain),
        b.made_for(shapes, db_to_gain),
    ensures
        *a == *b,
{
    assert(a.attack =~= b.attack);
    assert(a.sustain =~= b.sustain);
}

proof fn lemma_same_sample_same_state<S: Number>(
    channel: &ChannelState<S>,
    crossover: &Crossover<S>,
    x: S,
    num_bands: int,
    gains: &Gains<S>,
    a: &ChannelState<S>,
    b: &ChannelState<S>,
)
    requires
        channel.moves_to(crossover, x, num_bands, gains, a),
        channel.moves_to(crossover, x, num_bands, gains, b),
    ensures
        *a == *b,
{
    lemma_same_sections_same_state(&a.crossover, &b.crossover);
    assert(a.shapers =~= b.shapers);
}

proof fn lemma_same_sections_same_state<S: Number>(a: &CrossoverState<S>, b: &CrossoverState<S>)
    requires
        forall|band: int, i: int|
            0 <= band < MAX_BANDS && 0 <= i < MAX_CROSSOVERS ==> #[trigger] a.section(band, i)
                == b.section(band, i),
    ensures
        *a == *b,
{
    assert forall|band: int| 0 <= band < MAX_BANDS implies a.sections[band] == b.sections[band] by {
        assert forall|i: int| 0 <= i < MAX_CROSSOVERS implies a.sections[band][i]
            == b.sections[band][i] by {
            assert(a.section(band, i) == b.section(band, i));
            assert forall|k: int| 0 <= k < 2 implies a.sections[band][i][k] == b.sections[band][i][k] by {
                assert(a.section(band, i)[k] == b.section(band, i)[k]);
            }
            assert(a.sections[band][i] =~= b.sections[band][i]);
        }
        assert(a.sections[band] =~= b.sections[band]);
    }
    assert(a.sections =~= b.sections);
}

// ---- channels ----

impl<S: Number> MbTransient<S> {
    /// The crossover is that of `other`, and so is what decides when it is built anew.
    pub open spec fn crosses_as(&self, other: &Self) -> bool {
        &&& self.sample_rate == other.sample_rate
        &&& self.crossover == other.crossover
        &&& self.last_crossover_freqs == other.last_crossover_freqs
        &&& self.tuned == other.tuned
    }

    /// The crossover and the channel `ch` are those of `other`.
    pub open spec fn shares_channel(&self, other: &Self, ch: int) -> bool {
        &&& self.crosses_as(other)
        &&& self.channel_states@.len() == other.channel_states@.len()
        &&& self.channel_states@[ch] == other.channel_states@[ch]
    }

    /// Everything is as in `other`.
    pub open spec fn matches(&self, other: &Self) -> bool {
        &&& self.crosses_as(other)
        &&& self.last_num_bands == other.last_num_bands
        &&& self.channel_states@ == other.channel_states@
        &&& self.analyzer.agrees_with(&other.analyzer)
        &&& self.analyzer.ring_pos == other.analyzer.ring_pos
        &&& self.spectrum.sample_rate == other.spectrum.sample_rate
        &&& self.spectrum.input@ == other.spectrum.input@
        &&& self.spectrum.output@ == other.spectrum.output@
    }
}

/// What a channel gives out for a frame, and what it keeps, depends on that channel alone: other
/// channels do not disturb it.
pub proof fn law_channels_do_not_disturb_each_other<
    S: Number,
    C: Fn(S) -> Phasor<S>,
    G: Fn(S) -> S,
    F: Fn(Vec<S>) -> Vec<S>,
    L: Fn(S) -> S,
>(
    a: &MbTransient<S>,
    b: &MbTransient<S>,
    a_frame: Frame<S>,
    b_frame: Frame<S>,
    a_out: Seq<S>,
    b_out: Seq<S>,
    a_after: &MbTransient<S>,
    b_after: &MbTransient<S>,
    circle: &C,
    db_to_gain: &G,
    fft: &F,
    log10: &L,
    ch: int,
)
    requires
        is_function(circle),
        is_function(db_to_gain),
        a.shares_channel(b, ch),
        a_frame.fits(a),
        b_frame.fits(b),
        0 <= ch < a_frame.samples.len(),
        a_frame.samples[ch] == b_frame.samples[ch],
        a_frame.freqs == b_frame.freqs,
        a_frame.shapes == b_frame.shapes,
        a_frame.output_db == b_frame.output_db,
        a.passes(a_frame, a_out, a_after, circle, db_to_gain, fft, log10),
        b.passes(b_frame, b_out, b_after, circle, db_to_gain, fft, log10),
    ensures
        a_out.len() == b_out.len() == a_frame.samples.len(),
        a_out[ch] == b_out[ch],
        a_after.shares_channel(b_after, ch),
{
    let n = a_frame.shapes.len() as int;
    let (p, a_gain) = choose|gains: &Gains<S>, output_gain: S|
        #![trigger a.sends_to(a_frame.samples, n, gains, output_gain, a_out, a_after)]
        gains.made_for(a_frame.shapes, db_to_gain) && call_ensures(
            db_to_gain,
            (a_frame.output_db,),
            output_gain,
        ) && a.sends_to(a_frame.samples, n, gains, output_gain, a_out, a_after);
    let (q, b_gain) = choose|gains: &Gains<S>, output_gain: S|
        #![trigger b.sends_to(b_frame.samples, n, gains, output_gain, b_out, b_after)]
        gains.made_for(b_frame.shapes, db_to_gain) && call_ensures(
            db_to_gain,
            (b_frame.output_db,),
            output_gain,
        ) && b.sends_to(b_frame.samples, n, gains, output_gain, b_out, b_after);
    lemma_same_shapes_same_gains(p, q, a_frame.shapes, db_to_gain);
    lemma_same_tuning(a, b, a_frame.freqs, circle, a_after, b_after);
    lemma_same_sample_same_state(
        &a.channel_states@[ch],
        &a_after.crossover,
        a_frame.samples[ch],
        n,
        p,
        &a_after.channel_states@[ch],
        &b_after.channel_states@[ch],
    );
}

/// The same holds of whole runs: as long as a channel hears the same, it sounds the same, whatever
/// the other channels hear.
pub proof fn law_channels_run_by_themselves<
    S: Number,
    C: Fn(S) -> Phasor<S>,
    G: Fn(S) -> S,
    F: Fn(Vec<S>) -> Vec<S>,
    L: Fn(S) -> S,
>(
    a: Seq<MbTransient<S>>,
    b: Seq<MbTransient<S>>,
    a_frames: Seq<Frame<S>>,
    b_frames: Seq<Frame<S>>,
    a_outs: Seq<Seq<S>>,
    b_outs: Seq<Seq<S>>,
    circle: &C,
    db_to_gain: &G,
    fft: &F,
    log10: &L,
    ch: int,
    m: int,
)
    requires
        is_function(circle),
        is_function(db_to_gain),
        runs(a, a_frames, a_outs, circle, db_to_gain, fft, log10),
        runs(b, b_frames, b_outs, circle, db_to_gain, fft, log10),
        a_frames.len() == b_frames.len(),
        a[0].shares_channel(&b[0], ch),
        0 <= ch < a[0].channel_states@.len(),
        forall|k: int|
            #![trigger a_frames[k]]
            #![trigger b_frames[k]]
            0 <= k < a_frames.len() ==> {
                &&& a_frames[k].samples[ch] == b_frames[k].samples[ch]
                &&& a_frames[k].freqs == b_frames[k].freqs
                &&& a_frames[k].shapes == b_frames[k].shapes
                &&& a_frames[k].output_db == b_frames[k].output_db
            },
        0 <= m <= a_frames.len(),
    ensures
        a[m].shares_channel(&b[m], ch),
        a[m].channel_states@.len() == a[0].channel_states@.len(),
        forall|k: int| 0 <= k < m ==> #[trigger] a_outs[k][ch] == b_outs[k][ch],
    decreases m,
{
    if m > 0 {
        law_channels_run_by_themselves(
            a,
            b,
            a_frames,
            b_frames,
            a_outs,
            b_outs,
            circle,
            db_to_gain,
            fft,
            log10,
            ch,
            m - 1,
        );
        assert(a_frames[m - 1].fits(&a[m - 1]));
        assert(b_frames[m - 1].fits(&b[m - 1]));
        law_channels_do_not_disturb_each_other(
            &a[m - 1],
            &b[m - 1],
            a_frames[m - 1],
            b_frames[m - 1],
            a_outs[m - 1],
            b_outs[m - 1],
            &a[m],
            &b[m],
            circle,
            db_to_gain,
            fft,
            log10,
            ch,
        );
    }
}

// ---- blocks ----

/// A frame leaves nothing open: from the same state the same frame comes out the same, and leaves
/// the same state behind.
pub proof fn law_frames_leave_nothing_open<
    S: Number,
    C: Fn(S) -> Phasor<S>,
    G: Fn(S) -> S,
    F: Fn(Vec<S>) -> Vec<S>,
    L: Fn(S) -> S,
>(
    a: &MbTransient<S>,
    b: &MbTransient<S>,
    frame: Frame<S>,
    a_out: Seq<S>,
    b_out: Seq<S>,
    a_after: &MbTransient<S>,
    b_after: &MbTransient<S>,
    circle: &C,
    db_to_gain: &G,
    fft: &F,
    log10: &L,
)
    requires
        is_function(circle),
        is_function(db_to_gain),
        transforms_frames(fft),
        is_transform(fft),
        is_function(log10),
        a.wf(),
        b.wf(),
        a.matches(b),
        frame.fits(a),
        a.passes(frame, a_out, a_after, circle, db_to_gain, fft, log10),
        b.passes(frame, b_out, b_after, circle, db_to_gain, fft, log10),
    ensures
        a_out == b_out,
        a_after.wf(),
        b_after.wf(),
        a_after.matches(b_after),
        a_after.channel_states@.len() == a.channel_states@.len(),
{
    let n = frame.samples.len() as int;
    assert(a_out.len() == n && b_out.len() == n);
    assert forall|ch: int|
        #![trigger a_out[ch]]
        #![trigger a_after.channel_states@[ch]]
        0 <= ch < n implies a_out[ch] == b_out[ch] && a_after.channel_states@[ch]
        == b_after.channel_states@[ch] by {
        law_channels_do_not_disturb_each_other(
            a,
            b,
            frame,
            frame,
            a_out,
            b_out,
            a_after,
            b_after,
            circle,
            db_to_gain,
            fft,
            log10,
            ch,
        );
    }
    assert(a_out =~= b_out);
    assert(a_after.channel_states@ =~= b_after.channel_states@);
    lemma_same_tuning(a, b, frame.freqs, circle, a_after, b_after);
    if n > 0 {
        law_the_slot_does_not_matter(
            &a.analyzer,
            &b.analyzer,
            mono_level(frame.samples, n),
            mono_level(a_out, n),
            &a.spectrum,
            &b.spectrum,
            &a_after.analyzer,
            &b_after.analyzer,
            &a_after.spectrum,
            &b_after.spectrum,
            fft,
            log10,
        );
    }
}

proof fn lemma_runs_leave_nothing_open<
    S: Number,
    C: Fn(S) -> Phasor<S>,
    G: Fn(S) -> S,
    F: Fn(Vec<S>) -> Vec<S>,
    L: Fn(S) -> S,
>(
    a: Seq<MbTransient<S>>,
    b: Seq<MbTransient<S>>,
    frames: Seq<Frame<S>>,
    a_outs: Seq<Seq<S>>,
    b_outs: Seq<Seq<S>>,
    circle: &C,
    db_to_gain: &G,
    fft: &F,
    log10: &L,
    m: int,
)
    requires
        is_function(circle),
        is_function(db_to_gain),
        transforms_frames(fft),
        is_transform(fft),
        is_function(log10),
        runs(a, frames, a_outs, circle, db_to_gain, fft, log10),
        runs(b, frames, b_outs, circle, db_to_gain, fft, log10),
        a[0].wf(),
        b[0].wf(),
        a[0].matches(&b[0]),
        0 <= m <= frames.len(),
    ensures
        a[m].wf(),
        b[m].wf(),
        a[m].matches(&b[m]),
        forall|k: int| 0 <= k < m ==> #[trigger] a_outs[k] == b_outs[k],
    decreases m,
{
    if m > 0 {
        lemma_runs_leave_nothing_open(
            a,
            b,
            frames,
            a_outs,
            b_outs,
            circle,
            db_to_gain,
            fft,
            log10,
            m - 1,
        );
        assert(frames[m - 1].fits(&a[m - 1]));
        law_frames_leave_nothing_open(
            &a[m - 1],
            &b[m - 1],
            frames[m - 1],
            a_outs[m - 1],
            b_outs[m - 1],
            &a[m],
            &b[m],
            circle,
            db_to_gain,
            fft,
            log10,
        );
    }
}

proof fn lemma_frames_keep_the_smoothing<
    S: Number,
    C: Fn(S) -> Phasor<S>,
    G: Fn(S) -> S,
    F: Fn(Vec<S>) -> Vec<S>,
    L: Fn(S) -> S,
>(
    states: Seq<MbTransient<S>>,
    frames: Seq<Frame<S>>,
    outs: Seq<Seq<S>>,
    circle: &C,
    db_to_gain: &G,
    fft: &F,
    log10: &L,
    d: Decays<S>,
    m: int,
)
    requires
        runs(states, frames, outs, circle, db_to_gain, fft, log10),
        states[0].smooths_with(d),
        0 <= m <= frames.len(),
    ensures
        states[m].smooths_with(d),
        states[m].sample_rate == states[0].sample_rate,
        states[m].last_num_bands == states[0].last_num_bands,
        states[m].channel_states@.len() == states[0].channel_states@.len(),
    decreases m,
{
    if m > 0 {
        lemma_frames_keep_the_smoothing(
            states,
            frames,
            outs,
            circle,
            db_to_gain,
            fft,
            log10,
            d,
            m - 1,
        );
        let (before, after, frame) = (states[m - 1], states[m], frames[m - 1]);
        let n = frame.shapes.len() as int;
        let (gains, gain) = choose|gains: &Gains<S>, output_gain: S|
            #![trigger before.sends_to(frame.samples, n, gains, output_gain, outs[m - 1], &after)]
            gains.made_for(frame.shapes, db_to_gain) && call_ensures(
                db_to_gain,
                (frame.output_db,),
                output_gain,
            ) && before.sends_to(frame.samples, n, gains, output_gain, outs[m - 1], &after);
        assert forall|ch: int, band: int|
            0 <= ch < after.channel_states@.len() && 0 <= band < MAX_BANDS implies (
        #[trigger] after.channel_states@[ch].shapers[band])
            == after.channel_states@[ch].shapers[band].smoothing(d) by {
            let channel = before.channel_states@[ch];
            assert(channel.shapers[band] == channel.shapers[band].smoothing(d));
            assert(channel.moves_to(
                &after.crossover,
                frame.samples[ch],
                n,
                gains,
                &after.channel_states@[ch],
            ));
        }
    }
}

proof fn lemma_same_decays<S: Number, E: Fn(S) -> S>(
    a: Decays<S>,
    b: Decays<S>,
    sample_rate: S,
    speed_ms: S,
    exp: &E,
)
    requires
        is_function(exp),
        are_decays(a, sample_rate, speed_ms, exp),
        are_decays(b, sample_rate, speed_ms, exp),
    ensures
        a == b,
{
}

/// Getting ready once more for the same changes nothing.
pub proof fn law_a_second_prepare_changes_nothing<S: Number, E: Fn(S) -> S>(
    plugin: &MbTransient<S>,
    d: Decays<S>,
    num_channels: usize,
    num_bands: i32,
    speed_ms: S,
    exp: &E,
    after: &MbTransient<S>,
)
    requires
        is_function(exp),
        are_decays(d, plugin.sample_rate, speed_ms, exp),
        plugin.smooths_with(d),
        plugin.channel_states@.len() == num_channels,
        plugin.last_num_bands == num_bands,
        plugin.prepares(num_channels, num_bands, speed_ms, exp, after),
    ensures
        after.matches(plugin),
{
    let e = choose|e: Decays<S>| #[trigger]
        are_decays(e, plugin.sample_rate, speed_ms, exp) && after.smooths_with(e);
    lemma_same_decays(d, e, plugin.sample_rate, speed_ms, exp);
    assert forall|ch: int| 0 <= ch < num_channels implies after.channel_states@[ch]
        == plugin.channel_states@[ch] by {
        assert forall|band: int| 0 <= band < MAX_BANDS implies after.channel_states@[ch].shapers[band]
            == plugin.channel_states@[ch].shapers[band] by {
            let (p, q) = (plugin.channel_states@[ch].shapers[band], after.channel_states@[ch].shapers[band]);
            assert(p == p.smoothing(d));
            assert(q == q.smoothing(e));
            assert(q.sounds_as(p));
        }
        assert(after.channel_states@[ch].shapers =~= plugin.channel_states@[ch].shapers);
    }
    assert(after.channel_states@ =~= plugin.channel_states@);
}

/// Getting ready leaves nothing open: from the same state, the same leaves the same behind.
pub proof fn law_prepare_leaves_nothing_open<S: Number, E: Fn(S) -> S>(
    plugin: &MbTransient<S>,
    num_channels: usize,
    num_bands: i32,
    speed_ms: S,
    exp: &E,
    a: &MbTransient<S>,
    b: &MbTransient<S>,
)
    requires
        is_function(exp),
        plugin.prepares(num_channels, num_bands, speed_ms, exp, a),
        plugin.prepares(num_channels, num_bands, speed_ms, exp, b),
    ensures
        a.matches(b),
{
    let d = choose|d: Decays<S>| #[trigger]
        are_decays(d, plugin.sample_rate, speed_ms, exp) && a.smooths_with(d);
    let e = choose|e: Decays<S>| #[trigger]
        are_decays(e, plugin.sample_rate, speed_ms, exp) && b.smooths_with(e);
    lemma_same_decays(d, e, plugin.sample_rate, speed_ms, exp);
    assert forall|ch: int| 0 <= ch < num_channels implies a.channel_states@[ch]
        == b.channel_states@[ch] by {
        let (p, q) = (a.channel_states@[ch], b.channel_states@[ch]);
        assert forall|band: int| 0 <= band < MAX_BANDS implies p.shapers[band] == q.shapers[band] by {
            assert(p.shapers[band] == p.shapers[band].smoothing(d));
            assert(q.shapers[band] == q.shapers[band].smoothing(e));
        }
        assert(p.shapers =~= q.shapers);
        if p.at_rest() && q.at_rest() {
            lemma_same_sections_same_state(&p.crossover, &q.crossover);
        }
        assert(p.crossover == q.crossover);
    }
    assert(a.channel_states@ =~= b.channel_states@);
}

/// The size of the blocks does not affect the sound: frames that come in as one block come out as
/// they do when they come in as two, one after the other, and leave the same behind.
pub proof fn law_the_block_size_does_not_matter<
    S: Number,
    E: Fn(S) -> S,
    C: Fn(S) -> Phasor<S>,
    G: Fn(S) -> S,
    F: Fn(Vec<S>) -> Vec<S>,
    L: Fn(S) -> S,
>(
    start: &MbTransient<S>,
    num_channels: usize,
    num_bands: i32,
    speed_ms: S,
    exp: &E,
    whole: Seq<MbTransient<S>>,
    whole_outs: Seq<Seq<S>>,
    first: Seq<MbTransient<S>>,
    first_frames: Seq<Frame<S>>,
    first_outs: Seq<Seq<S>>,
    second: Seq<MbTransient<S>>,
    second_frames: Seq<Frame<S>>,
    second_outs: Seq<Seq<S>>,
    circle: &C,
    db_to_gain: &G,
    fft: &F,
    log10: &L,
)
    requires
        is_function(exp),
        is_function(circle),
        is_function(db_to_gain),
        transforms_frames(fft),
        is_transform(fft),
        is_function(log10),
        // in one block
        whole.len() > 0,
        whole[0].wf(),
        start.prepares(num_channels, num_bands, speed_ms, exp, &whole[0]),
        runs(whole, first_frames + second_frames, whole_outs, circle, db_to_gain, fft, log10),
        // in two blocks
        first.len() > 0,
        first[0].wf(),
        start.prepares(num_channels, num_bands, speed_ms, exp, &first[0]),
        runs(first, first_frames, first_outs, circle, db_to_gain, fft, log10),
        second.len() > 0,
        second[0].wf(),
        first.last().prepares(num_channels, num_bands, speed_ms, exp, &second[0]),
        runs(second, second_frames, second_outs, circle, db_to_gain, fft, log10),
    ensures
        whole_outs == first_outs + second_outs,
        whole.last().matches(&second.last()),
{
    let (n, m) = (first_frames.len() as int, second_frames.len() as int);
    let frames = first_frames + second_frames;
    let head = whole.take(n + 1);
    let tail = whole.skip(n);
    assert forall|k: int| 0 <= k < n implies {
        &&& (#[trigger] first_frames[k]).fits(&head[k])
        &&& head[k].passes(
            first_frames[k],
            whole_outs.take(n)[k],
            &head[k + 1],
            circle,
            db_to_gain,
            fft,
            log10,
        )
    } by {
        assert(frames[k] == first_frames[k]);
    }
    assert forall|k: int| 0 <= k < m implies {
        &&& (#[trigger] second_frames[k]).fits(&tail[k])
        &&& tail[k].passes(
            second_frames[k],
            whole_outs.skip(n)[k],
            &tail[k + 1],
            circle,
            db_to_gain,
            fft,
            log10,
        )
    } by {
        assert(frames[n + k] == second_frames[k]);
    }
    law_prepare_leaves_nothing_open(
        start,
        num_channels,
        num_bands,
        speed_ms,
        exp,
        &head[0],
        &first[0],
    );
    lemma_runs_leave_nothing_open(
        head,
        first,
        first_frames,
        whole_outs.take(n),
        first_outs,
        circle,
        db_to_gain,
        fft,
        log10,
        n,
    );
    let d = choose|d: Decays<S>| #[trigger]
        are_decays(d, start.sample_rate, speed_ms, exp) && first[0].smooths_with(d);
    lemma_frames_keep_the_smoothing(
        first,
        first_frames,
        first_outs,
        circle,
        db_to_gain,
        fft,
        log10,
        d,
        n,
    );
    law_a_second_prepare_changes_nothing(
        &first.last(),
        d,
        num_channels,
        num_bands,
        speed_ms,
        exp,
        &second[0],
    );
    assert(tail[0].matches(&second[0]));
    lemma_runs_leave_nothing_open(
        tail,
        second,
        second_frames,
        whole_outs.skip(n),
        second_outs,
        circle,
        db_to_gain,
        fft,
        log10,
        m,
    );
    assert forall|k: int| 0 <= k < n + m implies #[trigger] whole_outs[k] == (first_outs
        + second_outs)[k] by {
        if k < n {
            assert(whole_outs.take(n)[k] == first_outs[k]);
        } else {
            assert(whole_outs.skip(n)[k - n] == second_outs[k - n]);
        }
    }
    assert(whole_outs =~= first_outs + second_outs);
}

// ---- flatness ----

/// What the channel `ch` hears in the first `m` of `frames`.
pub open spec fn heard<S>(frames: Seq<Frame<S>>, ch: int, m: int) -> Seq<S> {
    Seq::new(m as nat, |k: int| frames[k].samples[ch])
}

/// `db_to_gain` gives 1 for 0 dB.
pub open spec fn keeps_unity<S: Number, G: Fn(S) -> S>(db_to_gain: &G) -> bool {
    forall|db: S, gain: S| #[trigger]
        call_ensures(db_to_gain, (db,), gain) && db.value() == 0 as real ==> gain.value() == 1 as real
}

/// All the frames have their crossovers at `freqs`, and neutral bands.
pub open spec fn rest_at<S: Number>(frames: Seq<Frame<S>>, freqs: Seq<S>) -> bool {
    forall|k: int|
        0 <= k < frames.len() ==> {
            &&& (#[trigger] frames[k]).freqs == freqs
            &&& forall|band: int|
                0 <= band < frames[k].shapes.len() ==> (#[trigger] frames[k].shapes[band]).value()
                    == 0 as real
        }
}

proof fn lemma_neutral_shapes_give_unity<S: Number, G: Fn(S) -> S>(
    gains: &Gains<S>,
    shapes: Seq<S>,
    db_to_gain: &G,
    band: int,
)
    requires
        exact::<S>(),
        ordered::<S>(),
        keeps_unity(db_to_gain),
        gains.made_for(shapes, db_to_gain),
        0 <= band < shapes.len() <= MAX_BANDS,
        shapes[band].value() == 0 as real,
    ensures
        gains.attack[band].value() == 1 as real,
        gains.sustain[band].value() == 1 as real,
{
    assert(shape_db_of(shapes[band]) == (S::nought(), S::nought()));
    assert(call_ensures(db_to_gain, (shape_db_of(shapes[band]).0,), gains.attack[band]));
    assert(call_ensures(db_to_gain, (shape_db_of(shapes[band]).1,), gains.sustain[band]));
}

/// The plugin recombines its bands flat: from rest and as long as all of its bands are neutral and
/// its crossovers stay where they are, it gives out on each channel what came in so far, behind the
/// all-pass sections of the crossover and at the output level, if the arithmetic does not round.
/// This holds wherever the crossovers stood before, and for however many bands.
pub proof fn law_neutral_runs_are_flat<
    S: Number,
    C: Fn(S) -> Phasor<S>,
    G: Fn(S) -> S,
    F: Fn(Vec<S>) -> Vec<S>,
    L: Fn(S) -> S,
>(
    states: Seq<MbTransient<S>>,
    frames: Seq<Frame<S>>,
    outs: Seq<Seq<S>>,
    circle: &C,
    db_to_gain: &G,
    fft: &F,
    log10: &L,
    freqs: Seq<S>,
    ch: int,
    m: int,
)
    requires
        exact::<S>(),
        ordered::<S>(),
        rooted::<S>(),
        traces_the_circle(circle),
        keeps_unity(db_to_gain),
        runs(states, frames, outs, circle, db_to_gain, fft, log10),
        rest_at(frames, freqs),
        states[0].stands(circle),
        0 <= ch < states[0].channel_states@.len(),
        states[0].channel_states@[ch].at_rest(),
        0 < m <= frames.len(),
    ensures
        exists|gain: S| #[trigger]
            call_ensures(db_to_gain, (frames[m - 1].output_db,), gain) && outs[m - 1][ch].value()
                == allpassed(
                &states[m].crossover,
                samples(heard(frames, ch, m)),
                freqs.len() as int,
            )(m - 1) * gain.value(),
        forall|i: int| 0 <= i < freqs.len() ==> #[trigger] matched_at(&states[m].crossover, i),
        states[m].crossover == states[1].crossover,
        states[m].stands(circle),
        states[m].is_tuned_to(freqs),
        ch < states[m].channel_states@.len(),
        has_heard(
            &states[m].crossover,
            &states[m].channel_states@[ch].crossover,
            freqs.len() as int,
            heard(frames, ch, m),
        ),
        forall|band: int|
            0 <= band <= freqs.len() ==> (
            #[trigger] states[m].channel_states@[ch].shapers[band]).gain.value() == 1 as real,
    decreases m,
{
    let (before, after, frame, out) = (states[m - 1], states[m], frames[m - 1], outs[m - 1]);
    let n = frame.shapes.len() as int;
    let xs = heard(frames, ch, m - 1);
    assert(frame.fits(&before));
    if m > 1 {
        law_neutral_runs_are_flat(
            states,
            frames,
            outs,
            circle,
            db_to_gain,
            fft,
            log10,
            freqs,
            ch,
            m - 1,
        );
        assert(after.crossover == before.crossover);
    } else {
        law_reset_has_heard_nothing(
            &after.crossover,
            &before.channel_states@[ch].crossover,
            freqs.len() as int,
        );
        assert(xs =~= Seq::empty());
        assert forall|band: int| 0 <= band < n implies (
        #[trigger] before.channel_states@[ch].shapers[band]).gain.value() == 1 as real by {
            assert(before.channel_states@[ch].shapers[band].at_rest());
        }
    }
    let (gains, gain) = choose|gains: &Gains<S>, output_gain: S|
        #![trigger before.sends_to(frame.samples, n, gains, output_gain, out, &after)]
        gains.made_for(frame.shapes, db_to_gain) && call_ensures(
            db_to_gain,
            (frame.output_db,),
            output_gain,
        ) && before.sends_to(frame.samples, n, gains, output_gain, out, &after);
    assert forall|band: int| 0 <= band < n implies {
        &&& (#[trigger] before.channel_states@[ch].shapers[band]).gain.value() == 1 as real
        &&& gains.attack[band].value() == 1 as real
        &&& gains.sustain[band].value() == 1 as real
    } by {
        assert(frame.shapes[band].value() == 0 as real);
        lemma_neutral_shapes_give_unity(gains, frame.shapes, db_to_gain, band);
    }
    law_neutral_plugin_is_flat(&before, frame, circle, gains, gain, out, &after, ch, xs);
    law_frames_keep_the_bands_matched(&before, freqs, circle, &after);
    assert(xs.push(frame.samples[ch]) =~= heard(frames, ch, m));
    assert(call_ensures(db_to_gain, (frames[m - 1].output_db,), gain));
    if !before.is_tuned_to(freqs) {
        assert forall|i: int| 0 <= i < freqs.len() implies (#[trigger] freqs[i]).same(
            after.last_crossover_freqs@[i],
        ) by {
            assert(after.last_crossover_freqs@[i] == freqs[i]);
        }
    }
}

} // verus!
