//! What the analyzer shows: a Hann-windowed spectrum in decibels, with peaks that fall slowly.
use vstd::prelude::*;

use crate::algebra::lemma_undivide;
use crate::flat::total;
use crate::scalar::{exact, is_function, ordered, Number};
use crate::spectrum::{
    are_logs, are_window_cosines, hann, hears_all, held_peak, held_peaks, is_transform,
    law_full_level_is_zero_db, lemma_shown_alike, level, magnitudes, shows, steps_through, sum,
    transforms, transforms_frames,
    window_angle, windowed, SpectrumAnalyzer, SpectrumData, SPECTRUM_BINS, SPECTRUM_FFT_SIZE,
    SPECTRUM_HOP,
};

verus! {

/// There is a bin for each frequency that goes into a frame up to half the sample rate, and sixteen
/// frames overlap at any time.
pub proof fn law_bins_reach_half_the_rate()
    ensures
        2 * (SPECTRUM_BINS - 1) == SPECTRUM_FFT_SIZE,
        SPECTRUM_FFT_SIZE == 4096,
        SPECTRUM_HOP == 256,
{
}

// ---- the window ----

/// The window starts at an angle of zero and ends after one whole turn, in even steps, and its
/// weight is one half of what the cosine is below 1: nothing at both ends, and all in the middle.
/// This holds if the arithmetic does not round.
pub proof fn law_the_window_is_a_hann_window<S: Number, C: Fn(S) -> S>(
    analyzer: &SpectrumAnalyzer<S>,
    sample_rate: S,
    cosines: Seq<S>,
    cos: &C,
    i: int,
)
    requires
        exact::<S>(),
        are_window_cosines(cosines, cos),
        analyzer.made_for(sample_rate, cosines),
        0 <= i < SPECTRUM_FFT_SIZE,
    ensures
        analyzer.window@.len() == SPECTRUM_FFT_SIZE,
        exists|angle: S, c: S| #[trigger]
            call_ensures(cos, (angle,), c) && angle.value() * 4095 as real == S::turn().value()
                * i as real && 2 as real * analyzer.window@[i].value() == 1 as real - c.value(),
{
    let (angle, c) = (window_angle::<S>(i), cosines[i]);
    assert(call_ensures(cos, (angle,), c));
    let (n, last) = (S::count(i as nat).value(), S::count(4095).value());
    assert(n == i as real && last == 4095 as real);
    lemma_undivide(S::turn().value() * n, last);
    assert(analyzer.window@[i] == hann(c));
    let (half, d) = (S::fraction(1, 2).value(), 1 as real - c.value());
    assert(half == 1 as real / 2 as real);
    assert(2 as real * (half * d) == d) by (nonlinear_arith)
        requires
            half == 1 as real / 2 as real,
    ;
}

/// Each sample of a frame is weighted by the entry of the window in the same place, if the
/// arithmetic does not round.
pub proof fn law_frames_are_weighted_in_place<S: Number>(xs: Seq<S>, window: Seq<S>, i: int)
    requires
        exact::<S>(),
        0 <= i < xs.len(),
        xs.len() == window.len(),
    ensures
        windowed(xs, window).len() == xs.len(),
        windowed(xs, window)[i].value() == xs[i].value() * window[i].value(),
{
}

/// What numbers add up to is their sum, if the arithmetic does not round.
pub proof fn law_sums_add_up<S: Number>(xs: Seq<S>)
    requires
        exact::<S>(),
    ensures
        sum(xs).value() == total(xs, xs.len() as int),
    decreases xs.len(),
{
    if xs.len() > 0 {
        law_sums_add_up(xs.drop_last());
        lemma_same_total(xs.drop_last(), xs, xs.len() - 1);
    }
}

proof fn lemma_same_total<S: Number>(a: Seq<S>, b: Seq<S>, n: int)
    requires
        n <= a.len(),
        n <= b.len(),
        forall|i: int| 0 <= i < n ==> #[trigger] a[i] == b[i],
    ensures
        total(a, n) == total(b, n),
    decreases n,
{
    if n > 0 {
        lemma_same_total(a, b, n - 1);
    }
}

// ---- levels ----

/// A level is 20 dB for each power of ten of the magnitude, and -120 dB for silence, if the
/// arithmetic does not round.
pub proof fn law_levels_are_in_decibels<S: Number>(mag: S, log: S)
    requires
        exact::<S>(),
        ordered::<S>(),
    ensures
        1000000000 as real * mag.value() > 1 as real ==> level(mag, log).value() == 20 as real
            * log.value(),
        1000000000 as real * mag.value() <= 1 as real ==> level(mag, log).value() == -(120 as real),
{
    assert(S::fraction(1, 1000000000).value() == 1 as real / 1000000000 as real);
    let (k, l) = (S::fraction(20, 1).value(), log.value());
    assert(k == 20 as real);
    assert(k * l == 20 as real * l);
    assert(S::fraction(-120, 1).value() == -(120 as real));
}

/// What was shown of a bin falls by `fall_db`, but never below the level that the bin is at now, and
/// rises to that at once, if the arithmetic does not round.
pub proof fn law_peaks_fall_to_the_level<S: Number>(prev: S, db: S, fall_db: S)
    requires
        exact::<S>(),
        ordered::<S>(),
        0 as real <= fall_db.value(),
    ensures
        ({
            let (shown, fallen) = (
                held_peak(prev, db, fall_db).value(),
                prev.value() - fall_db.value(),
            );
            shown == if fallen <= db.value() {
                db.value()
            } else {
                fallen
            }
        }),
{
}

/// Each bin is shown at the level of its own magnitude, unless a peak is still falling towards it.
/// This holds if the arithmetic does not round.
pub proof fn law_bins_show_their_level<S: Number, L: Fn(S) -> S>(
    absolutes: Seq<S>,
    prev: Seq<S>,
    shown: Seq<S>,
    norm: S,
    fall_db: S,
    log10: &L,
    i: int,
)
    requires
        exact::<S>(),
        ordered::<S>(),
        0 as real <= fall_db.value(),
        absolutes.len() == prev.len(),
        shows(absolutes, prev, shown, norm, fall_db, log10),
        0 <= i < prev.len(),
    ensures
        shown.len() == prev.len(),
        1000000000 as real * (absolutes[i].value() * norm.value()) <= 1 as real ==> shown[i].value()
            == falls_to(prev[i].value() - fall_db.value(), -(120 as real)),
        1000000000 as real * (absolutes[i].value() * norm.value()) > 1 as real ==> exists|
            mag: S,
            log: S,
        | #[trigger]
            call_ensures(log10, (mag,), log) && mag.value() == absolutes[i].value() * norm.value()
                && shown[i].value() == falls_to(
                prev[i].value() - fall_db.value(),
                20 as real * log.value(),
            ),
{
    let mags = magnitudes(absolutes, norm);
    let logs = choose|logs: Seq<S>|
        are_logs(logs, mags, log10) && shown == #[trigger] held_peaks(prev, mags, logs, fall_db);
    law_levels_are_in_decibels(mags[i], logs[i]);
    law_peaks_fall_to_the_level(prev[i], level(mags[i], logs[i]), fall_db);
    assert(S::fraction(1, 1000000000).value() == 1 as real / 1000000000 as real);
    if 1000000000 as real * (absolutes[i].value() * norm.value()) > 1 as real {
        assert(call_ensures(log10, (mags[i],), logs[i]));
    }
}

/// What falls to `fallen` but is held at `floor`.
pub open spec fn falls_to(fallen: real, floor: real) -> real {
    if fallen <= floor {
        floor
    } else {
        fallen
    }
}

/// A bin of full level, that is one which is half of what the window adds up to, is shown at 0 dB,
/// unless a higher peak is still falling towards it. This holds if the arithmetic does not round.
pub proof fn law_full_level_shows_at_zero<S: Number, L: Fn(S) -> S>(
    analyzer: &SpectrumAnalyzer<S>,
    absolutes: Seq<S>,
    prev: Seq<S>,
    shown: Seq<S>,
    log10: &L,
    i: int,
)
    requires
        exact::<S>(),
        ordered::<S>(),
        0 as real <= analyzer.fall_db.value(),
        absolutes.len() == prev.len(),
        shows(absolutes, prev, shown, analyzer.norm(), analyzer.fall_db, log10),
        0 <= i < prev.len(),
        analyzer.coherent_gain.value() != 0 as real,
        2 as real * absolutes[i].value() == 4096 as real * analyzer.coherent_gain.value(),
        forall|m: S, l: S| #[trigger]
            call_ensures(log10, (m,), l) && m.value() == 1 as real ==> l.value() == 0 as real,
    ensures
        shown[i].value() == falls_to(prev[i].value() - analyzer.fall_db.value(), 0 as real),
{
    law_bins_show_their_level(
        absolutes,
        prev,
        shown,
        analyzer.norm(),
        analyzer.fall_db,
        log10,
        i,
    );
    law_full_level_is_zero_db(analyzer, absolutes[i], S::nought());
}

/// An analyzer at rest shows silence, at -120 dB, in every bin, and so does what is published before
/// the first frame. This holds if the arithmetic does not round.
pub proof fn law_silence_is_shown_at_first<S: Number>(
    analyzer: &SpectrumAnalyzer<S>,
    data: &SpectrumData<S>,
    i: int,
)
    requires
        exact::<S>(),
        analyzer.at_rest(),
        data.empty(),
        0 <= i < SPECTRUM_BINS,
    ensures
        analyzer.smoothed_input@[i].value() == -(120 as real),
        analyzer.smoothed_output@[i].value() == -(120 as real),
        data.input@[i].value() == -(120 as real),
        data.output@[i].value() == -(120 as real),
{
    assert(S::fraction(-120, 1).value() == -(120 as real));
}

// ---- two spectra ----

/// The two spectra do not mix: what is shown of the input depends on the input alone, whatever went
/// out, and what is shown of the output on the output alone.
pub proof fn law_the_spectra_do_not_mix<S: Number, F: Fn(Vec<S>) -> Vec<S>, L: Fn(S) -> S>(
    a: &SpectrumAnalyzer<S>,
    b: &SpectrumAnalyzer<S>,
    a_before: &SpectrumAnalyzer<S>,
    b_before: &SpectrumAnalyzer<S>,
    a_data: &SpectrumData<S>,
    b_data: &SpectrumData<S>,
    fft: &F,
    log10: &L,
)
    requires
        transforms_frames(fft),
        is_transform(fft),
        is_function(log10),
        a.tuned_as(b),
        a_before.wf(),
        b_before.wf(),
        a.published(a_data, a_before, fft, log10),
        b.published(b_data, b_before, fft, log10),
    ensures
        a.input_history() == b.input_history() && a_before.smoothed_input@ == b_before.smoothed_input@
            ==> a_data.input@ == b_data.input@ && a.smoothed_input@ == b.smoothed_input@,
        a.output_history() == b.output_history() && a_before.smoothed_output@
            == b_before.smoothed_output@ ==> a_data.output@ == b_data.output@ && a.smoothed_output@
            == b.smoothed_output@,
{
    if a.input_history() == b.input_history() && a_before.smoothed_input@ == b_before.smoothed_input@ {
        let frame = windowed(a.input_history(), a.window@);
        let p = choose|absolutes: Seq<S>| #[trigger]
            transforms(fft, frame, absolutes) && shows(
                absolutes,
                a_before.smoothed_input@,
                a_data.input@,
                a.norm(),
                a.fall_db,
                log10,
            );
        let q = choose|absolutes: Seq<S>| #[trigger]
            transforms(fft, frame, absolutes) && shows(
                absolutes,
                b_before.smoothed_input@,
                b_data.input@,
                b.norm(),
                b.fall_db,
                log10,
            );
        assert(p == q);
        lemma_shown_alike(
            p,
            a_before.smoothed_input@,
            a_data.input@,
            b_data.input@,
            a.norm(),
            a.fall_db,
            log10,
        );
    }
    if a.output_history() == b.output_history() && a_before.smoothed_output@
        == b_before.smoothed_output@ {
        let frame = windowed(a.output_history(), a.window@);
        let p = choose|absolutes: Seq<S>| #[trigger]
            transforms(fft, frame, absolutes) && shows(
                absolutes,
                a_before.smoothed_output@,
                a_data.output@,
                a.norm(),
                a.fall_db,
                log10,
            );
        let q = choose|absolutes: Seq<S>| #[trigger]
            transforms(fft, frame, absolutes) && shows(
                absolutes,
                b_before.smoothed_output@,
                b_data.output@,
                b.norm(),
                b.fall_db,
                log10,
            );
        assert(p == q);
        lemma_shown_alike(
            p,
            a_before.smoothed_output@,
            a_data.output@,
            b_data.output@,
            a.norm(),
            a.fall_db,
            log10,
        );
    }
}

/// The spectra are those of the latest samples, from the oldest to the newest, each weighted by the
/// entry of the window in its place, if the arithmetic does not round.
pub proof fn law_spectra_are_of_the_weighted_history<
    S: Number,
    F: Fn(Vec<S>) -> Vec<S>,
    L: Fn(S) -> S,
>(
    analyzer: &SpectrumAnalyzer<S>,
    before: &SpectrumAnalyzer<S>,
    data: &SpectrumData<S>,
    fft: &F,
    log10: &L,
)
    requires
        exact::<S>(),
        analyzer.wf(),
        analyzer.published(data, before, fft, log10),
    ensures
        exists|frame: Seq<S>, absolutes: Seq<S>| #[trigger]
            transforms(fft, frame, absolutes) && weighs(
                frame,
                analyzer.input_history(),
                analyzer.window@,
            ) && shows(
                absolutes,
                before.smoothed_input@,
                data.input@,
                analyzer.norm(),
                analyzer.fall_db,
                log10,
            ),
        exists|frame: Seq<S>, absolutes: Seq<S>| #[trigger]
            transforms(fft, frame, absolutes) && weighs(
                frame,
                analyzer.output_history(),
                analyzer.window@,
            ) && shows(
                absolutes,
                before.smoothed_output@,
                data.output@,
                analyzer.norm(),
                analyzer.fall_db,
                log10,
            ),
{
    let frame = windowed(analyzer.input_history(), analyzer.window@);
    let absolutes = choose|absolutes: Seq<S>| #[trigger]
        transforms(fft, frame, absolutes) && shows(
            absolutes,
            before.smoothed_input@,
            data.input@,
            analyzer.norm(),
            analyzer.fall_db,
            log10,
        );
    assert(transforms(fft, frame, absolutes) && weighs(
        frame,
        analyzer.input_history(),
        analyzer.window@,
    ));
    let frame = windowed(analyzer.output_history(), analyzer.window@);
    let absolutes = choose|absolutes: Seq<S>| #[trigger]
        transforms(fft, frame, absolutes) && shows(
            absolutes,
            before.smoothed_output@,
            data.output@,
            analyzer.norm(),
            analyzer.fall_db,
            log10,
        );
    assert(transforms(fft, frame, absolutes) && weighs(
        frame,
        analyzer.output_history(),
        analyzer.window@,
    ));
}

/// `frame` is `xs`, each weighted by the entry of `window` in its place.
pub open spec fn weighs<S: Number>(frame: Seq<S>, xs: Seq<S>, window: Seq<S>) -> bool {
    &&& frame.len() == xs.len()
    &&& forall|i: int|
        0 <= i < xs.len() ==> (#[trigger] frame[i]).value() == xs[i].value() * window[i].value()
}

/// A new spectrum is published with every 256th sample, and at no other time.
pub proof fn law_spectra_come_every_hop<S: Number, F: Fn(Vec<S>) -> Vec<S>, L: Fn(S) -> S>(
    states: Seq<SpectrumAnalyzer<S>>,
    data: Seq<SpectrumData<S>>,
    inputs: Seq<S>,
    outputs: Seq<S>,
    fft: &F,
    log10: &L,
    m: int,
)
    requires
        steps_through(states, data, inputs, outputs, fft, log10),
        states[0].at_rest(),
        0 < m <= inputs.len(),
    ensures
        states[m].hop_counter == m % 256,
        m % 256 == 0 ==> states[m].published(&data[m], &states[m - 1], fft, log10),
        m % 256 != 0 ==> data[m] == data[m - 1],
    decreases m,
{
    if m > 1 {
        law_spectra_come_every_hop(states, data, inputs, outputs, fft, log10, m - 1);
    }
    assert(states[m - 1].steps_to(
        inputs[m - 1],
        outputs[m - 1],
        &data[m - 1],
        &states[m],
        &data[m],
        fft,
        log10,
    ));
}

/// The analyzer remembers the latest samples, from the oldest to the newest: after `m` of them, those
/// that it held at first with the new ones behind them, but for the `m` oldest.
pub proof fn law_the_latest_samples_are_remembered<S: Number>(
    states: Seq<SpectrumAnalyzer<S>>,
    inputs: Seq<S>,
    outputs: Seq<S>,
    m: int,
)
    requires
        hears_all(states, inputs, outputs),
        states[0].wf(),
        0 <= m <= inputs.len(),
    ensures
        states[m].input_history() == (states[0].input_history() + inputs.take(m)).skip(m),
        states[m].output_history() == (states[0].output_history() + outputs.take(m)).skip(m),
        states[m].input_history().len() == SPECTRUM_FFT_SIZE,
        states[m].output_history().len() == SPECTRUM_FFT_SIZE,
    decreases m,
{
    let (a, b) = (states[0].input_history(), states[0].output_history());
    if m == 0 {
        assert((a + inputs.take(0)).skip(0) =~= a);
        assert((b + outputs.take(0)).skip(0) =~= b);
    } else {
        law_the_latest_samples_are_remembered(states, inputs, outputs, m - 1);
        assert(states[m - 1].hears(inputs[m - 1], outputs[m - 1], &states[m]));
        assert((a + inputs.take(m)).skip(m) =~= (a + inputs.take(m - 1)).skip(m - 1).drop_first().push(
            inputs[m - 1],
        ));
        assert((b + outputs.take(m)).skip(m) =~= (b + outputs.take(m - 1)).skip(
            m - 1,
        ).drop_first().push(outputs[m - 1]));
    }
}

} // verus!
