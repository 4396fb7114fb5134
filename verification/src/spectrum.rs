//! The spectrum analyzer.
use vstd::prelude::*;

#[allow(unused_imports)]
use crate::rounding::{compares, level_with, rounded, rounds};
use crate::scalar::Scalar;
#[allow(unused_imports)]
use crate::scalar::{exact, is_function, ordered, Number};

verus! {

/// FFT size used for the spectrum analyzer.
pub const SPECTRUM_FFT_SIZE: usize = 4096;

/// Number of real FFT bins (`FFT_SIZE / 2 + 1`).
pub const SPECTRUM_BINS: usize = 2049;

/// Number of samples between successive FFT frames.
pub const SPECTRUM_HOP: usize = 256;

/// Value shown for silence, in dBFS.
pub open spec fn min_db<S: Number>() -> S {
    S::fraction(-120, 1)
}

/// `n` times `x`.
pub open spec fn repeated<S>(x: S, n: int) -> Seq<S> {
    Seq::new(n as nat, |i: int| x)
}

fn repeat<S: Scalar>(x: S, n: usize) -> (r: Vec<S>)
    ensures
        r@ == repeated(x, n as int),
{
    let mut r: Vec<S> = Vec::new();
    for i in 0..n
        invariant
            r@ == repeated(x, i as int),
    {
        r.push(x);
        assert(r@ =~= repeated(x, i + 1));
    }
    r
}

fn fill<S: Scalar>(xs: &mut Vec<S>, x: S)
    ensures
        final(xs)@ == repeated(x, old(xs)@.len() as int),
{
    let n: usize = xs.len();
    for i in 0..n
        invariant
            n == xs@.len(),
            xs@.len() == old(xs)@.len(),
            forall|k: int| 0 <= k < i ==> #[trigger] xs@[k] == x,
    {
        xs[i] = x;
    }
    assert(xs@ =~= repeated(x, old(xs)@.len() as int));
}

/// Spectrum data handed from the analyzer to the GUI. Magnitudes are in dBFS, with -120
/// representing silence.
pub struct SpectrumData<S> {
    pub sample_rate: S,
    pub input: Vec<S>,
    pub output: Vec<S>,
}

impl<S: Number> SpectrumData<S> {
    /// Both spectra have all their bins.
    pub open spec fn wf(&self) -> bool {
        &&& self.input@.len() == SPECTRUM_BINS
        &&& self.output@.len() == SPECTRUM_BINS
    }

    /// Nothing is shown but silence.
    pub open spec fn empty(&self) -> bool {
        &&& self.input@ == repeated(min_db::<S>(), SPECTRUM_BINS as int)
        &&& self.output@ == repeated(min_db::<S>(), SPECTRUM_BINS as int)
    }
}

impl<S: Scalar> SpectrumData<S> {
    pub fn new() -> (r: Self)
        ensures
            r.wf(),
            r.sample_rate == S::fraction(44100, 1),
            r.empty(),
    {
        SpectrumData {
            sample_rate: S::ratio(44100, 1),
            input: repeat(S::ratio(-120, 1), SPECTRUM_BINS),
            output: repeat(S::ratio(-120, 1), SPECTRUM_BINS),
        }
    }
}

impl<S: Scalar> Default for SpectrumData<S> {
    fn default() -> (r: Self)
        ensures
            r.wf(),
            r.sample_rate == S::fraction(44100, 1),
            r.empty(),
    {
        Self::new()
    }
}

/// The angle whose cosine shapes the sample `i` of the window.
pub open spec fn window_angle<S: Number>(i: int) -> S {
    S::turn().times(S::count(i as nat)).over(S::count((SPECTRUM_FFT_SIZE - 1) as nat))
}

/// The weight that a Hann window has where its angle has the cosine `cos`.
pub open spec fn hann<S: Number>(cos: S) -> S {
    S::fraction(1, 2).times(S::unit().minus(cos))
}

/// The Hann window for the cosines of its angles.
pub open spec fn hann_window<S: Number>(cosines: Seq<S>) -> Seq<S> {
    Seq::new(cosines.len(), |i: int| hann(cosines[i]))
}

/// `cosines` are the cosines of the angles that shape the window.
pub open spec fn are_window_cosines<S: Number, C: Fn(S) -> S>(cosines: Seq<S>, cos: &C) -> bool {
    &&& cosines.len() == SPECTRUM_FFT_SIZE
    &&& forall|i: int|
        0 <= i < SPECTRUM_FFT_SIZE ==> call_ensures(
            cos,
            (window_angle::<S>(i),),
            #[trigger] cosines[i],
        )
}

/// The sum of `xs`, taken from the first to the last.
pub open spec fn sum<S: Number>(xs: Seq<S>) -> S
    decreases xs.len(),
{
    if xs.len() == 0 {
        S::nought()
    } else {
        sum(xs.drop_last()).plus(xs.last())
    }
}

fn add_up<S: Scalar>(xs: &Vec<S>) -> (r: S)
    ensures
        r == sum(xs@),
{
    let mut r = S::zero();
    for i in 0..xs.len()
        invariant
            r == sum(xs@.take(i as int)),
    {
        r = r.add(xs[i]);
        assert(xs@.take(i + 1).drop_last() =~= xs@.take(i as int));
    }
    assert(xs@.take(xs@.len() as int) =~= xs@);
    r
}

/// What the ring holds, from the oldest sample to the newest, when `pos` is overwritten next.
pub open spec fn unrolled<S>(ring: Seq<S>, pos: int) -> Seq<S> {
    ring.skip(pos) + ring.take(pos)
}

/// The samples `xs`, each weighted by the window.
pub open spec fn windowed<S: Number>(xs: Seq<S>, window: Seq<S>) -> Seq<S> {
    Seq::new(xs.len(), |i: int| xs[i].times(window[i]))
}

/// The level in dBFS of a bin of magnitude `mag`, whose decimal logarithm is `log`.
pub open spec fn level<S: Number>(mag: S, log: S) -> S {
    if S::fraction(1, 1000000000).below(mag) {
        S::fraction(20, 1).times(log)
    } else {
        min_db()
    }
}

/// What is shown of a bin that stood at `prev` and is now at `db`: it rises at once, and falls by
/// `fall_db` at most.
pub open spec fn held_peak<S: Number>(prev: S, db: S, fall_db: S) -> S {
    if prev.below(db) {
        db
    } else {
        prev.minus(fall_db).greater(db)
    }
}

/// What is shown of all the bins, for their magnitudes and the decimal logarithms of these.
pub open spec fn held_peaks<S: Number>(prev: Seq<S>, mags: Seq<S>, logs: Seq<S>, fall_db: S) -> Seq<S> {
    Seq::new(prev.len(), |i: int| held_peak(prev[i], level(mags[i], logs[i]), fall_db))
}

/// The absolute values of a transformed frame, scaled by `norm`.
pub open spec fn magnitudes<S: Number>(absolutes: Seq<S>, norm: S) -> Seq<S> {
    Seq::new(absolutes.len(), |i: int| absolutes[i].times(norm))
}

/// `logs` are the decimal logarithms of those of `mags` that are not taken for silence.
pub open spec fn are_logs<S: Number, L: Fn(S) -> S>(logs: Seq<S>, mags: Seq<S>, log10: &L) -> bool {
    &&& logs.len() == mags.len()
    &&& forall|i: int|
        0 <= i < mags.len() && S::fraction(1, 1000000000).below(mags[i]) ==> call_ensures(
            log10,
            (mags[i],),
            #[trigger] logs[i],
        )
}

/// The entries of `xs` that stand for bins.
pub open spec fn bins_of<S>(xs: Seq<S>) -> Seq<S> {
    xs.take(SPECTRUM_BINS as int)
}

/// Shows what has become of the bins: in `smoothed`, which it is kept in for the next frame, and
/// in `bins`. `absolutes` are the absolute values of the transformed frame, which are scaled by
/// `norm`, and `log10` is the decimal logarithm. Entries beyond the bins stay as they are.
pub fn publish_spectrum<S: Scalar, L: Fn(S) -> S>(
    absolutes: &[S],
    smoothed: &mut Vec<S>,
    bins: &mut Vec<S>,
    norm: S,
    fall_db: S,
    log10: &L,
)
    requires
        forall|x: S| #[trigger] call_requires(log10, (x,)),
        absolutes@.len() >= SPECTRUM_BINS,
        old(smoothed)@.len() >= SPECTRUM_BINS,
        old(bins)@.len() >= SPECTRUM_BINS,
    ensures
        shows(
            bins_of(absolutes@),
            bins_of(old(smoothed)@),
            bins_of(final(smoothed)@),
            norm,
            fall_db,
            log10,
        ),
        bins_of(final(bins)@) == bins_of(final(smoothed)@),
        final(smoothed)@.len() == old(smoothed)@.len(),
        final(smoothed)@.skip(SPECTRUM_BINS as int) == old(smoothed)@.skip(SPECTRUM_BINS as int),
        final(bins)@.len() == old(bins)@.len(),
        final(bins)@.skip(SPECTRUM_BINS as int) == old(bins)@.skip(SPECTRUM_BINS as int),
{
    let ghost mags = magnitudes(bins_of(absolutes@), norm);
    let ghost mut logs: Seq<S> = Seq::empty();
    for i in 0..SPECTRUM_BINS
        invariant
            forall|x: S| #[trigger] call_requires(log10, (x,)),
            absolutes@.len() >= SPECTRUM_BINS,
            mags == magnitudes(bins_of(absolutes@), norm),
            old(smoothed)@.len() >= SPECTRUM_BINS,
            smoothed@.len() == old(smoothed)@.len(),
            old(bins)@.len() >= SPECTRUM_BINS,
            bins@.len() == old(bins)@.len(),
            logs.len() == i,
            forall|k: int|
                0 <= k < i && S::fraction(1, 1000000000).below(mags[k]) ==> call_ensures(
                    log10,
                    (mags[k],),
                    #[trigger] logs[k],
                ),
            forall|k: int|
                0 <= k < i ==> #[trigger] smoothed@[k] == held_peak(
                    old(smoothed)@[k],
                    level(mags[k], logs[k]),
                    fall_db,
                ),
            forall|k: int| i <= k < smoothed@.len() ==> #[trigger] smoothed@[k] == old(smoothed)@[k],
            forall|k: int| 0 <= k < i ==> #[trigger] bins@[k] == smoothed@[k],
            forall|k: int| i <= k < bins@.len() ==> #[trigger] bins@[k] == old(bins)@[k],
    {
        let mag: S = absolutes[i].mul(norm);
        let mut db = S::ratio(-120, 1);
        let ghost mut log = mag;
        if S::ratio(1, 1000000000).lt(mag) {
            let l: S = log10(mag);
            proof {
                log = l;
            }
            db = S::ratio(20, 1).mul(l);
        }
        let prev = smoothed[i];
        let next = if prev.lt(db) {
            db
        } else {
            prev.sub(fall_db).max(db)
        };
        smoothed[i] = next;
        bins[i] = next;
        proof {
            logs = logs.push(log);
        }
    }
    assert(are_logs(logs, mags, log10));
    assert(bins_of(smoothed@) =~= held_peaks(bins_of(old(smoothed)@), mags, logs, fall_db));
    assert(bins_of(bins@) =~= bins_of(smoothed@));
    assert(smoothed@.skip(SPECTRUM_BINS as int) =~= old(smoothed)@.skip(SPECTRUM_BINS as int));
    assert(bins@.skip(SPECTRUM_BINS as int) =~= old(bins)@.skip(SPECTRUM_BINS as int));
}

/// `fft` can be handed any frame, and gives the absolute value of each bin back.
pub open spec fn transforms_frames<S: Number, F: Fn(Vec<S>) -> Vec<S>>(fft: &F) -> bool {
    &&& forall|frame: Vec<S>|
        frame@.len() == SPECTRUM_FFT_SIZE ==> #[trigger] call_requires(fft, (frame,))
    &&& forall|frame: Vec<S>, absolutes: Vec<S>| #[trigger]
        call_ensures(fft, (frame,), absolutes) ==> absolutes@.len() == SPECTRUM_BINS
}

/// `fft` gives `absolutes` for `frame`.
pub open spec fn transforms<S: Number, F: Fn(Vec<S>) -> Vec<S>>(
    fft: &F,
    frame: Seq<S>,
    absolutes: Seq<S>,
) -> bool {
    exists|f: Vec<S>, a: Vec<S>| #[trigger]
        call_ensures(fft, (f,), a) && f@ == frame && a@ == absolutes
}

/// What is shown moves from `prev` to `shown` when the absolute values of a transformed frame are
/// `absolutes`.
pub open spec fn shows<S: Number, L: Fn(S) -> S>(
    absolutes: Seq<S>,
    prev: Seq<S>,
    shown: Seq<S>,
    norm: S,
    fall_db: S,
    log10: &L,
) -> bool {
    exists|logs: Seq<S>|
        are_logs(logs, magnitudes(absolutes, norm), log10) && shown == #[trigger] held_peaks(
            prev,
            magnitudes(absolutes, norm),
            logs,
            fall_db,
        )
}

/// Computes and publishes a smoothed input/output spectrum using a Hann-windowed FFT. All its
/// buffers are made in [`SpectrumAnalyzer::new()`].
pub struct SpectrumAnalyzer<S> {
    pub input_ring: Vec<S>,
    pub output_ring: Vec<S>,
    pub ring_pos: usize,
    pub hop_counter: usize,
    pub window: Vec<S>,
    pub coherent_gain: S,
    pub fall_db: S,
    pub smoothed_input: Vec<S>,
    pub smoothed_output: Vec<S>,
    /// Room for the frame that is handed to the FFT.
    pub spare: Vec<S>,
}

impl<S: Number> SpectrumAnalyzer<S> {
    pub open spec fn wf(&self) -> bool {
        &&& self.input_ring@.len() == SPECTRUM_FFT_SIZE
        &&& self.output_ring@.len() == SPECTRUM_FFT_SIZE
        &&& self.ring_pos < SPECTRUM_FFT_SIZE
        &&& self.hop_counter < SPECTRUM_HOP
        &&& self.window@.len() == SPECTRUM_FFT_SIZE
        &&& self.smoothed_input@.len() == SPECTRUM_BINS
        &&& self.smoothed_output@.len() == SPECTRUM_BINS
    }

    /// The latest input samples, from the oldest to the newest.
    pub open spec fn input_history(&self) -> Seq<S> {
        unrolled(self.input_ring@, self.ring_pos as int)
    }

    /// The latest output samples, from the oldest to the newest.
    pub open spec fn output_history(&self) -> Seq<S> {
        unrolled(self.output_ring@, self.ring_pos as int)
    }

    /// Nothing has been heard or shown yet.
    pub open spec fn at_rest(&self) -> bool {
        &&& self.wf()
        &&& self.input_ring@ == repeated(S::nought(), SPECTRUM_FFT_SIZE as int)
        &&& self.output_ring@ == repeated(S::nought(), SPECTRUM_FFT_SIZE as int)
        &&& self.ring_pos == 0
        &&& self.input_history() == repeated(S::nought(), SPECTRUM_FFT_SIZE as int)
        &&& self.output_history() == repeated(S::nought(), SPECTRUM_FFT_SIZE as int)
        &&& self.hop_counter == 0
        &&& self.smoothed_input@ == repeated(min_db::<S>(), SPECTRUM_BINS as int)
        &&& self.smoothed_output@ == repeated(min_db::<S>(), SPECTRUM_BINS as int)
    }

    /// The window, the gain that goes with it and the fall of the peaks are those of `other`.
    pub open spec fn tuned_as(&self, other: &Self) -> bool {
        &&& self.window@ == other.window@
        &&& self.coherent_gain == other.coherent_gain
        &&& self.fall_db == other.fall_db
    }

    /// The analyzer is one for `sample_rate`, with the window for `cosines`.
    pub open spec fn made_for(&self, sample_rate: S, cosines: Seq<S>) -> bool {
        &&& self.window@ == hann_window(cosines)
        &&& self.coherent_gain == sum(hann_window(cosines)).over(S::count(SPECTRUM_FFT_SIZE as nat))
        &&& self.fall_db == S::fraction(40, 1).times(S::count(SPECTRUM_HOP as nat)).over(
            sample_rate.greater(S::unit()),
        )
    }

    /// The rings, the slot that is written next, the counter and what the analyzer is tuned to are
    /// those of `other`.
    pub open spec fn has_heard_as(&self, other: &Self) -> bool {
        &&& self.input_ring@ == other.input_ring@
        &&& self.output_ring@ == other.output_ring@
        &&& self.ring_pos == other.ring_pos
        &&& self.hop_counter == other.hop_counter
        &&& self.tuned_as(other)
    }

    /// `after` and `data_after` are what the analyzer and the published spectra become when one
    /// sample each of the input and output comes in.
    pub open spec fn steps_to<F: Fn(Vec<S>) -> Vec<S>, L: Fn(S) -> S>(
        &self,
        input: S,
        output: S,
        data: &SpectrumData<S>,
        after: &Self,
        data_after: &SpectrumData<S>,
        fft: &F,
        log10: &L,
    ) -> bool {
        &&& after.wf()
        &&& data_after.wf()
        &&& self.hears(input, output, after)
        &&& after.hop_counter == 0 ==> after.published(data_after, self, fft, log10)
        &&& after.hop_counter != 0 ==> {
            &&& *data_after == *data
            &&& after.smoothed_input@ == self.smoothed_input@
            &&& after.smoothed_output@ == self.smoothed_output@
        }
        &&& data_after.sample_rate == data.sample_rate
    }

    /// `after` is what the rings and the counter become when one sample each of the input and
    /// output comes in.
    pub open spec fn hears(&self, input: S, output: S, after: &Self) -> bool {
        &&& after.input_ring@ == self.input_ring@.update(self.ring_pos as int, input)
        &&& after.output_ring@ == self.output_ring@.update(self.ring_pos as int, output)
        &&& after.ring_pos == (self.ring_pos + 1) % SPECTRUM_FFT_SIZE as int
        &&& after.input_history() == self.input_history().drop_first().push(input)
        &&& after.output_history() == self.output_history().drop_first().push(output)
        &&& after.hop_counter == (self.hop_counter + 1) % SPECTRUM_HOP as int
        &&& after.tuned_as(self)
    }

    /// The spectra of the frames in the rings have been published: `self` and `data` show what has
    /// become with them of what `before` showed.
    pub open spec fn published<F: Fn(Vec<S>) -> Vec<S>, L: Fn(S) -> S>(
        &self,
        data: &SpectrumData<S>,
        before: &Self,
        fft: &F,
        log10: &L,
    ) -> bool {
        &&& exists|absolutes: Seq<S>| #[trigger]
            transforms(fft, windowed(self.input_history(), self.window@), absolutes) && shows(
                absolutes,
                before.smoothed_input@,
                data.input@,
                self.norm(),
                self.fall_db,
                log10,
            )
        &&& exists|absolutes: Seq<S>| #[trigger]
            transforms(fft, windowed(self.output_history(), self.window@), absolutes) && shows(
                absolutes,
                before.smoothed_output@,
                data.output@,
                self.norm(),
                self.fall_db,
                log10,
            )
        &&& self.smoothed_input@ == data.input@
        &&& self.smoothed_output@ == data.output@
    }

    /// What the absolute values of the transformed frame are scaled by, so that a sine of full
    /// level comes out at 1.
    pub open spec fn norm(&self) -> S {
        S::fraction(2, 1).over(S::count(SPECTRUM_FFT_SIZE as nat).times(self.coherent_gain))
    }
}

impl<S: Scalar> SpectrumAnalyzer<S> {
    /// An analyzer for `sample_rate`. `cos` is the cosine.
    pub fn new<C: Fn(S) -> S>(sample_rate: S, cos: &C) -> (r: Self)
        requires
            forall|x: S| #[trigger] call_requires(cos, (x,)),
        ensures
            r.at_rest(),
            exists|cosines: Seq<S>|
                are_window_cosines(cosines, cos) && #[trigger] r.made_for(sample_rate, cosines),
    {
        let mut window: Vec<S> = Vec::new();
        let ghost mut cosines: Seq<S> = Seq::empty();
        for i in 0..SPECTRUM_FFT_SIZE
            invariant
                forall|x: S| #[trigger] call_requires(cos, (x,)),
                cosines.len() == i,
                forall|k: int|
                    0 <= k < i ==> call_ensures(cos, (window_angle::<S>(k),), #[trigger] cosines[k]),
                window@ == hann_window(cosines),
        {
            let angle = S::tau().mul(S::from_usize(i)).div(S::from_usize(SPECTRUM_FFT_SIZE - 1));
            let c: S = cos(angle);
            window.push(S::ratio(1, 2).mul(S::one().sub(c)));
            proof {
                cosines = cosines.push(c);
            }
            assert(window@ =~= hann_window(cosines));
        }
        let coherent_gain = add_up(&window).div(S::from_usize(SPECTRUM_FFT_SIZE));
        let r = SpectrumAnalyzer {
            input_ring: repeat(S::zero(), SPECTRUM_FFT_SIZE),
            output_ring: repeat(S::zero(), SPECTRUM_FFT_SIZE),
            ring_pos: 0,
            hop_counter: 0,
            window,
            coherent_gain,
            fall_db: S::ratio(40, 1).mul(S::from_usize(SPECTRUM_HOP)).div(
                sample_rate.max(S::one()),
            ),
            smoothed_input: repeat(S::ratio(-120, 1), SPECTRUM_BINS),
            smoothed_output: repeat(S::ratio(-120, 1), SPECTRUM_BINS),
            spare: Vec::with_capacity(SPECTRUM_FFT_SIZE),
        };
        assert(r.input_history() =~= r.input_ring@);
        assert(r.output_history() =~= r.output_ring@);
        assert(are_window_cosines(cosines, cos) && r.made_for(sample_rate, cosines));
        r
    }

    pub fn reset(&mut self)
        requires
            old(self).wf(),
        ensures
            final(self).at_rest(),
            final(self).tuned_as(old(self)),
    {
        fill(&mut self.input_ring, S::zero());
        fill(&mut self.output_ring, S::zero());
        self.ring_pos = 0;
        self.hop_counter = 0;
        fill(&mut self.smoothed_input, S::ratio(-120, 1));
        fill(&mut self.smoothed_output, S::ratio(-120, 1));
        assert(self.input_history() =~= self.input_ring@);
        assert(self.output_history() =~= self.output_ring@);
    }

    /// Takes one mono sample each of the input and output into the rings. Tells whether a frame is
    /// due, which it is every `SPECTRUM_HOP` samples.
    pub fn take_in(&mut self, input: S, output: S) -> (due: bool)
        requires
            old(self).wf(),
        ensures
            final(self).wf(),
            old(self).hears(input, output, final(self)),
            due == (final(self).hop_counter == 0),
            final(self).smoothed_input@ == old(self).smoothed_input@,
            final(self).smoothed_output@ == old(self).smoothed_output@,
    {
        self.input_ring[self.ring_pos] = input;
        self.output_ring[self.ring_pos] = output;
        self.ring_pos = self.ring_pos + 1;
        if self.ring_pos == SPECTRUM_FFT_SIZE {
            self.ring_pos = 0;
        }
        assert(self.input_history() =~= old(self).input_history().drop_first().push(input));
        assert(self.output_history() =~= old(self).output_history().drop_first().push(output));
        self.hop_counter = self.hop_counter + 1;
        if self.hop_counter >= SPECTRUM_HOP {
            self.hop_counter = 0;
            true
        } else {
            false
        }
    }

    /// Feed one mono sample each of the input and output. Every `SPECTRUM_HOP` samples an FFT is
    /// computed and published to `data`; tells whether it was. `fft` gives the absolute values of
    /// the bins of a frame, and `log10` is the decimal logarithm.
    pub fn process<F: Fn(Vec<S>) -> Vec<S>, L: Fn(S) -> S>(
        &mut self,
        input: S,
        output: S,
        data: &mut SpectrumData<S>,
        fft: &F,
        log10: &L,
    ) -> (due: bool)
        requires
            old(self).wf(),
            old(data).wf(),
            transforms_frames(fft),
            forall|x: S| #[trigger] call_requires(log10, (x,)),
        ensures
            final(self).wf(),
            final(data).wf(),
            old(self).steps_to(input, output, old(data), final(self), final(data), fft, log10),
            due == (final(self).hop_counter == 0),
    {
        let due = self.take_in(input, output);
        if due {
            self.analyze(data, fft, log10);
        }
        due
    }

    fn analyze<F: Fn(Vec<S>) -> Vec<S>, L: Fn(S) -> S>(
        &mut self,
        data: &mut SpectrumData<S>,
        fft: &F,
        log10: &L,
    )
        requires
            old(self).wf(),
            old(data).wf(),
            transforms_frames(fft),
            forall|x: S| #[trigger] call_requires(log10, (x,)),
        ensures
            final(self).wf(),
            final(data).wf(),
            final(self).has_heard_as(old(self)),
            final(self).published(final(data), old(self), fft, log10),
            final(data).sample_rate == old(data).sample_rate,
    {
        let mut spare: Vec<S> = Vec::new();
        core::mem::swap(&mut spare, &mut self.spare);

        // Input spectrum.
        let frame = self.input_frame(spare);
        let absolutes: Vec<S> = fft(frame);
        self.publish_input(absolutes.as_slice(), data, log10);
        let ghost first = absolutes@;
        assert(bins_of(first) =~= first);

        // Output spectrum.
        let frame = self.output_frame(absolutes);
        let absolutes: Vec<S> = fft(frame);
        self.publish_output(absolutes.as_slice(), data, log10);
        let ghost second = absolutes@;
        assert(bins_of(second) =~= second);

        self.spare = absolutes;
        assert(transforms(fft, windowed(self.input_history(), self.window@), first));
        assert(transforms(fft, windowed(self.output_history(), self.window@), second));
    }

    fn frame(ring: &Vec<S>, pos: usize, window: &Vec<S>, room: Vec<S>) -> (frame: Vec<S>)
        requires
            ring@.len() == SPECTRUM_FFT_SIZE,
            window@.len() == SPECTRUM_FFT_SIZE,
            pos < SPECTRUM_FFT_SIZE,
        ensures
            frame@ == windowed(unrolled(ring@, pos as int), window@),
    {
        let mut frame = room;
        frame.clear();
        for i in 0..SPECTRUM_FFT_SIZE
            invariant
                ring@.len() == SPECTRUM_FFT_SIZE,
                window@.len() == SPECTRUM_FFT_SIZE,
                pos < SPECTRUM_FFT_SIZE,
                frame@.len() == i,
                forall|k: int|
                    0 <= k < i ==> #[trigger] frame@[k] == windowed(
                        unrolled(ring@, pos as int),
                        window@,
                    )[k],
        {
            let idx: usize = (pos + i) % SPECTRUM_FFT_SIZE;
            assert(ring@[idx as int] == unrolled(ring@, pos as int)[i as int]);
            frame.push(ring[idx].mul(window[i]));
        }
        assert(frame@ =~= windowed(unrolled(ring@, pos as int), window@));
        frame
    }

    /// The frame of the latest input samples, which is to be transformed. It is written into
    /// `room`.
    pub fn input_frame(&self, room: Vec<S>) -> (frame: Vec<S>)
        requires
            self.wf(),
        ensures
            frame@ == windowed(self.input_history(), self.window@),
    {
        Self::frame(&self.input_ring, self.ring_pos, &self.window, room)
    }

    /// The frame of the latest output samples, which is to be transformed. It is written into
    /// `room`.
    pub fn output_frame(&self, room: Vec<S>) -> (frame: Vec<S>)
        requires
            self.wf(),
        ensures
            frame@ == windowed(self.output_history(), self.window@),
    {
        Self::frame(&self.output_ring, self.ring_pos, &self.window, room)
    }

    /// Publishes the spectrum of the input. `absolutes` are the absolute values of its transformed
    /// frame, and `log10` is the decimal logarithm.
    pub fn publish_input<L: Fn(S) -> S>(
        &mut self,
        absolutes: &[S],
        data: &mut SpectrumData<S>,
        log10: &L,
    )
        requires
            old(self).wf(),
            old(data).wf(),
            absolutes@.len() >= SPECTRUM_BINS,
            forall|x: S| #[trigger] call_requires(log10, (x,)),
        ensures
            final(self).wf(),
            final(data).wf(),
            shows(
                bins_of(absolutes@),
                old(self).smoothed_input@,
                final(data).input@,
                old(self).norm(),
                old(self).fall_db,
                log10,
            ),
            final(self).smoothed_input@ == final(data).input@,
            final(self).smoothed_output == old(self).smoothed_output,
            final(self).has_heard_as(old(self)),
            final(data).output == old(data).output,
            final(data).sample_rate == old(data).sample_rate,
    {
        let norm = S::ratio(2, 1).div(S::from_usize(SPECTRUM_FFT_SIZE).mul(self.coherent_gain));
        let fall_db = self.fall_db;
        publish_spectrum(
            absolutes,
            &mut self.smoothed_input,
            &mut data.input,
            norm,
            fall_db,
            log10,
        );
        assert(bins_of(old(self).smoothed_input@) =~= old(self).smoothed_input@);
        assert(bins_of(self.smoothed_input@) =~= self.smoothed_input@);
        assert(bins_of(data.input@) =~= data.input@);
    }

    /// Publishes the spectrum of the output. `absolutes` are the absolute values of its transformed
    /// frame, and `log10` is the decimal logarithm.
    pub fn publish_output<L: Fn(S) -> S>(
        &mut self,
        absolutes: &[S],
        data: &mut SpectrumData<S>,
        log10: &L,
    )
        requires
            old(self).wf(),
            old(data).wf(),
            absolutes@.len() >= SPECTRUM_BINS,
            forall|x: S| #[trigger] call_requires(log10, (x,)),
        ensures
            final(self).wf(),
            final(data).wf(),
            shows(
                bins_of(absolutes@),
                old(self).smoothed_output@,
                final(data).output@,
                old(self).norm(),
                old(self).fall_db,
                log10,
            ),
            final(self).smoothed_output@ == final(data).output@,
            final(self).smoothed_input == old(self).smoothed_input,
            final(self).has_heard_as(old(self)),
            final(data).input == old(data).input,
            final(data).sample_rate == old(data).sample_rate,
    {
        let norm = S::ratio(2, 1).div(S::from_usize(SPECTRUM_FFT_SIZE).mul(self.coherent_gain));
        let fall_db = self.fall_db;
        publish_spectrum(
            absolutes,
            &mut self.smoothed_output,
            &mut data.output,
            norm,
            fall_db,
            log10,
        );
        assert(bins_of(old(self).smoothed_output@) =~= old(self).smoothed_output@);
        assert(bins_of(self.smoothed_output@) =~= self.smoothed_output@);
        assert(bins_of(data.output@) =~= data.output@);
    }
}

/// A history after the samples `xs`, one by one, have pushed its oldest ones out.
pub open spec fn pushed_out<S>(history: Seq<S>, xs: Seq<S>) -> Seq<S>
    decreases xs.len(),
{
    if xs.len() == 0 {
        history
    } else {
        pushed_out(history, xs.drop_last()).drop_first().push(xs.last())
    }
}

/// A history that has been fed sample by sample always holds the latest ones, in order.
pub proof fn law_history_holds_the_latest<S>(history: Seq<S>, xs: Seq<S>)
    requires
        history.len() > 0,
    ensures
        pushed_out(history, xs) == (history + xs).skip(xs.len() as int),
    decreases xs.len(),
{
    if xs.len() == 0 {
        assert(history =~= (history + xs).skip(0));
    } else {
        law_history_holds_the_latest(history, xs.drop_last());
        assert(pushed_out(history, xs) =~= (history + xs).skip(xs.len() as int));
    }
}

/// What is shown of a bin is never below its level, is its level or nothing above what was shown
/// before, and never falls by more than `fall_db` in one frame, however results are rounded.
pub proof fn law_peaks_are_held<S: Number>(prev: S, db: S, fall_db: S)
    requires
        compares::<S>(),
        rounds::<S>(),
        prev.finite(),
        db.finite(),
        fall_db.finite(),
        0 as real <= fall_db.value(),
    ensures
        db.upto(held_peak(prev, db, fall_db)),
        prev.minus(fall_db).upto(held_peak(prev, db, fall_db)),
        held_peak(prev, db, fall_db).upto(prev) || held_peak(prev, db, fall_db) == db,
{
    let (fallen, shown) = (prev.minus(fall_db), held_peak(prev, db, fall_db));
    assert(rounded(fallen, prev.value() - fall_db.value()));
    assert(fallen.upto(prev));
    assert(fallen.upto(fallen) && db.upto(db) && prev.upto(prev));
    if prev.below(db) {
        assert(prev.upto(db));
        assert(fallen.upto(db));
    } else {
        assert(db.upto(prev) || prev.upto(db));
        assert(db.upto(prev));
        if fallen.upto(db) {
            assert(level_with(shown, db));
            assert(shown.upto(db) && db.upto(shown));
        } else {
            assert(db.upto(fallen));
            assert(level_with(shown, fallen));
            assert(shown.upto(fallen) && fallen.upto(shown));
        }
    }
}

/// Peaks fall by 40 dB per second: that is what all the frames of a second come to, if the
/// arithmetic does not round.
pub proof fn law_peaks_fall_by_time<S: Number>(
    analyzer: &SpectrumAnalyzer<S>,
    sample_rate: S,
    cosines: Seq<S>,
)
    requires
        exact::<S>(),
        ordered::<S>(),
        analyzer.made_for(sample_rate, cosines),
        sample_rate.value() >= 1 as real,
    ensures
        analyzer.fall_db.value() * (sample_rate.value() / SPECTRUM_HOP as real) == 40 as real,
{
    let (f, r, h) = (analyzer.fall_db.value(), sample_rate.value(), SPECTRUM_HOP as real);
    let rate = sample_rate.greater(S::unit());
    assert(rate.value() == r);
    assert(S::fraction(40, 1).value() == 40 as real);
    let p = S::fraction(40, 1).times(S::count(SPECTRUM_HOP as nat)).value();
    assert(p == 40 as real * 256 as real);
    assert(f * r == p) by (nonlinear_arith)
        requires
            f == p / r,
            r >= 1 as real,
    ;
    assert(f * (r / h) == (f * r) / h) by (nonlinear_arith)
        requires
            h == 256 as real,
    ;
}

/// The analyzer goes through `states` as the samples of `inputs` and `outputs` come in.
pub open spec fn hears_all<S: Number>(
    states: Seq<SpectrumAnalyzer<S>>,
    inputs: Seq<S>,
    outputs: Seq<S>,
) -> bool {
    &&& states.len() == inputs.len() + 1
    &&& inputs.len() == outputs.len()
    &&& forall|k: int|
        0 <= k < inputs.len() ==> states[k].hears(
            #[trigger] inputs[k],
            outputs[k],
            &states[k + 1],
        )
}

/// Those of the first `m` samples `xs` that a ring has room for stand in it, sample `j`, counted
/// from 0, in slot `j % SPECTRUM_FFT_SIZE`.
pub open spec fn holds_in_slots<S>(ring: Seq<S>, xs: Seq<S>, m: int) -> bool {
    &&& ring.len() == SPECTRUM_FFT_SIZE
    &&& forall|j: int|
        0 <= j < m && m <= j + SPECTRUM_FFT_SIZE ==> ring[j % SPECTRUM_FFT_SIZE as int]
            == #[trigger] xs[j]
}

proof fn lemma_slots_differ(j: int, k: int)
    requires
        0 <= j < k < j + SPECTRUM_FFT_SIZE,
    ensures
        j % SPECTRUM_FFT_SIZE as int != k % SPECTRUM_FFT_SIZE as int,
{
}

proof fn lemma_slots_go_on<S>(ring: Seq<S>, xs: Seq<S>, m: int)
    requires
        holds_in_slots(ring, xs, m),
        0 <= m,
    ensures
        holds_in_slots(ring.update(m % SPECTRUM_FFT_SIZE as int, xs[m]), xs, m + 1),
{
    let size = SPECTRUM_FFT_SIZE as int;
    assert forall|j: int| 0 <= j < m + 1 && m + 1 <= j + SPECTRUM_FFT_SIZE implies ring.update(
        m % size,
        xs[m],
    )[j % size] == #[trigger] xs[j] by {
        if j < m {
            lemma_slots_differ(j, m);
        }
    }
}

/// After `m` samples an analyzer that was at rest writes slot `m % SPECTRUM_FFT_SIZE` next and has
/// counted `m % SPECTRUM_HOP`, so that a frame is due after every `SPECTRUM_HOP` samples and at no
/// other time. The latest samples stand in their slots: the `j`-th that came in, as long as it is
/// one of the last `SPECTRUM_FFT_SIZE`, in slot `(j - 1) % SPECTRUM_FFT_SIZE`.
pub proof fn law_samples_stand_in_their_slots<S: Number>(
    states: Seq<SpectrumAnalyzer<S>>,
    inputs: Seq<S>,
    outputs: Seq<S>,
    m: int,
)
    requires
        hears_all(states, inputs, outputs),
        states[0].at_rest(),
        0 <= m <= inputs.len(),
    ensures
        states[m].ring_pos == m % SPECTRUM_FFT_SIZE as int,
        states[m].hop_counter == m % SPECTRUM_HOP as int,
        holds_in_slots(states[m].input_ring@, inputs, m),
        holds_in_slots(states[m].output_ring@, outputs, m),
    decreases m,
{
    if m > 0 {
        law_samples_stand_in_their_slots(states, inputs, outputs, m - 1);
        assert(states[m - 1].hears(inputs[m - 1], outputs[m - 1], &states[m]));
        lemma_slots_go_on(states[m - 1].input_ring@, inputs, m - 1);
        lemma_slots_go_on(states[m - 1].output_ring@, outputs, m - 1);
    }
}

/// `fft` gives the same absolute values whenever it is asked for the same frame.
pub open spec fn is_transform<S: Number, F: Fn(Vec<S>) -> Vec<S>>(fft: &F) -> bool {
    forall|frame: Seq<S>, a: Seq<S>, b: Seq<S>| #[trigger]
        transforms(fft, frame, a) && #[trigger] transforms(fft, frame, b) ==> a == b
}

impl<S: Number> SpectrumAnalyzer<S> {
    /// The latest samples, the counter, what is shown and what the analyzer is tuned to are those
    /// of `other`. Where the samples stand in the rings may differ.
    pub open spec fn agrees_with(&self, other: &Self) -> bool {
        &&& self.input_history() == other.input_history()
        &&& self.output_history() == other.output_history()
        &&& self.hop_counter == other.hop_counter
        &&& self.smoothed_input@ == other.smoothed_input@
        &&& self.smoothed_output@ == other.smoothed_output@
        &&& self.tuned_as(other)
    }
}

/// The same magnitudes are shown the same.
pub proof fn lemma_shown_alike<S: Number, L: Fn(S) -> S>(
    absolutes: Seq<S>,
    prev: Seq<S>,
    a: Seq<S>,
    b: Seq<S>,
    norm: S,
    fall_db: S,
    log10: &L,
)
    requires
        is_function(log10),
        absolutes.len() == prev.len(),
        shows(absolutes, prev, a, norm, fall_db, log10),
        shows(absolutes, prev, b, norm, fall_db, log10),
    ensures
        a == b,
{
    let mags = magnitudes(absolutes, norm);
    let p = choose|logs: Seq<S>|
        are_logs(logs, mags, log10) && a == #[trigger] held_peaks(prev, mags, logs, fall_db);
    let q = choose|logs: Seq<S>|
        are_logs(logs, mags, log10) && b == #[trigger] held_peaks(prev, mags, logs, fall_db);
    assert forall|i: int| 0 <= i < prev.len() implies #[trigger] a[i] == b[i] by {
        if S::fraction(1, 1000000000).below(mags[i]) {
            assert(call_ensures(log10, (mags[i],), p[i]));
            assert(call_ensures(log10, (mags[i],), q[i]));
        }
    }
    assert(a =~= b);
}

/// Where the samples stand in the rings does not matter: two analyzers that agree on the latest
/// samples publish the same spectra for the same next samples, and go on agreeing.
pub proof fn law_the_slot_does_not_matter<S: Number, F: Fn(Vec<S>) -> Vec<S>, L: Fn(S) -> S>(
    a: &SpectrumAnalyzer<S>,
    b: &SpectrumAnalyzer<S>,
    input: S,
    output: S,
    a_data: &SpectrumData<S>,
    b_data: &SpectrumData<S>,
    a_after: &SpectrumAnalyzer<S>,
    b_after: &SpectrumAnalyzer<S>,
    a_data_after: &SpectrumData<S>,
    b_data_after: &SpectrumData<S>,
    fft: &F,
    log10: &L,
)
    requires
        transforms_frames(fft),
        is_transform(fft),
        is_function(log10),
        a.wf(),
        b.wf(),
        a.agrees_with(b),
        a.steps_to(input, output, a_data, a_after, a_data_after, fft, log10),
        b.steps_to(input, output, b_data, b_after, b_data_after, fft, log10),
    ensures
        a_after.agrees_with(b_after),
        a_after.hop_counter == 0 ==> a_data_after.input@ == b_data_after.input@,
        a_after.hop_counter == 0 ==> a_data_after.output@ == b_data_after.output@,
{
    if a_after.hop_counter == 0 {
        let frame = windowed(a_after.input_history(), a_after.window@);
        let p = choose|absolutes: Seq<S>| #[trigger]
            transforms(fft, frame, absolutes) && shows(
                absolutes,
                a.smoothed_input@,
                a_data_after.input@,
                a_after.norm(),
                a_after.fall_db,
                log10,
            );
        let q = choose|absolutes: Seq<S>| #[trigger]
            transforms(fft, frame, absolutes) && shows(
                absolutes,
                b.smoothed_input@,
                b_data_after.input@,
                b_after.norm(),
                b_after.fall_db,
                log10,
            );
        assert(p == q);
        lemma_shown_alike(
            p,
            a.smoothed_input@,
            a_data_after.input@,
            b_data_after.input@,
            a_after.norm(),
            a_after.fall_db,
            log10,
        );
        let frame = windowed(a_after.output_history(), a_after.window@);
        let p = choose|absolutes: Seq<S>| #[trigger]
            transforms(fft, frame, absolutes) && shows(
                absolutes,
                a.smoothed_output@,
                a_data_after.output@,
                a_after.norm(),
                a_after.fall_db,
                log10,
            );
        let q = choose|absolutes: Seq<S>| #[trigger]
            transforms(fft, frame, absolutes) && shows(
                absolutes,
                b.smoothed_output@,
                b_data_after.output@,
                b_after.norm(),
                b_after.fall_db,
                log10,
            );
        assert(p == q);
        lemma_shown_alike(
            p,
            a.smoothed_output@,
            a_data_after.output@,
            b_data_after.output@,
            a_after.norm(),
            a_after.fall_db,
            log10,
        );
    }
}

/// The analyzer goes through `states`, and what is published through `data`, as the samples of
/// `inputs` and `outputs` come in.
pub open spec fn steps_through<S: Number, F: Fn(Vec<S>) -> Vec<S>, L: Fn(S) -> S>(
    states: Seq<SpectrumAnalyzer<S>>,
    data: Seq<SpectrumData<S>>,
    inputs: Seq<S>,
    outputs: Seq<S>,
    fft: &F,
    log10: &L,
) -> bool {
    &&& states.len() == inputs.len() + 1
    &&& data.len() == inputs.len() + 1
    &&& inputs.len() == outputs.len()
    &&& states[0].wf()
    &&& forall|k: int|
        0 <= k < inputs.len() ==> states[k].steps_to(
            #[trigger] inputs[k],
            outputs[k],
            &data[k],
            &states[k + 1],
            &data[k + 1],
            fft,
            log10,
        )
}

/// After a reset an analyzer publishes what a new one for the same sample rate would: the two agree
/// from then on, and whatever the one publishes, the other does.
pub proof fn law_a_reset_analyzer_is_as_new<
    S: Number,
    W: Fn(S) -> S,
    F: Fn(Vec<S>) -> Vec<S>,
    L: Fn(S) -> S,
>(
    reset: Seq<SpectrumAnalyzer<S>>,
    fresh: Seq<SpectrumAnalyzer<S>>,
    reset_data: Seq<SpectrumData<S>>,
    fresh_data: Seq<SpectrumData<S>>,
    inputs: Seq<S>,
    outputs: Seq<S>,
    sample_rate: S,
    reset_cosines: Seq<S>,
    fresh_cosines: Seq<S>,
    cos: &W,
    fft: &F,
    log10: &L,
    m: int,
)
    requires
        is_function(cos),
        transforms_frames(fft),
        is_transform(fft),
        is_function(log10),
        are_window_cosines(reset_cosines, cos),
        are_window_cosines(fresh_cosines, cos),
        reset[0].at_rest(),
        reset[0].made_for(sample_rate, reset_cosines),
        fresh[0].at_rest(),
        fresh[0].made_for(sample_rate, fresh_cosines),
        steps_through(reset, reset_data, inputs, outputs, fft, log10),
        steps_through(fresh, fresh_data, inputs, outputs, fft, log10),
        0 <= m <= inputs.len(),
    ensures
        reset[m].wf(),
        fresh[m].wf(),
        reset[m].agrees_with(&fresh[m]),
        m > 0 && reset[m].hop_counter == 0 ==> {
            &&& reset_data[m].input@ == fresh_data[m].input@
            &&& reset_data[m].output@ == fresh_data[m].output@
        },
    decreases m,
{
    if m == 0 {
        assert forall|i: int| 0 <= i < SPECTRUM_FFT_SIZE implies #[trigger] reset_cosines[i]
            == fresh_cosines[i] by {
            assert(call_ensures(cos, (window_angle::<S>(i),), reset_cosines[i]));
            assert(call_ensures(cos, (window_angle::<S>(i),), fresh_cosines[i]));
        }
        assert(reset_cosines =~= fresh_cosines);
    } else {
        law_a_reset_analyzer_is_as_new(
            reset,
            fresh,
            reset_data,
            fresh_data,
            inputs,
            outputs,
            sample_rate,
            reset_cosines,
            fresh_cosines,
            cos,
            fft,
            log10,
            m - 1,
        );
        assert(reset[m - 1].steps_to(
            inputs[m - 1],
            outputs[m - 1],
            &reset_data[m - 1],
            &reset[m],
            &reset_data[m],
            fft,
            log10,
        ));
        assert(fresh[m - 1].steps_to(
            inputs[m - 1],
            outputs[m - 1],
            &fresh_data[m - 1],
            &fresh[m],
            &fresh_data[m],
            fft,
            log10,
        ));
        law_the_slot_does_not_matter(
            &reset[m - 1],
            &fresh[m - 1],
            inputs[m - 1],
            outputs[m - 1],
            &reset_data[m - 1],
            &fresh_data[m - 1],
            &reset[m],
            &fresh[m],
            &reset_data[m],
            &fresh_data[m],
            fft,
            log10,
        );
    }
}

/// A sine of full level comes out at 1, and so at 0 dB, if the arithmetic does not round: it is one
/// whose bin is half of what the window adds up to.
pub proof fn law_full_level_is_zero_db<S: Number>(
    analyzer: &SpectrumAnalyzer<S>,
    absolute: S,
    log: S,
)
    requires
        exact::<S>(),
        ordered::<S>(),
        analyzer.coherent_gain.value() != 0 as real,
        2 as real * absolute.value() == SPECTRUM_FFT_SIZE as real * analyzer.coherent_gain.value(),
        absolute.times(analyzer.norm()).value() == 1 as real ==> log.value() == 0 as real,
    ensures
        absolute.times(analyzer.norm()).value() == 1 as real,
        level(absolute.times(analyzer.norm()), log).value() == 0 as real,
{
    let (a, g, n) = (absolute.value(), analyzer.coherent_gain.value(), SPECTRUM_FFT_SIZE as real);
    let two = S::fraction(2, 1);
    assert(two.value() == 2 as real);
    let d = S::count(SPECTRUM_FFT_SIZE as nat).times(analyzer.coherent_gain).value();
    assert(d == n * g);
    assert(d != 0 as real) by (nonlinear_arith)
        requires
            d == n * g,
            n == 4096 as real,
            g != 0 as real,
    ;
    let r = analyzer.norm().value();
    assert(r == 2 as real / d);
    assert(r * d == 2 as real) by (nonlinear_arith)
        requires
            r == 2 as real / d,
            d != 0 as real,
    ;
    assert(a * r == 1 as real) by (nonlinear_arith)
        requires
            2 as real * a == d,
            r * d == 2 as real,
    ;
    let small = S::fraction(1, 1000000000);
    assert(small.value() == 1 as real / 1000000000 as real);
    assert(S::fraction(20, 1).value() == 20 as real);
}

/// What the window adds up to is what the coherent gain is multiplied by, so that a bin which is
/// half of it is one of full level, if the arithmetic does not round.
pub proof fn law_coherent_gain_is_the_mean<S: Number>(
    analyzer: &SpectrumAnalyzer<S>,
    sample_rate: S,
    cosines: Seq<S>,
)
    requires
        exact::<S>(),
        analyzer.made_for(sample_rate, cosines),
    ensures
        SPECTRUM_FFT_SIZE as real * analyzer.coherent_gain.value() == sum(analyzer.window@).value(),
{
    let (t, n) = (sum(hann_window(cosines)).value(), SPECTRUM_FFT_SIZE as real);
    assert(S::count(SPECTRUM_FFT_SIZE as nat).value() == n);
    assert(n * (t / n) == t) by (nonlinear_arith)
        requires
            n == 4096 as real,
    ;
}

} // verus!
