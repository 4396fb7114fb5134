//! What the editor shows, and how large.
use vstd::prelude::*;

use crate::crossover::{MAX_BANDS, MAX_CROSSOVERS};
use crate::params::{initial_xovers, MbTransientParams};
#[allow(unused_imports)]
use crate::params::default_xovers;
use crate::scalar::{clamp, Scalar};
#[allow(unused_imports)]
use crate::scalar::{clamped, exact, lemma_whole, ordered, Number};

verus! {

/// Reference window size used for proportional scaling.
pub const REF_WIDTH: i32 = 440;

pub const REF_HEIGHT: i32 = 160;

/// How large the editor is drawn in a window of the given size.
pub open spec fn scale_of<S: Number>(width: S, height: S) -> S {
    clamped(
        width.over(S::fraction(REF_WIDTH as int, 1)).lesser(
            height.over(S::fraction(REF_HEIGHT as int, 1)),
        ),
        S::fraction(4, 5),
        S::fraction(2, 1),
    )
}

/// How high the spectrum is drawn when `available` is left below the title.
pub open spec fn height_of<S: Number>(available: S, scale: S) -> S {
    available.minus(S::fraction(30, 1).times(scale)).greater(S::fraction(90, 1))
}

/// How large the editor is drawn in a window of the given size.
pub fn ui_scale<S: Scalar>(width: S, height: S) -> (r: S)
    ensures
        r == scale_of(width, height),
        r == clamped(
            width.over(S::fraction(REF_WIDTH as int, 1)).lesser(
                height.over(S::fraction(REF_HEIGHT as int, 1)),
            ),
            S::fraction(4, 5),
            S::fraction(2, 1),
        ),
{
    clamp(
        width.div(S::ratio(REF_WIDTH, 1)).min(height.div(S::ratio(REF_HEIGHT, 1))),
        S::ratio(4, 5),
        S::ratio(2, 1),
    )
}

/// How high the spectrum is drawn when `available` is left below the title.
pub fn spectrum_height<S: Scalar>(available: S, scale: S) -> (r: S)
    ensures
        r == height_of(available, scale),
        r == available.minus(S::fraction(30, 1).times(scale)).greater(S::fraction(90, 1)),
{
    available.sub(S::ratio(30, 1).mul(scale)).max(S::ratio(90, 1))
}

/// GUI-only state: eased display values and sticky hover/cursor state.
pub struct GuiState<S> {
    pub display_p: [S; MAX_BANDS],
    pub display_xover: [S; MAX_CROSSOVERS],
    pub hovered_split: Option<usize>,
    pub last_num_bands: i32,
}

/// What is shown before a frame moves it: what was shown, or the target itself, if that belongs to
/// another layout.
pub open spec fn snapped<S: Number>(shown: S, target: S, bands: i32, last_bands: i32) -> S {
    if bands != last_bands {
        target
    } else {
        shown
    }
}

/// `shown`, a fifth of the way closer to `target`.
pub open spec fn eased<S: Number>(shown: S, target: S) -> S {
    shown.plus(target.minus(shown).times(S::fraction(1, 5)))
}

fn ease<S: Scalar>(shown: S, target: S) -> (r: S)
    ensures
        r == eased(shown, target),
{
    shown.add(target.sub(shown).mul(S::ratio(1, 5)))
}

impl<S: Scalar> GuiState<S> {
    /// Ease the displayed values toward the actual values so the bars and splits animate smoothly
    /// instead of snapping. When bands are added/removed, snap the bars and splits to their new
    /// positions first so they don't cross over.
    pub fn follow(&mut self, params: &MbTransientParams<S>)
        ensures
            forall|band: int|
                0 <= band < MAX_BANDS ==> #[trigger] final(self).display_p[band] == eased(
                    snapped(
                        old(self).display_p[band],
                        params@.shapes[band],
                        params.num_bands,
                        old(self).last_num_bands,
                    ),
                    params@.shapes[band],
                ),
            forall|i: int|
                0 <= i < MAX_CROSSOVERS ==> #[trigger] final(self).display_xover[i] == eased(
                    snapped(
                        old(self).display_xover[i],
                        params@.crossovers[i],
                        params.num_bands,
                        old(self).last_num_bands,
                    ),
                    params@.crossovers[i],
                ),
            forall|band: int|
                0 <= band < MAX_BANDS ==> #[trigger] final(self).display_p[band] == eased(
                    if params.num_bands != old(self).last_num_bands {
                        params@.shapes[band]
                    } else {
                        old(self).display_p[band]
                    },
                    params@.shapes[band],
                ),
            forall|i: int|
                0 <= i < MAX_CROSSOVERS ==> #[trigger] final(self).display_xover[i] == eased(
                    if params.num_bands != old(self).last_num_bands {
                        params@.crossovers[i]
                    } else {
                        old(self).display_xover[i]
                    },
                    params@.crossovers[i],
                ),
            final(self).last_num_bands == params.num_bands,
            final(self).hovered_split == old(self).hovered_split,
    {
        let snap: bool = params.num_bands != self.last_num_bands;
        if snap {
            self.last_num_bands = params.num_bands;
            for band in 0..MAX_BANDS
                invariant
                    self.display_xover == old(self).display_xover,
                    self.hovered_split == old(self).hovered_split,
                    self.last_num_bands == params.num_bands,
                    forall|k: int| 0 <= k < band ==> #[trigger] self.display_p[k] == params@.shapes[k],
            {
                self.display_p[band] = *params.band(band);
            }
            for i in 0..MAX_CROSSOVERS
                invariant
                    self.hovered_split == old(self).hovered_split,
                    self.last_num_bands == params.num_bands,
                    forall|k: int|
                        0 <= k < MAX_BANDS ==> #[trigger] self.display_p[k] == params@.shapes[k],
                    forall|k: int|
                        0 <= k < i ==> #[trigger] self.display_xover[k] == params@.crossovers[k],
            {
                self.display_xover[i] = *params.crossover(i);
            }
        }
        let ghost before = *self;
        for band in 0..MAX_BANDS
            invariant
                self.display_xover == before.display_xover,
                self.hovered_split == before.hovered_split,
                self.last_num_bands == before.last_num_bands,
                forall|k: int|
                    0 <= k < MAX_BANDS ==> #[trigger] self.display_p[k] == if k < band {
                        eased(before.display_p[k], params@.shapes[k])
                    } else {
                        before.display_p[k]
                    },
        {
            self.display_p[band] = ease(self.display_p[band], *params.band(band));
        }
        for i in 0..MAX_CROSSOVERS
            invariant
                self.hovered_split == before.hovered_split,
                self.last_num_bands == before.last_num_bands,
                forall|k: int|
                    0 <= k < MAX_BANDS ==> #[trigger] self.display_p[k] == eased(
                        before.display_p[k],
                        params@.shapes[k],
                    ),
                forall|k: int|
                    0 <= k < MAX_CROSSOVERS ==> #[trigger] self.display_xover[k] == if k < i {
                        eased(before.display_xover[k], params@.crossovers[k])
                    } else {
                        before.display_xover[k]
                    },
        {
            self.display_xover[i] = ease(self.display_xover[i], *params.crossover(i));
        }
    }
}

impl<S: Scalar> Default for GuiState<S> {
    fn default() -> (r: Self)
        ensures
            r.display_p@ == Seq::new(MAX_BANDS as nat, |i: int| S::nought()),
            r.display_xover@ == default_xovers::<S>(),
            r.hovered_split is None,
            r.last_num_bands == 4,
    {
        let r = GuiState {
            display_p: [S::zero(); MAX_BANDS],
            display_xover: initial_xovers(),
            hovered_split: None,
            last_num_bands: 4,
        };
        assert(r.display_p@ =~= Seq::new(MAX_BANDS as nat, |i: int| S::nought()));
        r
    }
}

/// Each frame takes a displayed value a fifth of the way to its target, and it stays there once it
/// has arrived.
pub proof fn law_display_closes_in<S: Number>(shown: S, target: S)
    requires
        exact::<S>(),
    ensures
        5 as real * (target.value() - eased(shown, target).value()) == 4 as real * (target.value()
            - shown.value()),
        shown.value() == target.value() ==> eased(shown, target).value() == target.value(),
{
    let (d, f) = (target.value() - shown.value(), S::fraction(1, 5).value());
    assert(f == 1 as real / 5 as real);
    assert(5 as real * (d * f) == d) by (nonlinear_arith)
        requires
            f == 1 as real / 5 as real,
    ;
}

/// The editor scales with its window in proportion: it is as large as both the width, in relation to
/// 440 points, and the height, in relation to 160, have room for, from four fifths to twice its
/// size. This holds if the arithmetic does not round.
pub proof fn law_the_editor_scales_with_the_window<S: Number>(width: S, height: S)
    requires
        exact::<S>(),
        ordered::<S>(),
    ensures
        ({
            let (s, w, h) = (scale_of(width, height).value(), width.value(), height.value());
            &&& 4 as real <= 5 as real * s && s <= 2 as real
            &&& w >= 352 as real && h >= 128 as real ==> 440 as real * s <= w && 160 as real * s <= h
            &&& w <= 352 as real || h <= 128 as real ==> 5 as real * s == 4 as real
            &&& w >= 880 as real && h >= 320 as real ==> s == 2 as real
            &&& 352 as real <= w <= 880 as real && 160 as real * w <= 440 as real * h ==> 440 as real * s
                == w
            &&& 128 as real <= h <= 320 as real && 440 as real * h <= 160 as real * w ==> 160 as real * s
                == h
        }),
{
    lemma_whole::<S>(440);
    lemma_whole::<S>(160);
    lemma_whole::<S>(2);
    assert(S::fraction(4, 5).value() == 4 as real / 5 as real);
}

/// The spectrum takes the height that is left but for 30 points at the scale, and 90 at least, if
/// the arithmetic does not round.
pub proof fn law_the_spectrum_takes_what_is_left<S: Number>(available: S, scale: S)
    requires
        exact::<S>(),
        ordered::<S>(),
    ensures
        ({
            let (h, left) = (
                height_of(available, scale).value(),
                available.value() - 30 as real * scale.value(),
            );
            &&& left >= 90 as real ==> h == left
            &&& left <= 90 as real ==> h == 90 as real
        }),
{
    lemma_whole::<S>(30);
    lemma_whole::<S>(90);
}

/// When the number of bands changes, everything is shown where it belongs at once; otherwise it
/// closes in on it, and never jumps. This holds if the arithmetic does not round.
pub proof fn law_the_display_snaps_to_a_new_layout<S: Number>(
    shown: S,
    target: S,
    bands: i32,
    last_bands: i32,
)
    requires
        exact::<S>(),
    ensures
        ({
            let next = eased(snapped(shown, target, bands, last_bands), target).value();
            &&& bands != last_bands ==> next == target.value()
            &&& bands == last_bands ==> 5 as real * (next - shown.value()) == target.value()
                - shown.value()
        }),
{
    law_display_closes_in(shown, target);
    law_display_closes_in(target, target);
}

} // verus!
