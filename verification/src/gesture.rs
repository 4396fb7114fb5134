//! What the mouse does on the spectrum and on the text readouts.
use vstd::prelude::*;

use crate::crossover::MAX_BANDS;
use crate::gui::GuiState;
#[allow(unused_imports)]
use crate::params::{add_band_edits, band_of, delete_band_edits, Layout};
use crate::params::{add_band, band_index, delete_band, Edit, MbTransientParams, Target};
use crate::plot::{Plot, Point};
#[allow(unused_imports)]
use crate::rounding::compares;
use crate::scalar::{clamp, Scalar};
#[allow(unused_imports)]
use crate::scalar::{clamped, exact, ordered, Number};

verus! {

/// Where the mouse is, and the frequency that stands there.
#[derive(Clone, Copy, Debug)]
pub struct Pointer<S> {
    pub at: Point<S>,
    pub freq: S,
}

impl<S: Number> Pointer<S> {
    /// The mouse is at `at`, and the frequency is the one that stands there in `plot`.
    pub open spec fn points<W: Fn(S, S) -> S>(
        self,
        at: Point<S>,
        plot: Plot<S>,
        max_freq: S,
        powf: &W,
    ) -> bool {
        &&& self.at == at
        &&& Plot::is_freq_at(plot.fraction_of(at.x), max_freq, powf, self.freq)
    }
}

impl<S: Scalar> Pointer<S> {
    /// The mouse is at `at` in `plot`. `powf` raises its first argument to the power of its second
    /// one.
    pub fn new<W: Fn(S, S) -> S>(at: Point<S>, plot: &Plot<S>, max_freq: S, powf: &W) -> (r: Self)
        requires
            forall|a: S, b: S| #[trigger] call_requires(powf, (a, b)),
        ensures
            r.points(at, *plot, max_freq, powf),
            r.at == at,
            Plot::is_freq_at(plot.fraction_of(at.x), max_freq, powf, r.freq),
    {
        Pointer { at, freq: plot.x_to_freq(at.x, max_freq, powf) }
    }
}

/// The cursor that is shown while something is hovered.
#[derive(Clone, Copy, Debug, PartialEq, Eq, Structural)]
pub enum Cursor {
    ResizeVertical,
    ResizeHorizontal,
}

// ---- splits under the mouse ----

/// How far `x` is from a line.
pub open spec fn distance<S: Number>(line: S, x: S) -> S {
    line.minus(x).size()
}

/// How far `x` is from the nearest of the first `n` lines; `threshold`, if none is nearer.
pub open spec fn nearest_distance<S: Number>(lines: Seq<S>, x: S, threshold: S, n: int) -> S
    decreases n,
{
    if n <= 0 {
        threshold
    } else {
        let best = nearest_distance(lines, x, threshold, n - 1);
        if distance(lines[n - 1], x).below(best) {
            distance(lines[n - 1], x)
        } else {
            best
        }
    }
}

/// The nearest to `x` of the first `n` lines, if one is nearer than `threshold`; the first of
/// them, if several are equally near.
pub open spec fn nearest_of<S: Number>(lines: Seq<S>, x: S, threshold: S, n: int) -> Option<usize>
    decreases n,
{
    if n <= 0 {
        None
    } else if distance(lines[n - 1], x).below(nearest_distance(lines, x, threshold, n - 1)) {
        Some((n - 1) as usize)
    } else {
        nearest_of(lines, x, threshold, n - 1)
    }
}

/// The nearest line to `x`, if one is nearer than `threshold`.
pub fn nearest_line<S: Scalar>(lines: &[S], x: S, threshold: S) -> (r: Option<usize>)
    ensures
        r == nearest_of(lines@, x, threshold, lines@.len() as int),
{
    let mut best: Option<usize> = None;
    let mut best_dist = threshold;
    for i in 0..lines.len()
        invariant
            best_dist == nearest_distance(lines@, x, threshold, i as int),
            best == nearest_of(lines@, x, threshold, i as int),
    {
        let dist = lines[i].sub(x).abs();
        if dist.lt(best_dist) {
            best_dist = dist;
            best = Some(i);
        }
    }
    best
}

/// The split that is highlighted when the mouse is at `x`, or nowhere. Once a split is highlighted
/// (`prev`), its hit region stays enlarged.
pub open spec fn highlighted<S: Number>(
    x: Option<S>,
    lines: Seq<S>,
    prev: Option<usize>,
    scale: S,
) -> Option<usize> {
    match x {
        None => None,
        Some(x) => match nearest_of(lines, x, S::fraction(10, 1).times(scale), lines.len() as int) {
            Some(line) => Some(line),
            None => match prev {
                Some(p) => if p < lines.len() && distance(lines[p as int], x).below(
                    S::fraction(22, 1).times(scale),
                ) {
                    Some(p)
                } else {
                    None
                },
                None => None,
            },
        },
    }
}

/// The split that is highlighted when the mouse is at `x`, or nowhere.
pub fn hovered_split<S: Scalar>(x: Option<S>, lines: &[S], prev: Option<usize>, scale: S) -> (r:
    Option<usize>)
    ensures
        r == highlighted(x, lines@, prev, scale),
        r matches Some(line) ==> line < lines@.len(),
{
    match x {
        None => None,
        Some(x) => {
            let n: usize = lines.len();
            proof {
                lemma_nearest_is_a_line(lines@, x, S::fraction(10, 1).times(scale), n as int);
            }
            match nearest_line(lines, x, S::ratio(10, 1).mul(scale)) {
                Some(line) => Some(line),
                None => match prev {
                    Some(p) => {
                        if p < n && lines[p].sub(x).abs().lt(S::ratio(22, 1).mul(scale)) {
                            Some(p)
                        } else {
                            None
                        }
                    },
                    None => None,
                },
            }
        },
    }
}

proof fn lemma_nearest_is_a_line<S: Number>(lines: Seq<S>, x: S, threshold: S, n: int)
    requires
        n <= lines.len() <= usize::MAX,
    ensures
        nearest_of(lines, x, threshold, n) matches Some(line) ==> line < n,
    decreases n,
{
    if n > 0 {
        lemma_nearest_is_a_line(lines, x, threshold, n - 1);
    }
}

/// The nearest line is nearer than the threshold, no other one is nearer, and it is the first of
/// those that are as near; and there is none only if no line is nearer than the threshold. A
/// distance that is no number is as good as none.
pub proof fn law_nearest_is_nearest<S: Number>(lines: Seq<S>, x: S, threshold: S, n: int)
    requires
        compares::<S>(),
        0 <= n <= lines.len() <= usize::MAX,
    ensures
        match nearest_of(lines, x, threshold, n) {
            Some(line) => {
                &&& line < n
                &&& distance(lines[line as int], x).below(threshold)
                &&& forall|i: int|
                    0 <= i < n ==> !distance(#[trigger] lines[i], x).below(
                        distance(lines[line as int], x),
                    )
                &&& forall|i: int|
                    0 <= i < line && distance(lines[i], x).same(distance(lines[i], x))
                        ==> distance(lines[line as int], x).below(
                        distance(#[trigger] lines[i], x),
                    )
            },
            None => forall|i: int|
                0 <= i < n ==> !distance(#[trigger] lines[i], x).below(threshold),
        },
    decreases n,
{
    lemma_nearest_distance(lines, x, threshold, n);
    if n > 0 {
        law_nearest_is_nearest(lines, x, threshold, n - 1);
        lemma_nearest_distance(lines, x, threshold, n - 1);
        let (best, d) = (
            nearest_distance(lines, x, threshold, n - 1),
            distance(lines[n - 1], x),
        );
        if d.below(best) {
            assert forall|i: int| 0 <= i < n - 1 implies !distance(#[trigger] lines[i], x).below(d) by {
                lemma_nearer_still(distance(lines[i], x), d, best);
            }
            assert forall|i: int|
                0 <= i < n - 1 && distance(lines[i], x).same(distance(lines[i], x)) implies d.below(
                distance(#[trigger] lines[i], x),
            ) by {
                lemma_not_nearer(distance(lines[i], x), d, best);
            }
        }
        assert(!d.below(d));
    }
}

proof fn lemma_nearer_still<S: Number>(a: S, d: S, best: S)
    requires
        compares::<S>(),
        d.below(best),
        !a.below(best),
    ensures
        !a.below(d),
{
    if a.below(d) {
        assert(a.upto(d) && d.upto(best));
        assert(a.upto(best));
        assert(best.upto(a) ==> best.upto(d));
    }
}

proof fn lemma_not_nearer<S: Number>(a: S, d: S, best: S)
    requires
        compares::<S>(),
        d.below(best),
        !a.below(best),
        a.same(a),
    ensures
        d.below(a),
{
    assert(d.upto(best) && !best.upto(d));
    assert(best.upto(best));
    assert(a.upto(best) || best.upto(a));
    assert(best.upto(a));
    assert(d.upto(a));
    assert(a.upto(d) ==> best.upto(d));
}

proof fn lemma_nearest_distance<S: Number>(lines: Seq<S>, x: S, threshold: S, n: int)
    requires
        0 <= n <= lines.len() <= usize::MAX,
    ensures
        nearest_distance(lines, x, threshold, n) == match nearest_of(lines, x, threshold, n) {
            Some(line) => distance(lines[line as int], x),
            None => threshold,
        },
    decreases n,
{
    if n > 0 {
        lemma_nearest_distance(lines, x, threshold, n - 1);
    }
}

// ---- dragging ----

/// What is being dragged on the spectrum.
#[derive(Clone, Copy, Debug)]
pub struct Drag<S> {
    pub split: Option<usize>,
    pub band: Option<usize>,
    /// The shaping value and the height of the mouse when the drag of a band began.
    pub start_p: Option<S>,
    pub start_y: Option<S>,
}

/// `x`, or `default` if there is none.
pub open spec fn or_else<S>(x: Option<S>, default: S) -> S {
    match x {
        Some(x) => x,
        None => default,
    }
}

impl<S: Number> Drag<S> {
    /// Nothing is being dragged.
    pub open spec fn idle(self) -> bool {
        self.split is None && self.band is None
    }

    /// What a drag that begins at `pointer` takes hold of: the highlighted split, or the band under
    /// the mouse.
    pub open spec fn target(layout: Layout<S>, pointer: Pointer<S>, hovered_split: Option<usize>) -> Target {
        match hovered_split {
            Some(line) => Target::Crossover(line),
            None => Target::Band(band_of(layout.used_crossovers(), pointer.freq) as usize),
        }
    }

    /// The drag once it has taken hold of what `target` says.
    pub open spec fn holding(
        self,
        layout: Layout<S>,
        pointer: Pointer<S>,
        hovered_split: Option<usize>,
    ) -> Self {
        match Self::target(layout, pointer, hovered_split) {
            Target::Crossover(line) => Drag { split: Some(line), ..self },
            Target::Band(band) => Drag {
                band: Some(band),
                start_p: Some(layout.shapes[band as int]),
                start_y: Some(pointer.at.y),
                ..self
            },
        }
    }

    /// The shaping value that a drag of `band` has come to at the height `y`: dragging over the full
    /// height sweeps the whole range.
    pub open spec fn shape_at(self, layout: Layout<S>, band: int, y: S, height: S) -> S {
        clamped(
            or_else(self.start_p, layout.shapes[band]).plus(
                or_else(self.start_y, y).minus(y).times(S::fraction(2, 1).over(height)),
            ),
            S::fraction(-1, 1),
            S::unit(),
        )
    }

    /// A split is being dragged, and it is still there.
    pub open spec fn moves_split(self, layout: Layout<S>) -> bool {
        self.split matches Some(line) && line < layout.bands - 1
    }

    /// What a drag to `pointer` changes.
    pub open spec fn drag_edits(
        self,
        layout: Layout<S>,
        pointer: Pointer<S>,
        height: S,
        max_freq: S,
    ) -> Seq<Edit<S>> {
        match self.split {
            Some(line) => if line < layout.bands - 1 {
                seq![
                    Edit::Assign(
                        Target::Crossover(line),
                        clamped(pointer.freq, S::fraction(20, 1), max_freq),
                    ),
                ]
            } else {
                Seq::empty()
            },
            None => match self.band {
                Some(band) => if band < layout.bands {
                    seq![
                        Edit::Assign(
                            Target::Band(band),
                            self.shape_at(layout, band as int, pointer.at.y, height),
                        ),
                    ]
                } else {
                    Seq::empty()
                },
                None => Seq::empty(),
            },
        }
    }

    /// What the end of a drag tells the host: the gesture is over, if its target is still there.
    pub open spec fn stop_edits(self, layout: Layout<S>) -> Seq<Edit<S>> {
        let split = match self.split {
            Some(line) => if line < layout.bands - 1 {
                seq![Edit::<S>::End(Target::Crossover(line))]
            } else {
                Seq::empty()
            },
            None => Seq::empty(),
        };
        let band = match self.band {
            Some(band) => if band < layout.bands {
                seq![Edit::<S>::End(Target::Band(band))]
            } else {
                Seq::empty()
            },
            None => Seq::empty(),
        };
        split + band
    }
}

impl<S: Scalar> Drag<S> {
    /// Nothing is being dragged.
    pub fn new() -> (r: Self)
        ensures
            r.idle(),
            r.start_p is None,
            r.start_y is None,
    {
        Drag { split: None, band: None, start_p: None, start_y: None }
    }

    /// A drag begins at `pointer`.
    pub fn started(
        &mut self,
        params: &MbTransientParams<S>,
        pointer: Option<Pointer<S>>,
        hovered_split: Option<usize>,
    ) -> (edits: Vec<Edit<S>>)
        requires
            params@.wf(),
        ensures
            match pointer {
                None => *final(self) == *old(self) && edits@ == Seq::<Edit<S>>::empty(),
                Some(pointer) => {
                    &&& *final(self) == old(self).holding(params@, pointer, hovered_split)
                    &&& edits@ == seq![Edit::<S>::Begin(Self::target(params@, pointer, hovered_split))]
                },
            },
    {
        let mut edits: Vec<Edit<S>> = Vec::new();
        if let Some(pointer) = pointer {
            match hovered_split {
                Some(line) => {
                    self.split = Some(line);
                    edits.push(Edit::Begin(Target::Crossover(line)));
                },
                None => {
                    let band: usize = band_index(params, pointer.freq, params.num_bands as usize);
                    self.band = Some(band);
                    self.start_p = Some(*params.band(band));
                    self.start_y = Some(pointer.at.y);
                    edits.push(Edit::Begin(Target::Band(band)));
                },
            }
            assert(edits@ =~= seq![Edit::<S>::Begin(Self::target(params@, pointer, hovered_split))]);
        }
        edits
    }

    /// The mouse has dragged to `pointer`. `max_freq` is the highest frequency that is shown.
    pub fn dragged(
        &self,
        params: &MbTransientParams<S>,
        pointer: Option<Pointer<S>>,
        plot: &Plot<S>,
        max_freq: S,
    ) -> (edits: Vec<Edit<S>>)
        requires
            params@.wf(),
            pointer is Some && self.moves_split(params@) ==> S::fraction(20, 1).upto(max_freq),
        ensures
            edits@ == match pointer {
                None => Seq::<Edit<S>>::empty(),
                Some(pointer) => self.drag_edits(params@, pointer, plot.height(), max_freq),
            },
    {
        let mut edits: Vec<Edit<S>> = Vec::new();
        let num_bands: usize = params.num_bands as usize;
        if let Some(pointer) = pointer {
            if let Some(line) = self.split {
                if line < num_bands - 1 {
                    let freq = clamp(pointer.freq, S::ratio(20, 1), max_freq);
                    edits.push(Edit::Assign(Target::Crossover(line), freq));
                }
            } else if let Some(band) = self.band {
                if band < num_bands {
                    let start_p = match self.start_p {
                        Some(p) => p,
                        None => *params.band(band),
                    };
                    let start_y = match self.start_y {
                        Some(y) => y,
                        None => pointer.at.y,
                    };
                    // Relative drag: full-height drag sweeps the whole range.
                    let height = plot.bottom.sub(plot.top);
                    let p = clamp(
                        start_p.add(start_y.sub(pointer.at.y).mul(S::ratio(2, 1).div(height))),
                        S::ratio(-1, 1),
                        S::one(),
                    );
                    edits.push(Edit::Assign(Target::Band(band), p));
                }
            }
            assert(edits@ =~= self.drag_edits(params@, pointer, plot.height(), max_freq));
        }
        edits
    }

    /// The mouse button is released.
    pub fn stopped(&mut self, params: &MbTransientParams<S>) -> (edits: Vec<Edit<S>>)
        requires
            params@.wf(),
        ensures
            *final(self) == (Drag { split: None::<usize>, band: None::<usize>, ..*old(self) }),
            edits@ == old(self).stop_edits(params@),
    {
        let mut edits: Vec<Edit<S>> = Vec::new();
        let num_bands: usize = params.num_bands as usize;
        if let Some(line) = self.split {
            if line < num_bands - 1 {
                edits.push(Edit::End(Target::Crossover(line)));
            }
        }
        if let Some(band) = self.band {
            if band < num_bands {
                edits.push(Edit::End(Target::Band(band)));
            }
        }
        assert(edits@ =~= self.stop_edits(params@));
        self.split = None;
        self.band = None;
        edits
    }
}

// ---- wheel and clicks ----

/// What turning the wheel by `scroll` over a band changes.
pub open spec fn scroll_edits<S: Number>(
    layout: Layout<S>,
    pointer: Option<Pointer<S>>,
    hovered_split: Option<usize>,
    scroll: S,
    fine: bool,
) -> Seq<Edit<S>> {
    if scroll.same(S::nought()) || pointer is None || hovered_split is Some {
        Seq::empty()
    } else {
        let band = band_of(layout.used_crossovers(), pointer->0.freq);
        let step = S::fraction(
            if fine {
                3
            } else {
                15
            },
            1000,
        );
        seq![
            Edit::Assign(
                Target::Band(band as usize),
                clamped(
                    layout.shapes[band].plus(scroll.times(step)),
                    S::fraction(-1, 1),
                    S::unit(),
                ),
            ),
        ]
    }
}

/// The wheel has been turned by `scroll` while the mouse was over the spectrum.
pub fn scrolled<S: Scalar>(
    params: &MbTransientParams<S>,
    pointer: Option<Pointer<S>>,
    hovered_split: Option<usize>,
    scroll: S,
    fine: bool,
) -> (edits: Vec<Edit<S>>)
    requires
        params@.wf(),
    ensures
        edits@ == scroll_edits(params@, pointer, hovered_split, scroll, fine),
{
    let mut edits: Vec<Edit<S>> = Vec::new();
    if !scroll.equals(S::zero()) {
        if let Some(p) = pointer {
            if hovered_split.is_none() {
                let band: usize = band_index(params, p.freq, params.num_bands as usize);
                let k = if fine {
                    S::ratio(3, 1000)
                } else {
                    S::ratio(15, 1000)
                };
                let new_p = clamp(
                    params.band(band).add(scroll.mul(k)),
                    S::ratio(-1, 1),
                    S::one(),
                );
                edits.push(Edit::Assign(Target::Band(band), new_p));
            }
        }
    }
    assert(edits@ =~= scroll_edits(params@, pointer, hovered_split, scroll, fine));
    edits
}

/// A right-click deletes the band under the cursor.
pub fn secondary_clicked<S: Scalar>(params: &MbTransientParams<S>, pointer: Option<Pointer<S>>) -> (edits:
    Vec<Edit<S>>)
    requires
        params@.wf(),
    ensures
        edits@ == match pointer {
            Some(pointer) => delete_band_edits(params@, pointer.freq),
            None => Seq::<Edit<S>>::empty(),
        },
{
    match pointer {
        Some(pointer) => delete_band(params, pointer.freq),
        None => Vec::new(),
    }
}

/// The height `y` is near enough to the bar at `bar_y` to hit it.
pub open spec fn hits_bar<S: Number>(y: S, bar_y: S, scale: S) -> bool {
    y.minus(bar_y).size().below(S::fraction(14, 1).times(scale))
}

/// What a double-click does: on the bar of a band, as it is displayed, it resets the band to
/// neutral; elsewhere, but not on a split, it adds a band.
pub open spec fn double_click_edits<S: Number>(
    layout: Layout<S>,
    pointer: Pointer<S>,
    hovered_split: Option<usize>,
    plot: Plot<S>,
    display_p: Seq<S>,
    scale: S,
) -> Seq<Edit<S>> {
    let band = band_of(layout.used_crossovers(), pointer.freq);
    if hits_bar(pointer.at.y, plot.bar_of(display_p[band]), scale) {
        seq![Edit::Assign(Target::Band(band as usize), S::nought())]
    } else if hovered_split is None {
        add_band_edits(layout, pointer.freq)
    } else {
        Seq::empty()
    }
}

/// A double-click on the bar resets it to neutral; elsewhere it adds a band. `display_p` are the
/// shaping values as they are displayed.
pub fn double_clicked<S: Scalar>(
    params: &MbTransientParams<S>,
    pointer: Option<Pointer<S>>,
    hovered_split: Option<usize>,
    plot: &Plot<S>,
    display_p: &[S; MAX_BANDS],
    scale: S,
) -> (edits: Vec<Edit<S>>)
    requires
        params@.wf(),
    ensures
        edits@ == match pointer {
            Some(pointer) => double_click_edits(
                params@,
                pointer,
                hovered_split,
                *plot,
                display_p@,
                scale,
            ),
            None => Seq::<Edit<S>>::empty(),
        },
{
    let mut edits: Vec<Edit<S>> = Vec::new();
    if let Some(p) = pointer {
        let band: usize = band_index(params, p.freq, params.num_bands as usize);
        let bar_y = plot.bar_y(display_p[band]);
        if p.at.y.sub(bar_y).abs().lt(S::ratio(14, 1).mul(scale)) {
            edits.push(Edit::Assign(Target::Band(band), S::zero()));
            assert(edits@ =~= seq![Edit::Assign(Target::Band(band), S::nought())]);
        } else if hovered_split.is_none() {
            edits = add_band(params, p.freq);
        }
    }
    edits
}

// ---- all of it together ----

/// What the mouse has done on the spectrum since the last frame.
#[derive(Clone, Copy, Debug)]
pub struct Mouse<S> {
    /// Where it is, if it is over the spectrum.
    pub hover: Option<Pointer<S>>,
    /// Where it acts on the spectrum, if it does.
    pub press: Option<Pointer<S>>,
    pub hovered: bool,
    pub scroll: S,
    pub fine: bool,
    pub drag_started: bool,
    pub dragged: bool,
    pub secondary_clicked: bool,
    pub double_clicked: bool,
    pub drag_stopped: bool,
}

impl<S: Number> Mouse<S> {
    /// The horizontal position of the mouse, if it is over the spectrum.
    pub open spec fn hover_x(self) -> Option<S> {
        match self.hover {
            Some(pointer) => Some(pointer.at.x),
            None => None,
        }
    }

    /// Where a click counts.
    pub open spec fn click(self) -> Option<Pointer<S>> {
        match self.hover {
            Some(pointer) => Some(pointer),
            None => self.press,
        }
    }

    /// What is held, once a drag has begun that begins in this frame.
    pub open spec fn held(self, drag: Drag<S>, layout: Layout<S>, split: Option<usize>) -> Drag<S> {
        match self.press {
            Some(pointer) => if self.drag_started {
                drag.holding(layout, pointer, split)
            } else {
                drag
            },
            None => drag,
        }
    }

    /// What is held in the end.
    pub open spec fn left(self, drag: Drag<S>, layout: Layout<S>, split: Option<usize>) -> Drag<S> {
        let held = self.held(drag, layout, split);
        if self.drag_stopped {
            Drag { split: None::<usize>, band: None::<usize>, ..held }
        } else {
            held
        }
    }

    /// What the beginning of a drag tells the host.
    pub open spec fn start_edits(self, layout: Layout<S>, split: Option<usize>) -> Seq<Edit<S>> {
        match self.press {
            Some(pointer) => if self.drag_started {
                seq![Edit::Begin(Drag::target(layout, pointer, split))]
            } else {
                Seq::empty()
            },
            None => Seq::empty(),
        }
    }

    /// What everything that the mouse has done changes, in this order: a drag begins, a drag goes
    /// on, the wheel is turned, a band is deleted, a band is reset or added, a drag ends.
    pub open spec fn edits(
        self,
        drag: Drag<S>,
        layout: Layout<S>,
        split: Option<usize>,
        plot: Plot<S>,
        display_p: Seq<S>,
        max_freq: S,
        scale: S,
    ) -> Seq<Edit<S>> {
        let held = self.held(drag, layout, split);
        self.start_edits(layout, split) + (if self.dragged && self.press is Some {
            held.drag_edits(layout, self.press->0, plot.height(), max_freq)
        } else {
            Seq::empty()
        }) + (if self.hovered {
            scroll_edits(layout, self.hover, split, self.scroll, self.fine)
        } else {
            Seq::empty()
        }) + (if self.secondary_clicked && self.press is Some {
            delete_band_edits(layout, self.press->0.freq)
        } else {
            Seq::empty()
        }) + (if self.double_clicked && self.click() is Some {
            double_click_edits(layout, self.click()->0, split, plot, display_p, scale)
        } else {
            Seq::empty()
        }) + (if self.drag_stopped {
            held.stop_edits(layout)
        } else {
            Seq::empty()
        })
    }
}

/// Follows what the mouse has done on the spectrum: which split is highlighted, what is held, and
/// what is to be changed. `lines` are where the splits are displayed.
pub fn interact<S: Scalar>(
    gui: &mut GuiState<S>,
    drag: &mut Drag<S>,
    params: &MbTransientParams<S>,
    mouse: &Mouse<S>,
    lines: &[S],
    plot: &Plot<S>,
    max_freq: S,
    scale: S,
) -> (edits: Vec<Edit<S>>)
    requires
        params@.wf(),
        lines@.len() == params@.bands - 1,
        mouse.dragged && mouse.press is Some && mouse.held(
            *old(drag),
            params@,
            highlighted(mouse.hover_x(), lines@, old(gui).hovered_split, scale),
        ).moves_split(params@) ==> S::fraction(20, 1).upto(max_freq),
    ensures
        *final(gui) == (GuiState {
            hovered_split: highlighted(mouse.hover_x(), lines@, old(gui).hovered_split, scale),
            ..*old(gui)
        }),
        *final(drag) == mouse.left(*old(drag), params@, final(gui).hovered_split),
        ({
            let held = mouse.held(*old(drag), params@, final(gui).hovered_split);
            *final(drag) == if mouse.drag_stopped {
                Drag { split: None::<usize>, band: None::<usize>, ..held }
            } else {
                held
            }
        }),
        edits@ == mouse.edits(
            *old(drag),
            params@,
            final(gui).hovered_split,
            *plot,
            old(gui).display_p@,
            max_freq,
            scale,
        ),
{
    let x: Option<S> = match mouse.hover {
        Some(pointer) => Some(pointer.at.x),
        None => None,
    };
    let split = hovered_split(x, lines, gui.hovered_split, scale);
    gui.hovered_split = split;
    let mut edits: Vec<Edit<S>> = Vec::new();
    if mouse.drag_started {
        let mut more = drag.started(params, mouse.press, split);
        edits.append(&mut more);
    }
    assert(*drag == mouse.held(*old(drag), params@, split));
    assert(edits@ =~= mouse.start_edits(params@, split));
    if mouse.dragged {
        let mut more = drag.dragged(params, mouse.press, plot, max_freq);
        edits.append(&mut more);
    }
    if mouse.hovered {
        let mut more = scrolled(params, mouse.hover, split, mouse.scroll, mouse.fine);
        edits.append(&mut more);
    }
    if mouse.secondary_clicked {
        let mut more = secondary_clicked(params, mouse.press);
        edits.append(&mut more);
    }
    if mouse.double_clicked {
        let click: Option<Pointer<S>> = match mouse.hover {
            Some(pointer) => Some(pointer),
            None => mouse.press,
        };
        let mut more = double_clicked(params, click, split, plot, &gui.display_p, scale);
        edits.append(&mut more);
    }
    if mouse.drag_stopped {
        let mut more = drag.stopped(params);
        edits.append(&mut more);
    }
    assert(edits@ =~= mouse.edits(
        *old(drag),
        params@,
        split,
        *plot,
        old(gui).display_p@,
        max_freq,
        scale,
    ));
    edits
}

// ---- what is highlighted ----

/// The bar of the band from `x0` to `x1` is highlighted.
pub open spec fn highlights_bar<S: Number>(
    pointer: Option<Point<S>>,
    x0: S,
    x1: S,
    bar_y: S,
    hovered_split: Option<usize>,
    scale: S,
) -> bool {
    &&& pointer matches Some(at) && x0.upto(at.x) && at.x.upto(x1) && hits_bar(at.y, bar_y, scale)
    &&& hovered_split is None
}

/// Whether the bar of the band from `x0` to `x1` is highlighted.
pub fn bar_hovered<S: Scalar>(
    pointer: Option<Point<S>>,
    x0: S,
    x1: S,
    bar_y: S,
    hovered_split: Option<usize>,
    scale: S,
) -> (r: bool)
    ensures
        r == highlights_bar(pointer, x0, x1, bar_y, hovered_split, scale),
        r == (match pointer {
            Some(at) => x0.upto(at.x) && at.x.upto(x1) && hits_bar(at.y, bar_y, scale),
            None => false,
        } && hovered_split is None),
{
    match pointer {
        Some(at) => x0.le(at.x) && at.x.le(x1) && at.y.sub(bar_y).abs().lt(
            S::ratio(14, 1).mul(scale),
        ) && hovered_split.is_none(),
        None => false,
    }
}

/// The cursor over the spectrum, if the mouse is there.
pub open spec fn cursor_over(hovered: bool, hovered_split: Option<usize>) -> Option<Cursor> {
    if !hovered {
        None
    } else if hovered_split is Some {
        Some(Cursor::ResizeHorizontal)
    } else {
        Some(Cursor::ResizeVertical)
    }
}

/// The cursor over the spectrum, if the mouse is there.
pub fn spectrum_cursor(hovered: bool, hovered_split: Option<usize>) -> (r: Option<Cursor>)
    ensures
        r == cursor_over(hovered, hovered_split),
        r == if !hovered {
            None
        } else if hovered_split is Some {
            Some(Cursor::ResizeHorizontal)
        } else {
            Some(Cursor::ResizeVertical)
        },
{
    if hovered {
        if hovered_split.is_some() {
            Some(Cursor::ResizeHorizontal)
        } else {
            Some(Cursor::ResizeVertical)
        }
    } else {
        None
    }
}

// ---- text readouts ----

/// What has happened to a text readout since the last frame.
#[derive(Clone, Copy, Debug)]
pub struct Happened {
    pub hovered: bool,
    pub scrolled: bool,
    pub drag_started: bool,
    pub dragged: bool,
    pub double_clicked: bool,
    pub drag_stopped: bool,
}

/// What is to be done about the parameter of a text readout.
#[derive(Clone, Copy, Debug, PartialEq, Eq, Structural)]
pub enum ValueStep {
    /// Move the value as the wheel was turned.
    Scroll,
    /// A gesture begins.
    Begin,
    /// Move the value as the mouse was dragged.
    Drag,
    /// Go back to the default.
    Reset,
    /// A gesture ends.
    End,
}

/// `step`, if there is cause for it.
pub open spec fn step_if(cause: bool, step: ValueStep) -> Seq<ValueStep> {
    if cause {
        seq![step]
    } else {
        Seq::empty()
    }
}

/// What is to be done about the parameter of a text readout, in this order.
pub open spec fn steps_for(happened: Happened) -> Seq<ValueStep> {
    step_if(happened.hovered && happened.scrolled, ValueStep::Scroll) + step_if(
        happened.drag_started,
        ValueStep::Begin,
    ) + step_if(happened.dragged, ValueStep::Drag) + step_if(
        happened.double_clicked,
        ValueStep::Reset,
    ) + step_if(happened.drag_stopped, ValueStep::End)
}

/// What is to be done about the parameter of a text readout, in this order.
pub fn value_steps(happened: Happened) -> (r: Vec<ValueStep>)
    ensures
        r@ == steps_for(happened),
        r@ == step_if(happened.hovered && happened.scrolled, ValueStep::Scroll) + step_if(
            happened.drag_started,
            ValueStep::Begin,
        ) + step_if(happened.dragged, ValueStep::Drag) + step_if(
            happened.double_clicked,
            ValueStep::Reset,
        ) + step_if(happened.drag_stopped, ValueStep::End),
{
    let mut steps: Vec<ValueStep> = Vec::new();
    if happened.hovered && happened.scrolled {
        steps.push(ValueStep::Scroll);
    }
    if happened.drag_started {
        steps.push(ValueStep::Begin);
    }
    if happened.dragged {
        steps.push(ValueStep::Drag);
    }
    if happened.double_clicked {
        steps.push(ValueStep::Reset);
    }
    if happened.drag_stopped {
        steps.push(ValueStep::End);
    }
    assert(steps@ =~= step_if(happened.hovered && happened.scrolled, ValueStep::Scroll) + step_if(
        happened.drag_started,
        ValueStep::Begin,
    ) + step_if(happened.dragged, ValueStep::Drag) + step_if(
        happened.double_clicked,
        ValueStep::Reset,
    ) + step_if(happened.drag_stopped, ValueStep::End));
    steps
}

/// The normalized value after the wheel was turned by `scroll`.
pub open spec fn wheeled<S: Number>(normalized: S, scroll: S, fine: bool) -> S {
    let step = S::fraction(
        if fine {
            2
        } else {
            10
        },
        10000,
    );
    clamped(normalized.plus(scroll.times(step)), S::nought(), S::unit())
}

/// The normalized value after the mouse was dragged down by `down`.
pub open spec fn pulled<S: Number>(normalized: S, down: S, fine: bool) -> S {
    let step = S::fraction(
        if fine {
            1
        } else {
            4
        },
        1000,
    );
    clamped(normalized.minus(down.times(step)), S::nought(), S::unit())
}

/// The normalized value after the wheel was turned by `scroll`.
pub fn scrolled_value<S: Scalar>(normalized: S, scroll: S, fine: bool) -> (r: S)
    ensures
        r == wheeled(normalized, scroll, fine),
        r == clamped(
            normalized.plus(
                scroll.times(
                    S::fraction(
                        if fine {
                            2
                        } else {
                            10
                        },
                        10000,
                    ),
                ),
            ),
            S::nought(),
            S::unit(),
        ),
{
    let k = if fine {
        S::ratio(2, 10000)
    } else {
        S::ratio(10, 10000)
    };
    clamp(normalized.add(scroll.mul(k)), S::zero(), S::one())
}

/// The normalized value after the mouse was dragged down by `down`.
pub fn dragged_value<S: Scalar>(normalized: S, down: S, fine: bool) -> (r: S)
    ensures
        r == pulled(normalized, down, fine),
        r == clamped(
            normalized.minus(
                down.times(
                    S::fraction(
                        if fine {
                            1
                        } else {
                            4
                        },
                        1000,
                    ),
                ),
            ),
            S::nought(),
            S::unit(),
        ),
{
    let k = if fine {
        S::ratio(1, 1000)
    } else {
        S::ratio(4, 1000)
    };
    clamp(normalized.sub(down.mul(k)), S::zero(), S::one())
}

/// The cursor over a text readout, if the mouse is there.
pub fn value_cursor(hovered: bool) -> (r: Option<Cursor>)
    ensures
        r == cursor_over(hovered, None),
        r == if hovered {
            Some(Cursor::ResizeVertical)
        } else {
            None
        },
{
    if hovered {
        Some(Cursor::ResizeVertical)
    } else {
        None
    }
}

// ---- laws ----

/// A gesture is balanced: what a drag takes hold of is the only thing that it changes, and the
/// only thing whose gesture it ends, unless it is gone by then. Afterwards nothing is held.
pub proof fn law_gesture_keeps_its_target<S: Number>(
    drag: Drag<S>,
    begin: Layout<S>,
    pointer: Pointer<S>,
    hovered_split: Option<usize>,
    during: Layout<S>,
    to: Pointer<S>,
    height: S,
    max_freq: S,
)
    requires
        drag.idle(),
        begin.wf(),
        during.wf(),
    ensures
        ({
            let target = Drag::target(begin, pointer, hovered_split);
            let held = drag.holding(begin, pointer, hovered_split);
            let there = match target {
                Target::Crossover(line) => line < during.bands - 1,
                Target::Band(band) => band < during.bands,
            };
            &&& held.drag_edits(during, to, height, max_freq).len() <= 1
            &&& forall|i: int|
                0 <= i < held.drag_edits(during, to, height, max_freq).len() ==> (
                #[trigger] held.drag_edits(during, to, height, max_freq)[i] matches Edit::Assign(t, _)
                    && t == target)
            &&& there ==> held.drag_edits(during, to, height, max_freq).len() == 1
            &&& there ==> held.stop_edits(during) == seq![Edit::<S>::End(target)]
            &&& !there ==> held.stop_edits(during) == Seq::<Edit<S>>::empty()
        }),
{
    let target = Drag::target(begin, pointer, hovered_split);
    let held = drag.holding(begin, pointer, hovered_split);
    match target {
        Target::Crossover(line) => {
            if line < during.bands - 1 {
                assert(held.stop_edits(during) =~= seq![Edit::<S>::End(target)]);
            } else {
                assert(held.stop_edits(during) =~= Seq::<Edit<S>>::empty());
            }
        },
        Target::Band(band) => {
            if band < during.bands {
                assert(held.stop_edits(during) =~= seq![Edit::<S>::End(target)]);
            } else {
                assert(held.stop_edits(during) =~= Seq::<Edit<S>>::empty());
            }
        },
    }
}

/// While a band is dragged, its bar keeps up with the mouse, as long as the shaping value is not
/// held at an end of its range.
pub proof fn law_bar_follows_the_mouse<S: Number>(
    drag: Drag<S>,
    layout: Layout<S>,
    plot: Plot<S>,
    band: int,
    p: S,
    y0: S,
    y: S,
)
    requires
        exact::<S>(),
        ordered::<S>(),
        drag.start_p == Some(p),
        drag.start_y == Some(y0),
        plot.height().value() > 0 as real,
        -(1 as real) <= p.value() + (y0.value() - y.value()) * (2 as real / plot.height().value())
            <= 1 as real,
    ensures
        plot.bar_of(drag.shape_at(layout, band, y, plot.height())).value() - plot.bar_of(p).value()
            == y.value() - y0.value(),
{
    let h = plot.height().value();
    let (two, half) = (S::fraction(2, 1), S::fraction(1, 2));
    assert(two.value() == 2 as real && half.value() == 1 as real / 2 as real);
    assert(S::fraction(-1, 1).value() == -(1 as real));
    let d = y0.value() - y.value();
    let k = two.over(plot.height()).value();
    assert(k == 2 as real / h);
    let q = drag.shape_at(layout, band, y, plot.height());
    assert(q.value() == p.value() + d * k);
    let (pv, qv, hf) = (p.value(), q.value(), half.value());
    assert(k * h == 2 as real) by (nonlinear_arith)
        requires
            k == 2 as real / h,
            h > 0 as real,
    ;
    let (bp, bq) = ((hf - pv * hf) * h, (hf - qv * hf) * h);
    assert(bq - bp == (pv - qv) * hf * h) by (nonlinear_arith)
        requires
            bp == (hf - pv * hf) * h,
            bq == (hf - qv * hf) * h,
    ;
    let dk = d * k;
    assert((-dk) * hf * h == -(hf * (dk * h))) by (nonlinear_arith);
    assert(dk * h == d * (k * h)) by (nonlinear_arith)
        requires
            dk == d * k,
    ;
    assert(d * (2 as real) == 2 as real * d);
    assert(hf * (2 as real * d) == d) by (nonlinear_arith)
        requires
            hf == 1 as real / 2 as real,
    ;
}

} // verus!
