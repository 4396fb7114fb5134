//! What the hand on the mouse can rely on.
use vstd::prelude::*;

use crate::algebra::lemma_undivide;
use crate::bands::{law_every_frequency_has_its_band, lies_in};
use crate::envelope::magnitude;
use crate::gesture::{
    cursor_over, distance, double_click_edits, highlighted, highlights_bar, hits_bar, law_nearest_is_nearest,
    nearest_of, pulled, scroll_edits, step_if, steps_for, wheeled, Cursor, Drag, Happened, Mouse, Pointer,
    ValueStep,
};
use crate::params::{add_band_edits, band_of, delete_band_edits, Edit, Layout, Target};
use crate::plot::{min_freq, Plot, Point};
use crate::rounding::compares;
use crate::scalar::{exact, lemma_whole, ordered, Number};
use crate::screen::{law_fractions_go_from_left_to_right, law_logarithms_stand_in_proportion};

verus! {

// ---- splits ----

/// A split is hit within 10 points at the scale, the nearest one first; once it is highlighted, it
/// stays so within 22 points, as long as no other one is hit. Off the spectrum nothing is
/// highlighted. This holds if the arithmetic does not round.
pub proof fn law_splits_are_hit_by_their_distance<S: Number>(
    x: S,
    lines: Seq<S>,
    prev: Option<usize>,
    scale: S,
    i: int,
)
    requires
        exact::<S>(),
        ordered::<S>(),
        compares::<S>(),
        lines.len() <= usize::MAX,
        0 <= i < lines.len(),
    ensures
        highlighted(None::<S>, lines, prev, scale) is None,
        ({
            let (v, k) = (x.value(), scale.value());
            let r = highlighted(Some(x), lines, prev, scale);
            &&& magnitude(lines[i].value() - v) < 10 as real * k ==> r is Some
            &&& r matches Some(line) ==> {
                let d = magnitude(lines[line as int].value() - v);
                &&& line < lines.len()
                &&& d < 10 as real * k ==> d <= magnitude(lines[i].value() - v)
                &&& d >= 10 as real * k ==> {
                    &&& prev == Some(line)
                    &&& d < 22 as real * k
                    &&& magnitude(lines[i].value() - v) >= 10 as real * k
                }
            }
            &&& prev == Some(i as usize) && magnitude(lines[i].value() - v) < 22 as real * k ==> r is Some
        }),
{
    let (near, far) = (S::fraction(10, 1).times(scale), S::fraction(22, 1).times(scale));
    lemma_whole::<S>(10);
    lemma_whole::<S>(22);
    assert(near.value() == 10 as real * scale.value() && far.value() == 22 as real * scale.value());
    law_nearest_is_nearest(lines, x, near, lines.len() as int);
    assert(distance(lines[i], x).value() == magnitude(lines[i].value() - x.value()));
    match nearest_of(lines, x, near, lines.len() as int) {
        Some(line) => {
            assert(distance(lines[line as int], x).value() == magnitude(
                lines[line as int].value() - x.value(),
            ));
        },
        None => {
            if let Some(p) = prev {
                if p < lines.len() {
                    assert(distance(lines[p as int], x).value() == magnitude(
                        lines[p as int].value() - x.value(),
                    ));
                    assert(!distance(lines[p as int], x).below(near));
                }
            }
        },
    }
}

// ---- dragging ----

/// A drag takes hold of the highlighted split, and else of the band that the frequency under the
/// mouse lies in.
pub proof fn law_a_drag_takes_what_is_under_the_mouse<S: Number>(
    layout: Layout<S>,
    pointer: Pointer<S>,
    split: Option<usize>,
    k: int,
)
    requires
        layout.wf(),
        lies_in(layout.used_crossovers(), pointer.freq, k),
    ensures
        split matches Some(line) ==> Drag::target(layout, pointer, split) == Target::Crossover(line),
        split is None ==> Drag::target(layout, pointer, split) == Target::Band(k as usize),
{
    law_every_frequency_has_its_band(layout.used_crossovers(), pointer.freq, k);
}

/// A drag of a band begins without a jump: as long as the mouse stays at its height, the shaping
/// value stays as it is, if the arithmetic does not round.
pub proof fn law_a_drag_begins_without_a_jump<S: Number>(
    drag: Drag<S>,
    layout: Layout<S>,
    pointer: Pointer<S>,
    to: Pointer<S>,
    height: S,
    max_freq: S,
    k: int,
)
    requires
        exact::<S>(),
        ordered::<S>(),
        drag.idle(),
        layout.wf(),
        lies_in(layout.used_crossovers(), pointer.freq, k),
        to.at.y == pointer.at.y,
        -(1 as real) <= layout.shapes[k].value() <= 1 as real,
    ensures
        ({
            let held = drag.holding(layout, pointer, None);
            let edits = held.drag_edits(layout, to, height, max_freq);
            &&& edits.len() == 1
            &&& edits[0] matches Edit::Assign(t, v) && t == Target::Band(k as usize) && v.value()
                == layout.shapes[k].value()
        }),
{
    law_every_frequency_has_its_band(layout.used_crossovers(), pointer.freq, k);
    lemma_whole::<S>(-1);
    let y = pointer.at.y;
    let (zero, step) = (y.value() - y.value(), S::fraction(2, 1).over(height).value());
    assert(zero * step == 0 as real) by (nonlinear_arith)
        requires
            zero == 0 as real,
    ;
    let held = drag.holding(layout, pointer, None);
    assert(held.band == Some(k as usize));
    let raw = layout.shapes[k].plus(y.minus(y).times(S::fraction(2, 1).over(height)));
    assert(raw.value() == layout.shapes[k].value());
    assert(held.shape_at(layout, k, y, height).value() == layout.shapes[k].value());
}

/// Dragging a band up raises its shaping value, and over the full height sweeps the whole range of
/// 2, but never beyond -1 and 1. This holds if the arithmetic does not round.
pub proof fn law_a_full_drag_sweeps_the_range<S: Number>(
    drag: Drag<S>,
    layout: Layout<S>,
    band: int,
    p: S,
    y0: S,
    y: S,
    height: S,
)
    requires
        exact::<S>(),
        ordered::<S>(),
        drag.start_p == Some(p),
        drag.start_y == Some(y0),
        height.value() > 0 as real,
    ensures
        ({
            let v = drag.shape_at(layout, band, y, height).value();
            let (h, up) = (height.value(), y0.value() - y.value());
            &&& -(1 as real) <= v <= 1 as real
            &&& -(h) <= p.value() * h + 2 as real * up <= h ==> (v - p.value()) * h == 2 as real * up
            &&& p.value() * h + 2 as real * up >= h ==> v == 1 as real
            &&& p.value() * h + 2 as real * up <= -h ==> v == -(1 as real)
        }),
{
    lemma_whole::<S>(-1);
    lemma_whole::<S>(2);
    let (h, up, q) = (height.value(), y0.value() - y.value(), 2 as real / height.value());
    lemma_undivide(2 as real, h);
    let d = up * q;
    assert(d * h == 2 as real * up) by (nonlinear_arith)
        requires
            d == up * q,
            q * h == 2 as real,
    ;
    let raw = p.value() + d;
    assert(raw * h == p.value() * h + d * h) by (nonlinear_arith)
        requires
            raw == p.value() + d,
    ;
    assert(raw * h >= h ==> raw >= 1 as real) by (nonlinear_arith)
        requires
            h > 0 as real,
    ;
    assert(raw * h <= -h ==> raw <= -(1 as real)) by (nonlinear_arith)
        requires
            h > 0 as real,
    ;
    assert(-h <= raw * h <= h ==> -(1 as real) <= raw <= 1 as real) by (nonlinear_arith)
        requires
            h > 0 as real,
    ;
    assert((raw - p.value()) * h == d * h);
}

/// A split that is dragged goes to the frequency under the mouse, but not below 20 Hz and not above
/// the highest one that is shown; no other parameter changes. This holds if the arithmetic does not
/// round.
pub proof fn law_a_split_goes_where_it_is_dragged<S: Number>(
    drag: Drag<S>,
    layout: Layout<S>,
    pointer: Pointer<S>,
    height: S,
    max_freq: S,
    line: usize,
)
    requires
        exact::<S>(),
        ordered::<S>(),
        drag.split == Some(line),
        line < layout.bands - 1,
        20 as real <= max_freq.value(),
    ensures
        ({
            let edits = drag.drag_edits(layout, pointer, height, max_freq);
            let f = pointer.freq.value();
            &&& edits.len() == 1
            &&& edits[0] matches Edit::Assign(t, v) && t == Target::Crossover(line) && {
                &&& 20 as real <= f <= max_freq.value() ==> v == pointer.freq
                &&& f <= 20 as real ==> v.value() == 20 as real
                &&& f >= max_freq.value() ==> v.value() == max_freq.value()
            }
        }),
{
    lemma_whole::<S>(20);
}

// ---- wheel and clicks ----

/// Turning the wheel up over a band raises its shaping value by 15 thousandths for each step, or by
/// 3 in fine steps, but never beyond -1 and 1. Over a split, off the spectrum or without a turn
/// nothing changes. This holds if the arithmetic does not round.
pub proof fn law_the_wheel_moves_the_band_under_it<S: Number>(
    layout: Layout<S>,
    pointer: Pointer<S>,
    split: Option<usize>,
    scroll: S,
    fine: bool,
    k: int,
)
    requires
        exact::<S>(),
        ordered::<S>(),
        layout.wf(),
        lies_in(layout.used_crossovers(), pointer.freq, k),
    ensures
        scroll_edits(layout, None, split, scroll, fine).len() == 0,
        split is Some || scroll.value() == 0 as real ==> scroll_edits(
            layout,
            Some(pointer),
            split,
            scroll,
            fine,
        ).len() == 0,
        split is None && scroll.value() != 0 as real ==> {
            let edits = scroll_edits(layout, Some(pointer), split, scroll, fine);
            let steps = scroll.value() * if fine {
                3 as real
            } else {
                15 as real
            };
            let p = layout.shapes[k].value();
            let aim = 1000 as real * p + steps;
            &&& edits.len() == 1
            &&& edits[0] matches Edit::Assign(t, v) && t == Target::Band(k as usize) && {
                &&& -(1000 as real) <= aim <= 1000 as real ==> 1000 as real * v.value() == aim
                &&& aim >= 1000 as real ==> v.value() == 1 as real
                &&& aim <= -(1000 as real) ==> v.value() == -(1 as real)
            }
        },
{
    law_every_frequency_has_its_band(layout.used_crossovers(), pointer.freq, k);
    lemma_whole::<S>(-1);
    assert(S::fraction(3, 1000).value() == 3 as real / 1000 as real);
    assert(S::fraction(15, 1000).value() == 15 as real / 1000 as real);
    let s = scroll.value();
    let (a, b) = (S::fraction(3, 1000).value(), S::fraction(15, 1000).value());
    assert(1000 as real * (s * a) == s * 3 as real) by (nonlinear_arith)
        requires
            a == 3 as real / 1000 as real,
    ;
    assert(1000 as real * (s * b) == s * 15 as real) by (nonlinear_arith)
        requires
            b == 15 as real / 1000 as real,
    ;
    assert(band_of(layout.used_crossovers(), pointer.freq) == k);
}

/// A bar is hit within 14 points at the scale above and below it, if the arithmetic does not round.
pub proof fn law_bars_are_hit_by_their_distance<S: Number>(y: S, bar_y: S, scale: S)
    requires
        exact::<S>(),
        ordered::<S>(),
    ensures
        hits_bar(y, bar_y, scale) <==> magnitude(y.value() - bar_y.value()) < 14 as real
            * scale.value(),
{
    lemma_whole::<S>(14);
}

/// The bar of a band is highlighted while the mouse is within the band and near enough to hit the
/// bar, unless a split is. This holds if the arithmetic does not round.
pub proof fn law_bars_light_up_under_the_mouse<S: Number>(
    at: Point<S>,
    x0: S,
    x1: S,
    bar_y: S,
    split: Option<usize>,
    scale: S,
)
    requires
        exact::<S>(),
        ordered::<S>(),
    ensures
        !highlights_bar(None::<Point<S>>, x0, x1, bar_y, split, scale),
        highlights_bar(Some(at), x0, x1, bar_y, split, scale) <==> split is None && x0.value()
            <= at.x.value() <= x1.value() && magnitude(at.y.value() - bar_y.value()) < 14 as real
            * scale.value(),
{
    law_bars_are_hit_by_their_distance(at.y, bar_y, scale);
}

/// A double-click on the bar of the band under the mouse makes that band neutral, and nothing else;
/// beside the bar it adds a band at the frequency under the mouse, unless a split is highlighted.
/// This holds if the arithmetic does not round.
pub proof fn law_a_double_click_resets_or_adds<S: Number>(
    layout: Layout<S>,
    pointer: Pointer<S>,
    split: Option<usize>,
    plot: Plot<S>,
    display_p: Seq<S>,
    scale: S,
    k: int,
)
    requires
        exact::<S>(),
        ordered::<S>(),
        layout.wf(),
        lies_in(layout.used_crossovers(), pointer.freq, k),
    ensures
        ({
            let edits = double_click_edits(layout, pointer, split, plot, display_p, scale);
            let near = magnitude(pointer.at.y.value() - plot.bar_of(display_p[k]).value())
                < 14 as real * scale.value();
            &&& near ==> edits.len() == 1 && (edits[0] matches Edit::Assign(t, v) && t == Target::Band(
                k as usize,
            ) && v.value() == 0 as real)
            &&& !near && split is None ==> edits == add_band_edits(layout, pointer.freq)
            &&& !near && split is Some ==> edits.len() == 0
        }),
{
    law_every_frequency_has_its_band(layout.used_crossovers(), pointer.freq, k);
    law_bars_are_hit_by_their_distance(pointer.at.y, plot.bar_of(display_p[k]), scale);
}

// ---- one thing at a time ----

impl<S: Number> Mouse<S> {
    /// Nothing has happened but what the arguments say.
    pub open spec fn only(
        self,
        hovered: bool,
        drag_started: bool,
        dragged: bool,
        secondary_clicked: bool,
        double_clicked: bool,
        drag_stopped: bool,
    ) -> bool {
        &&& self.hovered == hovered
        &&& self.drag_started == drag_started
        &&& self.dragged == dragged
        &&& self.secondary_clicked == secondary_clicked
        &&& self.double_clicked == double_clicked
        &&& self.drag_stopped == drag_stopped
    }
}

/// The mouse does what it is made to do: without a cause nothing changes and nothing is taken hold
/// of; the wheel moves the band under the mouse; a right-click deletes the band where it was made; a
/// double-click counts where the mouse is, and else where it was made; a drag begins and goes on where
/// it was made.
pub proof fn law_the_mouse_does_one_thing_at_a_time<S: Number>(
    mouse: Mouse<S>,
    drag: Drag<S>,
    layout: Layout<S>,
    split: Option<usize>,
    plot: Plot<S>,
    display_p: Seq<S>,
    max_freq: S,
    scale: S,
    hover: Pointer<S>,
    press: Pointer<S>,
)
    ensures
        ({
            let edits = mouse.edits(drag, layout, split, plot, display_p, max_freq, scale);
            let held = mouse.held(drag, layout, split);
            &&& mouse.only(false, false, false, false, false, false) ==> edits.len() == 0
            &&& !mouse.drag_started ==> held == drag
            &&& mouse.only(true, false, false, false, false, false) && mouse.hover == Some(hover)
                ==> edits == scroll_edits(layout, Some(hover), split, mouse.scroll, mouse.fine)
            &&& mouse.only(false, false, false, true, false, false) && mouse.press == Some(press)
                ==> edits == delete_band_edits(layout, press.freq)
            &&& mouse.only(false, false, false, false, true, false) && mouse.hover == Some(hover)
                ==> edits == double_click_edits(layout, hover, split, plot, display_p, scale)
            &&& mouse.only(false, false, false, false, true, false) && mouse.hover is None
                && mouse.press == Some(press) ==> edits == double_click_edits(
                layout,
                press,
                split,
                plot,
                display_p,
                scale,
            )
            &&& mouse.only(false, true, false, false, false, false) && mouse.press == Some(press)
                ==> edits == seq![Edit::<S>::Begin(Drag::target(layout, press, split))] && held
                == drag.holding(layout, press, split)
            &&& mouse.only(false, false, true, false, false, false) && mouse.press == Some(press)
                ==> edits == drag.drag_edits(layout, press, plot.height(), max_freq)
            &&& mouse.only(false, false, false, false, false, true) ==> edits == drag.stop_edits(layout)
            &&& mouse.hover is None ==> mouse.hover_x() is None
            &&& mouse.hover == Some(hover) ==> mouse.hover_x() == Some(hover.at.x)
        }),
{
    let edits = mouse.edits(drag, layout, split, plot, display_p, max_freq, scale);
    if mouse.only(true, false, false, false, false, false) && mouse.hover == Some(hover) {
        assert(edits =~= scroll_edits(layout, Some(hover), split, mouse.scroll, mouse.fine));
    }
    if mouse.only(false, false, false, true, false, false) && mouse.press == Some(press) {
        assert(edits =~= delete_band_edits(layout, press.freq));
    }
    if mouse.only(false, false, false, false, true, false) && mouse.hover == Some(hover) {
        assert(edits =~= double_click_edits(layout, hover, split, plot, display_p, scale));
    }
    if mouse.only(false, false, false, false, true, false) && mouse.hover is None && mouse.press
        == Some(press) {
        assert(edits =~= double_click_edits(layout, press, split, plot, display_p, scale));
    }
    if mouse.only(false, true, false, false, false, false) && mouse.press == Some(press) {
        assert(edits =~= seq![Edit::<S>::Begin(Drag::target(layout, press, split))]);
    }
    if mouse.only(false, false, true, false, false, false) && mouse.press == Some(press) {
        assert(edits =~= drag.drag_edits(layout, press, plot.height(), max_freq));
    }
    if mouse.only(false, false, false, false, false, true) {
        assert(edits =~= drag.stop_edits(layout));
    }
}

// ---- text readouts ----

/// Turning the wheel up over a readout raises its normalized value by a thousandth for each step, or
/// by a fifth of that in fine steps, and dragging down lowers it by 4 thousandths for each point, or
/// by 1; it always stays from 0 to 1. This holds if the arithmetic does not round.
pub proof fn law_readouts_move_with_the_mouse<S: Number>(normalized: S, by: S, fine: bool)
    requires
        exact::<S>(),
        ordered::<S>(),
    ensures
        ({
            let (n, b) = (normalized.value(), by.value());
            let up = 10000 as real * n + b * if fine {
                2 as real
            } else {
                10 as real
            };
            let down = 1000 as real * n - b * if fine {
                1 as real
            } else {
                4 as real
            };
            let (w, p) = (wheeled(normalized, by, fine).value(), pulled(normalized, by, fine).value());
            &&& 0 as real <= up <= 10000 as real ==> 10000 as real * w == up
            &&& up <= 0 as real ==> w == 0 as real
            &&& up >= 10000 as real ==> w == 1 as real
            &&& 0 as real <= down <= 1000 as real ==> 1000 as real * p == down
            &&& down <= 0 as real ==> p == 0 as real
            &&& down >= 1000 as real ==> p == 1 as real
        }),
{
    let b = by.value();
    let (f, g) = (S::fraction(2, 10000).value(), S::fraction(10, 10000).value());
    assert(f == 2 as real / 10000 as real && g == 10 as real / 10000 as real);
    assert(10000 as real * (b * f) == b * 2 as real) by (nonlinear_arith)
        requires
            f == 2 as real / 10000 as real,
    ;
    assert(10000 as real * (b * g) == b * 10 as real) by (nonlinear_arith)
        requires
            g == 10 as real / 10000 as real,
    ;
    let (h, k) = (S::fraction(1, 1000).value(), S::fraction(4, 1000).value());
    assert(h == 1 as real / 1000 as real && k == 4 as real / 1000 as real);
    assert(1000 as real * (b * h) == b * 1 as real) by (nonlinear_arith)
        requires
            h == 1 as real / 1000 as real,
    ;
    assert(1000 as real * (b * k) == b * 4 as real) by (nonlinear_arith)
        requires
            k == 4 as real / 1000 as real,
    ;
}

/// Where a step stands among the others.
pub open spec fn rank(step: ValueStep) -> int {
    match step {
        ValueStep::Scroll => 0,
        ValueStep::Begin => 1,
        ValueStep::Drag => 2,
        ValueStep::Reset => 3,
        ValueStep::End => 4,
    }
}

/// Each step is taken if and only if there is cause for it, and once at most; a gesture begins before
/// it moves the value, and ends after all else.
pub proof fn law_steps_are_taken_in_order(happened: Happened)
    ensures
        ({
            let steps = steps_for(happened);
            &&& steps.contains(ValueStep::Scroll) <==> happened.hovered && happened.scrolled
            &&& steps.contains(ValueStep::Begin) <==> happened.drag_started
            &&& steps.contains(ValueStep::Drag) <==> happened.dragged
            &&& steps.contains(ValueStep::Reset) <==> happened.double_clicked
            &&& steps.contains(ValueStep::End) <==> happened.drag_stopped
            &&& forall|i: int, j: int|
                0 <= i < j < steps.len() ==> rank(#[trigger] steps[i]) < rank(#[trigger] steps[j])
        }),
{
    let none = Seq::<ValueStep>::empty();
    let a = step_if(happened.hovered && happened.scrolled, ValueStep::Scroll);
    let b = a + step_if(happened.drag_started, ValueStep::Begin);
    let c = b + step_if(happened.dragged, ValueStep::Drag);
    let d = c + step_if(happened.double_clicked, ValueStep::Reset);
    assert(none + a =~= a);
    lemma_one_step_more(none, happened.hovered && happened.scrolled, ValueStep::Scroll);
    lemma_one_step_more(a, happened.drag_started, ValueStep::Begin);
    lemma_one_step_more(b, happened.dragged, ValueStep::Drag);
    lemma_one_step_more(c, happened.double_clicked, ValueStep::Reset);
    lemma_one_step_more(d, happened.drag_stopped, ValueStep::End);
}

/// The steps stand in the order of their ranks, all of them below `n`.
spec fn ranked(steps: Seq<ValueStep>, n: int) -> bool {
    &&& forall|i: int| 0 <= i < steps.len() ==> rank(#[trigger] steps[i]) < n
    &&& forall|i: int, j: int|
        0 <= i < j < steps.len() ==> rank(#[trigger] steps[i]) < rank(#[trigger] steps[j])
}

proof fn lemma_one_step_more(before: Seq<ValueStep>, cause: bool, step: ValueStep)
    requires
        ranked(before, rank(step)),
    ensures
        ranked(before + step_if(cause, step), rank(step) + 1),
        (before + step_if(cause, step)).contains(step) <==> cause,
        forall|other: ValueStep|
            other != step ==> (#[trigger] (before + step_if(cause, step)).contains(other)
                <==> before.contains(other)),
{
    let after = before + step_if(cause, step);
    let n = before.len() as int;
    assert forall|i: int| 0 <= i < n implies #[trigger] after[i] == before[i] by {}
    if cause {
        assert(after.len() == n + 1);
        assert(after[n] == step);
    } else {
        assert(after =~= before);
    }
    if after.contains(step) && !cause {
        let k = choose|k: int| 0 <= k < before.len() && before[k] == step;
        assert(rank(before[k]) < rank(step));
    }
    assert forall|other: ValueStep| other != step implies (#[trigger] after.contains(other)
        <==> before.contains(other)) by {
        if before.contains(other) {
            let k = choose|k: int| 0 <= k < before.len() && before[k] == other;
            assert(after[k] == other);
        }
        if after.contains(other) {
            let k = choose|k: int| 0 <= k < after.len() && after[k] == other;
            assert(k < n);
            assert(before[k] == other);
        }
    }
}

/// Once a drag has stopped nothing is held any more, and before that nothing is let go of.
pub proof fn law_a_stopped_drag_lets_go<S: Number>(
    mouse: Mouse<S>,
    drag: Drag<S>,
    layout: Layout<S>,
    split: Option<usize>,
)
    ensures
        mouse.drag_stopped ==> mouse.left(drag, layout, split).idle(),
        !mouse.drag_stopped ==> mouse.left(drag, layout, split) == mouse.held(drag, layout, split),
        !mouse.drag_stopped && !drag.idle() ==> !mouse.left(drag, layout, split).idle(),
{
}

/// The cursor shows which way a drag would go: a split moves sideways, and all else up and down. Off
/// the spectrum there is none.
pub proof fn law_the_cursor_shows_the_way(hovered: bool, split: Option<usize>)
    ensures
        cursor_over(hovered, split) is Some <==> hovered,
        cursor_over(hovered, split) == Some(Cursor::ResizeHorizontal) <==> hovered && split is Some,
        cursor_over(hovered, split) == Some(Cursor::ResizeVertical) <==> hovered && split is None,
{
}

/// `powf` undoes `ln`: the power of a base whose exponent is the ratio of two logarithms is what the
/// one is the logarithm of, where the other is that of the base.
pub open spec fn restores<S: Number, N: Fn(S) -> S, W: Fn(S, S) -> S>(powf: &W, ln: &N) -> bool {
    forall|b: S, c: S, t: S, p: S, q: S, l: S, m: S|
        #![trigger call_ensures(powf, (b, t), p), call_ensures(ln, (q,), l), call_ensures(ln, (c,), m)]
        call_ensures(powf, (b, t), p) && call_ensures(ln, (q,), l) && call_ensures(ln, (c,), m)
            && c.value() == b.value() && m.value() > 0 as real && t.value() * m.value() == l.value()
            ==> p.value() == q.value()
}

/// The mouse reads the frequency that stands where it is, if the arithmetic does not round and the
/// frequency is one that is shown: one whose logarithm is neither below that of the lowest nor above
/// that of the highest.
pub proof fn law_the_mouse_reads_what_stands_there<S: Number, N: Fn(S) -> S, W: Fn(S, S) -> S>(
    pointer: Pointer<S>,
    at: Point<S>,
    plot: Plot<S>,
    freq: S,
    max_freq: S,
    ln: &N,
    powf: &W,
)
    requires
        exact::<S>(),
        ordered::<S>(),
        restores(powf, ln),
        plot.left.value() < plot.right.value(),
        pointer.points(at, plot, max_freq, powf),
        plot.stands_at(freq, max_freq, ln, at.x),
        plot.left.value() <= at.x.value() <= plot.right.value(),
        forall|x: S, l: S| #[trigger]
            call_ensures(ln, (x,), l) && 20 as real * x.value() == max_freq.value() ==> l.value()
                > 0 as real,
    ensures
        pointer.at == at,
        pointer.freq.value() == freq.value(),
{
    let (l, m) = choose|l: S, m: S|
        #![trigger plot.x_of(l, m)]
        call_ensures(ln, (freq.over(min_freq()),), l) && call_ensures(
            ln,
            (max_freq.over(min_freq()),),
            m,
        ) && at.x == plot.x_of(l, m);
    let (q, b, t) = (
        freq.over(min_freq()),
        max_freq.over(min_freq()),
        plot.fraction_of(at.x),
    );
    let p = choose|p: S| #[trigger]
        call_ensures(powf, (b, t), p) && pointer.freq == min_freq::<S>().times(p);
    lemma_whole::<S>(20);
    lemma_undivide(freq.value(), 20 as real);
    lemma_undivide(max_freq.value(), 20 as real);
    assert(m.value() > 0 as real);
    law_logarithms_stand_in_proportion(plot, l, m);
    law_fractions_go_from_left_to_right(plot, at.x);
    let (tv, mv, lv, w, d) = (
        t.value(),
        m.value(),
        l.value(),
        plot.right.value() - plot.left.value(),
        at.x.value() - plot.left.value(),
    );
    assert(tv * mv == lv) by (nonlinear_arith)
        requires
            tv * w == d,
            d * mv == lv * w,
            w > 0 as real,
    ;
    assert(call_ensures(powf, (b, t), p));
    assert(p.value() == q.value());
}

} // verus!
