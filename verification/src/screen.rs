//! What the places on the spectrum stand for.
use vstd::prelude::*;

use crate::algebra::lemma_undivide;
use crate::plot::{
    bin_at, bin_position, column_fraction_of, curve_of, in_span, is_shown, level_at, max_freq_of,
    min_freq, mix_of, mixed_level, triangles_of, vertices_of, Plot, Point,
};
use crate::scalar::{exact, indexes, lemma_whole, ordered, Number};
use crate::spectrum::SPECTRUM_BINS;

verus! {

// ---- frequencies ----

/// What is shown goes from 20 Hz to half the sample rate, if the arithmetic does not round.
pub proof fn law_half_the_rate_is_shown<S: Number>(sample_rate: S, freq: S, max_freq: S)
    requires
        exact::<S>(),
        ordered::<S>(),
    ensures
        sample_rate.value() >= 1 as real ==> 2 as real * max_freq_of(sample_rate).value()
            == sample_rate.value(),
        sample_rate.value() <= 1 as real ==> 2 as real * max_freq_of(sample_rate).value() == 1 as real,
        is_shown(freq, max_freq) <==> freq.value() > 20 as real && freq.value() < max_freq.value(),
{
    let (r, half) = (sample_rate.greater(S::unit()).value(), S::fraction(1, 2).value());
    assert(half == 1 as real / 2 as real);
    assert(2 as real * (r * half) == r) by (nonlinear_arith)
        requires
            half == 1 as real / 2 as real,
    ;
    assert(S::fraction(20, 1).value() == 20 as real);
}

/// Frequencies stand from the left edge to the right one, in proportion to their logarithms: what
/// has a logarithm of 0 at the left, what has all of the span at the right. This holds if the
/// arithmetic does not round.
pub proof fn law_logarithms_stand_in_proportion<S: Number>(plot: Plot<S>, log_freq: S, log_span: S)
    requires
        exact::<S>(),
        log_span.value() != 0 as real,
    ensures
        (plot.x_of(log_freq, log_span).value() - plot.left.value()) * log_span.value()
            == log_freq.value() * (plot.right.value() - plot.left.value()),
        log_freq.value() == 0 as real ==> plot.x_of(log_freq, log_span).value() == plot.left.value(),
        log_freq.value() == log_span.value() ==> plot.x_of(log_freq, log_span).value()
            == plot.right.value(),
{
    let (l, s) = (log_freq.value(), log_span.value());
    let (q, w) = (l / s, plot.right.value() - plot.left.value());
    lemma_undivide(l, s);
    assert((q * w) * s == (q * s) * w) by (nonlinear_arith);
    if l == 0 as real {
        assert(q * w == 0 as real) by (nonlinear_arith)
            requires
                q * s == 0 as real,
                s != 0 as real,
        ;
    }
    if l == s {
        assert(q == 1 as real) by (nonlinear_arith)
            requires
                q * s == s,
                s != 0 as real,
        ;
        assert(q * w == w) by (nonlinear_arith)
            requires
                q == 1 as real,
        ;
    }
}

/// A frequency stands where the logarithm of its ratio to 20 Hz lies in that of the highest one, if
/// the arithmetic does not round.
pub proof fn law_frequencies_stand_by_their_ratio<S: Number, N: Fn(S) -> S>(
    plot: Plot<S>,
    freq: S,
    max_freq: S,
    ln: &N,
    x: S,
)
    requires
        exact::<S>(),
        plot.stands_at(freq, max_freq, ln, x),
    ensures
        exists|a: S, l: S, b: S, m: S|
            #![trigger call_ensures(ln, (a,), l), call_ensures(ln, (b,), m)]
            call_ensures(ln, (a,), l) && call_ensures(ln, (b,), m) && 20 as real * a.value()
                == freq.value() && 20 as real * b.value() == max_freq.value() && (m.value()
                != 0 as real ==> (x.value() - plot.left.value()) * m.value() == l.value() * (
            plot.right.value() - plot.left.value())),
{
    let (l, m) = choose|l: S, m: S|
        #![trigger plot.x_of(l, m)]
        call_ensures(ln, (freq.over(min_freq()),), l) && call_ensures(
            ln,
            (max_freq.over(min_freq()),),
            m,
        ) && x == plot.x_of(l, m);
    let (a, b) = (freq.over(min_freq()), max_freq.over(min_freq()));
    lemma_whole::<S>(20);
    lemma_undivide(freq.value(), 20 as real);
    lemma_undivide(max_freq.value(), 20 as real);
    if m.value() != 0 as real {
        law_logarithms_stand_in_proportion(plot, l, m);
    }
    assert(call_ensures(ln, (a,), l) && call_ensures(ln, (b,), m));
}

/// How far to the right a place is grows from 0 at the left edge to 1 at the right one, in
/// proportion, and no further. This holds if the arithmetic does not round.
pub proof fn law_fractions_go_from_left_to_right<S: Number>(plot: Plot<S>, x: S)
    requires
        exact::<S>(),
        ordered::<S>(),
        plot.left.value() < plot.right.value(),
    ensures
        ({
            let (l, r, v) = (plot.left.value(), plot.right.value(), x.value());
            let t = plot.fraction_of(x).value();
            &&& l <= v <= r ==> t * (r - l) == v - l
            &&& v <= l ==> t == 0 as real
            &&& v >= r ==> t == 1 as real
        }),
{
    let (l, r, v) = (plot.left.value(), plot.right.value(), x.value());
    let (d, w) = (v - l, r - l);
    let q = d / w;
    lemma_undivide(d, w);
    assert(d <= 0 as real ==> q <= 0 as real) by (nonlinear_arith)
        requires
            q * w == d,
            w > 0 as real,
    ;
    assert(d >= w ==> q >= 1 as real) by (nonlinear_arith)
        requires
            q * w == d,
            w > 0 as real,
    ;
    assert(0 as real <= d <= w ==> 0 as real <= q <= 1 as real) by (nonlinear_arith)
        requires
            q * w == d,
            w > 0 as real,
    ;
}

/// The frequency at a fraction of the way is 20 Hz times that power of the ratio of the highest one
/// to 20 Hz: where a power of 0 is 1 and one of 1 changes nothing, it is 20 Hz at the left edge and
/// the highest one at the right edge. This holds if the arithmetic does not round.
pub proof fn law_frequencies_grow_by_powers<S: Number, W: Fn(S, S) -> S>(
    t: S,
    max_freq: S,
    powf: &W,
    freq: S,
)
    requires
        exact::<S>(),
        Plot::is_freq_at(t, max_freq, powf, freq),
    ensures
        exists|b: S, p: S| #[trigger]
            call_ensures(powf, (b, t), p) && 20 as real * b.value() == max_freq.value()
                && freq.value() == 20 as real * p.value(),
{
    let b = max_freq.over(min_freq());
    let p = choose|p: S| #[trigger]
        call_ensures(powf, (b, t), p) && freq == min_freq::<S>().times(p);
    lemma_whole::<S>(20);
    lemma_undivide(max_freq.value(), 20 as real);
    assert(call_ensures(powf, (b, t), p));
}

/// `ln` undoes `powf`: the logarithm of a power is the exponent times that of the base.
pub open spec fn undoes<S: Number, N: Fn(S) -> S, W: Fn(S, S) -> S>(ln: &N, powf: &W) -> bool {
    forall|b: S, c: S, t: S, p: S, q: S, l: S, m: S|
        #![trigger call_ensures(powf, (b, t), p), call_ensures(ln, (q,), l), call_ensures(ln, (c,), m)]
        call_ensures(powf, (b, t), p) && call_ensures(ln, (q,), l) && call_ensures(ln, (c,), m)
            && q.value() == p.value() && c.value() == b.value() ==> l.value() == t.value()
            * m.value()
}

/// The columns of the curve stand at even distances, the first at the left edge and the last at the
/// right one, if the arithmetic does not round.
pub proof fn law_columns_stand_evenly<S: Number, N: Fn(S) -> S, W: Fn(S, S) -> S>(
    plot: Plot<S>,
    p: Point<S>,
    j: int,
    columns: int,
    levels: Seq<S>,
    sample_rate: S,
    ln: &N,
    powf: &W,
)
    requires
        exact::<S>(),
        undoes(ln, powf),
        forall|x: S, l: S| #[trigger]
            call_ensures(ln, (x,), l) && 20 as real * x.value() == max_freq_of(sample_rate).value()
                ==> l.value() != 0 as real,
        0 <= j < columns,
        columns >= 2,
        plot.on_curve(p, j, columns, levels, sample_rate, ln, powf),
    ensures
        (p.x.value() - plot.left.value()) * (columns - 1) as real == j as real * (plot.right.value()
            - plot.left.value()),
{
    let rate = sample_rate.greater(S::unit());
    let top = max_freq_of(sample_rate);
    let t: S = column_fraction_of(j, columns);
    let freq = choose|freq: S|
        #![trigger level_at(levels, freq, rate)]
        Plot::<S>::is_freq_at(t, top, powf, freq) && plot.stands_at(freq, top, ln, p.x) && p.y
            == plot.y_of(level_at(levels, freq, rate));
    let (b, power) = (top.over(min_freq()), choose|power: S| #[trigger]
        call_ensures(powf, (top.over(min_freq()), t), power) && freq == min_freq::<S>().times(
            power,
        ));
    let (l, m) = choose|l: S, m: S|
        #![trigger plot.x_of(l, m)]
        call_ensures(ln, (freq.over(min_freq()),), l) && call_ensures(
            ln,
            (top.over(min_freq()),),
            m,
        ) && p.x == plot.x_of(l, m);
    let q = freq.over(min_freq());
    lemma_whole::<S>(20);
    lemma_undivide(freq.value(), 20 as real);
    lemma_undivide(top.value(), 20 as real);
    assert(q.value() == power.value());
    assert(l.value() == t.value() * m.value());
    assert(m.value() != 0 as real);
    law_logarithms_stand_in_proportion(plot, l, m);
    law_column_fractions_are_even::<S>(j, columns);
    let (d, w, mv, tv, n, k) = (
        p.x.value() - plot.left.value(),
        plot.right.value() - plot.left.value(),
        m.value(),
        t.value(),
        (columns - 1) as real,
        j as real,
    );
    assert(d == tv * w) by (nonlinear_arith)
        requires
            d * mv == (tv * mv) * w,
            mv != 0 as real,
    ;
    assert((tv * w) * n == (tv * n) * w) by (nonlinear_arith);
}

/// Each column is as high as the level that is read at the very frequency that stands where the
/// column does, if the arithmetic does not round.
pub proof fn law_columns_show_what_stands_there<S: Number, N: Fn(S) -> S, W: Fn(S, S) -> S>(
    plot: Plot<S>,
    p: Point<S>,
    j: int,
    columns: int,
    levels: Seq<S>,
    sample_rate: S,
    ln: &N,
    powf: &W,
)
    requires
        exact::<S>(),
        ordered::<S>(),
        sample_rate.value() >= 1 as real,
        plot.on_curve(p, j, columns, levels, sample_rate, ln, powf),
    ensures
        exists|freq: S, rate: S|
            #![trigger level_at(levels, freq, rate)]
            plot.stands_at(freq, max_freq_of(sample_rate), ln, p.x) && rate.value()
                == sample_rate.value() && (plot.bottom.value() - p.y.value()) * 70 as real == (
            level_at(levels, freq, rate).value() + 70 as real) * (plot.bottom.value()
                - plot.top.value()),
{
    let rate = sample_rate.greater(S::unit());
    let t: S = column_fraction_of(j, columns);
    let freq = choose|freq: S|
        #![trigger level_at(levels, freq, rate)]
        Plot::<S>::is_freq_at(t, max_freq_of(sample_rate), powf, freq) && plot.stands_at(
            freq,
            max_freq_of(sample_rate),
            ln,
            p.x,
        ) && p.y == plot.y_of(level_at(levels, freq, rate));
    let mix = mix_of(freq, rate);
    law_levels_mix_in_proportion(
        levels[bin_at(bin_position(freq, rate).index() as int)],
        levels[bin_at(bin_at(bin_position(freq, rate).index() as int) + 1)],
        mix.frac,
    );
    law_levels_stand_in_proportion(plot, level_at(levels, freq, rate));
}

/// The columns go from the first, at 0, to the last, at 1, in even steps, if the arithmetic does not
/// round.
pub proof fn law_column_fractions_are_even<S: Number>(j: int, columns: int)
    requires
        exact::<S>(),
        0 <= j < columns,
        columns >= 2,
    ensures
        column_fraction_of::<S>(j, columns).value() * (columns - 1) as real == j as real,
{
    assert(S::count(j as nat).value() == j as real);
    assert(S::count((columns - 1) as nat).value() == (columns - 1) as real);
    lemma_undivide(j as real, (columns - 1) as real);
}

/// There is a column for every 3 points of width, and two at least, if the arithmetic does not round.
pub proof fn law_columns_are_three_points_wide<S: Number>(plot: Plot<S>)
    requires
        exact::<S>(),
        ordered::<S>(),
        indexes::<S>(),
        plot.right.value() - plot.left.value() < 1000000000 as real,
    ensures
        ({
            let (w, n) = (plot.right.value() - plot.left.value(), plot.num_columns() as real);
            &&& w >= 6 as real ==> 3 as real * n <= w && w < 3 as real * n + 3 as real
            &&& w <= 6 as real ==> n == 2 as real
        }),
{
    let w = plot.right.value() - plot.left.value();
    assert(S::fraction(3, 1).value() == 3 as real);
    assert(S::fraction(2, 1).value() == 2 as real);
    let c = plot.width().over(S::fraction(3, 1)).greater(S::fraction(2, 1));
    assert(c.value() == if w >= 6 as real {
        w / 3 as real
    } else {
        2 as real
    });
    assert(c.index() as real <= c.value() && c.value() < c.index() as real + 1 as real);
    if w <= 6 as real {
        assert(c.value() == 2 as real);
        assert(c.index() as int == 2);
    }
}

// ---- heights ----

/// Levels stand from the bottom, for -70 dB, to the top, for 0 dB, in proportion, if the arithmetic
/// does not round.
pub proof fn law_levels_stand_in_proportion<S: Number>(plot: Plot<S>, db: S)
    requires
        exact::<S>(),
        ordered::<S>(),
        -(70 as real) <= db.value() <= 0 as real,
    ensures
        (plot.bottom.value() - plot.y_of(db).value()) * 70 as real == (db.value() + 70 as real) * (
        plot.bottom.value() - plot.top.value()),
{
    assert(S::fraction(-70, 1).value() == -(70 as real) && S::fraction(70, 1).value() == 70 as real);
    let (h, t) = (
        plot.bottom.value() - plot.top.value(),
        Plot::<S>::level_fraction(db).value(),
    );
    assert(t == (db.value() + 70 as real) / 70 as real);
    assert((1 as real - t) * h == h - t * h) by (nonlinear_arith);
    assert((t * h) * 70 as real == (t * 70 as real) * h) by (nonlinear_arith);
}

/// The bar of a band stands at the top for a shaping value of 1, in the middle for 0 and at the
/// bottom for -1, in proportion, if the arithmetic does not round.
pub proof fn law_bars_stand_in_proportion<S: Number>(plot: Plot<S>, p: S)
    requires
        exact::<S>(),
    ensures
        2 as real * (plot.bar_of(p).value() - plot.top.value()) == (1 as real - p.value()) * (
        plot.bottom.value() - plot.top.value()),
{
    let (half, v, h) = (S::fraction(1, 2).value(), p.value(), plot.bottom.value() - plot.top.value());
    assert(half == 1 as real / 2 as real);
    assert(v * half == v / 2 as real) by (nonlinear_arith)
        requires
            half == 1 as real / 2 as real,
    ;
    let u = half - v * half;
    assert(2 as real * (u * h) == (2 as real * u) * h) by (nonlinear_arith);
}

// ---- bands ----

/// The bands lie side by side, from the left edge to the right one: where one ends, the next one
/// begins.
pub proof fn law_bands_lie_side_by_side<S: Number>(plot: Plot<S>, lines: Seq<S>, band: int)
    requires
        0 <= band < lines.len(),
    ensures
        plot.span_of(lines, 0).0 == plot.left,
        plot.span_of(lines, lines.len() as int).1 == plot.right,
        plot.span_of(lines, band).1 == lines[band],
        plot.span_of(lines, band + 1).0 == lines[band],
{
}

/// The part of the curve that belongs to a band is what lies between its ends, with half a point to
/// spare on both sides, if the arithmetic does not round.
pub proof fn law_curves_stay_in_their_band<S: Number>(columns: Seq<Point<S>>, x0: S, x1: S, i: int)
    requires
        exact::<S>(),
        ordered::<S>(),
        0 <= i < columns.len(),
    ensures
        ({
            let x = columns[i].x.value();
            let inside = 2 as real * x0.value() - 1 as real <= 2 as real * x && 2 as real * x
                <= 2 as real * x1.value() + 1 as real;
            &&& in_span(columns[i].x, x0, x1) <==> inside
            &&& inside ==> curve_of(columns, x0, x1).contains(columns[i])
            &&& curve_of(columns, x0, x1).contains(columns[i]) ==> inside
        }),
{
    broadcast use vstd::seq_lib::group_filter_ensures;

    assert(S::fraction(1, 2).value() == 1 as real / 2 as real);
    let keep = |p: Point<S>| in_span(p.x, x0, x1);
    let kept = columns.filter(keep);
    assert(kept == curve_of(columns, x0, x1));
    if kept.contains(columns[i]) {
        let k = choose|k: int| 0 <= k < kept.len() && kept[k] == columns[i];
        assert(keep(kept[k]));
    }
}

// ---- bins ----

/// The bin `k` stands for the frequency of which the frame holds `k` periods: where a frequency lies
/// among the bins, times the sample rate, is that frequency times the size of a frame. This holds if
/// the arithmetic does not round.
pub proof fn law_bins_stand_for_frequencies<S: Number>(freq: S, sample_rate: S)
    requires
        exact::<S>(),
        sample_rate.value() != 0 as real,
    ensures
        bin_position(freq, sample_rate).value() * sample_rate.value() == freq.value() * 4096 as real,
{
    assert(S::count(4096).value() == 4096 as real);
    lemma_undivide(freq.value() * 4096 as real, sample_rate.value());
}

/// Between two bins the level goes from that of the one to that of the other in proportion, held
/// within what is shown, if the arithmetic does not round.
pub proof fn law_levels_mix_in_proportion<S: Number>(level0: S, level1: S, frac: S)
    requires
        exact::<S>(),
        ordered::<S>(),
    ensures
        ({
            let (a, b, f) = (level0.value(), level1.value(), frac.value());
            let (raw, level) = (a + f * (b - a), mixed_level(level0, level1, frac).value());
            &&& -(70 as real) <= raw <= 0 as real ==> level == raw
            &&& raw <= -(70 as real) ==> level == -(70 as real)
            &&& raw >= 0 as real ==> level == 0 as real
        }),
{
    let (a, b, f) = (level0.value(), level1.value(), frac.value());
    assert(S::fraction(-70, 1).value() == -(70 as real));
    assert(a * (1 as real - f) == a - a * f) by (nonlinear_arith);
    assert(f * (b - a) == b * f - a * f) by (nonlinear_arith);
}

/// What is shown at a frequency between the bins `k` and `k + 1` lies between their levels in
/// proportion, and from half the sample rate on it is the level of the last bin, held within what is
/// shown. This holds if the arithmetic does not round.
pub proof fn law_levels_are_read_between_their_bins<S: Number>(
    levels: Seq<S>,
    freq: S,
    sample_rate: S,
    k: int,
)
    requires
        exact::<S>(),
        ordered::<S>(),
        indexes::<S>(),
        sample_rate.value() > 0 as real,
        levels.len() == SPECTRUM_BINS,
        0 <= k <= 2048,
        k as real * sample_rate.value() <= freq.value() * 4096 as real,
        k < 2048 ==> (k + 1) as real * sample_rate.value() > freq.value() * 4096 as real,
        2147483648 as real * sample_rate.value() > freq.value() * 4096 as real,
    ensures
        ({
            let shown = level_at(levels, freq, sample_rate).value();
            let next = if k < 2048 {
                levels[k + 1].value()
            } else {
                levels[k].value()
            };
            let f = bin_position(freq, sample_rate).value() - k as real;
            let raw = levels[k].value() + f * (next - levels[k].value());
            &&& f * sample_rate.value() == freq.value() * 4096 as real - k as real
                * sample_rate.value()
            &&& -(70 as real) <= raw <= 0 as real ==> shown == raw
            &&& raw <= -(70 as real) ==> shown == -(70 as real)
            &&& raw >= 0 as real ==> shown == 0 as real
        }),
{
    law_bins_stand_for_frequencies(freq, sample_rate);
    let (p, r, v) = (
        bin_position(freq, sample_rate).value(),
        sample_rate.value(),
        freq.value() * 4096 as real,
    );
    let (x, y, big) = (k as real, (k + 1) as real, 2147483648 as real);
    assert(x <= p) by (nonlinear_arith)
        requires
            x * r <= p * r,
            r > 0 as real,
    ;
    assert(p < big) by (nonlinear_arith)
        requires
            p * r < big * r,
            r > 0 as real,
    ;
    if k < 2048 {
        assert(p < y) by (nonlinear_arith)
            requires
                p * r < y * r,
                r > 0 as real,
        ;
    }
    let i = bin_position(freq, sample_rate).index() as int;
    assert(i as real <= p && p < i as real + 1 as real);
    assert(k < 2048 ==> i == k);
    assert(k == 2048 ==> i >= 2048);
    assert(bin_at(i) == k);
    assert(S::count(k as nat).value() == x);
    assert((p - x) * r == p * r - x * r) by (nonlinear_arith);
    let mix = mix_of(freq, sample_rate);
    law_levels_mix_in_proportion(levels[k], levels[bin_at(k + 1)], mix.frac);
}

// ---- the area under the curve ----

/// Each step of the curve is filled by two triangles that meet in one edge: the first from the point
/// on the curve to the one below it and to the next one on the curve, the second from there to the
/// one below the first point and to the one below the next.
pub proof fn law_steps_are_filled<S: Number>(curve: Seq<Point<S>>, bottom: S, n: nat, k: int)
    requires
        0 <= k < n,
        n < curve.len() <= 0x4000_0000,
    ensures
        ({
            let (v, t) = (vertices_of(curve, bottom, n), triangles_of(n));
            let (a, b) = (t[2 * k], t[2 * k + 1]);
            &&& v.len() == 4 * n
            &&& t.len() == 2 * n
            &&& v[a.0 as int].at == curve[k] && v[a.0 as int].on_curve
            &&& v[a.1 as int].at == (Point { x: curve[k].x, y: bottom }) && !v[a.1 as int].on_curve
            &&& v[a.2 as int].at == curve[k + 1] && v[a.2 as int].on_curve
            &&& v[b.0 as int].at == curve[k + 1] && v[b.0 as int].on_curve
            &&& v[b.1 as int].at == (Point { x: curve[k].x, y: bottom }) && !v[b.1 as int].on_curve
            &&& v[b.2 as int].at == (Point { x: curve[k + 1].x, y: bottom })
                && !v[b.2 as int].on_curve
        }),
{
    let i = 4 * k;
    assert((2 * k) / 2 == k && (2 * k) % 2 == 0);
    assert((2 * k + 1) / 2 == k && (2 * k + 1) % 2 == 1);
    assert(i / 4 == k && (i + 1) / 4 == k && (i + 2) / 4 == k && (i + 3) / 4 == k);
    assert(i % 4 == 0 && (i + 1) % 4 == 1 && (i + 2) % 4 == 2 && (i + 3) % 4 == 3);
}

} // verus!
