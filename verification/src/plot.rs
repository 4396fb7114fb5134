//! Where things stand on the spectrum.
use vstd::prelude::*;

use crate::scalar::{clamp, Scalar};
#[allow(unused_imports)]
use crate::scalar::{clamped, exact, ordered, Number};
use crate::spectrum::{SPECTRUM_BINS, SPECTRUM_FFT_SIZE};

verus! {

/// A point on the screen; `y` grows downwards.
#[derive(Clone, Copy, Debug)]
pub struct Point<S> {
    pub x: S,
    pub y: S,
}

/// The rectangle that the spectrum is drawn in.
#[derive(Clone, Copy, Debug)]
pub struct Plot<S> {
    pub left: S,
    pub top: S,
    pub right: S,
    pub bottom: S,
}

/// The lowest frequency that is shown.
pub open spec fn min_freq<S: Number>() -> S {
    S::fraction(20, 1)
}

/// The highest frequency that is shown.
pub open spec fn max_freq_of<S: Number>(sample_rate: S) -> S {
    sample_rate.greater(S::unit()).times(S::fraction(1, 2))
}

/// The highest frequency that is shown.
pub fn max_freq<S: Scalar>(sample_rate: S) -> (r: S)
    ensures
        r == max_freq_of(sample_rate),
{
    sample_rate.max(S::one()).mul(S::ratio(1, 2))
}

/// `freq` lies inside the range that is shown.
pub open spec fn is_shown<S: Number>(freq: S, max_freq: S) -> bool {
    !freq.upto(min_freq()) && !max_freq.upto(freq)
}

/// Whether `freq` lies inside the range that is shown.
pub fn shown<S: Scalar>(freq: S, max_freq: S) -> (r: bool)
    ensures
        r == is_shown(freq, max_freq),
{
    !(freq.le(S::ratio(20, 1)) || max_freq.le(freq))
}

impl<S: Number> Plot<S> {
    pub open spec fn width(self) -> S {
        self.right.minus(self.left)
    }

    pub open spec fn height(self) -> S {
        self.bottom.minus(self.top)
    }

    /// Where a frequency stands. `log_freq` is the logarithm of its ratio to the lowest one that
    /// is shown, and `log_span` that of the highest one.
    pub open spec fn x_of(self, log_freq: S, log_span: S) -> S {
        self.left.plus(log_freq.over(log_span).times(self.width()))
    }

    /// `freq` stands at `x`, for the natural logarithm `ln`.
    pub open spec fn stands_at<N: Fn(S) -> S>(self, freq: S, max_freq: S, ln: &N, x: S) -> bool {
        exists|log_freq: S, log_span: S|
            #![trigger self.x_of(log_freq, log_span)]
            call_ensures(ln, (freq.over(min_freq()),), log_freq) && call_ensures(
                ln,
                (max_freq.over(min_freq()),),
                log_span,
            ) && x == self.x_of(log_freq, log_span)
    }

    /// How far up a level stands: 0 for the bottom, 1 for the top.
    pub open spec fn level_fraction(db: S) -> S {
        clamped(db.minus(S::fraction(-70, 1)).over(S::fraction(70, 1)), S::nought(), S::unit())
    }

    /// Where a level stands.
    pub open spec fn y_of(self, db: S) -> S {
        self.top.plus(S::unit().minus(Self::level_fraction(db)).times(self.height()))
    }

    /// How far to the right `x` is: 0 for the left edge, 1 for the right one.
    pub open spec fn fraction_of(self, x: S) -> S {
        clamped(x.minus(self.left).over(self.width()), S::nought(), S::unit())
    }

    /// `freq` is the frequency that is a fraction `t` of the way from the lowest one that is shown
    /// to the highest one, for the power function `powf`.
    pub open spec fn is_freq_at<W: Fn(S, S) -> S>(t: S, max_freq: S, powf: &W, freq: S) -> bool {
        exists|power: S| #[trigger]
            call_ensures(powf, (max_freq.over(min_freq()), t), power) && freq == min_freq::<S>().times(
                power,
            )
    }

    /// Where the bar of a band with the shaping value `p` stands.
    pub open spec fn bar_of(self, p: S) -> S {
        self.top.plus(S::fraction(1, 2).minus(p.times(S::fraction(1, 2))).times(self.height()))
    }

    /// How many columns the curve has.
    pub open spec fn num_columns(self) -> usize {
        self.width().over(S::fraction(3, 1)).greater(S::fraction(2, 1)).index()
    }

    /// The left and the right end of `band`, when the crossovers stand at `lines`.
    pub open spec fn span_of(self, lines: Seq<S>, band: int) -> (S, S) {
        (
            if band == 0 {
                self.left
            } else {
                lines[band - 1]
            },
            if band == lines.len() {
                self.right
            } else {
                lines[band]
            },
        )
    }
}

impl<S: Scalar> Plot<S> {
    /// Where a frequency stands whose ratio to the lowest one that is shown has the logarithm
    /// `log_freq`.
    pub fn x_at(&self, log_freq: S, log_span: S) -> (r: S)
        ensures
            r == self.x_of(log_freq, log_span),
    {
        self.left.add(log_freq.div(log_span).mul(self.right.sub(self.left)))
    }

    /// Where the frequency `freq` stands. `ln` is the natural logarithm.
    pub fn freq_to_x<N: Fn(S) -> S>(&self, freq: S, max_freq: S, ln: &N) -> (r: S)
        requires
            forall|x: S| #[trigger] call_requires(ln, (x,)),
        ensures
            self.stands_at(freq, max_freq, ln, r),
    {
        let log_freq: S = ln(freq.div(S::ratio(20, 1)));
        let log_span: S = ln(max_freq.div(S::ratio(20, 1)));
        self.x_at(log_freq, log_span)
    }

    /// Where the first `n` of `freqs` stand. `ln` is the natural logarithm.
    pub fn lines<N: Fn(S) -> S>(&self, freqs: &[S], n: usize, max_freq: S, ln: &N) -> (r: Vec<S>)
        requires
            n <= freqs@.len(),
            forall|x: S| #[trigger] call_requires(ln, (x,)),
        ensures
            r@.len() == n,
            forall|i: int| 0 <= i < n ==> self.stands_at(freqs@[i], max_freq, ln, #[trigger] r@[i]),
    {
        let mut lines: Vec<S> = Vec::new();
        for i in 0..n
            invariant
                n <= freqs@.len(),
                forall|x: S| #[trigger] call_requires(ln, (x,)),
                lines@.len() == i,
                forall|k: int|
                    0 <= k < i ==> self.stands_at(freqs@[k], max_freq, ln, #[trigger] lines@[k]),
        {
            lines.push(self.freq_to_x(freqs[i], max_freq, ln));
        }
        lines
    }

    pub fn db_to_y(&self, db: S) -> (r: S)
        ensures
            r == self.y_of(db),
    {
        let t = clamp(db.sub(S::ratio(-70, 1)).div(S::ratio(70, 1)), S::zero(), S::one());
        self.top.add(S::one().sub(t).mul(self.bottom.sub(self.top)))
    }

    pub fn x_to_fraction(&self, x: S) -> (r: S)
        ensures
            r == self.fraction_of(x),
    {
        clamp(x.sub(self.left).div(self.right.sub(self.left)), S::zero(), S::one())
    }

    /// The frequency that stands at `x`. `powf` raises its first argument to the power of its
    /// second one.
    pub fn x_to_freq<W: Fn(S, S) -> S>(&self, x: S, max_freq: S, powf: &W) -> (r: S)
        requires
            forall|a: S, b: S| #[trigger] call_requires(powf, (a, b)),
        ensures
            Self::is_freq_at(self.fraction_of(x), max_freq, powf, r),
    {
        let t = self.x_to_fraction(x);
        let power: S = powf(max_freq.div(S::ratio(20, 1)), t);
        S::ratio(20, 1).mul(power)
    }

    pub fn bar_y(&self, p: S) -> (r: S)
        ensures
            r == self.bar_of(p),
    {
        self.top.add(
            S::ratio(1, 2).sub(p.mul(S::ratio(1, 2))).mul(self.bottom.sub(self.top)),
        )
    }

    /// How many columns the curve has.
    pub fn columns(&self) -> (r: usize)
        ensures
            r == self.num_columns(),
    {
        self.right.sub(self.left).div(S::ratio(3, 1)).max(S::ratio(2, 1)).to_usize()
    }

    pub fn band_span(&self, lines: &[S], band: usize) -> (r: (S, S))
        requires
            band <= lines@.len(),
        ensures
            r == self.span_of(lines@, band as int),
    {
        let x0 = if band == 0 {
            self.left
        } else {
            lines[band - 1]
        };
        let x1 = if band == lines.len() {
            self.right
        } else {
            lines[band]
        };
        (x0, x1)
    }
}

/// How far along the curve the column `j` of `columns` is: 0 for the first, 1 for the last.
pub open spec fn column_fraction_of<S: Number>(j: int, columns: int) -> S {
    S::count(j as nat).over(S::count((columns - 1) as nat))
}

/// How far along the curve the column `j` of `columns` is.
pub fn column_fraction<S: Scalar>(j: usize, columns: usize) -> (r: S)
    requires
        columns >= 1,
    ensures
        r == column_fraction_of::<S>(j as int, columns as int),
{
    S::from_usize(j).div(S::from_usize(columns - 1))
}

/// Two neighbouring bins, and how far from the first to the second a frequency lies.
#[derive(Clone, Copy, Debug)]
pub struct BinMix<S> {
    pub bin0: usize,
    pub bin1: usize,
    pub frac: S,
}

/// Where `freq` lies among the bins, as a number.
pub open spec fn bin_position<S: Number>(freq: S, sample_rate: S) -> S {
    freq.times(S::count(SPECTRUM_FFT_SIZE as nat)).over(sample_rate)
}

/// `i`, or the last bin, if there is no bin `i`.
pub open spec fn bin_at(i: int) -> int {
    if i < SPECTRUM_BINS {
        i
    } else {
        SPECTRUM_BINS - 1
    }
}

/// The bins that `freq` lies between.
pub open spec fn mix_of<S: Number>(freq: S, sample_rate: S) -> BinMix<S> {
    let bin0 = bin_at(bin_position(freq, sample_rate).index() as int);
    BinMix {
        bin0: bin0 as usize,
        bin1: bin_at(bin0 + 1) as usize,
        frac: bin_position(freq, sample_rate).minus(S::count(bin0 as nat)),
    }
}

/// The bins that `freq` lies between.
pub fn bins_around<S: Scalar>(freq: S, sample_rate: S) -> (r: BinMix<S>)
    ensures
        r == mix_of(freq, sample_rate),
        r.bin0 == bin_at(bin_position(freq, sample_rate).index() as int),
        r.bin1 == bin_at(r.bin0 + 1),
        r.frac == bin_position(freq, sample_rate).minus(S::count(r.bin0 as nat)),
{
    let bin_f = freq.mul(S::from_usize(SPECTRUM_FFT_SIZE)).div(sample_rate);
    let i: usize = bin_f.to_usize();
    let bin0: usize = if i < SPECTRUM_BINS {
        i
    } else {
        SPECTRUM_BINS - 1
    };
    let bin1: usize = if bin0 + 1 < SPECTRUM_BINS {
        bin0 + 1
    } else {
        SPECTRUM_BINS - 1
    };
    BinMix { bin0, bin1, frac: bin_f.sub(S::from_usize(bin0)) }
}

/// The level between two bins that stand at `level0` and `level1`, held within what is shown.
pub open spec fn mixed_level<S: Number>(level0: S, level1: S, frac: S) -> S {
    clamped(
        level0.times(S::unit().minus(frac)).plus(level1.times(frac)),
        S::fraction(-70, 1),
        S::nought(),
    )
}

/// The level between two bins that stand at `level0` and `level1`, held within what is shown.
pub fn level_between<S: Scalar>(level0: S, level1: S, frac: S) -> (r: S)
    ensures
        r == mixed_level(level0, level1, frac),
{
    clamp(
        level0.mul(S::one().sub(frac)).add(level1.mul(frac)),
        S::ratio(-70, 1),
        S::zero(),
    )
}

/// The level that `levels` show at `freq`.
pub open spec fn level_at<S: Number>(levels: Seq<S>, freq: S, sample_rate: S) -> S {
    let bin0 = bin_at(bin_position(freq, sample_rate).index() as int);
    let frac = bin_position(freq, sample_rate).minus(S::count(bin0 as nat));
    mixed_level(levels[bin0], levels[bin_at(bin0 + 1)], frac)
}

impl<S: Number> Plot<S> {
    /// `p` is the point of the curve through `levels` in the column `j` of `columns`.
    pub open spec fn on_curve<N: Fn(S) -> S, W: Fn(S, S) -> S>(
        self,
        p: Point<S>,
        j: int,
        columns: int,
        levels: Seq<S>,
        sample_rate: S,
        ln: &N,
        powf: &W,
    ) -> bool {
        exists|freq: S|
            #![trigger level_at(levels, freq, sample_rate.greater(S::unit()))]
            Self::is_freq_at(
                column_fraction_of(j, columns),
                max_freq_of(sample_rate),
                powf,
                freq,
            ) && self.stands_at(freq, max_freq_of(sample_rate), ln, p.x) && p.y == self.y_of(
                level_at(levels, freq, sample_rate.greater(S::unit())),
            )
    }
}

impl<S: Scalar> Plot<S> {
    /// The curve through `levels`, one point for each column. `ln` is the natural logarithm, and
    /// `powf` raises its first argument to the power of its second one.
    pub fn curve<N: Fn(S) -> S, W: Fn(S, S) -> S>(
        &self,
        levels: &[S],
        sample_rate: S,
        ln: &N,
        powf: &W,
    ) -> (r: Vec<Point<S>>)
        requires
            levels@.len() == SPECTRUM_BINS,
            forall|x: S| #[trigger] call_requires(ln, (x,)),
            forall|a: S, b: S| #[trigger] call_requires(powf, (a, b)),
        ensures
            r@.len() == self.num_columns(),
            forall|j: int|
                0 <= j < r@.len() ==> self.on_curve(
                    #[trigger] r@[j],
                    j,
                    r@.len() as int,
                    levels@,
                    sample_rate,
                    ln,
                    powf,
                ),
    {
        let num_cols: usize = self.columns();
        let max_freq = max_freq(sample_rate);
        let sample_rate_shown = sample_rate.max(S::one());
        let mut curve: Vec<Point<S>> = Vec::new();
        for j in 0..num_cols
            invariant
                levels@.len() == SPECTRUM_BINS,
                forall|x: S| #[trigger] call_requires(ln, (x,)),
                forall|a: S, b: S| #[trigger] call_requires(powf, (a, b)),
                max_freq == max_freq_of(sample_rate),
                sample_rate_shown == sample_rate.greater(S::unit()),
                curve@.len() == j,
                forall|k: int|
                    0 <= k < j ==> self.on_curve(
                        #[trigger] curve@[k],
                        k,
                        num_cols as int,
                        levels@,
                        sample_rate,
                        ln,
                        powf,
                    ),
        {
            let t: S = column_fraction(j, num_cols);
            let power: S = powf(max_freq.div(S::ratio(20, 1)), t);
            let freq = S::ratio(20, 1).mul(power);
            let mix = bins_around(freq, sample_rate_shown);
            let db = level_between(levels[mix.bin0], levels[mix.bin1], mix.frac);
            assert(db == level_at(levels@, freq, sample_rate_shown));
            let p = Point { x: self.freq_to_x(freq, max_freq, ln), y: self.db_to_y(db) };
            assert(Self::is_freq_at(t, max_freq, powf, freq));
            assert(self.on_curve(p, j as int, num_cols as int, levels@, sample_rate, ln, powf));
            curve.push(p);
        }
        curve
    }
}

/// Whether a column at `x` belongs to the band from `x0` to `x1`, with half a pixel to spare.
pub open spec fn in_span<S: Number>(x: S, x0: S, x1: S) -> bool {
    !x.below(x0.minus(S::fraction(1, 2))) && !x1.plus(S::fraction(1, 2)).below(x)
}

/// Those of the columns that belong to the band from `x0` to `x1`.
pub open spec fn curve_of<S: Number>(columns: Seq<Point<S>>, x0: S, x1: S) -> Seq<Point<S>> {
    columns.filter(|p: Point<S>| in_span(p.x, x0, x1))
}

/// The part of the curve that belongs to the band from `x0` to `x1`.
pub fn band_curve<S: Scalar>(columns: &[Point<S>], x0: S, x1: S) -> (r: Vec<Point<S>>)
    ensures
        r@ == curve_of(columns@, x0, x1),
{
    let lo = x0.sub(S::ratio(1, 2));
    let hi = x1.add(S::ratio(1, 2));
    let mut curve: Vec<Point<S>> = Vec::new();
    for j in 0..columns.len()
        invariant
            lo == x0.minus(S::fraction(1, 2)),
            hi == x1.plus(S::fraction(1, 2)),
            curve@ == curve_of(columns@.take(j as int), x0, x1),
    {
        proof {
            assert(columns@.take(j + 1).drop_last() =~= columns@.take(j as int));
            reveal_with_fuel(Seq::filter, 1);
        }
        let p = columns[j];
        if !p.x.lt(lo) && !hi.lt(p.x) {
            curve.push(p);
        }
    }
    assert(columns@.take(columns@.len() as int) =~= columns@);
    curve
}

/// A corner of the area under the curve.
#[derive(Clone, Copy, Debug)]
pub struct Vertex<S> {
    pub at: Point<S>,
    /// Whether it stands on the curve, and not at the bottom.
    pub on_curve: bool,
}

/// The area under a curve, cut into triangles.
pub struct Mesh<S> {
    pub vertices: Vec<Vertex<S>>,
    pub triangles: Vec<(u32, u32, u32)>,
}

/// The corners of the area under the first `n` steps of `curve`: four for each step, two on the
/// curve and two right below.
pub open spec fn vertices_of<S: Number>(curve: Seq<Point<S>>, bottom: S, n: nat) -> Seq<Vertex<S>> {
    Seq::new(
        4 * n,
        |i: int|
            {
                let p = curve[i / 4 + (i % 4) / 2];
                if i % 2 == 0 {
                    Vertex { at: p, on_curve: true }
                } else {
                    Vertex { at: Point { x: p.x, y: bottom }, on_curve: false }
                }
            },
    )
}

/// The triangles of the area under the first `n` steps of a curve: two for each step.
pub open spec fn triangles_of(n: nat) -> Seq<(u32, u32, u32)> {
    Seq::new(
        2 * n,
        |t: int|
            {
                let i = 4 * (t / 2);
                if t % 2 == 0 {
                    (i as u32, (i + 1) as u32, (i + 2) as u32)
                } else {
                    ((i + 2) as u32, (i + 1) as u32, (i + 3) as u32)
                }
            },
    )
}

/// The number of steps from one point of a curve to the next.
pub open spec fn steps(points: nat) -> nat {
    if points == 0 {
        0
    } else {
        (points - 1) as nat
    }
}

/// The area under `curve`, down to `bottom`, cut into triangles.
pub fn fill_under<S: Scalar>(curve: &[Point<S>], bottom: S) -> (r: Mesh<S>)
    requires
        curve@.len() <= 0x4000_0000,
    ensures
        r.vertices@ == vertices_of(curve@, bottom, steps(curve@.len())),
        r.triangles@ == triangles_of(steps(curve@.len())),
{
    let mut vertices: Vec<Vertex<S>> = Vec::new();
    let mut triangles: Vec<(u32, u32, u32)> = Vec::new();
    let mut k: usize = 1;
    assert(vertices@ =~= vertices_of(curve@, bottom, 0));
    assert(triangles@ =~= triangles_of(0));
    while k < curve.len()
        invariant
            curve@.len() <= 0x4000_0000,
            1 <= k,
            k <= curve@.len() || k == 1,
            vertices@ == vertices_of(curve@, bottom, (k - 1) as nat),
            triangles@ == triangles_of((k - 1) as nat),
        decreases curve@.len() - k,
    {
        let i: u32 = (4 * (k - 1)) as u32;
        let p = curve[k - 1];
        let q = curve[k];
        vertices.push(Vertex { at: p, on_curve: true });
        vertices.push(Vertex { at: Point { x: p.x, y: bottom }, on_curve: false });
        vertices.push(Vertex { at: q, on_curve: true });
        vertices.push(Vertex { at: Point { x: q.x, y: bottom }, on_curve: false });
        triangles.push((i, i + 1, i + 2));
        triangles.push((i + 2, i + 1, i + 3));
        assert(vertices@ =~= vertices_of(curve@, bottom, k as nat));
        assert(triangles@ =~= triangles_of(k as nat));
        k = k + 1;
    }
    Mesh { vertices, triangles }
}

/// Every corner of a triangle is a corner of the area.
pub proof fn law_triangles_stay_inside<S: Number>(curve: Seq<Point<S>>, bottom: S, n: nat, t: int)
    requires
        n <= 0x4000_0000,
        0 <= t < triangles_of(n).len(),
    ensures
        triangles_of(n)[t].0 < vertices_of(curve, bottom, n).len(),
        triangles_of(n)[t].1 < vertices_of(curve, bottom, n).len(),
        triangles_of(n)[t].2 < vertices_of(curve, bottom, n).len(),
{
}

/// A level is never drawn outside the spectrum: what is too low stands at the bottom, what is too
/// high at the top.
pub proof fn law_levels_stay_on_the_plot<S: Number>(plot: Plot<S>, db: S)
    requires
        exact::<S>(),
        ordered::<S>(),
        plot.top.value() <= plot.bottom.value(),
    ensures
        plot.top.value() <= plot.y_of(db).value() <= plot.bottom.value(),
        db.value() <= -(70 as real) ==> plot.y_of(db).value() == plot.bottom.value(),
        db.value() >= 0 as real ==> plot.y_of(db).value() == plot.top.value(),
{
    let t = Plot::<S>::level_fraction(db).value();
    let h = plot.height().value();
    let (low, span) = (S::fraction(-70, 1).value(), S::fraction(70, 1).value());
    assert(low == -(70 as real) && span == 70 as real);
    let (d, q) = (db.value() - low, db.minus(S::fraction(-70, 1)).over(S::fraction(70, 1)).value());
    assert(d <= 0 as real ==> q <= 0 as real) by (nonlinear_arith)
        requires
            q == d / span,
            span == 70 as real,
    ;
    assert(d >= 70 as real ==> q >= 1 as real) by (nonlinear_arith)
        requires
            q == d / span,
            span == 70 as real,
    ;
    assert(0 as real <= t <= 1 as real);
    assert(0 as real <= (1 as real - t) * h <= h) by (nonlinear_arith)
        requires
            0 as real <= t <= 1 as real,
            0 as real <= h,
    ;
    assert(t == 0 as real ==> (1 as real - t) * h == h) by (nonlinear_arith);
    assert(t == 1 as real ==> (1 as real - t) * h == 0 as real) by (nonlinear_arith);
}

/// Where a frequency stands tells how far along the spectrum it is: going back from there gives the
/// fraction of the logarithmic span that it was at.
pub proof fn law_fraction_undoes_position<S: Number>(plot: Plot<S>, log_freq: S, log_span: S)
    requires
        exact::<S>(),
        ordered::<S>(),
        plot.left.value() < plot.right.value(),
        0 as real <= log_freq.value() <= log_span.value(),
        log_span.value() > 0 as real,
    ensures
        plot.fraction_of(plot.x_of(log_freq, log_span)).value() == log_freq.value()
            / log_span.value(),
{
    let (l, s, w) = (log_freq.value(), log_span.value(), plot.width().value());
    let q = log_freq.over(log_span).value();
    assert(q == l / s);
    assert(0 as real <= q <= 1 as real) by (nonlinear_arith)
        requires
            q == l / s,
            0 as real <= l <= s,
            s > 0 as real,
    ;
    let d = q * w;
    assert(d / w == q) by (nonlinear_arith)
        requires
            d == q * w,
            w > 0 as real,
    ;
    let x = plot.x_of(log_freq, log_span);
    assert(x.minus(plot.left).value() == d);
    assert(x.minus(plot.left).over(plot.width()).value() == d / w);
}

} // verus!
