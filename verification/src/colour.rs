//! The colours of the bands.
use vstd::prelude::*;

use crate::scalar::{clamp, Scalar};
#[allow(unused_imports)]
use crate::scalar::{bytes_round, clamped, exact, ordered, Number};

verus! {

#[derive(Clone, Copy, Debug, PartialEq, Eq, Structural)]
pub struct Rgb {
    pub r: u8,
    pub g: u8,
    pub b: u8,
}

/// The colour of a band whose attack is cut away.
pub open spec fn light() -> Rgb {
    Rgb { r: 176, g: 181, b: 190 }
}

/// The colour of a neutral band.
pub open spec fn mid() -> Rgb {
    Rgb { r: 104, g: 110, b: 120 }
}

/// The colour of a band whose sustain is cut away.
pub open spec fn dark() -> Rgb {
    Rgb { r: 34, g: 36, b: 40 }
}

/// The byte that lies the fraction `t` of the way from `x` to `y`.
pub open spec fn mixed_byte<S: Number>(x: u8, y: u8, t: S) -> u8 {
    S::count(x as nat).plus(S::count(y as nat).minus(S::count(x as nat)).times(t)).byte()
}

/// The colour that lies the fraction `t` of the way from `a` to `b`.
pub open spec fn mixed_color<S: Number>(a: Rgb, b: Rgb, t: S) -> Rgb {
    let t = clamped(t, S::nought(), S::unit());
    Rgb { r: mixed_byte(a.r, b.r, t), g: mixed_byte(a.g, b.g, t), b: mixed_byte(a.b, b.b, t) }
}

fn mix_byte<S: Scalar>(x: u8, y: u8, t: S) -> (r: u8)
    ensures
        r == mixed_byte(x, y, t),
{
    let from = S::from_usize(x as usize);
    from.add(S::from_usize(y as usize).sub(from).mul(t)).to_byte()
}

/// The colour that lies the fraction `t` of the way from `a` to `b`.
pub fn lerp_color<S: Scalar>(a: Rgb, b: Rgb, t: S) -> (r: Rgb)
    ensures
        r == mixed_color(a, b, t),
{
    let t = clamp(t, S::zero(), S::one());
    Rgb { r: mix_byte(a.r, b.r, t), g: mix_byte(a.g, b.g, t), b: mix_byte(a.b, b.b, t) }
}

/// How far along the ramp from light to dark the shaping value `p` is.
pub open spec fn ramp<S: Number>(p: S) -> S {
    clamped(p, S::fraction(-1, 1), S::unit()).plus(S::unit()).times(S::fraction(1, 2))
}

/// The colour of a band with the shaping value `p`.
pub open spec fn color_of<S: Number>(p: S) -> Rgb {
    let t = ramp(p);
    if t.below(S::fraction(1, 2)) {
        mixed_color(light(), mid(), t.times(S::fraction(2, 1)))
    } else {
        mixed_color(mid(), dark(), t.minus(S::fraction(1, 2)).times(S::fraction(2, 1)))
    }
}

/// The colour of a band with the shaping value `p`.
pub fn shape_color<S: Scalar>(p: S) -> (r: Rgb)
    ensures
        r == color_of(p),
{
    let light = Rgb { r: 176, g: 181, b: 190 };
    let mid = Rgb { r: 104, g: 110, b: 120 };
    let dark = Rgb { r: 34, g: 36, b: 40 };
    let t = clamp(p, S::ratio(-1, 1), S::one()).add(S::one()).mul(S::ratio(1, 2));
    if t.lt(S::ratio(1, 2)) {
        lerp_color(light, mid, t.mul(S::ratio(2, 1)))
    } else {
        lerp_color(mid, dark, t.sub(S::ratio(1, 2)).mul(S::ratio(2, 1)))
    }
}

proof fn lemma_mix_ends<S: Number>(x: u8, y: u8, t: S)
    requires
        exact::<S>(),
    ensures
        t.value() == 0 as real ==> mixed_byte(x, y, t) == x,
        t.value() == 1 as real ==> mixed_byte(x, y, t) == y,
{
    let (p, q, v) = (S::count(x as nat).value(), S::count(y as nat).value(), t.value());
    assert(v == 0 as real ==> (q - p) * v == 0 as real) by (nonlinear_arith);
    assert(v == 1 as real ==> (q - p) * v == q - p) by (nonlinear_arith);
}

/// The ends and the middle of the ramp have the colours that they are named after: light for a
/// cut attack, mid for neutral, dark for a cut sustain.
pub proof fn law_shape_colors<S: Number>(p: S)
    requires
        exact::<S>(),
        ordered::<S>(),
    ensures
        p.value() <= -(1 as real) ==> color_of(p) == light(),
        p.value() == 0 as real ==> color_of(p) == mid(),
        p.value() >= 1 as real ==> color_of(p) == dark(),
{
    let (half, two, minus_one) = (S::fraction(1, 2), S::fraction(2, 1), S::fraction(-1, 1));
    assert(half.value() == 1 as real / 2 as real);
    assert(two.value() == 2 as real);
    assert(minus_one.value() == -(1 as real));
    let t = ramp(p);
    let low = t.times(two);
    let high = t.minus(half).times(two);
    let c = clamped(p, minus_one, S::unit());
    let (u, h, w) = (c.value() + 1 as real, half.value(), two.value());
    assert(u * h == u / 2 as real) by (nonlinear_arith)
        requires
            h == 1 as real / 2 as real,
    ;
    let tv = t.value();
    assert(tv * w == tv + tv && (tv - h) * w == tv + tv - 1 as real) by (nonlinear_arith)
        requires
            w == 2 as real,
            h == 1 as real / 2 as real,
    ;
    let (lc, hc) = (clamped(low, S::nought(), S::unit()), clamped(high, S::nought(), S::unit()));
    lemma_mix_ends(light().r, mid().r, lc);
    lemma_mix_ends(light().g, mid().g, lc);
    lemma_mix_ends(light().b, mid().b, lc);
    lemma_mix_ends(mid().r, dark().r, hc);
    lemma_mix_ends(mid().g, dark().g, hc);
    lemma_mix_ends(mid().b, dark().b, hc);
}

/// `n` is no further than one half from the share `t` of the way from `x` to `y`.
pub open spec fn blends(n: u8, x: u8, y: u8, t: real) -> bool {
    let exactly = x as real + (y as real - x as real) * t;
    n as real - 1 as real / 2 as real <= exactly <= n as real + 1 as real / 2 as real
}

proof fn lemma_mix_blends<S: Number>(x: u8, y: u8, t: S)
    requires
        exact::<S>(),
        bytes_round::<S>(),
        0 as real <= t.value() <= 1 as real,
    ensures
        blends(mixed_byte(x, y, t), x, y, t.value()),
{
    let (p, q, v) = (x as real, y as real, t.value());
    assert(S::count(x as nat).value() == p && S::count(y as nat).value() == q);
    let d = (q - p) * v;
    assert(0 as real <= p + d <= 255 as real) by (nonlinear_arith)
        requires
            d == (q - p) * v,
            0 as real <= v <= 1 as real,
            0 as real <= p <= 255 as real,
            0 as real <= q <= 255 as real,
    ;
    let a = S::count(x as nat).plus(S::count(y as nat).minus(S::count(x as nat)).times(t));
    assert(a.value() == p + d);
    assert(a.byte() == mixed_byte(x, y, t));
}

/// A mixed colour lies on the way from the one to the other, as far as `t` says, in each of its
/// parts, up to rounding to a byte.
pub proof fn law_colors_blend<S: Number>(a: Rgb, b: Rgb, t: S)
    requires
        exact::<S>(),
        ordered::<S>(),
        bytes_round::<S>(),
        0 as real <= t.value() <= 1 as real,
    ensures
        blends(mixed_color(a, b, t).r, a.r, b.r, t.value()),
        blends(mixed_color(a, b, t).g, a.g, b.g, t.value()),
        blends(mixed_color(a, b, t).b, a.b, b.b, t.value()),
{
    lemma_mix_blends(a.r, b.r, t);
    lemma_mix_blends(a.g, b.g, t);
    lemma_mix_blends(a.b, b.b, t);
}

/// The ramp goes from light gray over mid gray to near black, each darker than the one before, and
/// the colour of a band lies on it in proportion to its shaping value, up to rounding to a byte.
pub proof fn law_shapes_darken_in_proportion<S: Number>(p: S)
    requires
        exact::<S>(),
        ordered::<S>(),
        bytes_round::<S>(),
    ensures
        light().r > mid().r > dark().r && light().g > mid().g > dark().g && light().b > mid().b
            > dark().b,
        -(1 as real) <= p.value() && p.value() < 0 as real ==> {
            &&& blends(color_of(p).r, light().r, mid().r, p.value() + 1 as real)
            &&& blends(color_of(p).g, light().g, mid().g, p.value() + 1 as real)
            &&& blends(color_of(p).b, light().b, mid().b, p.value() + 1 as real)
        },
        0 as real <= p.value() <= 1 as real ==> {
            &&& blends(color_of(p).r, mid().r, dark().r, p.value())
            &&& blends(color_of(p).g, mid().g, dark().g, p.value())
            &&& blends(color_of(p).b, mid().b, dark().b, p.value())
        },
{
    let (half, two, minus_one) = (S::fraction(1, 2), S::fraction(2, 1), S::fraction(-1, 1));
    assert(half.value() == 1 as real / 2 as real);
    assert(two.value() == 2 as real);
    assert(minus_one.value() == -(1 as real));
    let t = ramp(p);
    let low = t.times(two);
    let high = t.minus(half).times(two);
    let (h, w) = (half.value(), two.value());
    if -(1 as real) <= p.value() <= 1 as real {
        let u = p.value() + 1 as real;
        assert(u * h == u / 2 as real) by (nonlinear_arith)
            requires
                h == 1 as real / 2 as real,
        ;
        let tv = t.value();
        assert(tv == u / 2 as real);
        assert(tv * w == tv + tv && (tv - h) * w == tv + tv - 1 as real) by (nonlinear_arith)
            requires
                w == 2 as real,
                h == 1 as real / 2 as real,
        ;
        assert(low.value() == u && high.value() == p.value());
        if p.value() < 0 as real {
            law_colors_blend(light(), mid(), low);
        } else {
            law_colors_blend(mid(), dark(), high);
        }
    }
}

} // verus!
