//! Arithmetic that rounds, and in which results may be too large or missing.
//!
//! What is asked for here holds of the reals, of fixed-point numbers that saturate, and of binary
//! floats that round to the nearest, with their two zeros, their infinities and what they have in
//! place of a missing result.
use vstd::prelude::*;

#[allow(unused_imports)]
use crate::scalar::clamped;
use crate::scalar::Number;

verus! {

/// Numbers stand in one order. Finite ones stand in it as the reals do that they stand for, and
/// infinite ones outside of these. What is no number stands nowhere in it, not even level with
/// itself, and the greater of it and another is the other. Only zeros can be level with each other
/// and differ.
pub open spec fn compares<S: Number>() -> bool {
    &&& forall|a: S, b: S|
        a.finite() && b.finite() ==> (#[trigger] a.upto(b) <==> a.value() <= b.value())
    &&& forall|a: S, b: S| #[trigger] a.below(b) <==> a.upto(b) && !b.upto(a)
    &&& forall|a: S, b: S| #[trigger] a.same(b) <==> a.upto(b) && b.upto(a)
    &&& forall|a: S, b: S| #[trigger] a.upto(b) ==> a.upto(a) && b.upto(b)
    &&& forall|a: S, b: S| a.upto(a) && b.upto(b) ==> #[trigger] a.upto(b) || b.upto(a)
    &&& forall|a: S, b: S, c: S| #[trigger] a.upto(b) && #[trigger] b.upto(c) ==> a.upto(c)
    &&& forall|a: S, x: S, b: S|
        a.finite() && b.finite() && #[trigger] a.upto(x) && #[trigger] x.upto(b) ==> x.finite()
    &&& forall|a: S, b: S| a.upto(b) ==> level_with(#[trigger] a.greater(b), b)
    &&& forall|a: S, b: S| b.upto(a) ==> level_with(#[trigger] a.greater(b), a)
    &&& forall|a: S, b: S| !a.upto(a) ==> #[trigger] a.greater(b) == b
    &&& forall|a: S, b: S| #[trigger] a.same(b) && !a.same(S::nought()) ==> a == b
}

/// `a` and `b` are the same number, and if they differ, both are zeros.
pub open spec fn level_with<S: Number>(a: S, b: S) -> bool {
    a == b || (a.same(b) && a.same(S::nought()))
}

/// `r` is what becomes of the real number `v`: it lies on no other side of any finite number.
pub open spec fn rounded<S: Number>(r: S, v: real) -> bool {
    forall|e: S| #[trigger]
        e.finite() ==> {
            &&& e.value() <= v ==> e.upto(r)
            &&& v <= e.value() ==> r.upto(e)
        }
}

/// Each operation on finite numbers gives what becomes of the real number that it is named after,
/// and a larger sum or difference never becomes a smaller one. Products and quotients of positive
/// numbers keep their order even among infinite ones. Small fractions are what they should be.
pub open spec fn rounds<S: Number>() -> bool {
    &&& S::nought().finite() && S::nought().value() == 0 as real
    &&& S::unit().finite() && S::unit().value() == 1 as real
    &&& forall|a: S, b: S|
        a.finite() && b.finite() ==> rounded(#[trigger] a.plus(b), a.value() + b.value())
    &&& forall|a: S, b: S|
        a.finite() && b.finite() ==> rounded(#[trigger] a.minus(b), a.value() - b.value())
    &&& forall|a: S, b: S|
        a.finite() && b.finite() ==> rounded(#[trigger] a.times(b), a.value() * b.value())
    &&& forall|a: S, b: S|
        a.finite() && b.finite() && b.value() != 0 as real ==> rounded(
            #[trigger] a.over(b),
            a.value() / b.value(),
        )
    &&& forall|a: S, b: S, c: S, d: S|
        a.finite() && b.finite() && c.finite() && d.finite() && a.value() + b.value() <= c.value()
            + d.value() ==> (#[trigger] a.plus(b)).upto(#[trigger] c.plus(d))
    &&& forall|a: S, b: S, c: S, d: S|
        a.finite() && b.finite() && c.finite() && d.finite() && a.value() - b.value() <= c.value()
            - d.value() ==> (#[trigger] a.minus(b)).upto(#[trigger] c.minus(d))
    &&& forall|a: S|
        a.finite() && 0 as real <= a.value() ==> (#[trigger] a.opposite()).finite()
            && a.opposite().value() == -a.value()
    &&& forall|a: S|
        a.finite() ==> (#[trigger] a.size()).finite() && 0 as real <= a.size().value()
    &&& forall|a: S|
        a.finite() && 0 as real <= a.value() ==> (#[trigger] a.size()).value() == a.value()
    &&& products_grow::<S>()
    &&& quotients_grow::<S>()
    &&& fractions_fit::<S>()
}

/// A product of positive numbers grows with its second factor, and it is no smaller than that where
/// the first one is no smaller than 1.
pub open spec fn products_grow<S: Number>() -> bool {
    &&& forall|a: S, b: S, c: S|
        S::nought().below(c) && S::nought().below(a) && a.upto(b) ==> (#[trigger] c.times(a)).upto(
            #[trigger] c.times(b),
        )
    &&& forall|a: S, c: S|
        S::unit().upto(c) && S::nought().below(a) ==> a.upto(#[trigger] c.times(a))
}

/// A quotient by a positive finite number grows with the dividend; and one of a finite number that
/// is not positive is not positive either, and grows with a positive divisor.
pub open spec fn quotients_grow<S: Number>() -> bool {
    &&& forall|a: S, b: S, d: S|
        d.finite() && d.value() > 0 as real && a.upto(b) ==> (#[trigger] a.over(d)).upto(
            #[trigger] b.over(d),
        )
    &&& forall|a: S, d: S|
        a.finite() && a.value() <= 0 as real && S::nought().below(d) ==> (
        #[trigger] a.over(d)).upto(S::nought())
    &&& forall|a: S, d: S, e: S|
        a.finite() && a.value() <= 0 as real && S::nought().below(d) && d.upto(e) ==> (
        #[trigger] a.over(d)).upto(#[trigger] a.over(e))
}

/// Integers up to a million are exact, and a fraction of two of them is their quotient, which is
/// positive where both are.
pub open spec fn fractions_fit<S: Number>() -> bool {
    forall|n: int, d: int|
        -1000000 <= n <= 1000000 && 0 < d <= 1000000 ==> {
            &&& (#[trigger] S::fraction(n, d)).finite()
            &&& S::fraction(n, d) == S::fraction(n, 1).over(S::fraction(d, 1))
            &&& d == 1 ==> S::fraction(n, d).value() == n as real
            &&& 0 < n ==> S::fraction(n, d).value() > 0 as real
        }
}

/// Zero and one do what they should: a product with one changes nothing, one with zero adds nothing
/// to one, and a fraction and what is left of one make up one. Rounding does not stand in the way of
/// this.
pub open spec fn unital<S: Number>() -> bool {
    &&& S::unit().minus(S::unit()) == S::nought()
    &&& forall|a: S| a.finite() ==> #[trigger] a.times(S::unit()) == a
    &&& forall|a: S|
        a.finite() ==> S::unit().plus(#[trigger] a.times(S::nought())) == S::unit()
    &&& forall|f: S|
        f.finite() && 0 as real <= f.value() <= 1 as real ==> f.plus(#[trigger] S::unit().minus(f))
            == S::unit()
}

/// What lies between two finite numbers is finite once it is rounded, and still lies between them.
pub proof fn law_rounding_stays_between<S: Number>(r: S, v: real, lo: S, hi: S)
    requires
        compares::<S>(),
        rounded(r, v),
        lo.finite(),
        hi.finite(),
        lo.value() <= v <= hi.value(),
    ensures
        r.finite(),
        lo.value() <= r.value() <= hi.value(),
{
    assert(lo.upto(r) && r.upto(hi));
}

/// A number that is held in an interval lies in it.
pub proof fn law_clamped_numbers_lie_between<S: Number>(x: S, lo: S, hi: S)
    requires
        compares::<S>(),
        x.upto(x),
        lo.finite(),
        hi.finite(),
        lo.value() <= hi.value(),
    ensures
        clamped(x, lo, hi).finite(),
        lo.value() <= clamped(x, lo, hi).value() <= hi.value(),
{
    assert(lo.upto(lo) && hi.upto(hi));
    if !x.below(lo) && !hi.below(x) {
        assert(lo.upto(x) || x.upto(lo));
        assert(x.upto(hi) || hi.upto(x));
        assert(lo.upto(x) && x.upto(hi));
    }
}

/// A product with a fraction lies between zero and the other factor.
pub proof fn law_fractions_cut<S: Number>(x: S, g: S)
    requires
        compares::<S>(),
        rounds::<S>(),
        x.finite(),
        g.finite(),
        0 as real <= g.value() <= 1 as real,
    ensures
        x.times(g).finite(),
        g.times(x).finite(),
        0 as real <= x.value() ==> 0 as real <= x.times(g).value() <= x.value(),
        x.value() <= 0 as real ==> x.value() <= x.times(g).value() <= 0 as real,
        0 as real <= x.value() ==> 0 as real <= g.times(x).value() <= x.value(),
        x.value() <= 0 as real ==> x.value() <= g.times(x).value() <= 0 as real,
{
    let (v, k) = (x.value(), g.value());
    assert(0 as real <= v ==> 0 as real <= v * k <= v) by (nonlinear_arith)
        requires
            0 as real <= k <= 1 as real,
    ;
    assert(v <= 0 as real ==> v <= v * k <= 0 as real) by (nonlinear_arith)
        requires
            0 as real <= k <= 1 as real,
    ;
    assert(k * v == v * k) by (nonlinear_arith);
    if 0 as real <= v {
        law_rounding_stays_between(x.times(g), v * k, S::nought(), x);
        law_rounding_stays_between(g.times(x), k * v, S::nought(), x);
    } else {
        law_rounding_stays_between(x.times(g), v * k, x, S::nought());
        law_rounding_stays_between(g.times(x), k * v, x, S::nought());
    }
}

} // verus!
