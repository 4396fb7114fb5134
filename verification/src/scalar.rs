//! The arithmetic that the signal path is written in.
use vstd::prelude::*;

verus! {

/// The arithmetic that formulas are written in: what its operations give, without a way to compute
/// it. Nothing is said here of how exact a result is: a kind of numbers may round, saturate or
/// wrap. What an operation would be over the real numbers is said by [`exact`] and [`ordered`], and
/// what holds of it where results are rounded or too large is said in [`crate::rounding`].
///
/// A type that is to be verified defines these functions. The bodies that stand here are for types
/// outside verified code, such as hardware floats, which cannot write them down; they define
/// nothing that such a type could meet. What it owes instead is that there is some interpretation
/// of these functions under which each method of its [`Scalar`] gives what that trait says: each
/// method depends on its arguments alone, and on nothing else.
pub trait Number: Sized {
    /// The real number that this value stands for.
    open spec fn value(self) -> real {
        arbitrary()
    }

    /// This is a number that stands for a real number, neither infinite nor the result of an
    /// operation that has none.
    open spec fn finite(self) -> bool {
        arbitrary()
    }

    open spec fn nought() -> Self {
        arbitrary()
    }

    open spec fn unit() -> Self {
        arbitrary()
    }

    /// The quotient `n / d` of two integers.
    open spec fn fraction(n: int, d: int) -> Self {
        arbitrary()
    }

    /// The circumference of the unit circle.
    open spec fn turn() -> Self {
        arbitrary()
    }

    /// The square root of one half.
    open spec fn half_power() -> Self {
        arbitrary()
    }

    /// The natural number `n`.
    open spec fn count(n: nat) -> Self {
        arbitrary()
    }

    open spec fn plus(self, other: Self) -> Self {
        arbitrary()
    }

    open spec fn minus(self, other: Self) -> Self {
        arbitrary()
    }

    open spec fn times(self, other: Self) -> Self {
        arbitrary()
    }

    open spec fn over(self, other: Self) -> Self {
        arbitrary()
    }

    open spec fn opposite(self) -> Self {
        arbitrary()
    }

    open spec fn size(self) -> Self {
        arbitrary()
    }

    open spec fn greater(self, other: Self) -> Self {
        arbitrary()
    }

    open spec fn lesser(self, other: Self) -> Self {
        arbitrary()
    }

    open spec fn below(self, other: Self) -> bool {
        arbitrary()
    }

    open spec fn upto(self, other: Self) -> bool {
        arbitrary()
    }

    open spec fn same(self, other: Self) -> bool {
        arbitrary()
    }

    /// The integer part, and zero for a negative number.
    open spec fn index(self) -> usize {
        arbitrary()
    }

    /// The nearest integer, ties away from zero, held within a byte.
    open spec fn byte(self) -> u8 {
        arbitrary()
    }
}

/// The numbers that samples, filter coefficients and screen positions are made of. Each executable
/// method returns what the function of [`Number`] that it is paired with says.
pub trait Scalar: Number + Copy {
    fn zero() -> (r: Self)
        ensures
            r == Self::nought(),
    ;

    fn one() -> (r: Self)
        ensures
            r == Self::unit(),
    ;

    fn ratio(n: i32, d: i32) -> (r: Self)
        requires
            d > 0,
        ensures
            r == Self::fraction(n as int, d as int),
    ;

    fn tau() -> (r: Self)
        ensures
            r == Self::turn(),
    ;

    fn frac_1_sqrt_2() -> (r: Self)
        ensures
            r == Self::half_power(),
    ;

    fn from_usize(n: usize) -> (r: Self)
        ensures
            r == Self::count(n as nat),
    ;

    fn add(self, other: Self) -> (r: Self)
        ensures
            r == self.plus(other),
    ;

    fn sub(self, other: Self) -> (r: Self)
        ensures
            r == self.minus(other),
    ;

    fn mul(self, other: Self) -> (r: Self)
        ensures
            r == self.times(other),
    ;

    fn div(self, other: Self) -> (r: Self)
        ensures
            r == self.over(other),
    ;

    fn neg(self) -> (r: Self)
        ensures
            r == self.opposite(),
    ;

    fn abs(self) -> (r: Self)
        ensures
            r == self.size(),
    ;

    fn max(self, other: Self) -> (r: Self)
        ensures
            r == self.greater(other),
    ;

    fn min(self, other: Self) -> (r: Self)
        ensures
            r == self.lesser(other),
    ;

    fn lt(self, other: Self) -> (r: bool)
        ensures
            r == self.below(other),
    ;

    fn le(self, other: Self) -> (r: bool)
        ensures
            r == self.upto(other),
    ;

    fn equals(self, other: Self) -> (r: bool)
        ensures
            r == self.same(other),
    ;

    fn to_usize(self) -> (r: usize)
        ensures
            r == self.index(),
    ;

    fn to_byte(self) -> (r: u8)
        ensures
            r == self.byte(),
    ;
}

/// `x` held between `lo` and `hi`.
pub open spec fn clamped<S: Number>(x: S, lo: S, hi: S) -> S {
    if x.below(lo) {
        lo
    } else if hi.below(x) {
        hi
    } else {
        x
    }
}

/// Holds `x` between `lo` and `hi`.
pub fn clamp<S: Scalar>(x: S, lo: S, hi: S) -> (r: S)
    ensures
        r == clamped(x, lo, hi),
{
    if x.lt(lo) {
        lo
    } else if hi.lt(x) {
        hi
    } else {
        x
    }
}

/// Comparing two numbers compares the reals that they stand for.
pub open spec fn ordered<S: Number>() -> bool {
    &&& forall|a: S, b: S| #[trigger] a.below(b) <==> a.value() < b.value()
    &&& forall|a: S, b: S| #[trigger] a.upto(b) <==> a.value() <= b.value()
    &&& forall|a: S, b: S| #[trigger] a.same(b) <==> a.value() == b.value()
    &&& forall|a: S, b: S| #[trigger] a.greater(b) == if a.value() < b.value() { b } else { a }
    &&& forall|a: S, b: S| #[trigger] a.lesser(b) == if b.value() < a.value() { b } else { a }
}

/// Every operation gives the real number that it is named after, without any rounding.
pub open spec fn exact<S: Number>() -> bool {
    &&& S::nought().value() == 0 as real
    &&& S::unit().value() == 1 as real
    &&& forall|n: int, d: int| d > 0 ==> #[trigger] S::fraction(n, d).value() == n as real / d as real
    &&& forall|n: nat| #[trigger] S::count(n).value() == n as real
    &&& forall|a: S, b: S| #[trigger] a.plus(b).value() == a.value() + b.value()
    &&& forall|a: S, b: S| #[trigger] a.minus(b).value() == a.value() - b.value()
    &&& forall|a: S, b: S| #[trigger] a.times(b).value() == a.value() * b.value()
    &&& forall|a: S, b: S|
        b.value() != 0 as real ==> #[trigger] a.over(b).value() == a.value() / b.value()
    &&& forall|a: S| #[trigger] a.opposite().value() == -a.value()
    &&& forall|a: S| #[trigger] a.size().value() == if a.value() < 0 as real { -a.value() } else { a.value() }
    &&& forall|a: S, n: nat|
        n < 256 && a.value() == (#[trigger] S::count(n)).value() ==> #[trigger] a.byte() == n
}

/// What stands for the square root of one half is that root, without any rounding. Of the real
/// numbers this is true, but nothing in this library discharges it: no root can be pointed at.
pub open spec fn rooted<S: Number>() -> bool {
    &&& S::half_power().value() * S::half_power().value() * 2 as real == 1 as real
    &&& S::half_power().value() > 0 as real
}

/// `f` gives the same result whenever it is asked the same.
pub open spec fn is_function<A, B, F: Fn(A) -> B>(f: &F) -> bool {
    forall|x: A, y: B, z: B| #[trigger]
        call_ensures(f, (x,), y) && #[trigger] call_ensures(f, (x,), z) ==> y == z
}

/// Whole numbers stand in their order.
pub open spec fn counts_up<S: Number>() -> bool {
    &&& forall|m: int, n: int|
        m <= n ==> #[trigger] S::fraction(m, 1).upto(#[trigger] S::fraction(n, 1))
    &&& forall|n: int| 0 <= n ==> S::nought().upto(#[trigger] S::fraction(n, 1))
    &&& forall|n: int| n <= 0 ==> (#[trigger] S::fraction(n, 1)).upto(S::nought())
}

/// Whole numbers are what they stand for.
pub proof fn lemma_whole<S: Number>(n: int)
    requires
        exact::<S>(),
    ensures
        S::fraction(n, 1).value() == n as real,
{
    let (p, q) = (n as real, 1int as real);
    assert(S::fraction(n, 1).value() == p / q);
    assert(p / q == p) by (nonlinear_arith)
        requires
            q == 1 as real,
    ;
}

/// Where nothing is rounded and numbers compare as they should, whole numbers stand in their
/// order.
pub proof fn law_exact_numbers_count_up<S: Number>()
    requires
        exact::<S>(),
        ordered::<S>(),
    ensures
        counts_up::<S>(),
{
    assert forall|m: int, n: int| m <= n implies #[trigger] S::fraction(m, 1).upto(
        #[trigger] S::fraction(n, 1),
    ) by {
        lemma_whole::<S>(m);
        lemma_whole::<S>(n);
    }
    assert forall|n: int| 0 <= n implies S::nought().upto(#[trigger] S::fraction(n, 1)) by {
        lemma_whole::<S>(n);
    }
    assert forall|n: int| n <= 0 implies (#[trigger] S::fraction(n, 1)).upto(S::nought()) by {
        lemma_whole::<S>(n);
    }
}

/// `x` and its opposite are mirror images of each other: they have the same size, and their
/// products with `g` are opposites.
pub open spec fn mirrored<S: Number>(x: S, g: S) -> bool {
    &&& x.opposite().size() == x.size()
    &&& x.opposite().times(g) == x.times(g).opposite()
}

/// An index is the integer part of a number, and zero for a negative one.
pub open spec fn indexes<S: Number>() -> bool {
    &&& forall|a: S|
        0 as real <= a.value() && a.value() < 2147483648 as real ==> (#[trigger] a.index()) as real
            <= a.value() && a.value() < a.index() as real + 1 as real
    &&& forall|a: S| a.value() <= 0 as real ==> #[trigger] a.index() == 0
}

/// A byte is no further than one half from the number that it is made of.
pub open spec fn bytes_round<S: Number>() -> bool {
    forall|a: S|
        0 as real <= a.value() <= 255 as real ==> (#[trigger] a.byte()) as real - 1 as real
            / 2 as real <= a.value() <= a.byte() as real + 1 as real / 2 as real
}

/// A number that is held in an interval stays as it is inside of it, and else comes to stand at the
/// nearer end.
pub proof fn law_clamping_moves_to_the_nearer_end<S: Number>(x: S, lo: S, hi: S)
    requires
        ordered::<S>(),
        lo.value() <= hi.value(),
    ensures
        lo.value() <= x.value() <= hi.value() ==> clamped(x, lo, hi) == x,
        x.value() <= lo.value() ==> clamped(x, lo, hi).value() == lo.value(),
        x.value() >= hi.value() ==> clamped(x, lo, hi).value() == hi.value(),
{
}

} // verus!
