//! The real numbers themselves, which neither round nor saturate.
use vstd::prelude::*;

use crate::scalar::Number;
#[allow(unused_imports)]
use crate::rounding::{compares, fractions_fit, products_grow, quotients_grow, rounded, rounds, unital};
#[allow(unused_imports)]
use crate::scalar::{bytes_round, exact, indexes, mirrored, ordered};

verus! {

/// `n` is the nearest integer to `x`, ties upwards.
pub open spec fn nearest(x: real, n: int) -> bool {
    n as real - 1 as real / 2 as real <= x < n as real + 1 as real / 2 as real
}

/// `n` is the integer part of `x`.
pub open spec fn integer_part(x: real, n: int) -> bool {
    n as real <= x < n as real + 1 as real
}

/// `r` is the square root of one half.
pub open spec fn is_half_power(r: real) -> bool {
    &&& r > 0 as real
    &&& r * r * 2 as real == 1 as real
}

/// What the formulas of this library say when no result is rounded.
impl Number for real {
    open spec fn value(self) -> real {
        self
    }

    open spec fn finite(self) -> bool {
        true
    }

    open spec fn nought() -> Self {
        0 as real
    }

    open spec fn unit() -> Self {
        1 as real
    }

    open spec fn fraction(n: int, d: int) -> Self {
        n as real / d as real
    }

    open spec fn half_power() -> Self {
        choose|r: real| #[trigger] is_half_power(r)
    }

    open spec fn count(n: nat) -> Self {
        n as real
    }

    open spec fn plus(self, other: Self) -> Self {
        self + other
    }

    open spec fn minus(self, other: Self) -> Self {
        self - other
    }

    open spec fn times(self, other: Self) -> Self {
        self * other
    }

    open spec fn over(self, other: Self) -> Self {
        self / other
    }

    open spec fn opposite(self) -> Self {
        -self
    }

    open spec fn size(self) -> Self {
        if self < 0 as real {
            -self
        } else {
            self
        }
    }

    open spec fn greater(self, other: Self) -> Self {
        if self < other {
            other
        } else {
            self
        }
    }

    open spec fn lesser(self, other: Self) -> Self {
        if other < self {
            other
        } else {
            self
        }
    }

    open spec fn below(self, other: Self) -> bool {
        self < other
    }

    open spec fn upto(self, other: Self) -> bool {
        self <= other
    }

    open spec fn same(self, other: Self) -> bool {
        self == other
    }

    open spec fn index(self) -> usize {
        if self <= 0 as real {
            0
        } else {
            (choose|n: int| #[trigger] integer_part(self, n)) as usize
        }
    }

    open spec fn byte(self) -> u8 {
        (choose|n: int| #[trigger] nearest(self, n)) as u8
    }
}

/// Real numbers are exact and ordered as they should be.
pub proof fn law_reals_are_ideal()
    ensures
        exact::<real>(),
        ordered::<real>(),
{
    assert forall|a: real, n: nat|
        n < 256 && a.value() == (#[trigger] <real as Number>::count(n)).value() implies #[trigger] a.byte() == n by {
        assert(nearest(a, n as int));
    }
}

/// The index of a real number is its integer part, and zero for a negative one.
pub proof fn law_index_is_the_integer_part(x: real, n: usize)
    requires
        x <= 0 as real && n == 0 || integer_part(x, n as int),
    ensures
        x.index() == n,
{
    if x > 0 as real {
        let m = choose|m: int| #[trigger] integer_part(x, m);
        assert(integer_part(x, n as int));
        assert(m as real <= x && x < m as real + 1 as real);
        assert(m == n as int);
    }
}

proof fn lemma_integer_part_exists(x: real, n: int) -> (m: int)
    requires
        0 <= n,
        0 as real <= x,
        x < n as real,
    ensures
        integer_part(x, m),
        0 <= m < n,
    decreases n,
{
    if x >= (n - 1) as real {
        n - 1
    } else {
        lemma_integer_part_exists(x, n - 1)
    }
}

/// Indices and bytes of real numbers are what they should be.
pub proof fn law_reals_are_cut_and_rounded()
    ensures
        indexes::<real>(),
        bytes_round::<real>(),
{
    assert forall|a: real| 0 as real <= a.value() && a.value() < 2147483648 as real implies (
    #[trigger] a.index()) as real <= a.value() && a.value() < a.index() as real + 1 as real by {
        let m = lemma_integer_part_exists(a, 2147483648);
        law_index_is_the_integer_part(a, m as usize);
    }
    assert forall|a: real| 0 as real <= a.value() <= 255 as real implies (#[trigger] a.byte()) as real
        - 1 as real / 2 as real <= a.value() <= a.byte() as real + 1 as real / 2 as real by {
        let half = 1 as real / 2 as real;
        let m = lemma_integer_part_exists(a + half, 256);
        assert(nearest(a, m));
        let n = choose|n: int| #[trigger] nearest(a, n);
        assert(nearest(a, n));
        assert(m == n);
    }
}

/// Of the real numbers holds all that holds of numbers that may round.
pub proof fn law_reals_round()
    ensures
        compares::<real>(),
        rounds::<real>(),
{
    assert forall|a: real, b: real, c: real|
        c > 0 as real && a > 0 as real && a <= b implies (#[trigger] c.times(a)).upto(
        #[trigger] c.times(b),
    ) by {
        assert(c * a <= c * b) by (nonlinear_arith)
            requires
                c > 0 as real,
                a <= b,
        ;
    }
    assert forall|a: real, c: real| 1 as real <= c && a > 0 as real implies a.upto(
        #[trigger] c.times(a),
    ) by {
        assert(a <= c * a) by (nonlinear_arith)
            requires
                1 as real <= c,
                a > 0 as real,
        ;
    }
    assert(products_grow::<real>());
    assert forall|a: real, b: real, d: real| d > 0 as real && a <= b implies (
    #[trigger] a.over(d)).upto(#[trigger] b.over(d)) by {
        assert(a / d <= b / d) by (nonlinear_arith)
            requires
                d > 0 as real,
                a <= b,
        ;
    }
    assert forall|a: real, d: real| a <= 0 as real && d > 0 as real implies (
    #[trigger] a.over(d)).upto(<real as Number>::nought()) by {
        assert(a / d <= 0 as real) by (nonlinear_arith)
            requires
                d > 0 as real,
                a <= 0 as real,
        ;
    }
    assert forall|a: real, d: real, e: real| a <= 0 as real && d > 0 as real && d <= e implies (
    #[trigger] a.over(d)).upto(#[trigger] a.over(e)) by {
        assert(a / d <= a / e) by (nonlinear_arith)
            requires
                d > 0 as real,
                d <= e,
                a <= 0 as real,
        ;
    }
    assert(quotients_grow::<real>());
    assert forall|n: int, d: int| -1000000 <= n <= 1000000 && 0 < d <= 1000000 implies {
        &&& <real as Number>::fraction(n, d) == <real as Number>::fraction(n, 1).over(
            <real as Number>::fraction(d, 1),
        )
        &&& d == 1 ==> (#[trigger] <real as Number>::fraction(n, d)).value() == n as real
        &&& 0 < n ==> <real as Number>::fraction(n, d).value() > 0 as real
    } by {
        let (p, q, one) = (n as real, d as real, 1int as real);
        assert(p / one == p && q / one == q) by (nonlinear_arith)
            requires
                one == 1 as real,
        ;
        assert(p > 0 as real ==> p / q > 0 as real) by (nonlinear_arith)
            requires
                q > 0 as real,
        ;
    }
    assert(fractions_fit::<real>());
}

/// With the real numbers zero and one do what they should, and every number is mirrored.
pub proof fn law_reals_are_unital()
    ensures
        unital::<real>(),
        forall|x: real, g: real| #[trigger] mirrored(x, g),
{
    assert forall|a: real| #[trigger] a.times(<real as Number>::unit()) == a by {
        assert(a * (1 as real) == a) by (nonlinear_arith);
    }
    assert forall|a: real| #[trigger] a.times(<real as Number>::nought()) == <real as Number>::nought() by {
        assert(a * (0 as real) == 0 as real) by (nonlinear_arith);
    }
    assert forall|x: real, g: real| #[trigger] mirrored(x, g) by {
        assert((-x) * g == -(x * g)) by (nonlinear_arith);
    }
}

} // verus!
