//! Fixed-point numbers.
use vstd::prelude::*;

use crate::scalar::{Number, Scalar};
#[allow(unused_imports)]
use crate::rounding::{
    compares, fractions_fit, products_grow, quotients_grow, rounded, rounds, unital,
};
#[allow(unused_imports)]
use crate::scalar::{bytes_round, counts_up, indexes, mirrored, ordered};

verus! {

/// How many steps of a [`Fixed`] make up one.
pub const ONE_BITS: i128 = 4294967296;

/// A number in steps of `1 / ONE_BITS`. Results that do not fit are held at the largest or the
/// smallest number there is, and results between two steps are cut towards zero.
#[derive(Clone, Copy, Debug, PartialEq, Eq, Structural)]
pub struct Fixed {
    pub bits: i64,
}

/// `v` held within the range of an `i64`.
pub open spec fn held(v: int) -> i64 {
    if v < i64::MIN {
        i64::MIN
    } else if v > i64::MAX {
        i64::MAX
    } else {
        v as i64
    }
}

/// The quotient of `n` by `d`, cut towards zero.
pub open spec fn quotient(n: int, d: int) -> int {
    if (n < 0) == (d < 0) {
        magnitude(n) / magnitude(d)
    } else {
        -(magnitude(n) / magnitude(d))
    }
}

pub open spec fn magnitude(n: int) -> int {
    if n < 0 {
        -n
    } else {
        n
    }
}

fn hold(v: i128) -> (r: i64)
    ensures
        r == held(v as int),
{
    if v < i64::MIN as i128 {
        i64::MIN
    } else if v > i64::MAX as i128 {
        i64::MAX
    } else {
        v as i64
    }
}

fn divide(n: i128, d: i128) -> (r: i128)
    requires
        d != 0,
        n != i128::MIN,
        d != i128::MIN,
    ensures
        r == quotient(n as int, d as int),
{
    let p: i128 = if n < 0 { -n } else { n };
    let q: i128 = if d < 0 { -d } else { d };
    let m: i128 = p / q;
    proof {
        let (a, b) = (p as int, q as int);
        assert(0 <= a / b <= a) by (nonlinear_arith)
            requires
                a >= 0,
                b > 0,
        ;
    }
    if (n < 0) == (d < 0) {
        m
    } else {
        -m
    }
}

impl Fixed {
    pub fn from_bits(bits: i64) -> (r: Self)
        ensures
            r.bits == bits,
    {
        Fixed { bits }
    }
}

impl Number for Fixed {
    open spec fn value(self) -> real {
        self.bits as real / ONE_BITS as real
    }

    open spec fn finite(self) -> bool {
        true
    }

    open spec fn nought() -> Self {
        Fixed { bits: 0 }
    }

    open spec fn unit() -> Self {
        Fixed { bits: ONE_BITS as i64 }
    }

    open spec fn fraction(n: int, d: int) -> Self {
        Fixed { bits: held(quotient(n * ONE_BITS, d)) }
    }

    open spec fn turn() -> Self {
        Fixed { bits: 26986075409 }
    }

    open spec fn half_power() -> Self {
        Fixed { bits: 3037000500 }
    }

    open spec fn count(n: nat) -> Self {
        Fixed { bits: held(n * ONE_BITS) }
    }

    open spec fn plus(self, other: Self) -> Self {
        Fixed { bits: held(self.bits + other.bits) }
    }

    open spec fn minus(self, other: Self) -> Self {
        Fixed { bits: held(self.bits - other.bits) }
    }

    open spec fn times(self, other: Self) -> Self {
        Fixed { bits: held(quotient(self.bits * other.bits, ONE_BITS as int)) }
    }

    /// A quotient by zero is the largest or the smallest number, by the sign of the dividend.
    open spec fn over(self, other: Self) -> Self {
        if other.bits == 0 {
            if self.bits < 0 {
                Fixed { bits: i64::MIN }
            } else if self.bits > 0 {
                Fixed { bits: i64::MAX }
            } else {
                Fixed { bits: 0 }
            }
        } else {
            Fixed { bits: held(quotient(self.bits * ONE_BITS, other.bits as int)) }
        }
    }

    open spec fn opposite(self) -> Self {
        Fixed { bits: held(-self.bits) }
    }

    open spec fn size(self) -> Self {
        Fixed { bits: held(magnitude(self.bits as int)) }
    }

    open spec fn greater(self, other: Self) -> Self {
        if self.bits < other.bits {
            other
        } else {
            self
        }
    }

    open spec fn lesser(self, other: Self) -> Self {
        if other.bits < self.bits {
            other
        } else {
            self
        }
    }

    open spec fn below(self, other: Self) -> bool {
        self.bits < other.bits
    }

    open spec fn upto(self, other: Self) -> bool {
        self.bits <= other.bits
    }

    open spec fn same(self, other: Self) -> bool {
        self.bits == other.bits
    }

    open spec fn index(self) -> usize {
        if self.bits <= 0 {
            0
        } else {
            (self.bits as int / ONE_BITS as int) as usize
        }
    }

    open spec fn byte(self) -> u8 {
        if self.bits <= 0 {
            0
        } else if self.bits as int >= 255 * ONE_BITS {
            255
        } else {
            ((self.bits as int + ONE_BITS as int / 2) / ONE_BITS as int) as u8
        }
    }
}

impl Scalar for Fixed {
    fn zero() -> (r: Self) {
        Fixed { bits: 0 }
    }

    fn one() -> (r: Self) {
        Fixed { bits: ONE_BITS as i64 }
    }

    fn ratio(n: i32, d: i32) -> (r: Self) {
        Fixed { bits: hold(divide(n as i128 * ONE_BITS, d as i128)) }
    }

    fn tau() -> (r: Self) {
        Fixed { bits: 26986075409 }
    }

    fn frac_1_sqrt_2() -> (r: Self) {
        Fixed { bits: 3037000500 }
    }

    fn from_usize(n: usize) -> (r: Self) {
        Fixed { bits: hold(n as i128 * ONE_BITS) }
    }

    fn add(self, other: Self) -> (r: Self) {
        Fixed { bits: hold(self.bits as i128 + other.bits as i128) }
    }

    fn sub(self, other: Self) -> (r: Self) {
        Fixed { bits: hold(self.bits as i128 - other.bits as i128) }
    }

    fn mul(self, other: Self) -> (r: Self) {
        proof {
            let (a, b) = (self.bits as int, other.bits as int);
            assert(-0x4000_0000_0000_0000_0000_0000_0000_0000 <= a * b <= 0x4000_0000_0000_0000_0000_0000_0000_0000) by (nonlinear_arith)
                requires
                    -0x8000_0000_0000_0000 <= a <= 0x7fff_ffff_ffff_ffff,
                    -0x8000_0000_0000_0000 <= b <= 0x7fff_ffff_ffff_ffff,
            ;
        }
        Fixed { bits: hold(divide(self.bits as i128 * other.bits as i128, ONE_BITS)) }
    }

    fn div(self, other: Self) -> (r: Self) {
        if other.bits == 0 {
            if self.bits < 0 {
                Fixed { bits: i64::MIN }
            } else if self.bits > 0 {
                Fixed { bits: i64::MAX }
            } else {
                Fixed { bits: 0 }
            }
        } else {
            Fixed { bits: hold(divide(self.bits as i128 * ONE_BITS, other.bits as i128)) }
        }
    }

    fn neg(self) -> (r: Self) {
        Fixed { bits: hold(-(self.bits as i128)) }
    }

    fn abs(self) -> (r: Self) {
        if self.bits < 0 {
            Fixed { bits: hold(-(self.bits as i128)) }
        } else {
            self
        }
    }

    fn max(self, other: Self) -> (r: Self) {
        if self.bits < other.bits {
            other
        } else {
            self
        }
    }

    fn min(self, other: Self) -> (r: Self) {
        if other.bits < self.bits {
            other
        } else {
            self
        }
    }

    fn lt(self, other: Self) -> (r: bool) {
        self.bits < other.bits
    }

    fn le(self, other: Self) -> (r: bool) {
        self.bits <= other.bits
    }

    fn equals(self, other: Self) -> (r: bool) {
        self.bits == other.bits
    }

    fn to_usize(self) -> (r: usize) {
        if self.bits <= 0 {
            0
        } else {
            (self.bits as i128 / ONE_BITS) as usize
        }
    }

    fn to_byte(self) -> (r: u8) {
        if self.bits <= 0 {
            0
        } else if self.bits as i128 >= 255 * ONE_BITS {
            255
        } else {
            ((self.bits as i128 + ONE_BITS / 2) / ONE_BITS) as u8
        }
    }
}

/// Fixed-point numbers compare as the reals that they stand for.
pub proof fn law_fixed_is_ordered()
    ensures
        ordered::<Fixed>(),
{
    assert forall|a: Fixed, b: Fixed| a.bits < b.bits <==> #[trigger] a.value() < #[trigger] b.value() by {
        lemma_quotients_compare(a.bits as int, b.bits as int);
    }
    assert forall|a: Fixed, b: Fixed| a.bits == b.bits <==> #[trigger] a.value() == #[trigger] b.value() by {
        lemma_quotients_compare(a.bits as int, b.bits as int);
        lemma_quotients_compare(b.bits as int, a.bits as int);
    }
}

proof fn lemma_quotients_compare(a: int, b: int)
    ensures
        a < b <==> (a as real / ONE_BITS as real) < (b as real / ONE_BITS as real),
{
    let (p, q, d) = (a as real, b as real, ONE_BITS as real);
    assert(p < q <==> p / d < q / d) by (nonlinear_arith)
        requires
            d > 0 as real,
    ;
}

/// Whole fixed-point numbers stand in their order.
pub proof fn law_fixed_counts_up()
    ensures
        counts_up::<Fixed>(),
{
    assert forall|n: int| (#[trigger] Fixed::fraction(n, 1)).bits == held(n * ONE_BITS) by {
        let m = magnitude(n * ONE_BITS);
        assert(m / 1 == m);
    }
}

proof fn lemma_whole_quotient(n: int)
    ensures
        quotient(n * ONE_BITS, ONE_BITS as int) == n,
{
    let m = magnitude(n);
    assert(magnitude(n * ONE_BITS) == m * ONE_BITS);
    assert((m * 4294967296) / 4294967296 == m);
}

/// Zero and one do what they should in fixed point.
pub proof fn law_fixed_is_unital()
    ensures
        unital::<Fixed>(),
{
    assert forall|a: Fixed| #[trigger] a.times(Fixed::unit()) == a by {
        lemma_whole_quotient(a.bits as int);
    }
    assert forall|a: Fixed| Fixed::unit().plus(#[trigger] a.times(Fixed::nought()))
        == Fixed::unit() by {
        assert(a.bits * 0 == 0);
    }
    assert forall|f: Fixed| 0 as real <= f.value() <= 1 as real implies f.plus(
        #[trigger] Fixed::unit().minus(f),
    ) == Fixed::unit() by {
        lemma_fixed_compares(Fixed::nought(), f);
        lemma_fixed_compares(f, Fixed::unit());
        lemma_fixed_constants();
    }
}

// ---- rounding ----

proof fn lemma_fixed_constants()
    ensures
        Fixed::nought().value() == 0 as real,
        Fixed::unit().value() == 1 as real,
{
    let (one, d) = ((ONE_BITS as i64) as real, ONE_BITS as real);
    assert(one / d == 1 as real) by (nonlinear_arith)
        requires
            one == d,
            d > 0 as real,
    ;
    assert(0 as real / d == 0 as real) by (nonlinear_arith)
        requires
            d > 0 as real,
    ;
}

proof fn lemma_fixed_compares(a: Fixed, b: Fixed)
    ensures
        a.bits <= b.bits <==> a.value() <= b.value(),
{
    lemma_quotients_compare(b.bits as int, a.bits as int);
}

/// The steps of a number make up its value.
proof fn lemma_steps(a: Fixed)
    ensures
        a.value() * ONE_BITS as real == a.bits as real,
{
    let (p, d) = (a.bits as real, ONE_BITS as real);
    assert(p / d * d == p) by (nonlinear_arith)
        requires
            d > 0 as real,
    ;
}

proof fn lemma_cast_product(a: int, b: int)
    ensures
        (a * b) as real == a as real * b as real,
{
    assert((a * b) as real == a as real * b as real) by (nonlinear_arith);
}

/// `n / d`, cut towards zero, lies on no other side of any integer.
proof fn lemma_cut(n: int, d: int, e: int)
    requires
        d > 0,
    ensures
        e * d <= n ==> e <= quotient(n, d),
        n <= e * d ==> quotient(n, d) <= e,
{
    let m = magnitude(n);
    let q = m / d;
    assert(q * d <= m < q * d + d) by (nonlinear_arith)
        requires
            q == m / d,
            d > 0,
    ;
    let k = quotient(n, d);
    assert(k == q || k == -q);
    assert(-q * d == -(q * d)) by (nonlinear_arith);
    if e * d <= n {
        assert(e <= k) by (nonlinear_arith)
            requires
                d > 0,
                e * d <= n,
                n < k * d + d,
        ;
    }
    if n <= e * d {
        assert(k <= e) by (nonlinear_arith)
            requires
                d > 0,
                n <= e * d,
                k * d < n + d,
        ;
    }
}

proof fn lemma_signs_cancel(n: int, d: int)
    requires
        d != 0,
    ensures
        quotient(-n, -d) == quotient(n, d),
{
    if n == 0 {
        let m = magnitude(d);
        assert(0int / m == 0) by (nonlinear_arith)
            requires
                m > 0,
        ;
    }
}

/// Larger dividends give larger quotients.
proof fn lemma_quotients_grow(m: int, n: int, d: int)
    requires
        d > 0,
        m <= n,
    ensures
        quotient(m, d) <= quotient(n, d),
{
    let (p, q) = (magnitude(m), magnitude(n));
    assert(p <= q ==> p / d <= q / d) by (nonlinear_arith)
        requires
            d > 0,
    ;
    assert(q <= p ==> q / d <= p / d) by (nonlinear_arith)
        requires
            d > 0,
    ;
    assert(0 <= p / d && 0 <= q / d) by (nonlinear_arith)
        requires
            d > 0,
            p >= 0,
            q >= 0,
    ;
}

/// Larger divisors give smaller parts.
proof fn lemma_parts_shrink(m: int, d: int, e: int)
    requires
        m >= 0,
        0 < d <= e,
    ensures
        0 <= m / e <= m / d,
{
    let (p, q) = (m / d, m / e);
    assert(m < p * d + d) by (nonlinear_arith)
        requires
            p == m / d,
            d > 0,
    ;
    assert(0 <= q && q * e <= m) by (nonlinear_arith)
        requires
            q == m / e,
            e > 0,
            m >= 0,
    ;
    assert(q * d <= q * e) by (nonlinear_arith)
        requires
            0 <= q,
            d <= e,
    ;
    assert(q <= p) by (nonlinear_arith)
        requires
            q * d < p * d + d,
            d > 0,
    ;
}

/// A result in steps that is cut and held is a rounded one.
proof fn lemma_held_is_rounded(n: int, d: int, r: Fixed, v: real)
    requires
        d > 0,
        r.bits == held(quotient(n, d)),
        v * ONE_BITS as real * d as real == n as real,
    ensures
        rounded(r, v),
{
    assert forall|e: Fixed| #[trigger] e.finite() implies {
        &&& e.value() <= v ==> e.upto(r)
        &&& v <= e.value() ==> r.upto(e)
    } by {
        lemma_steps(e);
        let k = e.bits as int;
        lemma_cast_product(k, d);
        let (w, one, dd, x) = (e.value(), ONE_BITS as real, d as real, k as real);
        assert(w <= v ==> x * dd <= v * one * dd) by (nonlinear_arith)
            requires
                x == w * one,
                one > 0 as real,
                dd > 0 as real,
        ;
        assert(v <= w ==> v * one * dd <= x * dd) by (nonlinear_arith)
            requires
                x == w * one,
                one > 0 as real,
                dd > 0 as real,
        ;
        assert(w <= v ==> k * d <= n);
        assert(v <= w ==> n <= k * d);
        lemma_cut(n, d, k);
    }
}

proof fn lemma_sums_are_rounded(a: Fixed, b: Fixed)
    ensures
        rounded(a.plus(b), a.value() + b.value()),
        rounded(a.minus(b), a.value() - b.value()),
{
    lemma_steps(a);
    lemma_steps(b);
    let (p, q, one) = (a.value(), b.value(), ONE_BITS as real);
    assert((p + q) * one * (1 as real) == p * one + q * one) by (nonlinear_arith);
    assert((p - q) * one * (1 as real) == p * one - q * one) by (nonlinear_arith);
    let (s, d) = (a.bits + b.bits, a.bits - b.bits);
    assert(magnitude(s) / 1 == magnitude(s) && magnitude(d) / 1 == magnitude(d));
    lemma_held_is_rounded(s, 1, a.plus(b), p + q);
    lemma_held_is_rounded(d, 1, a.minus(b), p - q);
}

proof fn lemma_products_are_rounded(a: Fixed, b: Fixed)
    ensures
        rounded(a.times(b), a.value() * b.value()),
{
    lemma_steps(a);
    lemma_steps(b);
    lemma_cast_product(a.bits as int, b.bits as int);
    let (p, q, one) = (a.value(), b.value(), ONE_BITS as real);
    assert(p * q * one * one == (p * one) * (q * one)) by (nonlinear_arith);
    lemma_held_is_rounded(a.bits * b.bits, ONE_BITS as int, a.times(b), p * q);
}

proof fn lemma_quotients_are_rounded(a: Fixed, b: Fixed)
    requires
        b.value() != 0 as real,
    ensures
        rounded(a.over(b), a.value() / b.value()),
{
    lemma_steps(a);
    lemma_steps(b);
    let (p, q, one) = (a.value(), b.value(), ONE_BITS as real);
    let (x, y) = (a.bits as real, b.bits as real);
    assert(y != 0 as real) by (nonlinear_arith)
        requires
            y == q * one,
            q != 0 as real,
            one > 0 as real,
    ;
    let v = p / q;
    assert(v * q == p) by (nonlinear_arith)
        requires
            v == p / q,
            q != 0 as real,
    ;
    assert(v * one * y == x * one) by (nonlinear_arith)
        requires
            v * q == p,
            y == q * one,
            x == p * one,
    ;
    let n = a.bits * ONE_BITS;
    lemma_cast_product(a.bits as int, ONE_BITS as int);
    if b.bits > 0 {
        lemma_held_is_rounded(n, b.bits as int, a.over(b), v);
    } else {
        lemma_signs_cancel(n, b.bits as int);
        assert(v * one * -y == -(v * one * y)) by (nonlinear_arith);
        lemma_held_is_rounded(-n, -(b.bits as int), a.over(b), v);
    }
}

proof fn lemma_sums_grow(a: Fixed, b: Fixed, c: Fixed, d: Fixed)
    ensures
        a.value() + b.value() <= c.value() + d.value() ==> a.plus(b).upto(c.plus(d)),
        a.value() - b.value() <= c.value() - d.value() ==> a.minus(b).upto(c.minus(d)),
{
    lemma_steps(a);
    lemma_steps(b);
    lemma_steps(c);
    lemma_steps(d);
    let (p, q, r, s, one) = (a.value(), b.value(), c.value(), d.value(), ONE_BITS as real);
    assert(p + q <= r + s ==> p * one + q * one <= r * one + s * one) by (nonlinear_arith)
        requires
            one > 0 as real,
    ;
    assert(p - q <= r - s ==> p * one - q * one <= r * one - s * one) by (nonlinear_arith)
        requires
            one > 0 as real,
    ;
}

proof fn lemma_fixed_signs(a: Fixed)
    ensures
        0 as real <= a.value() <==> 0 <= a.bits,
        a.value() <= 0 as real <==> a.bits <= 0,
{
    lemma_fixed_constants();
    lemma_fixed_compares(Fixed::nought(), a);
    lemma_fixed_compares(a, Fixed::nought());
}

/// Fixed-point numbers stand in one order.
pub proof fn law_fixed_compares()
    ensures
        compares::<Fixed>(),
{
    assert forall|a: Fixed, b: Fixed| (#[trigger] a.upto(b) <==> a.value() <= b.value()) by {
        lemma_fixed_compares(a, b);
    }
}

proof fn lemma_fixed_products_grow()
    ensures
        products_grow::<Fixed>(),
{
    assert forall|a: Fixed, b: Fixed, c: Fixed|
        Fixed::nought().below(c) && Fixed::nought().below(a) && a.upto(b) implies (
    #[trigger] c.times(a)).upto(#[trigger] c.times(b)) by {
        let (p, q, k) = (a.bits as int, b.bits as int, c.bits as int);
        assert(k * p <= k * q) by (nonlinear_arith)
            requires
                k > 0,
                p <= q,
        ;
        lemma_quotients_grow(k * p, k * q, ONE_BITS as int);
    }
    assert forall|a: Fixed, c: Fixed| Fixed::unit().upto(c) && Fixed::nought().below(a) implies a.upto(
        #[trigger] c.times(a),
    ) by {
        let (p, k) = (a.bits as int, c.bits as int);
        assert(p * 4294967296 <= k * p) by (nonlinear_arith)
            requires
                k >= 4294967296,
                p > 0,
        ;
        lemma_cut(k * p, ONE_BITS as int, p);
    }
}

proof fn lemma_fixed_quotients_grow()
    ensures
        quotients_grow::<Fixed>(),
{
    assert forall|a: Fixed, b: Fixed, d: Fixed|
        d.finite() && d.value() > 0 as real && a.upto(b) implies (#[trigger] a.over(d)).upto(
        #[trigger] b.over(d),
    ) by {
        lemma_fixed_signs(d);
        lemma_quotients_grow(a.bits * ONE_BITS, b.bits * ONE_BITS, d.bits as int);
    }
    assert forall|a: Fixed, d: Fixed|
        a.finite() && a.value() <= 0 as real && Fixed::nought().below(d) implies (
    #[trigger] a.over(d)).upto(Fixed::nought()) by {
        lemma_fixed_signs(a);
        lemma_cut(a.bits * ONE_BITS, d.bits as int, 0);
    }
    assert forall|a: Fixed, d: Fixed, e: Fixed|
        a.finite() && a.value() <= 0 as real && Fixed::nought().below(d) && d.upto(e) implies (
    #[trigger] a.over(d)).upto(#[trigger] a.over(e)) by {
        lemma_fixed_signs(a);
        lemma_parts_shrink(magnitude(a.bits * ONE_BITS), d.bits as int, e.bits as int);
        if a.bits == 0 {
            lemma_cut(0, d.bits as int, 0);
            lemma_cut(0, e.bits as int, 0);
        }
    }
}

proof fn lemma_fixed_fractions_fit()
    ensures
        fractions_fit::<Fixed>(),
{
    assert forall|n: int, d: int| -1000000 <= n <= 1000000 && 0 < d <= 1000000 implies {
        &&& (#[trigger] Fixed::fraction(n, d)).finite()
        &&& Fixed::fraction(n, d) == Fixed::fraction(n, 1).over(Fixed::fraction(d, 1))
        &&& d == 1 ==> Fixed::fraction(n, d).value() == n as real
        &&& 0 < n ==> Fixed::fraction(n, d).value() > 0 as real
    } by {
        let m = magnitude(n * ONE_BITS);
        assert(m / 1 == m && (d * ONE_BITS) / 1 == d * ONE_BITS);
        assert(Fixed::fraction(n, 1).bits == n * ONE_BITS);
        assert(Fixed::fraction(d, 1).bits == d * ONE_BITS);
        assert((m * 4294967296) / (d * 4294967296) == m / d) by (nonlinear_arith)
            requires
                d > 0,
                m >= 0,
        ;
        assert(magnitude(n * ONE_BITS * ONE_BITS) == m * ONE_BITS);
        let (x, one) = (n as real, ONE_BITS as real);
        lemma_cast_product(n, ONE_BITS as int);
        assert(x * one / one == x) by (nonlinear_arith)
            requires
                one > 0 as real,
        ;
        if 0 < n {
            lemma_cut(n * ONE_BITS, d, 1);
            lemma_fixed_signs(Fixed::fraction(n, d));
        }
    }
}

/// Fixed-point numbers round as numbers should.
pub proof fn law_fixed_rounds()
    ensures
        rounds::<Fixed>(),
{
    lemma_fixed_constants();
    assert forall|a: Fixed, b: Fixed| rounded(#[trigger] a.plus(b), a.value() + b.value()) by {
        lemma_sums_are_rounded(a, b);
    }
    assert forall|a: Fixed, b: Fixed| rounded(#[trigger] a.minus(b), a.value() - b.value()) by {
        lemma_sums_are_rounded(a, b);
    }
    assert forall|a: Fixed, b: Fixed| rounded(#[trigger] a.times(b), a.value() * b.value()) by {
        lemma_products_are_rounded(a, b);
    }
    assert forall|a: Fixed, b: Fixed| b.value() != 0 as real implies rounded(
        #[trigger] a.over(b),
        a.value() / b.value(),
    ) by {
        lemma_quotients_are_rounded(a, b);
    }
    assert forall|a: Fixed, b: Fixed, c: Fixed, d: Fixed|
        a.value() + b.value() <= c.value() + d.value() implies (#[trigger] a.plus(b)).upto(
        #[trigger] c.plus(d),
    ) by {
        lemma_sums_grow(a, b, c, d);
    }
    assert forall|a: Fixed, b: Fixed, c: Fixed, d: Fixed|
        a.value() - b.value() <= c.value() - d.value() implies (#[trigger] a.minus(b)).upto(
        #[trigger] c.minus(d),
    ) by {
        lemma_sums_grow(a, b, c, d);
    }
    assert forall|a: Fixed| 0 as real <= a.value() implies (#[trigger] a.opposite()).value()
        == -a.value() by {
        lemma_fixed_signs(a);
        let (p, one) = (a.bits as real, ONE_BITS as real);
        assert((-p) / one == -(p / one)) by (nonlinear_arith)
            requires
                one > 0 as real,
        ;
    }
    assert forall|a: Fixed| 0 as real <= (#[trigger] a.size()).value() by {
        lemma_fixed_signs(a.size());
    }
    assert forall|a: Fixed| 0 as real <= a.value() implies (#[trigger] a.size()).value()
        == a.value() by {
        lemma_fixed_signs(a);
    }
    lemma_fixed_products_grow();
    lemma_fixed_quotients_grow();
    lemma_fixed_fractions_fit();
}

/// Every fixed-point number but the smallest is mirrored, for factors up to one.
pub proof fn law_fixed_is_mirrored(x: Fixed, g: Fixed)
    requires
        x.bits > i64::MIN,
        magnitude(g.bits as int) <= ONE_BITS,
    ensures
        mirrored(x, g),
{
    let (p, q) = (x.bits as int, g.bits as int);
    let (m, k) = (magnitude(p * q), magnitude(p));
    assert((-p) * q == -(p * q)) by (nonlinear_arith);
    assert(m <= k * 4294967296) by (nonlinear_arith)
        requires
            m == magnitude(p * q),
            k == magnitude(p),
            magnitude(q) <= 4294967296,
    ;
    assert(m / 4294967296 <= k);
}

/// Indices and bytes of fixed-point numbers are what they should be.
pub proof fn law_fixed_is_cut_and_rounded()
    ensures
        indexes::<Fixed>(),
        bytes_round::<Fixed>(),
{
    let one = ONE_BITS as real;
    assert forall|a: Fixed| 0 as real <= a.value() && a.value() < 2147483648 as real implies (
    #[trigger] a.index()) as real <= a.value() && a.value() < a.index() as real + 1 as real by {
        lemma_steps(a);
        lemma_fixed_signs(a);
        let (n, v, x) = (a.index() as int, a.value(), a.index() as real);
        assert(n * ONE_BITS <= a.bits < n * ONE_BITS + ONE_BITS);
        lemma_cast_product(n, ONE_BITS as int);
        assert(x <= v && v < x + 1 as real) by (nonlinear_arith)
            requires
                x * one <= v * one,
                v * one < x * one + one,
                one > 0 as real,
        ;
    }
    assert forall|a: Fixed| a.value() <= 0 as real implies #[trigger] a.index() == 0 by {
        lemma_fixed_signs(a);
    }
    assert forall|a: Fixed| 0 as real <= a.value() <= 255 as real implies (#[trigger] a.byte()) as real
        - 1 as real / 2 as real <= a.value() <= a.byte() as real + 1 as real / 2 as real by {
        lemma_steps(a);
        lemma_fixed_signs(a);
        let (n, v, x) = (a.byte() as int, a.value(), a.byte() as real);
        assert(v * one <= 255 as real * one) by (nonlinear_arith)
            requires
                v <= 255 as real,
                one > 0 as real,
        ;
        assert(a.bits <= 255 * ONE_BITS);
        assert(2 * n * ONE_BITS - ONE_BITS <= 2 * a.bits <= 2 * n * ONE_BITS + ONE_BITS);
        lemma_cast_product(n, ONE_BITS as int);
        assert(2 as real * x - 1 as real <= 2 as real * v <= 2 as real * x + 1 as real)
            by (nonlinear_arith)
            requires
                2 as real * (x * one) - one <= 2 as real * (v * one),
                2 as real * (v * one) <= 2 as real * (x * one) + one,
                one > 0 as real,
        ;
    }
}

/// The opposite of every fixed-point number but the smallest has the opposite value, and its size
/// is how far it is from zero.
pub proof fn law_fixed_opposites(a: Fixed)
    requires
        a.bits > i64::MIN,
    ensures
        a.opposite().value() == -a.value(),
        a.size().value() == if a.value() < 0 as real {
            -a.value()
        } else {
            a.value()
        },
{
    lemma_fixed_signs(a);
    let (p, one) = (a.bits as real, ONE_BITS as real);
    assert((-p) / one == -(p / one)) by (nonlinear_arith)
        requires
            one > 0 as real,
    ;
}

/// Natural numbers up to two billion are exact in fixed point.
pub proof fn law_fixed_counts(n: nat)
    requires
        n <= 2000000000,
    ensures
        Fixed::count(n).value() == n as real,
{
    let (x, one) = (n as real, ONE_BITS as real);
    lemma_cast_product(n as int, ONE_BITS as int);
    assert(x * one / one == x) by (nonlinear_arith)
        requires
            one > 0 as real,
    ;
}

/// No other fixed-point number comes nearer to the square root of one half from below or from above
/// than the neighbours of the one that stands for it.
pub proof fn law_fixed_half_power_is_near()
    ensures
        ({
            let n = Fixed::half_power().bits as int;
            2 * ((n - 1) * (n - 1)) < ONE_BITS * ONE_BITS < 2 * ((n + 1) * (n + 1))
        }),
{
    let n = Fixed::half_power().bits as int;
    assert(2 * ((n - 1) * (n - 1)) < 4294967296 * 4294967296 < 2 * ((n + 1) * (n + 1)))
        by (nonlinear_arith)
        requires
            n == 3037000500,
    ;
}

/// A whole turn is 6.28318530 and a bit in fixed point, but less than 6.28318531.
pub proof fn law_fixed_turn_is_near()
    ensures
        628318530 * ONE_BITS < Fixed::turn().bits * 100000000 < 628318531 * ONE_BITS,
{
}

} // verus!
