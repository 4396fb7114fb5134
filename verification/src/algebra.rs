//! Small facts about sums and products of real numbers.
use vstd::prelude::*;

verus! {

pub proof fn lemma_zeros(a: real, b: real)
    ensures
        a * (0 as real) == 0 as real,
        b * (0 as real) == 0 as real,
{
    assert(a * (0 as real) == 0 as real) by (nonlinear_arith);
    assert(b * (0 as real) == 0 as real) by (nonlinear_arith);
}

pub proof fn lemma_product(a: real, b: real, c: real)
    ensures
        a * (b * c) == a * b * c,
        a * b * c == b * a * c,
{
    assert(a * (b * c) == a * b * c) by (nonlinear_arith);
    assert(a * b == b * a) by (nonlinear_arith);
}

pub proof fn lemma_lag(a: real, b: real, c: real, x: real)
    requires
        a + b == c,
    ensures
        a * x + b * x == c * x,
{
    assert(a * x + b * x == (a + b) * x) by (nonlinear_arith);
}

pub proof fn lemma_share(c: real, x: real, y: real, z: real)
    requires
        x + y == z,
    ensures
        c * x + c * y == c * z,
{
    assert(c * x + c * y == c * (x + y)) by (nonlinear_arith);
}

pub proof fn lemma_product_squared(a: real, b: real)
    ensures
        (a * b) * (a * b) == (a * a) * (b * b),
{
    lemma_product(a * b, a, b);
    lemma_product(a, b, a);
    lemma_product(b, a, a);
    assert(a * b == b * a) by (nonlinear_arith);
    lemma_product(a * a, b, b);
}

pub proof fn lemma_units(a: real, b: real, c: real, d: real)
    ensures
        1 as real * a == a,
        1 as real * b == b,
        1 as real * c == c,
        1 as real * d == d,
        a * (1 as real) == a,
        b * (1 as real) == b,
{
}

/// A quotient times its divisor is the dividend.
pub proof fn lemma_undivide(x: real, y: real)
    requires
        y != 0 as real,
    ensures
        y * (x / y) == x,
        (x / y) * y == x,
{
    let q = x / y;
    assert(y * q == x && q * y == x) by (nonlinear_arith)
        requires
            q == x / y,
            y != 0 as real,
    ;
}

} // verus!
