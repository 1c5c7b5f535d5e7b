//! Row-major index arithmetic.

use vstd::prelude::*;

verus! {

/// The position of `(i, j)` in row-major order, in rows of `cols`.
pub open spec fn flat2(cols: int, i: int, j: int) -> int {
    i * cols + j
}

/// The position of `(a, b, c)` in row-major order, for inner extents `d1`, `d2`.
pub open spec fn flat3(d1: int, d2: int, a: int, b: int, c: int) -> int {
    flat2(d2, flat2(d1, a, b), c)
}

/// The position of `(a, b, c, d)` in row-major order, for inner extents `d1`, `d2`, `d3`.
pub open spec fn flat4(d1: int, d2: int, d3: int, a: int, b: int, c: int, d: int) -> int {
    flat2(d3, flat3(d1, d2, a, b, c), d)
}

/// A position in range is below the number of elements.
pub proof fn lemma_flat2_bound(rows: int, cols: int, i: int, j: int)
    requires
        0 <= i < rows,
        0 <= j < cols,
    ensures
        0 <= flat2(cols, i, j) < rows * cols,
        0 <= i * cols <= flat2(cols, i, j),
        0 < rows * cols,
        cols <= rows * cols,
        rows <= rows * cols,
{
    assert(0 <= i * cols && i * cols + j < rows * cols && cols <= rows * cols && rows <= rows
        * cols) by (nonlinear_arith)
        requires
            0 <= i < rows,
            0 <= j < cols,
    ;
}

/// Two pairs in range at one position are the same pair.
pub proof fn lemma_flat2_injective(cols: int, i: int, j: int, i2: int, j2: int)
    requires
        0 <= j < cols,
        0 <= j2 < cols,
        flat2(cols, i, j) == flat2(cols, i2, j2),
    ensures
        i == i2,
        j == j2,
{
    assert(i == i2) by (nonlinear_arith)
        requires
            0 <= j < cols,
            0 <= j2 < cols,
            i * cols + j == i2 * cols + j2,
    ;
}

/// Every position below `rows * cols` is that of its quotient and remainder.
pub proof fn lemma_flat2_onto(rows: int, cols: int, p: int)
    requires
        0 < cols,
        0 <= p < rows * cols,
    ensures
        0 <= p / cols < rows,
        0 <= p % cols < cols,
        flat2(cols, p / cols, p % cols) == p,
{
    assert(0 <= p / cols < rows && 0 <= p % cols < cols && (p / cols) * cols + p % cols == p)
        by (nonlinear_arith)
        requires
            0 < cols,
            0 <= p < rows * cols,
    ;
}

pub proof fn lemma_flat3_bound(d0: int, d1: int, d2: int, a: int, b: int, c: int)
    requires
        0 <= a < d0,
        0 <= b < d1,
        0 <= c < d2,
    ensures
        0 <= flat3(d1, d2, a, b, c) < d0 * d1 * d2,
        0 <= flat2(d1, a, b) <= flat3(d1, d2, a, b, c),
        0 <= a * d1 <= flat2(d1, a, b) < d0 * d1 <= d0 * d1 * d2,
        0 <= flat2(d1, a, b) * d2 <= flat3(d1, d2, a, b, c),
{
    lemma_flat2_bound(d0, d1, a, b);
    lemma_flat2_bound(d0 * d1, d2, flat2(d1, a, b), c);
    let n = flat2(d1, a, b);
    assert(n <= n * d2 + c) by (nonlinear_arith)
        requires
            0 <= n,
            0 <= c < d2,
    ;
}

pub proof fn lemma_flat3_injective(
    d1: int,
    d2: int,
    a: int,
    b: int,
    c: int,
    a2: int,
    b2: int,
    c2: int,
)
    requires
        0 <= b < d1,
        0 <= b2 < d1,
        0 <= c < d2,
        0 <= c2 < d2,
        flat3(d1, d2, a, b, c) == flat3(d1, d2, a2, b2, c2),
    ensures
        a == a2,
        b == b2,
        c == c2,
{
    lemma_flat2_injective(d2, flat2(d1, a, b), c, flat2(d1, a2, b2), c2);
    lemma_flat2_injective(d1, a, b, a2, b2);
}

pub proof fn lemma_flat4_bound(
    d0: int,
    d1: int,
    d2: int,
    d3: int,
    a: int,
    b: int,
    c: int,
    d: int,
)
    requires
        0 <= a < d0,
        0 <= b < d1,
        0 <= c < d2,
        0 <= d < d3,
    ensures
        0 <= flat4(d1, d2, d3, a, b, c, d) < d0 * d1 * d2 * d3,
        0 <= a * d1 <= flat2(d1, a, b) < d0 * d1 * d2 * d3,
        0 <= flat2(d1, a, b) * d2 <= flat3(d1, d2, a, b, c) < d0 * d1 * d2 * d3,
        0 <= flat3(d1, d2, a, b, c) * d3 <= flat4(d1, d2, d3, a, b, c, d),
{
    lemma_flat3_bound(d0, d1, d2, a, b, c);
    lemma_flat2_bound(d0 * d1 * d2, d3, flat3(d1, d2, a, b, c), d);
    let n = flat3(d1, d2, a, b, c);
    assert(n <= n * d3 + d) by (nonlinear_arith)
        requires
            0 <= n,
            0 <= d < d3,
    ;
}

/// One inner block is no larger than the whole, where there is one.
pub proof fn lemma_block_fits(d0: int, d1: int, d2: int, d3: int)
    requires
        0 < d0,
        0 < d1,
        0 <= d2,
        0 <= d3,
    ensures
        0 <= d2 * d3 <= d0 * d1 * d2 * d3,
{
    assert(0 <= d2 * d3 <= d0 * d1 * d2 * d3) by (nonlinear_arith)
        requires
            0 < d0,
            0 < d1,
            0 <= d2,
            0 <= d3,
    {
        assert(1 <= d0 * d1);
        assert(0 <= d2 * d3);
        assert(d2 * d3 <= (d0 * d1) * (d2 * d3));
        assert((d0 * d1) * (d2 * d3) == d0 * d1 * d2 * d3);
    }
}

pub proof fn lemma_flat4_injective(
    d1: int,
    d2: int,
    d3: int,
    a: int,
    b: int,
    c: int,
    d: int,
    a2: int,
    b2: int,
    c2: int,
    dd: int,
)
    requires
        0 <= b < d1,
        0 <= b2 < d1,
        0 <= c < d2,
        0 <= c2 < d2,
        0 <= d < d3,
        0 <= dd < d3,
        flat4(d1, d2, d3, a, b, c, d) == flat4(d1, d2, d3, a2, b2, c2, dd),
    ensures
        a == a2,
        b == b2,
        c == c2,
        d == dd,
{
    lemma_flat2_injective(d3, flat3(d1, d2, a, b, c), d, flat3(d1, d2, a2, b2, c2), dd);
    lemma_flat3_injective(d1, d2, a, b, c, a2, b2, c2);
}

/// Token `t c + r` of head `(a, b)` is row `r` of block `(a d1 + b) nt + t`.
pub proof fn lemma_block_position(
    d1: int,
    nt: int,
    c: int,
    d3: int,
    a: int,
    b: int,
    t: int,
    r: int,
    i: int,
)
    ensures
        flat4(d1, nt * c, d3, a, b, t * c + r, i) == flat3(
            c,
            d3,
            flat2(nt, flat2(d1, a, b), t),
            r,
            i,
        ),
{
    let x = a * d1 + b;
    assert(x * (nt * c) + (t * c + r) == (x * nt + t) * c + r) by (nonlinear_arith);
}


} // verus!
