//! Dense arrays in row-major order.

use vstd::prelude::*;

use crate::index;
use crate::scalar::Scalar;

verus! {

/// A matrix.
pub struct Matrix<F> {
    pub rows: usize,
    pub cols: usize,
    pub data: Vec<F>,
}

impl<F: Scalar> Matrix<F> {
    /// The data fill the rows.
    pub open spec fn wf(self) -> bool {
        self.data.len() == self.rows * self.cols
    }

    /// Whether the matrix is well-formed with these extents.
    pub open spec fn shaped(self, rows: int, cols: int) -> bool {
        self.wf() && self.rows == rows && self.cols == cols
    }

    /// The element at row `i`, column `j`.
    pub closed spec fn at(self, i: int, j: int) -> F {
        self.data@[index::flat2(self.cols as int, i, j)]
    }

    /// A matrix of the given data.
    pub fn from_vec(data: Vec<F>, rows: usize, cols: usize) -> (r: Self)
        requires
            data@.len() == rows * cols,
        ensures
            r.shaped(rows as int, cols as int),
            r.data@ == data@,
            forall|i: int, j: int|
                0 <= i < rows && 0 <= j < cols ==> #[trigger] r.at(i, j) == data@[index::flat2(
                    cols as int,
                    i,
                    j,
                )],
    {
        Matrix { rows, cols, data }
    }

    /// A matrix of zeros.
    pub fn zeros(rows: usize, cols: usize) -> (r: Self)
        requires
            rows * cols <= usize::MAX,
        ensures
            r.shaped(rows as int, cols as int),
            forall|i: int, j: int|
                0 <= i < rows && 0 <= j < cols ==> #[trigger] r.at(i, j) == F::nil(),
    {
        let n: usize = rows * cols;
        let r = Matrix { rows, cols, data: zero_vec(n) };
        assert forall|i: int, j: int| 0 <= i < rows && 0 <= j < cols implies #[trigger] r.at(i, j)
            == F::nil() by {
            index::lemma_flat2_bound(rows as int, cols as int, i, j);
        }
        r
    }

    /// The element at row `i`, column `j`.
    pub fn get(&self, i: usize, j: usize) -> (r: F)
        requires
            self.wf(),
            i < self.rows,
            j < self.cols,
        ensures
            r == self.at(i as int, j as int),
    {
        proof {
            index::lemma_flat2_bound(self.rows as int, self.cols as int, i as int, j as int);
        }
        self.data[i * self.cols + j]
    }

    /// Replaces the element at row `i`, column `j`.
    pub fn set(&mut self, i: usize, j: usize, x: F)
        requires
            old(self).wf(),
            i < old(self).rows,
            j < old(self).cols,
        ensures
            final(self).shaped(old(self).rows as int, old(self).cols as int),
            final(self).at(i as int, j as int) == x,
            forall|i2: int, j2: int|
                0 <= i2 < old(self).rows && 0 <= j2 < old(self).cols && !(i2 == i && j2 == j)
                    ==> #[trigger] final(self).at(i2, j2) == old(self).at(i2, j2),
    {
        proof {
            index::lemma_flat2_bound(self.rows as int, self.cols as int, i as int, j as int);
        }
        let p: usize = i * self.cols + j;
        self.data.set(p, x);
        proof {
            assert forall|i2: int, j2: int|
                0 <= i2 < old(self).rows && 0 <= j2 < old(self).cols && !(i2 == i && j2
                    == j) implies #[trigger] self.at(i2, j2) == old(self).at(i2, j2) by {
                index::lemma_flat2_bound(self.rows as int, self.cols as int, i2, j2);
                if index::flat2(self.cols as int, i2, j2) == p {
                    index::lemma_flat2_injective(self.cols as int, i as int, j as int, i2, j2);
                }
            }
        }
    }

    /// The transpose.
    pub fn transposed(&self) -> (r: Self)
        requires
            self.wf(),
        ensures
            r.shaped(self.cols as int, self.rows as int),
            forall|i: int, j: int|
                0 <= i < self.cols && 0 <= j < self.rows ==> #[trigger] r.at(i, j) == self.at(j, i),
    {
        proof {
            assert(self.cols * self.rows == self.rows * self.cols) by (nonlinear_arith);
        }
        let mut r = Matrix::zeros(self.cols, self.rows);
        for i in 0..self.cols
            invariant
                self.wf(),
                r.shaped(self.cols as int, self.rows as int),
                forall|x: int, y: int|
                    0 <= x < i && 0 <= y < self.rows ==> #[trigger] r.at(x, y) == self.at(y, x),
        {
            for j in 0..self.rows
                invariant
                    self.wf(),
                    i < self.cols,
                    r.shaped(self.cols as int, self.rows as int),
                    forall|x: int, y: int|
                        0 <= y < self.rows && (0 <= x < i || (x == i && y < j))
                            ==> #[trigger] r.at(x, y) == self.at(y, x),
            {
                r.set(i, j, self.get(j, i));
            }
        }
        r
    }

    /// A copy.
    pub fn copy(&self) -> (r: Self)
        requires
            self.wf(),
        ensures
            r.shaped(self.rows as int, self.cols as int),
            forall|i: int, j: int|
                0 <= i < self.rows && 0 <= j < self.cols ==> #[trigger] r.at(i, j) == self.at(i, j),
    {
        Matrix { rows: self.rows, cols: self.cols, data: copy_vec(&self.data) }
    }
}

/// A vector of `n` zeros.
pub fn zero_vec<F: Scalar>(n: usize) -> (r: Vec<F>)
    ensures
        r@.len() == n,
        forall|i: int| 0 <= i < n ==> #[trigger] r@[i] == F::nil(),
{
    let mut r: Vec<F> = Vec::new();
    for i in 0..n
        invariant
            r@.len() == i,
            forall|x: int| 0 <= x < i ==> #[trigger] r@[x] == F::nil(),
    {
        r.push(F::zero());
    }
    r
}

/// A copy of a vector.
pub fn copy_vec<F: Scalar>(v: &Vec<F>) -> (r: Vec<F>)
    ensures
        r@ == v@,
{
    let mut r: Vec<F> = Vec::new();
    for i in 0..v.len()
        invariant
            r@ == v@.take(i as int),
    {
        r.push(v[i]);
        assert(r@ == v@.take(i + 1));
    }
    assert(v@.take(v@.len() as int) == v@);
    r
}

/// Whether `n` is the product of the extents, which itself may be too large to count.
fn is_product3(n: usize, d0: usize, d1: usize, d2: usize) -> (r: bool)
    ensures
        r == (n == d0 * d1 * d2),
{
    if d1 == 0 || d2 == 0 {
        assert(d0 * d1 * d2 == 0) by (nonlinear_arith)
            requires
                d1 == 0 || d2 == 0,
        ;
        return n == 0;
    }
    let rest: usize = n / d2;
    let r = n % d2 == 0 && rest % d1 == 0 && rest / d1 == d0;
    proof {
        let (a, b, c, m, q) = (d0 as int, d1 as int, d2 as int, n as int, rest as int);
        assert((m == a * b * c) == (m % c == 0 && q == a * b)) by (nonlinear_arith)
            requires
                c >= 1,
                q == m / c,
        ;
        assert((q == a * b) == (q % b == 0 && q / b == a)) by (nonlinear_arith)
            requires
                b >= 1,
        ;
    }
    r
}

/// An array of three dimensions.
pub struct Tensor3<F> {
    pub d0: usize,
    pub d1: usize,
    pub d2: usize,
    pub data: Vec<F>,
}

impl<F: Scalar> Tensor3<F> {
    /// The data fill the extents.
    pub open spec fn wf(self) -> bool {
        self.data.len() == self.d0 * self.d1 * self.d2
    }

    /// Whether the array is well-formed with these extents.
    pub open spec fn shaped(self, d0: int, d1: int, d2: int) -> bool {
        self.wf() && self.d0 == d0 && self.d1 == d1 && self.d2 == d2
    }

    /// The element at `(a, b, c)`.
    pub closed spec fn at(self, a: int, b: int, c: int) -> F {
        self.data@[index::flat3(self.d1 as int, self.d2 as int, a, b, c)]
    }

    /// Whether the array is well-formed with these extents.
    pub fn is_shaped(&self, d0: usize, d1: usize, d2: usize) -> (r: bool)
        ensures
            r == self.shaped(d0 as int, d1 as int, d2 as int),
    {
        self.d0 == d0 && self.d1 == d1 && self.d2 == d2 && is_product3(self.data.len(), d0, d1, d2)
    }

    /// An array of the given data.
    pub fn from_vec(data: Vec<F>, d0: usize, d1: usize, d2: usize) -> (r: Self)
        requires
            data@.len() == d0 * d1 * d2,
        ensures
            r.shaped(d0 as int, d1 as int, d2 as int),
            r.data@ == data@,
            forall|a: int, b: int, c: int|
                0 <= a < d0 && 0 <= b < d1 && 0 <= c < d2 ==> #[trigger] r.at(a, b, c)
                    == data@[index::flat3(d1 as int, d2 as int, a, b, c)],
    {
        Tensor3 { d0, d1, d2, data }
    }

    /// An array of zeros.
    pub fn zeros(d0: usize, d1: usize, d2: usize) -> (r: Self)
        requires
            d0 * d1 * d2 <= usize::MAX,
            d0 * d1 <= usize::MAX,
        ensures
            r.shaped(d0 as int, d1 as int, d2 as int),
            forall|a: int, b: int, c: int|
                0 <= a < d0 && 0 <= b < d1 && 0 <= c < d2 ==> #[trigger] r.at(a, b, c) == F::nil(),
    {
        let n: usize = d0 * d1 * d2;
        let r = Tensor3 { d0, d1, d2, data: zero_vec(n) };
        assert forall|a: int, b: int, c: int|
            0 <= a < d0 && 0 <= b < d1 && 0 <= c < d2 implies #[trigger] r.at(a, b, c)
            == F::nil() by {
            index::lemma_flat3_bound(d0 as int, d1 as int, d2 as int, a, b, c);
        }
        r
    }

    /// The element at `(a, b, c)`.
    pub fn get(&self, a: usize, b: usize, c: usize) -> (r: F)
        requires
            self.wf(),
            a < self.d0,
            b < self.d1,
            c < self.d2,
        ensures
            r == self.at(a as int, b as int, c as int),
    {
        proof {
            index::lemma_flat3_bound(
                self.d0 as int,
                self.d1 as int,
                self.d2 as int,
                a as int,
                b as int,
                c as int,
            );
        }
        self.data[(a * self.d1 + b) * self.d2 + c]
    }

    /// Replaces the element at `(a, b, c)`.
    pub fn set(&mut self, a: usize, b: usize, c: usize, x: F)
        requires
            old(self).wf(),
            a < old(self).d0,
            b < old(self).d1,
            c < old(self).d2,
        ensures
            final(self).shaped(old(self).d0 as int, old(self).d1 as int, old(self).d2 as int),
            final(self).at(a as int, b as int, c as int) == x,
            forall|a2: int, b2: int, c2: int|
                0 <= a2 < old(self).d0 && 0 <= b2 < old(self).d1 && 0 <= c2 < old(self).d2 && !(a2
                    == a && b2 == b && c2 == c) ==> #[trigger] final(self).at(a2, b2, c2) == old(
                    self,
                ).at(a2, b2, c2),
    {
        let ghost (d0, d1, d2) = (self.d0 as int, self.d1 as int, self.d2 as int);
        proof {
            index::lemma_flat3_bound(d0, d1, d2, a as int, b as int, c as int);
        }
        let p: usize = (a * self.d1 + b) * self.d2 + c;
        self.data.set(p, x);
        proof {
            assert forall|a2: int, b2: int, c2: int|
                0 <= a2 < d0 && 0 <= b2 < d1 && 0 <= c2 < d2 && !(a2 == a && b2 == b && c2
                    == c) implies #[trigger] self.at(a2, b2, c2) == old(self).at(a2, b2, c2) by {
                index::lemma_flat3_bound(d0, d1, d2, a2, b2, c2);
                if index::flat3(d1, d2, a2, b2, c2) == p {
                    index::lemma_flat3_injective(
                        d1,
                        d2,
                        a as int,
                        b as int,
                        c as int,
                        a2,
                        b2,
                        c2,
                    );
                }
            }
        }
    }

    /// The matrix at `a`.
    pub fn block_matrix(&self, a: usize) -> (r: Matrix<F>)
        requires
            self.wf(),
            a < self.d0,
        ensures
            r.shaped(self.d1 as int, self.d2 as int),
            forall|i: int, j: int|
                0 <= i < self.d1 && 0 <= j < self.d2 ==> #[trigger] r.at(i, j) == self.at(
                    a as int,
                    i,
                    j,
                ),
    {
        proof {
            index::lemma_block_fits(1, self.d0 as int, self.d1 as int, self.d2 as int);
        }
        let mut r = Matrix::zeros(self.d1, self.d2);
        for i in 0..self.d1
            invariant
                self.wf(),
                a < self.d0,
                r.shaped(self.d1 as int, self.d2 as int),
                forall|x: int, y: int|
                    0 <= x < i && 0 <= y < self.d2 ==> #[trigger] r.at(x, y) == self.at(
                        a as int,
                        x,
                        y,
                    ),
        {
            for j in 0..self.d2
                invariant
                    self.wf(),
                    a < self.d0,
                    i < self.d1,
                    r.shaped(self.d1 as int, self.d2 as int),
                    forall|x: int, y: int|
                        0 <= y < self.d2 && (0 <= x < i || (x == i && y < j)) ==> #[trigger] r.at(
                            x,
                            y,
                        ) == self.at(a as int, x, y),
            {
                r.set(i, j, self.get(a, i, j));
            }
        }
        r
    }

    /// Replaces the matrix at `a`.
    pub fn set_block(&mut self, a: usize, m: &Matrix<F>)
        requires
            old(self).wf(),
            a < old(self).d0,
            m.shaped(old(self).d1 as int, old(self).d2 as int),
        ensures
            final(self).shaped(old(self).d0 as int, old(self).d1 as int, old(self).d2 as int),
            forall|x: int, i: int, j: int|
                0 <= x < old(self).d0 && 0 <= i < old(self).d1 && 0 <= j < old(self).d2
                    ==> #[trigger] final(self).at(x, i, j) == (if x == a {
                    m.at(i, j)
                } else {
                    old(self).at(x, i, j)
                }),
    {
        for i in 0..m.rows
            invariant
                a < self.d0,
                self.shaped(old(self).d0 as int, old(self).d1 as int, old(self).d2 as int),
                m.shaped(self.d1 as int, self.d2 as int),
                forall|x: int, p: int, q: int|
                    0 <= x < self.d0 && 0 <= p < self.d1 && 0 <= q < self.d2 ==> #[trigger] self.at(
                        x,
                        p,
                        q,
                    ) == (if x == a && p < i {
                        m.at(p, q)
                    } else {
                        old(self).at(x, p, q)
                    }),
        {
            for j in 0..m.cols
                invariant
                    a < self.d0,
                    i < m.rows,
                    self.shaped(old(self).d0 as int, old(self).d1 as int, old(self).d2 as int),
                    m.shaped(self.d1 as int, self.d2 as int),
                    forall|x: int, p: int, q: int|
                        0 <= x < self.d0 && 0 <= p < self.d1 && 0 <= q < self.d2
                            ==> #[trigger] self.at(x, p, q) == (if x == a && (p < i || (p == i && q
                            < j)) {
                            m.at(p, q)
                        } else {
                            old(self).at(x, p, q)
                        }),
            {
                self.set(a, i, j, m.get(i, j));
            }
        }
    }

    /// Columns `start .. start + n` of the matrix at `a`.
    pub fn columns(&self, a: usize, start: usize, n: usize) -> (r: Matrix<F>)
        requires
            self.wf(),
            a < self.d0,
            start + n <= self.d2,
        ensures
            r.shaped(self.d1 as int, n as int),
            forall|i: int, j: int|
                0 <= i < self.d1 && 0 <= j < n ==> #[trigger] r.at(i, j) == self.at(
                    a as int,
                    i,
                    start + j,
                ),
    {
        proof {
            index::lemma_block_fits(1, self.d0 as int, self.d1 as int, self.d2 as int);
            let (d1, d2) = (self.d1, self.d2);
            assert(d1 * n <= d1 * d2) by (nonlinear_arith)
                requires
                    0 <= d1,
                    0 <= n <= d2,
            ;
        }
        let mut r = Matrix::zeros(self.d1, n);
        for i in 0..self.d1
            invariant
                self.wf(),
                a < self.d0,
                start + n <= self.d2,
                r.shaped(self.d1 as int, n as int),
                forall|x: int, y: int|
                    0 <= x < i && 0 <= y < n ==> #[trigger] r.at(x, y) == self.at(
                        a as int,
                        x,
                        start + y,
                    ),
        {
            for j in 0..n
                invariant
                    self.wf(),
                    a < self.d0,
                    start + n <= self.d2,
                    i < self.d1,
                    r.shaped(self.d1 as int, n as int),
                    forall|x: int, y: int|
                        0 <= y < n && (0 <= x < i || (x == i && y < j)) ==> #[trigger] r.at(x, y)
                            == self.at(a as int, x, start + y),
            {
                r.set(i, j, self.get(a, i, start + j));
            }
        }
        r
    }

    /// Replaces columns `start ..` of the matrix at `a` by those of `m`.
    pub fn set_columns(&mut self, a: usize, start: usize, m: &Matrix<F>)
        requires
            old(self).wf(),
            a < old(self).d0,
            m.wf(),
            m.rows == old(self).d1,
            start + m.cols <= old(self).d2,
        ensures
            final(self).shaped(old(self).d0 as int, old(self).d1 as int, old(self).d2 as int),
            forall|x: int, i: int, j: int|
                0 <= x < old(self).d0 && 0 <= i < old(self).d1 && 0 <= j < old(self).d2
                    ==> #[trigger] final(self).at(x, i, j) == (if x == a && start <= j < start
                    + m.cols {
                    m.at(i, j - start)
                } else {
                    old(self).at(x, i, j)
                }),
    {
        for i in 0..m.rows
            invariant
                a < self.d0,
                m.wf(),
                m.rows == self.d1,
                start + m.cols <= self.d2,
                self.shaped(old(self).d0 as int, old(self).d1 as int, old(self).d2 as int),
                forall|x: int, p: int, q: int|
                    0 <= x < self.d0 && 0 <= p < self.d1 && 0 <= q < self.d2 ==> #[trigger] self.at(
                        x,
                        p,
                        q,
                    ) == (if x == a && start <= q < start + m.cols && p < i {
                        m.at(p, q - start)
                    } else {
                        old(self).at(x, p, q)
                    }),
        {
            for j in 0..m.cols
                invariant
                    a < self.d0,
                    i < m.rows,
                    m.wf(),
                    m.rows == self.d1,
                    start + m.cols <= self.d2,
                    self.shaped(old(self).d0 as int, old(self).d1 as int, old(self).d2 as int),
                    forall|x: int, p: int, q: int|
                        0 <= x < self.d0 && 0 <= p < self.d1 && 0 <= q < self.d2
                            ==> #[trigger] self.at(x, p, q) == (if x == a && start <= q < start
                            + m.cols && (p < i || (p == i && q < start + j)) {
                            m.at(p, q - start)
                        } else {
                            old(self).at(x, p, q)
                        }),
            {
                self.set(a, i, start + j, m.get(i, j));
            }
        }
    }

    /// A copy.
    pub fn copy(&self) -> (r: Self)
        requires
            self.wf(),
        ensures
            r.shaped(self.d0 as int, self.d1 as int, self.d2 as int),
            forall|a: int, b: int, c: int|
                0 <= a < self.d0 && 0 <= b < self.d1 && 0 <= c < self.d2 ==> #[trigger] r.at(
                    a,
                    b,
                    c,
                ) == self.at(a, b, c),
    {
        Tensor3 { d0: self.d0, d1: self.d1, d2: self.d2, data: copy_vec(&self.data) }
    }
}

/// An array of four dimensions.
pub struct Tensor4<F> {
    pub d0: usize,
    pub d1: usize,
    pub d2: usize,
    pub d3: usize,
    pub data: Vec<F>,
}

impl<F: Scalar> Tensor4<F> {
    /// The data fill the extents.
    pub open spec fn wf(self) -> bool {
        self.data.len() == self.d0 * self.d1 * self.d2 * self.d3
    }

    /// Whether the array is well-formed with these extents.
    pub open spec fn shaped(self, d0: int, d1: int, d2: int, d3: int) -> bool {
        self.wf() && self.d0 == d0 && self.d1 == d1 && self.d2 == d2 && self.d3 == d3
    }

    /// The element at `(a, b, c, d)`.
    pub closed spec fn at(self, a: int, b: int, c: int, d: int) -> F {
        self.data@[index::flat4(self.d1 as int, self.d2 as int, self.d3 as int, a, b, c, d)]
    }

    /// Whether the array is well-formed with these extents.
    pub fn is_shaped(&self, d0: usize, d1: usize, d2: usize, d3: usize) -> (r: bool)
        ensures
            r == self.shaped(d0 as int, d1 as int, d2 as int, d3 as int),
    {
        let n: usize = self.data.len();
        if self.d0 != d0 || self.d1 != d1 || self.d2 != d2 || self.d3 != d3 {
            return false;
        }
        if d3 == 0 {
            return n == 0;
        }
        let rest: usize = n / d3;
        let r = n % d3 == 0 && is_product3(rest, d0, d1, d2);
        proof {
            let (p, d, m, q) = (d0 * d1 * d2, d3 as int, n as int, rest as int);
            assert((m == p * d) == (m % d == 0 && q == p)) by (nonlinear_arith)
                requires
                    d >= 1,
                    q == m / d,
            ;
        }
        r
    }

    /// Where an element lies in the data.
    pub proof fn lemma_at_is_data(self, a: int, b: int, c: int, d: int)
        requires
            self.wf(),
            0 <= a < self.d0,
            0 <= b < self.d1,
            0 <= c < self.d2,
            0 <= d < self.d3,
        ensures
            0 <= index::flat4(self.d1 as int, self.d2 as int, self.d3 as int, a, b, c, d)
                < self.data@.len(),
            self.at(a, b, c, d) == self.data@[index::flat4(
                self.d1 as int,
                self.d2 as int,
                self.d3 as int,
                a,
                b,
                c,
                d,
            )],
    {
        index::lemma_flat4_bound(
            self.d0 as int,
            self.d1 as int,
            self.d2 as int,
            self.d3 as int,
            a,
            b,
            c,
            d,
        );
    }

    /// An array of the given data.
    pub fn from_vec(data: Vec<F>, d0: usize, d1: usize, d2: usize, d3: usize) -> (r: Self)
        requires
            data@.len() == d0 * d1 * d2 * d3,
        ensures
            r.shaped(d0 as int, d1 as int, d2 as int, d3 as int),
            r.data@ == data@,
            forall|a: int, b: int, c: int, d: int|
                0 <= a < d0 && 0 <= b < d1 && 0 <= c < d2 && 0 <= d < d3 ==> #[trigger] r.at(
                    a,
                    b,
                    c,
                    d,
                ) == data@[index::flat4(d1 as int, d2 as int, d3 as int, a, b, c, d)],
    {
        Tensor4 { d0, d1, d2, d3, data }
    }

    /// An array of zeros.
    pub fn zeros(d0: usize, d1: usize, d2: usize, d3: usize) -> (r: Self)
        requires
            d0 * d1 * d2 * d3 <= usize::MAX,
            d0 * d1 * d2 <= usize::MAX,
            d0 * d1 <= usize::MAX,
        ensures
            r.shaped(d0 as int, d1 as int, d2 as int, d3 as int),
            forall|a: int, b: int, c: int, d: int|
                0 <= a < d0 && 0 <= b < d1 && 0 <= c < d2 && 0 <= d < d3 ==> #[trigger] r.at(
                    a,
                    b,
                    c,
                    d,
                ) == F::nil(),
    {
        let n: usize = d0 * d1 * d2 * d3;
        let r = Tensor4 { d0, d1, d2, d3, data: zero_vec(n) };
        assert forall|a: int, b: int, c: int, d: int|
            0 <= a < d0 && 0 <= b < d1 && 0 <= c < d2 && 0 <= d < d3 implies #[trigger] r.at(
            a,
            b,
            c,
            d,
        ) == F::nil() by {
            r.lemma_at_is_data(a, b, c, d);
        }
        r
    }

    /// An array of zeros with the extents of this one.
    pub fn zeros_like(&self) -> (r: Self)
        requires
            self.wf(),
        ensures
            r.shaped(self.d0 as int, self.d1 as int, self.d2 as int, self.d3 as int),
            forall|a: int, b: int, c: int, d: int|
                0 <= a < self.d0 && 0 <= b < self.d1 && 0 <= c < self.d2 && 0 <= d < self.d3
                    ==> #[trigger] r.at(a, b, c, d) == F::nil(),
    {
        let r = Tensor4 {
            d0: self.d0,
            d1: self.d1,
            d2: self.d2,
            d3: self.d3,
            data: zero_vec(self.data.len()),
        };
        assert forall|a: int, b: int, c: int, d: int|
            0 <= a < self.d0 && 0 <= b < self.d1 && 0 <= c < self.d2 && 0 <= d
                < self.d3 implies #[trigger] r.at(a, b, c, d) == F::nil() by {
            r.lemma_at_is_data(a, b, c, d);
        }
        r
    }

    /// The element at `(a, b, c, d)`.
    pub fn get(&self, a: usize, b: usize, c: usize, d: usize) -> (r: F)
        requires
            self.wf(),
            a < self.d0,
            b < self.d1,
            c < self.d2,
            d < self.d3,
        ensures
            r == self.at(a as int, b as int, c as int, d as int),
    {
        proof {
            index::lemma_flat4_bound(
                self.d0 as int,
                self.d1 as int,
                self.d2 as int,
                self.d3 as int,
                a as int,
                b as int,
                c as int,
                d as int,
            );
        }
        self.data[((a * self.d1 + b) * self.d2 + c) * self.d3 + d]
    }

    /// Replaces the element at `(a, b, c, d)`.
    pub fn set(&mut self, a: usize, b: usize, c: usize, d: usize, x: F)
        requires
            old(self).wf(),
            a < old(self).d0,
            b < old(self).d1,
            c < old(self).d2,
            d < old(self).d3,
        ensures
            final(self).shaped(
                old(self).d0 as int,
                old(self).d1 as int,
                old(self).d2 as int,
                old(self).d3 as int,
            ),
            final(self).at(a as int, b as int, c as int, d as int) == x,
            forall|a2: int, b2: int, c2: int, d2: int|
                0 <= a2 < old(self).d0 && 0 <= b2 < old(self).d1 && 0 <= c2 < old(self).d2 && 0
                    <= d2 < old(self).d3 && !(a2 == a && b2 == b && c2 == c && d2 == d)
                    ==> #[trigger] final(self).at(a2, b2, c2, d2) == old(self).at(a2, b2, c2, d2),
    {
        let ghost (x0, x1, x2, x3) = (
            self.d0 as int,
            self.d1 as int,
            self.d2 as int,
            self.d3 as int,
        );
        proof {
            index::lemma_flat4_bound(x0, x1, x2, x3, a as int, b as int, c as int, d as int);
        }
        let p: usize = ((a * self.d1 + b) * self.d2 + c) * self.d3 + d;
        self.data.set(p, x);
        proof {
            assert forall|a2: int, b2: int, c2: int, d2: int|
                0 <= a2 < x0 && 0 <= b2 < x1 && 0 <= c2 < x2 && 0 <= d2 < x3 && !(a2 == a && b2
                    == b && c2 == c && d2 == d) implies #[trigger] self.at(a2, b2, c2, d2) == old(
                self,
            ).at(a2, b2, c2, d2) by {
                index::lemma_flat4_bound(x0, x1, x2, x3, a2, b2, c2, d2);
                if index::flat4(x1, x2, x3, a2, b2, c2, d2) == p {
                    index::lemma_flat4_injective(
                        x1,
                        x2,
                        x3,
                        a as int,
                        b as int,
                        c as int,
                        d as int,
                        a2,
                        b2,
                        c2,
                        d2,
                    );
                }
            }
        }
    }

    /// The matrix at `(a, b)`.
    pub fn head_matrix(&self, a: usize, b: usize) -> (r: Matrix<F>)
        requires
            self.wf(),
            a < self.d0,
            b < self.d1,
        ensures
            r.shaped(self.d2 as int, self.d3 as int),
            forall|i: int, j: int|
                0 <= i < self.d2 && 0 <= j < self.d3 ==> #[trigger] r.at(i, j) == self.at(
                    a as int,
                    b as int,
                    i,
                    j,
                ),
    {
        proof {
            index::lemma_block_fits(
                self.d0 as int,
                self.d1 as int,
                self.d2 as int,
                self.d3 as int,
            );
        }
        let mut r = Matrix::zeros(self.d2, self.d3);
        for i in 0..self.d2
            invariant
                self.wf(),
                a < self.d0,
                b < self.d1,
                r.shaped(self.d2 as int, self.d3 as int),
                forall|x: int, y: int|
                    0 <= x < i && 0 <= y < self.d3 ==> #[trigger] r.at(x, y) == self.at(
                        a as int,
                        b as int,
                        x,
                        y,
                    ),
        {
            for j in 0..self.d3
                invariant
                    self.wf(),
                    a < self.d0,
                    b < self.d1,
                    i < self.d2,
                    r.shaped(self.d2 as int, self.d3 as int),
                    forall|x: int, y: int|
                        0 <= y < self.d3 && (0 <= x < i || (x == i && y < j)) ==> #[trigger] r.at(
                            x,
                            y,
                        ) == self.at(a as int, b as int, x, y),
            {
                r.set(i, j, self.get(a, b, i, j));
            }
        }
        r
    }

    /// Replaces the matrix at `(a, b)`.
    pub fn set_head(&mut self, a: usize, b: usize, m: &Matrix<F>)
        requires
            old(self).wf(),
            a < old(self).d0,
            b < old(self).d1,
            m.shaped(old(self).d2 as int, old(self).d3 as int),
        ensures
            final(self).shaped(
                old(self).d0 as int,
                old(self).d1 as int,
                old(self).d2 as int,
                old(self).d3 as int,
            ),
            forall|i: int, j: int|
                0 <= i < old(self).d2 && 0 <= j < old(self).d3 ==> #[trigger] final(self).at(
                    a as int,
                    b as int,
                    i,
                    j,
                ) == m.at(i, j),
            forall|x: int, y: int, i: int, j: int|
                0 <= x < old(self).d0 && 0 <= y < old(self).d1 && 0 <= i < old(self).d2 && 0 <= j
                    < old(self).d3 && !(x == a && y == b) ==> #[trigger] final(self).at(x, y, i, j)
                    == old(self).at(x, y, i, j),
    {
        for i in 0..m.rows
            invariant
                a < self.d0,
                b < self.d1,
                self.shaped(
                    old(self).d0 as int,
                    old(self).d1 as int,
                    old(self).d2 as int,
                    old(self).d3 as int,
                ),
                m.shaped(old(self).d2 as int, old(self).d3 as int),
                forall|x: int, y: int|
                    0 <= x < i && 0 <= y < m.cols ==> #[trigger] self.at(a as int, b as int, x, y)
                        == m.at(x, y),
                forall|x: int, y: int, p: int, q: int|
                    0 <= x < old(self).d0 && 0 <= y < old(self).d1 && 0 <= p < old(self).d2 && 0
                        <= q < old(self).d3 && !(x == a && y == b) ==> #[trigger] self.at(
                        x,
                        y,
                        p,
                        q,
                    ) == old(self).at(x, y, p, q),
        {
            for j in 0..m.cols
                invariant
                    a < self.d0,
                    b < self.d1,
                    i < m.rows,
                    self.shaped(
                        old(self).d0 as int,
                        old(self).d1 as int,
                        old(self).d2 as int,
                        old(self).d3 as int,
                    ),
                    m.shaped(old(self).d2 as int, old(self).d3 as int),
                    forall|x: int, y: int|
                        0 <= y < m.cols && (0 <= x < i || (x == i && y < j))
                            ==> #[trigger] self.at(a as int, b as int, x, y) == m.at(x, y),
                    forall|x: int, y: int, p: int, q: int|
                        0 <= x < old(self).d0 && 0 <= y < old(self).d1 && 0 <= p < old(self).d2
                            && 0 <= q < old(self).d3 && !(x == a && y == b) ==> #[trigger] self.at(
                            x,
                            y,
                            p,
                            q,
                        ) == old(self).at(x, y, p, q),
            {
                self.set(a, b, i, j, m.get(i, j));
            }
        }
    }

    /// Replaces the rows `start .. start + n` of the matrix at `(a, b)` by the first `n` rows of
    /// `m`.
    pub fn set_rows(&mut self, a: usize, b: usize, start: usize, n: usize, m: &Matrix<F>)
        requires
            old(self).wf(),
            a < old(self).d0,
            b < old(self).d1,
            start + n <= old(self).d2,
            m.wf(),
            n <= m.rows,
            m.cols == old(self).d3,
        ensures
            final(self).shaped(
                old(self).d0 as int,
                old(self).d1 as int,
                old(self).d2 as int,
                old(self).d3 as int,
            ),
            forall|x: int, y: int, i: int, j: int|
                0 <= x < old(self).d0 && 0 <= y < old(self).d1 && 0 <= i < old(self).d2 && 0 <= j
                    < old(self).d3 ==> #[trigger] final(self).at(x, y, i, j) == (if x == a && y == b
                    && start <= i < start + n {
                    m.at(i - start, j)
                } else {
                    old(self).at(x, y, i, j)
                }),
    {
        for r in 0..n
            invariant
                a < self.d0,
                b < self.d1,
                start + n <= self.d2,
                n <= m.rows,
                m.wf(),
                m.cols == self.d3,
                self.shaped(
                    old(self).d0 as int,
                    old(self).d1 as int,
                    old(self).d2 as int,
                    old(self).d3 as int,
                ),
                forall|x: int, y: int, i: int, j: int|
                    0 <= x < self.d0 && 0 <= y < self.d1 && 0 <= i < self.d2 && 0 <= j < self.d3
                        ==> #[trigger] self.at(x, y, i, j) == (if x == a && y == b && start <= i
                        < start + r {
                        m.at(i - start, j)
                    } else {
                        old(self).at(x, y, i, j)
                    }),
        {
            for c in 0..m.cols
                invariant
                    a < self.d0,
                    b < self.d1,
                    start + n <= self.d2,
                    n <= m.rows,
                    r < n,
                    m.wf(),
                    m.cols == self.d3,
                    self.shaped(
                        old(self).d0 as int,
                        old(self).d1 as int,
                        old(self).d2 as int,
                        old(self).d3 as int,
                    ),
                    forall|x: int, y: int, i: int, j: int|
                        0 <= x < self.d0 && 0 <= y < self.d1 && 0 <= i < self.d2 && 0 <= j < self.d3
                            ==> #[trigger] self.at(x, y, i, j) == (if x == a && y == b && start <= i
                            && (i < start + r || (i == start + r && j < c)) {
                            m.at(i - start, j)
                        } else {
                            old(self).at(x, y, i, j)
                        }),
            {
                self.set(a, b, start + r, c, m.get(r, c));
            }
        }
    }

    /// The same elements, with the heads of all batches counted through and each cut into `nt`
    /// blocks of `c` rows.
    pub fn to_blocks(&self, nt: usize, c: usize) -> (r: Tensor3<F>)
        requires
            self.wf(),
            self.d2 == nt * c,
            self.d0 * self.d1 * nt <= usize::MAX,
            self.d0 * self.d1 <= usize::MAX,
        ensures
            r.shaped(self.d0 * self.d1 * nt, c as int, self.d3 as int),
            forall|a: int, b: int, t: int, x: int, i: int|
                0 <= a < self.d0 && 0 <= b < self.d1 && 0 <= t < nt && 0 <= x < c && 0 <= i
                    < self.d3 ==> #[trigger] r.at(
                    index::flat2(nt as int, index::flat2(self.d1 as int, a, b), t),
                    x,
                    i,
                ) == self.at(a, b, t * c + x, i),
    {
        proof {
            let (p, n, k, d) = (self.d0 * self.d1, nt as int, c as int, self.d3 as int);
            assert(p * n * k * d == p * (n * k) * d) by (nonlinear_arith);
        }
        let r = Tensor3 {
            d0: self.d0 * self.d1 * nt,
            d1: c,
            d2: self.d3,
            data: copy_vec(&self.data),
        };
        assert forall|a: int, b: int, t: int, x: int, i: int|
            0 <= a < self.d0 && 0 <= b < self.d1 && 0 <= t < nt && 0 <= x < c && 0 <= i
                < self.d3 implies #[trigger] r.at(
            index::flat2(nt as int, index::flat2(self.d1 as int, a, b), t),
            x,
            i,
        ) == self.at(a, b, t * c + x, i) by {
            index::lemma_block_position(
                self.d1 as int,
                nt as int,
                c as int,
                self.d3 as int,
                a,
                b,
                t,
                x,
                i,
            );
        }
        r
    }

    /// The inverse of `to_blocks`: `d0` batches of `d1` heads of `nt` blocks.
    pub fn from_blocks(r: &Tensor3<F>, d0: usize, d1: usize, nt: usize) -> (t: Self)
        requires
            r.wf(),
            r.d0 == d0 * d1 * nt,
            nt * r.d1 <= usize::MAX,
        ensures
            t.shaped(d0 as int, d1 as int, nt * r.d1, r.d2 as int),
            forall|a: int, b: int, n: int, x: int, i: int|
                0 <= a < d0 && 0 <= b < d1 && 0 <= n < nt && 0 <= x < r.d1 && 0 <= i < r.d2
                    ==> t.at(a, b, n * r.d1 + x, i) == #[trigger] r.at(
                    index::flat2(nt as int, index::flat2(d1 as int, a, b), n),
                    x,
                    i,
                ),
    {
        proof {
            let (p, n, k, d) = (d0 * d1, nt as int, r.d1 as int, r.d2 as int);
            assert(p * n * k * d == p * (n * k) * d) by (nonlinear_arith);
        }
        let t = Tensor4 { d0, d1, d2: nt * r.d1, d3: r.d2, data: copy_vec(&r.data) };
        assert forall|a: int, b: int, n: int, x: int, i: int|
            0 <= a < d0 && 0 <= b < d1 && 0 <= n < nt && 0 <= x < r.d1 && 0 <= i
                < r.d2 implies t.at(a, b, n * r.d1 + x, i) == #[trigger] r.at(
            index::flat2(nt as int, index::flat2(d1 as int, a, b), n),
            x,
            i,
        ) by {
            index::lemma_block_position(
                d1 as int,
                nt as int,
                r.d1 as int,
                r.d2 as int,
                a,
                b,
                n,
                x,
                i,
            );
        }
        t
    }

    /// A copy.
    pub fn copy(&self) -> (r: Self)
        requires
            self.wf(),
        ensures
            r.shaped(self.d0 as int, self.d1 as int, self.d2 as int, self.d3 as int),
            forall|a: int, b: int, c: int, d: int|
                0 <= a < self.d0 && 0 <= b < self.d1 && 0 <= c < self.d2 && 0 <= d < self.d3
                    ==> #[trigger] r.at(a, b, c, d) == self.at(a, b, c, d),
    {
        Tensor4 {
            d0: self.d0,
            d1: self.d1,
            d2: self.d2,
            d3: self.d3,
            data: copy_vec(&self.data),
        }
    }
}

} // verus!
