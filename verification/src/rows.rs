//! Maps that act on the last dimension of an array, row by row.

use vstd::prelude::*;

use crate::scalar::Scalar;
use crate::tensor::{Tensor3, Tensor4};

verus! {

/// A map from rows to rows.
pub trait RowMap<F: Scalar> {
    /// Whether the map takes rows of length `n`.
    spec fn takes(&self, n: int) -> bool;

    /// The length of the image of a row of length `n`.
    spec fn width(&self, n: int) -> int;

    /// Element `c` of the image of `row`.
    spec fn mapped(&self, row: Seq<F>, c: int) -> F;

    /// The image of a row.
    fn apply(&self, row: &Vec<F>) -> (r: Vec<F>)
        requires
            self.takes(row@.len() as int),
        ensures
            r@.len() == self.width(row@.len() as int),
            forall|c: int| 0 <= c < r@.len() ==> #[trigger] r@[c] == self.mapped(row@, c),
    ;
}

/// The image of a row.
pub open spec fn image<F: Scalar, M: RowMap<F>>(m: M, row: Seq<F>) -> Seq<F> {
    Seq::new(m.width(row.len() as int) as nat, |c: int| m.mapped(row, c))
}

impl<F: Scalar> Tensor3<F> {
    /// Row `(a, b)`.
    pub open spec fn row(self, a: int, b: int) -> Seq<F> {
        Seq::new(self.d2 as nat, |c: int| self.at(a, b, c))
    }

    /// Row `(a, b)`.
    pub fn get_row(&self, a: usize, b: usize) -> (r: Vec<F>)
        requires
            self.wf(),
            a < self.d0,
            b < self.d1,
        ensures
            r@ == self.row(a as int, b as int),
    {
        let mut r: Vec<F> = Vec::new();
        for c in 0..self.d2
            invariant
                self.wf(),
                a < self.d0,
                b < self.d1,
                r@.len() == c,
                forall|i: int| 0 <= i < c ==> #[trigger] r@[i] == self.at(a as int, b as int, i),
        {
            r.push(self.get(a, b, c));
        }
        assert(r@ =~= self.row(a as int, b as int));
        r
    }

    /// Replaces row `(a, b)`.
    pub fn set_row(&mut self, a: usize, b: usize, row: &Vec<F>)
        requires
            old(self).wf(),
            a < old(self).d0,
            b < old(self).d1,
            row@.len() == old(self).d2,
        ensures
            final(self).shaped(old(self).d0 as int, old(self).d1 as int, old(self).d2 as int),
            final(self).row(a as int, b as int) == row@,
            forall|x: int, y: int|
                0 <= x < old(self).d0 && 0 <= y < old(self).d1 && !(x == a && y == b)
                    ==> #[trigger] final(self).row(x, y) == old(self).row(x, y),
    {
        let ghost before = *self;
        let n: usize = row.len();
        for c in 0..n
            invariant
                n == before.d2,
                self.shaped(before.d0 as int, before.d1 as int, before.d2 as int),
                before.wf(),
                a < self.d0,
                b < self.d1,
                row@.len() == before.d2,
                forall|i: int| 0 <= i < c ==> #[trigger] self.at(a as int, b as int, i) == row@[i],
                forall|x: int, y: int, i: int|
                    0 <= x < before.d0 && 0 <= y < before.d1 && 0 <= i < before.d2 && !(x == a && y
                        == b) ==> #[trigger] self.at(x, y, i) == before.at(x, y, i),
        {
            self.set(a, b, c, row[c]);
        }
        proof {
            assert(self.row(a as int, b as int) =~= row@);
            assert forall|x: int, y: int|
                0 <= x < before.d0 && 0 <= y < before.d1 && !(x == a && y
                    == b) implies #[trigger] self.row(x, y) == before.row(x, y) by {
                assert(self.row(x, y) =~= before.row(x, y));
            }
        }
    }

    /// The images of all rows.
    pub fn map_rows<M: RowMap<F>>(&self, m: &M, width: usize) -> (r: Self)
        requires
            self.wf(),
            m.takes(self.d2 as int),
            width == m.width(self.d2 as int),
            self.d0 * self.d1 <= usize::MAX,
            self.d0 * self.d1 * width <= usize::MAX,
        ensures
            r.shaped(self.d0 as int, self.d1 as int, width as int),
            forall|a: int, b: int|
                0 <= a < self.d0 && 0 <= b < self.d1 ==> #[trigger] r.row(a, b) == image(
                    *m,
                    self.row(a, b),
                ),
    {
        let mut r = Tensor3::<F>::zeros(self.d0, self.d1, width);
        for a in 0..self.d0
            invariant
                self.wf(),
                m.takes(self.d2 as int),
                width == m.width(self.d2 as int),
                r.shaped(self.d0 as int, self.d1 as int, width as int),
                forall|x: int, y: int|
                    0 <= x < a && 0 <= y < self.d1 ==> #[trigger] r.row(x, y) == image(
                        *m,
                        self.row(x, y),
                    ),
        {
            for b in 0..self.d1
                invariant
                    self.wf(),
                    a < self.d0,
                    m.takes(self.d2 as int),
                    width == m.width(self.d2 as int),
                    r.shaped(self.d0 as int, self.d1 as int, width as int),
                    forall|x: int, y: int|
                        0 <= y < self.d1 && (0 <= x < a || (x == a && y < b))
                            ==> #[trigger] r.row(x, y) == image(*m, self.row(x, y)),
            {
                let row = m.apply(&self.get_row(a, b));
                assert(row@ =~= image(*m, self.row(a as int, b as int)));
                r.set_row(a, b, &row);
            }
        }
        r
    }
}

impl<F: Scalar> Tensor4<F> {
    /// Row `(a, b, c)`.
    pub open spec fn row(self, a: int, b: int, c: int) -> Seq<F> {
        Seq::new(self.d3 as nat, |d: int| self.at(a, b, c, d))
    }

    /// Row `(a, b, c)`.
    pub fn get_row(&self, a: usize, b: usize, c: usize) -> (r: Vec<F>)
        requires
            self.wf(),
            a < self.d0,
            b < self.d1,
            c < self.d2,
        ensures
            r@ == self.row(a as int, b as int, c as int),
    {
        let mut r: Vec<F> = Vec::new();
        for d in 0..self.d3
            invariant
                self.wf(),
                a < self.d0,
                b < self.d1,
                c < self.d2,
                r@.len() == d,
                forall|i: int|
                    0 <= i < d ==> #[trigger] r@[i] == self.at(a as int, b as int, c as int, i),
        {
            r.push(self.get(a, b, c, d));
        }
        assert(r@ =~= self.row(a as int, b as int, c as int));
        r
    }

    /// Replaces row `(a, b, c)`.
    pub fn set_row(&mut self, a: usize, b: usize, c: usize, row: &Vec<F>)
        requires
            old(self).wf(),
            a < old(self).d0,
            b < old(self).d1,
            c < old(self).d2,
            row@.len() == old(self).d3,
        ensures
            final(self).shaped(
                old(self).d0 as int,
                old(self).d1 as int,
                old(self).d2 as int,
                old(self).d3 as int,
            ),
            final(self).row(a as int, b as int, c as int) == row@,
            forall|x: int, y: int, z: int|
                0 <= x < old(self).d0 && 0 <= y < old(self).d1 && 0 <= z < old(self).d2 && !(x == a
                    && y == b && z == c) ==> #[trigger] final(self).row(x, y, z) == old(self).row(
                    x,
                    y,
                    z,
                ),
    {
        let ghost before = *self;
        let n: usize = row.len();
        for d in 0..n
            invariant
                n == before.d3,
                self.shaped(
                    before.d0 as int,
                    before.d1 as int,
                    before.d2 as int,
                    before.d3 as int,
                ),
                before.wf(),
                a < self.d0,
                b < self.d1,
                c < self.d2,
                row@.len() == before.d3,
                forall|i: int|
                    0 <= i < d ==> #[trigger] self.at(a as int, b as int, c as int, i) == row@[i],
                forall|x: int, y: int, z: int, i: int|
                    0 <= x < before.d0 && 0 <= y < before.d1 && 0 <= z < before.d2 && 0 <= i
                        < before.d3 && !(x == a && y == b && z == c) ==> #[trigger] self.at(
                        x,
                        y,
                        z,
                        i,
                    ) == before.at(x, y, z, i),
        {
            self.set(a, b, c, d, row[d]);
        }
        proof {
            assert(self.row(a as int, b as int, c as int) =~= row@);
            assert forall|x: int, y: int, z: int|
                0 <= x < before.d0 && 0 <= y < before.d1 && 0 <= z < before.d2 && !(x == a && y == b
                    && z == c) implies #[trigger] self.row(x, y, z) == before.row(x, y, z) by {
                assert(self.row(x, y, z) =~= before.row(x, y, z));
            }
        }
    }

    /// The images of all rows, for a map that keeps their length.
    pub fn map_rows<M: RowMap<F>>(&self, m: &M) -> (r: Self)
        requires
            self.wf(),
            m.takes(self.d3 as int),
            m.width(self.d3 as int) == self.d3,
        ensures
            r.shaped(self.d0 as int, self.d1 as int, self.d2 as int, self.d3 as int),
            forall|a: int, b: int, c: int|
                0 <= a < self.d0 && 0 <= b < self.d1 && 0 <= c < self.d2 ==> #[trigger] r.row(
                    a,
                    b,
                    c,
                ) == image(*m, self.row(a, b, c)),
    {
        let mut r = self.zeros_like();
        for a in 0..self.d0
            invariant
                self.wf(),
                m.takes(self.d3 as int),
                m.width(self.d3 as int) == self.d3,
                r.shaped(self.d0 as int, self.d1 as int, self.d2 as int, self.d3 as int),
                forall|x: int, y: int, z: int|
                    0 <= x < a && 0 <= y < self.d1 && 0 <= z < self.d2 ==> #[trigger] r.row(
                        x,
                        y,
                        z,
                    ) == image(*m, self.row(x, y, z)),
        {
            for b in 0..self.d1
                invariant
                    self.wf(),
                    a < self.d0,
                    m.takes(self.d3 as int),
                    m.width(self.d3 as int) == self.d3,
                    r.shaped(self.d0 as int, self.d1 as int, self.d2 as int, self.d3 as int),
                    forall|x: int, y: int, z: int|
                        0 <= y < self.d1 && (0 <= x < a || (x == a && y < b)) && 0 <= z < self.d2
                            ==> #[trigger] r.row(x, y, z) == image(*m, self.row(x, y, z)),
            {
                for c in 0..self.d2
                    invariant
                        self.wf(),
                        a < self.d0,
                        b < self.d1,
                        m.takes(self.d3 as int),
                        m.width(self.d3 as int) == self.d3,
                        r.shaped(self.d0 as int, self.d1 as int, self.d2 as int, self.d3 as int),
                        forall|x: int, y: int, z: int|
                            0 <= y < self.d1 && 0 <= z < self.d2 && (0 <= x < a || (x == a && (y < b
                                || (y == b && z < c)))) ==> #[trigger] r.row(x, y, z) == image(
                                *m,
                                self.row(x, y, z),
                            ),
                {
                    let row = m.apply(&self.get_row(a, b, c));
                    assert(row@ =~= image(*m, self.row(a as int, b as int, c as int)));
                    r.set_row(a, b, c, &row);
                }
            }
        }
        r
    }
}

} // verus!
