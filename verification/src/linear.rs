//! Linear layers.

use vstd::prelude::*;

use crate::algebra;
use crate::rows::RowMap;
use crate::scalar;
use crate::scalar::Scalar;
use crate::tensor::Matrix;

verus! {

/// A linear layer: `y = x W`, or `y = x W + b`.
pub struct Linear<F> {
    /// `[inputs, outputs]`.
    pub weight: Matrix<F>,
    /// `[outputs]`.
    pub bias: Option<Vec<F>>,
}

impl<F: Scalar> Linear<F> {
    /// The layer has these extents.
    pub open spec fn shaped(self, inputs: int, outputs: int) -> bool {
        &&& self.weight.shaped(inputs, outputs)
        &&& self.bias matches Some(b) ==> b@.len() == outputs
    }

    /// Output `o` for the input `row`.
    pub open spec fn value(self, row: Seq<F>, o: int) -> F {
        let y = scalar::total(
            self.weight.rows as int,
            |i: int| row[i].times(self.weight.at(i, o)),
        );
        match self.bias {
            Some(b) => y.plus(b@[o]),
            None => y,
        }
    }
}

impl<F: Scalar> RowMap<F> for Linear<F> {
    open spec fn takes(&self, n: int) -> bool {
        self.shaped(n, self.weight.cols as int)
    }

    open spec fn width(&self, n: int) -> int {
        self.weight.cols as int
    }

    open spec fn mapped(&self, row: Seq<F>, c: int) -> F {
        self.value(row, c)
    }

    fn apply(&self, row: &Vec<F>) -> (r: Vec<F>) {
        let mut r: Vec<F> = Vec::new();
        for o in 0..self.weight.cols
            invariant
                self.shaped(row@.len() as int, self.weight.cols as int),
                r@.len() == o,
                forall|c: int| 0 <= c < o ==> #[trigger] r@[c] == self.value(row@, c),
        {
            let ghost f = |i: int| row@[i].times(self.weight.at(i, o as int));
            let mut y = F::zero();
            for i in 0..row.len()
                invariant
                    self.shaped(row@.len() as int, self.weight.cols as int),
                    o < self.weight.cols,
                    f == (|i: int| row@[i].times(self.weight.at(i, o as int))),
                    y == scalar::total(i as int, f),
            {
                y = y.add(row[i].mul(self.weight.get(i, o)));
            }
            proof {
                algebra::lemma_total_eq(
                    row@.len() as int,
                    f,
                    |i: int| row@[i].times(self.weight.at(i, o as int)),
                );
            }
            match &self.bias {
                Some(b) => r.push(y.add(b[o])),
                None => r.push(y),
            }
        }
        r
    }
}

} // verus!
