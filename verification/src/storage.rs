//! Dense storage for a grid of bounds: one vector, row after row.

use vstd::prelude::*;
use crate::bound::Bound;
use crate::constant::Constant;
use crate::matrix::{lemma_ext, lemma_new, lemma_set, Matrix};

verus! {

/// Entry `(i, j)` of a grid with rows of length `dim` has a place in the
/// vector, below `dim * dim`.
pub proof fn lemma_index_in_range(i: int, j: int, dim: int)
    requires
        0 <= i < dim,
        0 <= j < dim,
    ensures
        0 <= i * dim + j < dim * dim,
        i * dim <= dim * dim,
{
    assert(0 <= i * dim) by (nonlinear_arith)
        requires
            0 <= i,
            0 < dim,
    ;
    assert(i * dim + dim <= dim * dim) by (nonlinear_arith)
        requires
            i + 1 <= dim,
            0 < dim,
    ;
}

/// No two entries share a place in the vector.
pub proof fn lemma_index_injective(i: int, j: int, a: int, b: int, dim: int)
    requires
        0 <= j < dim,
        0 <= b < dim,
        i * dim + j == a * dim + b,
    ensures
        i == a,
        j == b,
{
    assert(i == a) by (nonlinear_arith)
        requires
            0 <= j < dim,
            0 <= b < dim,
            i * dim + j == a * dim + b,
    ;
}

/// A square grid of bounds over `dim` clocks.
pub struct Store<T: Constant> {
    dim: usize,
    cells: Vec<Bound<T>>,
}

impl<T: Constant> Clone for Store<T> {
    /// A copy that holds the same grid.
    fn clone(&self) -> (r: Self)
        ensures
            r.wf() == self.wf(),
            r.grid() == self.grid(),
    {
        let len: usize = self.cells.len();
        let mut cells: Vec<Bound<T>> = Vec::with_capacity(len);
        let mut n: usize = 0;
        while n < len
            invariant
                len == self.cells.len(),
                n <= len,
                cells.len() == n,
                forall|p: int| 0 <= p < n ==> #[trigger] cells@[p] == self.cells@[p],
            decreases len - n,
        {
            cells.push(self.cells[n]);
            n += 1;
        }
        let copy = Store { dim: self.dim, cells };
        proof {
            assert(copy.cells@ =~= self.cells@);
            lemma_new(self.dim as nat, |i: int, j: int| self.cells@[i * self.dim + j]@);
            lemma_new(copy.dim as nat, |i: int, j: int| copy.cells@[i * copy.dim + j]@);
            lemma_ext(copy.grid(), self.grid());
        }
        copy
    }
}

impl<T: Constant> Store<T> {
    /// The vector holds `dim * dim` bounds, for at least one clock.
    pub closed spec fn wf(&self) -> bool {
        &&& self.dim >= 1
        &&& self.cells.len() == self.dim * self.dim
    }

    /// The grid that is stored.
    pub closed spec fn grid(&self) -> Matrix {
        Matrix::new(self.dim as nat, |i: int, j: int| self.cells@[i * self.dim + j]@)
    }

    /// A store holds a grid of `T`.
    pub proof fn lemma_grid(&self)
        requires
            self.wf(),
        ensures
            self.grid().wf::<T>(),
    {
        let g = self.grid();
        lemma_new(self.dim as nat, |i: int, j: int| self.cells@[i * self.dim + j]@);
        assert forall|i: int, j: int| 0 <= i < g.dim() && 0 <= j < g.dim() implies (#[trigger] g.at(
            i,
            j,
        )).fits::<T>() by {
            self.cells@[i * self.dim + j].lemma_fits();
        }
    }

    /// A grid over `dim` clocks with `bound` in every entry; `None` where
    /// `dim` is 0 or `dim * dim` is more than a `usize` holds.
    pub fn filled(dim: usize, bound: Bound<T>) -> (r: Option<Self>)
        ensures
            r is Some <==> 1 <= dim && dim * dim <= usize::MAX,
            r matches Some(s) ==> s.wf() && s.grid().wf::<T>() && s.grid() == Matrix::new(
                dim as nat,
                |i: int, j: int| bound@,
            ),
    {
        if dim == 0 {
            return None;
        }
        let len: usize = match dim.checked_mul(dim) {
            Some(len) => len,
            None => {
                return None;
            },
        };
        let mut cells: Vec<Bound<T>> = Vec::with_capacity(len);
        let mut n: usize = 0;
        while n < len
            invariant
                n <= len,
                cells.len() == n,
                forall|p: int| 0 <= p < n ==> (#[trigger] cells@[p])@ == bound@,
            decreases len - n,
        {
            cells.push(bound);
            n += 1;
        }
        let store = Store { dim, cells };
        proof {
            let f = |i: int, j: int| store.cells@[i * store.dim + j]@;
            let g = |i: int, j: int| bound@;
            lemma_new(dim as nat, f);
            lemma_new(dim as nat, g);
            assert forall|i: int, j: int| 0 <= i < dim && 0 <= j < dim implies #[trigger] store.grid().at(
                i,
                j,
            ) == Matrix::new(dim as nat, g).at(i, j) by {
                lemma_index_in_range(i, j, dim as int);
            }
            lemma_ext(store.grid(), Matrix::new(dim as nat, g));
            store.lemma_grid();
        }
        Some(store)
    }

    /// The number of clocks.
    pub fn dim(&self) -> (r: usize)
        requires
            self.wf(),
        ensures
            r == self.grid().dim(),
            r >= 1,
            self.grid().wf::<T>(),
    {
        proof {
            self.lemma_grid();
        }
        self.dim
    }

    /// The bound on `x_i - x_j`.
    pub fn get(&self, i: usize, j: usize) -> (r: Bound<T>)
        requires
            self.wf(),
            i < self.grid().dim(),
            j < self.grid().dim(),
        ensures
            r@ == self.grid().at(i as int, j as int),
    {
        proof {
            lemma_index_in_range(i as int, j as int, self.dim as int);
        }
        self.cells[i * self.dim + j]
    }

    /// Replaces the bound on `x_i - x_j`.
    pub fn set(&mut self, i: usize, j: usize, bound: Bound<T>)
        requires
            old(self).wf(),
            i < old(self).grid().dim(),
            j < old(self).grid().dim(),
        ensures
            final(self).wf(),
            final(self).grid() == old(self).grid().set(i as int, j as int, bound@),
            final(self).grid().wf::<T>(),
            final(self).grid().dim() == old(self).grid().dim(),
            forall|a: int, b: int|
                0 <= a < old(self).grid().dim() && 0 <= b < old(self).grid().dim()
                    ==> #[trigger] final(self).grid().at(a, b) == (if a == i && b == j {
                    bound@
                } else {
                    old(self).grid().at(a, b)
                }),
    {
        proof {
            lemma_index_in_range(i as int, j as int, self.dim as int);
        }
        let ghost before = *self;
        self.cells.set(i * self.dim + j, bound);
        proof {
            let dim = self.dim as int;
            let after = self.grid();
            let expected = before.grid().set(i as int, j as int, bound@);
            lemma_new(self.dim as nat, |a: int, b: int| self.cells@[a * self.dim + b]@);
            lemma_new(before.dim as nat, |a: int, b: int| before.cells@[a * before.dim + b]@);
            lemma_set(before.grid(), i as int, j as int, bound@);
            assert forall|a: int, b: int| 0 <= a < dim && 0 <= b < dim implies #[trigger] after.at(
                a,
                b,
            ) == expected.at(a, b) by {
                lemma_index_in_range(a, b, dim);
                if a * dim + b == i * dim + j {
                    lemma_index_injective(a, b, i as int, j as int, dim);
                }
            }
            lemma_ext(after, expected);
            self.lemma_grid();
        }
    }
}

} // verus!
