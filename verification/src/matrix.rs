//! The mathematical model of a difference bound matrix: a square grid of
//! limits, entry `(i, j)` being the limit on `x_i - x_j`, and the operations
//! on zones as functions from grids to grids.

use vstd::prelude::*;
use crate::constant::Constant;
use crate::limit::Limit;

verus! {

/// A grid of limits, row by row. Clock 0 is the reference clock, whose value
/// is always 0, so row 0 holds lower bounds and column 0 upper bounds.
pub struct Matrix {
    pub rows: Seq<Seq<Limit>>,
}

impl Matrix {
    /// The number of clocks, the reference clock included.
    pub open spec fn dim(self) -> nat {
        self.rows.len()
    }

    /// The limit on `x_i - x_j`.
    pub open spec fn at(self, i: int, j: int) -> Limit {
        self.rows[i][j]
    }

    /// The grid of the given size whose entry `(i, j)` is `f(i, j)`.
    pub open spec fn new(dim: nat, f: spec_fn(int, int) -> Limit) -> Matrix {
        Matrix { rows: Seq::new(dim, |i: int| Seq::new(dim, |j: int| f(i, j))) }
    }

    /// Every row is as long as the grid is high.
    pub open spec fn square(self) -> bool {
        forall|i: int| 0 <= i < self.dim() ==> (#[trigger] self.rows[i]).len() == self.dim()
    }

    /// Every entry can be held by the constant type `T`.
    pub open spec fn fits<T: Constant>(self) -> bool {
        forall|i: int, j: int|
            0 <= i < self.dim() && 0 <= j < self.dim() ==> (#[trigger] self.at(i, j)).fits::<T>()
    }

    /// A grid over at least the reference clock, square, with entries of `T`.
    pub open spec fn wf<T: Constant>(self) -> bool {
        &&& self.dim() >= 1
        &&& self.square()
        &&& self.fits::<T>()
    }

    /// Every `x_i - x_i` is limited by `<= 0` exactly.
    pub open spec fn diagonal_zero(self) -> bool {
        forall|i: int| 0 <= i < self.dim() ==> #[trigger] self.at(i, i) == Limit::zero()
    }

    /// The grid with entry `(i, j)` replaced.
    pub open spec fn set(self, i: int, j: int, limit: Limit) -> Matrix {
        Matrix { rows: self.rows.update(i, self.rows[i].update(j, limit)) }
    }

    /// Entry by entry, `self` is at least as tight as `other`.
    pub open spec fn le(self, other: Matrix) -> bool {
        &&& self.dim() == other.dim()
        &&& forall|i: int, j: int|
            0 <= i < self.dim() && 0 <= j < self.dim() ==> (#[trigger] self.at(i, j)).le(
                other.at(i, j),
            )
    }

    /// The canonical form: no entry can be tightened by going through a
    /// third clock, with path lengths added as `T` adds them.
    pub open spec fn is_closed<T: Constant>(self) -> bool {
        forall|i: int, j: int, k: int|
            0 <= i < self.dim() && 0 <= j < self.dim() && 0 <= k < self.dim() ==> self.at(
                i,
                j,
            ).le(#[trigger] self.at(i, k).combine::<T>(self.at(k, j)))
    }

    /// Closed as far as paths through the clocks below `n` go, in exact
    /// arithmetic: no entry is looser than the exact length of a path of
    /// two steps through such a clock.
    pub open spec fn closed_through(self, n: int) -> bool {
        forall|i: int, j: int, k: int|
            0 <= i < self.dim() && 0 <= j < self.dim() && 0 <= k < self.dim() && k < n
                ==> self.at(i, j).le(#[trigger] self.at(i, k).plus(self.at(k, j)))
    }

    /// Closed in exact arithmetic: no entry is looser than the exact length
    /// of a path of two steps.
    pub open spec fn is_closed_exactly(self) -> bool {
        forall|i: int, j: int, k: int|
            0 <= i < self.dim() && 0 <= j < self.dim() && 0 <= k < self.dim() ==> self.at(
                i,
                j,
            ).le(#[trigger] self.at(i, k).plus(self.at(k, j)))
    }

    /// No path of two steps is longer or shorter than `T` can tell: adding
    /// any entry to one it can be followed by needs no saturation.
    pub open spec fn paths_fit<T: Constant>(self) -> bool {
        forall|i: int, j: int, k: int|
            0 <= i < self.dim() && 0 <= j < self.dim() && 0 <= k < self.dim() ==> (
            #[trigger] self.at(i, k).plus(self.at(k, j))).fits::<T>()
    }

    /// The point where every clock is 0.
    pub open spec fn zero(dim: nat) -> Matrix {
        Matrix::new(dim, |i: int, j: int| Limit::zero())
    }

    /// Every valuation with all clocks at or above 0.
    pub open spec fn init(dim: nat) -> Matrix {
        Matrix::new(
            dim,
            |i: int, j: int|
                if i == j || i == 0 {
                    Limit::zero()
                } else {
                    Limit::Infinite
                },
        )
    }

    /// Time may pass: the upper bound of every clock but the reference
    /// clock is dropped.
    pub open spec fn future(self) -> Matrix {
        Matrix::new(
            self.dim(),
            |i: int, j: int|
                if i > 0 && j == 0 {
                    Limit::Infinite
                } else {
                    self.at(i, j)
                },
        )
    }

    /// The lower bound of every clock but the reference clock is reset to
    /// 0; the grid is not closed again.
    pub open spec fn lower_bounds_reset(self) -> Matrix {
        Matrix::new(
            self.dim(),
            |i: int, j: int|
                if i == 0 && j > 0 {
                    Limit::zero()
                } else {
                    self.at(i, j)
                },
        )
    }

    /// Entry `(i, j)` tightened to `limit` where that is tighter; the grid
    /// is not closed again.
    pub open spec fn tighten(self, i: int, j: int, limit: Limit) -> Matrix {
        self.set(i, j, self.at(i, j).min(limit))
    }

    /// `clock` is left with no constraint but the one every clock has
    /// towards the reference clock: its row becomes unbounded and its
    /// column a copy of column 0.
    pub open spec fn free(self, clock: int) -> Matrix {
        Matrix::new(
            self.dim(),
            |i: int, j: int|
                if i == j {
                    self.at(i, j)
                } else if i == clock {
                    Limit::Infinite
                } else if j == clock {
                    self.at(i, 0)
                } else {
                    self.at(i, j)
                },
        )
    }

    /// `clock` is set to `value`: it gets `value` as upper and as lower
    /// bound, and its limits towards the other clocks follow through the
    /// reference clock.
    pub open spec fn assign<T: Constant>(self, clock: int, value: int) -> Matrix {
        let upper = Limit::at_most(value).clamp::<T>();
        let lower = Limit::at_most(-value).clamp::<T>();
        Matrix::new(
            self.dim(),
            |i: int, j: int|
                if i == j {
                    self.at(i, j)
                } else if i == clock {
                    if j == 0 {
                        upper
                    } else {
                        upper.combine::<T>(self.at(0, j))
                    }
                } else if j == clock {
                    if i == 0 {
                        lower
                    } else {
                        self.at(i, 0).combine::<T>(lower)
                    }
                } else {
                    self.at(i, j)
                },
        )
    }

    /// `to` takes the value of `from`: its row and column become copies of
    /// those of `from`.
    pub open spec fn copy(self, to: int, from: int) -> Matrix {
        Matrix::new(
            self.dim(),
            |i: int, j: int|
                if i == j {
                    self.at(i, j)
                } else if i == to {
                    self.at(from, j)
                } else if j == to {
                    self.at(i, from)
                } else {
                    self.at(i, j)
                },
        )
    }

    /// `clock` is moved by `delta`: the constants of its row grow by
    /// `delta`, those of its column shrink by it, and strictness stays.
    pub open spec fn shift<T: Constant>(self, clock: int, delta: int) -> Matrix {
        Matrix::new(
            self.dim(),
            |i: int, j: int|
                if i == j {
                    self.at(i, j)
                } else if i == clock {
                    self.at(i, j).offset::<T>(delta)
                } else if j == clock {
                    self.at(i, j).offset::<T>(-delta)
                } else {
                    self.at(i, j)
                },
        )
    }

    /// Setting `clock` to `value` needs no saturation: the value and its
    /// negative are finite constants of `T`, and so is every sum that the
    /// new row and column hold.
    pub open spec fn assign_fits<T: Constant>(self, clock: int, value: int) -> bool {
        &&& T::lowest() <= value < T::highest()
        &&& T::lowest() <= -value < T::highest()
        &&& forall|k: int|
            0 <= k < self.dim() && k != clock ==> (#[trigger] Limit::at_most(value).plus(
                self.at(0, k),
            )).fits::<T>()
        &&& forall|k: int|
            0 <= k < self.dim() && k != clock ==> (#[trigger] self.at(k, 0).plus(
                Limit::at_most(-value),
            )).fits::<T>()
    }

    /// Moving `clock` by `delta` needs no saturation: every finite limit in
    /// its row, raised by `delta`, and in its column, lowered by `delta`,
    /// fits `T`.
    pub open spec fn shift_fits<T: Constant>(self, clock: int, delta: int) -> bool {
        &&& forall|k: int|
            0 <= k < self.dim() && k != clock && (#[trigger] self.at(clock, k)) is Finite
                ==> T::lowest() <= self.at(clock, k)->constant + delta < T::highest()
        &&& forall|k: int|
            0 <= k < self.dim() && k != clock && (#[trigger] self.at(k, clock)) is Finite
                ==> T::lowest() <= self.at(k, clock)->constant - delta < T::highest()
    }

    /// The grid closed again, in exact arithmetic, after entry `(i, j)` of
    /// a closed grid was tightened to `limit`: every entry is set against
    /// the path that goes to `i`, along the new limit to `j`, and on.
    pub open spec fn tightened_through(self, i: int, j: int, limit: Limit) -> Matrix {
        Matrix::new(
            self.dim(),
            |a: int, b: int| self.at(a, b).min(self.at(a, i).plus(limit).plus(self.at(j, b))),
        )
    }

    /// Closing the grid again after entry `(i, j)` was tightened to `limit`
    /// needs no saturation: every path along the new limit has a length
    /// that fits `T`.
    pub open spec fn tighten_fits<T: Constant>(self, i: int, j: int, limit: Limit) -> bool {
        &&& forall|a: int|
            0 <= a < self.dim() ==> (#[trigger] self.at(a, i).plus(limit)).fits::<T>()
        &&& forall|a: int, b: int|
            0 <= a < self.dim() && 0 <= b < self.dim() ==> (#[trigger] self.at(a, i).plus(
                limit,
            ).plus(self.at(j, b))).fits::<T>()
    }

    /// Whether `x_i - x_j` can still meet `limit`: the limit, added to the
    /// one on `x_j - x_i`, leaves the cycle through `i` and `j` at or above
    /// `<= 0`.
    pub open spec fn satisfied(self, i: int, j: int, limit: Limit) -> bool {
        Limit::zero().le(self.at(j, i).plus(limit))
    }
}

/// What `Matrix::new` builds: a square grid with the entries asked for.
pub proof fn lemma_new(dim: nat, f: spec_fn(int, int) -> Limit)
    ensures
        Matrix::new(dim, f).dim() == dim,
        Matrix::new(dim, f).square(),
        forall|i: int, j: int|
            0 <= i < dim && 0 <= j < dim ==> #[trigger] Matrix::new(dim, f).at(i, j) == f(i, j),
{
}

/// Two square grids of one size with the same entries are the same grid.
pub proof fn lemma_ext(a: Matrix, b: Matrix)
    requires
        a.dim() == b.dim(),
        a.square(),
        b.square(),
        forall|i: int, j: int|
            0 <= i < a.dim() && 0 <= j < a.dim() ==> #[trigger] a.at(i, j) == b.at(i, j),
    ensures
        a == b,
{
    assert forall|i: int| 0 <= i < a.dim() implies #[trigger] a.rows[i] == b.rows[i] by {
        assert forall|j: int| 0 <= j < a.rows[i].len() implies a.rows[i][j] == b.rows[i][j] by {
            assert(a.at(i, j) == b.at(i, j));
        }
        assert(a.rows[i] =~= b.rows[i]);
    }
    assert(a.rows =~= b.rows);
}

/// What `set` changes: one entry, and neither size nor shape.
pub proof fn lemma_set(m: Matrix, i: int, j: int, limit: Limit)
    requires
        m.square(),
        0 <= i < m.dim(),
        0 <= j < m.dim(),
    ensures
        m.set(i, j, limit).dim() == m.dim(),
        m.set(i, j, limit).square(),
        forall|a: int, b: int|
            0 <= a < m.dim() && 0 <= b < m.dim() ==> #[trigger] m.set(i, j, limit).at(a, b) == (if a
                == i && b == j {
                limit
            } else {
                m.at(a, b)
            }),
{
    let s = m.set(i, j, limit);
    assert forall|a: int| 0 <= a < s.dim() implies (#[trigger] s.rows[a]).len() == s.dim() by {
        assert(m.rows[a].len() == m.dim());
    }
}

} // verus!
