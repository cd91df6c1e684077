//! The mathematical model of a zone: the set of clock valuations that a
//! difference bound matrix stands for, which may be known to be empty.

use vstd::prelude::*;
use crate::constant::Constant;
use crate::limit::Limit;
use crate::matrix::Matrix;

verus! {

/// A zone over `dim` clocks: a grid of limits, or `None` for the empty zone.
pub struct Zone {
    pub dim: nat,
    pub matrix: Option<Matrix>,
}

impl Zone {
    /// A zone over at least the reference clock whose grid, if it has one,
    /// is of its size, holds limits of `T`, and has a zero diagonal.
    pub open spec fn wf<T: Constant>(self) -> bool {
        &&& self.dim >= 1
        &&& self.matrix matches Some(m) ==> m.dim() == self.dim && m.wf::<T>()
            && m.diagonal_zero()
    }

    /// Known to hold no valuation.
    pub open spec fn is_empty(self) -> bool {
        self.matrix is None
    }

    /// In canonical form: empty, or with a closed grid.
    pub open spec fn is_closed<T: Constant>(self) -> bool {
        self.matrix matches Some(m) ==> m.is_closed::<T>()
    }

    /// Not empty, and closed in exact arithmetic. Every limit is then as
    /// tight as the valuations of the zone allow.
    pub open spec fn is_closed_exactly(self) -> bool {
        self.matrix matches Some(m) && m.is_closed_exactly()
    }

    /// No path of two steps in the grid needs saturation in `T`.
    pub open spec fn paths_fit<T: Constant>(self) -> bool {
        self.matrix matches Some(m) ==> m.paths_fit::<T>()
    }

    /// The empty zone over `dim` clocks.
    pub open spec fn empty(dim: nat) -> Zone {
        Zone { dim, matrix: None }
    }

    /// The zone of one grid.
    pub open spec fn of(matrix: Matrix) -> Zone {
        Zone { dim: matrix.dim(), matrix: Some(matrix) }
    }

    /// The point where every clock is 0.
    pub open spec fn zero(dim: nat) -> Zone {
        Zone::of(Matrix::zero(dim))
    }

    /// Every valuation with all clocks at or above 0.
    pub open spec fn init(dim: nat) -> Zone {
        Zone::of(Matrix::init(dim))
    }

    /// Inclusion as the grids show it: the zones are over the same clocks,
    /// and `self` is empty, or neither is and every limit of `self` is at
    /// least as tight as that of `other`.
    pub open spec fn included_in(self, other: Zone) -> bool {
        &&& self.dim == other.dim
        &&& match self.matrix {
            None => true,
            Some(m) => other.matrix matches Some(n) && m.le(n),
        }
    }

    /// Whether `x_i - x_j` can meet `limit` somewhere in the zone, as the
    /// grid shows it; never in the empty zone.
    pub open spec fn satisfied(self, i: int, j: int, limit: Limit) -> bool {
        self.matrix matches Some(m) && m.satisfied(i, j, limit)
    }

    /// The canonical form of the zone: its grid closed, or the empty zone if
    /// closing finds a cycle of negative length.
    pub open spec fn close<T: Constant>(self) -> Zone {
        match self.matrix {
            None => self,
            Some(m) => Zone { dim: self.dim, matrix: m.closure::<T>() },
        }
    }

    /// Whether closing the zone ends in a sweep that needs no saturation,
    /// so that the closed zone is closed in exact arithmetic too; never for
    /// the empty zone.
    pub open spec fn closes_exactly<T: Constant>(self) -> bool {
        self.matrix matches Some(m) && m.closes_exactly::<T>()
    }

    /// Whether restricting leaves a grid that is known to be closed in
    /// exact arithmetic, given whether the grid was known to be before.
    /// A limit that is not tighter leaves what was known. Where the grid
    /// was known to be closed so, and the paths along the new limit need no
    /// saturation, it is closed along them and stays so; in any other case
    /// the tightened grid is closed by sweeps, and it depends on them.
    /// Never where the restriction empties the zone.
    pub open spec fn restrict_is_exact<T: Constant>(
        self,
        known: bool,
        i: int,
        j: int,
        limit: Limit,
    ) -> bool {
        match self.matrix {
            None => false,
            Some(m) => if !limit.lt(m.at(i, j)) {
                known
            } else if i == j {
                false
            } else if known && limit.plus(m.at(j, i)).lt(Limit::zero()) {
                false
            } else if known && m.tighten_fits::<T>(i, j, limit) {
                true
            } else {
                m.tighten(i, j, limit).closes_exactly::<T>()
            },
        }
    }

    /// Whether going back in time leaves a grid that is known to be closed
    /// in exact arithmetic: whether closing it, after the lower bounds were
    /// reset, ends in a sweep that needs no saturation.
    pub open spec fn past_is_exact<T: Constant>(self) -> bool {
        self.matrix matches Some(m) && m.lower_bounds_reset().closes_exactly::<T>()
    }

    /// The zone cut down to the valuations with `x_i - x_j` within `limit`.
    /// A limit that is not tighter than the one in place changes nothing; a
    /// tighter one on the diagonal empties the zone; any other is put in
    /// place and the grid closed.
    pub open spec fn restrict<T: Constant>(self, i: int, j: int, limit: Limit) -> Zone {
        match self.matrix {
            None => self,
            Some(m) => if !limit.lt(m.at(i, j)) {
                self
            } else if i == j {
                Zone::empty(self.dim)
            } else {
                (Zone { dim: self.dim, matrix: Some(m.tighten(i, j, limit)) }).close::<T>()
            },
        }
    }

    /// The zone after any amount of time has passed.
    pub open spec fn future(self) -> Zone {
        match self.matrix {
            None => self,
            Some(m) => Zone { dim: self.dim, matrix: Some(m.future()) },
        }
    }

    /// The zone from which time leads into this one: lower bounds reset,
    /// and the grid closed.
    pub open spec fn past<T: Constant>(self) -> Zone {
        match self.matrix {
            None => self,
            Some(m) => (Zone { dim: self.dim, matrix: Some(m.lower_bounds_reset()) }).close::<T>(),
        }
    }

    /// The zone with `clock` left unconstrained.
    pub open spec fn free(self, clock: int) -> Zone {
        match self.matrix {
            None => self,
            Some(m) => Zone { dim: self.dim, matrix: Some(m.free(clock)) },
        }
    }

    /// The zone after `clock` is set to `value`.
    pub open spec fn assign<T: Constant>(self, clock: int, value: int) -> Zone {
        match self.matrix {
            None => self,
            Some(m) => Zone { dim: self.dim, matrix: Some(m.assign::<T>(clock, value)) },
        }
    }

    /// The zone after `to` takes the value of `from`.
    pub open spec fn copy(self, to: int, from: int) -> Zone {
        match self.matrix {
            None => self,
            Some(m) => Zone { dim: self.dim, matrix: Some(m.copy(to, from)) },
        }
    }

    /// The zone after `clock` is moved by `delta`.
    pub open spec fn shift<T: Constant>(self, clock: int, delta: int) -> Zone {
        match self.matrix {
            None => self,
            Some(m) => Zone { dim: self.dim, matrix: Some(m.shift::<T>(clock, delta)) },
        }
    }
}

} // verus!
