//! A difference bound matrix stored densely. It keeps track of whether its
//! grid is closed in exact arithmetic: while it is, a restriction is closed
//! again along the new limit alone, and closing is no work at all.

use vstd::prelude::*;
use crate::bound::Bound;
use crate::canonical::{
    lemma_assign, lemma_assign_closed, lemma_assign_closed_exactly, lemma_copy, lemma_free,
    lemma_future, lemma_init, lemma_lower_bounds_reset, lemma_shift, lemma_shift_closed,
    lemma_shift_closed_exactly, lemma_tighten, lemma_zero,
};
use crate::closure::{close_in_place, lemma_closure, lemma_matrix_le};
use crate::constant::Constant;
use crate::dbm::DBM;
use crate::error::DbmError;
use crate::incremental::{
    lemma_tighten_empties, lemma_tighten_locally, lemma_tightened_through, tighten_locally,
};
use crate::limit::{lemma_le_order, Limit};
use crate::matrix::{lemma_ext, lemma_new, lemma_set, Matrix};
use crate::semantics::{
    lemma_close_keeps, lemma_inclusion_sound, lemma_restrict_meaning, lemma_satisfied_sound,
};
use crate::storage::Store;
use crate::witness::lemma_closed_exactly_is_closed;
use crate::zone::Zone;

verus! {

/// A zone over constants of type `T`, kept as a square grid of bounds, a
/// mark for the zone that closing found empty, and a mark for a grid that
/// is known to be closed in exact arithmetic: one that no saturation has
/// touched since it was last closed.
pub struct RDBM<T: Constant> {
    store: Store<T>,
    empty: bool,
    exact: bool,
}

impl<T: Constant> View for RDBM<T> {
    type V = Zone;

    closed spec fn view(&self) -> Zone {
        Zone {
            dim: self.store.grid().dim(),
            matrix: if self.empty {
                None
            } else {
                Some(self.store.grid())
            },
        }
    }
}

impl<T: Constant> Clone for RDBM<T> {
    /// A copy that stands for the same zone.
    fn clone(&self) -> (r: Self)
        ensures
            r.inv() == self.inv(),
            r@ == self@,
            r.known_exact() == self.known_exact(),
    {
        RDBM { store: self.store.clone(), empty: self.empty, exact: self.exact }
    }
}

impl<T: Constant> RDBM<T> {
    /// The grid is stored whole; unless the zone is marked empty its
    /// diagonal is zero, and it is closed in exact arithmetic where it is
    /// marked so.
    pub closed spec fn inv(&self) -> bool {
        &&& self.store.wf()
        &&& !self.empty ==> self.store.grid().diagonal_zero()
        &&& !self.empty && self.exact ==> self.store.grid().is_closed_exactly()
    }

    /// The mark this matrix carries: it is not marked empty, and its grid
    /// is marked as closed in exact arithmetic. A new matrix carries it;
    /// every operation says what becomes of it.
    pub closed spec fn known_exact(&self) -> bool {
        !self.empty && self.exact
    }

    /// A matrix that carries the mark is closed in exact arithmetic, and so
    /// closed as `T` adds.
    pub proof fn lemma_known_exact(&self)
        requires
            self.inv(),
            self.known_exact(),
        ensures
            self@.is_closed_exactly(),
            self@.is_closed::<T>(),
    {
        self.store.lemma_grid();
        lemma_closed_exactly_is_closed::<T>(self.store.grid());
    }

    /// The number of clocks, the reference clock included.
    pub fn dim(&self) -> (r: usize)
        requires
            self.inv(),
        ensures
            r == self@.dim,
            r >= 1,
    {
        self.store.dim()
    }

    /// Whether the zone is marked empty.
    pub fn is_empty(&self) -> (r: bool)
        ensures
            r == self@.is_empty(),
    {
        self.empty
    }

    /// Whether the matrix carries the mark of a grid that is known to be
    /// closed in exact arithmetic. Every limit is then as tight as the
    /// valuations of the zone allow, and inclusion and satisfaction are
    /// decided exactly.
    pub fn is_exact(&self) -> (r: bool)
        requires
            self.inv(),
        ensures
            r == self.known_exact(),
            r ==> self@.is_closed_exactly() && self@.is_closed::<T>(),
    {
        proof {
            if self.known_exact() {
                self.lemma_known_exact();
            }
        }
        !self.empty && self.exact
    }

    /// The bound on `x_i - x_j`; `None` for the empty zone, which has no
    /// bounds, and for an index that is not a clock.
    pub fn bound(&self, i: usize, j: usize) -> (r: Option<Bound<T>>)
        requires
            self.inv(),
        ensures
            r is Some <==> !self@.is_empty() && i < self@.dim && j < self@.dim,
            r matches Some(b) ==> b@ == self@.matrix->0.at(i as int, j as int),
    {
        if self.empty || i >= self.store.dim() || j >= self.store.dim() {
            None
        } else {
            Some(self.store.get(i, j))
        }
    }
}

impl<T: Constant> DBM<T> for RDBM<T> {
    open spec fn wf(&self) -> bool {
        self.inv()
    }

    open spec fn zone(&self) -> Zone {
        self@
    }

    proof fn lemma_wf(&self) {
        self.store.lemma_grid();
    }

    fn init(dim: usize) -> (r: Self)
        ensures
            r.known_exact(),
    {
        let mut store: Store<T> = Store::filled(dim, Bound::infinity()).unwrap();
        let ghost target = Matrix::init(dim as nat);
        let ghost start = store.grid();
        proof {
            lemma_init::<T>(dim as nat);
            lemma_new(dim as nat, |i: int, j: int| Limit::Infinite);
        }
        let mut k: usize = 0;
        while k < dim
            invariant
                store.wf(),
                store.grid().dim() == dim,
                store.grid().square(),
                k <= dim,
                target == Matrix::init(dim as nat),
                target.dim() == dim,
                forall|a: int, b: int|
                    0 <= a < dim && 0 <= b < dim ==> #[trigger] store.grid().at(a, b) == (if (a == 0
                        || a == b) && b < k {
                        Limit::zero()
                    } else {
                        Limit::Infinite
                    }),
            decreases dim - k,
        {
            let ghost before = store.grid();
            store.set(0, k, Bound::zero());
            proof {
                lemma_set(before, 0, k as int, Limit::zero());
            }
            let ghost between = store.grid();
            store.set(k, k, Bound::zero());
            proof {
                lemma_set(between, k as int, k as int, Limit::zero());
            }
            k += 1;
        }
        proof {
            lemma_new(
                dim as nat,
                |i: int, j: int|
                    if i == j || i == 0 {
                        Limit::zero()
                    } else {
                        Limit::Infinite
                    },
            );
            lemma_ext(store.grid(), target);
        }
        RDBM { store, empty: false, exact: true }
    }

    fn zero(dim: usize) -> (r: Self)
        ensures
            r.known_exact(),
    {
        let store: Store<T> = Store::filled(dim, Bound::zero()).unwrap();
        proof {
            lemma_zero::<T>(dim as nat);
        }
        RDBM { store, empty: false, exact: true }
    }

    fn is_included_in(lhs: &Self, rhs: &Self) -> (r: bool) {
        proof {
            if lhs@.included_in(rhs@) {
                assert forall|clocks: Seq<int>, scale: int| #[trigger]
                    lhs@.contains(clocks, scale) implies rhs@.contains(clocks, scale) by {
                    lemma_inclusion_sound(lhs@, rhs@, clocks, scale);
                }
            }
        }
        let dim: usize = lhs.store.dim();
        if dim != rhs.store.dim() {
            return false;
        }
        if lhs.empty {
            return true;
        }
        if rhs.empty {
            return false;
        }
        let mut i: usize = 0;
        while i < dim
            invariant
                lhs.store.wf(),
                rhs.store.wf(),
                !lhs.empty,
                !rhs.empty,
                dim == lhs.store.grid().dim(),
                dim == rhs.store.grid().dim(),
                i <= dim,
                forall|a: int, b: int|
                    0 <= a < i && 0 <= b < dim ==> (#[trigger] lhs.store.grid().at(a, b)).le(
                        rhs.store.grid().at(a, b),
                    ),
            decreases dim - i,
        {
            let mut j: usize = 0;
            while j < dim
                invariant
                    lhs.store.wf(),
                    rhs.store.wf(),
                    !lhs.empty,
                    !rhs.empty,
                    dim == lhs.store.grid().dim(),
                    dim == rhs.store.grid().dim(),
                    i < dim,
                    j <= dim,
                    forall|a: int, b: int|
                        0 <= a < dim && 0 <= b < dim && (a < i || (a == i && b < j)) ==> (
                        #[trigger] lhs.store.grid().at(a, b)).le(rhs.store.grid().at(a, b)),
                decreases dim - j,
            {
                let left: Bound<T> = lhs.store.get(i, j);
                let right: Bound<T> = rhs.store.get(i, j);
                proof {
                    lemma_le_order(right@, left@, right@);
                }
                if right.less_than(&left) {
                    assert(!lhs.store.grid().at(i as int, j as int).le(
                        rhs.store.grid().at(i as int, j as int),
                    ));
                    return false;
                }
                j += 1;
            }
            i += 1;
        }
        true
    }

    fn is_satisfied(dbm: &Self, i: usize, j: usize, bound_is_strict: bool, constant: T) -> (r:
        bool) {
        proof {
            let asked = Limit::bounded::<T>(constant.value(), bound_is_strict);
            dbm.store.lemma_grid();
            if !dbm@.satisfied(i as int, j as int, asked) {
                assert forall|clocks: Seq<int>, scale: int| #[trigger]
                    dbm@.contains(clocks, scale) implies !asked.admits(
                    clocks[i as int] - clocks[j as int],
                    scale,
                ) by {
                    if asked.admits(clocks[i as int] - clocks[j as int], scale) {
                        lemma_satisfied_sound(dbm@, i as int, j as int, asked, clocks, scale);
                    }
                }
            }
        }
        if dbm.empty {
            return false;
        }
        let limit: Bound<T> = Bound::new(constant, bound_is_strict);
        let back: Bound<T> = dbm.store.get(j, i);
        let cycle: Bound<T> = back.combine(limit);
        proof {
            T::lemma_limits();
            lemma_le_order(Limit::zero(), back@.plus(limit@), Limit::zero());
            lemma_le_order(Limit::zero(), cycle@, Limit::zero());
        }
        !cycle.less_than(&Bound::zero())
    }

    fn close(dbm: &mut Self)
        ensures
            final(dbm).known_exact() == (old(dbm).known_exact()
                || old(dbm)@.closes_exactly::<T>()),
    {
        proof {
            dbm.store.lemma_grid();
            assert forall|clocks: Seq<int>, scale: int| #[trigger]
                dbm@.close::<T>().contains(clocks, scale) <==> dbm@.contains(clocks, scale) by {
                lemma_close_keeps::<T>(dbm@, clocks, scale);
            }
        }
        if dbm.empty {
            return ;
        }
        proof {
            dbm.store.lemma_grid();
            lemma_closure::<T>(dbm.store.grid());
        }
        if dbm.exact {
            proof {
                lemma_closed_exactly_is_closed::<T>(dbm.store.grid());
            }
            return ;
        }
        let (consistent, exact) = close_in_place(&mut dbm.store);
        dbm.empty = !consistent;
        dbm.exact = exact;
    }

    fn future(dbm: &mut Self)
        ensures
            final(dbm).known_exact() == old(dbm).known_exact(),
    {
        if dbm.empty {
            return ;
        }
        let ghost start = dbm.store.grid();
        let ghost target = start.future();
        let dim: usize = dbm.store.dim();
        proof {
            lemma_future::<T>(start);
            lemma_new(
                start.dim(),
                |i: int, j: int|
                    if i > 0 && j == 0 {
                        Limit::Infinite
                    } else {
                        start.at(i, j)
                    },
            );
        }
        let mut i: usize = 1;
        while i < dim
            invariant
                dbm.store.wf(),
                !dbm.empty,
                dbm.exact ==> start.is_closed_exactly(),
                dbm.exact == old(dbm).exact,
                dbm.store.grid().wf::<T>(),
                dbm.store.grid().dim() == dim,
                start.dim() == dim,
                1 <= i <= dim,
                forall|a: int, b: int|
                    0 <= a < dim && 0 <= b < dim ==> #[trigger] dbm.store.grid().at(a, b) == (if 0
                        < a < i && b == 0 {
                        Limit::Infinite
                    } else {
                        start.at(a, b)
                    }),
            decreases dim - i,
        {
            dbm.store.set(i, 0, Bound::infinity());
            i += 1;
        }
        proof {
            lemma_ext(dbm.store.grid(), target);
        }
    }

    fn past(dbm: &mut Self)
        ensures
            final(dbm).known_exact() == old(dbm)@.past_is_exact::<T>(),
    {
        if dbm.empty {
            return ;
        }
        let ghost start = dbm.store.grid();
        let ghost target = start.lower_bounds_reset();
        let dim: usize = dbm.store.dim();
        proof {
            lemma_lower_bounds_reset::<T>(start);
            lemma_new(
                start.dim(),
                |i: int, j: int|
                    if i == 0 && j > 0 {
                        Limit::zero()
                    } else {
                        start.at(i, j)
                    },
            );
        }
        let mut j: usize = 1;
        while j < dim
            invariant
                dbm.store.wf(),
                !dbm.empty,
                dbm.exact ==> start.is_closed_exactly(),
                dbm.exact == old(dbm).exact,
                dbm.store.grid().wf::<T>(),
                dbm.store.grid().dim() == dim,
                start.dim() == dim,
                1 <= j <= dim,
                forall|a: int, b: int|
                    0 <= a < dim && 0 <= b < dim ==> #[trigger] dbm.store.grid().at(a, b) == (if a
                        == 0 && 0 < b < j {
                        Limit::zero()
                    } else {
                        start.at(a, b)
                    }),
            decreases dim - j,
        {
            dbm.store.set(0, j, Bound::zero());
            j += 1;
        }
        proof {
            lemma_ext(dbm.store.grid(), target);
            lemma_closure::<T>(target);
        }
        let (consistent, exact) = close_in_place(&mut dbm.store);
        dbm.empty = !consistent;
        dbm.exact = exact;
    }

    fn restrict(dbm: &mut Self, i: usize, j: usize, bound_is_strict: bool, constant: T)
        ensures
            final(dbm).known_exact() == old(dbm)@.restrict_is_exact::<T>(
                old(dbm).known_exact(),
                i as int,
                j as int,
                Limit::bounded::<T>(constant.value(), bound_is_strict),
            ),
    {
        proof {
            let asked = Limit::bounded::<T>(constant.value(), bound_is_strict);
            dbm.store.lemma_grid();
            T::lemma_in_range(constant);
            assert forall|clocks: Seq<int>, scale: int| #[trigger]
                dbm@.restrict::<T>(i as int, j as int, asked).contains(clocks, scale)
                    <==> dbm@.contains(clocks, scale) && asked.admits(
                    clocks[i as int] - clocks[j as int],
                    scale,
                ) by {
                lemma_restrict_meaning::<T>(dbm@, i as int, j as int, asked, clocks, scale);
            }
        }
        if dbm.empty {
            return ;
        }
        let ghost start = dbm.store.grid();
        let limit: Bound<T> = Bound::new(constant, bound_is_strict);
        let current: Bound<T> = dbm.store.get(i, j);
        proof {
            dbm.store.lemma_grid();
            lemma_matrix_le(start, start, start);
            limit.lemma_fits();
        }
        if !limit.less_than(&current) {
            return ;
        }
        if i == j {
            dbm.empty = true;
            return ;
        }
        let ghost tightened = start.tighten(i as int, j as int, limit@);
        proof {
            lemma_tighten::<T>(start, i as int, j as int, limit@);
            lemma_closure::<T>(tightened);
            if tightened.closure::<T>() is Some {
                lemma_matrix_le(tightened.closure::<T>()->0, tightened, start);
            }
        }
        if dbm.exact {
            // The grid is closed in exact arithmetic: it is enough to look
            // at the paths along the new limit.
            let cycle: Bound<T> = limit.combine(dbm.store.get(j, i));
            proof {
                T::lemma_limits();
            }
            if cycle.less_than(&Bound::zero()) {
                proof {
                    lemma_tighten_empties::<T>(start, i as int, j as int, limit@);
                }
                dbm.empty = true;
                return ;
            }
            let mut trial: Store<T> = dbm.store.clone();
            if tighten_locally(&dbm.store, &mut trial, i, j, limit) {
                proof {
                    lemma_le_order(Limit::zero(), limit@.plus(start.at(j as int, i as int)), cycle@);
                    lemma_tighten_locally::<T>(start, i as int, j as int, limit@);
                    lemma_tightened_through(start, i as int, j as int, limit@);
                }
                dbm.store = trial;
                return ;
            }
        }
        dbm.store.set(i, j, limit);
        assert(dbm.store.grid() == tightened);
        let (consistent, exact) = close_in_place(&mut dbm.store);
        dbm.empty = !consistent;
        dbm.exact = exact;
    }

    fn free(dbm: &mut Self, clock: usize)
        ensures
            final(dbm).known_exact() == old(dbm).known_exact(),
    {
        if dbm.empty {
            return ;
        }
        let ghost start = dbm.store.grid();
        let ghost target = start.free(clock as int);
        let dim: usize = dbm.store.dim();
        proof {
            lemma_free::<T>(start, clock as int);
            lemma_new(
                start.dim(),
                |i: int, j: int|
                    if i == j {
                        start.at(i, j)
                    } else if i == clock {
                        Limit::Infinite
                    } else if j == clock {
                        start.at(i, 0)
                    } else {
                        start.at(i, j)
                    },
            );
        }
        let mut k: usize = 0;
        while k < dim
            invariant
                dbm.store.wf(),
                !dbm.empty,
                dbm.exact ==> start.is_closed_exactly(),
                dbm.exact == old(dbm).exact,
                dbm.store.grid().wf::<T>(),
                dbm.store.grid().dim() == dim,
                start.dim() == dim,
                target.dim() == dim,
                target == start.free(clock as int),
                clock < dim,
                k <= dim,
                forall|a: int, b: int|
                    0 <= a < dim && 0 <= b < dim ==> #[trigger] target.at(a, b) == (if a == b {
                        start.at(a, b)
                    } else if a == clock {
                        Limit::Infinite
                    } else if b == clock {
                        start.at(a, 0)
                    } else {
                        start.at(a, b)
                    }),
                forall|a: int, b: int|
                    0 <= a < dim && 0 <= b < dim ==> #[trigger] dbm.store.grid().at(a, b) == (if (a
                        == clock && b < k) || (b == clock && a < k) {
                        target.at(a, b)
                    } else {
                        start.at(a, b)
                    }),
            decreases dim - k,
        {
            if k != clock {
                dbm.store.set(clock, k, Bound::infinity());
                let upper: Bound<T> = dbm.store.get(k, 0);
                dbm.store.set(k, clock, upper);
            }
            k += 1;
        }
        proof {
            lemma_ext(dbm.store.grid(), target);
        }
    }

    fn assign(dbm: &mut Self, clock: usize, constant: T)
        ensures
            final(dbm).known_exact() == (old(dbm).known_exact()
                && old(dbm)@.matrix->0.assign_fits::<T>(clock as int, constant.value())),
    {
        if dbm.empty {
            return ;
        }
        let ghost start = dbm.store.grid();
        let ghost target = start.assign::<T>(clock as int, constant.value());
        let ghost value = constant.value();
        let dim: usize = dbm.store.dim();
        let upper: Bound<T> = Bound::new(constant, false);
        let (lower, negated) = Bound::zero().lowered_checked(constant);
        let mut fits: bool = negated && !upper.is_infinite();
        proof {
            T::lemma_in_range(constant);
            T::lemma_limits();
            lemma_assign::<T>(start, clock as int, constant.value());
            if start.is_closed::<T>() && start.paths_fit::<T>() {
                lemma_assign_closed::<T>(start, clock as int, constant.value());
            }
            lemma_new(
                start.dim(),
                |i: int, j: int|
                    if i == j {
                        start.at(i, j)
                    } else if i == clock {
                        if j == 0 {
                            upper@
                        } else {
                            upper@.combine::<T>(start.at(0, j))
                        }
                    } else if j == clock {
                        if i == 0 {
                            lower@
                        } else {
                            start.at(i, 0).combine::<T>(lower@)
                        }
                    } else {
                        start.at(i, j)
                    },
            );
        }
        let mut k: usize = 0;
        while k < dim
            invariant
                dbm.store.wf(),
                !dbm.empty,
                dbm.exact ==> start.is_closed_exactly(),
                dbm.exact == old(dbm).exact,
                dbm.store.grid().wf::<T>(),
                dbm.store.grid().dim() == dim,
                start.wf::<T>(),
                start.diagonal_zero(),
                start.dim() == dim,
                target.dim() == dim,
                clock < dim,
                k <= dim,
                value == constant.value(),
                !fits ==> !start.assign_fits::<T>(clock as int, value),
                fits ==> upper@ == Limit::at_most(value) && lower@ == Limit::at_most(-value)
                    && T::lowest() <= value < T::highest() && T::lowest() <= -value
                    < T::highest(),
                fits ==> forall|x: int|
                    0 <= x < k && x != clock ==> (#[trigger] Limit::at_most(value).plus(
                        start.at(0, x),
                    )).fits::<T>(),
                fits ==> forall|x: int|
                    0 <= x < k && x != clock ==> (#[trigger] start.at(x, 0).plus(
                        Limit::at_most(-value),
                    )).fits::<T>(),
                forall|a: int, b: int|
                    0 <= a < dim && 0 <= b < dim ==> #[trigger] target.at(a, b) == (if a == b {
                        start.at(a, b)
                    } else if a == clock {
                        if b == 0 {
                            upper@
                        } else {
                            upper@.combine::<T>(start.at(0, b))
                        }
                    } else if b == clock {
                        if a == 0 {
                            lower@
                        } else {
                            start.at(a, 0).combine::<T>(lower@)
                        }
                    } else {
                        start.at(a, b)
                    }),
                forall|a: int, b: int|
                    0 <= a < dim && 0 <= b < dim ==> #[trigger] dbm.store.grid().at(a, b) == (if (a
                        == clock && b < k) || (b == clock && a < k) {
                        target.at(a, b)
                    } else {
                        start.at(a, b)
                    }),
            decreases dim - k,
        {
            if k != clock {
                if k == 0 {
                    proof {
                        assert(start.at(0, 0) == Limit::zero());
                    }
                    dbm.store.set(clock, k, upper);
                    dbm.store.set(k, clock, lower);
                } else {
                    let (row, row_fits) = upper.combine_checked(dbm.store.get(0, k));
                    let (column, column_fits) = dbm.store.get(k, 0).combine_checked(lower);
                    fits = fits && row_fits && column_fits;
                    dbm.store.set(clock, k, row);
                    dbm.store.set(k, clock, column);
                }
            }
            k += 1;
        }
        proof {
            lemma_ext(dbm.store.grid(), target);
            if start.is_closed_exactly() && start.assign_fits::<T>(clock as int, value) {
                lemma_assign_closed_exactly::<T>(start, clock as int, value);
            }
        }
        dbm.exact = dbm.exact && fits;
    }

    fn copy(dbm: &mut Self, clock_to: usize, clock_from: usize)
        ensures
            final(dbm).known_exact() == old(dbm).known_exact(),
    {
        if dbm.empty {
            return ;
        }
        let ghost start = dbm.store.grid();
        let ghost target = start.copy(clock_to as int, clock_from as int);
        let dim: usize = dbm.store.dim();
        proof {
            lemma_copy::<T>(start, clock_to as int, clock_from as int);
            lemma_new(
                start.dim(),
                |i: int, j: int|
                    if i == j {
                        start.at(i, j)
                    } else if i == clock_to {
                        start.at(clock_from as int, j)
                    } else if j == clock_to {
                        start.at(i, clock_from as int)
                    } else {
                        start.at(i, j)
                    },
            );
        }
        if clock_to == clock_from {
            return ;
        }
        let mut k: usize = 0;
        while k < dim
            invariant
                dbm.store.wf(),
                !dbm.empty,
                dbm.exact ==> start.is_closed_exactly(),
                dbm.exact == old(dbm).exact,
                dbm.store.grid().wf::<T>(),
                dbm.store.grid().dim() == dim,
                start.dim() == dim,
                target.dim() == dim,
                clock_to < dim,
                clock_from < dim,
                clock_to != clock_from,
                k <= dim,
                forall|a: int, b: int|
                    0 <= a < dim && 0 <= b < dim ==> #[trigger] target.at(a, b) == (if a == b {
                        start.at(a, b)
                    } else if a == clock_to {
                        start.at(clock_from as int, b)
                    } else if b == clock_to {
                        start.at(a, clock_from as int)
                    } else {
                        start.at(a, b)
                    }),
                forall|a: int, b: int|
                    0 <= a < dim && 0 <= b < dim ==> #[trigger] dbm.store.grid().at(a, b) == (if (a
                        == clock_to && b < k) || (b == clock_to && a < k) {
                        target.at(a, b)
                    } else {
                        start.at(a, b)
                    }),
            decreases dim - k,
        {
            if k != clock_to {
                let row: Bound<T> = dbm.store.get(clock_from, k);
                let column: Bound<T> = dbm.store.get(k, clock_from);
                dbm.store.set(clock_to, k, row);
                dbm.store.set(k, clock_to, column);
            }
            k += 1;
        }
        proof {
            lemma_ext(dbm.store.grid(), target);
        }
    }

    fn shift(dbm: &mut Self, clock: usize, shift_constant: T)
        ensures
            final(dbm).known_exact() == (old(dbm).known_exact()
                && old(dbm)@.matrix->0.shift_fits::<T>(clock as int, shift_constant.value())),
    {
        if dbm.empty {
            return ;
        }
        let ghost start = dbm.store.grid();
        let ghost target = start.shift::<T>(clock as int, shift_constant.value());
        let ghost delta = shift_constant.value();
        let dim: usize = dbm.store.dim();
        let mut fits: bool = true;
        proof {
            lemma_shift::<T>(start, clock as int, shift_constant.value());
            if start.is_closed::<T>() && start.paths_fit::<T>() {
                lemma_shift_closed::<T>(start, clock as int, shift_constant.value());
            }
            lemma_new(
                start.dim(),
                |i: int, j: int|
                    if i == j {
                        start.at(i, j)
                    } else if i == clock {
                        start.at(i, j).offset::<T>(shift_constant.value())
                    } else if j == clock {
                        start.at(i, j).offset::<T>(-shift_constant.value())
                    } else {
                        start.at(i, j)
                    },
            );
        }
        let mut k: usize = 0;
        while k < dim
            invariant
                dbm.store.wf(),
                !dbm.empty,
                dbm.exact ==> start.is_closed_exactly(),
                dbm.exact == old(dbm).exact,
                dbm.store.grid().wf::<T>(),
                dbm.store.grid().dim() == dim,
                start.dim() == dim,
                target.dim() == dim,
                clock < dim,
                k <= dim,
                delta == shift_constant.value(),
                !fits ==> !start.shift_fits::<T>(clock as int, delta),
                fits ==> forall|x: int|
                    0 <= x < k && x != clock && (#[trigger] start.at(clock as int, x)) is Finite
                        ==> T::lowest() <= start.at(clock as int, x)->constant + delta
                        < T::highest(),
                fits ==> forall|x: int|
                    0 <= x < k && x != clock && (#[trigger] start.at(x, clock as int)) is Finite
                        ==> T::lowest() <= start.at(x, clock as int)->constant - delta
                        < T::highest(),
                forall|a: int, b: int|
                    0 <= a < dim && 0 <= b < dim ==> #[trigger] target.at(a, b) == (if a == b {
                        start.at(a, b)
                    } else if a == clock {
                        start.at(a, b).offset::<T>(shift_constant.value())
                    } else if b == clock {
                        start.at(a, b).offset::<T>(-shift_constant.value())
                    } else {
                        start.at(a, b)
                    }),
                forall|a: int, b: int|
                    0 <= a < dim && 0 <= b < dim ==> #[trigger] dbm.store.grid().at(a, b) == (if (a
                        == clock && b < k) || (b == clock && a < k) {
                        target.at(a, b)
                    } else {
                        start.at(a, b)
                    }),
            decreases dim - k,
        {
            if k != clock {
                let (row, row_fits) = dbm.store.get(clock, k).raised_checked(shift_constant);
                let (column, column_fits) = dbm.store.get(k, clock).lowered_checked(
                    shift_constant,
                );
                fits = fits && row_fits && column_fits;
                dbm.store.set(clock, k, row);
                dbm.store.set(k, clock, column);
            }
            k += 1;
        }
        proof {
            lemma_ext(dbm.store.grid(), target);
            if start.is_closed_exactly() && start.shift_fits::<T>(clock as int, delta) {
                lemma_shift_closed_exactly::<T>(start, clock as int, delta);
            }
        }
        dbm.exact = dbm.exact && fits;
    }
}

/// The checked forms of the operations: each tests what the operation
/// requires, reports what is wrong and leaves the matrix as it was, or else
/// does what the operation does.
impl<T: Constant> RDBM<T> {
    /// Whether a matrix over `dim` clocks can be built, and if not, why.
    pub fn check_dim(dim: usize) -> (r: Result<(), DbmError>)
        ensures
            r is Ok <==> 1 <= dim && dim * dim <= usize::MAX,
            r == Err::<(), DbmError>(DbmError::NoClocks) <==> dim == 0,
            r == Err::<(), DbmError>(DbmError::TooManyClocks) <==> dim >= 1 && dim * dim
                > usize::MAX,
    {
        if dim == 0 {
            Err(DbmError::NoClocks)
        } else if dim.checked_mul(dim).is_none() {
            Err(DbmError::TooManyClocks)
        } else {
            Ok(())
        }
    }

    /// Whether `clock` is a clock of this matrix.
    pub fn check_clock(&self, clock: usize) -> (r: Result<(), DbmError>)
        requires
            self.inv(),
        ensures
            r is Ok <==> clock < self@.dim,
            r is Err ==> r == Err::<(), DbmError>(DbmError::ClockOutOfRange),
    {
        if clock < self.store.dim() {
            Ok(())
        } else {
            Err(DbmError::ClockOutOfRange)
        }
    }

    /// `init`, for any `dim`.
    pub fn try_init(dim: usize) -> (r: Result<Self, DbmError>)
        ensures
            r is Ok <==> 1 <= dim && dim * dim <= usize::MAX,
            r matches Ok(dbm) ==> dbm.inv() && dbm@ == Zone::init(dim as nat)
                && dbm@.is_closed::<T>() && dbm.known_exact(),
            r matches Err(e) ==> e == (if dim == 0 {
                DbmError::NoClocks
            } else {
                DbmError::TooManyClocks
            }),
    {
        match Self::check_dim(dim) {
            Ok(()) => Ok(<Self as DBM<T>>::init(dim)),
            Err(e) => Err(e),
        }
    }

    /// `zero`, for any `dim`.
    pub fn try_zero(dim: usize) -> (r: Result<Self, DbmError>)
        ensures
            r is Ok <==> 1 <= dim && dim * dim <= usize::MAX,
            r matches Ok(dbm) ==> dbm.inv() && dbm@ == Zone::zero(dim as nat)
                && dbm@.is_closed::<T>() && dbm.known_exact(),
            r matches Err(e) ==> e == (if dim == 0 {
                DbmError::NoClocks
            } else {
                DbmError::TooManyClocks
            }),
    {
        match Self::check_dim(dim) {
            Ok(()) => Ok(<Self as DBM<T>>::zero(dim)),
            Err(e) => Err(e),
        }
    }

    /// `is_satisfied`, for any indices.
    pub fn try_is_satisfied(&self, i: usize, j: usize, bound_is_strict: bool, constant: T) -> (r:
        Result<bool, DbmError>)
        requires
            self.inv(),
        ensures
            r is Ok <==> i < self@.dim && j < self@.dim,
            r matches Ok(b) ==> b == self@.satisfied(
                i as int,
                j as int,
                Limit::bounded::<T>(constant.value(), bound_is_strict),
            ),
            r matches Err(e) ==> e == DbmError::ClockOutOfRange,
    {
        self.check_clock(i)?;
        self.check_clock(j)?;
        Ok(<Self as DBM<T>>::is_satisfied(self, i, j, bound_is_strict, constant))
    }

    /// `restrict`, for any indices.
    pub fn try_restrict(&mut self, i: usize, j: usize, bound_is_strict: bool, constant: T) -> (r:
        Result<(), DbmError>)
        requires
            old(self).inv(),
        ensures
            final(self).inv(),
            r is Ok <==> i < old(self)@.dim && j < old(self)@.dim,
            r is Ok ==> final(self)@ == old(self)@.restrict::<T>(
                i as int,
                j as int,
                Limit::bounded::<T>(constant.value(), bound_is_strict),
            ),
            r is Ok ==> final(self).known_exact() == old(self)@.restrict_is_exact::<T>(
                old(self).known_exact(),
                i as int,
                j as int,
                Limit::bounded::<T>(constant.value(), bound_is_strict),
            ),
            r matches Err(e) ==> e == DbmError::ClockOutOfRange && final(self)@ == old(self)@
                && final(self).known_exact() == old(self).known_exact(),
    {
        self.check_clock(i)?;
        self.check_clock(j)?;
        <Self as DBM<T>>::restrict(self, i, j, bound_is_strict, constant);
        Ok(())
    }

    /// `free`, for any index.
    pub fn try_free(&mut self, clock: usize) -> (r: Result<(), DbmError>)
        requires
            old(self).inv(),
        ensures
            final(self).inv(),
            r is Ok <==> clock < old(self)@.dim,
            r is Ok ==> final(self)@ == old(self)@.free(clock as int),
            r is Ok ==> final(self).known_exact() == old(self).known_exact(),
            r matches Err(e) ==> e == DbmError::ClockOutOfRange && final(self)@ == old(self)@
                && final(self).known_exact() == old(self).known_exact(),
    {
        self.check_clock(clock)?;
        <Self as DBM<T>>::free(self, clock);
        Ok(())
    }

    /// `assign`, for any index.
    pub fn try_assign(&mut self, clock: usize, constant: T) -> (r: Result<(), DbmError>)
        requires
            old(self).inv(),
        ensures
            final(self).inv(),
            r is Ok <==> clock < old(self)@.dim,
            r is Ok ==> final(self)@ == old(self)@.assign::<T>(clock as int, constant.value()),
            r is Ok ==> final(self).known_exact() == (old(self).known_exact()
                && old(self)@.matrix->0.assign_fits::<T>(clock as int, constant.value())),
            r matches Err(e) ==> e == DbmError::ClockOutOfRange && final(self)@ == old(self)@
                && final(self).known_exact() == old(self).known_exact(),
    {
        self.check_clock(clock)?;
        <Self as DBM<T>>::assign(self, clock, constant);
        Ok(())
    }

    /// `copy`, for any indices.
    pub fn try_copy(&mut self, clock_to: usize, clock_from: usize) -> (r: Result<(), DbmError>)
        requires
            old(self).inv(),
        ensures
            final(self).inv(),
            r is Ok <==> clock_to < old(self)@.dim && clock_from < old(self)@.dim,
            r is Ok ==> final(self)@ == old(self)@.copy(clock_to as int, clock_from as int),
            r is Ok ==> final(self).known_exact() == old(self).known_exact(),
            r matches Err(e) ==> e == DbmError::ClockOutOfRange && final(self)@ == old(self)@
                && final(self).known_exact() == old(self).known_exact(),
    {
        self.check_clock(clock_to)?;
        self.check_clock(clock_from)?;
        <Self as DBM<T>>::copy(self, clock_to, clock_from);
        Ok(())
    }

    /// `shift`, for any index.
    pub fn try_shift(&mut self, clock: usize, shift_constant: T) -> (r: Result<(), DbmError>)
        requires
            old(self).inv(),
        ensures
            final(self).inv(),
            r is Ok <==> clock < old(self)@.dim,
            r is Ok ==> final(self)@ == old(self)@.shift::<T>(
                clock as int,
                shift_constant.value(),
            ),
            r is Ok ==> final(self).known_exact() == (old(self).known_exact()
                && old(self)@.matrix->0.shift_fits::<T>(clock as int, shift_constant.value())),
            r matches Err(e) ==> e == DbmError::ClockOutOfRange && final(self)@ == old(self)@
                && final(self).known_exact() == old(self).known_exact(),
    {
        self.check_clock(clock)?;
        <Self as DBM<T>>::shift(self, clock, shift_constant);
        Ok(())
    }
}


} // verus!
