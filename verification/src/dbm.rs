//! The operations every difference bound matrix offers, with what each one
//! does to the zone.

use vstd::prelude::*;
use crate::constant::Constant;
use crate::limit::Limit;
use crate::zone::Zone;

verus! {

/// A difference bound matrix over constants of type `T`.
///
/// Every operation is stated over the zone the matrix stands for. Clock 0
/// is the reference clock; every clock index must be below the number of
/// clocks.
pub trait DBM<T: Constant>: Sized {
    /// The representation is intact.
    spec fn wf(&self) -> bool;

    /// The zone this matrix stands for.
    spec fn zone(&self) -> Zone;

    /// An intact matrix stands for a well-formed zone.
    proof fn lemma_wf(&self)
        requires
            self.wf(),
        ensures
            self.zone().wf::<T>(),
    ;

    /// The zone of all valuations with every clock at or above 0.
    fn init(dim: usize) -> (r: Self)
        requires
            1 <= dim,
            dim * dim <= usize::MAX,
        ensures
            r.wf(),
            r.zone() == Zone::init(dim as nat),
            r.zone().is_closed::<T>(),
            r.zone().is_closed_exactly(),
    ;

    /// The zone of the one valuation with every clock at 0.
    fn zero(dim: usize) -> (r: Self)
        requires
            1 <= dim,
            dim * dim <= usize::MAX,
        ensures
            r.wf(),
            r.zone() == Zone::zero(dim as nat),
            r.zone().is_closed::<T>(),
            r.zone().is_closed_exactly(),
    ;

    /// Whether `lhs` is included in `rhs`, judged entry by entry. A `true`
    /// is always right: every valuation of `lhs` is then one of `rhs`. A
    /// `false` is right where `lhs` is closed in exact arithmetic.
    fn is_included_in(lhs: &Self, rhs: &Self) -> (r: bool)
        requires
            lhs.wf(),
            rhs.wf(),
        ensures
            r == lhs.zone().included_in(rhs.zone()),
            r ==> forall|clocks: Seq<int>, scale: int| #[trigger]
                lhs.zone().contains(clocks, scale) ==> rhs.zone().contains(clocks, scale),
    ;

    /// Whether the zone has a valuation with `x_i - x_j < constant`, or
    /// `<= constant` where the bound is not strict, judged by the bound on
    /// `x_j - x_i`. A `false` is always right: no valuation of the zone
    /// meets the constraint. A `true` is right where the matrix is closed
    /// in exact arithmetic.
    fn is_satisfied(dbm: &Self, i: usize, j: usize, bound_is_strict: bool, constant: T) -> (r:
        bool)
        requires
            dbm.wf(),
            i < dbm.zone().dim,
            j < dbm.zone().dim,
        ensures
            r == dbm.zone().satisfied(
                i as int,
                j as int,
                Limit::bounded::<T>(constant.value(), bound_is_strict),
            ),
            !r ==> forall|clocks: Seq<int>, scale: int| #[trigger]
                dbm.zone().contains(clocks, scale) ==> !Limit::bounded::<T>(
                    constant.value(),
                    bound_is_strict,
                ).admits(clocks[i as int] - clocks[j as int], scale),
    ;

    /// Brings the matrix into canonical form, or finds the zone empty. The
    /// valuations stay the same, and a closed matrix stays as it is.
    fn close(dbm: &mut Self)
        requires
            old(dbm).wf(),
        ensures
            final(dbm).wf(),
            final(dbm).zone() == old(dbm).zone().close::<T>(),
            final(dbm).zone().is_closed::<T>(),
            final(dbm).zone().included_in(old(dbm).zone()),
            old(dbm).zone().is_closed::<T>() ==> final(dbm).zone() == old(dbm).zone(),
            forall|clocks: Seq<int>, scale: int| #[trigger]
                final(dbm).zone().contains(clocks, scale) <==> old(dbm).zone().contains(
                    clocks,
                    scale,
                ),
    ;

    /// Lets time pass. A closed matrix stays closed, in either sense.
    fn future(dbm: &mut Self)
        requires
            old(dbm).wf(),
        ensures
            final(dbm).wf(),
            final(dbm).zone() == old(dbm).zone().future(),
            old(dbm).zone().is_closed::<T>() ==> final(dbm).zone().is_closed::<T>(),
            old(dbm).zone().is_closed_exactly() ==> final(dbm).zone().is_closed_exactly(),
    ;

    /// Goes back in time. The result is closed.
    fn past(dbm: &mut Self)
        requires
            old(dbm).wf(),
        ensures
            final(dbm).wf(),
            final(dbm).zone() == old(dbm).zone().past::<T>(),
            final(dbm).zone().is_closed::<T>(),
    ;

    /// Adds the constraint `x_i - x_j < constant`, or `<= constant` where
    /// the bound is not strict: the valuations that stay are those that
    /// meet it. A closed matrix stays closed.
    fn restrict(dbm: &mut Self, i: usize, j: usize, bound_is_strict: bool, constant: T)
        requires
            old(dbm).wf(),
            i < old(dbm).zone().dim,
            j < old(dbm).zone().dim,
        ensures
            final(dbm).wf(),
            final(dbm).zone() == old(dbm).zone().restrict::<T>(
                i as int,
                j as int,
                Limit::bounded::<T>(constant.value(), bound_is_strict),
            ),
            old(dbm).zone().is_closed::<T>() ==> final(dbm).zone().is_closed::<T>(),
            final(dbm).zone().included_in(old(dbm).zone()),
            forall|clocks: Seq<int>, scale: int| #[trigger]
                final(dbm).zone().contains(clocks, scale) <==> old(dbm).zone().contains(
                    clocks,
                    scale,
                ) && Limit::bounded::<T>(constant.value(), bound_is_strict).admits(
                    clocks[i as int] - clocks[j as int],
                    scale,
                ),
    ;

    /// Drops every constraint on `clock`. A closed matrix stays closed, in
    /// either sense.
    fn free(dbm: &mut Self, clock: usize)
        requires
            old(dbm).wf(),
            clock < old(dbm).zone().dim,
        ensures
            final(dbm).wf(),
            final(dbm).zone() == old(dbm).zone().free(clock as int),
            old(dbm).zone().is_closed::<T>() ==> final(dbm).zone().is_closed::<T>(),
            old(dbm).zone().is_closed_exactly() ==> final(dbm).zone().is_closed_exactly(),
    ;

    /// Sets `clock` to `constant`. A closed matrix stays closed where no
    /// path of two steps in it needed saturation, and one closed in exact
    /// arithmetic stays so where setting the clock needs none; where
    /// saturation may have played a part, close the matrix afterwards.
    fn assign(dbm: &mut Self, clock: usize, constant: T)
        requires
            old(dbm).wf(),
            clock < old(dbm).zone().dim,
        ensures
            final(dbm).wf(),
            final(dbm).zone() == old(dbm).zone().assign::<T>(clock as int, constant.value()),
            old(dbm).zone().is_closed::<T>() && old(dbm).zone().paths_fit::<T>()
                ==> final(dbm).zone().is_closed::<T>(),
            old(dbm).zone().is_closed_exactly() && old(dbm).zone().matrix->0.assign_fits::<T>(
                clock as int,
                constant.value(),
            ) ==> final(dbm).zone().is_closed_exactly(),
    ;

    /// Sets `clock_to` to the value of `clock_from`. A closed matrix stays
    /// closed, in either sense.
    fn copy(dbm: &mut Self, clock_to: usize, clock_from: usize)
        requires
            old(dbm).wf(),
            clock_to < old(dbm).zone().dim,
            clock_from < old(dbm).zone().dim,
        ensures
            final(dbm).wf(),
            final(dbm).zone() == old(dbm).zone().copy(clock_to as int, clock_from as int),
            old(dbm).zone().is_closed::<T>() ==> final(dbm).zone().is_closed::<T>(),
            old(dbm).zone().is_closed_exactly() ==> final(dbm).zone().is_closed_exactly(),
    ;

    /// Moves `clock` by `shift_constant`. A closed matrix stays closed where
    /// no path of two steps in it needed saturation, and one closed in
    /// exact arithmetic stays so where moving the clock needs none; where
    /// saturation may have played a part, close the matrix afterwards.
    fn shift(dbm: &mut Self, clock: usize, shift_constant: T)
        requires
            old(dbm).wf(),
            clock < old(dbm).zone().dim,
        ensures
            final(dbm).wf(),
            final(dbm).zone() == old(dbm).zone().shift::<T>(clock as int, shift_constant.value()),
            old(dbm).zone().is_closed::<T>() && old(dbm).zone().paths_fit::<T>()
                ==> final(dbm).zone().is_closed::<T>(),
            old(dbm).zone().is_closed_exactly() && old(dbm).zone().matrix->0.shift_fits::<T>(
                clock as int,
                shift_constant.value(),
            ) ==> final(dbm).zone().is_closed_exactly(),
    ;
}

} // verus!
