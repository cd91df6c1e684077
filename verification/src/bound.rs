//! An executable bound: a constant of some integer type and a strictness,
//! with the type's greatest value standing for "unbounded".

use vstd::prelude::*;
use crate::constant::Constant;
use crate::limit::Limit;

verus! {

/// One entry of a difference bound matrix.
pub struct Bound<T: Constant> {
    constant: T,
    strict: bool,
}

impl<T: Constant> Clone for Bound<T> {
    fn clone(&self) -> (r: Self)
        ensures
            r == *self,
    {
        *self
    }
}

impl<T: Constant> Copy for Bound<T> {

}

impl<T: Constant> View for Bound<T> {
    type V = Limit;

    /// A bound whose constant is the greatest value of `T` is `Infinite`,
    /// whatever its strictness; any other is the finite limit it spells.
    closed spec fn view(&self) -> Limit {
        if self.constant.value() == T::highest() {
            Limit::Infinite
        } else {
            Limit::Finite { constant: self.constant.value(), strict: self.strict }
        }
    }
}

impl<T: Constant> Bound<T> {
    /// The bound `< constant` or `<= constant`; the greatest value of `T`
    /// gives the unbounded bound.
    pub fn new(constant: T, strict: bool) -> (r: Self)
        ensures
            r@ == Limit::bounded::<T>(constant.value(), strict),
    {
        Bound { constant, strict }
    }

    /// The bound that constrains nothing.
    pub fn infinity() -> (r: Self)
        ensures
            r@ == Limit::Infinite,
    {
        Bound { constant: T::max_value(), strict: false }
    }

    /// The bound `<= 0`.
    pub fn zero() -> (r: Self)
        ensures
            r@ == Limit::zero(),
    {
        proof {
            T::lemma_limits();
        }
        Bound { constant: T::zero(), strict: false }
    }

    /// What a bound of this type can be: any limit that fits `T`.
    pub proof fn lemma_fits(self)
        ensures
            self@.fits::<T>(),
    {
        T::lemma_in_range(self.constant);
    }

    pub fn is_infinite(&self) -> (r: bool)
        ensures
            r == (self@ is Infinite),
    {
        self.constant.equals(T::max_value())
    }

    /// The constant of a finite bound, the greatest value of `T` otherwise.
    pub fn constant(&self) -> (r: T)
        ensures
            self@ is Finite ==> r.value() == self@->constant,
            self@ is Infinite ==> r.value() == T::highest(),
    {
        self.constant
    }

    /// Whether a finite bound is strict; `false` for the unbounded bound.
    pub fn is_strict(&self) -> (r: bool)
        ensures
            r == (self@ is Finite && self@->strict),
    {
        self.strict && !self.is_infinite()
    }

    pub fn equals(&self, other: &Self) -> (r: bool)
        ensures
            r == (self@ == other@),
    {
        if self.is_infinite() {
            other.is_infinite()
        } else {
            self.constant.equals(other.constant) && self.strict == other.strict
        }
    }

    /// Whether `self` is tighter than `other`.
    pub fn less_than(&self, other: &Self) -> (r: bool)
        ensures
            r == self@.lt(other@),
    {
        if self.is_infinite() {
            false
        } else if other.is_infinite() {
            true
        } else {
            self.constant.less_than(other.constant) || (self.constant.equals(other.constant)
                && self.strict && !other.strict)
        }
    }

    /// The tighter of the two bounds.
    pub fn min(self, other: Self) -> (r: Self)
        ensures
            r@ == self@.min(other@),
    {
        if other.less_than(&self) {
            other
        } else {
            self
        }
    }

    /// The bound that follows along a path through `self` and then `other`:
    /// constants add, saturating, and the result is strict if either is.
    pub fn combine(self, other: Self) -> (r: Self)
        ensures
            r@ == self@.combine::<T>(other@),
    {
        self.combine_checked(other).0
    }

    /// `combine`, together with whether the sum was exact: whether it
    /// needed no saturation.
    pub fn combine_checked(self, other: Self) -> (r: (Self, bool))
        ensures
            r.0@ == self@.combine::<T>(other@),
            r.1 == self@.plus(other@).fits::<T>(),
    {
        if self.is_infinite() || other.is_infinite() {
            return (Self::infinity(), true);
        }
        let sum: T = self.constant.saturating_add(other.constant);
        proof {
            T::lemma_in_range(self.constant);
            T::lemma_in_range(other.constant);
            T::lemma_limits();
        }
        if sum.equals(T::max_value()) {
            (Self::infinity(), false)
        } else if sum.equals(T::min_value()) && !sum.saturating_sub(other.constant).equals(
            self.constant,
        ) {
            (Bound { constant: sum, strict: true }, false)
        } else {
            (Bound { constant: sum, strict: self.strict || other.strict }, true)
        }
    }

    /// The bound with `delta` added to its constant, saturating.
    pub fn raised(self, delta: T) -> (r: Self)
        ensures
            r@ == self@.offset::<T>(delta.value()),
    {
        self.raised_checked(delta).0
    }

    /// `raised`, together with whether the sum was exact.
    pub fn raised_checked(self, delta: T) -> (r: (Self, bool))
        ensures
            r.0@ == self@.offset::<T>(delta.value()),
            r.1 == (self@ is Finite ==> T::lowest() <= self@->constant + delta.value()
                < T::highest()),
    {
        if self.is_infinite() {
            return (Self::infinity(), true);
        }
        let sum: T = self.constant.saturating_add(delta);
        proof {
            T::lemma_in_range(self.constant);
            T::lemma_in_range(delta);
            T::lemma_limits();
        }
        if sum.equals(T::max_value()) {
            (Self::infinity(), false)
        } else if sum.equals(T::min_value()) && !sum.saturating_sub(delta).equals(self.constant) {
            (Bound { constant: sum, strict: true }, false)
        } else {
            (Bound { constant: sum, strict: self.strict }, true)
        }
    }

    /// The bound with `delta` taken from its constant, saturating.
    pub fn lowered(self, delta: T) -> (r: Self)
        ensures
            r@ == self@.offset::<T>(-delta.value()),
    {
        self.lowered_checked(delta).0
    }

    /// `lowered`, together with whether the difference was exact.
    pub fn lowered_checked(self, delta: T) -> (r: (Self, bool))
        ensures
            r.0@ == self@.offset::<T>(-delta.value()),
            r.1 == (self@ is Finite ==> T::lowest() <= self@->constant - delta.value()
                < T::highest()),
    {
        if self.is_infinite() {
            return (Self::infinity(), true);
        }
        let difference: T = self.constant.saturating_sub(delta);
        proof {
            T::lemma_in_range(self.constant);
            T::lemma_in_range(delta);
            T::lemma_limits();
        }
        if difference.equals(T::max_value()) {
            (Self::infinity(), false)
        } else if difference.equals(T::min_value()) && !difference.saturating_add(delta).equals(
            self.constant,
        ) {
            (Bound { constant: difference, strict: true }, false)
        } else {
            (Bound { constant: difference, strict: self.strict }, true)
        }
    }
}

} // verus!
