//! The mathematical model of a bound: an upper limit on a difference of two
//! clocks, either a constant with a strictness or no limit at all.

use vstd::prelude::*;
use crate::constant::Constant;

verus! {

/// An upper limit on a difference `x - y`.
///
/// `Finite { constant: c, strict: false }` reads `x - y <= c`, with
/// `strict: true` it reads `x - y < c`, and `Infinite` constrains nothing.
pub enum Limit {
    Finite { constant: int, strict: bool },
    Infinite,
}

impl Limit {
    /// The limit `<= 0`.
    pub open spec fn zero() -> Limit {
        Limit::Finite { constant: 0, strict: false }
    }

    /// The limit `<= c`.
    pub open spec fn at_most(c: int) -> Limit {
        Limit::Finite { constant: c, strict: false }
    }

    /// The limit that a constant of `T` and a strictness spell: `< c` or
    /// `<= c`, and no limit at all where `c` is the greatest value of `T`.
    pub open spec fn bounded<T: Constant>(c: int, strict: bool) -> Limit {
        if c == T::highest() {
            Limit::Infinite
        } else {
            Limit::Finite { constant: c, strict }
        }
    }

    /// A finite limit as one ordered integer: twice the constant, less one
    /// for a strict limit.
    pub open spec fn rank(self) -> int
        recommends
            self is Finite,
    {
        2 * self->constant - if self->strict {
            1int
        } else {
            0int
        }
    }

    /// `self` is at least as tight as `other`.
    pub open spec fn le(self, other: Limit) -> bool {
        other is Infinite || (self is Finite && self.rank() <= other.rank())
    }

    /// `self` is tighter than `other`.
    pub open spec fn lt(self, other: Limit) -> bool {
        self is Finite && (other is Infinite || self.rank() < other.rank())
    }

    /// The tighter of two limits.
    pub open spec fn min(self, other: Limit) -> Limit {
        if other.lt(self) {
            other
        } else {
            self
        }
    }

    /// The limit on `x - z` that follows from `self` on `x - y` and `other`
    /// on `y - z`, in unbounded arithmetic.
    pub open spec fn plus(self, other: Limit) -> Limit {
        if self is Finite && other is Finite {
            Limit::Finite {
                constant: self->constant + other->constant,
                strict: self->strict || other->strict,
            }
        } else {
            Limit::Infinite
        }
    }

    /// Whether a constant type can hold this limit: its constant is below
    /// the type's greatest value, which is kept for `Infinite`.
    pub open spec fn fits<T: Constant>(self) -> bool {
        self is Finite ==> T::lowest() <= self->constant < T::highest()
    }

    /// The limit a constant type keeps for `self`: a constant at or above
    /// the greatest value becomes `Infinite`, and one below the least value
    /// becomes the tightest limit the type has, strictly below its least
    /// value. Either way the result is no tighter than `self`, and clamping
    /// keeps the order of limits.
    pub open spec fn clamp<T: Constant>(self) -> Limit {
        match self {
            Limit::Infinite => Limit::Infinite,
            Limit::Finite { constant, strict } => if constant >= T::highest() {
                Limit::Infinite
            } else if constant < T::lowest() {
                Limit::Finite { constant: T::lowest(), strict: true }
            } else {
                self
            },
        }
    }

    /// Path composition as a constant type computes it: `plus`, saturating.
    pub open spec fn combine<T: Constant>(self, other: Limit) -> Limit {
        self.plus(other).clamp::<T>()
    }

    /// The limit with its constant moved by `delta`, saturating; the
    /// strictness stays.
    pub open spec fn offset<T: Constant>(self, delta: int) -> Limit {
        match self {
            Limit::Infinite => Limit::Infinite,
            Limit::Finite { constant, strict } => Limit::Finite {
                constant: constant + delta,
                strict,
            }.clamp::<T>(),
        }
    }
}

/// `le` is a total preorder whose equivalence is equality.
pub proof fn lemma_le_order(a: Limit, b: Limit, c: Limit)
    ensures
        a.le(a),
        a.le(b) || b.le(a),
        a.le(b) && b.le(a) ==> a == b,
        a.le(b) && b.le(c) ==> a.le(c),
        a.lt(b) <==> !b.le(a),
{
}

/// `min` picks one of its arguments, below both.
pub proof fn lemma_min(a: Limit, b: Limit)
    ensures
        a.min(b).le(a),
        a.min(b).le(b),
        a.min(b) == a || a.min(b) == b,
        a.le(b) ==> a.min(b) == a,
{
}

/// Clamping keeps a limit that fits, and what it returns fits.
pub proof fn lemma_clamp<T: Constant>(a: Limit)
    ensures
        a.clamp::<T>().fits::<T>(),
        a.fits::<T>() ==> a.clamp::<T>() == a,
        a.le(a.clamp::<T>()),
{
    T::lemma_limits();
}

/// Saturating composition is monotone, commutative, has `zero` as its
/// identity on limits that fit, and never undercuts the exact sum.
pub proof fn lemma_combine<T: Constant>(a: Limit, b: Limit, c: Limit, d: Limit)
    ensures
        a.combine::<T>(b).fits::<T>(),
        a.combine::<T>(b) == b.combine::<T>(a),
        a.plus(b).le(a.combine::<T>(b)),
        a.le(c) && b.le(d) ==> a.combine::<T>(b).le(c.combine::<T>(d)),
        a.le(c) && b.le(d) ==> a.plus(b).le(c.plus(d)),
        a.fits::<T>() ==> a.combine::<T>(Limit::zero()) == a,
        a.fits::<T>() ==> Limit::zero().combine::<T>(a) == a,
{
    T::lemma_limits();
}

} // verus!
