//! The numeric capability a bound constant needs: an order, zero, a largest
//! value that stands for "unbounded", and saturating addition and subtraction.

use vstd::prelude::*;

verus! {

/// Clamps `x` into the closed interval from `lo` to `hi`.
pub open spec fn saturate(x: int, lo: int, hi: int) -> int {
    if x < lo {
        lo
    } else if x > hi {
        hi
    } else {
        x
    }
}

/// A signed integer type usable as the constant of a bound.
///
/// `highest()` is reserved: it is the "unbounded" sentinel, so the finite
/// constants are those from `lowest()` up to `highest() - 1`.
pub trait Constant: Copy + Sized {
    /// The mathematical integer this constant stands for.
    spec fn value(self) -> int;

    /// The least representable value.
    spec fn lowest() -> int;

    /// The greatest representable value.
    spec fn highest() -> int;

    /// Every constant lies between the two limits.
    proof fn lemma_in_range(c: Self)
        ensures
            Self::lowest() <= c.value() <= Self::highest(),
    ;

    /// Zero is a finite constant, and negative constants exist.
    proof fn lemma_limits()
        ensures
            Self::lowest() < 0 < Self::highest(),
    ;

    fn zero() -> (r: Self)
        ensures
            r.value() == 0,
    ;

    fn min_value() -> (r: Self)
        ensures
            r.value() == Self::lowest(),
    ;

    fn max_value() -> (r: Self)
        ensures
            r.value() == Self::highest(),
    ;

    /// `self + rhs`, clamped at the limits instead of wrapping.
    fn saturating_add(self, rhs: Self) -> (r: Self)
        ensures
            r.value() == saturate(self.value() + rhs.value(), Self::lowest(), Self::highest()),
    ;

    /// `self - rhs`, clamped at the limits instead of wrapping.
    fn saturating_sub(self, rhs: Self) -> (r: Self)
        ensures
            r.value() == saturate(self.value() - rhs.value(), Self::lowest(), Self::highest()),
    ;

    fn less_than(self, rhs: Self) -> (r: bool)
        ensures
            r == (self.value() < rhs.value()),
    ;

    fn equals(self, rhs: Self) -> (r: bool)
        ensures
            r == (self.value() == rhs.value()),
    ;
}

impl Constant for i8 {
    open spec fn value(self) -> int {
        self as int
    }

    open spec fn lowest() -> int {
        i8::MIN as int
    }

    open spec fn highest() -> int {
        i8::MAX as int
    }

    proof fn lemma_in_range(c: Self) {
    }

    proof fn lemma_limits() {
    }

    fn zero() -> (r: Self) {
        0
    }

    fn min_value() -> (r: Self) {
        i8::MIN
    }

    fn max_value() -> (r: Self) {
        i8::MAX
    }

    fn saturating_add(self, rhs: Self) -> (r: Self) {
        match self.checked_add(rhs) {
            Some(sum) => sum,
            None => if rhs < 0 {
                i8::MIN
            } else {
                i8::MAX
            },
        }
    }

    fn saturating_sub(self, rhs: Self) -> (r: Self) {
        match self.checked_sub(rhs) {
            Some(difference) => difference,
            None => if rhs < 0 {
                i8::MAX
            } else {
                i8::MIN
            },
        }
    }

    fn less_than(self, rhs: Self) -> (r: bool) {
        self < rhs
    }

    fn equals(self, rhs: Self) -> (r: bool) {
        self == rhs
    }
}

impl Constant for i16 {
    open spec fn value(self) -> int {
        self as int
    }

    open spec fn lowest() -> int {
        i16::MIN as int
    }

    open spec fn highest() -> int {
        i16::MAX as int
    }

    proof fn lemma_in_range(c: Self) {
    }

    proof fn lemma_limits() {
    }

    fn zero() -> (r: Self) {
        0
    }

    fn min_value() -> (r: Self) {
        i16::MIN
    }

    fn max_value() -> (r: Self) {
        i16::MAX
    }

    fn saturating_add(self, rhs: Self) -> (r: Self) {
        match self.checked_add(rhs) {
            Some(sum) => sum,
            None => if rhs < 0 {
                i16::MIN
            } else {
                i16::MAX
            },
        }
    }

    fn saturating_sub(self, rhs: Self) -> (r: Self) {
        match self.checked_sub(rhs) {
            Some(difference) => difference,
            None => if rhs < 0 {
                i16::MAX
            } else {
                i16::MIN
            },
        }
    }

    fn less_than(self, rhs: Self) -> (r: bool) {
        self < rhs
    }

    fn equals(self, rhs: Self) -> (r: bool) {
        self == rhs
    }
}

impl Constant for i32 {
    open spec fn value(self) -> int {
        self as int
    }

    open spec fn lowest() -> int {
        i32::MIN as int
    }

    open spec fn highest() -> int {
        i32::MAX as int
    }

    proof fn lemma_in_range(c: Self) {
    }

    proof fn lemma_limits() {
    }

    fn zero() -> (r: Self) {
        0
    }

    fn min_value() -> (r: Self) {
        i32::MIN
    }

    fn max_value() -> (r: Self) {
        i32::MAX
    }

    fn saturating_add(self, rhs: Self) -> (r: Self) {
        match self.checked_add(rhs) {
            Some(sum) => sum,
            None => if rhs < 0 {
                i32::MIN
            } else {
                i32::MAX
            },
        }
    }

    fn saturating_sub(self, rhs: Self) -> (r: Self) {
        match self.checked_sub(rhs) {
            Some(difference) => difference,
            None => if rhs < 0 {
                i32::MAX
            } else {
                i32::MIN
            },
        }
    }

    fn less_than(self, rhs: Self) -> (r: bool) {
        self < rhs
    }

    fn equals(self, rhs: Self) -> (r: bool) {
        self == rhs
    }
}

impl Constant for i64 {
    open spec fn value(self) -> int {
        self as int
    }

    open spec fn lowest() -> int {
        i64::MIN as int
    }

    open spec fn highest() -> int {
        i64::MAX as int
    }

    proof fn lemma_in_range(c: Self) {
    }

    proof fn lemma_limits() {
    }

    fn zero() -> (r: Self) {
        0
    }

    fn min_value() -> (r: Self) {
        i64::MIN
    }

    fn max_value() -> (r: Self) {
        i64::MAX
    }

    fn saturating_add(self, rhs: Self) -> (r: Self) {
        match self.checked_add(rhs) {
            Some(sum) => sum,
            None => if rhs < 0 {
                i64::MIN
            } else {
                i64::MAX
            },
        }
    }

    fn saturating_sub(self, rhs: Self) -> (r: Self) {
        match self.checked_sub(rhs) {
            Some(difference) => difference,
            None => if rhs < 0 {
                i64::MAX
            } else {
                i64::MIN
            },
        }
    }

    fn less_than(self, rhs: Self) -> (r: bool) {
        self < rhs
    }

    fn equals(self, rhs: Self) -> (r: bool) {
        self == rhs
    }
}

impl Constant for i128 {
    open spec fn value(self) -> int {
        self as int
    }

    open spec fn lowest() -> int {
        i128::MIN as int
    }

    open spec fn highest() -> int {
        i128::MAX as int
    }

    proof fn lemma_in_range(c: Self) {
    }

    proof fn lemma_limits() {
    }

    fn zero() -> (r: Self) {
        0
    }

    fn min_value() -> (r: Self) {
        i128::MIN
    }

    fn max_value() -> (r: Self) {
        i128::MAX
    }

    fn saturating_add(self, rhs: Self) -> (r: Self) {
        match self.checked_add(rhs) {
            Some(sum) => sum,
            None => if rhs < 0 {
                i128::MIN
            } else {
                i128::MAX
            },
        }
    }

    fn saturating_sub(self, rhs: Self) -> (r: Self) {
        match self.checked_sub(rhs) {
            Some(difference) => difference,
            None => if rhs < 0 {
                i128::MAX
            } else {
                i128::MIN
            },
        }
    }

    fn less_than(self, rhs: Self) -> (r: bool) {
        self < rhs
    }

    fn equals(self, rhs: Self) -> (r: bool) {
        self == rhs
    }
}

} // verus!
