use dbm_baenk::{Bound, Constant};

fn finite(bound: Bound<i8>, constant: i8, strict: bool) -> bool {
    !bound.is_infinite() && bound.constant() == constant && bound.is_strict() == strict
}

#[test]
fn constant_saturating_add_i8() {
    assert_eq!(<i8 as Constant>::saturating_add(100, 27), 127);
    assert_eq!(<i8 as Constant>::saturating_add(100, 100), 127);
    assert_eq!(<i8 as Constant>::saturating_add(-100, -100), -128);
    assert_eq!(<i8 as Constant>::saturating_add(-100, 100), 0);
    assert_eq!(<i8 as Constant>::saturating_add(3, 4), 7);
}

#[test]
fn constant_saturating_sub_i8() {
    assert_eq!(<i8 as Constant>::saturating_sub(100, -100), 127);
    assert_eq!(<i8 as Constant>::saturating_sub(-100, 100), -128);
    assert_eq!(<i8 as Constant>::saturating_sub(0, -128), 127);
    assert_eq!(<i8 as Constant>::saturating_sub(3, 4), -1);
}

#[test]
fn constant_limits_of_each_width() {
    assert_eq!(<i8 as Constant>::max_value(), i8::MAX);
    assert_eq!(<i8 as Constant>::min_value(), i8::MIN);
    assert_eq!(<i8 as Constant>::zero(), 0);
    assert_eq!(<i16 as Constant>::max_value(), i16::MAX);
    assert_eq!(<i16 as Constant>::min_value(), i16::MIN);
    assert_eq!(<i32 as Constant>::max_value(), i32::MAX);
    assert_eq!(<i32 as Constant>::min_value(), i32::MIN);
    assert_eq!(<i64 as Constant>::max_value(), i64::MAX);
    assert_eq!(<i64 as Constant>::min_value(), i64::MIN);
    assert_eq!(<i64 as Constant>::zero(), 0);
}

#[test]
fn constant_saturates_at_each_width() {
    assert_eq!(<i16 as Constant>::saturating_add(i16::MAX, 1), i16::MAX);
    assert_eq!(<i16 as Constant>::saturating_sub(i16::MIN, 1), i16::MIN);
    assert_eq!(<i32 as Constant>::saturating_add(i32::MAX - 1, 5), i32::MAX);
    assert_eq!(<i32 as Constant>::saturating_add(-7, 5), -2);
    assert_eq!(<i32 as Constant>::saturating_sub(i32::MIN + 1, 5), i32::MIN);
    assert_eq!(<i64 as Constant>::saturating_add(i64::MIN, -1), i64::MIN);
    assert_eq!(<i64 as Constant>::saturating_sub(i64::MAX, -1), i64::MAX);
    assert_eq!(<i64 as Constant>::saturating_sub(10, 4), 6);
}

#[test]
fn constant_order() {
    assert!(<i8 as Constant>::less_than(-1, 0));
    assert!(!<i8 as Constant>::less_than(0, 0));
    assert!(<i8 as Constant>::equals(5, 5));
    assert!(!<i32 as Constant>::equals(5, 6));
    assert!(<i64 as Constant>::less_than(i64::MIN, i64::MAX));
}

#[test]
fn bound_constructors() {
    assert!(finite(Bound::new(5, false), 5, false));
    assert!(finite(Bound::new(5, true), 5, true));
    assert!(finite(Bound::zero(), 0, false));
    assert!(Bound::<i8>::infinity().is_infinite());
    assert_eq!(Bound::<i8>::infinity().constant(), i8::MAX);
    assert!(!Bound::<i8>::infinity().is_strict());
}

#[test]
fn bound_greatest_constant_is_unbounded() {
    assert!(Bound::<i8>::new(i8::MAX, false).is_infinite());
    assert!(Bound::<i8>::new(i8::MAX, true).is_infinite());
    assert!(!Bound::<i8>::new(i8::MAX, true).is_strict());
    assert!(Bound::<i8>::new(i8::MAX, true).equals(&Bound::infinity()));
    assert!(!Bound::<i8>::new(i8::MAX - 1, false).is_infinite());
}

#[test]
fn bound_order_is_twice_the_constant_less_one_if_strict() {
    let strict_five: Bound<i8> = Bound::new(5, true);
    let weak_five: Bound<i8> = Bound::new(5, false);
    let strict_six: Bound<i8> = Bound::new(6, true);
    assert!(strict_five.less_than(&weak_five));
    assert!(weak_five.less_than(&strict_six));
    assert!(strict_five.less_than(&strict_six));
    assert!(!weak_five.less_than(&strict_five));
    assert!(!weak_five.less_than(&weak_five));
    assert!(weak_five.less_than(&Bound::infinity()));
    assert!(!Bound::<i8>::infinity().less_than(&weak_five));
    assert!(!Bound::<i8>::infinity().less_than(&Bound::infinity()));
}

#[test]
fn bound_equals() {
    assert!(Bound::<i8>::new(5, true).equals(&Bound::new(5, true)));
    assert!(!Bound::<i8>::new(5, true).equals(&Bound::new(5, false)));
    assert!(!Bound::<i8>::new(5, true).equals(&Bound::new(4, true)));
    assert!(!Bound::<i8>::new(5, true).equals(&Bound::infinity()));
}

#[test]
fn bound_min() {
    let a: Bound<i8> = Bound::new(5, true);
    let b: Bound<i8> = Bound::new(5, false);
    assert!(finite(a.min(b), 5, true));
    assert!(finite(b.min(a), 5, true));
    assert!(finite(b.min(Bound::infinity()), 5, false));
    assert!(finite(Bound::infinity().min(b), 5, false));
}

#[test]
fn bound_combine_adds_constants_and_keeps_strictness() {
    let a: Bound<i8> = Bound::new(3, false);
    let b: Bound<i8> = Bound::new(4, true);
    assert!(finite(a.combine(b), 7, true));
    assert!(finite(b.combine(a), 7, true));
    assert!(finite(a.combine(a), 6, false));
    assert!(finite(b.combine(b), 8, true));
    assert!(finite(a.combine(Bound::new(-10, false)), -7, false));
    assert!(finite(a.combine(Bound::zero()), 3, false));
}

#[test]
fn bound_combine_with_unbounded_is_unbounded() {
    let a: Bound<i8> = Bound::new(-100, true);
    assert!(a.combine(Bound::infinity()).is_infinite());
    assert!(Bound::infinity().combine(a).is_infinite());
    assert!(Bound::<i8>::infinity().combine(Bound::infinity()).is_infinite());
}

#[test]
fn bound_combine_saturates_upwards_to_unbounded() {
    let a: Bound<i8> = Bound::new(100, false);
    assert!(a.combine(a).is_infinite());
    assert!(a.combine(Bound::new(27, true)).is_infinite());
    assert!(finite(a.combine(Bound::new(26, true)), 126, true));
}

#[test]
fn bound_combine_saturates_downwards_to_the_tightest_bound() {
    let a: Bound<i8> = Bound::new(-100, false);
    assert!(finite(a.combine(a), -128, true));
    assert!(finite(a.combine(Bound::new(-29, false)), -128, true));
    assert!(finite(a.combine(Bound::new(-28, false)), -128, false));
    assert!(finite(a.combine(Bound::new(-28, true)), -128, true));
    assert!(finite(a.combine(Bound::new(-27, false)), -127, false));
}

#[test]
fn bound_raised_and_lowered() {
    let a: Bound<i8> = Bound::new(10, true);
    assert!(finite(a.raised(5), 15, true));
    assert!(finite(a.lowered(5), 5, true));
    assert!(finite(a.raised(-5), 5, true));
    assert!(finite(a.lowered(-5), 15, true));
    assert!(a.raised(117).is_infinite());
    assert!(a.raised(120).is_infinite());
    assert!(a.lowered(-120).is_infinite());
    assert!(finite(a.raised(116), 126, true));
    assert!(Bound::<i8>::infinity().raised(-100).is_infinite());
    assert!(Bound::<i8>::infinity().lowered(100).is_infinite());
}

#[test]
fn bound_lowered_below_the_least_constant() {
    let a: Bound<i8> = Bound::new(-100, false);
    assert!(finite(a.lowered(28), -128, false));
    assert!(finite(a.lowered(29), -128, true));
    assert!(finite(a.raised(-28), -128, false));
    assert!(finite(a.raised(-29), -128, true));
    assert!(finite(a.lowered(127), -128, true));
}

#[test]
fn bound_of_wider_constants() {
    let a: Bound<i32> = Bound::new(1_000_000, false);
    let b: Bound<i32> = Bound::new(2_000_000_000, true);
    assert_eq!(a.combine(a).constant(), 2_000_000);
    assert!(b.combine(b).is_infinite());
    let c: Bound<i64> = Bound::new(-4_000_000_000, true);
    assert_eq!(c.combine(c).constant(), -8_000_000_000);
    assert!(c.combine(c).is_strict());
    let d: Bound<i16> = Bound::new(-30_000, false);
    assert_eq!(d.combine(d).constant(), i16::MIN);
    assert!(d.combine(d).is_strict());
}

#[test]
fn constant_of_the_widest_type() {
    assert_eq!(<i128 as Constant>::max_value(), i128::MAX);
    assert_eq!(<i128 as Constant>::min_value(), i128::MIN);
    assert_eq!(<i128 as Constant>::zero(), 0);
    assert_eq!(<i128 as Constant>::saturating_add(i128::MAX, 1), i128::MAX);
    assert_eq!(<i128 as Constant>::saturating_add(i128::MIN, -1), i128::MIN);
    assert_eq!(<i128 as Constant>::saturating_sub(i128::MIN, 1), i128::MIN);
    assert_eq!(<i128 as Constant>::saturating_sub(0, i128::MIN), i128::MAX);
    assert_eq!(<i128 as Constant>::saturating_add(1 << 100, 1 << 100), 1 << 101);
    let wide: Bound<i128> = Bound::new(1 << 100, true);
    assert_eq!(wide.combine(wide).constant(), 1 << 101);
    assert!(wide.combine(wide).is_strict());
}
