use dbm_baenk::{Bound, DBM, RDBM};

fn entry(dbm: &RDBM<i8>, i: usize, j: usize) -> Bound<i8> {
    match dbm.bound(i, j) {
        Some(bound) => bound,
        None => panic!("no bound at ({}, {})", i, j),
    }
}

fn is(dbm: &RDBM<i8>, i: usize, j: usize, constant: i8, strict: bool) -> bool {
    let bound = entry(dbm, i, j);
    !bound.is_infinite() && bound.constant() == constant && bound.is_strict() == strict
}

fn unbounded(dbm: &RDBM<i8>, i: usize, j: usize) -> bool {
    entry(dbm, i, j).is_infinite()
}

fn same(a: &RDBM<i8>, b: &RDBM<i8>) -> bool {
    DBM::is_included_in(a, b) && DBM::is_included_in(b, a)
}

#[test]
fn zero_has_zero_everywhere() {
    let dbm: RDBM<i8> = DBM::zero(4);
    assert_eq!(dbm.dim(), 4);
    assert!(!dbm.is_empty());
    for i in 0..4 {
        for j in 0..4 {
            assert!(is(&dbm, i, j, 0, false));
        }
    }
}

#[test]
fn init_bounds_clocks_from_below_only() {
    let dbm: RDBM<i8> = DBM::init(4);
    assert_eq!(dbm.dim(), 4);
    assert!(!dbm.is_empty());
    for i in 0..4 {
        for j in 0..4 {
            if i == j || i == 0 {
                assert!(is(&dbm, i, j, 0, false));
            } else {
                assert!(unbounded(&dbm, i, j));
            }
        }
    }
}

#[test]
fn one_clock_init_is_zero() {
    let init: RDBM<i8> = DBM::init(1);
    let zero: RDBM<i8> = DBM::zero(1);
    assert!(same(&init, &zero));
    assert!(is(&init, 0, 0, 0, false));
}

#[test]
fn inclusion_needs_the_same_clocks() {
    let small: RDBM<i8> = DBM::zero(3);
    let large: RDBM<i8> = DBM::init(4);
    assert!(!DBM::is_included_in(&small, &large));
    assert!(!DBM::is_included_in(&large, &small));
}

#[test]
fn future_drops_the_upper_bounds() {
    let mut dbm: RDBM<i8> = DBM::zero(3);
    DBM::assign(&mut dbm, 1, 5);
    DBM::future(&mut dbm);
    assert!(unbounded(&dbm, 1, 0));
    assert!(unbounded(&dbm, 2, 0));
    assert!(is(&dbm, 0, 1, -5, false));
    assert!(is(&dbm, 0, 2, 0, false));
    assert!(is(&dbm, 1, 2, 5, false));
    assert!(is(&dbm, 2, 1, -5, false));
    assert!(is(&dbm, 0, 0, 0, false));
}

#[test]
fn future_of_init_is_init() {
    let init: RDBM<i8> = DBM::init(5);
    let mut dbm = init.clone();
    DBM::future(&mut dbm);
    assert!(same(&dbm, &init));
}

#[test]
fn past_resets_lower_bounds_and_closes() {
    let mut dbm: RDBM<i8> = DBM::zero(3);
    DBM::assign(&mut dbm, 1, 10);
    DBM::assign(&mut dbm, 2, 20);
    DBM::past(&mut dbm);
    assert!(is(&dbm, 1, 0, 10, false));
    assert!(is(&dbm, 2, 0, 20, false));
    assert!(is(&dbm, 0, 1, 0, false));
    assert!(is(&dbm, 0, 2, -10, false));
    assert!(is(&dbm, 1, 2, -10, false));
    assert!(is(&dbm, 2, 1, 10, false));
}

#[test]
fn past_of_zero_is_zero() {
    let zero: RDBM<i8> = DBM::zero(4);
    let mut dbm = zero.clone();
    DBM::past(&mut dbm);
    assert!(same(&dbm, &zero));
}

#[test]
fn restrict_tightens_one_bound_of_init() {
    let mut dbm: RDBM<i8> = DBM::init(3);
    DBM::restrict(&mut dbm, 1, 0, true, 10);
    assert!(is(&dbm, 1, 0, 10, true));
    assert!(unbounded(&dbm, 2, 0));
    assert!(is(&dbm, 1, 2, 10, true));
    assert!(unbounded(&dbm, 2, 1));
    assert!(is(&dbm, 0, 1, 0, false));
}

#[test]
fn restrict_propagates_through_other_clocks() {
    let mut dbm: RDBM<i8> = DBM::init(4);
    DBM::restrict(&mut dbm, 1, 0, false, 10);
    DBM::restrict(&mut dbm, 2, 1, true, 5);
    DBM::restrict(&mut dbm, 3, 2, false, 1);
    assert!(is(&dbm, 2, 0, 15, true));
    assert!(is(&dbm, 3, 0, 16, true));
    assert!(is(&dbm, 3, 1, 6, true));
    assert!(is(&dbm, 1, 0, 10, false));
    assert!(is(&dbm, 1, 2, 10, false));
    assert!(is(&dbm, 2, 3, 15, true));
    assert!(unbounded(&dbm, 1, 0) == false);
    assert!(unbounded(&dbm, 0, 0) == false);
    assert!(is(&dbm, 0, 3, 0, false));
}

#[test]
fn restrict_with_a_looser_bound_changes_nothing() {
    let mut dbm: RDBM<i8> = DBM::zero(3);
    let zero = dbm.clone();
    DBM::restrict(&mut dbm, 1, 2, false, 0);
    assert!(same(&dbm, &zero));
    DBM::restrict(&mut dbm, 1, 2, false, 5);
    assert!(same(&dbm, &zero));
    DBM::restrict(&mut dbm, 1, 2, false, i8::MAX);
    assert!(same(&dbm, &zero));
    assert!(!dbm.is_empty());
}

#[test]
fn restrict_to_a_contradiction_empties_the_zone() {
    let mut dbm: RDBM<i8> = DBM::init(3);
    DBM::restrict(&mut dbm, 1, 0, false, 5);
    assert!(!dbm.is_empty());
    DBM::restrict(&mut dbm, 0, 1, false, -10);
    assert!(dbm.is_empty());
    assert!(dbm.bound(0, 0).is_none());
    assert_eq!(dbm.dim(), 3);
}

#[test]
fn restrict_strictly_below_equal_bounds_empties_the_zone() {
    let mut dbm: RDBM<i8> = DBM::zero(3);
    DBM::restrict(&mut dbm, 1, 2, true, 0);
    assert!(dbm.is_empty());
}

#[test]
fn restrict_on_the_diagonal() {
    let mut dbm: RDBM<i8> = DBM::init(3);
    let init = dbm.clone();
    DBM::restrict(&mut dbm, 1, 1, false, 0);
    assert!(same(&dbm, &init));
    DBM::restrict(&mut dbm, 1, 1, false, 3);
    assert!(same(&dbm, &init));
    DBM::restrict(&mut dbm, 1, 1, true, 0);
    assert!(dbm.is_empty());
}

#[test]
fn the_empty_zone_answers_as_empty() {
    let mut empty: RDBM<i8> = DBM::zero(3);
    DBM::restrict(&mut empty, 1, 2, true, 0);
    let zero: RDBM<i8> = DBM::zero(3);
    let init: RDBM<i8> = DBM::init(3);
    assert!(DBM::is_included_in(&empty, &zero));
    assert!(DBM::is_included_in(&empty, &init));
    assert!(DBM::is_included_in(&empty, &empty));
    assert!(!DBM::is_included_in(&zero, &empty));
    assert!(!DBM::is_included_in(&init, &empty));
    assert!(!DBM::is_satisfied(&empty, 1, 0, false, 100));
    assert!(!DBM::is_satisfied(&empty, 0, 0, false, 0));
}

#[test]
fn the_empty_zone_stays_empty() {
    let mut dbm: RDBM<i8> = DBM::zero(3);
    DBM::restrict(&mut dbm, 1, 2, true, 0);
    DBM::close(&mut dbm);
    assert!(dbm.is_empty());
    DBM::future(&mut dbm);
    assert!(dbm.is_empty());
    DBM::past(&mut dbm);
    assert!(dbm.is_empty());
    DBM::restrict(&mut dbm, 1, 0, false, 100);
    assert!(dbm.is_empty());
    DBM::free(&mut dbm, 1);
    assert!(dbm.is_empty());
    DBM::assign(&mut dbm, 1, 3);
    assert!(dbm.is_empty());
    DBM::copy(&mut dbm, 1, 2);
    assert!(dbm.is_empty());
    DBM::shift(&mut dbm, 1, 3);
    assert!(dbm.is_empty());
    assert_eq!(dbm.dim(), 3);
}

#[test]
fn free_unbinds_the_row_and_copies_column_zero() {
    let mut dbm: RDBM<i8> = DBM::zero(3);
    DBM::assign(&mut dbm, 1, 4);
    DBM::assign(&mut dbm, 2, 7);
    DBM::free(&mut dbm, 1);
    assert!(unbounded(&dbm, 1, 0));
    assert!(unbounded(&dbm, 1, 2));
    assert!(is(&dbm, 0, 1, 0, false));
    assert!(is(&dbm, 2, 1, 7, false));
    assert!(is(&dbm, 1, 1, 0, false));
    assert!(is(&dbm, 2, 0, 7, false));
    assert!(is(&dbm, 0, 2, -7, false));
}

#[test]
fn assign_sets_both_bounds_and_goes_through_the_reference() {
    let mut dbm: RDBM<i8> = DBM::zero(3);
    DBM::assign(&mut dbm, 2, 7);
    DBM::assign(&mut dbm, 1, 4);
    assert!(is(&dbm, 1, 0, 4, false));
    assert!(is(&dbm, 0, 1, -4, false));
    assert!(is(&dbm, 1, 2, -3, false));
    assert!(is(&dbm, 2, 1, 3, false));
    assert!(is(&dbm, 2, 0, 7, false));
    assert!(is(&dbm, 1, 1, 0, false));
}

#[test]
fn assign_on_init_leaves_other_clocks_unbounded() {
    let mut dbm: RDBM<i8> = DBM::init(3);
    DBM::assign(&mut dbm, 1, 10);
    assert!(is(&dbm, 1, 0, 10, false));
    assert!(is(&dbm, 0, 1, -10, false));
    assert!(is(&dbm, 1, 2, 10, false));
    assert!(unbounded(&dbm, 2, 1));
    assert!(unbounded(&dbm, 2, 0));
}

#[test]
fn copy_takes_row_and_column() {
    let mut dbm: RDBM<i8> = DBM::zero(4);
    DBM::assign(&mut dbm, 1, 4);
    DBM::assign(&mut dbm, 2, 7);
    DBM::copy(&mut dbm, 3, 2);
    assert!(is(&dbm, 3, 0, 7, false));
    assert!(is(&dbm, 0, 3, -7, false));
    assert!(is(&dbm, 3, 1, 3, false));
    assert!(is(&dbm, 1, 3, -3, false));
    assert!(is(&dbm, 3, 2, 0, false));
    assert!(is(&dbm, 2, 3, 0, false));
    assert!(is(&dbm, 3, 3, 0, false));
    assert!(is(&dbm, 2, 0, 7, false));
}

#[test]
fn copy_onto_itself_changes_nothing() {
    let mut dbm: RDBM<i8> = DBM::init(4);
    DBM::assign(&mut dbm, 2, 7);
    let before = dbm.clone();
    DBM::copy(&mut dbm, 2, 2);
    assert!(same(&dbm, &before));
}

#[test]
fn shift_moves_row_up_and_column_down() {
    let mut dbm: RDBM<i8> = DBM::init(3);
    DBM::assign(&mut dbm, 1, 4);
    DBM::restrict(&mut dbm, 2, 0, true, 1);
    DBM::shift(&mut dbm, 1, 10);
    assert!(is(&dbm, 1, 0, 14, false));
    assert!(is(&dbm, 0, 1, -14, false));
    assert!(is(&dbm, 1, 2, 14, false));
    assert!(is(&dbm, 2, 1, -13, true));
    assert!(is(&dbm, 2, 0, 1, true));
    assert!(is(&dbm, 1, 1, 0, false));
}

#[test]
fn shift_accumulates() {
    let mut dbm: RDBM<i8> = DBM::zero(3);
    DBM::shift(&mut dbm, 1, 10);
    DBM::shift(&mut dbm, 1, 10);
    DBM::shift(&mut dbm, 1, -5);
    assert!(is(&dbm, 1, 0, 15, false));
    assert!(is(&dbm, 0, 1, -15, false));
}

#[test]
fn shift_saturates() {
    let mut dbm: RDBM<i8> = DBM::zero(3);
    DBM::assign(&mut dbm, 1, 100);
    DBM::shift(&mut dbm, 1, 100);
    assert!(unbounded(&dbm, 1, 0));
    assert!(unbounded(&dbm, 1, 2));
    assert!(is(&dbm, 0, 1, -128, true));
    assert!(is(&dbm, 2, 1, -128, true));
}

#[test]
fn assign_of_the_greatest_constant_unbinds_from_above() {
    let mut dbm: RDBM<i8> = DBM::zero(3);
    DBM::assign(&mut dbm, 1, i8::MAX);
    assert!(unbounded(&dbm, 1, 0));
    assert!(is(&dbm, 0, 1, -127, false));
}

#[test]
fn assign_of_the_least_constant_unbinds_from_below() {
    let mut dbm: RDBM<i8> = DBM::zero(3);
    DBM::assign(&mut dbm, 1, i8::MIN);
    assert!(is(&dbm, 1, 0, -128, false));
    assert!(unbounded(&dbm, 0, 1));
    assert!(unbounded(&dbm, 2, 1));
}

#[test]
fn is_satisfied_tests_the_cycle_through_both_clocks() {
    let mut dbm: RDBM<i8> = DBM::init(3);
    DBM::restrict(&mut dbm, 0, 1, false, -10);
    assert!(DBM::is_satisfied(&dbm, 1, 0, false, 10));
    assert!(!DBM::is_satisfied(&dbm, 1, 0, true, 10));
    assert!(!DBM::is_satisfied(&dbm, 1, 0, false, 9));
    assert!(DBM::is_satisfied(&dbm, 1, 0, true, 11));
    assert!(DBM::is_satisfied(&dbm, 1, 0, false, i8::MAX));
    assert!(DBM::is_satisfied(&dbm, 2, 1, false, -100));
}

#[test]
fn is_satisfied_on_the_diagonal() {
    let dbm: RDBM<i8> = DBM::init(3);
    assert!(DBM::is_satisfied(&dbm, 1, 1, false, 0));
    assert!(!DBM::is_satisfied(&dbm, 1, 1, true, 0));
    assert!(DBM::is_satisfied(&dbm, 1, 1, true, 1));
    assert!(!DBM::is_satisfied(&dbm, 1, 1, false, -1));
}

#[test]
fn close_tightens_what_saturation_left_loose() {
    let mut dbm: RDBM<i8> = DBM::init(4);
    DBM::free(&mut dbm, 0);
    DBM::restrict(&mut dbm, 0, 2, false, 100);
    DBM::restrict(&mut dbm, 2, 3, false, 100);
    assert!(unbounded(&dbm, 0, 3));
    DBM::assign(&mut dbm, 1, -100);
    assert!(is(&dbm, 1, 2, 0, false));
    assert!(unbounded(&dbm, 1, 3));
    let loose = dbm.clone();
    DBM::close(&mut dbm);
    assert!(is(&dbm, 1, 3, 100, false));
    assert!(DBM::is_included_in(&dbm, &loose));
    assert!(!DBM::is_included_in(&loose, &dbm));
    let closed = dbm.clone();
    DBM::close(&mut dbm);
    assert!(same(&dbm, &closed));
}

#[test]
fn clone_is_independent() {
    let mut dbm: RDBM<i8> = DBM::zero(3);
    let copy = dbm.clone();
    DBM::free(&mut dbm, 1);
    assert!(is(&copy, 1, 0, 0, false));
    assert!(unbounded(&dbm, 1, 0));
    assert_eq!(copy.dim(), 3);
}

#[test]
fn wider_constants_hold_wider_zones() {
    let mut dbm: RDBM<i32> = DBM::init(3);
    DBM::restrict(&mut dbm, 1, 0, false, 1_000_000);
    DBM::restrict(&mut dbm, 2, 1, true, 2_000_000);
    assert_eq!(dbm.bound(2, 0).map(|b| b.constant()), Some(3_000_000));
    assert_eq!(dbm.bound(2, 0).map(|b| b.is_strict()), Some(true));
    let mut wide: RDBM<i64> = DBM::zero(2);
    DBM::shift(&mut wide, 1, 5_000_000_000);
    assert_eq!(wide.bound(1, 0).map(|b| b.constant()), Some(5_000_000_000));
    assert_eq!(wide.bound(0, 1).map(|b| b.constant()), Some(-5_000_000_000));
    let mut short: RDBM<i16> = DBM::zero(2);
    DBM::assign(&mut short, 1, 30_000);
    DBM::shift(&mut short, 1, 30_000);
    assert_eq!(short.bound(1, 0).map(|b| b.is_infinite()), Some(true));
}
