use dbm_baenk::{DBM, RDBM};

#[test]
fn test_init() {
    let _ = <RDBM<i8>>::init(3);
}

#[test]
fn test_relation_init() {
    let x: RDBM<i8> = DBM::init(3);
    let y: RDBM<i8> = DBM::init(3);
    assert_eq!(DBM::is_included_in(&x, &y), true);
    assert_eq!(DBM::is_included_in(&y, &x), true);
}

#[test]
fn test_zero_close() {
    let dim: usize = 10;
    let dbm_zero: RDBM<i8> = DBM::zero(dim);
    let mut dbm_closed: RDBM<i8> = DBM::zero(dim);
    DBM::close(&mut dbm_closed);

    assert_eq!(DBM::is_included_in(&dbm_zero, &dbm_closed), true);
    assert_eq!(DBM::is_included_in(&dbm_closed, &dbm_zero), true);
}

#[test]
fn test_init_close() {
    let dim: usize = 10;
    let dbm_init: RDBM<i8> = DBM::init(dim);
    let mut dbm_closed: RDBM<i8> = DBM::init(dim);
    DBM::close(&mut dbm_closed);

    assert_eq!(DBM::is_included_in(&dbm_init, &dbm_closed), true);
    assert_eq!(DBM::is_included_in(&dbm_closed, &dbm_init), true);
}

#[test]
fn test_init_different_from_zero() {
    let dim: usize = 10;
    let dbm_init: RDBM<i8> = DBM::init(dim);
    let dbm_zero: RDBM<i8> = DBM::zero(dim);

    assert_eq!(DBM::is_included_in(&dbm_zero, &dbm_init), true);
    assert_eq!(DBM::is_included_in(&dbm_init, &dbm_zero), false);
}

#[test]
fn test_zero() {
    let dim: usize = 10;
    let dbm: RDBM<i8> = DBM::zero(dim);
    assert_eq!(DBM::is_satisfied(&dbm, 1, 2, true, 0), false);
}

#[test]
fn test_future_included_in() {
    let dim: usize = 10;
    let mut dbm: RDBM<i8> = DBM::zero(dim);
    let dbm2: RDBM<i8> = DBM::zero(dim);
    DBM::future(&mut dbm);
    assert_eq!(DBM::is_included_in(&dbm2, &dbm), true);
    assert_eq!(DBM::is_included_in(&dbm, &dbm2), false);
}

#[test]
fn test_restrict() {
    let dim: usize = 10;
    let mut dbm: RDBM<i8> = DBM::init(dim);
    let dbm2: RDBM<i8> = DBM::init(dim);
    DBM::restrict(&mut dbm, 1, 0, false, 10);
    assert_eq!(DBM::is_included_in(&dbm, &dbm2), true);
    assert_eq!(DBM::is_included_in(&dbm2, &dbm), false);
}

#[test]
fn test_restrict_with_satisfies() {
    let dim: usize = 10;
    let mut dbm: RDBM<i8> = DBM::init(dim);
    DBM::restrict(&mut dbm, 1, 0, false, 10);
    assert_eq!(DBM::is_satisfied(&dbm, 1, 0, false, 15), true);
    assert_eq!(DBM::is_satisfied(&dbm, 1, 0, false, 5), true);
    assert_eq!(DBM::is_satisfied(&dbm, 1, 0, false, -20), false);
}

#[test]
fn test_restrict_lower_bound() {
    let dim: usize = 10;
    let mut dbm: RDBM<i8> = DBM::init(dim);
    DBM::restrict(&mut dbm, 0, 1, false, -10);
    assert_eq!(DBM::is_satisfied(&dbm, 1, 0, false, 15), true);
    assert_eq!(DBM::is_satisfied(&dbm, 1, 0, false, 5), false);
}

#[test]
fn test_restrict_lower_closed() {
    let dim: usize = 10;
    let mut dbm: RDBM<i8> = DBM::init(dim);
    DBM::restrict(&mut dbm, 0, 1, false, -10);
    let dbm2 = dbm.clone();
    DBM::close(&mut dbm);
    assert_eq!(DBM::is_included_in(&dbm, &dbm2), true);
    assert_eq!(DBM::is_included_in(&dbm2, &dbm), true);
}

#[test]
fn test_free() {
    let dim: usize = 10;
    let mut dbm: RDBM<i8> = DBM::zero(dim);
    let dbm2: RDBM<i8> = DBM::zero(dim);
    DBM::free(&mut dbm, 1);
    assert_eq!(DBM::is_included_in(&dbm2, &dbm), true);
    assert_eq!(DBM::is_included_in(&dbm, &dbm2), false);
}

#[test]
fn test_free_and_reassign() {
    let dim: usize = 10;
    let dbm_orig: RDBM<i8> = DBM::zero(dim);
    let mut dbm = dbm_orig.clone();
    DBM::free(&mut dbm, 1);
    DBM::assign(&mut dbm, 1, 0);
    assert_eq!(DBM::is_included_in(&dbm_orig, &dbm), true);
    assert_eq!(DBM::is_included_in(&dbm, &dbm_orig), true);
}

#[test]
fn test_copy() {
    let dim: usize = 10;
    let dbm_orig: RDBM<i8> = DBM::zero(dim);
    let mut dbm = dbm_orig.clone();
    DBM::copy(&mut dbm, 1, 2);
    assert_eq!(DBM::is_included_in(&dbm_orig, &dbm), true);
    assert_eq!(DBM::is_included_in(&dbm, &dbm_orig), true);
}

#[test]
fn test_assign_zero() {
    let dim: usize = 10;
    let mut dbm: RDBM<i8> = DBM::zero(dim);
    let dbm2: RDBM<i8> = DBM::zero(dim);
    DBM::assign(&mut dbm, 1, 10);
    assert_eq!(DBM::is_included_in(&dbm2, &dbm), false);
    assert_eq!(DBM::is_included_in(&dbm, &dbm2), false);
}

#[test]
fn test_assign_init() {
    let dim: usize = 10;
    let mut dbm: RDBM<i8> = DBM::init(dim);
    let dbm2: RDBM<i8> = DBM::init(dim);
    DBM::assign(&mut dbm, 1, 10);
    assert_eq!(DBM::is_included_in(&dbm, &dbm2), true);
    assert_eq!(DBM::is_included_in(&dbm2, &dbm), false);
}

#[test]
fn test_free_and_copy() {
    let dim: usize = 10;
    let mut dbm: RDBM<i8> = DBM::zero(dim);
    let dbm2: RDBM<i8> = DBM::zero(dim);
    DBM::free(&mut dbm, 1);
    DBM::copy(&mut dbm, 1, 2);
    assert_eq!(DBM::is_included_in(&dbm2, &dbm), true);
    assert_eq!(DBM::is_included_in(&dbm, &dbm2), true);
}

#[test]
fn test_shift() {
    let dim: usize = 10;
    let mut dbm: RDBM<i8> = DBM::init(dim);
    let mut dbm2: RDBM<i8> = DBM::init(dim);
    DBM::assign(&mut dbm, 1, 10);
    DBM::assign(&mut dbm2, 1, 10);
    DBM::shift(&mut dbm, 1, 10);
    assert_eq!(DBM::is_included_in(&dbm2, &dbm), false);
    assert_eq!(DBM::is_included_in(&dbm, &dbm2), false);
}

#[test]
fn test_restrict_different_order() {
    let dim: usize = 10;
    let mut dbm: RDBM<i8> = DBM::init(dim);
    let mut dbm_reordered = dbm.clone();

    DBM::restrict(&mut dbm_reordered, 1, 2, false, 10);
    DBM::restrict(&mut dbm_reordered, 1, 0, false, 15);
    DBM::restrict(&mut dbm_reordered, 2, 3, false, 20);

    DBM::restrict(&mut dbm, 2, 3, false, 20);
    DBM::restrict(&mut dbm, 1, 2, false, 10);
    DBM::restrict(&mut dbm, 1, 0, false, 15);

    assert_eq!(DBM::is_included_in(&dbm, &dbm_reordered), true);
    assert_eq!(DBM::is_included_in(&dbm_reordered, &dbm), true);
}

#[test]
fn test_redundant_free() {
    let dim: usize = 10;
    let mut dbm: RDBM<i8> = DBM::zero(dim);
    let mut dbm_redundant = dbm.clone();

    DBM::free(&mut dbm, 1);

    DBM::free(&mut dbm_redundant, 1);
    DBM::free(&mut dbm_redundant, 1);
    DBM::free(&mut dbm_redundant, 1);
    DBM::free(&mut dbm_redundant, 1);
    DBM::free(&mut dbm_redundant, 1);

    assert_eq!(DBM::is_included_in(&dbm, &dbm_redundant), true);
    assert_eq!(DBM::is_included_in(&dbm_redundant, &dbm), true);
}
