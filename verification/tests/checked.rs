use dbm_baenk::{DbmError, DBM, RDBM};

#[test]
fn try_init_needs_a_clock() {
    assert!(matches!(RDBM::<i8>::try_init(0), Err(DbmError::NoClocks)));
    assert!(matches!(RDBM::<i8>::try_zero(0), Err(DbmError::NoClocks)));
    assert_eq!(RDBM::<i8>::check_dim(0), Err(DbmError::NoClocks));
}

#[test]
fn try_init_refuses_a_square_too_large() {
    assert!(matches!(RDBM::<i8>::try_init(usize::MAX), Err(DbmError::TooManyClocks)));
    assert!(matches!(RDBM::<i8>::try_zero(usize::MAX), Err(DbmError::TooManyClocks)));
    assert_eq!(RDBM::<i32>::check_dim(usize::MAX / 2), Err(DbmError::TooManyClocks));
    assert_eq!(RDBM::<i32>::check_dim(3), Ok(()));
}

#[test]
fn try_init_is_init() {
    let checked: RDBM<i8> = match RDBM::try_init(4) {
        Ok(dbm) => dbm,
        Err(_) => panic!("four clocks were refused"),
    };
    let plain: RDBM<i8> = DBM::init(4);
    assert!(DBM::is_included_in(&checked, &plain));
    assert!(DBM::is_included_in(&plain, &checked));
    assert_eq!(checked.dim(), 4);
}

#[test]
fn try_zero_is_zero() {
    let checked: RDBM<i8> = match RDBM::try_zero(4) {
        Ok(dbm) => dbm,
        Err(_) => panic!("four clocks were refused"),
    };
    let plain: RDBM<i8> = DBM::zero(4);
    assert!(DBM::is_included_in(&checked, &plain));
    assert!(DBM::is_included_in(&plain, &checked));
}

#[test]
fn check_clock_knows_the_dimension() {
    let dbm: RDBM<i8> = DBM::init(3);
    assert_eq!(dbm.check_clock(0), Ok(()));
    assert_eq!(dbm.check_clock(2), Ok(()));
    assert_eq!(dbm.check_clock(3), Err(DbmError::ClockOutOfRange));
    assert_eq!(dbm.check_clock(usize::MAX), Err(DbmError::ClockOutOfRange));
}

#[test]
fn try_restrict_rejects_and_leaves_the_matrix() {
    let mut dbm: RDBM<i8> = DBM::init(3);
    let before = dbm.clone();
    assert_eq!(dbm.try_restrict(3, 0, false, 5), Err(DbmError::ClockOutOfRange));
    assert_eq!(dbm.try_restrict(0, 3, false, 5), Err(DbmError::ClockOutOfRange));
    assert!(DBM::is_included_in(&dbm, &before));
    assert!(DBM::is_included_in(&before, &dbm));
    assert_eq!(dbm.try_restrict(1, 0, false, 5), Ok(()));
    assert!(DBM::is_included_in(&dbm, &before));
    assert!(!DBM::is_included_in(&before, &dbm));
    assert_eq!(dbm.bound(1, 0).map(|b| b.constant()), Some(5));
}

#[test]
fn try_is_satisfied_rejects_or_answers() {
    let dbm: RDBM<i8> = DBM::zero(3);
    assert_eq!(dbm.try_is_satisfied(3, 0, false, 5), Err(DbmError::ClockOutOfRange));
    assert_eq!(dbm.try_is_satisfied(0, 7, false, 5), Err(DbmError::ClockOutOfRange));
    assert_eq!(dbm.try_is_satisfied(1, 2, true, 0), Ok(false));
    assert_eq!(dbm.try_is_satisfied(1, 2, false, 0), Ok(true));
}

#[test]
fn try_free_rejects_or_frees() {
    let mut dbm: RDBM<i8> = DBM::zero(3);
    let zero = dbm.clone();
    assert_eq!(dbm.try_free(3), Err(DbmError::ClockOutOfRange));
    assert!(DBM::is_included_in(&dbm, &zero));
    assert_eq!(dbm.try_free(2), Ok(()));
    assert!(!DBM::is_included_in(&dbm, &zero));
    assert!(dbm.bound(2, 0).map(|b| b.is_infinite()) == Some(true));
}

#[test]
fn try_assign_rejects_or_assigns() {
    let mut dbm: RDBM<i8> = DBM::zero(3);
    let zero = dbm.clone();
    assert_eq!(dbm.try_assign(5, 9), Err(DbmError::ClockOutOfRange));
    assert!(DBM::is_included_in(&zero, &dbm));
    assert_eq!(dbm.try_assign(1, 9), Ok(()));
    assert_eq!(dbm.bound(1, 0).map(|b| b.constant()), Some(9));
    assert_eq!(dbm.bound(0, 1).map(|b| b.constant()), Some(-9));
}

#[test]
fn try_copy_rejects_or_copies() {
    let mut dbm: RDBM<i8> = DBM::zero(3);
    DBM::assign(&mut dbm, 1, 9);
    let before = dbm.clone();
    assert_eq!(dbm.try_copy(3, 1), Err(DbmError::ClockOutOfRange));
    assert_eq!(dbm.try_copy(2, 3), Err(DbmError::ClockOutOfRange));
    assert!(DBM::is_included_in(&before, &dbm));
    assert!(DBM::is_included_in(&dbm, &before));
    assert_eq!(dbm.try_copy(2, 1), Ok(()));
    assert_eq!(dbm.bound(2, 0).map(|b| b.constant()), Some(9));
}

#[test]
fn try_shift_rejects_or_shifts() {
    let mut dbm: RDBM<i8> = DBM::zero(3);
    let zero = dbm.clone();
    assert_eq!(dbm.try_shift(3, 4), Err(DbmError::ClockOutOfRange));
    assert!(DBM::is_included_in(&zero, &dbm));
    assert_eq!(dbm.try_shift(2, 4), Ok(()));
    assert_eq!(dbm.bound(2, 0).map(|b| b.constant()), Some(4));
    assert_eq!(dbm.bound(0, 2).map(|b| b.constant()), Some(-4));
}

#[test]
fn bound_is_none_outside_the_matrix() {
    let dbm: RDBM<i8> = DBM::zero(3);
    assert!(dbm.bound(3, 0).is_none());
    assert!(dbm.bound(0, 3).is_none());
    assert!(dbm.bound(2, 2).is_some());
}
