use dbm_baenk::{DBM, RDBM};

fn includes_both_ways(a: &RDBM<i8>, b: &RDBM<i8>) -> bool {
    DBM::is_included_in(a, b) && DBM::is_included_in(b, a)
}

fn restricted(order: [usize; 3]) -> RDBM<i8> {
    let constraints: [(usize, usize, i8); 3] = [(1, 2, 10), (1, 0, 15), (2, 3, 20)];
    let mut dbm: RDBM<i8> = DBM::init(10);
    for index in order {
        let (i, j, constant) = constraints[index];
        DBM::restrict(&mut dbm, i, j, false, constant);
    }
    dbm
}

#[test]
fn closing_zero_changes_nothing_for_any_dimension() {
    for dim in 1..12 {
        let zero: RDBM<i8> = DBM::zero(dim);
        let mut closed = zero.clone();
        DBM::close(&mut closed);
        assert!(DBM::is_included_in(&zero, &closed));
        assert!(DBM::is_included_in(&closed, &zero));
    }
}

#[test]
fn closing_init_changes_nothing_for_any_dimension() {
    for dim in 1..12 {
        let init: RDBM<i8> = DBM::init(dim);
        let mut closed = init.clone();
        DBM::close(&mut closed);
        assert!(includes_both_ways(&init, &closed));
    }
}

#[test]
fn zero_lies_in_init_for_any_dimension() {
    for dim in 1..12 {
        let zero: RDBM<i8> = DBM::zero(dim);
        let init: RDBM<i8> = DBM::init(dim);
        assert!(DBM::is_included_in(&zero, &init));
        assert_eq!(DBM::is_included_in(&init, &zero), dim == 1);
    }
}

#[test]
fn a_zone_lies_in_its_future() {
    let mut dbm: RDBM<i8> = DBM::init(5);
    DBM::restrict(&mut dbm, 1, 0, false, 10);
    DBM::restrict(&mut dbm, 2, 1, true, 3);
    let present = dbm.clone();
    DBM::future(&mut dbm);
    assert!(DBM::is_included_in(&present, &dbm));
    assert!(!DBM::is_included_in(&dbm, &present));
}

#[test]
fn the_future_lies_in_a_zone_without_upper_bounds() {
    let mut dbm: RDBM<i8> = DBM::init(5);
    DBM::restrict(&mut dbm, 0, 1, false, -10);
    DBM::restrict(&mut dbm, 1, 2, true, 3);
    let present = dbm.clone();
    DBM::future(&mut dbm);
    assert!(DBM::is_included_in(&present, &dbm));
    assert!(DBM::is_included_in(&dbm, &present));
}

#[test]
fn restrict_in_every_order_gives_one_zone() {
    let reference = restricted([0, 1, 2]);
    let orders: [[usize; 3]; 6] =
        [[0, 1, 2], [0, 2, 1], [1, 0, 2], [1, 2, 0], [2, 0, 1], [2, 1, 0]];
    for order in orders {
        let dbm = restricted(order);
        assert!(DBM::is_included_in(&dbm, &reference));
        assert!(DBM::is_included_in(&reference, &dbm));
    }
    assert_eq!(reference.bound(1, 0).map(|b| b.constant()), Some(15));
    assert_eq!(reference.bound(1, 2).map(|b| b.constant()), Some(10));
    assert_eq!(reference.bound(1, 3).map(|b| b.constant()), Some(15));
    assert_eq!(reference.bound(1, 4).map(|b| b.constant()), Some(15));
    assert_eq!(reference.bound(2, 0).map(|b| b.is_infinite()), Some(true));
    assert_eq!(reference.bound(2, 3).map(|b| b.constant()), Some(20));
}

#[test]
fn free_once_is_free_five_times() {
    let mut once: RDBM<i8> = DBM::zero(10);
    let mut often = once.clone();
    DBM::free(&mut once, 1);
    for _ in 0..5 {
        DBM::free(&mut often, 1);
    }
    assert!(includes_both_ways(&once, &often));
}

#[test]
fn free_twice_is_free_once_on_a_wider_zone() {
    let mut once: RDBM<i8> = DBM::init(4);
    DBM::restrict(&mut once, 1, 0, false, 10);
    DBM::restrict(&mut once, 2, 1, true, 3);
    DBM::restrict(&mut once, 0, 2, false, -1);
    let mut twice = once.clone();
    DBM::free(&mut once, 2);
    DBM::free(&mut twice, 2);
    DBM::free(&mut twice, 2);
    assert!(includes_both_ways(&once, &twice));
}

#[test]
fn copy_undoes_free_on_zero() {
    let zero: RDBM<i8> = DBM::zero(10);
    let mut dbm = zero.clone();
    DBM::free(&mut dbm, 1);
    assert!(!DBM::is_included_in(&dbm, &zero));
    DBM::copy(&mut dbm, 1, 2);
    assert!(DBM::is_included_in(&zero, &dbm));
    assert!(DBM::is_included_in(&dbm, &zero));
}

#[test]
fn three_shifts_give_four_zones_none_in_another() {
    let mut dbm: RDBM<i8> = DBM::init(10);
    DBM::assign(&mut dbm, 1, 10);
    let mut zones: Vec<RDBM<i8>> = vec![dbm.clone()];
    for _ in 0..3 {
        DBM::shift(&mut dbm, 1, 10);
        zones.push(dbm.clone());
    }
    assert_eq!(zones.len(), 4);
    for a in 0..4 {
        for b in 0..4 {
            assert_eq!(DBM::is_included_in(&zones[a], &zones[b]), a == b);
        }
    }
    assert_eq!(zones[3].bound(1, 0).map(|b| b.constant()), Some(40));
    assert_eq!(zones[3].bound(0, 1).map(|b| b.constant()), Some(-40));
}

#[test]
fn inclusion_is_reflexive() {
    let mut dbm: RDBM<i8> = DBM::init(4);
    assert!(DBM::is_included_in(&dbm, &dbm));
    DBM::restrict(&mut dbm, 1, 2, true, 7);
    assert!(DBM::is_included_in(&dbm, &dbm));
    DBM::restrict(&mut dbm, 2, 1, true, -7);
    assert!(dbm.is_empty());
    assert!(DBM::is_included_in(&dbm, &dbm));
}

#[test]
fn inclusion_is_transitive() {
    let wide: RDBM<i8> = DBM::init(4);
    let mut middle = wide.clone();
    DBM::restrict(&mut middle, 1, 0, false, 10);
    let mut narrow = middle.clone();
    DBM::restrict(&mut narrow, 1, 0, true, 5);
    assert!(DBM::is_included_in(&narrow, &middle));
    assert!(DBM::is_included_in(&middle, &wide));
    assert!(DBM::is_included_in(&narrow, &wide));
    assert!(!DBM::is_included_in(&wide, &narrow));
}

#[test]
fn inclusion_both_ways_means_the_same_bounds() {
    let mut a: RDBM<i8> = DBM::init(3);
    DBM::restrict(&mut a, 1, 0, false, 10);
    DBM::restrict(&mut a, 2, 1, false, 5);
    let mut b: RDBM<i8> = DBM::init(3);
    DBM::restrict(&mut b, 2, 1, false, 5);
    DBM::restrict(&mut b, 1, 0, false, 10);
    assert!(includes_both_ways(&a, &b));
    for i in 0..3 {
        for j in 0..3 {
            let x = a.bound(i, j).unwrap();
            let y = b.bound(i, j).unwrap();
            assert!(x.equals(&y));
        }
    }
}

#[test]
fn closing_twice_is_closing_once() {
    let mut dbm: RDBM<i8> = DBM::init(4);
    DBM::restrict(&mut dbm, 1, 0, false, 10);
    DBM::restrict(&mut dbm, 2, 1, false, 5);
    DBM::close(&mut dbm);
    let once = dbm.clone();
    DBM::close(&mut dbm);
    assert!(includes_both_ways(&dbm, &once));
}

#[test]
fn assign_after_free_restores_zero() {
    let zero: RDBM<i8> = DBM::zero(10);
    let mut dbm = zero.clone();
    DBM::free(&mut dbm, 1);
    DBM::assign(&mut dbm, 1, 0);
    assert!(includes_both_ways(&dbm, &zero));
}
