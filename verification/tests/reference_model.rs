use dbm_baenk::{Bound, DBM, RDBM};

// A plain model of the operations, after their definitions: limits are
// `None` for unbounded or a constant with a strictness, and closing is done
// by whole sweeps until nothing changes.

type Lim = Option<(i64, bool)>;

#[derive(Clone)]
struct Model {
    lo: i64,
    hi: i64,
    rows: Option<Vec<Vec<Lim>>>,
    dim: usize,
}

fn rank(l: (i64, bool)) -> i64 {
    2 * l.0 - if l.1 { 1 } else { 0 }
}

fn lt(a: Lim, b: Lim) -> bool {
    match (a, b) {
        (None, _) => false,
        (Some(_), None) => true,
        (Some(x), Some(y)) => rank(x) < rank(y),
    }
}

fn min(a: Lim, b: Lim) -> Lim {
    if lt(b, a) {
        b
    } else {
        a
    }
}

const ZERO: Lim = Some((0, false));

impl Model {
    fn clamp(&self, l: Lim) -> Lim {
        match l {
            None => None,
            Some((c, s)) => {
                if c >= self.hi {
                    None
                } else if c < self.lo {
                    Some((self.lo, true))
                } else {
                    Some((c, s))
                }
            }
        }
    }

    fn combine(&self, a: Lim, b: Lim) -> Lim {
        match (a, b) {
            (Some((x, s)), Some((y, t))) => self.clamp(Some((x + y, s || t))),
            _ => None,
        }
    }

    fn offset(&self, a: Lim, delta: i64) -> Lim {
        match a {
            None => None,
            Some((c, s)) => self.clamp(Some((c + delta, s))),
        }
    }

    fn bounded(&self, c: i64, strict: bool) -> Lim {
        if c == self.hi {
            None
        } else {
            Some((c, strict))
        }
    }

    fn new(lo: i64, hi: i64, dim: usize, init: bool) -> Model {
        let mut rows = vec![vec![ZERO; dim]; dim];
        if init {
            for i in 1..dim {
                for j in 0..dim {
                    if i != j {
                        rows[i][j] = None;
                    }
                }
            }
        }
        Model { lo, hi, rows: Some(rows), dim }
    }

    fn close(&mut self) {
        let n = self.dim;
        loop {
            let mut m = match self.rows.take() {
                None => return,
                Some(m) => m,
            };
            let before = m.clone();
            for k in 0..n {
                let old = m.clone();
                for i in 0..n {
                    for j in 0..n {
                        m[i][j] = min(old[i][j], self.combine(old[i][k], old[k][j]));
                    }
                }
                for i in 0..n {
                    if m[i][i] != ZERO {
                        return;
                    }
                }
            }
            let same = before == m;
            self.rows = Some(m);
            if same {
                return;
            }
        }
    }

    fn restrict(&mut self, i: usize, j: usize, strict: bool, c: i64) {
        let limit = self.bounded(c, strict);
        let tighter = match &self.rows {
            None => return,
            Some(m) => lt(limit, m[i][j]),
        };
        if !tighter {
            return;
        }
        if i == j {
            self.rows = None;
            return;
        }
        if let Some(m) = self.rows.as_mut() {
            m[i][j] = limit;
        }
        self.close();
    }

    fn future(&mut self) {
        if let Some(m) = self.rows.as_mut() {
            for row in m.iter_mut().skip(1) {
                row[0] = None;
            }
        }
    }

    fn past(&mut self) {
        let n = self.dim;
        if let Some(m) = self.rows.as_mut() {
            for j in 1..n {
                m[0][j] = ZERO;
            }
        }
        self.close();
    }

    fn free(&mut self, x: usize) {
        let n = self.dim;
        if let Some(m) = self.rows.as_mut() {
            let old = m.clone();
            for i in 0..n {
                for j in 0..n {
                    if i != j && i == x {
                        m[i][j] = None;
                    } else if i != j && j == x {
                        m[i][j] = old[i][0];
                    }
                }
            }
        }
    }

    fn assign(&mut self, x: usize, c: i64) {
        let n = self.dim;
        let upper = self.clamp(Some((c, false)));
        let lower = self.clamp(Some((-c, false)));
        if let Some(old) = self.rows.clone() {
            let mut m = old.clone();
            for i in 0..n {
                for j in 0..n {
                    if i != j && i == x {
                        m[i][j] = if j == 0 { upper } else { self.combine(upper, old[0][j]) };
                    } else if i != j && j == x {
                        m[i][j] = if i == 0 { lower } else { self.combine(old[i][0], lower) };
                    }
                }
            }
            self.rows = Some(m);
        }
    }

    fn copy(&mut self, to: usize, from: usize) {
        let n = self.dim;
        if let Some(m) = self.rows.as_mut() {
            let old = m.clone();
            for i in 0..n {
                for j in 0..n {
                    if i != j && i == to {
                        m[i][j] = old[from][j];
                    } else if i != j && j == to {
                        m[i][j] = old[i][from];
                    }
                }
            }
        }
    }

    fn shift(&mut self, x: usize, delta: i64) {
        let n = self.dim;
        if let Some(old) = self.rows.clone() {
            let mut m = old.clone();
            for i in 0..n {
                for j in 0..n {
                    if i != j && i == x {
                        m[i][j] = self.offset(old[i][j], delta);
                    } else if i != j && j == x {
                        m[i][j] = self.offset(old[i][j], -delta);
                    }
                }
            }
            self.rows = Some(m);
        }
    }

    fn included_in(&self, other: &Model) -> bool {
        if self.dim != other.dim {
            return false;
        }
        match (&self.rows, &other.rows) {
            (None, _) => true,
            (Some(_), None) => false,
            (Some(a), Some(b)) => {
                (0..self.dim).all(|i| (0..self.dim).all(|j| !lt(b[i][j], a[i][j])))
            }
        }
    }

    fn satisfied(&self, i: usize, j: usize, strict: bool, c: i64) -> bool {
        match &self.rows {
            None => false,
            Some(m) => {
                let limit = self.bounded(c, strict);
                match (m[j][i], limit) {
                    (Some((x, s)), Some((y, t))) => !lt(Some((x + y, s || t)), ZERO),
                    _ => true,
                }
            }
        }
    }
}

struct Dice(u64);

impl Dice {
    fn roll(&mut self, sides: u64) -> u64 {
        self.0 = self.0.wrapping_mul(6364136223846793005).wrapping_add(1442695040888963407);
        (self.0 >> 33) % sides
    }

    fn within(&mut self, low: i64, high: i64) -> i64 {
        low + self.roll((high - low + 1) as u64) as i64
    }
}

fn limit_of_i8(bound: Bound<i8>) -> Lim {
    if bound.is_infinite() {
        None
    } else {
        Some((bound.constant() as i64, bound.is_strict()))
    }
}

fn limit_of_i32(bound: Bound<i32>) -> Lim {
    if bound.is_infinite() {
        None
    } else {
        Some((bound.constant() as i64, bound.is_strict()))
    }
}

fn agree_i8(dbm: &RDBM<i8>, model: &Model) -> bool {
    if dbm.is_empty() != model.rows.is_none() || dbm.dim() != model.dim {
        return false;
    }
    match &model.rows {
        None => true,
        Some(m) => (0..model.dim).all(|i| {
            (0..model.dim).all(|j| dbm.bound(i, j).map(limit_of_i8) == Some(m[i][j]))
        }),
    }
}

fn agree_i32(dbm: &RDBM<i32>, model: &Model) -> bool {
    if dbm.is_empty() != model.rows.is_none() || dbm.dim() != model.dim {
        return false;
    }
    match &model.rows {
        None => true,
        Some(m) => (0..model.dim).all(|i| {
            (0..model.dim).all(|j| dbm.bound(i, j).map(limit_of_i32) == Some(m[i][j]))
        }),
    }
}

fn step_i8(dice: &mut Dice, dbm: &mut RDBM<i8>, model: &mut Model, span: i64) -> String {
    let n = model.dim;
    let i = dice.roll(n as u64) as usize;
    let j = dice.roll(n as u64) as usize;
    let c = dice.within(-span, span);
    let strict = dice.roll(2) == 0;
    match dice.roll(9) {
        0 | 1 | 2 => {
            DBM::restrict(dbm, i, j, strict, c as i8);
            model.restrict(i, j, strict, c);
            format!("restrict({}, {}, {}, {})", i, j, strict, c)
        }
        3 => {
            DBM::future(dbm);
            model.future();
            format!("future")
        }
        4 => {
            DBM::past(dbm);
            model.past();
            format!("past")
        }
        5 => {
            DBM::free(dbm, i);
            model.free(i);
            format!("free({})", i)
        }
        6 => {
            DBM::assign(dbm, i, c as i8);
            model.assign(i, c);
            format!("assign({}, {})", i, c)
        }
        7 => {
            DBM::copy(dbm, i, j);
            model.copy(i, j);
            format!("copy({}, {})", i, j)
        }
        _ => {
            DBM::shift(dbm, i, c as i8);
            model.shift(i, c);
            format!("shift({}, {})", i, c)
        }
    }
}

fn step_i32(dice: &mut Dice, dbm: &mut RDBM<i32>, model: &mut Model, span: i64) -> String {
    let n = model.dim;
    let i = 1 + dice.roll(n as u64 - 1) as usize;
    let j = dice.roll(n as u64) as usize;
    let c = dice.within(-span, span);
    let strict = dice.roll(2) == 0;
    match dice.roll(10) {
        0 | 1 | 2 => {
            DBM::restrict(dbm, i, j, strict, c as i32);
            model.restrict(i, j, strict, c);
            format!("restrict({}, {}, {}, {})", i, j, strict, c)
        }
        3 => {
            DBM::restrict(dbm, j, i, strict, c as i32);
            model.restrict(j, i, strict, c);
            format!("restrict({}, {}, {}, {})", j, i, strict, c)
        }
        4 => {
            DBM::future(dbm);
            model.future();
            format!("future")
        }
        5 => {
            DBM::past(dbm);
            model.past();
            format!("past")
        }
        6 => {
            DBM::free(dbm, i);
            model.free(i);
            format!("free({})", i)
        }
        7 => {
            DBM::assign(dbm, i, c.abs() as i32);
            model.assign(i, c.abs());
            format!("assign({}, {})", i, c.abs())
        }
        8 => {
            DBM::copy(dbm, i, j);
            model.copy(i, j);
            format!("copy({}, {})", i, j)
        }
        _ => {
            DBM::shift(dbm, i, c as i32);
            model.shift(i, c);
            format!("shift({}, {})", i, c)
        }
    }
}

#[test]
fn small_constants_follow_the_model_and_stay_exact() {
    let mut dice = Dice(2024);
    for round in 0..300 {
        let dim = 2 + dice.roll(4) as usize;
        let init = dice.roll(2) == 0;
        let mut dbm: RDBM<i32> = if init { DBM::init(dim) } else { DBM::zero(dim) };
        let mut model = Model::new(i32::MIN as i64, i32::MAX as i64, dim, init);
        let mut trace: Vec<String> = Vec::new();
        for _ in 0..25 {
            trace.push(step_i32(&mut dice, &mut dbm, &mut model, 20));
            assert!(agree_i32(&dbm, &model), "round {}: {:?}", round, trace);
            assert_eq!(dbm.is_exact(), !dbm.is_empty(), "round {}: {:?}", round, trace);
            let mut closed = dbm.clone();
            DBM::close(&mut closed);
            assert!(agree_i32(&closed, &model), "round {}: close after {:?}", round, trace);
        }
    }
}

#[test]
fn local_restriction_is_closing_after_tightening() {
    let mut dice = Dice(7);
    for round in 0..300 {
        let dim = 2 + dice.roll(5) as usize;
        let mut dbm: RDBM<i32> = DBM::init(dim);
        let mut model = Model::new(i32::MIN as i64, i32::MAX as i64, dim, true);
        let mut trace: Vec<String> = Vec::new();
        for _ in 0..12 {
            let i = dice.roll(dim as u64) as usize;
            let j = dice.roll(dim as u64) as usize;
            let c = dice.within(-5, 30);
            let strict = dice.roll(3) == 0;
            DBM::restrict(&mut dbm, i, j, strict, c as i32);
            model.restrict(i, j, strict, c);
            trace.push(format!("restrict({}, {}, {}, {})", i, j, strict, c));
            assert!(agree_i32(&dbm, &model), "round {}: {:?}", round, trace);
        }
    }
}

#[test]
fn saturating_constants_follow_the_model() {
    let mut dice = Dice(99);
    for round in 0..400 {
        let dim = 1 + dice.roll(4) as usize;
        let init = dice.roll(2) == 0;
        let mut dbm: RDBM<i8> = if init { DBM::init(dim) } else { DBM::zero(dim) };
        let mut model = Model::new(i8::MIN as i64, i8::MAX as i64, dim, init);
        let mut trace: Vec<String> = Vec::new();
        for _ in 0..20 {
            trace.push(step_i8(&mut dice, &mut dbm, &mut model, 127));
            assert!(agree_i8(&dbm, &model), "round {}: {:?}", round, trace);
        }
    }
}

#[test]
fn queries_follow_the_model() {
    let mut dice = Dice(5);
    for round in 0..200 {
        let dim = 2 + dice.roll(3) as usize;
        let mut a: RDBM<i8> = DBM::init(dim);
        let mut b: RDBM<i8> = DBM::init(dim);
        let mut ma = Model::new(i8::MIN as i64, i8::MAX as i64, dim, true);
        let mut mb = ma.clone();
        for _ in 0..6 {
            step_i8(&mut dice, &mut a, &mut ma, 40);
            step_i8(&mut dice, &mut b, &mut mb, 40);
        }
        assert_eq!(DBM::is_included_in(&a, &b), ma.included_in(&mb), "round {}", round);
        assert_eq!(DBM::is_included_in(&b, &a), mb.included_in(&ma), "round {}", round);
        for _ in 0..10 {
            let i = dice.roll(dim as u64) as usize;
            let j = dice.roll(dim as u64) as usize;
            let c = dice.within(-128, 127);
            let strict = dice.roll(2) == 0;
            assert_eq!(
                DBM::is_satisfied(&a, i, j, strict, c as i8),
                ma.satisfied(i, j, strict, c),
                "round {}: is_satisfied({}, {}, {}, {})",
                round,
                i,
                j,
                strict,
                c
            );
        }
    }
}

#[test]
fn exactness_is_lost_to_saturation_and_found_again_by_closing() {
    let mut dbm: RDBM<i8> = DBM::init(4);
    assert!(dbm.is_exact());
    DBM::free(&mut dbm, 0);
    DBM::restrict(&mut dbm, 0, 2, false, 100);
    assert!(dbm.is_exact());
    DBM::restrict(&mut dbm, 2, 3, false, 100);
    assert!(!dbm.is_exact());
    DBM::close(&mut dbm);
    assert!(!dbm.is_exact());
    let mut small: RDBM<i8> = DBM::zero(3);
    DBM::assign(&mut small, 1, 100);
    assert!(small.is_exact());
    DBM::shift(&mut small, 1, 100);
    assert!(!small.is_exact());
    DBM::assign(&mut small, 1, 5);
    DBM::close(&mut small);
    assert!(small.is_exact());
    assert_eq!(small.bound(1, 0).map(|b| b.constant()), Some(5));
    assert_eq!(small.bound(1, 2).map(|b| b.constant()), Some(5));
}

#[test]
fn the_empty_zone_is_not_exact() {
    let mut dbm: RDBM<i8> = DBM::zero(3);
    DBM::restrict(&mut dbm, 1, 2, true, 0);
    assert!(dbm.is_empty());
    assert!(!dbm.is_exact());
}

#[test]
fn the_mark_follows_the_operations() {
    let mut dbm: RDBM<i8> = DBM::init(3);
    assert!(dbm.is_exact());
    DBM::future(&mut dbm);
    DBM::free(&mut dbm, 2);
    DBM::copy(&mut dbm, 2, 1);
    assert!(dbm.is_exact());
    DBM::assign(&mut dbm, 1, 10);
    DBM::shift(&mut dbm, 1, 10);
    assert!(dbm.is_exact());
    DBM::restrict(&mut dbm, 2, 0, false, 50);
    DBM::past(&mut dbm);
    DBM::close(&mut dbm);
    assert!(dbm.is_exact());
    let copy = dbm.clone();
    assert!(copy.is_exact());
    DBM::assign(&mut dbm, 1, i8::MAX);
    assert!(!dbm.is_exact());
    assert!(copy.is_exact());
    DBM::future(&mut dbm);
    DBM::free(&mut dbm, 2);
    assert!(!dbm.is_exact());
    let mut moved: RDBM<i8> = DBM::zero(2);
    DBM::shift(&mut moved, 1, 127);
    assert!(!moved.is_exact());
    let mut fine: RDBM<i8> = DBM::zero(2);
    DBM::shift(&mut fine, 1, 126);
    assert!(fine.is_exact());
    assert_eq!(fine.try_shift(5, 1), Err(dbm_baenk::DbmError::ClockOutOfRange));
    assert!(fine.is_exact());
}
