//! Valuations that witness the limits of a closed grid: such a grid holds a
//! valuation, and every one of its limits is as tight as the set of its
//! valuations allows.

use vstd::prelude::*;
use crate::canonical::lemma_exact_triangle;
use crate::closure::lemma_matrix_le;
use crate::constant::Constant;
use crate::limit::{lemma_combine, lemma_le_order, Limit};
use crate::matrix::Matrix;
use crate::semantics::lemma_le_admits;
use crate::zone::Zone;

verus! {

impl Matrix {
    /// The values of the clocks in `done` meet every limit between two of
    /// them. Only differences count: the reference clock need not be at 0.
    pub open spec fn meets(self, values: Seq<int>, scale: int, done: Set<int>) -> bool {
        &&& scale >= 1
        &&& values.len() == self.dim()
        &&& forall|a: int, b: int|
            0 <= a < self.dim() && 0 <= b < self.dim() && done.contains(a) && done.contains(b)
                ==> #[trigger] self.at(a, b).admits(values[a] - values[b], scale)
    }

    /// The least value that clock `k` may take on account of clock `a`.
    pub open spec fn floor_from(self, values: Seq<int>, scale: int, k: int, a: int) -> Option<
        int,
    > {
        match self.at(a, k) {
            Limit::Infinite => None,
            Limit::Finite { constant, strict } => Some(
                values[a] - constant * scale + if strict {
                    1int
                } else {
                    0int
                },
            ),
        }
    }

    /// The greatest value that clock `k` may take on account of clock `b`.
    pub open spec fn ceiling_from(self, values: Seq<int>, scale: int, k: int, b: int) -> Option<
        int,
    > {
        match self.at(k, b) {
            Limit::Infinite => None,
            Limit::Finite { constant, strict } => Some(
                values[b] + constant * scale - if strict {
                    1int
                } else {
                    0int
                },
            ),
        }
    }

    /// The least value that clock `k` may take on account of the clocks in
    /// `done` below `n`; `None` if none of them bounds it from below.
    pub open spec fn floor(self, values: Seq<int>, scale: int, k: int, done: Set<int>, n: nat)
        -> Option<int>
        decreases n,
    {
        if n == 0 {
            None
        } else {
            let rest = self.floor(values, scale, k, done, (n - 1) as nat);
            let here = self.floor_from(values, scale, k, n - 1);
            if !done.contains(n - 1) || here is None {
                rest
            } else if rest is None || rest->0 < here->0 {
                here
            } else {
                rest
            }
        }
    }

    /// The greatest value that clock `k` may take on account of the clocks
    /// in `done` below `n`; `None` if none of them bounds it from above.
    pub open spec fn ceiling(self, values: Seq<int>, scale: int, k: int, done: Set<int>, n: nat)
        -> Option<int>
        decreases n,
    {
        if n == 0 {
            None
        } else {
            let rest = self.ceiling(values, scale, k, done, (n - 1) as nat);
            let here = self.ceiling_from(values, scale, k, n - 1);
            if !done.contains(n - 1) || here is None {
                rest
            } else if rest is None || here->0 < rest->0 {
                here
            } else {
                rest
            }
        }
    }
}

/// The clocks that have a value once those below `k` have been given one:
/// the seeds and the clocks below `k`.
pub open spec fn seeded(seeds: Set<int>, k: int) -> Set<int> {
    Set::new(|a: int| a < k || seeds.contains(a))
}

/// Whether a difference meets a limit does not depend on the denominator
/// it is written over.
pub proof fn lemma_admits_scaled(limit: Limit, d: int, scale: int, factor: int)
    requires
        factor >= 1,
    ensures
        limit.admits(factor * d, factor * scale) <==> limit.admits(d, scale),
{
    if limit is Finite {
        let c = limit->constant;
        assert(c * (factor * scale) == factor * (c * scale)) by (nonlinear_arith);
        let x = c * scale;
        assert(d < x <==> factor * d < factor * x) by (nonlinear_arith)
            requires
                factor >= 1,
        ;
        assert(d <= x <==> factor * d <= factor * x) by (nonlinear_arith)
            requires
                factor >= 1,
        ;
    }
}

/// What the single bounds say: a value for clock `k` meets the limits
/// between `k` and a clock `a` exactly when it lies between the floor and
/// the ceiling that `a` gives.
pub proof fn lemma_floor_ceiling_from(
    m: Matrix,
    values: Seq<int>,
    scale: int,
    k: int,
    a: int,
    x: int,
)
    ensures
        m.at(a, k).admits(values[a] - x, scale) <==> (m.floor_from(values, scale, k, a) matches Some(
            f,
        ) ==> f <= x),
        m.at(k, a).admits(x - values[a], scale) <==> (m.ceiling_from(
            values,
            scale,
            k,
            a,
        ) matches Some(u) ==> x <= u),
{
}

/// The floor is the greatest of the single floors, and the ceiling the
/// least of the single ceilings.
pub proof fn lemma_floor_ceiling(
    m: Matrix,
    values: Seq<int>,
    scale: int,
    k: int,
    done: Set<int>,
    n: nat,
)
    ensures
        forall|a: int|
            0 <= a < n && done.contains(a) && (#[trigger] m.floor_from(values, scale, k, a))
                is Some ==> m.floor(values, scale, k, done, n) is Some && m.floor_from(
                values,
                scale,
                k,
                a,
            )->0 <= m.floor(values, scale, k, done, n)->0,
        m.floor(values, scale, k, done, n) is Some ==> exists|a: int|
            0 <= a < n && done.contains(a) && #[trigger] m.floor_from(values, scale, k, a)
                == m.floor(values, scale, k, done, n),
        forall|b: int|
            0 <= b < n && done.contains(b) && (#[trigger] m.ceiling_from(values, scale, k, b))
                is Some ==> m.ceiling(values, scale, k, done, n) is Some && m.ceiling(
                values,
                scale,
                k,
                done,
                n,
            )->0 <= m.ceiling_from(values, scale, k, b)->0,
        m.ceiling(values, scale, k, done, n) is Some ==> exists|b: int|
            0 <= b < n && done.contains(b) && #[trigger] m.ceiling_from(values, scale, k, b)
                == m.ceiling(values, scale, k, done, n),
    decreases n,
{
    if n > 0 {
        lemma_floor_ceiling(m, values, scale, k, done, (n - 1) as nat);
        let last = n - 1;
        if m.floor(values, scale, k, done, n) is Some {
            if m.floor(values, scale, k, done, n) == m.floor_from(values, scale, k, last)
                && done.contains(last) {
                assert(0 <= last < n && done.contains(last) && m.floor_from(
                    values,
                    scale,
                    k,
                    last,
                ) == m.floor(values, scale, k, done, n));
            } else {
                let a = choose|a: int|
                    0 <= a < n - 1 && done.contains(a) && #[trigger] m.floor_from(
                        values,
                        scale,
                        k,
                        a,
                    ) == m.floor(values, scale, k, done, (n - 1) as nat);
                assert(0 <= a < n && done.contains(a) && m.floor_from(values, scale, k, a)
                    == m.floor(values, scale, k, done, n));
            }
        }
        if m.ceiling(values, scale, k, done, n) is Some {
            if m.ceiling(values, scale, k, done, n) == m.ceiling_from(values, scale, k, last)
                && done.contains(last) {
                assert(0 <= last < n && done.contains(last) && m.ceiling_from(
                    values,
                    scale,
                    k,
                    last,
                ) == m.ceiling(values, scale, k, done, n));
            } else {
                let b = choose|b: int|
                    0 <= b < n - 1 && done.contains(b) && #[trigger] m.ceiling_from(
                        values,
                        scale,
                        k,
                        b,
                    ) == m.ceiling(values, scale, k, done, (n - 1) as nat);
                assert(0 <= b < n && done.contains(b) && m.ceiling_from(values, scale, k, b)
                    == m.ceiling(values, scale, k, done, n));
            }
        }
    }
}

/// With the values written over twice the denominator, no floor that a
/// clock gives to `k` lies above a ceiling that a clock gives to `k`.
pub proof fn lemma_floor_below_ceiling(
    m: Matrix,
    values: Seq<int>,
    scale: int,
    done: Set<int>,
    k: int,
    a: int,
    b: int,
)
    requires
        m.is_closed_exactly(),
        m.meets(values, scale, done),
        0 <= k < m.dim(),
        0 <= a < m.dim(),
        0 <= b < m.dim(),
        done.contains(a),
        done.contains(b),
    ensures
        m.floor_from(values.map_values(|v: int| 2 * v), 2 * scale, k, a) matches Some(f) ==> (
        m.ceiling_from(values.map_values(|v: int| 2 * v), 2 * scale, k, b) matches Some(u) ==> f
            <= u),
{
    let doubled = values.map_values(|v: int| 2 * v);
    if m.at(a, k) is Finite && m.at(k, b) is Finite {
        let through = m.at(a, k).plus(m.at(k, b));
        let d = values[a] - values[b];
        assert(m.at(a, b).admits(d, scale));
        assert(m.at(a, b).le(through));
        lemma_le_admits(m.at(a, b), through, d, scale);
        let x = m.at(a, k)->constant;
        let y = m.at(k, b)->constant;
        assert((x + y) * scale == x * scale + y * scale) by (nonlinear_arith);
        assert(x * (2 * scale) == 2 * (x * scale)) by (nonlinear_arith);
        assert(y * (2 * scale) == 2 * (y * scale)) by (nonlinear_arith);
        assert(doubled[a] == 2 * values[a]);
        assert(doubled[b] == 2 * values[b]);
    }
}

/// Gives values to the clocks from `k` on, one after another, so that in
/// the end every limit of the grid is met. The values that were there are
/// kept, written over a denominator that is `factor` times as large.
pub proof fn lemma_extend(m: Matrix, values: Seq<int>, scale: int, seeds: Set<int>, k: nat) -> (r:
    (Seq<int>, int, int))
    requires
        m.dim() >= 1,
        m.diagonal_zero(),
        m.is_closed_exactly(),
        m.meets(values, scale, seeded(seeds, k as int)),
        k <= m.dim(),
    ensures
        r.2 >= 1,
        r.1 == r.2 * scale,
        m.meets(r.0, r.1, Set::new(|a: int| true)),
        forall|a: int|
            0 <= a < m.dim() && seeded(seeds, k as int).contains(a) ==> #[trigger] r.0[a] == r.2
                * values[a],
    decreases m.dim() - k,
{
    let done = seeded(seeds, k as int);
    if k == m.dim() {
        assert forall|a: int, b: int|
            0 <= a < m.dim() && 0 <= b < m.dim() implies #[trigger] m.at(a, b).admits(
            values[a] - values[b],
            scale,
        ) by {
            assert(done.contains(a) && done.contains(b));
        }
        assert forall|a: int| 0 <= a < m.dim() implies #[trigger] values[a] == 1 * values[a] by {}
        (values, scale, 1)
    } else if seeds.contains(k as int) {
        assert(seeded(seeds, k as int + 1) =~= done);
        lemma_extend(m, values, scale, seeds, k + 1)
    } else {
        let doubled = values.map_values(|v: int| 2 * v);
        let twice = 2 * scale;
        let n = m.dim();
        let low = m.floor(doubled, twice, k as int, done, n);
        let high = m.ceiling(doubled, twice, k as int, done, n);
        let x = if low is Some {
            low->0
        } else if high is Some {
            high->0
        } else {
            0int
        };
        lemma_floor_ceiling(m, doubled, twice, k as int, done, n);
        if low is Some && high is Some {
            let a = choose|a: int|
                0 <= a < n && done.contains(a) && #[trigger] m.floor_from(
                    doubled,
                    twice,
                    k as int,
                    a,
                ) == low;
            let b = choose|b: int|
                0 <= b < n && done.contains(b) && #[trigger] m.ceiling_from(
                    doubled,
                    twice,
                    k as int,
                    b,
                ) == high;
            lemma_floor_below_ceiling(m, values, scale, done, k as int, a, b);
        }
        let next = doubled.update(k as int, x);
        let grown = seeded(seeds, k as int + 1);
        assert forall|a: int, b: int|
            0 <= a < n && 0 <= b < n && grown.contains(a) && grown.contains(
                b,
            ) implies #[trigger] m.at(a, b).admits(next[a] - next[b], twice) by {
            if a == k && b == k {
                assert(m.at(k as int, k as int) == Limit::zero());
                assert(0 * twice == 0);
            } else if a == k {
                assert(done.contains(b));
                lemma_floor_ceiling_from(m, doubled, twice, k as int, b, x);
                assert(next[b] == doubled[b]);
            } else if b == k {
                assert(done.contains(a));
                lemma_floor_ceiling_from(m, doubled, twice, k as int, a, x);
                assert(next[a] == doubled[a]);
            } else {
                assert(done.contains(a) && done.contains(b));
                assert(m.at(a, b).admits(values[a] - values[b], scale));
                lemma_admits_scaled(m.at(a, b), values[a] - values[b], scale, 2);
                assert(next[a] == 2 * values[a]);
                assert(next[b] == 2 * values[b]);
            }
        }
        let r = lemma_extend(m, next, twice, seeds, k + 1);
        assert(r.1 == (2 * r.2) * scale) by (nonlinear_arith)
            requires
                r.1 == r.2 * twice,
                twice == 2 * scale,
        ;
        assert forall|a: int| 0 <= a < n && done.contains(a) implies #[trigger] r.0[a] == (2
            * r.2) * values[a] by {
            assert(grown.contains(a));
            assert(next[a] == 2 * values[a]);
            assert(r.0[a] == r.2 * next[a]);
            assert(r.2 * (2 * values[a]) == (2 * r.2) * values[a]) by (nonlinear_arith);
        }
        (r.0, r.1, 2 * r.2)
    }
}

/// Values that meet every limit can be moved, all by the same amount, so
/// that the reference clock is at 0: the grid holds a valuation with the
/// same differences.
pub proof fn lemma_settle(m: Matrix, values: Seq<int>, scale: int) -> (clocks: Seq<int>)
    requires
        m.dim() >= 1,
        m.meets(values, scale, Set::new(|a: int| true)),
    ensures
        m.contains(clocks, scale),
        forall|a: int, b: int|
            0 <= a < m.dim() && 0 <= b < m.dim() ==> #[trigger] clocks[a] - #[trigger] clocks[b]
                == values[a] - values[b],
{
    let clocks = values.map_values(|v: int| v - values[0]);
    assert forall|a: int, b: int| 0 <= a < m.dim() && 0 <= b < m.dim() implies #[trigger] m.at(
        a,
        b,
    ).admits(clocks[a] - clocks[b], scale) by {
        assert(Set::new(|a: int| true).contains(a) && Set::new(|a: int| true).contains(b));
        assert(m.at(a, b).admits(values[a] - values[b], scale));
    }
    clocks
}

/// A grid with a zero diagonal that is closed in exact arithmetic holds a
/// valuation.
pub proof fn lemma_inhabited(m: Matrix) -> (r: (Seq<int>, int))
    requires
        m.dim() >= 1,
        m.diagonal_zero(),
        m.is_closed_exactly(),
    ensures
        m.contains(r.0, r.1),
{
    let values = Seq::new(m.dim(), |a: int| 0int);
    let seeds = Set::<int>::empty();
    assert forall|a: int, b: int|
        0 <= a < m.dim() && 0 <= b < m.dim() && seeded(seeds, 0).contains(a) && seeded(
            seeds,
            0,
        ).contains(b) implies #[trigger] m.at(a, b).admits(values[a] - values[b], 1) by {}
    let r = lemma_extend(m, values, 1, seeds, 0);
    let clocks = lemma_settle(m, r.0, r.1);
    (clocks, r.1)
}

/// In a grid with a zero diagonal that is closed in exact arithmetic, any
/// difference of two clocks that meets the two limits between them is the
/// difference of those clocks in some valuation of the grid.
pub proof fn lemma_difference_is_taken(m: Matrix, i: int, j: int, d: int, scale: int) -> (r: (
    Seq<int>,
    int,
    int,
))
    requires
        m.dim() >= 1,
        m.diagonal_zero(),
        m.is_closed_exactly(),
        0 <= i < m.dim(),
        0 <= j < m.dim(),
        i != j,
        scale >= 1,
        m.at(i, j).admits(d, scale),
        m.at(j, i).admits(-d, scale),
    ensures
        m.contains(r.0, r.1),
        r.2 >= 1,
        r.1 == r.2 * scale,
        r.0[i] - r.0[j] == r.2 * d,
{
    let values = Seq::new(
        m.dim(),
        |a: int|
            if a == i {
                d
            } else {
                0int
            },
    );
    let seeds = Set::<int>::empty().insert(i).insert(j);
    assert forall|a: int, b: int|
        0 <= a < m.dim() && 0 <= b < m.dim() && seeded(seeds, 0).contains(a) && seeded(
            seeds,
            0,
        ).contains(b) implies #[trigger] m.at(a, b).admits(values[a] - values[b], scale) by {
        if a == b {
            assert(m.at(a, a) == Limit::zero());
            assert(0 * scale == 0);
        }
    }
    let r = lemma_extend(m, values, scale, seeds, 0);
    let clocks = lemma_settle(m, r.0, r.1);
    assert(seeded(seeds, 0).contains(i) && seeded(seeds, 0).contains(j));
    assert(r.0[i] == r.2 * values[i]);
    assert(r.0[j] == r.2 * values[j]);
    assert(r.2 * 0 == 0);
    assert(clocks[i] - clocks[j] == r.0[i] - r.0[j]);
    (clocks, r.1, r.2)
}

/// Every limit of a grid with a zero diagonal that is closed in exact
/// arithmetic is tight: for any tighter limit the grid holds a valuation
/// that does not meet it.
pub proof fn lemma_tight(m: Matrix, i: int, j: int, limit: Limit) -> (r: (Seq<int>, int))
    requires
        m.dim() >= 1,
        m.diagonal_zero(),
        m.is_closed_exactly(),
        0 <= i < m.dim(),
        0 <= j < m.dim(),
        i != j,
        limit.lt(m.at(i, j)),
    ensures
        m.contains(r.0, r.1),
        !limit.admits(r.0[i] - r.0[j], r.1),
{
    // Over the denominator 2 there is room between any two limits.
    let least = 2 * limit->constant + if limit->strict {
        0int
    } else {
        1int
    };
    let back = match m.at(j, i) {
        Limit::Infinite => least,
        Limit::Finite { constant, strict } => {
            let floor = -2 * constant + if strict {
                1int
            } else {
                0int
            };
            if floor < least {
                least
            } else {
                floor
            }
        },
    };
    let d = match m.at(i, j) {
        Limit::Infinite => back,
        Limit::Finite { constant, strict } => 2 * constant - if strict {
            1int
        } else {
            0int
        },
    };
    assert(m.at(i, i).le(m.at(i, j).plus(m.at(j, i))));
    assert(m.at(i, i) == Limit::zero());
    assert(limit->constant * 2 == 2 * limit->constant);
    if m.at(i, j) is Finite {
        assert(m.at(i, j)->constant * 2 == 2 * m.at(i, j)->constant);
    }
    if m.at(j, i) is Finite {
        assert(m.at(j, i)->constant * 2 == 2 * m.at(j, i)->constant);
    }
    assert(m.at(i, j).admits(d, 2));
    assert(m.at(j, i).admits(-d, 2));
    assert(!limit.admits(d, 2));
    let r = lemma_difference_is_taken(m, i, j, d, 2);
    lemma_admits_scaled(limit, d, 2, r.2);
    (r.0, r.1)
}

/// A closed grid of `T` whose two-step paths fit `T` is closed in exact
/// arithmetic.
pub proof fn lemma_closed_exactly<T: Constant>(m: Matrix)
    requires
        m.wf::<T>(),
        m.is_closed::<T>(),
        m.paths_fit::<T>(),
    ensures
        m.is_closed_exactly(),
{
    assert forall|i: int, j: int, k: int|
        0 <= i < m.dim() && 0 <= j < m.dim() && 0 <= k < m.dim() implies m.at(i, j).le(
        #[trigger] m.at(i, k).plus(m.at(k, j)),
    ) by {
        lemma_exact_triangle::<T>(m, i, j, k);
    }
}

/// A grid of `T` that is closed in exact arithmetic is closed as `T` adds.
pub proof fn lemma_closed_exactly_is_closed<T: Constant>(m: Matrix)
    requires
        m.wf::<T>(),
        m.is_closed_exactly(),
    ensures
        m.is_closed::<T>(),
{
    assert forall|i: int, j: int, k: int|
        0 <= i < m.dim() && 0 <= j < m.dim() && 0 <= k < m.dim() implies m.at(i, j).le(
        #[trigger] m.at(i, k).combine::<T>(m.at(k, j)),
    ) by {
        assert(m.at(i, j).le(m.at(i, k).plus(m.at(k, j))));
        lemma_combine::<T>(m.at(i, k), m.at(k, j), m.at(i, k), m.at(k, j));
        lemma_le_order(
            m.at(i, j),
            m.at(i, k).plus(m.at(k, j)),
            m.at(i, k).combine::<T>(m.at(k, j)),
        );
    }
}

/// A zone that is not marked empty and is closed in exact arithmetic holds
/// a valuation.
pub proof fn lemma_zone_inhabited<T: Constant>(zone: Zone) -> (r: (Seq<int>, int))
    requires
        zone.wf::<T>(),
        zone.is_closed_exactly(),
    ensures
        zone.contains(r.0, r.1),
{
    lemma_inhabited(zone.matrix->0)
}

/// Inclusion as the grids show it is complete for a first zone that is
/// closed in exact arithmetic: if every valuation of the first zone is one
/// of the second, the grids show it.
pub proof fn lemma_inclusion_complete<T: Constant>(a: Zone, b: Zone)
    requires
        a.wf::<T>(),
        b.wf::<T>(),
        a.dim == b.dim,
        a.is_closed_exactly(),
        forall|clocks: Seq<int>, scale: int| #[trigger]
            a.contains(clocks, scale) ==> b.contains(clocks, scale),
    ensures
        a.included_in(b),
{
    let m = a.matrix->0;
    let some = lemma_inhabited(m);
    assert(a.contains(some.0, some.1));
    assert(b.contains(some.0, some.1));
    let n = b.matrix->0;
    assert forall|i: int, j: int| 0 <= i < m.dim() && 0 <= j < m.dim() implies (#[trigger] m.at(
        i,
        j,
    )).le(n.at(i, j)) by {
        lemma_le_order(m.at(i, j), n.at(i, j), m.at(i, j));
        if i == j {
            assert(m.at(i, i) == Limit::zero());
            assert(n.at(i, i) == Limit::zero());
        } else if n.at(i, j).lt(m.at(i, j)) {
            let r = lemma_tight(m, i, j, n.at(i, j));
            assert(a.contains(r.0, r.1));
            assert(b.contains(r.0, r.1));
            assert(n.at(i, j).admits(r.0[i] - r.0[j], r.1));
        }
    }
}

/// Two zones that are closed in exact arithmetic and hold the same
/// valuations have the same grid: the canonical form is unique.
pub proof fn lemma_canonical_form_unique<T: Constant>(a: Zone, b: Zone)
    requires
        a.wf::<T>(),
        b.wf::<T>(),
        a.dim == b.dim,
        a.is_closed_exactly(),
        b.is_closed_exactly(),
        forall|clocks: Seq<int>, scale: int|
            #![trigger a.contains(clocks, scale)]
            #![trigger b.contains(clocks, scale)]
            a.contains(clocks, scale) <==> b.contains(clocks, scale),
    ensures
        a == b,
{
    lemma_inclusion_complete::<T>(a, b);
    lemma_inclusion_complete::<T>(b, a);
    lemma_matrix_le(a.matrix->0, b.matrix->0, a.matrix->0);
}

/// A constraint that is reported as satisfied is met by some valuation of
/// the zone, where the zone is closed in exact arithmetic.
pub proof fn lemma_satisfied_complete<T: Constant>(zone: Zone, i: int, j: int, limit: Limit) -> (r:
    (Seq<int>, int))
    requires
        zone.wf::<T>(),
        zone.is_closed_exactly(),
        0 <= i < zone.dim,
        0 <= j < zone.dim,
        zone.satisfied(i, j, limit),
    ensures
        zone.contains(r.0, r.1),
        limit.admits(r.0[i] - r.0[j], r.1),
{
    let m = zone.matrix->0;
    if i == j {
        let r = lemma_inhabited(m);
        assert(m.at(i, i) == Limit::zero());
        if limit is Finite {
            let c = limit->constant;
            if c > 0 {
                assert(c * r.1 > 0) by (nonlinear_arith)
                    requires
                        c > 0,
                        r.1 >= 1,
                ;
            } else {
                assert(c == 0);
                assert(0 * r.1 == 0);
            }
        }
        r
    } else {
        // The least difference that the limit on `x_j - x_i` lets through,
        // or else the greatest that the two limits on `x_i - x_j` do.
        let top = match limit {
            Limit::Infinite => 0int,
            Limit::Finite { constant, strict } => 2 * constant - if strict {
                1int
            } else {
                0int
            },
        };
        let ahead = match m.at(i, j) {
            Limit::Infinite => top,
            Limit::Finite { constant, strict } => {
                let ceiling = 2 * constant - if strict {
                    1int
                } else {
                    0int
                };
                if limit is Finite && top < ceiling {
                    top
                } else {
                    ceiling
                }
            },
        };
        let d = match m.at(j, i) {
            Limit::Infinite => ahead,
            Limit::Finite { constant, strict } => -2 * constant + if strict {
                1int
            } else {
                0int
            },
        };
        assert(m.at(i, i).le(m.at(i, j).plus(m.at(j, i))));
        assert(m.at(i, i) == Limit::zero());
        if limit is Finite {
            assert(limit->constant * 2 == 2 * limit->constant);
        }
        if m.at(i, j) is Finite {
            assert(m.at(i, j)->constant * 2 == 2 * m.at(i, j)->constant);
        }
        if m.at(j, i) is Finite {
            assert(m.at(j, i)->constant * 2 == 2 * m.at(j, i)->constant);
        }
        assert(m.at(i, j).admits(d, 2));
        assert(m.at(j, i).admits(-d, 2));
        assert(limit.admits(d, 2));
        let r = lemma_difference_is_taken(m, i, j, d, 2);
        lemma_admits_scaled(limit, d, 2, r.2);
        (r.0, r.1)
    }
}


} // verus!
