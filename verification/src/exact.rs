//! The other half of what the operations mean: on a zone that is closed in
//! exact arithmetic, an operation gives no more valuations than it must.

use vstd::prelude::*;
use crate::canonical::{
    lemma_assign, lemma_copy, lemma_free, lemma_future, lemma_lower_bounds_reset, lemma_shift,
};
use crate::constant::Constant;
use crate::limit::Limit;
use crate::matrix::{lemma_new, Matrix};
use crate::semantics::{delayed, lemma_closure_keeps, lemma_zero_admits};
use crate::witness::{
    lemma_admits_scaled, lemma_extend, lemma_floor_below_ceiling, lemma_floor_ceiling,
    lemma_floor_ceiling_from, seeded,
};
use crate::zone::Zone;

verus! {

/// The same valuation written over twice the denominator.
pub open spec fn doubled(clocks: Seq<int>) -> Seq<int> {
    clocks.map_values(|v: int| 2 * v)
}

/// Every valuation in the future of a zone is a valuation of the zone
/// after some delay.
pub proof fn lemma_future_exact<T: Constant>(zone: Zone, clocks: Seq<int>, scale: int) -> (r: (
    Seq<int>,
    int,
))
    requires
        zone.wf::<T>(),
        zone.is_closed_exactly(),
        zone.future().contains(clocks, scale),
    ensures
        r.1 >= 0,
        zone.contains(r.0, 2 * scale),
        delayed(r.0, r.1) == doubled(clocks),
{
    let m = zone.matrix->0;
    let f = m.future();
    let n = m.dim();
    lemma_future::<T>(m);
    lemma_new(
        n,
        |i: int, j: int|
            if i > 0 && j == 0 {
                Limit::Infinite
            } else {
                m.at(i, j)
            },
    );
    let done = Set::new(|a: int| a >= 1);
    assert(m.meets(clocks, scale, done)) by {
        assert forall|a: int, b: int|
            0 <= a < n && 0 <= b < n && done.contains(a) && done.contains(
                b,
            ) implies #[trigger] m.at(a, b).admits(clocks[a] - clocks[b], scale) by {
            assert(f.at(a, b).admits(clocks[a] - clocks[b], scale));
        }
    }
    let twice = 2 * scale;
    let wide = doubled(clocks);
    let low = m.floor(wide, twice, 0, done, n);
    let high = m.ceiling(wide, twice, 0, done, n);
    let delay = if low is Some && low->0 > 0 {
        low->0
    } else {
        0int
    };
    lemma_floor_ceiling(m, wide, twice, 0, done, n);
    // No clock asks for less delay than another allows.
    assert forall|b: int|
        1 <= b < n && m.ceiling_from(wide, twice, 0, b) is Some implies delay <= (
    #[trigger] m.ceiling_from(wide, twice, 0, b))->0 by {
        if delay == 0 {
            assert(f.at(0, b).admits(clocks[0] - clocks[b], scale));
            let c = m.at(0, b)->constant;
            assert(c * (2 * scale) == 2 * (c * scale)) by (nonlinear_arith);
            assert(wide[b] == 2 * clocks[b]);
        } else {
            let a = choose|a: int|
                0 <= a < n && done.contains(a) && #[trigger] m.floor_from(wide, twice, 0, a)
                    == low;
            lemma_floor_below_ceiling(m, clocks, scale, done, 0, a, b);
        }
    }
    let before = Seq::new(
        n,
        |i: int|
            if i == 0 {
                0int
            } else {
                wide[i] - delay
            },
    );
    assert forall|a: int, b: int| 0 <= a < n && 0 <= b < n implies #[trigger] m.at(a, b).admits(
        before[a] - before[b],
        twice,
    ) by {
        if a == 0 && b == 0 {
            assert(m.at(0, 0) == Limit::zero());
            assert(0 * twice == 0);
        } else if b == 0 {
            assert(done.contains(a));
            lemma_floor_ceiling_from(m, wide, twice, 0, a, delay);
        } else if a == 0 {
            assert(done.contains(b));
            lemma_floor_ceiling_from(m, wide, twice, 0, b, delay);
        } else {
            assert(f.at(a, b).admits(clocks[a] - clocks[b], scale));
            lemma_admits_scaled(m.at(a, b), clocks[a] - clocks[b], scale, 2);
            assert(wide[a] == 2 * clocks[a]);
            assert(wide[b] == 2 * clocks[b]);
        }
    }
    assert(wide[0] == 2 * clocks[0]);
    assert(delayed(before, delay) =~= wide);
    (before, delay)
}

/// From every valuation in the past of a zone, some delay leads into the
/// zone, and no clock of it is below 0.
pub proof fn lemma_past_exact<T: Constant>(zone: Zone, clocks: Seq<int>, scale: int) -> (delay:
    int)
    requires
        zone.wf::<T>(),
        zone.is_closed_exactly(),
        zone.past::<T>().contains(clocks, scale),
    ensures
        delay >= 0,
        zone.contains(delayed(doubled(clocks), delay), 2 * scale),
        forall|i: int| 0 <= i < zone.dim ==> #[trigger] clocks[i] >= 0,
{
    let m = zone.matrix->0;
    let reset = m.lower_bounds_reset();
    let n = m.dim();
    lemma_lower_bounds_reset::<T>(m);
    lemma_new(
        n,
        |i: int, j: int|
            if i == 0 && j > 0 {
                Limit::zero()
            } else {
                m.at(i, j)
            },
    );
    lemma_closure_keeps::<T>(reset, clocks, scale);
    assert(reset.contains(clocks, scale));
    assert forall|i: int| 0 <= i < zone.dim implies #[trigger] clocks[i] >= 0 by {
        assert(reset.at(0, i).admits(clocks[0] - clocks[i], scale));
        assert(m.at(0, 0) == Limit::zero());
        lemma_zero_admits(Limit::zero(), clocks[0] - clocks[i], scale);
    }
    let done = Set::new(|a: int| a >= 1);
    assert(m.meets(clocks, scale, done)) by {
        assert forall|a: int, b: int|
            0 <= a < n && 0 <= b < n && done.contains(a) && done.contains(
                b,
            ) implies #[trigger] m.at(a, b).admits(clocks[a] - clocks[b], scale) by {
            assert(reset.at(a, b).admits(clocks[a] - clocks[b], scale));
        }
    }
    let twice = 2 * scale;
    let wide = doubled(clocks);
    let low = m.floor(wide, twice, 0, done, n);
    let high = m.ceiling(wide, twice, 0, done, n);
    // Where the reference clock stands among the others: at or below 0,
    // as far up as the upper bounds allow.
    let origin = if high is Some && high->0 < 0 {
        high->0
    } else {
        0int
    };
    lemma_floor_ceiling(m, wide, twice, 0, done, n);
    assert forall|a: int|
        1 <= a < n && m.floor_from(wide, twice, 0, a) is Some implies (#[trigger] m.floor_from(
        wide,
        twice,
        0,
        a,
    ))->0 <= origin by {
        if origin == 0 {
            assert(reset.at(a, 0).admits(clocks[a] - clocks[0], scale));
            let c = m.at(a, 0)->constant;
            assert(c * (2 * scale) == 2 * (c * scale)) by (nonlinear_arith);
            assert(wide[a] == 2 * clocks[a]);
        } else {
            let b = choose|b: int|
                0 <= b < n && done.contains(b) && #[trigger] m.ceiling_from(wide, twice, 0, b)
                    == high;
            lemma_floor_below_ceiling(m, clocks, scale, done, 0, a, b);
        }
    }
    let delay = -origin;
    let after = delayed(wide, delay);
    assert(wide[0] == 2 * clocks[0]);
    assert forall|a: int, b: int| 0 <= a < n && 0 <= b < n implies #[trigger] m.at(a, b).admits(
        after[a] - after[b],
        twice,
    ) by {
        if a == 0 && b == 0 {
            assert(m.at(0, 0) == Limit::zero());
            assert(0 * twice == 0);
        } else if b == 0 {
            assert(done.contains(a));
            lemma_floor_ceiling_from(m, wide, twice, 0, a, origin);
        } else if a == 0 {
            assert(done.contains(b));
            lemma_floor_ceiling_from(m, wide, twice, 0, b, origin);
        } else {
            assert(reset.at(a, b).admits(clocks[a] - clocks[b], scale));
            lemma_admits_scaled(m.at(a, b), clocks[a] - clocks[b], scale, 2);
            assert(wide[a] == 2 * clocks[a]);
            assert(wide[b] == 2 * clocks[b]);
        }
    }
    delay
}

/// The values of all clocks but one, taken from a valuation that meets
/// every limit between those clocks, are those of a valuation of the grid.
proof fn lemma_all_but_one(m: Matrix, clock: int, clocks: Seq<int>, scale: int) -> (r: (
    Seq<int>,
    int,
))
    requires
        m.dim() >= 1,
        m.diagonal_zero(),
        m.is_closed_exactly(),
        1 <= clock < m.dim(),
        scale >= 1,
        clocks.len() == m.dim(),
        clocks[0] == 0,
        forall|a: int, b: int|
            0 <= a < m.dim() && 0 <= b < m.dim() && a != clock && b != clock ==> #[trigger] m.at(
                a,
                b,
            ).admits(clocks[a] - clocks[b], scale),
    ensures
        r.1 >= 1,
        m.contains(r.0, r.1 * scale),
        forall|a: int| 0 <= a < m.dim() && a != clock ==> #[trigger] r.0[a] == r.1 * clocks[a],
{
    let seeds = Set::new(|a: int| a != clock);
    assert(m.meets(clocks, scale, seeded(seeds, 0)));
    let r = lemma_extend(m, clocks, scale, seeds, 0);
    assert(seeded(seeds, 0).contains(0));
    assert(r.0[0] == r.2 * clocks[0]);
    assert(r.2 * 0 == 0);
    assert forall|a: int, b: int| 0 <= a < m.dim() && 0 <= b < m.dim() implies #[trigger] m.at(
        a,
        b,
    ).admits(r.0[a] - r.0[b], r.1) by {
        assert(Set::new(|a: int| true).contains(a) && Set::new(|a: int| true).contains(b));
    }
    assert forall|a: int| 0 <= a < m.dim() && a != clock implies #[trigger] r.0[a] == r.2
        * clocks[a] by {
        assert(seeded(seeds, 0).contains(a));
    }
    (r.0, r.2)
}

/// Every valuation of a zone with a clock freed is a valuation of the zone
/// but for that clock, which is at or above 0.
pub proof fn lemma_free_exact<T: Constant>(zone: Zone, clock: int, clocks: Seq<int>, scale: int)
    -> (r: (Seq<int>, int))
    requires
        zone.wf::<T>(),
        zone.is_closed_exactly(),
        1 <= clock < zone.dim,
        zone.free(clock).contains(clocks, scale),
    ensures
        r.1 >= 1,
        zone.contains(r.0, r.1 * scale),
        forall|a: int| 0 <= a < zone.dim && a != clock ==> #[trigger] r.0[a] == r.1 * clocks[a],
        clocks[clock] >= 0,
{
    let m = zone.matrix->0;
    let f = m.free(clock);
    lemma_free::<T>(m, clock);
    lemma_new(
        m.dim(),
        |i: int, j: int|
            if i == j {
                m.at(i, j)
            } else if i == clock {
                Limit::Infinite
            } else if j == clock {
                m.at(i, 0)
            } else {
                m.at(i, j)
            },
    );
    assert forall|a: int, b: int|
        0 <= a < m.dim() && 0 <= b < m.dim() && a != clock && b != clock implies #[trigger] m.at(
        a,
        b,
    ).admits(clocks[a] - clocks[b], scale) by {
        assert(f.at(a, b).admits(clocks[a] - clocks[b], scale));
    }
    assert(f.at(0, clock).admits(clocks[0] - clocks[clock], scale));
    assert(m.at(0, 0) == Limit::zero());
    lemma_zero_admits(Limit::zero(), clocks[0] - clocks[clock], scale);
    lemma_all_but_one(m, clock, clocks, scale)
}

/// Every valuation of a zone with a clock set has that clock at the value
/// set, and is a valuation of the zone but for that clock. The value and
/// its negative must be finite constants of `T`.
pub proof fn lemma_assign_exact<T: Constant>(
    zone: Zone,
    clock: int,
    value: int,
    clocks: Seq<int>,
    scale: int,
) -> (r: (Seq<int>, int))
    requires
        zone.wf::<T>(),
        zone.is_closed_exactly(),
        1 <= clock < zone.dim,
        T::lowest() <= value < T::highest(),
        T::lowest() <= -value < T::highest(),
        zone.assign::<T>(clock, value).contains(clocks, scale),
    ensures
        r.1 >= 1,
        zone.contains(r.0, r.1 * scale),
        forall|a: int| 0 <= a < zone.dim && a != clock ==> #[trigger] r.0[a] == r.1 * clocks[a],
        clocks[clock] == value * scale,
{
    let m = zone.matrix->0;
    let a = m.assign::<T>(clock, value);
    let upper = Limit::at_most(value).clamp::<T>();
    let lower = Limit::at_most(-value).clamp::<T>();
    lemma_assign::<T>(m, clock, value);
    lemma_new(
        m.dim(),
        |i: int, j: int|
            if i == j {
                m.at(i, j)
            } else if i == clock {
                if j == 0 {
                    upper
                } else {
                    upper.combine::<T>(m.at(0, j))
                }
            } else if j == clock {
                if i == 0 {
                    lower
                } else {
                    m.at(i, 0).combine::<T>(lower)
                }
            } else {
                m.at(i, j)
            },
    );
    assert forall|x: int, y: int|
        0 <= x < m.dim() && 0 <= y < m.dim() && x != clock && y != clock implies #[trigger] m.at(
        x,
        y,
    ).admits(clocks[x] - clocks[y], scale) by {
        assert(a.at(x, y).admits(clocks[x] - clocks[y], scale));
    }
    assert(a.at(clock, 0).admits(clocks[clock] - clocks[0], scale));
    assert(a.at(0, clock).admits(clocks[0] - clocks[clock], scale));
    assert((-value) * scale == -(value * scale)) by (nonlinear_arith);
    lemma_all_but_one(m, clock, clocks, scale)
}

/// Every valuation of a zone with a clock copied has the two clocks at one
/// value, and is a valuation of the zone but for the clock written.
pub proof fn lemma_copy_exact<T: Constant>(
    zone: Zone,
    to: int,
    from: int,
    clocks: Seq<int>,
    scale: int,
) -> (r: (Seq<int>, int))
    requires
        zone.wf::<T>(),
        zone.is_closed_exactly(),
        1 <= to < zone.dim,
        0 <= from < zone.dim,
        to != from,
        zone.copy(to, from).contains(clocks, scale),
    ensures
        r.1 >= 1,
        zone.contains(r.0, r.1 * scale),
        forall|a: int| 0 <= a < zone.dim && a != to ==> #[trigger] r.0[a] == r.1 * clocks[a],
        clocks[to] == clocks[from],
{
    let m = zone.matrix->0;
    let c = m.copy(to, from);
    lemma_copy::<T>(m, to, from);
    lemma_new(
        m.dim(),
        |i: int, j: int|
            if i == j {
                m.at(i, j)
            } else if i == to {
                m.at(from, j)
            } else if j == to {
                m.at(i, from)
            } else {
                m.at(i, j)
            },
    );
    assert forall|x: int, y: int|
        0 <= x < m.dim() && 0 <= y < m.dim() && x != to && y != to implies #[trigger] m.at(
        x,
        y,
    ).admits(clocks[x] - clocks[y], scale) by {
        assert(c.at(x, y).admits(clocks[x] - clocks[y], scale));
    }
    assert(c.at(to, from).admits(clocks[to] - clocks[from], scale));
    assert(c.at(from, to).admits(clocks[from] - clocks[to], scale));
    assert(m.at(from, from) == Limit::zero());
    lemma_zero_admits(Limit::zero(), clocks[to] - clocks[from], scale);
    lemma_zero_admits(Limit::zero(), clocks[from] - clocks[to], scale);
    lemma_all_but_one(m, to, clocks, scale)
}

/// Every valuation of a zone with a clock moved is a valuation of the zone
/// with that clock moved back, where moving it needed no saturation.
pub proof fn lemma_shift_exact<T: Constant>(
    zone: Zone,
    clock: int,
    delta: int,
    clocks: Seq<int>,
    scale: int,
)
    requires
        zone.wf::<T>(),
        1 <= clock < zone.dim,
        zone.matrix matches Some(m) ==> m.shift_fits::<T>(clock, delta),
        zone.shift::<T>(clock, delta).contains(clocks, scale),
    ensures
        zone.contains(clocks.update(clock, clocks[clock] - delta * scale), scale),
{
    let m = zone.matrix->0;
    let s = m.shift::<T>(clock, delta);
    let back = clocks.update(clock, clocks[clock] - delta * scale);
    lemma_shift::<T>(m, clock, delta);
    lemma_new(
        m.dim(),
        |i: int, j: int|
            if i == j {
                m.at(i, j)
            } else if i == clock {
                m.at(i, j).offset::<T>(delta)
            } else if j == clock {
                m.at(i, j).offset::<T>(-delta)
            } else {
                m.at(i, j)
            },
    );
    assert forall|a: int, b: int| 0 <= a < m.dim() && 0 <= b < m.dim() implies #[trigger] m.at(
        a,
        b,
    ).admits(back[a] - back[b], scale) by {
        assert(s.at(a, b).admits(clocks[a] - clocks[b], scale));
        if a != b && m.at(a, b) is Finite {
            let c = m.at(a, b)->constant;
            assert((c + delta) * scale == c * scale + delta * scale) by (nonlinear_arith);
            assert((c - delta) * scale == c * scale - delta * scale) by (nonlinear_arith);
            if a == clock {
                assert(m.at(clock, b) is Finite);
            } else if b == clock {
                assert(m.at(a, clock) is Finite);
            }
        }
    }
}

} // verus!
