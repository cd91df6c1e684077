//! What a grid means: the set of clock valuations that meet every one of its
//! limits, and what each operation does to that set.
//!
//! Clocks take rational values. A valuation is given by integer numerators
//! over one common denominator, `scale`, so clock `i` has the value
//! `clocks[i] / scale`; the reference clock is always 0.

use vstd::prelude::*;
use crate::canonical::{
    lemma_assign, lemma_copy, lemma_free, lemma_future, lemma_lower_bounds_reset, lemma_shift,
    lemma_tighten,
};
use crate::closure::{lemma_pivot, lemma_sweep, lemma_weight};
use crate::constant::Constant;
use crate::limit::{lemma_clamp, lemma_le_order, lemma_min, Limit};
use crate::matrix::{lemma_new, lemma_set, Matrix};
use crate::zone::Zone;

verus! {

impl Limit {
    /// Whether the difference `d / scale` meets this limit.
    pub open spec fn admits(self, d: int, scale: int) -> bool {
        match self {
            Limit::Infinite => true,
            Limit::Finite { constant, strict } => if strict {
                d < constant * scale
            } else {
                d <= constant * scale
            },
        }
    }
}

impl Matrix {
    /// Whether the valuation lies in the set this grid stands for: it has a
    /// value for every clock, 0 for the reference clock, and every
    /// difference of two clocks meets its limit.
    pub open spec fn contains(self, clocks: Seq<int>, scale: int) -> bool {
        &&& scale >= 1
        &&& clocks.len() == self.dim()
        &&& self.dim() >= 1
        &&& clocks[0] == 0
        &&& forall|i: int, j: int|
            0 <= i < self.dim() && 0 <= j < self.dim() ==> #[trigger] self.at(i, j).admits(
                clocks[i] - clocks[j],
                scale,
            )
    }
}

impl Zone {
    /// Whether the valuation lies in the zone; the empty zone holds none.
    pub open spec fn contains(self, clocks: Seq<int>, scale: int) -> bool {
        self.matrix matches Some(m) && m.contains(clocks, scale)
    }
}

/// The valuation after `delay / scale` time units: every clock but the
/// reference clock has moved on by that much.
pub open spec fn delayed(clocks: Seq<int>, delay: int) -> Seq<int> {
    Seq::new(
        clocks.len(),
        |i: int|
            if i == 0 {
                clocks[i]
            } else {
                clocks[i] + delay
            },
    )
}

/// Differences that meet two limits add up to one that meets their sum.
pub proof fn lemma_plus_admits(a: Limit, b: Limit, d1: int, d2: int, scale: int)
    requires
        a.admits(d1, scale),
        b.admits(d2, scale),
    ensures
        a.plus(b).admits(d1 + d2, scale),
{
    if a is Finite && b is Finite {
        let x = a->constant;
        let y = b->constant;
        assert((x + y) * scale == x * scale + y * scale) by (nonlinear_arith);
    }
}

/// A looser limit admits whatever a tighter one does.
pub proof fn lemma_le_admits(a: Limit, b: Limit, d: int, scale: int)
    requires
        scale >= 1,
        a.le(b),
        a.admits(d, scale),
    ensures
        b.admits(d, scale),
{
    if b is Finite {
        let x = a->constant;
        let y = b->constant;
        if x < y {
            assert(x * scale + scale <= y * scale) by (nonlinear_arith)
                requires
                    x + 1 <= y,
                    scale >= 1,
            ;
        }
    }
}

/// A limit below `<= 0` does not admit the difference 0, and `<= 0` admits
/// exactly the differences at or below 0.
pub proof fn lemma_zero_admits(a: Limit, d: int, scale: int)
    requires
        scale >= 1,
    ensures
        a.lt(Limit::zero()) ==> !a.admits(0, scale),
        Limit::zero().admits(d, scale) <==> d <= 0,
{
    if a is Finite {
        let x = a->constant;
        if x < 0 {
            assert(x * scale < 0) by (nonlinear_arith)
                requires
                    x < 0,
                    scale >= 1,
            ;
        }
        assert(0 * scale == 0);
    }
    assert(0 * scale == 0);
}

/// The limit `T` keeps for a path admits whatever the two steps admit.
pub proof fn lemma_combine_admits<T: Constant>(a: Limit, b: Limit, d1: int, d2: int, scale: int)
    requires
        scale >= 1,
        a.admits(d1, scale),
        b.admits(d2, scale),
    ensures
        a.combine::<T>(b).admits(d1 + d2, scale),
{
    lemma_plus_admits(a, b, d1, d2, scale);
    lemma_clamp::<T>(a.plus(b));
    lemma_le_admits(a.plus(b), a.combine::<T>(b), d1 + d2, scale);
}

/// Inclusion as the grids show it is inclusion of the sets: every valuation
/// of the first zone is one of the second.
pub proof fn lemma_inclusion_sound(a: Zone, b: Zone, clocks: Seq<int>, scale: int)
    requires
        a.included_in(b),
        a.contains(clocks, scale),
    ensures
        b.contains(clocks, scale),
{
    let m = a.matrix->0;
    let n = b.matrix->0;
    assert forall|i: int, j: int| 0 <= i < n.dim() && 0 <= j < n.dim() implies #[trigger] n.at(
        i,
        j,
    ).admits(clocks[i] - clocks[j], scale) by {
        assert(m.at(i, j).le(n.at(i, j)));
        assert(m.at(i, j).admits(clocks[i] - clocks[j], scale));
        lemma_le_admits(m.at(i, j), n.at(i, j), clocks[i] - clocks[j], scale);
    }
}

/// A round of tightening keeps the set of valuations.
pub proof fn lemma_pivot_keeps<T: Constant>(m: Matrix, k: int, clocks: Seq<int>, scale: int)
    requires
        m.wf::<T>(),
        0 <= k < m.dim(),
    ensures
        m.pivot::<T>(k).contains(clocks, scale) <==> m.contains(clocks, scale),
{
    let p = m.pivot::<T>(k);
    lemma_pivot::<T>(m, k);
    if p.contains(clocks, scale) {
        assert forall|i: int, j: int| 0 <= i < m.dim() && 0 <= j < m.dim() implies #[trigger] m.at(
            i,
            j,
        ).admits(clocks[i] - clocks[j], scale) by {
            assert(p.at(i, j).le(m.at(i, j)));
            assert(p.at(i, j).admits(clocks[i] - clocks[j], scale));
            lemma_le_admits(p.at(i, j), m.at(i, j), clocks[i] - clocks[j], scale);
        }
    }
    if m.contains(clocks, scale) {
        assert forall|i: int, j: int| 0 <= i < p.dim() && 0 <= j < p.dim() implies #[trigger] p.at(
            i,
            j,
        ).admits(clocks[i] - clocks[j], scale) by {
            assert(m.at(i, j).admits(clocks[i] - clocks[j], scale));
            assert(m.at(i, k).admits(clocks[i] - clocks[k], scale));
            assert(m.at(k, j).admits(clocks[k] - clocks[j], scale));
            lemma_combine_admits::<T>(
                m.at(i, k),
                m.at(k, j),
                clocks[i] - clocks[k],
                clocks[k] - clocks[j],
                scale,
            );
            lemma_min(m.at(i, j), m.at(i, k).combine::<T>(m.at(k, j)));
        }
    }
}

/// A sweep keeps the set of valuations, and fails only where the set is
/// empty.
pub proof fn lemma_sweep_keeps<T: Constant>(m: Matrix, n: nat, clocks: Seq<int>, scale: int)
    requires
        m.wf::<T>(),
        m.diagonal_zero(),
        n <= m.dim(),
    ensures
        match m.sweep::<T>(n) {
            Some(s) => s.contains(clocks, scale) <==> m.contains(clocks, scale),
            None => !m.contains(clocks, scale),
        },
    decreases n,
{
    if n > 0 {
        lemma_sweep_keeps::<T>(m, (n - 1) as nat, clocks, scale);
        lemma_sweep::<T>(m, (n - 1) as nat);
        match m.sweep::<T>((n - 1) as nat) {
            None => {},
            Some(s) => {
                let p = s.pivot::<T>(n - 1);
                lemma_pivot_keeps::<T>(s, n - 1, clocks, scale);
                lemma_pivot::<T>(s, n - 1);
                if !p.diagonal_zero() && p.contains(clocks, scale) {
                    let i = choose|i: int| 0 <= i < p.dim() && p.at(i, i) != Limit::zero();
                    assert(p.at(i, i).le(s.at(i, i)));
                    assert(s.at(i, i) == Limit::zero());
                    lemma_le_order(p.at(i, i), Limit::zero(), p.at(i, i));
                    lemma_zero_admits(p.at(i, i), 0, scale);
                    assert(p.at(i, i).admits(clocks[i] - clocks[i], scale));
                }
            },
        }
    }
}

/// Closing keeps the set of valuations, and fails only where the set is
/// empty.
pub proof fn lemma_closure_keeps<T: Constant>(m: Matrix, clocks: Seq<int>, scale: int)
    requires
        m.wf::<T>(),
        m.diagonal_zero(),
    ensures
        match m.closure::<T>() {
            Some(c) => c.contains(clocks, scale) <==> m.contains(clocks, scale),
            None => !m.contains(clocks, scale),
        },
    decreases m.weight::<T>(),
{
    lemma_sweep::<T>(m, m.dim());
    lemma_sweep_keeps::<T>(m, m.dim(), clocks, scale);
    match m.sweep::<T>(m.dim()) {
        None => {},
        Some(s) => {
            if s != m {
                lemma_weight::<T>(s, m);
                lemma_closure_keeps::<T>(s, clocks, scale);
            }
        },
    }
}

/// Closing a zone keeps its valuations: the canonical form stands for the
/// same set, and where closing finds the zone empty, it was.
pub proof fn lemma_close_keeps<T: Constant>(zone: Zone, clocks: Seq<int>, scale: int)
    requires
        zone.wf::<T>(),
    ensures
        zone.close::<T>().contains(clocks, scale) <==> zone.contains(clocks, scale),
{
    match zone.matrix {
        None => {},
        Some(m) => {
            lemma_closure_keeps::<T>(m, clocks, scale);
        },
    }
}

/// Restricting a zone keeps exactly the valuations whose difference
/// `x_i - x_j` meets the limit.
pub proof fn lemma_restrict_meaning<T: Constant>(
    zone: Zone,
    i: int,
    j: int,
    limit: Limit,
    clocks: Seq<int>,
    scale: int,
)
    requires
        zone.wf::<T>(),
        0 <= i < zone.dim,
        0 <= j < zone.dim,
        limit.fits::<T>(),
    ensures
        zone.restrict::<T>(i, j, limit).contains(clocks, scale) <==> zone.contains(clocks, scale)
            && limit.admits(clocks[i] - clocks[j], scale),
{
    match zone.matrix {
        None => {},
        Some(m) => {
            lemma_le_order(limit, m.at(i, j), limit);
            if !limit.lt(m.at(i, j)) {
                if m.contains(clocks, scale) {
                    assert(m.at(i, j).admits(clocks[i] - clocks[j], scale));
                    lemma_le_admits(m.at(i, j), limit, clocks[i] - clocks[j], scale);
                }
            } else if i == j {
                assert(m.at(i, i) == Limit::zero());
                if scale >= 1 {
                    lemma_zero_admits(limit, 0, scale);
                }
            } else {
                let t = m.tighten(i, j, limit);
                lemma_tighten::<T>(m, i, j, limit);
                lemma_set(m, i, j, m.at(i, j).min(limit));
                lemma_min(m.at(i, j), limit);
                lemma_closure_keeps::<T>(t, clocks, scale);
                if t.contains(clocks, scale) {
                    assert(t.at(i, j).admits(clocks[i] - clocks[j], scale));
                    assert forall|a: int, b: int|
                        0 <= a < m.dim() && 0 <= b < m.dim() implies #[trigger] m.at(a, b).admits(
                        clocks[a] - clocks[b],
                        scale,
                    ) by {
                        assert(t.at(a, b).admits(clocks[a] - clocks[b], scale));
                        assert(t.at(a, b).le(m.at(a, b)));
                        lemma_le_admits(t.at(a, b), m.at(a, b), clocks[a] - clocks[b], scale);
                    }
                }
                if m.contains(clocks, scale) && limit.admits(clocks[i] - clocks[j], scale) {
                    assert forall|a: int, b: int|
                        0 <= a < t.dim() && 0 <= b < t.dim() implies #[trigger] t.at(a, b).admits(
                        clocks[a] - clocks[b],
                        scale,
                    ) by {
                        assert(m.at(a, b).admits(clocks[a] - clocks[b], scale));
                    }
                }
            }
        },
    }
}

/// A constraint that some valuation of the zone meets is reported as
/// satisfied.
pub proof fn lemma_satisfied_sound(
    zone: Zone,
    i: int,
    j: int,
    limit: Limit,
    clocks: Seq<int>,
    scale: int,
)
    requires
        0 <= i < zone.dim,
        0 <= j < zone.dim,
        zone.matrix matches Some(m) ==> m.dim() == zone.dim,
        zone.contains(clocks, scale),
        limit.admits(clocks[i] - clocks[j], scale),
    ensures
        zone.satisfied(i, j, limit),
{
    let m = zone.matrix->0;
    assert(m.at(j, i).admits(clocks[j] - clocks[i], scale));
    lemma_plus_admits(m.at(j, i), limit, clocks[j] - clocks[i], clocks[i] - clocks[j], scale);
    let cycle = m.at(j, i).plus(limit);
    lemma_le_order(Limit::zero(), cycle, Limit::zero());
    if cycle.lt(Limit::zero()) {
        lemma_zero_admits(cycle, 0, scale);
    }
}

/// A limit that admits a difference admits every smaller one.
pub proof fn lemma_admits_below(a: Limit, d: int, smaller: int, scale: int)
    requires
        a.admits(d, scale),
        smaller <= d,
    ensures
        a.admits(smaller, scale),
{
}

/// A limit moved by `delta` admits the differences moved by `delta`.
pub proof fn lemma_offset_admits<T: Constant>(a: Limit, d: int, delta: int, scale: int)
    requires
        scale >= 1,
        a.admits(d, scale),
    ensures
        a.offset::<T>(delta).admits(d + delta * scale, scale),
{
    if a is Finite {
        let c = a->constant;
        let moved = Limit::Finite { constant: c + delta, strict: a->strict };
        assert((c + delta) * scale == c * scale + delta * scale) by (nonlinear_arith);
        lemma_clamp::<T>(moved);
        lemma_le_admits(moved, moved.clamp::<T>(), d + delta * scale, scale);
    }
}

/// The zero zone holds the valuation with every clock at 0, and no other.
pub proof fn lemma_zero_meaning(dim: nat, clocks: Seq<int>, scale: int)
    requires
        dim >= 1,
    ensures
        Zone::zero(dim).contains(clocks, scale) <==> scale >= 1 && clocks.len() == dim
            && forall|i: int| 0 <= i < dim ==> #[trigger] clocks[i] == 0,
{
    let z = Matrix::zero(dim);
    lemma_new(dim, |i: int, j: int| Limit::zero());
    if z.contains(clocks, scale) {
        assert forall|i: int| 0 <= i < dim implies #[trigger] clocks[i] == 0 by {
            assert(z.at(i, 0).admits(clocks[i] - clocks[0], scale));
            assert(z.at(0, i).admits(clocks[0] - clocks[i], scale));
            lemma_zero_admits(Limit::zero(), clocks[i] - clocks[0], scale);
            lemma_zero_admits(Limit::zero(), clocks[0] - clocks[i], scale);
        }
    }
    if scale >= 1 && clocks.len() == dim && forall|i: int|
        0 <= i < dim ==> #[trigger] clocks[i] == 0 {
        assert(clocks[0] == 0);
        assert forall|i: int, j: int| 0 <= i < dim && 0 <= j < dim implies #[trigger] z.at(
            i,
            j,
        ).admits(clocks[i] - clocks[j], scale) by {
            assert(clocks[i] == 0 && clocks[j] == 0);
            lemma_zero_admits(Limit::zero(), 0, scale);
        }
    }
}

/// The zone of all valuations holds exactly those with no clock below 0.
pub proof fn lemma_init_meaning(dim: nat, clocks: Seq<int>, scale: int)
    requires
        dim >= 1,
    ensures
        Zone::init(dim).contains(clocks, scale) <==> scale >= 1 && clocks.len() == dim && clocks[0]
            == 0 && forall|i: int| 0 <= i < dim ==> #[trigger] clocks[i] >= 0,
{
    let m = Matrix::init(dim);
    lemma_new(
        dim,
        |i: int, j: int|
            if i == j || i == 0 {
                Limit::zero()
            } else {
                Limit::Infinite
            },
    );
    if m.contains(clocks, scale) {
        assert forall|i: int| 0 <= i < dim implies #[trigger] clocks[i] >= 0 by {
            assert(m.at(0, i).admits(clocks[0] - clocks[i], scale));
            lemma_zero_admits(Limit::zero(), clocks[0] - clocks[i], scale);
        }
    }
    if scale >= 1 && clocks.len() == dim && clocks[0] == 0 && forall|i: int|
        0 <= i < dim ==> #[trigger] clocks[i] >= 0 {
        assert forall|i: int, j: int| 0 <= i < dim && 0 <= j < dim implies #[trigger] m.at(
            i,
            j,
        ).admits(clocks[i] - clocks[j], scale) by {
            assert(clocks[j] >= 0);
            lemma_zero_admits(Limit::zero(), clocks[i] - clocks[j], scale);
        }
    }
}

/// The future of a zone holds every valuation of the zone after any delay.
pub proof fn lemma_future_sound<T: Constant>(zone: Zone, clocks: Seq<int>, scale: int, delay: int)
    requires
        zone.wf::<T>(),
        zone.contains(clocks, scale),
        delay >= 0,
    ensures
        zone.future().contains(delayed(clocks, delay), scale),
{
    let m = zone.matrix->0;
    let f = m.future();
    let later = delayed(clocks, delay);
    lemma_future::<T>(m);
    lemma_new(
        m.dim(),
        |i: int, j: int|
            if i > 0 && j == 0 {
                Limit::Infinite
            } else {
                m.at(i, j)
            },
    );
    assert forall|i: int, j: int| 0 <= i < f.dim() && 0 <= j < f.dim() implies #[trigger] f.at(
        i,
        j,
    ).admits(later[i] - later[j], scale) by {
        assert(m.at(i, j).admits(clocks[i] - clocks[j], scale));
        if !(i > 0 && j == 0) {
            lemma_admits_below(m.at(i, j), clocks[i] - clocks[j], later[i] - later[j], scale);
        }
    }
}

/// The past of a zone holds every valuation, with no clock below 0, from
/// which some delay leads into the zone.
pub proof fn lemma_past_sound<T: Constant>(zone: Zone, clocks: Seq<int>, scale: int, delay: int)
    requires
        zone.wf::<T>(),
        zone.contains(delayed(clocks, delay), scale),
        delay >= 0,
        forall|i: int| 0 <= i < clocks.len() ==> #[trigger] clocks[i] >= 0,
    ensures
        zone.past::<T>().contains(clocks, scale),
{
    let m = zone.matrix->0;
    let r = m.lower_bounds_reset();
    let later = delayed(clocks, delay);
    lemma_lower_bounds_reset::<T>(m);
    lemma_new(
        m.dim(),
        |i: int, j: int|
            if i == 0 && j > 0 {
                Limit::zero()
            } else {
                m.at(i, j)
            },
    );
    assert(later[0] == clocks[0]);
    assert forall|i: int, j: int| 0 <= i < r.dim() && 0 <= j < r.dim() implies #[trigger] r.at(
        i,
        j,
    ).admits(clocks[i] - clocks[j], scale) by {
        assert(m.at(i, j).admits(later[i] - later[j], scale));
        assert(clocks[j] >= 0);
        if i == 0 && j > 0 {
            lemma_zero_admits(Limit::zero(), clocks[i] - clocks[j], scale);
        } else {
            lemma_admits_below(m.at(i, j), later[i] - later[j], clocks[i] - clocks[j], scale);
        }
    }
    lemma_closure_keeps::<T>(r, clocks, scale);
}

/// Freeing a clock gives a zone that holds every valuation of the old one
/// with that clock at any value from 0 on.
pub proof fn lemma_free_sound<T: Constant>(
    zone: Zone,
    clock: int,
    clocks: Seq<int>,
    scale: int,
    value: int,
)
    requires
        zone.wf::<T>(),
        1 <= clock < zone.dim,
        zone.contains(clocks, scale),
        value >= 0,
    ensures
        zone.free(clock).contains(clocks.update(clock, value), scale),
{
    let m = zone.matrix->0;
    let f = m.free(clock);
    let after = clocks.update(clock, value);
    lemma_free::<T>(m, clock);
    lemma_new(
        m.dim(),
        |i: int, j: int|
            if i == j {
                m.at(i, j)
            } else if i == clock {
                Limit::Infinite
            } else if j == clock {
                m.at(i, 0)
            } else {
                m.at(i, j)
            },
    );
    assert forall|i: int, j: int| 0 <= i < f.dim() && 0 <= j < f.dim() implies #[trigger] f.at(
        i,
        j,
    ).admits(after[i] - after[j], scale) by {
        assert(m.at(i, j).admits(clocks[i] - clocks[j], scale));
        assert(m.at(i, 0).admits(clocks[i] - clocks[0], scale));
        if i != j && i != clock && j == clock {
            lemma_admits_below(m.at(i, 0), clocks[i] - clocks[0], after[i] - after[j], scale);
        }
    }
}

/// Setting a clock gives a zone that holds every valuation of the old one
/// with that clock at the value set.
pub proof fn lemma_assign_sound<T: Constant>(
    zone: Zone,
    clock: int,
    value: int,
    clocks: Seq<int>,
    scale: int,
)
    requires
        zone.wf::<T>(),
        1 <= clock < zone.dim,
        zone.contains(clocks, scale),
    ensures
        zone.assign::<T>(clock, value).contains(clocks.update(clock, value * scale), scale),
{
    let m = zone.matrix->0;
    let a = m.assign::<T>(clock, value);
    let after = clocks.update(clock, value * scale);
    let upper = Limit::at_most(value).clamp::<T>();
    let lower = Limit::at_most(-value).clamp::<T>();
    lemma_assign::<T>(m, clock, value);
    lemma_new(
        m.dim(),
        |i: int, j: int|
            if i == j {
                m.at(i, j)
            } else if i == clock {
                if j == 0 {
                    upper
                } else {
                    upper.combine::<T>(m.at(0, j))
                }
            } else if j == clock {
                if i == 0 {
                    lower
                } else {
                    m.at(i, 0).combine::<T>(lower)
                }
            } else {
                m.at(i, j)
            },
    );
    assert((-value) * scale == -(value * scale)) by (nonlinear_arith);
    lemma_clamp::<T>(Limit::at_most(value));
    lemma_clamp::<T>(Limit::at_most(-value));
    lemma_le_admits(Limit::at_most(value), upper, value * scale, scale);
    lemma_le_admits(Limit::at_most(-value), lower, -(value * scale), scale);
    assert forall|i: int, j: int| 0 <= i < a.dim() && 0 <= j < a.dim() implies #[trigger] a.at(
        i,
        j,
    ).admits(after[i] - after[j], scale) by {
        assert(m.at(i, j).admits(clocks[i] - clocks[j], scale));
        assert(m.at(i, 0).admits(clocks[i] - clocks[0], scale));
        assert(m.at(0, j).admits(clocks[0] - clocks[j], scale));
        if i != j && i == clock && j != 0 {
            lemma_combine_admits::<T>(
                upper,
                m.at(0, j),
                value * scale,
                clocks[0] - clocks[j],
                scale,
            );
        }
        if i != j && i != clock && j == clock && i != 0 {
            lemma_combine_admits::<T>(
                m.at(i, 0),
                lower,
                clocks[i] - clocks[0],
                -(value * scale),
                scale,
            );
        }
    }
}

/// Copying a clock gives a zone that holds every valuation of the old one
/// with the one clock at the value of the other.
pub proof fn lemma_copy_sound<T: Constant>(
    zone: Zone,
    to: int,
    from: int,
    clocks: Seq<int>,
    scale: int,
)
    requires
        zone.wf::<T>(),
        1 <= to < zone.dim,
        0 <= from < zone.dim,
        zone.contains(clocks, scale),
    ensures
        zone.copy(to, from).contains(clocks.update(to, clocks[from]), scale),
{
    let m = zone.matrix->0;
    let c = m.copy(to, from);
    let after = clocks.update(to, clocks[from]);
    lemma_copy::<T>(m, to, from);
    lemma_new(
        m.dim(),
        |i: int, j: int|
            if i == j {
                m.at(i, j)
            } else if i == to {
                m.at(from, j)
            } else if j == to {
                m.at(i, from)
            } else {
                m.at(i, j)
            },
    );
    assert forall|i: int, j: int| 0 <= i < c.dim() && 0 <= j < c.dim() implies #[trigger] c.at(
        i,
        j,
    ).admits(after[i] - after[j], scale) by {
        assert(m.at(i, j).admits(clocks[i] - clocks[j], scale));
        assert(m.at(from, j).admits(clocks[from] - clocks[j], scale));
        assert(m.at(i, from).admits(clocks[i] - clocks[from], scale));
    }
}

/// Moving a clock gives a zone that holds every valuation of the old one
/// with that clock moved.
pub proof fn lemma_shift_sound<T: Constant>(
    zone: Zone,
    clock: int,
    delta: int,
    clocks: Seq<int>,
    scale: int,
)
    requires
        zone.wf::<T>(),
        1 <= clock < zone.dim,
        zone.contains(clocks, scale),
    ensures
        zone.shift::<T>(clock, delta).contains(
            clocks.update(clock, clocks[clock] + delta * scale),
            scale,
        ),
{
    let m = zone.matrix->0;
    let s = m.shift::<T>(clock, delta);
    let after = clocks.update(clock, clocks[clock] + delta * scale);
    lemma_shift::<T>(m, clock, delta);
    lemma_new(
        m.dim(),
        |i: int, j: int|
            if i == j {
                m.at(i, j)
            } else if i == clock {
                m.at(i, j).offset::<T>(delta)
            } else if j == clock {
                m.at(i, j).offset::<T>(-delta)
            } else {
                m.at(i, j)
            },
    );
    assert((-delta) * scale == -(delta * scale)) by (nonlinear_arith);
    assert forall|i: int, j: int| 0 <= i < s.dim() && 0 <= j < s.dim() implies #[trigger] s.at(
        i,
        j,
    ).admits(after[i] - after[j], scale) by {
        assert(m.at(i, j).admits(clocks[i] - clocks[j], scale));
        lemma_offset_admits::<T>(m.at(i, j), clocks[i] - clocks[j], delta, scale);
        lemma_offset_admits::<T>(m.at(i, j), clocks[i] - clocks[j], -delta, scale);
    }
}


} // verus!
