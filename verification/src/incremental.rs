//! Closing a closed grid again after one entry was tightened: two rounds'
//! worth of work instead of a sweep over every clock.

use vstd::prelude::*;
use crate::bound::Bound;
use crate::canonical::lemma_tighten;
use crate::closure::{lemma_closure, lemma_matrix_le};
use crate::constant::Constant;
use crate::limit::{lemma_clamp, lemma_combine, lemma_le_order, lemma_min, Limit};
use crate::matrix::{lemma_ext, lemma_new, lemma_set, Matrix};
use crate::semantics::{lemma_closure_keeps, lemma_le_admits, lemma_plus_admits};
use crate::storage::Store;
use crate::witness::{lemma_inhabited, lemma_inclusion_complete};
use crate::zone::Zone;

verus! {

/// The step on limits alone. With `ab`, `ak`, ... the entries of a grid
/// closed in exact arithmetic, and `l` the new limit on `(i, j)`, which the
/// limit on `(j, i)` does not contradict: the entry `(a, b)` set against
/// the path along `l` is at most the path through any `k`, both steps of
/// which were set against their paths along `l`.
proof fn lemma_two_detours(
    ab: Limit,
    ak: Limit,
    kb: Limit,
    ai: Limit,
    jb: Limit,
    ki: Limit,
    jk: Limit,
    ji: Limit,
    l: Limit,
)
    requires
        ab.le(ak.plus(kb)),
        jb.le(jk.plus(kb)),
        ai.le(ak.plus(ki)),
        ji.le(jk.plus(ki)),
        Limit::zero().le(l.plus(ji)),
    ensures
        ab.min(ai.plus(l).plus(jb)).le(
            ak.min(ai.plus(l).plus(jk)).plus(kb.min(ki.plus(l).plus(jb))),
        ),
{
}

/// What the grid closed again holds: a grid of the same size, with a zero
/// diagonal, closed in exact arithmetic, nowhere looser than the grid with
/// the one entry tightened, and with the same valuations.
pub proof fn lemma_tightened_through(m: Matrix, i: int, j: int, limit: Limit)
    requires
        m.dim() >= 1,
        m.square(),
        m.diagonal_zero(),
        m.is_closed_exactly(),
        0 <= i < m.dim(),
        0 <= j < m.dim(),
        i != j,
        limit.lt(m.at(i, j)),
        Limit::zero().le(limit.plus(m.at(j, i))),
    ensures
        m.tightened_through(i, j, limit).dim() == m.dim(),
        m.tightened_through(i, j, limit).square(),
        m.tightened_through(i, j, limit).diagonal_zero(),
        m.tightened_through(i, j, limit).is_closed_exactly(),
        m.tightened_through(i, j, limit).le(m.tighten(i, j, limit)),
        forall|clocks: Seq<int>, scale: int|
            m.tighten(i, j, limit).contains(clocks, scale) ==> #[trigger] m.tightened_through(
                i,
                j,
                limit,
            ).contains(clocks, scale),
{
    let r = m.tightened_through(i, j, limit);
    let t = m.tighten(i, j, limit);
    lemma_new(
        m.dim(),
        |a: int, b: int| m.at(a, b).min(m.at(a, i).plus(limit).plus(m.at(j, b))),
    );
    lemma_set(m, i, j, m.at(i, j).min(limit));
    assert(m.at(i, i) == Limit::zero());
    assert(m.at(j, j) == Limit::zero());
    assert forall|a: int| 0 <= a < r.dim() implies #[trigger] r.at(a, a) == Limit::zero() by {
        assert(m.at(a, a) == Limit::zero());
        assert(m.at(j, i).le(m.at(j, a).plus(m.at(a, i))));
    }
    assert forall|a: int, b: int, k: int|
        0 <= a < r.dim() && 0 <= b < r.dim() && 0 <= k < r.dim() implies r.at(a, b).le(
        #[trigger] r.at(a, k).plus(r.at(k, b)),
    ) by {
        assert(m.at(a, b).le(m.at(a, k).plus(m.at(k, b))));
        assert(m.at(j, b).le(m.at(j, k).plus(m.at(k, b))));
        assert(m.at(a, i).le(m.at(a, k).plus(m.at(k, i))));
        assert(m.at(j, i).le(m.at(j, k).plus(m.at(k, i))));
        lemma_two_detours(
            m.at(a, b),
            m.at(a, k),
            m.at(k, b),
            m.at(a, i),
            m.at(j, b),
            m.at(k, i),
            m.at(j, k),
            m.at(j, i),
            limit,
        );
    }
    assert forall|a: int, b: int| 0 <= a < r.dim() && 0 <= b < r.dim() implies (#[trigger] r.at(
        a,
        b,
    )).le(t.at(a, b)) by {
        lemma_le_order(m.at(a, b), m.at(a, b), m.at(a, b));
    }
    assert forall|clocks: Seq<int>, scale: int| t.contains(clocks, scale) implies #[trigger] r.contains(
        clocks,
        scale,
    ) by {
        assert forall|a: int, b: int| 0 <= a < r.dim() && 0 <= b < r.dim() implies #[trigger] r.at(
            a,
            b,
        ).admits(clocks[a] - clocks[b], scale) by {
            assert(t.at(a, b).admits(clocks[a] - clocks[b], scale));
            assert(t.at(a, i).admits(clocks[a] - clocks[i], scale));
            assert(t.at(i, j).admits(clocks[i] - clocks[j], scale));
            assert(t.at(j, b).admits(clocks[j] - clocks[b], scale));
            lemma_le_admits(t.at(a, b), m.at(a, b), clocks[a] - clocks[b], scale);
            lemma_le_admits(t.at(a, i), m.at(a, i), clocks[a] - clocks[i], scale);
            lemma_le_admits(t.at(j, b), m.at(j, b), clocks[j] - clocks[b], scale);
            lemma_le_admits(t.at(i, j), limit, clocks[i] - clocks[j], scale);
            lemma_plus_admits(
                m.at(a, i),
                limit,
                clocks[a] - clocks[i],
                clocks[i] - clocks[j],
                scale,
            );
            lemma_plus_admits(
                m.at(a, i).plus(limit),
                m.at(j, b),
                clocks[a] - clocks[j],
                clocks[j] - clocks[b],
                scale,
            );
        }
    }
}

/// Closing a grid that is closed in exact arithmetic, after one entry off
/// the diagonal was tightened to a limit that the opposite entry does not
/// contradict, gives the grid with every entry set against the path along
/// the new limit, where those paths need no saturation.
pub proof fn lemma_tighten_locally<T: Constant>(m: Matrix, i: int, j: int, limit: Limit)
    requires
        m.wf::<T>(),
        m.diagonal_zero(),
        m.is_closed_exactly(),
        0 <= i < m.dim(),
        0 <= j < m.dim(),
        i != j,
        limit.fits::<T>(),
        limit.lt(m.at(i, j)),
        Limit::zero().le(limit.plus(m.at(j, i))),
        m.tighten_fits::<T>(i, j, limit),
    ensures
        m.tightened_through(i, j, limit).wf::<T>(),
        m.tighten(i, j, limit).closure::<T>() == Some(m.tightened_through(i, j, limit)),
{
    let r = m.tightened_through(i, j, limit);
    let t = m.tighten(i, j, limit);
    lemma_tightened_through(m, i, j, limit);
    lemma_tighten::<T>(m, i, j, limit);
    lemma_new(
        m.dim(),
        |a: int, b: int| m.at(a, b).min(m.at(a, i).plus(limit).plus(m.at(j, b))),
    );
    lemma_set(m, i, j, m.at(i, j).min(limit));
    assert forall|a: int, b: int| 0 <= a < r.dim() && 0 <= b < r.dim() implies (#[trigger] r.at(
        a,
        b,
    )).fits::<T>() by {
        assert(m.at(a, b).fits::<T>());
        assert(m.at(a, i).plus(limit).plus(m.at(j, b)).fits::<T>());
    }
    lemma_closure::<T>(t);
    let witness = lemma_inhabited(r);
    lemma_closure_keeps::<T>(t, witness.0, witness.1);
    assert(t.contains(witness.0, witness.1)) by {
        assert forall|a: int, b: int| 0 <= a < t.dim() && 0 <= b < t.dim() implies #[trigger] t.at(
            a,
            b,
        ).admits(witness.0[a] - witness.0[b], witness.1) by {
            assert(r.at(a, b).admits(witness.0[a] - witness.0[b], witness.1));
            assert(r.at(a, b).le(t.at(a, b)));
            lemma_le_admits(r.at(a, b), t.at(a, b), witness.0[a] - witness.0[b], witness.1);
        }
    }
    let c = t.closure::<T>()->0;
    // The closure is nowhere tighter than the grid closed locally, which
    // is as tight as its valuations allow.
    let zr = Zone { dim: m.dim(), matrix: Some(r) };
    let zc = Zone { dim: m.dim(), matrix: Some(c) };
    assert forall|clocks: Seq<int>, scale: int| #[trigger]
        zr.contains(clocks, scale) implies zc.contains(clocks, scale) by {
        lemma_closure_keeps::<T>(t, clocks, scale);
        assert forall|a: int, b: int| 0 <= a < t.dim() && 0 <= b < t.dim() implies #[trigger] t.at(
            a,
            b,
        ).admits(clocks[a] - clocks[b], scale) by {
            assert(r.at(a, b).admits(clocks[a] - clocks[b], scale));
            assert(r.at(a, b).le(t.at(a, b)));
            lemma_le_admits(r.at(a, b), t.at(a, b), clocks[a] - clocks[b], scale);
        }
    }
    lemma_inclusion_complete::<T>(zr, zc);
    // And nowhere looser: it is closed, and lies below the tightened grid.
    assert forall|a: int, b: int| 0 <= a < c.dim() && 0 <= b < c.dim() implies (#[trigger] c.at(
        a,
        b,
    )).le(r.at(a, b)) by {
        let first = m.at(a, i).plus(limit);
        let whole = first.plus(m.at(j, b));
        assert(c.at(a, b).le(t.at(a, b)));
        assert(c.at(a, i).le(t.at(a, i)));
        assert(c.at(i, j).le(t.at(i, j)));
        assert(c.at(j, b).le(t.at(j, b)));
        assert(c.at(a, j).le(c.at(a, i).combine::<T>(c.at(i, j))));
        assert(c.at(a, b).le(c.at(a, j).combine::<T>(c.at(j, b))));
        assert(first.fits::<T>());
        assert(whole.fits::<T>());
        lemma_clamp::<T>(first);
        lemma_clamp::<T>(whole);
        lemma_combine::<T>(c.at(a, i), c.at(i, j), m.at(a, i), limit);
        lemma_le_order(c.at(a, j), c.at(a, i).combine::<T>(c.at(i, j)), first);
        lemma_combine::<T>(c.at(a, j), c.at(j, b), first, m.at(j, b));
        lemma_le_order(c.at(a, b), c.at(a, j).combine::<T>(c.at(j, b)), whole);
        lemma_le_order(c.at(a, b), t.at(a, b), m.at(a, b));
        lemma_min(m.at(a, b), whole);
    }
    lemma_matrix_le(c, r, c);
}

/// Closing a grid after one entry off the diagonal was tightened to a
/// limit that the opposite entry contradicts finds the zone empty.
pub proof fn lemma_tighten_empties<T: Constant>(m: Matrix, i: int, j: int, limit: Limit)
    requires
        m.wf::<T>(),
        m.diagonal_zero(),
        0 <= i < m.dim(),
        0 <= j < m.dim(),
        i != j,
        limit.fits::<T>(),
        limit.lt(m.at(i, j)),
        limit.plus(m.at(j, i)).lt(Limit::zero()),
    ensures
        m.tighten(i, j, limit).closure::<T>() is None,
{
    let t = m.tighten(i, j, limit);
    lemma_tighten::<T>(m, i, j, limit);
    lemma_set(m, i, j, m.at(i, j).min(limit));
    lemma_closure::<T>(t);
    if t.closure::<T>() is Some {
        let c = t.closure::<T>()->0;
        assert(c.at(i, i) == Limit::zero());
        assert(c.at(i, i).le(c.at(i, j).combine::<T>(c.at(j, i))));
        assert(c.at(i, j).le(t.at(i, j)));
        assert(c.at(j, i).le(t.at(j, i)));
        lemma_combine::<T>(c.at(i, j), c.at(j, i), limit, m.at(j, i));
        lemma_le_order(
            Limit::zero(),
            c.at(i, j).combine::<T>(c.at(j, i)),
            limit.combine::<T>(m.at(j, i)),
        );
        T::lemma_limits();
    }
}

/// Sets every entry of `target`, which holds the grid of `source`, against
/// the path along `limit` from `i` to `j`. Returns whether that needs no
/// saturation; if it does, the work stops at the first sum that does not
/// fit, and what `target` holds is of no use.
pub fn tighten_locally<T: Constant>(
    source: &Store<T>,
    target: &mut Store<T>,
    i: usize,
    j: usize,
    limit: Bound<T>,
) -> (exact: bool)
    requires
        source.wf(),
        old(target).wf(),
        old(target).grid() == source.grid(),
        i < source.grid().dim(),
        j < source.grid().dim(),
    ensures
        final(target).wf(),
        final(target).grid().dim() == source.grid().dim(),
        exact == source.grid().tighten_fits::<T>(i as int, j as int, limit@),
        exact ==> final(target).grid() == source.grid().tightened_through(
            i as int,
            j as int,
            limit@,
        ),
{
    let ghost start = source.grid();
    let ghost goal = start.tightened_through(i as int, j as int, limit@);
    let dim: usize = source.dim();
    proof {
        lemma_new(
            start.dim(),
            |a: int, b: int|
                start.at(a, b).min(start.at(a, i as int).plus(limit@).plus(start.at(j as int, b))),
        );
        target.lemma_grid();
    }
    let mut a: usize = 0;
    while a < dim
        invariant
            source.wf(),
            target.wf(),
            target.grid().wf::<T>(),
            start == source.grid(),
            start.wf::<T>(),
            dim == start.dim(),
            target.grid().dim() == dim,
            goal.dim() == dim,
            goal.square(),
            i < dim,
            j < dim,
            a <= dim,
            forall|x: int, y: int|
                0 <= x < dim && 0 <= y < dim ==> #[trigger] goal.at(x, y) == start.at(x, y).min(
                    start.at(x, i as int).plus(limit@).plus(start.at(j as int, y)),
                ),
            forall|x: int, y: int|
                0 <= x < dim && 0 <= y < dim ==> #[trigger] target.grid().at(x, y) == (if x < a {
                    goal.at(x, y)
                } else {
                    start.at(x, y)
                }),
            forall|x: int|
                0 <= x < a ==> (#[trigger] start.at(x, i as int).plus(limit@)).fits::<T>(),
            forall|x: int, y: int|
                0 <= x < a && 0 <= y < dim ==> (#[trigger] start.at(x, i as int).plus(
                    limit@,
                ).plus(start.at(j as int, y))).fits::<T>(),
        decreases dim - a,
    {
        let (first, fits) = source.get(a, i).combine_checked(limit);
        if !fits {
            assert(!start.at(a as int, i as int).plus(limit@).fits::<T>());
            return false;
        }
        proof {
            lemma_clamp::<T>(start.at(a as int, i as int).plus(limit@));
        }
        if first.is_infinite() {
            proof {
                assert forall|y: int| 0 <= y < dim implies #[trigger] goal.at(a as int, y)
                    == start.at(a as int, y) by {
                    lemma_min(start.at(a as int, y), Limit::Infinite);
                }
            }
        } else {
            let mut b: usize = 0;
            while b < dim
                invariant
                    source.wf(),
                    target.wf(),
                    target.grid().wf::<T>(),
                    start == source.grid(),
                    start.wf::<T>(),
                    dim == start.dim(),
                    target.grid().dim() == dim,
                    goal.dim() == dim,
                    goal.square(),
                    i < dim,
                    j < dim,
                    a < dim,
                    b <= dim,
                    first@ == start.at(a as int, i as int).plus(limit@),
                    forall|x: int, y: int|
                        0 <= x < dim && 0 <= y < dim ==> #[trigger] goal.at(x, y) == start.at(
                            x,
                            y,
                        ).min(start.at(x, i as int).plus(limit@).plus(start.at(j as int, y))),
                    forall|x: int, y: int|
                        0 <= x < dim && 0 <= y < dim ==> #[trigger] target.grid().at(x, y) == (if x
                            < a || (x == a && y < b) {
                            goal.at(x, y)
                        } else {
                            start.at(x, y)
                        }),
                    forall|x: int|
                        0 <= x <= a ==> (#[trigger] start.at(x, i as int).plus(limit@)).fits::<
                            T,
                        >(),
                    forall|x: int, y: int|
                        0 <= x < dim && 0 <= y < dim && (x < a || (x == a && y < b)) ==> (
                        #[trigger] start.at(x, i as int).plus(limit@).plus(
                            start.at(j as int, y),
                        )).fits::<T>(),
                decreases dim - b,
            {
                let (whole, fits) = first.combine_checked(source.get(j, b));
                if !fits {
                    assert(!start.at(a as int, i as int).plus(limit@).plus(
                        start.at(j as int, b as int),
                    ).fits::<T>());
                    return false;
                }
                proof {
                    lemma_clamp::<T>(first@.plus(start.at(j as int, b as int)));
                }
                if whole.less_than(&source.get(a, b)) {
                    target.set(a, b, whole);
                }
                b += 1;
            }
        }
        a += 1;
    }
    proof {
        lemma_ext(target.grid(), goal);
    }
    true
}


} // verus!
