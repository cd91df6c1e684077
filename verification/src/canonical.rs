//! What the operations keep: the shape of a grid, its zero diagonal, and,
//! for those that need no closing afterwards, its canonical form.

use vstd::prelude::*;
use crate::constant::Constant;
use crate::limit::{lemma_clamp, lemma_combine, lemma_le_order, lemma_min, Limit};
use crate::matrix::{lemma_ext, lemma_new, lemma_set, Matrix};

verus! {

/// The zero grid is a closed grid of `T`.
pub proof fn lemma_zero<T: Constant>(dim: nat)
    requires
        dim >= 1,
    ensures
        Matrix::zero(dim).dim() == dim,
        Matrix::zero(dim).wf::<T>(),
        Matrix::zero(dim).diagonal_zero(),
        Matrix::zero(dim).is_closed::<T>(),
        Matrix::zero(dim).is_closed_exactly(),
{
    T::lemma_limits();
    lemma_new(dim, |i: int, j: int| Limit::zero());
}

/// The grid of all valuations is a closed grid of `T`.
pub proof fn lemma_init<T: Constant>(dim: nat)
    requires
        dim >= 1,
    ensures
        Matrix::init(dim).dim() == dim,
        Matrix::init(dim).wf::<T>(),
        Matrix::init(dim).diagonal_zero(),
        Matrix::init(dim).is_closed::<T>(),
        Matrix::init(dim).is_closed_exactly(),
{
    T::lemma_limits();
    lemma_new(
        dim,
        |i: int, j: int|
            if i == j || i == 0 {
                Limit::zero()
            } else {
                Limit::Infinite
            },
    );
}

/// Letting time pass keeps shape and diagonal, only loosens, and keeps a
/// closed grid closed.
pub proof fn lemma_future<T: Constant>(m: Matrix)
    requires
        m.wf::<T>(),
        m.diagonal_zero(),
    ensures
        m.future().dim() == m.dim(),
        m.future().wf::<T>(),
        m.future().diagonal_zero(),
        m.le(m.future()),
        m.is_closed::<T>() ==> m.future().is_closed::<T>(),
        m.is_closed_exactly() ==> m.future().is_closed_exactly(),
{
    let f = m.future();
    lemma_new(
        m.dim(),
        |i: int, j: int|
            if i > 0 && j == 0 {
                Limit::Infinite
            } else {
                m.at(i, j)
            },
    );
    assert forall|i: int, j: int| 0 <= i < f.dim() && 0 <= j < f.dim() implies (#[trigger] f.at(
        i,
        j,
    )).fits::<T>() && m.at(i, j).le(f.at(i, j)) by {
        assert(m.at(i, j).fits::<T>());
        lemma_le_order(m.at(i, j), m.at(i, j), m.at(i, j));
    }
    assert(f.diagonal_zero()) by {
        assert forall|i: int| 0 <= i < f.dim() implies #[trigger] f.at(i, i) == Limit::zero() by {
            assert(m.at(i, i) == Limit::zero());
        }
    }
    if m.is_closed::<T>() {
        assert forall|i: int, j: int, k: int|
            0 <= i < f.dim() && 0 <= j < f.dim() && 0 <= k < f.dim() implies f.at(i, j).le(
            #[trigger] f.at(i, k).combine::<T>(f.at(k, j)),
        ) by {
            assert(m.at(i, j).le(m.at(i, k).combine::<T>(m.at(k, j))));
            assert(m.at(i, k).le(f.at(i, k)));
            assert(m.at(k, j).le(f.at(k, j)));
            lemma_combine::<T>(m.at(i, k), m.at(k, j), f.at(i, k), f.at(k, j));
            lemma_le_order(
                m.at(i, j),
                m.at(i, k).combine::<T>(m.at(k, j)),
                f.at(i, k).combine::<T>(f.at(k, j)),
            );
        }
    }
    if m.is_closed_exactly() {
        assert forall|i: int, j: int, k: int|
            0 <= i < f.dim() && 0 <= j < f.dim() && 0 <= k < f.dim() implies f.at(i, j).le(
            #[trigger] f.at(i, k).plus(f.at(k, j)),
        ) by {
            assert(m.at(i, j).le(m.at(i, k).plus(m.at(k, j))));
            assert(m.at(i, k).le(f.at(i, k)));
            assert(m.at(k, j).le(f.at(k, j)));
        }
    }
}

/// Resetting the lower bounds keeps shape and diagonal.
pub proof fn lemma_lower_bounds_reset<T: Constant>(m: Matrix)
    requires
        m.wf::<T>(),
        m.diagonal_zero(),
    ensures
        m.lower_bounds_reset().dim() == m.dim(),
        m.lower_bounds_reset().wf::<T>(),
        m.lower_bounds_reset().diagonal_zero(),
{
    let r = m.lower_bounds_reset();
    T::lemma_limits();
    lemma_new(
        m.dim(),
        |i: int, j: int|
            if i == 0 && j > 0 {
                Limit::zero()
            } else {
                m.at(i, j)
            },
    );
    assert forall|i: int, j: int| 0 <= i < r.dim() && 0 <= j < r.dim() implies (#[trigger] r.at(
        i,
        j,
    )).fits::<T>() by {
        assert(m.at(i, j).fits::<T>());
    }
    assert forall|i: int| 0 <= i < r.dim() implies #[trigger] r.at(i, i) == Limit::zero() by {
        assert(m.at(i, i) == Limit::zero());
    }
}

/// Tightening an entry off the diagonal keeps shape and diagonal, and only
/// tightens.
pub proof fn lemma_tighten<T: Constant>(m: Matrix, i: int, j: int, limit: Limit)
    requires
        m.wf::<T>(),
        m.diagonal_zero(),
        0 <= i < m.dim(),
        0 <= j < m.dim(),
        i != j,
        limit.fits::<T>(),
    ensures
        m.tighten(i, j, limit).dim() == m.dim(),
        m.tighten(i, j, limit).wf::<T>(),
        m.tighten(i, j, limit).diagonal_zero(),
        m.tighten(i, j, limit).le(m),
{
    let t = m.tighten(i, j, limit);
    lemma_set(m, i, j, m.at(i, j).min(limit));
    lemma_min(m.at(i, j), limit);
    assert forall|a: int, b: int| 0 <= a < t.dim() && 0 <= b < t.dim() implies (#[trigger] t.at(
        a,
        b,
    )).fits::<T>() && t.at(a, b).le(m.at(a, b)) by {
        assert(m.at(a, b).fits::<T>());
        lemma_le_order(m.at(a, b), m.at(a, b), m.at(a, b));
    }
    assert forall|a: int| 0 <= a < t.dim() implies #[trigger] t.at(a, a) == Limit::zero() by {
        assert(m.at(a, a) == Limit::zero());
    }
}

/// Freeing a clock keeps shape and diagonal, and keeps a closed grid
/// closed.
pub proof fn lemma_free<T: Constant>(m: Matrix, clock: int)
    requires
        m.wf::<T>(),
        m.diagonal_zero(),
        0 <= clock < m.dim(),
    ensures
        m.free(clock).dim() == m.dim(),
        m.free(clock).wf::<T>(),
        m.free(clock).diagonal_zero(),
        m.is_closed::<T>() ==> m.free(clock).is_closed::<T>(),
        m.is_closed_exactly() ==> m.free(clock).is_closed_exactly(),
{
    let f = m.free(clock);
    lemma_new(
        m.dim(),
        |i: int, j: int|
            if i == j {
                m.at(i, j)
            } else if i == clock {
                Limit::Infinite
            } else if j == clock {
                m.at(i, 0)
            } else {
                m.at(i, j)
            },
    );
    assert forall|i: int, j: int| 0 <= i < f.dim() && 0 <= j < f.dim() implies (#[trigger] f.at(
        i,
        j,
    )).fits::<T>() by {
        assert(m.at(i, j).fits::<T>());
        assert(m.at(i, 0).fits::<T>());
    }
    assert forall|i: int| 0 <= i < f.dim() implies #[trigger] f.at(i, i) == Limit::zero() by {
        assert(m.at(i, i) == Limit::zero());
    }
    if m.is_closed::<T>() {
        assert forall|i: int, j: int, k: int|
            0 <= i < f.dim() && 0 <= j < f.dim() && 0 <= k < f.dim() implies f.at(i, j).le(
            #[trigger] f.at(i, k).combine::<T>(f.at(k, j)),
        ) by {
            assert(m.at(i, j).le(m.at(i, k).combine::<T>(m.at(k, j))));
            assert(m.at(i, 0).le(m.at(i, k).combine::<T>(m.at(k, 0))));
            assert(m.at(i, i) == Limit::zero());
            assert(m.at(k, k) == Limit::zero());
            assert(m.at(i, 0).fits::<T>());
            assert(m.at(i, j).fits::<T>());
            assert(f.at(i, j).fits::<T>());
            lemma_combine::<T>(f.at(i, j), Limit::zero(), f.at(i, j), Limit::zero());
            lemma_le_order(f.at(i, j), f.at(i, j), f.at(i, j));
        }
    }
    if m.is_closed_exactly() {
        assert forall|i: int, j: int, k: int|
            0 <= i < f.dim() && 0 <= j < f.dim() && 0 <= k < f.dim() implies f.at(i, j).le(
            #[trigger] f.at(i, k).plus(f.at(k, j)),
        ) by {
            assert(m.at(i, j).le(m.at(i, k).plus(m.at(k, j))));
            assert(m.at(i, 0).le(m.at(i, k).plus(m.at(k, 0))));
            assert(m.at(i, i) == Limit::zero());
            assert(m.at(k, k) == Limit::zero());
        }
    }
}

/// Copying a clock keeps shape and diagonal, and keeps a closed grid
/// closed.
pub proof fn lemma_copy<T: Constant>(m: Matrix, to: int, from: int)
    requires
        m.wf::<T>(),
        m.diagonal_zero(),
        0 <= to < m.dim(),
        0 <= from < m.dim(),
    ensures
        m.copy(to, from).dim() == m.dim(),
        m.copy(to, from).wf::<T>(),
        m.copy(to, from).diagonal_zero(),
        to == from ==> m.copy(to, from) == m,
        m.is_closed::<T>() ==> m.copy(to, from).is_closed::<T>(),
        m.is_closed_exactly() ==> m.copy(to, from).is_closed_exactly(),
{
    let c = m.copy(to, from);
    lemma_new(
        m.dim(),
        |i: int, j: int|
            if i == j {
                m.at(i, j)
            } else if i == to {
                m.at(from, j)
            } else if j == to {
                m.at(i, from)
            } else {
                m.at(i, j)
            },
    );
    assert forall|i: int, j: int| 0 <= i < c.dim() && 0 <= j < c.dim() implies (#[trigger] c.at(
        i,
        j,
    )).fits::<T>() by {
        assert(m.at(i, j).fits::<T>());
        assert(m.at(from, j).fits::<T>());
        assert(m.at(i, from).fits::<T>());
    }
    assert forall|i: int| 0 <= i < c.dim() implies #[trigger] c.at(i, i) == Limit::zero() by {
        assert(m.at(i, i) == Limit::zero());
    }
    if to == from {
        lemma_ext(c, m);
    }
    if m.is_closed::<T>() {
        assert forall|i: int, j: int, k: int|
            0 <= i < c.dim() && 0 <= j < c.dim() && 0 <= k < c.dim() implies c.at(i, j).le(
            #[trigger] c.at(i, k).combine::<T>(c.at(k, j)),
        ) by {
            let i0 = if i == to {
                from
            } else {
                i
            };
            let j0 = if j == to {
                from
            } else {
                j
            };
            let k0 = if k == to {
                from
            } else {
                k
            };
            assert(m.at(i0, j0).le(m.at(i0, k0).combine::<T>(m.at(k0, j0))));
            assert(m.at(i0, i0) == Limit::zero());
            assert(m.at(i, i) == Limit::zero());
            assert(m.at(k0, k0) == Limit::zero());
            assert(m.at(k, k) == Limit::zero());
            assert(m.at(from, from) == Limit::zero());
            assert(m.at(i0, j0).fits::<T>());
            assert(m.at(i0, k0).fits::<T>());
            assert(m.at(k0, j0).fits::<T>());
            lemma_combine::<T>(m.at(i0, k0), m.at(k0, j0), m.at(i0, k0), m.at(k0, j0));
            lemma_combine::<T>(m.at(i0, j0), Limit::zero(), m.at(i0, j0), Limit::zero());
            lemma_le_order(m.at(i0, j0), m.at(i0, j0), m.at(i0, j0));
            T::lemma_limits();
        }
    }
    if m.is_closed_exactly() {
        assert forall|i: int, j: int, k: int|
            0 <= i < c.dim() && 0 <= j < c.dim() && 0 <= k < c.dim() implies c.at(i, j).le(
            #[trigger] c.at(i, k).plus(c.at(k, j)),
        ) by {
            let i0 = if i == to {
                from
            } else {
                i
            };
            let j0 = if j == to {
                from
            } else {
                j
            };
            let k0 = if k == to {
                from
            } else {
                k
            };
            assert(m.at(i0, j0).le(m.at(i0, k0).plus(m.at(k0, j0))));
            assert(m.at(i0, i0) == Limit::zero());
            assert(m.at(i, i) == Limit::zero());
            assert(m.at(k0, k0) == Limit::zero());
            assert(m.at(k, k) == Limit::zero());
            assert(m.at(from, from) == Limit::zero());
            lemma_le_order(m.at(i0, j0), m.at(i0, j0), m.at(i0, j0));
        }
    }
}

/// Setting a clock keeps shape and diagonal.
pub proof fn lemma_assign<T: Constant>(m: Matrix, clock: int, value: int)
    requires
        m.wf::<T>(),
        m.diagonal_zero(),
        0 <= clock < m.dim(),
    ensures
        m.assign::<T>(clock, value).dim() == m.dim(),
        m.assign::<T>(clock, value).wf::<T>(),
        m.assign::<T>(clock, value).diagonal_zero(),
{
    let a = m.assign::<T>(clock, value);
    let upper = Limit::at_most(value).clamp::<T>();
    let lower = Limit::at_most(-value).clamp::<T>();
    lemma_new(
        m.dim(),
        |i: int, j: int|
            if i == j {
                m.at(i, j)
            } else if i == clock {
                if j == 0 {
                    upper
                } else {
                    upper.combine::<T>(m.at(0, j))
                }
            } else if j == clock {
                if i == 0 {
                    lower
                } else {
                    m.at(i, 0).combine::<T>(lower)
                }
            } else {
                m.at(i, j)
            },
    );
    lemma_clamp::<T>(Limit::at_most(value));
    lemma_clamp::<T>(Limit::at_most(-value));
    assert forall|i: int, j: int| 0 <= i < a.dim() && 0 <= j < a.dim() implies (#[trigger] a.at(
        i,
        j,
    )).fits::<T>() by {
        assert(m.at(i, j).fits::<T>());
        lemma_combine::<T>(upper, m.at(0, j), upper, m.at(0, j));
        lemma_combine::<T>(m.at(i, 0), lower, m.at(i, 0), lower);
    }
    assert forall|i: int| 0 <= i < a.dim() implies #[trigger] a.at(i, i) == Limit::zero() by {
        assert(m.at(i, i) == Limit::zero());
    }
}

/// Moving a clock keeps shape and diagonal.
pub proof fn lemma_shift<T: Constant>(m: Matrix, clock: int, delta: int)
    requires
        m.wf::<T>(),
        m.diagonal_zero(),
        0 <= clock < m.dim(),
    ensures
        m.shift::<T>(clock, delta).dim() == m.dim(),
        m.shift::<T>(clock, delta).wf::<T>(),
        m.shift::<T>(clock, delta).diagonal_zero(),
{
    let s = m.shift::<T>(clock, delta);
    lemma_new(
        m.dim(),
        |i: int, j: int|
            if i == j {
                m.at(i, j)
            } else if i == clock {
                m.at(i, j).offset::<T>(delta)
            } else if j == clock {
                m.at(i, j).offset::<T>(-delta)
            } else {
                m.at(i, j)
            },
    );
    assert forall|i: int, j: int| 0 <= i < s.dim() && 0 <= j < s.dim() implies (#[trigger] s.at(
        i,
        j,
    )).fits::<T>() by {
        assert(m.at(i, j).fits::<T>());
        T::lemma_limits();
    }
    assert forall|i: int| 0 <= i < s.dim() implies #[trigger] s.at(i, i) == Limit::zero() by {
        assert(m.at(i, i) == Limit::zero());
    }
}

/// Going through a clock that was just set or moved: where `b` is at most
/// the exact path through `a` and `d`, a limit put in front of `b` is at
/// most the same limit put in front of the path.
proof fn lemma_prefix<T: Constant>(u: Limit, a: Limit, d: Limit, b: Limit)
    requires
        b.le(a.plus(d)),
    ensures
        u.combine::<T>(b).le(u.combine::<T>(a).combine::<T>(d)),
        b.combine::<T>(u).le(d.combine::<T>(a.combine::<T>(u))),
{
    T::lemma_limits();
}

/// A detour that adds a length and takes it away again makes no path
/// shorter: where `x` is at most the exact path through `a` and `b`, and
/// `l` and `u` together are at least `<= 0`, `x` is at most the path
/// through `a`, `l`, `u` and `b`.
proof fn lemma_detour<T: Constant>(x: Limit, a: Limit, l: Limit, u: Limit, b: Limit)
    requires
        x.le(a.plus(b)),
        Limit::zero().le(l.plus(u)),
    ensures
        x.le(a.combine::<T>(l).combine::<T>(u.combine::<T>(b))),
        x.le(u.combine::<T>(b).combine::<T>(a.combine::<T>(l))),
{
    T::lemma_limits();
}

/// Moving both ends of a path: where `b` is at most the exact path through
/// `a` and `d`, `b` moved by `delta` is at most the path through `a` moved
/// by `delta` and `d`; and a path through `a` lowered and `d` raised by the
/// same amount is no shorter than the exact path through `a` and `d`.
proof fn lemma_moved<T: Constant>(a: Limit, d: Limit, b: Limit, delta: int)
    requires
        b.le(a.plus(d)),
    ensures
        b.offset::<T>(delta).le(a.offset::<T>(delta).combine::<T>(d)),
        b.offset::<T>(delta).le(a.combine::<T>(d.offset::<T>(delta))),
        b.le(a.offset::<T>(-delta).combine::<T>(d.offset::<T>(delta))),
        b.le(a.offset::<T>(delta).combine::<T>(d.offset::<T>(-delta))),
{
    T::lemma_limits();
}

/// In a closed grid whose two-step paths fit, every entry is at most the
/// exact length of any path of two steps.
pub proof fn lemma_exact_triangle<T: Constant>(m: Matrix, i: int, j: int, k: int)
    requires
        m.wf::<T>(),
        m.is_closed::<T>(),
        m.paths_fit::<T>(),
        0 <= i < m.dim(),
        0 <= j < m.dim(),
        0 <= k < m.dim(),
    ensures
        m.at(i, j).le(m.at(i, k).plus(m.at(k, j))),
{
    assert(m.at(i, j).le(m.at(i, k).combine::<T>(m.at(k, j))));
    assert(m.at(i, k).plus(m.at(k, j)).fits::<T>());
    lemma_clamp::<T>(m.at(i, k).plus(m.at(k, j)));
}

/// Setting a clock keeps a closed grid closed, provided that no path of two
/// steps in the grid needed saturation. (Where one did, the grid may hold
/// an entry that is looser than the path, and the new row or column may
/// then bring the tighter path to light.)
pub proof fn lemma_assign_closed<T: Constant>(m: Matrix, clock: int, value: int)
    requires
        m.wf::<T>(),
        m.diagonal_zero(),
        0 <= clock < m.dim(),
        m.is_closed::<T>(),
        m.paths_fit::<T>(),
    ensures
        m.assign::<T>(clock, value).is_closed::<T>(),
{
    let a = m.assign::<T>(clock, value);
    let upper = Limit::at_most(value).clamp::<T>();
    let lower = Limit::at_most(-value).clamp::<T>();
    lemma_assign::<T>(m, clock, value);
    lemma_new(
        m.dim(),
        |i: int, j: int|
            if i == j {
                m.at(i, j)
            } else if i == clock {
                if j == 0 {
                    upper
                } else {
                    upper.combine::<T>(m.at(0, j))
                }
            } else if j == clock {
                if i == 0 {
                    lower
                } else {
                    m.at(i, 0).combine::<T>(lower)
                }
            } else {
                m.at(i, j)
            },
    );
    lemma_clamp::<T>(Limit::at_most(value));
    lemma_clamp::<T>(Limit::at_most(-value));
    assert(Limit::zero().le(lower.plus(upper)));
    assert(Limit::zero().le(upper.plus(lower)));
    assert(m.at(0, 0) == Limit::zero());
    // The new row and column, written the same way for every clock.
    assert forall|j: int| 0 <= j < m.dim() && j != clock implies #[trigger] a.at(clock, j)
        == upper.combine::<T>(m.at(0, j)) by {
        lemma_combine::<T>(upper, Limit::zero(), upper, Limit::zero());
    }
    assert forall|i: int| 0 <= i < m.dim() && i != clock implies #[trigger] a.at(i, clock)
        == m.at(i, 0).combine::<T>(lower) by {
        lemma_combine::<T>(lower, Limit::zero(), lower, Limit::zero());
    }
    assert forall|i: int, j: int, k: int|
        0 <= i < a.dim() && 0 <= j < a.dim() && 0 <= k < a.dim() implies a.at(i, j).le(
        #[trigger] a.at(i, k).combine::<T>(a.at(k, j)),
    ) by {
        assert(a.at(i, j).fits::<T>());
        assert(a.at(i, i) == Limit::zero());
        assert(a.at(j, j) == Limit::zero());
        lemma_le_order(a.at(i, j), a.at(i, j), a.at(i, j));
        if k == i || k == j {
            lemma_combine::<T>(a.at(i, j), Limit::zero(), a.at(i, j), Limit::zero());
        } else if i == j {
            lemma_exact_triangle::<T>(m, 0, 0, k);
            lemma_exact_triangle::<T>(m, 0, 0, i);
            if i == clock {
                lemma_detour::<T>(Limit::zero(), m.at(k, 0), lower, upper, m.at(0, k));
            } else if k == clock {
                lemma_detour::<T>(Limit::zero(), m.at(i, 0), lower, upper, m.at(0, i));
            } else {
                assert(m.at(i, i).le(m.at(i, k).combine::<T>(m.at(k, i))));
            }
        } else if i == clock {
            lemma_exact_triangle::<T>(m, 0, j, k);
            lemma_prefix::<T>(upper, m.at(0, k), m.at(k, j), m.at(0, j));
        } else if j == clock {
            lemma_exact_triangle::<T>(m, i, 0, k);
            lemma_prefix::<T>(lower, m.at(k, 0), m.at(i, k), m.at(i, 0));
        } else if k == clock {
            lemma_exact_triangle::<T>(m, i, j, 0);
            lemma_detour::<T>(m.at(i, j), m.at(i, 0), lower, upper, m.at(0, j));
        } else {
            assert(m.at(i, j).le(m.at(i, k).combine::<T>(m.at(k, j))));
        }
    }
}

/// Moving a clock keeps a closed grid closed, provided that no path of two
/// steps in the grid needed saturation.
pub proof fn lemma_shift_closed<T: Constant>(m: Matrix, clock: int, delta: int)
    requires
        m.wf::<T>(),
        m.diagonal_zero(),
        0 <= clock < m.dim(),
        m.is_closed::<T>(),
        m.paths_fit::<T>(),
    ensures
        m.shift::<T>(clock, delta).is_closed::<T>(),
{
    let s = m.shift::<T>(clock, delta);
    lemma_shift::<T>(m, clock, delta);
    lemma_new(
        m.dim(),
        |i: int, j: int|
            if i == j {
                m.at(i, j)
            } else if i == clock {
                m.at(i, j).offset::<T>(delta)
            } else if j == clock {
                m.at(i, j).offset::<T>(-delta)
            } else {
                m.at(i, j)
            },
    );
    assert forall|i: int, j: int, k: int|
        0 <= i < s.dim() && 0 <= j < s.dim() && 0 <= k < s.dim() implies s.at(i, j).le(
        #[trigger] s.at(i, k).combine::<T>(s.at(k, j)),
    ) by {
        assert(s.at(i, j).fits::<T>());
        assert(s.at(i, i) == Limit::zero());
        assert(s.at(j, j) == Limit::zero());
        assert(m.at(i, i) == Limit::zero());
        lemma_le_order(s.at(i, j), s.at(i, j), s.at(i, j));
        lemma_exact_triangle::<T>(m, i, j, k);
        if k == i || k == j {
            lemma_combine::<T>(s.at(i, j), Limit::zero(), s.at(i, j), Limit::zero());
        } else if i == j {
            if i == clock {
                lemma_moved::<T>(m.at(i, k), m.at(k, i), Limit::zero(), delta);
            } else if k == clock {
                lemma_moved::<T>(m.at(i, k), m.at(k, i), Limit::zero(), delta);
            } else {
                assert(m.at(i, i).le(m.at(i, k).combine::<T>(m.at(k, i))));
            }
        } else if i == clock {
            lemma_moved::<T>(m.at(i, k), m.at(k, j), m.at(i, j), delta);
        } else if j == clock {
            lemma_moved::<T>(m.at(i, k), m.at(k, j), m.at(i, j), -delta);
        } else if k == clock {
            lemma_moved::<T>(m.at(i, k), m.at(k, j), m.at(i, j), delta);
        } else {
            assert(m.at(i, j).le(m.at(i, k).combine::<T>(m.at(k, j))));
        }
    }
}

/// In exact arithmetic: a limit put in front of a path, or behind it.
proof fn lemma_prefix_exactly(u: Limit, a: Limit, d: Limit, b: Limit)
    requires
        b.le(a.plus(d)),
    ensures
        u.plus(b).le(u.plus(a).plus(d)),
        b.plus(u).le(d.plus(a.plus(u))),
{
}

/// In exact arithmetic: a detour that adds a length and takes it away.
proof fn lemma_detour_exactly(x: Limit, a: Limit, l: Limit, u: Limit, b: Limit)
    requires
        x.le(a.plus(b)),
        Limit::zero().le(l.plus(u)),
    ensures
        x.le(a.plus(l).plus(u.plus(b))),
        x.le(u.plus(b).plus(a.plus(l))),
{
}

/// Setting a clock keeps a grid closed in exact arithmetic, where setting
/// it needs no saturation.
pub proof fn lemma_assign_closed_exactly<T: Constant>(m: Matrix, clock: int, value: int)
    requires
        m.wf::<T>(),
        m.diagonal_zero(),
        0 <= clock < m.dim(),
        m.is_closed_exactly(),
        m.assign_fits::<T>(clock, value),
    ensures
        m.assign::<T>(clock, value).is_closed_exactly(),
{
    let a = m.assign::<T>(clock, value);
    let upper = Limit::at_most(value);
    let lower = Limit::at_most(-value);
    lemma_assign::<T>(m, clock, value);
    lemma_new(
        m.dim(),
        |i: int, j: int|
            if i == j {
                m.at(i, j)
            } else if i == clock {
                if j == 0 {
                    upper.clamp::<T>()
                } else {
                    upper.clamp::<T>().combine::<T>(m.at(0, j))
                }
            } else if j == clock {
                if i == 0 {
                    lower.clamp::<T>()
                } else {
                    m.at(i, 0).combine::<T>(lower.clamp::<T>())
                }
            } else {
                m.at(i, j)
            },
    );
    lemma_clamp::<T>(upper);
    lemma_clamp::<T>(lower);
    assert(m.at(0, 0) == Limit::zero());
    // The new row and column, written the same way for every clock.
    assert forall|j: int| 0 <= j < m.dim() && j != clock implies #[trigger] a.at(clock, j)
        == upper.plus(m.at(0, j)) by {
        assert(upper.plus(m.at(0, j)).fits::<T>());
        lemma_clamp::<T>(upper.plus(m.at(0, j)));
    }
    assert forall|i: int| 0 <= i < m.dim() && i != clock implies #[trigger] a.at(i, clock)
        == m.at(i, 0).plus(lower) by {
        assert(m.at(i, 0).plus(lower).fits::<T>());
        lemma_clamp::<T>(m.at(i, 0).plus(lower));
    }
    assert forall|i: int, j: int, k: int|
        0 <= i < a.dim() && 0 <= j < a.dim() && 0 <= k < a.dim() implies a.at(i, j).le(
        #[trigger] a.at(i, k).plus(a.at(k, j)),
    ) by {
        assert(a.at(i, i) == Limit::zero());
        assert(a.at(j, j) == Limit::zero());
        lemma_le_order(a.at(i, j), a.at(i, j), a.at(i, j));
        if k == i || k == j {
        } else if i == j {
            assert(m.at(0, 0).le(m.at(0, k).plus(m.at(k, 0))));
            assert(m.at(0, 0).le(m.at(0, i).plus(m.at(i, 0))));
            if i == clock {
                lemma_detour_exactly(Limit::zero(), m.at(k, 0), lower, upper, m.at(0, k));
            } else if k == clock {
                lemma_detour_exactly(Limit::zero(), m.at(i, 0), lower, upper, m.at(0, i));
            } else {
                assert(m.at(i, i).le(m.at(i, k).plus(m.at(k, i))));
            }
        } else if i == clock {
            assert(m.at(0, j).le(m.at(0, k).plus(m.at(k, j))));
            lemma_prefix_exactly(upper, m.at(0, k), m.at(k, j), m.at(0, j));
        } else if j == clock {
            assert(m.at(i, 0).le(m.at(i, k).plus(m.at(k, 0))));
            lemma_prefix_exactly(lower, m.at(k, 0), m.at(i, k), m.at(i, 0));
        } else if k == clock {
            assert(m.at(i, j).le(m.at(i, 0).plus(m.at(0, j))));
            lemma_detour_exactly(m.at(i, j), m.at(i, 0), lower, upper, m.at(0, j));
        } else {
            assert(m.at(i, j).le(m.at(i, k).plus(m.at(k, j))));
        }
    }
}

/// Moving a clock keeps a grid closed in exact arithmetic, where moving it
/// needs no saturation.
pub proof fn lemma_shift_closed_exactly<T: Constant>(m: Matrix, clock: int, delta: int)
    requires
        m.wf::<T>(),
        m.diagonal_zero(),
        0 <= clock < m.dim(),
        m.is_closed_exactly(),
        m.shift_fits::<T>(clock, delta),
    ensures
        m.shift::<T>(clock, delta).is_closed_exactly(),
{
    let s = m.shift::<T>(clock, delta);
    lemma_shift::<T>(m, clock, delta);
    lemma_new(
        m.dim(),
        |i: int, j: int|
            if i == j {
                m.at(i, j)
            } else if i == clock {
                m.at(i, j).offset::<T>(delta)
            } else if j == clock {
                m.at(i, j).offset::<T>(-delta)
            } else {
                m.at(i, j)
            },
    );
    assert forall|i: int, j: int, k: int|
        0 <= i < s.dim() && 0 <= j < s.dim() && 0 <= k < s.dim() implies s.at(i, j).le(
        #[trigger] s.at(i, k).plus(s.at(k, j)),
    ) by {
        assert(s.at(i, i) == Limit::zero());
        assert(s.at(j, j) == Limit::zero());
        assert(m.at(i, i) == Limit::zero());
        lemma_le_order(s.at(i, j), s.at(i, j), s.at(i, j));
        assert(m.at(i, j).le(m.at(i, k).plus(m.at(k, j))));
        assert(m.at(i, j).fits::<T>());
        assert(m.at(i, k).fits::<T>());
        assert(m.at(k, j).fits::<T>());
        if k != i && k != j {
            if i == clock {
                assert(m.at(clock, k) is Finite ==> T::lowest() <= m.at(clock, k)->constant
                    + delta < T::highest());
                if i != j {
                    assert(m.at(clock, j) is Finite ==> T::lowest() <= m.at(clock, j)->constant
                        + delta < T::highest());
                }
            }
            if j == clock {
                assert(m.at(k, clock) is Finite ==> T::lowest() <= m.at(k, clock)->constant
                    - delta < T::highest());
                if i != j {
                    assert(m.at(i, clock) is Finite ==> T::lowest() <= m.at(i, clock)->constant
                        - delta < T::highest());
                }
            }
            if k == clock {
                assert(m.at(clock, j) is Finite ==> T::lowest() <= m.at(clock, j)->constant
                    + delta < T::highest());
                assert(m.at(i, clock) is Finite ==> T::lowest() <= m.at(i, clock)->constant
                    - delta < T::highest());
            }
        }
    }
}


} // verus!
