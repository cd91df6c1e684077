//! Closing a grid: tightening every entry along paths through every clock
//! until nothing changes, or until a cycle of negative length shows that the
//! zone is empty.

use vstd::prelude::*;
use crate::bound::Bound;
use crate::constant::Constant;
use crate::limit::{lemma_clamp, lemma_combine, lemma_le_order, lemma_min, Limit};
use crate::matrix::{lemma_ext, lemma_new, Matrix};
use crate::storage::Store;

verus! {

impl Matrix {
    /// One round of tightening: every entry `(i, j)` is set against the path
    /// from `i` through clock `k` to `j`.
    pub open spec fn pivot<T: Constant>(self, k: int) -> Matrix {
        Matrix::new(
            self.dim(),
            |i: int, j: int| self.at(i, j).min(self.at(i, k).combine::<T>(self.at(k, j))),
        )
    }

    /// The round for clock `k` needs no saturation: every path through `k`
    /// has a length that fits `T`.
    pub open spec fn pivot_fits<T: Constant>(self, k: int) -> bool {
        forall|i: int, j: int|
            0 <= i < self.dim() && 0 <= j < self.dim() ==> (#[trigger] self.at(i, k).plus(
                self.at(k, j),
            )).fits::<T>()
    }

    /// None of the rounds for the clocks below `n` needs saturation.
    pub open spec fn sweep_fits<T: Constant>(self, n: nat) -> bool
        decreases n,
    {
        n == 0 || (self.sweep_fits::<T>((n - 1) as nat) && (self.sweep::<T>(
            (n - 1) as nat,
        ) matches Some(m) ==> m.pivot_fits::<T>(n - 1)))
    }

    /// The rounds for the clocks below `n`, in turn. `None` as soon as a
    /// round leaves a diagonal entry below `<= 0`: some cycle has negative
    /// length, and no valuation meets the grid.
    pub open spec fn sweep<T: Constant>(self, n: nat) -> Option<Matrix>
        decreases n,
    {
        if n == 0 {
            Some(self)
        } else {
            match self.sweep::<T>((n - 1) as nat) {
                None => None,
                Some(m) => {
                    let p = m.pivot::<T>(n - 1);
                    if p.diagonal_zero() {
                        Some(p)
                    } else {
                        None
                    }
                },
            }
        }
    }

    /// How far the entries stand above the tightest grid of `T`, summed; a
    /// sweep that changes an entry lowers it.
    pub open spec fn weight<T: Constant>(self) -> nat {
        grid_weight::<T>(self.rows)
    }

    /// Whole sweeps repeated until one changes nothing. `None` if a sweep
    /// finds a cycle of negative length. Stated for grids of `T` with a zero
    /// diagonal.
    pub open spec fn closure<T: Constant>(self) -> Option<Matrix>
        decreases self.weight::<T>(),
        when self.wf::<T>() && self.diagonal_zero()
    {
        match self.sweep::<T>(self.dim()) {
            None => None,
            Some(m) => if m == self {
                Some(self)
            } else {
                proof {
                    lemma_sweep::<T>(self, self.dim());
                    lemma_weight::<T>(m, self);
                }
                m.closure::<T>()
            },
        }
    }

    /// Whether closing ends in a sweep that needs no saturation: the sweep
    /// that changes nothing, or the first one that needs none, is such a
    /// sweep. The closure is then closed in exact arithmetic. `false` where
    /// closing finds the zone empty. Stated for grids of `T` with a zero
    /// diagonal.
    pub open spec fn closes_exactly<T: Constant>(self) -> bool
        decreases self.weight::<T>(),
        when self.wf::<T>() && self.diagonal_zero()
    {
        match self.sweep::<T>(self.dim()) {
            None => false,
            Some(m) => if m == self || self.sweep_fits::<T>(self.dim()) {
                self.sweep_fits::<T>(self.dim())
            } else {
                proof {
                    lemma_sweep::<T>(self, self.dim());
                    lemma_weight::<T>(m, self);
                }
                m.closes_exactly::<T>()
            },
        }
    }
}

/// The height of one limit above the tightest limit of `T`.
pub open spec fn limit_weight<T: Constant>(limit: Limit) -> nat {
    match limit {
        Limit::Infinite => (2 * (T::highest() - T::lowest()) + 1) as nat,
        Limit::Finite { constant, strict } => {
            let w = 2 * (constant - T::lowest()) + if strict {
                0int
            } else {
                1int
            };
            if w < 0 {
                0nat
            } else {
                w as nat
            }
        },
    }
}

/// The weights of the limits of one row, summed.
pub open spec fn row_weight<T: Constant>(row: Seq<Limit>) -> nat
    decreases row.len(),
{
    if row.len() == 0 {
        0nat
    } else {
        row_weight::<T>(row.drop_last()) + limit_weight::<T>(row.last())
    }
}

/// The weights of the rows, summed.
pub open spec fn grid_weight<T: Constant>(rows: Seq<Seq<Limit>>) -> nat
    decreases rows.len(),
{
    if rows.len() == 0 {
        0nat
    } else {
        grid_weight::<T>(rows.drop_last()) + row_weight::<T>(rows.last())
    }
}

/// A tighter limit weighs less.
proof fn lemma_limit_weight<T: Constant>(a: Limit, b: Limit)
    requires
        a.fits::<T>(),
        b.fits::<T>(),
        a.le(b),
    ensures
        limit_weight::<T>(a) <= limit_weight::<T>(b),
        a != b ==> limit_weight::<T>(a) < limit_weight::<T>(b),
{
    T::lemma_limits();
}

/// A row that is entry by entry at least as tight weighs no more, and less
/// if it differs.
proof fn lemma_row_weight<T: Constant>(a: Seq<Limit>, b: Seq<Limit>)
    requires
        a.len() == b.len(),
        forall|j: int| 0 <= j < a.len() ==> (#[trigger] a[j]).fits::<T>() && b[j].fits::<T>(),
        forall|j: int| 0 <= j < a.len() ==> (#[trigger] a[j]).le(b[j]),
    ensures
        row_weight::<T>(a) <= row_weight::<T>(b),
        a != b ==> row_weight::<T>(a) < row_weight::<T>(b),
    decreases a.len(),
{
    if a.len() == 0 {
        assert(a =~= b);
    } else {
        let a0 = a.drop_last();
        let b0 = b.drop_last();
        assert forall|j: int| 0 <= j < a0.len() implies (#[trigger] a0[j]).fits::<T>()
            && b0[j].fits::<T>() && a0[j].le(b0[j]) by {
            assert(a0[j] == a[j] && b0[j] == b[j]);
        }
        lemma_row_weight::<T>(a0, b0);
        lemma_limit_weight::<T>(a.last(), b.last());
        if a0 == b0 && a.last() == b.last() {
            assert(a =~= a0.push(a.last()));
            assert(b =~= b0.push(b.last()));
        }
    }
}

/// A grid that is entry by entry at least as tight weighs no more, and less
/// if it differs.
proof fn lemma_grid_weight<T: Constant>(a: Seq<Seq<Limit>>, b: Seq<Seq<Limit>>)
    requires
        a.len() == b.len(),
        forall|i: int| 0 <= i < a.len() ==> (#[trigger] a[i]).len() == b[i].len(),
        forall|i: int, j: int|
            0 <= i < a.len() && 0 <= j < a[i].len() ==> (#[trigger] a[i][j]).fits::<T>()
                && b[i][j].fits::<T>() && a[i][j].le(b[i][j]),
    ensures
        grid_weight::<T>(a) <= grid_weight::<T>(b),
        a != b ==> grid_weight::<T>(a) < grid_weight::<T>(b),
    decreases a.len(),
{
    if a.len() == 0 {
        assert(a =~= b);
    } else {
        let a0 = a.drop_last();
        let b0 = b.drop_last();
        assert forall|i: int| 0 <= i < a0.len() implies (#[trigger] a0[i]).len() == b0[i].len() by {
            assert(a0[i] == a[i] && b0[i] == b[i]);
        }
        assert forall|i: int, j: int| 0 <= i < a0.len() && 0 <= j < a0[i].len() implies (
        #[trigger] a0[i][j]).fits::<T>() && b0[i][j].fits::<T>() && a0[i][j].le(b0[i][j]) by {
            assert(a0[i] == a[i] && b0[i] == b[i]);
        }
        lemma_grid_weight::<T>(a0, b0);
        let last = a.len() - 1;
        assert forall|j: int| 0 <= j < a.last().len() implies (#[trigger] a.last()[j]).fits::<T>()
            && b.last()[j].fits::<T>() && a.last()[j].le(b.last()[j]) by {
            assert(a[last][j].fits::<T>());
        }
        lemma_row_weight::<T>(a.last(), b.last());
        if a0 == b0 && a.last() == b.last() {
            assert(a =~= a0.push(a.last()));
            assert(b =~= b0.push(b.last()));
        }
    }
}

/// A grid of `T` that is entry by entry at least as tight as another, and
/// not the same, weighs less.
pub proof fn lemma_weight<T: Constant>(a: Matrix, b: Matrix)
    requires
        a.wf::<T>(),
        b.wf::<T>(),
        a.le(b),
    ensures
        a.weight::<T>() <= b.weight::<T>(),
        a != b ==> a.weight::<T>() < b.weight::<T>(),
{
    assert forall|i: int, j: int| 0 <= i < a.rows.len() && 0 <= j < a.rows[i].len() implies (
    #[trigger] a.rows[i][j]).fits::<T>() && b.rows[i][j].fits::<T>() && a.rows[i][j].le(
        b.rows[i][j],
    ) by {
        assert(a.at(i, j).fits::<T>());
        assert(b.at(i, j).fits::<T>());
        assert(a.at(i, j).le(b.at(i, j)));
    }
    lemma_grid_weight::<T>(a.rows, b.rows);
}

/// A round keeps size, shape and type, and only tightens. Row `k` and
/// column `k` stay as they are while entry `(k, k)` is `<= 0`.
pub proof fn lemma_pivot<T: Constant>(m: Matrix, k: int)
    requires
        m.wf::<T>(),
        0 <= k < m.dim(),
    ensures
        m.pivot::<T>(k).wf::<T>(),
        m.pivot::<T>(k).dim() == m.dim(),
        m.pivot::<T>(k).le(m),
        forall|i: int, j: int|
            0 <= i < m.dim() && 0 <= j < m.dim() ==> #[trigger] m.pivot::<T>(k).at(i, j) == m.at(
                i,
                j,
            ).min(m.at(i, k).combine::<T>(m.at(k, j))),
        m.at(k, k) == Limit::zero() ==> forall|i: int|
            0 <= i < m.dim() ==> #[trigger] m.pivot::<T>(k).at(i, k) == m.at(i, k),
        m.at(k, k) == Limit::zero() ==> forall|j: int|
            0 <= j < m.dim() ==> #[trigger] m.pivot::<T>(k).at(k, j) == m.at(k, j),
{
    let p = m.pivot::<T>(k);
    lemma_new(
        m.dim(),
        |i: int, j: int| m.at(i, j).min(m.at(i, k).combine::<T>(m.at(k, j))),
    );
    assert forall|i: int, j: int| 0 <= i < m.dim() && 0 <= j < m.dim() implies (#[trigger] p.at(
        i,
        j,
    )).fits::<T>() && p.at(i, j).le(m.at(i, j)) by {
        let via = m.at(i, k).combine::<T>(m.at(k, j));
        lemma_combine::<T>(m.at(i, k), m.at(k, j), m.at(i, k), m.at(k, j));
        lemma_min(m.at(i, j), via);
        assert(m.at(i, j).fits::<T>());
    }
    if m.at(k, k) == Limit::zero() {
        assert forall|i: int| 0 <= i < m.dim() implies #[trigger] p.at(i, k) == m.at(i, k) by {
            assert(m.at(i, k).fits::<T>());
            lemma_combine::<T>(m.at(i, k), m.at(k, k), m.at(i, k), m.at(k, k));
        }
        assert forall|j: int| 0 <= j < m.dim() implies #[trigger] p.at(k, j) == m.at(k, j) by {
            assert(m.at(k, j).fits::<T>());
            lemma_combine::<T>(m.at(k, j), m.at(k, k), m.at(k, j), m.at(k, k));
        }
    }
}

/// A round changes nothing exactly when no entry can be tightened through
/// clock `k`.
pub proof fn lemma_pivot_fixed<T: Constant>(m: Matrix, k: int)
    requires
        m.wf::<T>(),
        0 <= k < m.dim(),
    ensures
        m.pivot::<T>(k) == m <==> forall|i: int, j: int|
            0 <= i < m.dim() && 0 <= j < m.dim() ==> m.at(i, j).le(
                #[trigger] m.at(i, k).combine::<T>(m.at(k, j)),
            ),
{
    let p = m.pivot::<T>(k);
    lemma_pivot::<T>(m, k);
    if p == m {
        assert forall|i: int, j: int| 0 <= i < m.dim() && 0 <= j < m.dim() implies m.at(i, j).le(
            #[trigger] m.at(i, k).combine::<T>(m.at(k, j)),
        ) by {
            assert(p.at(i, j) == m.at(i, j).min(m.at(i, k).combine::<T>(m.at(k, j))));
            lemma_min(m.at(i, j), m.at(i, k).combine::<T>(m.at(k, j)));
        }
    }
    if forall|i: int, j: int|
        0 <= i < m.dim() && 0 <= j < m.dim() ==> m.at(i, j).le(
            #[trigger] m.at(i, k).combine::<T>(m.at(k, j)),
        ) {
        assert forall|i: int, j: int| 0 <= i < m.dim() && 0 <= j < m.dim() implies #[trigger] p.at(
            i,
            j,
        ) == m.at(i, j) by {
            assert(m.at(i, j).le(m.at(i, k).combine::<T>(m.at(k, j))));
            lemma_min(m.at(i, j), m.at(i, k).combine::<T>(m.at(k, j)));
        }
        lemma_ext(p, m);
    }
}

/// What a sweep that did not fail returns: a grid of `T` of the same size,
/// with a zero diagonal, nowhere looser than the one it began with.
pub proof fn lemma_sweep<T: Constant>(m: Matrix, n: nat)
    requires
        m.wf::<T>(),
        m.diagonal_zero(),
        n <= m.dim(),
    ensures
        m.sweep::<T>(n) is Some ==> {
            let s = m.sweep::<T>(n)->0;
            &&& s.wf::<T>()
            &&& s.dim() == m.dim()
            &&& s.diagonal_zero()
            &&& s.le(m)
        },
    decreases n,
{
    if n > 0 {
        lemma_sweep::<T>(m, (n - 1) as nat);
        if m.sweep::<T>((n - 1) as nat) is Some {
            let s = m.sweep::<T>((n - 1) as nat)->0;
            lemma_pivot::<T>(s, n - 1);
            let p = s.pivot::<T>(n - 1);
            assert forall|i: int, j: int| 0 <= i < p.dim() && 0 <= j < p.dim() implies (
            #[trigger] p.at(i, j)).le(m.at(i, j)) by {
                assert(p.at(i, j).le(s.at(i, j)));
                assert(s.at(i, j).le(m.at(i, j)));
                lemma_le_order(p.at(i, j), s.at(i, j), m.at(i, j));
            }
        }
    } else {
        assert forall|i: int, j: int| 0 <= i < m.dim() && 0 <= j < m.dim() implies (#[trigger] m.at(
            i,
            j,
        )).le(m.at(i, j)) by {
            lemma_le_order(m.at(i, j), m.at(i, j), m.at(i, j));
        }
    }
}

/// Tightness entry by entry is transitive, and antisymmetric on square
/// grids.
pub proof fn lemma_matrix_le(a: Matrix, b: Matrix, c: Matrix)
    requires
        a.square(),
        b.square(),
    ensures
        a.le(a),
        a.le(b) && b.le(a) ==> a == b,
        a.le(b) && b.le(c) ==> a.le(c),
{
    assert forall|i: int, j: int| 0 <= i < a.dim() && 0 <= j < a.dim() implies (#[trigger] a.at(
        i,
        j,
    )).le(a.at(i, j)) by {
        lemma_le_order(a.at(i, j), a.at(i, j), a.at(i, j));
    }
    if a.le(b) && b.le(a) {
        assert forall|i: int, j: int| 0 <= i < a.dim() && 0 <= j < a.dim() implies #[trigger] a.at(
            i,
            j,
        ) == b.at(i, j) by {
            assert(b.at(i, j).le(a.at(i, j)));
            lemma_le_order(a.at(i, j), b.at(i, j), a.at(i, j));
        }
        lemma_ext(a, b);
    }
    if a.le(b) && b.le(c) {
        assert forall|i: int, j: int| 0 <= i < a.dim() && 0 <= j < a.dim() implies (#[trigger] a.at(
            i,
            j,
        )).le(c.at(i, j)) by {
            assert(b.at(i, j).le(c.at(i, j)));
            lemma_le_order(a.at(i, j), b.at(i, j), c.at(i, j));
        }
    }
}

/// A sweep over the first `n` clocks returns the grid it was given exactly
/// when no entry can be tightened through any of those clocks.
pub proof fn lemma_sweep_fixed<T: Constant>(m: Matrix, n: nat)
    requires
        m.wf::<T>(),
        m.diagonal_zero(),
        n <= m.dim(),
    ensures
        m.sweep::<T>(n) == Some(m) <==> forall|k: int| 0 <= k < n ==> #[trigger] m.pivot::<T>(k) == m,
    decreases n,
{
    if n > 0 {
        let before = m.sweep::<T>((n - 1) as nat);
        lemma_sweep_fixed::<T>(m, (n - 1) as nat);
        lemma_sweep::<T>(m, (n - 1) as nat);
        lemma_sweep::<T>(m, n);
        if m.sweep::<T>(n) == Some(m) {
            let s = before->0;
            lemma_pivot::<T>(s, n - 1);
            lemma_matrix_le(s, m, s);
            assert(s == m);
            assert forall|k: int| 0 <= k < n implies #[trigger] m.pivot::<T>(k) == m by {
                if k < n - 1 {
                } else {
                    assert(k == n - 1);
                }
            }
        }
        if forall|k: int| 0 <= k < n ==> #[trigger] m.pivot::<T>(k) == m {
            assert(m.pivot::<T>(n - 1) == m);
            assert(before == Some(m));
        }
    }
}

/// A grid with a zero diagonal is closed exactly when a whole sweep returns
/// it unchanged.
pub proof fn lemma_closed_iff_fixed<T: Constant>(m: Matrix)
    requires
        m.wf::<T>(),
        m.diagonal_zero(),
    ensures
        m.is_closed::<T>() <==> m.sweep::<T>(m.dim()) == Some(m),
{
    lemma_sweep_fixed::<T>(m, m.dim());
    if m.is_closed::<T>() {
        assert forall|k: int| 0 <= k < m.dim() implies #[trigger] m.pivot::<T>(k) == m by {
            lemma_pivot_fixed::<T>(m, k);
        }
    }
    if m.sweep::<T>(m.dim()) == Some(m) {
        assert forall|i: int, j: int, k: int|
            0 <= i < m.dim() && 0 <= j < m.dim() && 0 <= k < m.dim() implies m.at(i, j).le(
            #[trigger] m.at(i, k).combine::<T>(m.at(k, j)),
        ) by {
            assert(m.pivot::<T>(k) == m);
            lemma_pivot_fixed::<T>(m, k);
        }
    }
}

/// What closing gives: where it does not fail, a closed grid of `T` of the
/// same size with a zero diagonal, nowhere looser than the one it began
/// with; and a closed grid is its own closure.
pub proof fn lemma_closure<T: Constant>(m: Matrix)
    requires
        m.wf::<T>(),
        m.diagonal_zero(),
    ensures
        m.closure::<T>() is Some ==> {
            let c = m.closure::<T>()->0;
            &&& c.wf::<T>()
            &&& c.dim() == m.dim()
            &&& c.diagonal_zero()
            &&& c.is_closed::<T>()
            &&& c.le(m)
        },
        m.is_closed::<T>() <==> m.closure::<T>() == Some(m),
    decreases m.weight::<T>(),
{
    lemma_sweep::<T>(m, m.dim());
    lemma_closed_iff_fixed::<T>(m);
    lemma_matrix_le(m, m, m);
    match m.sweep::<T>(m.dim()) {
        None => {},
        Some(s) => {
            if s != m {
                lemma_weight::<T>(s, m);
                lemma_closure::<T>(s);
                if s.closure::<T>() is Some {
                    let c = s.closure::<T>()->0;
                    lemma_matrix_le(c, s, m);
                    if c == m {
                        lemma_matrix_le(s, m, s);
                    }
                }
            }
        },
    }
}


/// A round without saturation closes the grid through one more clock: if no
/// entry could be tightened through a clock below `k` before, none can be
/// tightened through a clock up to `k` after.
pub proof fn lemma_pivot_closes<T: Constant>(m: Matrix, k: int)
    requires
        m.wf::<T>(),
        m.diagonal_zero(),
        0 <= k < m.dim(),
        m.closed_through(k),
        m.pivot_fits::<T>(k),
    ensures
        m.pivot::<T>(k).closed_through(k + 1),
{
    let p = m.pivot::<T>(k);
    lemma_pivot::<T>(m, k);
    assert(m.at(k, k) == Limit::zero());
    assert forall|i: int, j: int, q: int|
        0 <= i < p.dim() && 0 <= j < p.dim() && 0 <= q < p.dim() && q < k + 1 implies p.at(
        i,
        j,
    ).le(#[trigger] p.at(i, q).plus(p.at(q, j))) by {
        // What the round did to the three entries, in exact arithmetic.
        lemma_pivot_entry::<T>(m, k, i, j);
        lemma_pivot_entry::<T>(m, k, i, q);
        lemma_pivot_entry::<T>(m, k, q, j);
        if q == k {
            assert(p.at(i, k) == m.at(i, k));
            assert(p.at(k, j) == m.at(k, j));
        } else {
            assert(m.at(i, j).le(m.at(i, q).plus(m.at(q, j))));
            assert(m.at(k, j).le(m.at(k, q).plus(m.at(q, j))));
            assert(m.at(i, k).le(m.at(i, q).plus(m.at(q, k))));
            assert(m.at(k, k).le(m.at(k, q).plus(m.at(q, k))));
            lemma_four_paths(
                m.at(i, j),
                m.at(i, k),
                m.at(k, j),
                m.at(i, q),
                m.at(q, j),
                m.at(k, q),
                m.at(q, k),
            );
        }
    }
}

/// An entry after a round without saturation: the old entry or the exact
/// length of the path through the round's clock, whichever is tighter.
proof fn lemma_pivot_entry<T: Constant>(m: Matrix, k: int, i: int, j: int)
    requires
        m.wf::<T>(),
        0 <= k < m.dim(),
        0 <= i < m.dim(),
        0 <= j < m.dim(),
        m.pivot_fits::<T>(k),
    ensures
        m.pivot::<T>(k).at(i, j) == m.at(i, j).min(m.at(i, k).plus(m.at(k, j))),
{
    lemma_pivot::<T>(m, k);
    assert(m.at(i, k).plus(m.at(k, j)).fits::<T>());
    lemma_clamp::<T>(m.at(i, k).plus(m.at(k, j)));
}

/// The step of the induction, on limits alone. With `ij`, `ik`, ... the
/// entries before a round for clock `k`, and `q` a clock through which the
/// grid is closed already: the entry `(i, j)` after the round is at most
/// the path through `q` after the round, whichever of the entries on that
/// path the round has tightened.
proof fn lemma_four_paths(
    ij: Limit,
    ik: Limit,
    kj: Limit,
    iq: Limit,
    qj: Limit,
    kq: Limit,
    qk: Limit,
)
    requires
        ij.le(iq.plus(qj)),
        kj.le(kq.plus(qj)),
        ik.le(iq.plus(qk)),
        Limit::zero().le(kq.plus(qk)),
    ensures
        ij.min(ik.plus(kj)).le(iq.min(ik.plus(kq)).plus(qj.min(qk.plus(kj)))),
{
}

/// A sweep without saturation closes the grid through every clock it has
/// gone over.
pub proof fn lemma_sweep_closes<T: Constant>(m: Matrix, n: nat)
    requires
        m.wf::<T>(),
        m.diagonal_zero(),
        n <= m.dim(),
        m.sweep_fits::<T>(n),
        m.sweep::<T>(n) is Some,
    ensures
        m.sweep::<T>(n)->0.closed_through(n as int),
    decreases n,
{
    if n > 0 {
        lemma_sweep::<T>(m, (n - 1) as nat);
        lemma_sweep_closes::<T>(m, (n - 1) as nat);
        lemma_pivot_closes::<T>(m.sweep::<T>((n - 1) as nat)->0, n - 1);
    }
}

/// One sweep is enough where it needs no saturation: what it returns is
/// closed, in exact arithmetic and as `T` adds, and is the closure.
pub proof fn lemma_one_sweep<T: Constant>(m: Matrix)
    requires
        m.wf::<T>(),
        m.diagonal_zero(),
        m.sweep_fits::<T>(m.dim()),
        m.sweep::<T>(m.dim()) is Some,
    ensures
        m.sweep::<T>(m.dim())->0.is_closed_exactly(),
        m.sweep::<T>(m.dim())->0.is_closed::<T>(),
        m.closure::<T>() == m.sweep::<T>(m.dim()),
{
    let s = m.sweep::<T>(m.dim())->0;
    lemma_sweep::<T>(m, m.dim());
    lemma_sweep_closes::<T>(m, m.dim());
    assert forall|i: int, j: int, k: int|
        0 <= i < s.dim() && 0 <= j < s.dim() && 0 <= k < s.dim() implies s.at(i, j).le(
        #[trigger] s.at(i, k).combine::<T>(s.at(k, j)),
    ) by {
        assert(s.at(i, j).le(s.at(i, k).plus(s.at(k, j))));
        lemma_combine::<T>(s.at(i, k), s.at(k, j), s.at(i, k), s.at(k, j));
        lemma_le_order(
            s.at(i, j),
            s.at(i, k).plus(s.at(k, j)),
            s.at(i, k).combine::<T>(s.at(k, j)),
        );
    }
    lemma_closure::<T>(s);
}

/// Where closing ends in a sweep without saturation, it does not fail, and
/// what it gives is closed in exact arithmetic.
pub proof fn lemma_closes_exactly<T: Constant>(m: Matrix)
    requires
        m.wf::<T>(),
        m.diagonal_zero(),
        m.closes_exactly::<T>(),
    ensures
        m.closure::<T>() is Some,
        m.closure::<T>()->0.is_closed_exactly(),
    decreases m.weight::<T>(),
{
    lemma_sweep::<T>(m, m.dim());
    let s = m.sweep::<T>(m.dim())->0;
    if m.sweep_fits::<T>(m.dim()) {
        lemma_one_sweep::<T>(m);
    } else {
        lemma_weight::<T>(s, m);
        lemma_closes_exactly::<T>(s);
    }
}

/// Once a sweep has failed, going on to further clocks does not undo it.
pub proof fn lemma_sweep_failed<T: Constant>(m: Matrix, n: nat, later: nat)
    requires
        m.sweep::<T>(n) is None,
        n <= later,
    ensures
        m.sweep::<T>(later) is None,
    decreases later,
{
    if n < later {
        lemma_sweep_failed::<T>(m, n, (later - 1) as nat);
    }
}

/// Whether every diagonal entry is `<= 0`.
pub fn diagonal_is_zero<T: Constant>(store: &Store<T>) -> (r: bool)
    requires
        store.wf(),
    ensures
        r == store.grid().diagonal_zero(),
{
    let dim: usize = store.dim();
    let zero: Bound<T> = Bound::zero();
    let mut i: usize = 0;
    while i < dim
        invariant
            store.wf(),
            dim == store.grid().dim(),
            i <= dim,
            zero@ == Limit::zero(),
            forall|a: int| 0 <= a < i ==> #[trigger] store.grid().at(a, a) == Limit::zero(),
        decreases dim - i,
    {
        if !store.get(i, i).equals(&zero) {
            return false;
        }
        i += 1;
    }
    true
}

/// Runs the round for clock `k` on the stored grid. Tells whether an entry
/// changed, and whether the round needed no saturation.
pub fn pivot_in_place<T: Constant>(store: &mut Store<T>, k: usize) -> (r: (bool, bool))
    requires
        old(store).wf(),
        k < old(store).grid().dim(),
        old(store).grid().at(k as int, k as int) == Limit::zero(),
    ensures
        final(store).wf(),
        final(store).grid() == old(store).grid().pivot::<T>(k as int),
        r.0 == (final(store).grid() != old(store).grid()),
        r.1 == old(store).grid().pivot_fits::<T>(k as int),
{
    let ghost start = store.grid();
    let ghost target = start.pivot::<T>(k as int);
    let dim: usize = store.dim();
    let mut changed = false;
    let mut exact = true;
    let mut i: usize = 0;
    proof {
        store.lemma_grid();
        lemma_pivot::<T>(start, k as int);
    }
    while i < dim
        invariant
            store.wf(),
            start.wf::<T>(),
            dim == start.dim(),
            store.grid().dim() == dim,
            k < dim,
            i <= dim,
            start.at(k as int, k as int) == Limit::zero(),
            target == start.pivot::<T>(k as int),
            forall|a: int, b: int|
                0 <= a < dim && 0 <= b < dim ==> #[trigger] store.grid().at(a, b) == (if a < i {
                    target.at(a, b)
                } else {
                    start.at(a, b)
                }),
            changed ==> target != start,
            !changed ==> forall|a: int, b: int|
                0 <= a < i && 0 <= b < dim ==> #[trigger] target.at(a, b) == start.at(a, b),
            !exact ==> !start.pivot_fits::<T>(k as int),
            exact ==> forall|a: int, b: int|
                0 <= a < i && 0 <= b < dim ==> (#[trigger] start.at(a, k as int).plus(
                    start.at(k as int, b),
                )).fits::<T>(),
        decreases dim - i,
    {
        proof {
            lemma_pivot::<T>(start, k as int);
        }
        let through: Bound<T> = store.get(i, k);
        if through.is_infinite() {
            proof {
                assert forall|b: int| 0 <= b < dim implies #[trigger] target.at(i as int, b)
                    == start.at(i as int, b) by {
                    lemma_min(start.at(i as int, b), Limit::Infinite);
                }
            }
        } else {
            let mut j: usize = 0;
            while j < dim
                invariant
                    store.wf(),
                    start.wf::<T>(),
                    dim == start.dim(),
                    store.grid().dim() == dim,
                    k < dim,
                    i < dim,
                    j <= dim,
                    start.at(k as int, k as int) == Limit::zero(),
                    target == start.pivot::<T>(k as int),
                    through@ == start.at(i as int, k as int),
                    forall|a: int, b: int|
                        0 <= a < dim && 0 <= b < dim ==> #[trigger] store.grid().at(a, b) == (if a
                            < i || (a == i && b < j) {
                            target.at(a, b)
                        } else {
                            start.at(a, b)
                        }),
                    changed ==> target != start,
                    !changed ==> forall|a: int, b: int|
                        0 <= a < dim && 0 <= b < dim && (a < i || (a == i && b < j))
                            ==> #[trigger] target.at(a, b) == start.at(a, b),
                    !exact ==> !start.pivot_fits::<T>(k as int),
                    exact ==> forall|a: int, b: int|
                        0 <= a < dim && 0 <= b < dim && (a < i || (a == i && b < j)) ==> (
                        #[trigger] start.at(a, k as int).plus(start.at(k as int, b))).fits::<T>(),
                decreases dim - j,
            {
                proof {
                    lemma_pivot::<T>(start, k as int);
                    store.lemma_grid();
                }
                let onward: Bound<T> = store.get(k, j);
                let (candidate, fits) = through.combine_checked(onward);
                let current: Bound<T> = store.get(i, j);
                assert(onward@ == start.at(k as int, j as int));
                assert(current@ == start.at(i as int, j as int));
                assert(target.at(i as int, j as int) == current@.min(candidate@));
                if !fits {
                    assert(!start.at(i as int, k as int).plus(start.at(k as int, j as int)).fits::<
                        T,
                    >());
                    exact = false;
                }
                if candidate.less_than(&current) {
                    store.set(i, j, candidate);
                    changed = true;
                }
                j += 1;
            }
        }
        i += 1;
    }
    proof {
        store.lemma_grid();
        lemma_ext(store.grid(), target);
        if !changed {
            lemma_ext(target, start);
        }
    }
    (changed, exact)
}

/// Runs one whole sweep on the stored grid. `None` if a round left a
/// diagonal entry below `<= 0`; otherwise whether any entry changed, and
/// whether the sweep needed no saturation.
pub fn sweep_in_place<T: Constant>(store: &mut Store<T>) -> (r: Option<(bool, bool)>)
    requires
        old(store).wf(),
        old(store).grid().diagonal_zero(),
    ensures
        final(store).wf(),
        final(store).grid().dim() == old(store).grid().dim(),
        match old(store).grid().sweep::<T>(old(store).grid().dim()) {
            None => r is None,
            Some(swept) => r == Some(
                (
                    swept != old(store).grid(),
                    old(store).grid().sweep_fits::<T>(old(store).grid().dim()),
                ),
            ) && final(store).grid() == swept,
        },
{
    let ghost start = store.grid();
    let dim: usize = store.dim();
    let mut changed = false;
    let mut exact = true;
    let mut k: usize = 0;
    proof {
        store.lemma_grid();
    }
    while k < dim
        invariant
            store.wf(),
            start.wf::<T>(),
            start.diagonal_zero(),
            dim == start.dim(),
            k <= dim,
            start == old(store).grid(),
            start.sweep::<T>(k as nat) == Some(store.grid()),
            changed == (store.grid() != start),
            exact == start.sweep_fits::<T>(k as nat),
        decreases dim - k,
    {
        let ghost before = store.grid();
        proof {
            lemma_sweep::<T>(start, k as nat);
            assert(before.at(k as int, k as int) == Limit::zero());
        }
        let (moved, fits) = pivot_in_place(store, k);
        proof {
            lemma_pivot::<T>(before, k as int);
            store.lemma_grid();
        }
        if !diagonal_is_zero(store) {
            proof {
                assert(start.sweep::<T>((k + 1) as nat) is None);
                lemma_sweep_failed::<T>(start, (k + 1) as nat, dim as nat);
            }
            return None;
        }
        proof {
            assert(start.sweep::<T>((k + 1) as nat) == Some(store.grid()));
            lemma_matrix_le(store.grid(), before, start);
            lemma_matrix_le(before, start, before);
        }
        changed = changed || moved;
        exact = exact && fits;
        k += 1;
    }
    proof {
        lemma_sweep::<T>(start, dim as nat);
    }
    Some((changed, exact))
}

/// Closes the stored grid: sweeps until one changes nothing, or one has
/// needed no saturation and so has closed the grid by itself. The first
/// result is `false` if a sweep found a cycle of negative length; what is
/// stored is then of no use. The second tells whether closing ended in a
/// sweep that needed no saturation: the grid is then closed in exact
/// arithmetic too.
pub fn close_in_place<T: Constant>(store: &mut Store<T>) -> (r: (bool, bool))
    requires
        old(store).wf(),
        old(store).grid().diagonal_zero(),
    ensures
        final(store).wf(),
        final(store).grid().dim() == old(store).grid().dim(),
        r.0 == (old(store).grid().closure::<T>() is Some),
        r.0 ==> Some(final(store).grid()) == old(store).grid().closure::<T>(),
        r.1 == old(store).grid().closes_exactly::<T>(),
        r.1 ==> r.0 && final(store).grid().is_closed_exactly(),
{
    let ghost start = store.grid();
    proof {
        store.lemma_grid();
    }
    loop
        invariant
            store.wf(),
            store.grid().wf::<T>(),
            store.grid().diagonal_zero(),
            start == old(store).grid(),
            start.wf::<T>(),
            start.diagonal_zero(),
            store.grid().dim() == start.dim(),
            store.grid().closure::<T>() == start.closure::<T>(),
            store.grid().closes_exactly::<T>() == start.closes_exactly::<T>(),
        decreases store.grid().weight::<T>(),
    {
        let ghost before = store.grid();
        proof {
            lemma_sweep::<T>(before, before.dim());
        }
        match sweep_in_place(store) {
            None => {
                return (false, false);
            },
            Some((changed, exact)) => {
                proof {
                    if exact {
                        lemma_one_sweep::<T>(before);
                    }
                }
                if !changed || exact {
                    return (true, exact);
                }
                proof {
                    store.lemma_grid();
                    lemma_weight::<T>(store.grid(), before);
                }
            },
        }
    }
}

} // verus!
