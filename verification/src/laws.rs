//! Laws of the operations, stated over zones.

use vstd::prelude::*;
use crate::canonical::{lemma_free, lemma_future, lemma_init, lemma_tighten, lemma_zero};
use crate::closure::{lemma_closure, lemma_matrix_le};
use crate::constant::Constant;
use crate::limit::Limit;
use crate::matrix::{lemma_ext, lemma_new, Matrix};
use crate::semantics::lemma_restrict_meaning;
use crate::witness::lemma_canonical_form_unique;
use crate::zone::Zone;

verus! {

/// Closing the zero zone changes nothing: the zero zone and its closure
/// include each other, being the same zone.
pub proof fn lemma_zero_is_its_closure<T: Constant>(dim: nat)
    requires
        dim >= 1,
    ensures
        Zone::zero(dim).close::<T>() == Zone::zero(dim),
        Zone::zero(dim).included_in(Zone::zero(dim).close::<T>()),
        Zone::zero(dim).close::<T>().included_in(Zone::zero(dim)),
{
    lemma_zero::<T>(dim);
    lemma_closure::<T>(Matrix::zero(dim));
    lemma_matrix_le(Matrix::zero(dim), Matrix::zero(dim), Matrix::zero(dim));
}

/// Closing the zone of all valuations changes nothing either.
pub proof fn lemma_init_is_its_closure<T: Constant>(dim: nat)
    requires
        dim >= 1,
    ensures
        Zone::init(dim).close::<T>() == Zone::init(dim),
        Zone::init(dim).included_in(Zone::init(dim).close::<T>()),
        Zone::init(dim).close::<T>().included_in(Zone::init(dim)),
{
    lemma_init::<T>(dim);
    lemma_closure::<T>(Matrix::init(dim));
    lemma_matrix_le(Matrix::init(dim), Matrix::init(dim), Matrix::init(dim));
}

/// The zero zone lies in the zone of all valuations, and with a clock
/// besides the reference clock the reverse does not hold.
pub proof fn lemma_zero_in_init<T: Constant>(dim: nat)
    requires
        dim >= 1,
    ensures
        Zone::zero(dim).included_in(Zone::init(dim)),
        dim > 1 ==> !Zone::init(dim).included_in(Zone::zero(dim)),
        dim == 1 ==> Zone::init(dim) == Zone::zero(dim),
{
    let z = Matrix::zero(dim);
    let i = Matrix::init(dim);
    lemma_zero::<T>(dim);
    lemma_init::<T>(dim);
    lemma_new(dim, |a: int, b: int| Limit::zero());
    lemma_new(
        dim,
        |a: int, b: int|
            if a == b || a == 0 {
                Limit::zero()
            } else {
                Limit::Infinite
            },
    );
    if dim > 1 {
        assert(!i.at(1, 0).le(z.at(1, 0)));
    } else {
        lemma_ext(i, z);
    }
}

/// A zone lies in its future. The future lies in the zone exactly when the
/// zone is empty or no clock has an upper bound.
pub proof fn lemma_future_includes<T: Constant>(zone: Zone)
    requires
        zone.wf::<T>(),
    ensures
        zone.included_in(zone.future()),
        zone.future().included_in(zone) <==> (zone.matrix matches Some(m) ==> forall|i: int|
            1 <= i < zone.dim ==> #[trigger] m.at(i, 0) is Infinite),
        zone.future().included_in(zone) <==> zone.future() == zone,
{
    match zone.matrix {
        None => {},
        Some(m) => {
            let f = m.future();
            lemma_future::<T>(m);
            lemma_new(
                m.dim(),
                |i: int, j: int|
                    if i > 0 && j == 0 {
                        Limit::Infinite
                    } else {
                        m.at(i, j)
                    },
            );
            if f.le(m) {
                assert forall|i: int| 1 <= i < zone.dim implies #[trigger] m.at(i, 0)
                    is Infinite by {
                    assert(f.at(i, 0).le(m.at(i, 0)));
                }
                lemma_matrix_le(f, m, f);
            }
            if forall|i: int| 1 <= i < zone.dim ==> #[trigger] m.at(i, 0) is Infinite {
                assert forall|i: int, j: int| 0 <= i < m.dim() && 0 <= j < m.dim() implies (
                #[trigger] f.at(i, j)) == m.at(i, j) by {
                    if i > 0 && j == 0 {
                        assert(m.at(i, 0) is Infinite);
                    }
                }
                lemma_ext(f, m);
                lemma_matrix_le(m, m, m);
            }
        },
    }
}

/// Inclusion is a partial order on well-formed zones: reflexive,
/// antisymmetric and transitive.
pub proof fn lemma_inclusion_order<T: Constant>(a: Zone, b: Zone, c: Zone)
    requires
        a.wf::<T>(),
        b.wf::<T>(),
        c.wf::<T>(),
    ensures
        a.included_in(a),
        a.included_in(b) && b.included_in(a) ==> a == b,
        a.included_in(b) && b.included_in(c) ==> a.included_in(c),
{
    match a.matrix {
        None => {},
        Some(m) => {
            lemma_matrix_le(m, m, m);
            match b.matrix {
                None => {},
                Some(n) => {
                    lemma_matrix_le(m, n, m);
                    match c.matrix {
                        None => {},
                        Some(o) => {
                            lemma_matrix_le(m, n, o);
                        },
                    }
                },
            }
        },
    }
}

/// The empty zone lies in every zone over the same clocks, holds no zone
/// that is not empty, and satisfies no constraint.
pub proof fn lemma_empty_zone(dim: nat, other: Zone, i: int, j: int, limit: Limit)
    requires
        other.dim == dim,
    ensures
        Zone::empty(dim).included_in(other),
        !other.is_empty() ==> !other.included_in(Zone::empty(dim)),
        !Zone::empty(dim).satisfied(i, j, limit),
{
}

/// Every operation leaves the empty zone as it is.
pub proof fn lemma_empty_stays<T: Constant>(
    zone: Zone,
    i: int,
    j: int,
    limit: Limit,
    value: int,
)
    requires
        zone.is_empty(),
    ensures
        zone.close::<T>() == zone,
        zone.future() == zone,
        zone.past::<T>() == zone,
        zone.restrict::<T>(i, j, limit) == zone,
        zone.free(i) == zone,
        zone.assign::<T>(i, value) == zone,
        zone.copy(i, j) == zone,
        zone.shift::<T>(i, value) == zone,
{
}

/// Closing gives a closed zone of the same size that lies in the one it
/// began with; it changes nothing exactly when the zone is closed already,
/// so closing twice is closing once.
pub proof fn lemma_close<T: Constant>(zone: Zone)
    requires
        zone.wf::<T>(),
    ensures
        zone.close::<T>().wf::<T>(),
        zone.close::<T>().dim == zone.dim,
        zone.close::<T>().is_closed::<T>(),
        zone.close::<T>().included_in(zone),
        zone.is_closed::<T>() <==> zone.close::<T>() == zone,
        zone.close::<T>().close::<T>() == zone.close::<T>(),
{
    match zone.matrix {
        None => {},
        Some(m) => {
            lemma_closure::<T>(m);
            match m.closure::<T>() {
                None => {},
                Some(c) => {
                    lemma_closure::<T>(c);
                },
            }
        },
    }
}

/// Freeing a clock a second time changes nothing.
pub proof fn lemma_free_twice<T: Constant>(zone: Zone, clock: int)
    requires
        zone.wf::<T>(),
        0 <= clock < zone.dim,
    ensures
        zone.free(clock).wf::<T>(),
        zone.free(clock).free(clock) == zone.free(clock),
{
    match zone.matrix {
        None => {},
        Some(m) => {
            let once = m.free(clock);
            let twice = once.free(clock);
            lemma_free::<T>(m, clock);
            lemma_free::<T>(once, clock);
            lemma_new(
                m.dim(),
                |i: int, j: int|
                    if i == j {
                        m.at(i, j)
                    } else if i == clock {
                        Limit::Infinite
                    } else if j == clock {
                        m.at(i, 0)
                    } else {
                        m.at(i, j)
                    },
            );
            lemma_new(
                once.dim(),
                |i: int, j: int|
                    if i == j {
                        once.at(i, j)
                    } else if i == clock {
                        Limit::Infinite
                    } else if j == clock {
                        once.at(i, 0)
                    } else {
                        once.at(i, j)
                    },
            );
            assert forall|i: int, j: int| 0 <= i < m.dim() && 0 <= j < m.dim() implies (
            #[trigger] twice.at(i, j)) == once.at(i, j) by {
                assert(once.at(i, 0) == if i == 0 {
                    m.at(i, 0)
                } else if i == clock {
                    Limit::Infinite
                } else if 0 == clock {
                    m.at(i, 0)
                } else {
                    m.at(i, 0)
                });
            }
            lemma_ext(twice, once);
        },
    }
}

/// Restricting gives a closed zone over the same clocks that lies in the
/// one it began with, provided that one was closed.
pub proof fn lemma_restrict<T: Constant>(zone: Zone, i: int, j: int, limit: Limit)
    requires
        zone.wf::<T>(),
        0 <= i < zone.dim,
        0 <= j < zone.dim,
        limit.fits::<T>(),
    ensures
        zone.restrict::<T>(i, j, limit).wf::<T>(),
        zone.restrict::<T>(i, j, limit).dim == zone.dim,
        zone.restrict::<T>(i, j, limit).included_in(zone),
        zone.is_closed::<T>() ==> zone.restrict::<T>(i, j, limit).is_closed::<T>(),
{
    match zone.matrix {
        None => {},
        Some(m) => {
            lemma_matrix_le(m, m, m);
            if limit.lt(m.at(i, j)) && i != j {
                let t = m.tighten(i, j, limit);
                lemma_tighten::<T>(m, i, j, limit);
                lemma_closure::<T>(t);
                if t.closure::<T>() is Some {
                    lemma_matrix_le(t.closure::<T>()->0, t, m);
                }
            }
        },
    }
}

/// The order of two restrictions does not matter to the valuations that
/// stay; and where both orders end in zones closed in exact arithmetic,
/// they end in the same zone.
pub proof fn lemma_restrict_commutes<T: Constant>(
    zone: Zone,
    i: int,
    j: int,
    first: Limit,
    k: int,
    l: int,
    second: Limit,
)
    requires
        zone.wf::<T>(),
        0 <= i < zone.dim,
        0 <= j < zone.dim,
        0 <= k < zone.dim,
        0 <= l < zone.dim,
        first.fits::<T>(),
        second.fits::<T>(),
    ensures
        forall|clocks: Seq<int>, scale: int|
            #![trigger zone.restrict::<T>(i, j, first).restrict::<T>(k, l, second).contains(clocks, scale)]
            #![trigger zone.restrict::<T>(k, l, second).restrict::<T>(i, j, first).contains(clocks, scale)]
            zone.restrict::<T>(i, j, first).restrict::<T>(k, l, second).contains(clocks, scale)
                <==> zone.restrict::<T>(k, l, second).restrict::<T>(i, j, first).contains(
                clocks,
                scale,
            ),
        zone.restrict::<T>(i, j, first).restrict::<T>(k, l, second).is_closed_exactly()
            && zone.restrict::<T>(k, l, second).restrict::<T>(i, j, first).is_closed_exactly()
            ==> zone.restrict::<T>(i, j, first).restrict::<T>(k, l, second) == zone.restrict::<T>(
            k,
            l,
            second,
        ).restrict::<T>(i, j, first),
{
    let one = zone.restrict::<T>(i, j, first);
    let other = zone.restrict::<T>(k, l, second);
    let a = one.restrict::<T>(k, l, second);
    let b = other.restrict::<T>(i, j, first);
    lemma_restrict::<T>(zone, i, j, first);
    lemma_restrict::<T>(zone, k, l, second);
    lemma_restrict::<T>(one, k, l, second);
    lemma_restrict::<T>(other, i, j, first);
    assert forall|clocks: Seq<int>, scale: int|
        a.contains(clocks, scale) <==> b.contains(clocks, scale) by {
        lemma_restrict_meaning::<T>(zone, i, j, first, clocks, scale);
        lemma_restrict_meaning::<T>(zone, k, l, second, clocks, scale);
        lemma_restrict_meaning::<T>(one, k, l, second, clocks, scale);
        lemma_restrict_meaning::<T>(other, i, j, first, clocks, scale);
    }
    if a.is_closed_exactly() && b.is_closed_exactly() {
        lemma_canonical_form_unique::<T>(a, b);
    }
}


} // verus!
