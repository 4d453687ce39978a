//! What one step of propagation does to a grid of candidates, stated and
//! proved on the model alone.

use vstd::prelude::*;
use crate::bits::{
    holds, lemma_empty, lemma_extensional, lemma_holds_and, lemma_holds_and_not,
    lemma_holds_not, lemma_holds_single, single, subset,
};
use crate::candidates::{
    avoids, has_place, hidden_pending, lemma_unit_of_cell, mask_at, naked_pending, only_place,
    possible, refines, stable, unit_possible, unit_x, unit_y, Candidates,
};

verus! {

/// Whatever is left to propagate in `t` was already left to propagate in `s`.
pub open spec fn nothing_new_pending(t: Candidates, s: Candidates) -> bool {
    &&& forall|u: int, k1: int, k2: int, d: int| #[trigger]
        naked_pending(t, u, k1, k2, d) ==> naked_pending(s, u, k1, k2, d)
    &&& forall|u: int, k: int, d: int| #[trigger]
        hidden_pending(t, u, k, d) ==> hidden_pending(s, u, k, d)
}

/// Every stable grid that refines `s` refines `t` too: going from `s` to
/// `t` has cost no solution.
pub open spec fn keeps_stable(t: Candidates, s: Candidates) -> bool {
    forall|g: Candidates| stable(g) && #[trigger] refines(g, s) ==> refines(g, t)
}

/// Every stable grid that refines `s` and lists none of the digits of
/// `mask` at `(x, y)` refines `t` too.
pub open spec fn keeps_avoiding(t: Candidates, s: Candidates, x: int, y: int, mask: u16) -> bool {
    forall|g: Candidates|
        stable(g) && #[trigger] refines(g, s) && avoids(g, x, y, mask) ==> refines(g, t)
}

/// No stable grid refines `s`.
pub open spec fn no_stable(s: Candidates) -> bool {
    forall|g: Candidates| stable(g) ==> !#[trigger] refines(g, s)
}

/// No stable grid refines `s` and lists none of the digits of `mask` at `(x, y)`.
pub open spec fn no_stable_avoiding(s: Candidates, x: int, y: int, mask: u16) -> bool {
    forall|g: Candidates| stable(g) && #[trigger] refines(g, s) ==> !avoids(g, x, y, mask)
}

/// `t` is `s` with the digits of `mask` struck from cell `(x, y)`.
pub open spec fn struck(t: Candidates, s: Candidates, x: int, y: int, mask: u16) -> bool {
    forall|a: int, b: int|
        0 <= a < 9 && 0 <= b < 9 ==> #[trigger] mask_at(t, a, b) == if a == x && b == y {
            mask_at(s, a, b) & !mask
        } else {
            mask_at(s, a, b)
        }
}

/// A mask without the digits of `mask` has none of the digits of a part of it.
pub proof fn lemma_avoids_part(g: Candidates, x: int, y: int, mask: u16, part: u16)
    requires
        avoids(g, x, y, mask),
        subset(part, mask),
    ensures
        avoids(g, x, y, part),
{
    let c = mask_at(g, x, y);
    lemma_holds_and(c, mask);
    lemma_holds_and(c, part);
    lemma_empty(c & mask);
    lemma_empty(c & part);
    assert forall|i: int| !holds(c & part, i) by {
        assert(!holds(c & mask, i));
    }
}

/// A refinement lists none of the digits that the refined grid avoids.
pub proof fn lemma_avoids_refined(t: Candidates, s: Candidates, x: int, y: int, mask: u16)
    requires
        0 <= x < 9,
        0 <= y < 9,
        refines(t, s),
        avoids(s, x, y, mask),
    ensures
        avoids(t, x, y, mask),
{
    let a = mask_at(t, x, y);
    let b = mask_at(s, x, y);
    assert(subset(a, b));
    lemma_holds_and(a, mask);
    lemma_holds_and(b, mask);
    lemma_empty(a & mask);
    lemma_empty(b & mask);
    assert forall|i: int| !holds(a & mask, i) by {
        assert(!holds(b & mask, i));
    }
}

/// A cell avoids a digit exactly when the digit is no candidate of it.
pub proof fn lemma_avoids_single(g: Candidates, x: int, y: int, d: int)
    requires
        0 <= x < 9,
        0 <= y < 9,
        0 <= d < 9,
    ensures
        avoids(g, x, y, single(d)) <==> !possible(g, x, y, d),
{
    let c = mask_at(g, x, y);
    lemma_holds_and(c, single(d));
    lemma_holds_single(d);
    lemma_empty(c & single(d));
    if !possible(g, x, y, d) {
        assert forall|i: int| !holds(c & single(d), i) by {}
    } else {
        assert(holds(c & single(d), d));
    }
}

/// A cell that is not empty avoids every digit but `d` exactly when it
/// holds `d` alone.
pub proof fn lemma_avoids_others(g: Candidates, x: int, y: int, d: int)
    requires
        0 <= x < 9,
        0 <= y < 9,
        0 <= d < 9,
        mask_at(g, x, y) != 0,
    ensures
        avoids(g, x, y, !single(d)) <==> mask_at(g, x, y) == single(d),
{
    let c = mask_at(g, x, y);
    lemma_holds_and(c, !single(d));
    lemma_holds_not(single(d));
    lemma_holds_single(d);
    lemma_empty(c & !single(d));
    lemma_empty(c);
    if avoids(g, x, y, !single(d)) {
        assert forall|i: int| 0 <= i < 16 implies holds(c, i) == holds(single(d), i) by {
            assert(!holds(c & !single(d), i));
            if i == d && !holds(c, d) {
                let j = choose|j: int| holds(c, j);
                assert(!holds(c & !single(d), j));
            }
        }
        lemma_extensional(c, single(d));
    } else {
        let j = choose|j: int| holds(c & !single(d), j);
        assert(holds(c, j) && j != d);
    }
}

/// What is not empty and lies within `single(d)` is `single(d)`.
pub proof fn lemma_single_stays(a: u16, d: int)
    requires
        0 <= d < 16,
        a != 0,
        subset(a, single(d)),
    ensures
        a == single(d),
{
    lemma_holds_single(d);
    lemma_empty(a);
    let j = choose|j: int| holds(a, j);
    assert(holds(single(d), j));
    lemma_extensional(a, single(d));
}

/// Striking digits from one cell refines the grid, and keeps every stable
/// refinement that avoids those digits there.
pub proof fn lemma_struck_refines(t: Candidates, s: Candidates, x: int, y: int, mask: u16)
    requires
        0 <= x < 9,
        0 <= y < 9,
        struck(t, s, x, y, mask),
    ensures
        refines(t, s),
        avoids(t, x, y, mask),
        keeps_avoiding(t, s, x, y, mask),
{
    let c = mask_at(s, x, y);
    lemma_holds_and_not(c, mask);
    assert forall|a: int, b: int| 0 <= a < 9 && 0 <= b < 9 implies subset(
        #[trigger] mask_at(t, a, b),
        mask_at(s, a, b),
    ) by {}
    lemma_holds_and(c & !mask, mask);
    lemma_empty((c & !mask) & mask);
    assert forall|i: int| !holds((c & !mask) & mask, i) by {}
    assert forall|g: Candidates|
        stable(g) && #[trigger] refines(g, s) && avoids(g, x, y, mask) implies refines(g, t) by {
        assert forall|a: int, b: int| 0 <= a < 9 && 0 <= b < 9 implies subset(
            #[trigger] mask_at(g, a, b),
            mask_at(t, a, b),
        ) by {
            assert(subset(mask_at(g, a, b), mask_at(s, a, b)));
            if a == x && b == y {
                let e = mask_at(g, x, y);
                lemma_holds_and(e, mask);
                lemma_empty(e & mask);
                assert forall|i: int| holds(e, i) implies holds(c & !mask, i) by {
                    assert(!holds(e & mask, i));
                }
            }
        }
    }
}

/// After digits were struck from `(x, y)`, a naked single is pending only
/// where it was pending before, or at `(x, y)` itself.
pub proof fn lemma_struck_naked(
    t: Candidates,
    s: Candidates,
    x: int,
    y: int,
    mask: u16,
    u: int,
    k1: int,
    k2: int,
    d: int,
)
    requires
        0 <= x < 9,
        0 <= y < 9,
        struck(t, s, x, y, mask),
        naked_pending(t, u, k1, k2, d),
    ensures
        naked_pending(s, u, k1, k2, d) || (unit_x(u, k1) == x && unit_y(u, k1) == y),
{
    lemma_struck_refines(t, s, x, y, mask);
    lemma_unit_of_cell(u, k1);
    lemma_unit_of_cell(u, k2);
    assert(subset(mask_at(t, unit_x(u, k2), unit_y(u, k2)), mask_at(s, unit_x(u, k2), unit_y(u, k2))));
}

/// After digits were struck from `(x, y)`, a hidden single is pending only
/// where it was pending before, or for a struck digit in a unit of `(x, y)`.
pub proof fn lemma_struck_hidden(
    t: Candidates,
    s: Candidates,
    x: int,
    y: int,
    mask: u16,
    u: int,
    k: int,
    d: int,
)
    requires
        0 <= x < 9,
        0 <= y < 9,
        struck(t, s, x, y, mask),
        hidden_pending(t, u, k, d),
    ensures
        hidden_pending(s, u, k, d) || (holds(mask, d) && exists|p: int|
            0 <= p < 9 && unit_x(u, p) == x && unit_y(u, p) == y),
{
    lemma_struck_refines(t, s, x, y, mask);
    lemma_unit_of_cell(u, k);
    let c = mask_at(s, x, y);
    lemma_holds_and_not(c, mask);
    let touched = holds(mask, d) && exists|p: int|
        0 <= p < 9 && unit_x(u, p) == x && unit_y(u, p) == y;
    if !touched {
        assert(subset(mask_at(t, unit_x(u, k), unit_y(u, k)), mask_at(s, unit_x(u, k), unit_y(u, k))));
        assert(unit_possible(s, u, k, d));
        assert forall|k2: int| #[trigger] unit_possible(s, u, k2, d) implies k2 == k by {
            lemma_unit_of_cell(u, k2);
            assert(unit_possible(t, u, k2, d));
        }
        if mask_at(s, unit_x(u, k), unit_y(u, k)) == single(d) {
            let m = mask_at(t, unit_x(u, k), unit_y(u, k));
            lemma_empty(m);
            assert(holds(m, d));
            lemma_single_stays(m, d);
        }
    }
}

/// In a stable grid below one where a cell holds `d` alone, the other
/// cells of its units do not list `d`.
pub proof fn lemma_stable_respects_naked(
    g: Candidates,
    s: Candidates,
    u: int,
    k1: int,
    k2: int,
    d: int,
)
    requires
        stable(g),
        refines(g, s),
        0 <= u < 27,
        0 <= k1 < 9,
        0 <= k2 < 9,
        k1 != k2,
        0 <= d < 9,
        mask_at(s, unit_x(u, k1), unit_y(u, k1)) == single(d),
    ensures
        avoids(g, unit_x(u, k2), unit_y(u, k2), single(d)),
{
    lemma_unit_of_cell(u, k1);
    lemma_unit_of_cell(u, k2);
    let a = mask_at(g, unit_x(u, k1), unit_y(u, k1));
    assert(subset(a, mask_at(s, unit_x(u, k1), unit_y(u, k1))));
    assert(a != 0);
    lemma_single_stays(a, d);
    assert(!naked_pending(g, u, k1, k2, d));
    lemma_avoids_single(g, unit_x(u, k2), unit_y(u, k2), d);
}

/// In a stable grid below one where `k` is the one place left for `d` in
/// unit `u`, that place holds `d` alone.
pub proof fn lemma_stable_respects_hidden(g: Candidates, s: Candidates, u: int, k: int, d: int)
    requires
        stable(g),
        refines(g, s),
        0 <= u < 27,
        0 <= k < 9,
        0 <= d < 9,
        forall|k2: int| #[trigger] unit_possible(s, u, k2, d) ==> k2 == k,
    ensures
        avoids(g, unit_x(u, k), unit_y(u, k), !single(d)),
{
    lemma_unit_of_cell(u, k);
    assert(has_place(g, u, d));
    let p = choose|p: int| unit_possible(g, u, p, d);
    lemma_unit_of_cell(u, p);
    assert(subset(mask_at(g, unit_x(u, p), unit_y(u, p)), mask_at(s, unit_x(u, p), unit_y(u, p))));
    assert(unit_possible(s, u, p, d));
    assert(p == k);
    assert forall|k2: int| #[trigger] unit_possible(g, u, k2, d) implies k2 == k by {
        lemma_unit_of_cell(u, k2);
        assert(subset(
            mask_at(g, unit_x(u, k2), unit_y(u, k2)),
            mask_at(s, unit_x(u, k2), unit_y(u, k2)),
        ));
        assert(unit_possible(s, u, k2, d));
    }
    assert(only_place(g, u, k, d));
    assert(!hidden_pending(g, u, k, d));
    assert(mask_at(g, unit_x(u, k), unit_y(u, k)) != 0);
    lemma_avoids_others(g, unit_x(u, k), unit_y(u, k), d);
}

/// A candidate of a refinement is a candidate of the refined grid.
pub proof fn lemma_refines_possible(t: Candidates, s: Candidates, u: int, k: int, d: int)
    requires
        refines(t, s),
        unit_possible(t, u, k, d),
    ensures
        unit_possible(s, u, k, d),
{
    lemma_unit_of_cell(u, k);
    assert(subset(mask_at(t, unit_x(u, k), unit_y(u, k)), mask_at(s, unit_x(u, k), unit_y(u, k))));
}

} // verus!
