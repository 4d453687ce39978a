//! Nine-bit sets stored in a `u16`, and the facts about them that the
//! solver's proofs rest on.
//!
//! A mask stands for a set of small numbers: digit `d` (counted from 0) or
//! position `k` inside a unit is a member when bit `d` or `k` is set.

use vstd::prelude::*;

verus! {

/// The mask with the nine low bits set: every digit, or every position.
pub const ALL_DIGITS: u16 = 0x1ff;

/// Whether bit `i` of `mask` is set.
pub open spec fn holds(mask: u16, i: int) -> bool {
    0 <= i < 16 && (mask >> (i as u16)) & 1 == 1
}

/// The mask that holds `d` alone.
pub open spec fn single(d: int) -> u16 {
    1u16 << (d as u16)
}

/// How many of the bits below `n` are set in `mask`.
pub open spec fn count_below(mask: u16, n: nat) -> nat
    decreases n,
{
    if n == 0 {
        0
    } else {
        count_below(mask, (n - 1) as nat) + if holds(mask, n - 1) {
            1nat
        } else {
            0nat
        }
    }
}

/// The number of members of `mask`.
pub open spec fn popcount(mask: u16) -> nat {
    count_below(mask, 16)
}

/// `u16::count_ones` of the standard library: the number of ones in the
/// binary representation, which is the number of set bits among the sixteen.
pub assume_specification[ u16::count_ones ](mask: u16) -> (n: u32)
    ensures
        n == popcount(mask),
;

/// `a` holds nothing that `b` lacks.
pub open spec fn subset(a: u16, b: u16) -> bool {
    forall|i: int| holds(a, i) ==> holds(b, i)
}

/// The members of `a & b` are those of both `a` and `b`.
pub proof fn lemma_holds_and(a: u16, b: u16)
    ensures
        forall|i: int| #[trigger] holds(a & b, i) == (holds(a, i) && holds(b, i)),
{
    assert forall|i: int| #[trigger] holds(a & b, i) == (holds(a, i) && holds(b, i)) by {
        if 0 <= i < 16 {
            let k = i as u16;
            assert((((a & b) >> k) & 1 == 1) == ((a >> k) & 1 == 1 && (b >> k) & 1 == 1))
                by (bit_vector);
        }
    }
}

/// The members of `a & !b` are those of `a` that `b` lacks.
pub proof fn lemma_holds_and_not(a: u16, b: u16)
    ensures
        forall|i: int| #[trigger] holds(a & !b, i) == (holds(a, i) && !holds(b, i)),
{
    assert forall|i: int| #[trigger] holds(a & !b, i) == (holds(a, i) && !holds(b, i)) by {
        if 0 <= i < 16 {
            let k = i as u16;
            assert((((a & !b) >> k) & 1 == 1) == ((a >> k) & 1 == 1 && !((b >> k) & 1 == 1)))
                by (bit_vector);
        }
    }
}

/// Among the sixteen bits, the members of `!a` are what `a` lacks.
pub proof fn lemma_holds_not(a: u16)
    ensures
        forall|i: int| 0 <= i < 16 ==> #[trigger] holds(!a, i) == !holds(a, i),
{
    assert forall|i: int| 0 <= i < 16 implies #[trigger] holds(!a, i) == !holds(a, i) by {
        let k = i as u16;
        assert(k < 16 ==> ((((!a) >> k) & 1 == 1) == !((a >> k) & 1 == 1))) by (bit_vector);
    }
}

/// `single(d)` holds `d` and nothing else.
pub proof fn lemma_holds_single(d: int)
    requires
        0 <= d < 16,
    ensures
        forall|i: int| #[trigger] holds(single(d), i) == (i == d),
        single(d) != 0,
        d < 9 ==> single(d) <= ALL_DIGITS,
{
    let e = d as u16;
    assert forall|i: int| #[trigger] holds(single(d), i) == (i == d) by {
        if 0 <= i < 16 {
            let k = i as u16;
            assert(e < 16 && k < 16 ==> ((((1u16 << e) >> k) & 1 == 1) == (k == e)))
                by (bit_vector);
        }
    }
    assert(e < 16 ==> (1u16 << e) != 0 && (e < 9 ==> (1u16 << e) <= 0x1ff)) by (bit_vector);
}

/// The empty mask has no member.
pub proof fn lemma_holds_zero()
    ensures
        forall|i: int| !#[trigger] holds(0u16, i),
{
    assert forall|i: int| !#[trigger] holds(0u16, i) by {
        if 0 <= i < 16 {
            let k = i as u16;
            assert((0u16 >> k) & 1 == 0) by (bit_vector);
        }
    }
}

/// `ALL_DIGITS` holds the numbers from 0 to 8.
pub proof fn lemma_holds_all()
    ensures
        forall|i: int| #[trigger] holds(ALL_DIGITS, i) == (0 <= i < 9),
{
    assert forall|i: int| #[trigger] holds(ALL_DIGITS, i) == (0 <= i < 9) by {
        if 0 <= i < 16 {
            let k = i as u16;
            assert(k < 16 ==> (((0x1ffu16 >> k) & 1 == 1) == (k < 9))) by (bit_vector);
        }
    }
}

/// Two masks with the same members are the same mask.
pub proof fn lemma_extensional(a: u16, b: u16)
    requires
        forall|i: int| 0 <= i < 16 ==> holds(a, i) == holds(b, i),
    ensures
        a == b,
{
    assert(holds(a, 0) == holds(b, 0));
    assert(holds(a, 1) == holds(b, 1));
    assert(holds(a, 2) == holds(b, 2));
    assert(holds(a, 3) == holds(b, 3));
    assert(holds(a, 4) == holds(b, 4));
    assert(holds(a, 5) == holds(b, 5));
    assert(holds(a, 6) == holds(b, 6));
    assert(holds(a, 7) == holds(b, 7));
    assert(holds(a, 8) == holds(b, 8));
    assert(holds(a, 9) == holds(b, 9));
    assert(holds(a, 10) == holds(b, 10));
    assert(holds(a, 11) == holds(b, 11));
    assert(holds(a, 12) == holds(b, 12));
    assert(holds(a, 13) == holds(b, 13));
    assert(holds(a, 14) == holds(b, 14));
    assert(holds(a, 15) == holds(b, 15));
    assert(a == b) by (bit_vector)
        requires
            ((a >> 0u16) & 1 == 1) == ((b >> 0u16) & 1 == 1),
            ((a >> 1u16) & 1 == 1) == ((b >> 1u16) & 1 == 1),
            ((a >> 2u16) & 1 == 1) == ((b >> 2u16) & 1 == 1),
            ((a >> 3u16) & 1 == 1) == ((b >> 3u16) & 1 == 1),
            ((a >> 4u16) & 1 == 1) == ((b >> 4u16) & 1 == 1),
            ((a >> 5u16) & 1 == 1) == ((b >> 5u16) & 1 == 1),
            ((a >> 6u16) & 1 == 1) == ((b >> 6u16) & 1 == 1),
            ((a >> 7u16) & 1 == 1) == ((b >> 7u16) & 1 == 1),
            ((a >> 8u16) & 1 == 1) == ((b >> 8u16) & 1 == 1),
            ((a >> 9u16) & 1 == 1) == ((b >> 9u16) & 1 == 1),
            ((a >> 10u16) & 1 == 1) == ((b >> 10u16) & 1 == 1),
            ((a >> 11u16) & 1 == 1) == ((b >> 11u16) & 1 == 1),
            ((a >> 12u16) & 1 == 1) == ((b >> 12u16) & 1 == 1),
            ((a >> 13u16) & 1 == 1) == ((b >> 13u16) & 1 == 1),
            ((a >> 14u16) & 1 == 1) == ((b >> 14u16) & 1 == 1),
            ((a >> 15u16) & 1 == 1) == ((b >> 15u16) & 1 == 1),
    ;
}

/// A mask lies within the nine low bits exactly when it has no member from 9 up.
pub proof fn lemma_in_range(a: u16)
    ensures
        a <= ALL_DIGITS <==> (forall|i: int| 9 <= i < 16 ==> !holds(a, i)),
{
    assert((a <= 0x1ffu16) <==> (!((a >> 9u16) & 1 == 1) && !((a >> 10u16) & 1 == 1) && !((a
        >> 11u16) & 1 == 1) && !((a >> 12u16) & 1 == 1) && !((a >> 13u16) & 1 == 1) && !((a
        >> 14u16) & 1 == 1) && !((a >> 15u16) & 1 == 1))) by (bit_vector);
    if a <= ALL_DIGITS {
        assert forall|i: int| 9 <= i < 16 implies !holds(a, i) by {}
    }
    if forall|i: int| 9 <= i < 16 ==> !holds(a, i) {
        assert(!holds(a, 9) && !holds(a, 10) && !holds(a, 11) && !holds(a, 12) && !holds(a, 13) && !holds(
            a,
            14,
        ) && !holds(a, 15));
    }
}

/// A mask is empty exactly when it has no member.
pub proof fn lemma_empty(a: u16)
    ensures
        a == 0 <==> (forall|i: int| !holds(a, i)),
{
    lemma_holds_zero();
    if forall|i: int| !holds(a, i) {
        lemma_extensional(a, 0);
    }
}

/// A subset of a mask within the nine low bits lies within them too.
pub proof fn lemma_subset_in_range(a: u16, b: u16)
    requires
        subset(a, b),
        b <= ALL_DIGITS,
    ensures
        a <= ALL_DIGITS,
{
    lemma_in_range(a);
    lemma_in_range(b);
}

/// Below any bound, a mask has no more members than one that includes it.
pub proof fn lemma_count_below_mono(a: u16, b: u16, n: nat)
    requires
        subset(a, b),
    ensures
        count_below(a, n) <= count_below(b, n),
    decreases n,
{
    if n > 0 {
        lemma_count_below_mono(a, b, (n - 1) as nat);
    }
}

/// Below a bound above `j`, a mask that lacks the member `j` of one that
/// includes it has fewer members.
pub proof fn lemma_count_below_strict(a: u16, b: u16, n: nat, j: int)
    requires
        subset(a, b),
        0 <= j < n,
        holds(b, j),
        !holds(a, j),
    ensures
        count_below(a, n) < count_below(b, n),
    decreases n,
{
    if n - 1 == j {
        lemma_count_below_mono(a, b, (n - 1) as nat);
    } else {
        lemma_count_below_strict(a, b, (n - 1) as nat, j);
    }
}

/// A mask has no more members than one that includes it.
pub proof fn lemma_popcount_mono(a: u16, b: u16)
    requires
        subset(a, b),
    ensures
        popcount(a) <= popcount(b),
{
    lemma_count_below_mono(a, b, 16);
}

/// A mask that lacks a member of one that includes it has fewer members.
pub proof fn lemma_popcount_strict(a: u16, b: u16, j: int)
    requires
        subset(a, b),
        holds(b, j),
        !holds(a, j),
    ensures
        popcount(a) < popcount(b),
{
    lemma_count_below_strict(a, b, 16, j);
}

/// A mask has at most `n` members below `n`, and none exactly when none
/// of the bits below `n` is set.
pub proof fn lemma_count_below_bounds(a: u16, n: nat)
    ensures
        count_below(a, n) <= n,
        count_below(a, n) == 0 <==> (forall|i: int| 0 <= i < n ==> !holds(a, i)),
    decreases n,
{
    if n > 0 {
        lemma_count_below_bounds(a, (n - 1) as nat);
    }
}

/// A mask with the member `d` below `n` has one member below `n` exactly
/// when `d` is its only one there.
pub proof fn lemma_count_below_one(a: u16, n: nat, d: int)
    requires
        0 <= d < n,
        holds(a, d),
    ensures
        count_below(a, n) >= 1,
        count_below(a, n) == 1 <==> (forall|i: int| 0 <= i < n && holds(a, i) ==> i == d),
    decreases n,
{
    if n - 1 == d {
        lemma_count_below_bounds(a, (n - 1) as nat);
    } else {
        lemma_count_below_one(a, (n - 1) as nat, d);
    }
}

/// A mask with the members `d` and `e` below `n` has two members below
/// `n` exactly when these are its only ones there.
pub proof fn lemma_count_below_two(a: u16, n: nat, d: int, e: int)
    requires
        0 <= d < e < n,
        holds(a, d),
        holds(a, e),
    ensures
        count_below(a, n) >= 2,
        count_below(a, n) == 2 <==> (forall|i: int| 0 <= i < n && holds(a, i) ==> i == d || i == e),
    decreases n,
{
    if n - 1 == e {
        lemma_count_below_one(a, (n - 1) as nat, d);
    } else {
        lemma_count_below_two(a, (n - 1) as nat, d, e);
    }
}

/// The empty mask alone has no members, and no mask has more than sixteen.
pub proof fn lemma_popcount_zero(a: u16)
    ensures
        popcount(a) == 0 <==> a == 0,
        popcount(a) <= 16,
{
    lemma_count_below_bounds(a, 16);
    lemma_empty(a);
}

/// A mask with the member `d` has exactly one member when it is `single(d)`.
pub proof fn lemma_popcount_one(a: u16, d: int)
    requires
        holds(a, d),
    ensures
        popcount(a) >= 1,
        popcount(a) == 1 <==> a == single(d),
{
    lemma_count_below_one(a, 16, d);
    lemma_holds_single(d);
    if popcount(a) == 1 {
        lemma_extensional(a, single(d));
    }
}

/// A mask with at least two members has two different ones.
pub proof fn lemma_popcount_many(a: u16) -> (pair: (int, int))
    requires
        popcount(a) >= 2,
    ensures
        pair.0 != pair.1,
        holds(a, pair.0),
        holds(a, pair.1),
{
    lemma_popcount_zero(a);
    lemma_empty(a);
    let d = choose|i: int| holds(a, i);
    lemma_popcount_one(a, d);
    lemma_holds_single(d);
    let e = choose|i: int| holds(a, i) && i != d;
    assert(exists|i: int| holds(a, i) && i != d) by {
        if forall|i: int| holds(a, i) ==> i == d {
            lemma_extensional(a, single(d));
        }
    }
    (d, e)
}

/// The mask that holds `d` alone.
pub fn digit_bit(d: usize) -> (mask: u16)
    requires
        d < 16,
    ensures
        mask == single(d as int),
{
    1u16 << (d as u16)
}

/// Whether `d` is a member of `mask`.
pub fn contains(mask: u16, d: usize) -> (found: bool)
    requires
        d < 16,
    ensures
        found == holds(mask, d as int),
{
    let probe = mask & digit_bit(d);
    proof {
        lemma_holds_and(mask, single(d as int));
        lemma_holds_single(d as int);
        lemma_empty(probe);
        assert(holds(probe, d as int) == holds(mask, d as int));
        if !holds(mask, d as int) {
            assert forall|i: int| !holds(probe, i) by {}
        }
    }
    probe != 0
}

/// The least member of a mask that is not empty.
pub fn lowest(mask: u16) -> (d: usize)
    requires
        mask != 0,
    ensures
        holds(mask, d as int),
        forall|i: int| holds(mask, i) ==> d <= i,
{
    broadcast use vstd::std_specs::bits::axiom_u16_trailing_zeros;

    let t = mask.trailing_zeros();
    assert forall|i: int| holds(mask, i) implies t <= i by {
        if i < t {
            let j = i as u16;
            assert((mask >> j) & 1u16 == 0u16);
        }
    }
    t as usize
}

} // verus!
