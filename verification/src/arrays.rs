//! Arrays of nine, given by what they hold.

use vstd::prelude::*;
use vstd::array::spec_array_update;

verus! {

/// An array whose first `n` entries are `f(0)`, `f(1)`, and so on.
pub open spec fn nine_of<T>(f: spec_fn(int) -> T, n: nat) -> [T; 9]
    decreases n,
{
    if n == 0 {
        arbitrary()
    } else {
        spec_array_update(nine_of(f, (n - 1) as nat), n - 1, f(n - 1))
    }
}

/// `nine_of(f, n)` holds `f(i)` at every `i` below `n`.
pub proof fn lemma_nine_of<T>(f: spec_fn(int) -> T, n: nat)
    requires
        n <= 9,
    ensures
        forall|i: int| 0 <= i < n ==> (#[trigger] nine_of(f, n)[i]) == f(i),
    decreases n,
{
    if n > 0 {
        lemma_nine_of(f, (n - 1) as nat);
        let before = nine_of(f, (n - 1) as nat);
        assert(nine_of(f, n)@ == before@.update(n - 1, f(n - 1)));
        assert forall|i: int| 0 <= i < n implies (#[trigger] nine_of(f, n)[i]) == f(i) by {
            if i < n - 1 {
                assert(before[i] == f(i));
            }
        }
    }
}

/// The grid that holds `f(a, b)` at `[a][b]`.
pub open spec fn grid_of<T>(f: spec_fn(int, int) -> T) -> [[T; 9]; 9] {
    nine_of(|a: int| nine_of(|b: int| f(a, b), 9), 9)
}

/// `grid_of(f)` holds `f(a, b)` at `[a][b]`.
pub proof fn lemma_grid_of<T>(f: spec_fn(int, int) -> T)
    ensures
        forall|a: int, b: int| 0 <= a < 9 && 0 <= b < 9 ==> (#[trigger] grid_of(f)[a][b]) == f(a, b),
{
    let rows = |a: int| nine_of(|b: int| f(a, b), 9);
    lemma_nine_of(rows, 9);
    assert forall|a: int, b: int| 0 <= a < 9 && 0 <= b < 9 implies (#[trigger] grid_of(f)[a][b])
        == f(a, b) by {
        assert(grid_of(f)[a] == rows(a));
        lemma_nine_of(|b: int| f(a, b), 9);
    }
}

/// The first place below `n` where `bad` holds, if there is one.
pub proof fn lemma_first(bad: spec_fn(int) -> bool, n: int) -> (first: int)
    requires
        exists|i: int| 0 <= i < n && #[trigger] bad(i),
    ensures
        0 <= first < n,
        bad(first),
        forall|j: int| 0 <= j < first ==> !#[trigger] bad(j),
    decreases n,
{
    if exists|i: int| 0 <= i < n - 1 && #[trigger] bad(i) {
        lemma_first(bad, n - 1)
    } else {
        let i = choose|i: int| 0 <= i < n && #[trigger] bad(i);
        assert(i == n - 1);
        n - 1
    }
}

} // verus!
