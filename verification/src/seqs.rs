//! Spec-level helpers for selecting rows of a column by index list or
//! by membership in a set of kept row indices.

use vstd::prelude::*;

verus! {

/// The entries of `s` at the positions listed in `idxs`, in that order.
pub open spec fn select<T>(s: Seq<T>, idxs: Seq<int>) -> Seq<T> {
    idxs.map_values(|i: int| s[i])
}

/// The indices below `n` that belong to `kept`, in increasing order.
pub open spec fn kept_indices(kept: Set<int>, n: int) -> Seq<int>
    decreases n,
{
    if n <= 0 {
        Seq::empty()
    } else if kept.contains(n - 1) {
        kept_indices(kept, n - 1).push(n - 1)
    } else {
        kept_indices(kept, n - 1)
    }
}

/// Every entry of `kept_indices(kept, n)` lies in `[0, n)` and in `kept`,
/// and the sequence is strictly increasing.
pub proof fn lemma_kept_indices_range(kept: Set<int>, n: int)
    ensures
        forall|r: int|
            0 <= r < kept_indices(kept, n).len() ==> 0 <= #[trigger] kept_indices(kept, n)[r] < n
                && kept.contains(kept_indices(kept, n)[r]),
        forall|r1: int, r2: int|
            0 <= r1 < r2 < kept_indices(kept, n).len() ==> kept_indices(kept, n)[r1]
                < kept_indices(kept, n)[r2],
    decreases n,
{
    if n > 0 {
        lemma_kept_indices_range(kept, n - 1);
        let prev = kept_indices(kept, n - 1);
        let cur = kept_indices(kept, n);
        assert forall|r: int| 0 <= r < cur.len() implies 0 <= #[trigger] cur[r] < n
            && kept.contains(cur[r]) by {
            if r < prev.len() {
                assert(cur[r] == prev[r]);
            }
        }
        assert forall|r1: int, r2: int| 0 <= r1 < r2 < cur.len() implies cur[r1] < cur[r2] by {
            if r2 < prev.len() {
                assert(cur[r1] == prev[r1] && cur[r2] == prev[r2]);
            } else if r1 < prev.len() {
                assert(cur[r1] == prev[r1]);
            }
        }
    }
}

/// An index below `n` appears in `kept_indices(kept, n)` if and only if
/// it belongs to `kept`.
pub proof fn lemma_kept_indices_contains(kept: Set<int>, n: int, i: int)
    requires
        0 <= i < n,
    ensures
        kept_indices(kept, n).contains(i) <==> kept.contains(i),
    decreases n,
{
    lemma_kept_indices_range(kept, n);
    if i < n - 1 {
        lemma_kept_indices_contains(kept, n - 1, i);
        lemma_kept_indices_range(kept, n - 1);
        if kept_indices(kept, n - 1).contains(i) {
            let r = choose|r: int|
                0 <= r < kept_indices(kept, n - 1).len() && #[trigger] kept_indices(kept, n - 1)[r]
                    == i;
            assert(kept_indices(kept, n)[r] == i);
        } else if kept_indices(kept, n).contains(i) {
            let r = choose|r: int|
                0 <= r < kept_indices(kept, n).len() && #[trigger] kept_indices(kept, n)[r] == i;
            assert(kept_indices(kept, n - 1)[r] == i);
        }
    } else {
        if kept.contains(n - 1) {
            assert(kept_indices(kept, n).last() == n - 1);
        } else if kept_indices(kept, n).contains(i) {
        }
    }
}

/// Two sets that agree below `n` keep the same indices below `n`.
pub proof fn lemma_kept_indices_congruent(k1: Set<int>, k2: Set<int>, n: int)
    requires
        forall|i: int| 0 <= i < n ==> (k1.contains(i) <==> k2.contains(i)),
    ensures
        kept_indices(k1, n) == kept_indices(k2, n),
    decreases n,
{
    if n > 0 {
        lemma_kept_indices_congruent(k1, k2, n - 1);
    }
}

/// Extending a prefix by one entry inserts that entry into the set of
/// its elements.
pub proof fn lemma_take_set_step<T>(s: Seq<T>, i: int)
    requires
        0 <= i < s.len(),
    ensures
        s.take(i + 1).to_set() == s.take(i).to_set().insert(s[i]),
{
    broadcast use vstd::set::group_set_axioms;

    let a = s.take(i + 1).to_set();
    let b = s.take(i).to_set().insert(s[i]);
    assert forall|x: T| a.contains(x) implies b.contains(x) by {
        let w = choose|w: int| 0 <= w < s.take(i + 1).len() && #[trigger] s.take(i + 1)[w] == x;
        if w < i {
            assert(s.take(i)[w] == x);
            assert(s.take(i).contains(x));
        } else {
            assert(s[i] == x);
        }
    }
    assert forall|x: T| b.contains(x) implies a.contains(x) by {
        if s.take(i).contains(x) {
            let w = choose|w: int| 0 <= w < s.take(i).len() && #[trigger] s.take(i)[w] == x;
            assert(s.take(i + 1)[w] == x);
        } else {
            assert(x == s[i]);
            assert(s.take(i + 1)[i] == x);
        }
    }
    assert(a =~= b);
}

} // verus!
