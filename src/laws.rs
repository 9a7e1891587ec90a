//! Laws that relate several operations of the tree, stated over the sets that the
//! operations' contracts speak of.

use vstd::prelude::*;
use crate::{is_least, is_successor, minimum_answer, maximum_answer, successor_answer};

verus! {

/// The set reached from `s` by inserting the values of `xs` in order, each step being
/// what `insert` does to a tree's view.
pub open spec fn after_inserts(s: Set<int>, xs: Seq<int>) -> Set<int>
    decreases xs.len(),
{
    if xs.len() == 0 {
        s
    } else {
        after_inserts(s, xs.drop_last()).insert(xs.last())
    }
}

/// After any sequence of inserts into an empty tree, a value is an element exactly when
/// it was inserted.
pub proof fn law_inserted_values_are_held(xs: Seq<int>)
    ensures
        forall|y: int| #[trigger] after_inserts(Set::empty(), xs).contains(y) <==> xs.contains(y),
    decreases xs.len(),
{
    if xs.len() > 0 {
        law_inserted_values_are_held(xs.drop_last());
        assert forall|y: int| #[trigger] after_inserts(Set::empty(), xs).contains(y) <==> xs.contains(y) by {
            assert(after_inserts(Set::empty(), xs.drop_last()).contains(y) <==> xs.drop_last().contains(y));
            if xs.drop_last().contains(y) {
                let k = choose|k: int| 0 <= k < xs.drop_last().len() && xs.drop_last()[k] == y;
                assert(xs[k] == y);
            }
            if xs.contains(y) && y != xs.last() {
                let k = choose|k: int| 0 <= k < xs.len() && xs[k] == y;
                assert(xs.drop_last()[k] == y);
            }
            if y == xs.last() {
                assert(xs[xs.len() - 1] == y);
            }
        }
    }
}

/// Inserting a value twice leaves the same set as inserting it once.
pub proof fn law_insert_idempotent(s: Set<int>, x: int)
    ensures
        s.insert(x).insert(x) == s.insert(x),
{
    assert(s.insert(x).insert(x) =~= s.insert(x));
}

/// Inserting a value that is not an element and then deleting it restores the set, and
/// with it the answers of `minimum` and `maximum`.
pub proof fn law_insert_delete_inverse(s: Set<int>, x: int)
    requires
        !s.contains(x),
    ensures
        s.insert(x).remove(x) == s,
        forall|r: i64| minimum_answer(s.insert(x).remove(x), r) == minimum_answer(s, r),
        forall|r: i64| maximum_answer(s.insert(x).remove(x), r) == maximum_answer(s, r),
{
    assert(s.insert(x).remove(x) =~= s);
}

/// On a non-empty set the minimum does not exceed the maximum.
pub proof fn law_minimum_le_maximum(s: Set<int>, lo: i64, hi: i64)
    requires
        !s.is_empty(),
        minimum_answer(s, lo),
        maximum_answer(s, hi),
    ensures
        lo <= hi,
{
}

/// The answer of `find_next` is determined by the set and the probe alone.
pub proof fn law_successor_unique(s: Set<int>, x: int, a: Option<i64>, b: Option<i64>)
    requires
        successor_answer(s, x, a),
        successor_answer(s, x, b),
    ensures
        a == b,
{
    if a is Some && b is Some {
        assert(a.unwrap() <= b.unwrap() && b.unwrap() <= a.unwrap());
    }
    if a is Some && b is None {
        assert(s.contains(a.unwrap() as int));
    }
    if a is None && b is Some {
        assert(s.contains(b.unwrap() as int));
    }
}

/// Starting from the minimum and following successors until there is none lists the
/// elements of the set in strictly ascending order, each exactly once.
pub proof fn law_successor_chain(s: Set<int>, c: Seq<int>)
    requires
        c.len() > 0,
        is_least(s, c[0]),
        forall|k: int| 0 < k < c.len() ==> is_successor(s, c[k - 1], #[trigger] c[k]),
        forall|e: int| #[trigger] s.contains(e) ==> e <= c.last(),
    ensures
        forall|k: int, l: int| 0 <= k < l < c.len() ==> c[k] < c[l],
        forall|e: int| s.contains(e) <==> #[trigger] c.contains(e),
{
    lemma_chain_ascending(s, c, (c.len() - 1) as nat);
    lemma_chain_covers(s, c, (c.len() - 1) as nat);
    assert forall|k: int, l: int| 0 <= k < l < c.len() implies c[k] < c[l] by {
        lemma_chain_ascending(s, c, l as nat);
    }
    assert forall|e: int| s.contains(e) <==> #[trigger] c.contains(e) by {
        if c.contains(e) {
            let k = choose|k: int| 0 <= k < c.len() && c[k] == e;
            if k > 0 {
                assert(is_successor(s, c[k - 1], c[k]));
            }
        }
        if s.contains(e) {
            let k = choose|k: int| 0 <= k <= c.len() - 1 && c[k] == e;
            assert(c[k] == e);
        }
    }
}

/// Each link of the chain lies above all the links before it.
proof fn lemma_chain_ascending(s: Set<int>, c: Seq<int>, n: nat)
    requires
        n < c.len(),
        forall|k: int| 0 < k < c.len() ==> is_successor(s, c[k - 1], #[trigger] c[k]),
    ensures
        forall|k: int| 0 <= k < n ==> c[k] < c[n as int],
    decreases n,
{
    if n > 0 {
        lemma_chain_ascending(s, c, (n - 1) as nat);
        assert(is_successor(s, c[n - 1], c[n as int]));
    }
}

/// Every element up to the chain's `n`-th link is one of its first `n + 1` links.
proof fn lemma_chain_covers(s: Set<int>, c: Seq<int>, n: nat)
    requires
        n < c.len(),
        is_least(s, c[0]),
        forall|k: int| 0 < k < c.len() ==> is_successor(s, c[k - 1], #[trigger] c[k]),
    ensures
        forall|e: int| #[trigger] s.contains(e) && e <= c[n as int]
            ==> exists|k: int| 0 <= k <= n && c[k] == e,
    decreases n,
{
    if n > 0 {
        lemma_chain_covers(s, c, (n - 1) as nat);
        assert(is_successor(s, c[n - 1], c[n as int]));
        assert forall|e: int| #[trigger] s.contains(e) && e <= c[n as int]
            implies exists|k: int| 0 <= k <= n && c[k] == e by {
            if e > c[n - 1] {
                assert(c[n as int] == e);
            }
        }
    } else {
        assert forall|e: int| #[trigger] s.contains(e) && e <= c[0]
            implies exists|k: int| 0 <= k <= n && c[k] == e by {
            assert(c[0] == e);
        }
    }
}

} // verus!
