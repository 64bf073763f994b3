//! Parent chains over a parent map, and the facts about them that the
//! tree's proofs need.
use vstd::prelude::*;

verus! {

/// The node reached from `x` by following `k` parent links, or `None` when
/// the chain stops at a node without a parent before `k` steps.
pub open spec fn up(parents: Map<u32, u32>, x: u32, k: nat) -> Option<u32>
    decreases k,
{
    if k == 0 {
        Some(x)
    } else if parents.contains_key(x) {
        up(parents, parents[x], (k - 1) as nat)
    } else {
        None
    }
}

/// `a` is `y` itself or one of its ancestors.
pub open spec fn reaches(parents: Map<u32, u32>, y: u32, a: u32) -> bool {
    exists|k: nat| up(parents, y, k) == Some(a)
}

/// One more step along a chain.
pub proof fn lemma_up_step(parents: Map<u32, u32>, x: u32, k: nat)
    requires
        up(parents, x, k) is Some,
        parents.contains_key(up(parents, x, k)->0),
    ensures
        up(parents, x, k + 1) == Some(parents[up(parents, x, k)->0]),
    decreases k,
{
    if k > 0 {
        lemma_up_step(parents, parents[x], (k - 1) as nat);
    } else {
        assert(up(parents, parents[x], 0) == Some(parents[x]));
    }
}

/// The node before the last step of a chain.
pub proof fn lemma_up_prev(parents: Map<u32, u32>, x: u32, k: nat)
    requires
        k >= 1,
        up(parents, x, k) is Some,
    ensures
        up(parents, x, (k - 1) as nat) is Some,
        parents.contains_key(up(parents, x, (k - 1) as nat)->0),
        parents[up(parents, x, (k - 1) as nat)->0] == up(parents, x, k)->0,
    decreases k,
{
    if k > 1 {
        lemma_up_prev(parents, parents[x], (k - 1) as nat);
    } else {
        assert(up(parents, parents[x], 0) == Some(parents[x]));
    }
}

/// A chain of `a + b` steps is a chain of `a` steps followed by one of `b`.
pub proof fn lemma_up_compose(parents: Map<u32, u32>, x: u32, a: nat, b: nat)
    requires
        up(parents, x, a) is Some,
    ensures
        up(parents, x, a + b) == up(parents, up(parents, x, a)->0, b),
    decreases a,
{
    if a > 0 {
        lemma_up_compose(parents, parents[x], (a - 1) as nat, b);
    }
}

/// A node whose chain reaches a node without a parent lies on no cycle.
pub proof fn lemma_no_cycle(parents: Map<u32, u32>, root: u32, x: u32, n: nat, m: nat)
    requires
        !parents.contains_key(root),
        up(parents, x, m) == Some(root),
        n >= 1,
    ensures
        up(parents, x, n) != Some(x),
{
    if up(parents, x, n) == Some(x) {
        lemma_up_compose(parents, x, n, m);
        lemma_up_compose(parents, x, m, n);
        assert(up(parents, root, n) is None);
    }
}

/// Chains from inside a set closed under the parent link stay inside it.
pub proof fn lemma_up_stays(parents: Map<u32, u32>, s: Set<u32>, x: u32, k: nat)
    requires
        s.contains(x),
        forall|y: u32| s.contains(y) && #[trigger] parents.contains_key(y) ==> s.contains(parents[y]),
    ensures
        up(parents, x, k) matches Some(y) ==> s.contains(y),
    decreases k,
{
    if k > 0 && parents.contains_key(x) {
        lemma_up_stays(parents, s, parents[x], (k - 1) as nat);
    }
}

/// Two parent maps that agree on every node that a chain visits give the
/// same chain.
pub proof fn lemma_up_frame(before: Map<u32, u32>, after: Map<u32, u32>, x: u32, k: nat)
    requires
        forall|i: nat|
            i < k ==> match #[trigger] up(before, x, i) {
                Some(y) => (before.contains_key(y) <==> after.contains_key(y)) && (before.contains_key(y)
                    ==> before[y] == after[y]),
                None => true,
            },
    ensures
        up(before, x, k) == up(after, x, k),
    decreases k,
{
    if k > 0 {
        assert(up(before, x, 0) == Some(x));
        if before.contains_key(x) {
            let px = before[x];
            assert forall|i: nat| i < k - 1 implies match #[trigger] up(before, px, i) {
                Some(y) => (before.contains_key(y) <==> after.contains_key(y)) && (before.contains_key(y)
                    ==> before[y] == after[y]),
                None => true,
            } by {
                assert(up(before, x, i + 1) == up(before, px, i));
            }
            lemma_up_frame(before, after, px, (k - 1) as nat);
        }
    }
}

/// Agreement on a set closed under the parent link of the first map gives
/// the same chains from inside that set.
pub proof fn lemma_up_frame_closed(
    before: Map<u32, u32>,
    after: Map<u32, u32>,
    s: Set<u32>,
    x: u32,
    k: nat,
)
    requires
        s.contains(x),
        forall|y: u32| s.contains(y) && #[trigger] before.contains_key(y) ==> s.contains(before[y]),
        forall|y: u32|
            #[trigger] s.contains(y) ==> (before.contains_key(y) <==> after.contains_key(y)) && (
            before.contains_key(y) ==> before[y] == after[y]),
    ensures
        up(before, x, k) == up(after, x, k),
{
    assert forall|i: nat| i < k implies match #[trigger] up(before, x, i) {
        Some(y) => (before.contains_key(y) <==> after.contains_key(y)) && (before.contains_key(y) ==> before[y]
            == after[y]),
        None => true,
    } by {
        lemma_up_stays(before, s, x, i);
    }
    lemma_up_frame(before, after, x, k);
}

} // verus!
