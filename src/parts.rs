//! The flat, ordered form of a tree that is written out and read back: the
//! root, the labels, each parent's children and each child's parent, every
//! list in increasing label order.
use std::collections::{HashMap, HashSet};
use vstd::prelude::*;

use crate::model::{Node, TreeModel};

verus! {

broadcast use vstd::std_specs::hash::group_hash_axioms;

/// A tree laid out as plain lists.
pub struct TreeParts {
    pub root: Node,
    pub nodes: Vec<Node>,
    pub children: Vec<(Node, Vec<Node>)>,
    pub parents: Vec<(Node, Node)>,
}

/// The labels of `s` increase strictly.
pub open spec fn strictly_increasing(s: Seq<Node>) -> bool {
    forall|a: int, b: int| 0 <= a < b < s.len() ==> s[a] < s[b]
}

/// The parent-to-children lists as a map; a later entry for a key wins.
pub open spec fn lists_to_map(s: Seq<(Node, Vec<Node>)>) -> Map<Node, Set<Node>>
    decreases s.len(),
{
    if s.len() == 0 {
        Map::empty()
    } else {
        lists_to_map(s.drop_last()).insert(s.last().0, s.last().1@.to_set())
    }
}

/// The child-to-parent pairs as a map; a later entry for a key wins.
pub open spec fn pairs_to_map(s: Seq<(Node, Node)>) -> Map<Node, Node>
    decreases s.len(),
{
    if s.len() == 0 {
        Map::empty()
    } else {
        pairs_to_map(s.drop_last()).insert(s.last().0, s.last().1)
    }
}

/// The tree that a set of parts stands for.
pub open spec fn parts_model(p: TreeParts) -> TreeModel {
    TreeModel {
        root: p.root,
        nodes: p.nodes@.to_set(),
        children: lists_to_map(p.children@),
        parents: pairs_to_map(p.parents@),
    }
}

/// `p` lays out `m` in order: the labels increasing, one entry per parent
/// with its children increasing, and one entry per child, all keys
/// increasing.
pub open spec fn parts_describe(p: TreeParts, m: TreeModel) -> bool {
    &&& p.root == m.root
    &&& strictly_increasing(p.nodes@)
    &&& p.nodes@.to_set() == m.nodes
    &&& strictly_increasing(p.children@.map_values(|e: (Node, Vec<Node>)| e.0))
    &&& p.children@.map_values(|e: (Node, Vec<Node>)| e.0).to_set() == m.children.dom()
    &&& forall|i: int|
        0 <= i < p.children@.len() ==> strictly_increasing(#[trigger] p.children@[i].1@)
            && p.children@[i].1@.to_set() == m.children[p.children@[i].0]
    &&& strictly_increasing(p.parents@.map_values(|e: (Node, Node)| e.0))
    &&& p.parents@.map_values(|e: (Node, Node)| e.0).to_set() == m.parents.dom()
    &&& forall|i: int|
        0 <= i < p.parents@.len() ==> m.parents[#[trigger] p.parents@[i].0] == p.parents@[i].1
}

/// The labels of `set`, in increasing order.
pub fn sorted_labels(set: &HashSet<Node>) -> (r: Vec<Node>)
    ensures
        strictly_increasing(r@),
        r@.to_set() == set@,
{
    let mut out: Vec<Node> = Vec::new();
    for x in it: set.iter()
        invariant
            it.seq().unref().to_set() == set@,
            it.seq().no_duplicates(),
            strictly_increasing(out@),
            forall|y: Node| #[trigger]
                out@.contains(y) ==> exists|t: int| 0 <= t < it.index() && *it.seq()[t] == y,
            forall|y: Node|
                #[trigger] set@.contains(y) && !out@.contains(y) ==> exists|t: int|
                    it.index() <= t < it.seq().len() && *it.seq()[t] == y,
            forall|y: Node| #[trigger] out@.contains(y) ==> set@.contains(y),
    {
        let v = *x;
        proof {
            assert(it.seq().unref()[it.index()] == v);
            assert(it.seq().unref().to_set().contains(v));
            if out@.contains(v) {
                let t = choose|t: int| 0 <= t < it.index() && *it.seq()[t] == v;
                assert(it.seq()[t] == it.seq()[it.index() as int]);
            }
        }
        let mut pos: usize = 0;
        while pos < out.len() && out[pos] < v
            invariant
                pos <= out.len(),
                forall|k: int| 0 <= k < pos ==> out@[k] < v,
            decreases out.len() - pos,
        {
            pos = pos + 1;
        }
        let ghost before = out@;
        out.insert(pos, v);
        proof {
            assert(pos < before.len() ==> before[pos as int] > v) by {
                if pos < before.len() {
                    assert(before[pos as int] != v);
                }
            }
            assert forall|a: int, b: int| 0 <= a < b < out@.len() implies out@[a] < out@[b] by {
                if b < pos {
                } else if b == pos {
                } else if a < pos {
                    assert(before[a] < v);
                    assert(before[pos as int] > v);
                } else if a == pos {
                    assert(before[pos as int] > v);
                } else {
                }
            }
            assert forall|y: Node| #[trigger] out@.contains(y) implies exists|t: int|
                0 <= t < it.index() + 1 && *it.seq()[t] == y by {
                let k = choose|k: int| 0 <= k < out@.len() && out@[k] == y;
                if k != pos {
                    let k0 = if k < pos { k } else { k - 1 };
                    assert(before[k0] == y);
                    assert(before.contains(y));
                } else {
                    assert(*it.seq()[it.index() as int] == y);
                }
            }
            assert forall|y: Node|
                #[trigger] set@.contains(y) && !out@.contains(y) implies exists|t: int|
                it.index() + 1 <= t < it.seq().len() && *it.seq()[t] == y by {
                assert(out@[pos as int] == v);
                if !before.contains(y) {
                    let t = choose|t: int| it.index() <= t < it.seq().len() && *it.seq()[t] == y;
                    assert(t != it.index());
                } else {
                    let k = choose|k: int| 0 <= k < before.len() && before[k] == y;
                    if k < pos {
                        assert(out@[k] == y);
                    } else {
                        assert(out@[k + 1] == y);
                    }
                }
            }
            assert forall|y: Node| #[trigger] out@.contains(y) implies set@.contains(y) by {
                let k = choose|k: int| 0 <= k < out@.len() && out@[k] == y;
                if k < pos {
                    assert(before.contains(y));
                } else if k > pos {
                    assert(before[k - 1] == y);
                    assert(before.contains(y));
                }
            }
        }
    }
    proof {
        assert(out@.to_set() =~= set@);
    }
    out
}

/// The keys of a map.
pub fn keys_of<V>(m: &HashMap<Node, V>) -> (r: HashSet<Node>)
    ensures
        r@ == m@.dom(),
{
    let mut keys: HashSet<Node> = HashSet::new();
    for (k, _v) in it: m.iter()
        invariant
            forall|t: int|
                #![trigger it.seq()[t]]
                0 <= t < it.seq().len() ==> m@.contains_key(*it.seq()[t].0),
            forall|k: Node| #[trigger]
                m@.contains_key(k) ==> it.seq().contains((&k, &m@[k])),
            forall|y: Node| #[trigger] keys@.contains(y) ==> m@.contains_key(y),
            forall|y: Node|
                #[trigger] m@.contains_key(y) && !keys@.contains(y) ==> exists|t: int|
                    it.index() <= t < it.seq().len() && *it.seq()[t].0 == y,
    {
        proof {
            assert(it.seq()[it.index() as int].0 == k);
        }
        keys.insert(*k);
        proof {
            assert forall|y: Node|
                #[trigger] m@.contains_key(y) && !keys@.contains(y) implies exists|t: int|
                it.index() + 1 <= t < it.seq().len() && *it.seq()[t].0 == y by {
                let t = choose|t: int| it.index() <= t < it.seq().len() && *it.seq()[t].0 == y;
                assert(t != it.index());
            }
        }
    }
    proof {
        assert(keys@ =~= m@.dom());
    }
    keys
}

/// The set of labels in a list.
pub fn set_of(v: &Vec<Node>) -> (r: HashSet<Node>)
    ensures
        r@ == v@.to_set(),
{
    let mut set: HashSet<Node> = HashSet::new();
    for idx in 0..v.len()
        invariant
            set@ == v@.take(idx as int).to_set(),
    {
        proof {
            assert(v@.take(idx + 1) =~= v@.take(idx as int).push(v@[idx as int]));
            v@.take(idx as int).lemma_push_to_set_commute(v@[idx as int]);
        }
        set.insert(v[idx]);
    }
    proof {
        assert(v@.take(v@.len() as int) =~= v@);
    }
    set
}

proof fn lemma_lists_to_map_keys(s: Seq<(Node, Vec<Node>)>)
    requires
        strictly_increasing(s.map_values(|e: (Node, Vec<Node>)| e.0)),
    ensures
        lists_to_map(s).dom() == s.map_values(|e: (Node, Vec<Node>)| e.0).to_set(),
        forall|i: int| 0 <= i < s.len() ==> lists_to_map(s)[#[trigger] s[i].0] == s[i].1@.to_set(),
    decreases s.len(),
{
    let keys = s.map_values(|e: (Node, Vec<Node>)| e.0);
    if s.len() == 0 {
        assert(keys.to_set() =~= Set::<Node>::empty());
        assert(lists_to_map(s).dom() =~= Set::<Node>::empty());
    } else {
        let init = s.drop_last();
        assert(init.map_values(|e: (Node, Vec<Node>)| e.0) =~= keys.drop_last());
        lemma_lists_to_map_keys(init);
        assert(keys =~= keys.drop_last().push(s.last().0));
        keys.drop_last().lemma_push_to_set_commute(s.last().0);
        assert(lists_to_map(s).dom() =~= keys.to_set());
        assert forall|i: int| 0 <= i < s.len() implies lists_to_map(s)[#[trigger] s[i].0]
            == s[i].1@.to_set() by {
            if i < s.len() - 1 {
                assert(keys[i] < keys[s.len() - 1]);
                assert(init[i] == s[i]);
            }
        }
    }
}

proof fn lemma_pairs_to_map_keys(s: Seq<(Node, Node)>)
    requires
        strictly_increasing(s.map_values(|e: (Node, Node)| e.0)),
    ensures
        pairs_to_map(s).dom() == s.map_values(|e: (Node, Node)| e.0).to_set(),
        forall|i: int| 0 <= i < s.len() ==> pairs_to_map(s)[#[trigger] s[i].0] == s[i].1,
    decreases s.len(),
{
    let keys = s.map_values(|e: (Node, Node)| e.0);
    if s.len() == 0 {
        assert(keys.to_set() =~= Set::<Node>::empty());
        assert(pairs_to_map(s).dom() =~= Set::<Node>::empty());
    } else {
        let init = s.drop_last();
        assert(init.map_values(|e: (Node, Node)| e.0) =~= keys.drop_last());
        lemma_pairs_to_map_keys(init);
        assert(keys =~= keys.drop_last().push(s.last().0));
        keys.drop_last().lemma_push_to_set_commute(s.last().0);
        assert(pairs_to_map(s).dom() =~= keys.to_set());
        assert forall|i: int| 0 <= i < s.len() implies pairs_to_map(s)[#[trigger] s[i].0]
            == s[i].1 by {
            if i < s.len() - 1 {
                assert(keys[i] < keys[s.len() - 1]);
                assert(init[i] == s[i]);
            }
        }
    }
}

/// Reading back the parts that lay out a tree gives that tree again.
pub proof fn parts_round_trip(p: TreeParts, m: TreeModel)
    requires
        parts_describe(p, m),
    ensures
        parts_model(p) == m,
{
    lemma_lists_to_map_keys(p.children@);
    lemma_pairs_to_map_keys(p.parents@);
    let n = parts_model(p);
    let ckeys = p.children@.map_values(|e: (Node, Vec<Node>)| e.0);
    let pkeys = p.parents@.map_values(|e: (Node, Node)| e.0);
    assert forall|k: Node| #[trigger] n.children.contains_key(k) implies n.children[k]
        == m.children[k] by {
        assert(ckeys.to_set().contains(k));
        let i = choose|i: int| 0 <= i < ckeys.len() && ckeys[i] == k;
        assert(p.children@[i].0 == k);
    }
    assert(n.children =~= m.children);
    assert forall|k: Node| #[trigger] n.parents.contains_key(k) implies n.parents[k]
        == m.parents[k] by {
        assert(pkeys.to_set().contains(k));
        let i = choose|i: int| 0 <= i < pkeys.len() && pkeys[i] == k;
        assert(p.parents@[i].0 == k);
    }
    assert(n.parents =~= m.parents);
}

} // verus!
