//! Sets of states held as lists of nodes.

use crate::algebra::shift;
use crate::automaton::below;
use crate::symbol::NfaNode;
use vstd::prelude::*;

verus! {

/// The set of state numbers that the list `nodes` holds.
pub open spec fn node_set(nodes: Seq<NfaNode>) -> Set<nat> {
    Set::new(|q: nat| exists|i: int| 0 <= i < nodes.len() && #[trigger] nodes[i].0 == q)
}

/// Whether every node of the list lies below `bound`.
pub open spec fn nodes_below(nodes: Seq<NfaNode>, bound: nat) -> bool {
    forall|i: int| 0 <= i < nodes.len() ==> #[trigger] nodes[i].0 < bound
}

/// The list with every node raised by `by`.
pub open spec fn raised(nodes: Seq<NfaNode>, by: nat) -> Seq<NfaNode> {
    Seq::new(nodes.len(), |i: int| NfaNode((nodes[i].0 + by) as usize))
}

/// A list below a bound holds a set below that bound, and the other way
/// round.
pub proof fn lemma_nodes_below(nodes: Seq<NfaNode>, bound: nat)
    ensures
        nodes_below(nodes, bound) == below(node_set(nodes), bound),
{
    if nodes_below(nodes, bound) {
        assert forall|q: nat| #[trigger] node_set(nodes).contains(q) implies q < bound by {
            let i = choose|i: int| 0 <= i < nodes.len() && #[trigger] nodes[i].0 == q;
        }
    }
    if below(node_set(nodes), bound) {
        assert forall|i: int| 0 <= i < nodes.len() implies #[trigger] nodes[i].0 < bound by {
            assert(node_set(nodes).contains(nodes[i].0 as nat));
        }
    }
}

/// The empty list holds the empty set.
pub proof fn lemma_node_set_empty()
    ensures
        node_set(Seq::empty()) == Set::<nat>::empty(),
{
    assert(node_set(Seq::empty()) =~= Set::<nat>::empty());
}

/// One more node in the list is one more state in the set.
pub proof fn lemma_node_set_push(nodes: Seq<NfaNode>, node: NfaNode)
    ensures
        node_set(nodes.push(node)) == node_set(nodes).insert(node.0 as nat),
{
    let longer = nodes.push(node);
    assert forall|q: nat| node_set(longer).contains(q) implies node_set(nodes).insert(
        node.0 as nat,
    ).contains(q) by {
        let i = choose|i: int| 0 <= i < longer.len() && #[trigger] longer[i].0 == q;
        if i < nodes.len() {
            assert(nodes[i].0 == q);
        }
    }
    assert forall|q: nat| node_set(nodes).insert(node.0 as nat).contains(q) implies node_set(
        longer,
    ).contains(q) by {
        if q == node.0 {
            assert(longer[nodes.len() as int].0 == q);
        } else {
            let i = choose|i: int| 0 <= i < nodes.len() && #[trigger] nodes[i].0 == q;
            assert(longer[i].0 == q);
        }
    }
    assert(node_set(longer) =~= node_set(nodes).insert(node.0 as nat));
}

/// Two lists one after the other hold the union of their sets.
pub proof fn lemma_node_set_concat(first: Seq<NfaNode>, second: Seq<NfaNode>)
    ensures
        node_set(first + second) == node_set(first) + node_set(second),
{
    let both = first + second;
    assert forall|q: nat| node_set(both).contains(q) implies (node_set(first) + node_set(
        second,
    )).contains(q) by {
        let i = choose|i: int| 0 <= i < both.len() && #[trigger] both[i].0 == q;
        if i < first.len() {
            assert(first[i].0 == q);
        } else {
            assert(second[i - first.len()].0 == q);
        }
    }
    assert forall|q: nat| (node_set(first) + node_set(second)).contains(q) implies node_set(
        both,
    ).contains(q) by {
        if node_set(first).contains(q) {
            let i = choose|i: int| 0 <= i < first.len() && #[trigger] first[i].0 == q;
            assert(both[i].0 == q);
        } else {
            let i = choose|i: int| 0 <= i < second.len() && #[trigger] second[i].0 == q;
            assert(both[first.len() + i].0 == q);
        }
    }
    assert(node_set(both) =~= node_set(first) + node_set(second));
}

/// Raising a list raises its set.
pub proof fn lemma_node_set_raised(nodes: Seq<NfaNode>, by: nat)
    requires
        forall|i: int| 0 <= i < nodes.len() ==> #[trigger] nodes[i].0 + by <= usize::MAX,
    ensures
        node_set(raised(nodes, by)) == shift(node_set(nodes), by),
{
    let up = raised(nodes, by);
    assert forall|q: nat| node_set(up).contains(q) implies shift(node_set(nodes), by).contains(
        q,
    ) by {
        let i = choose|i: int| 0 <= i < up.len() && #[trigger] up[i].0 == q;
        assert(nodes[i].0 == (q - by) as nat);
    }
    assert forall|q: nat| shift(node_set(nodes), by).contains(q) implies node_set(up).contains(
        q,
    ) by {
        let q0 = (q - by) as nat;
        let i = choose|i: int| 0 <= i < nodes.len() && #[trigger] nodes[i].0 == q0;
        assert(up[i].0 == q);
    }
    assert(node_set(up) =~= shift(node_set(nodes), by));
}

/// Whether `node` is in the list.
pub fn contains_node(nodes: &Vec<NfaNode>, node: NfaNode) -> (found: bool)
    ensures
        found == node_set(nodes@).contains(node.0 as nat),
{
    let mut i: usize = 0;
    while i < nodes.len()
        invariant
            i <= nodes.len(),
            forall|j: int| 0 <= j < i ==> #[trigger] nodes@[j].0 != node.0,
        decreases nodes.len() - i,
    {
        if nodes[i].0 == node.0 {
            return true;
        }
        i += 1;
    }
    proof {
        if node_set(nodes@).contains(node.0 as nat) {
            let j = choose|j: int| 0 <= j < nodes@.len() && #[trigger] nodes@[j].0 == node.0;
            assert(false);
        }
    }
    false
}

/// Whether the two lists have a node in common.
pub fn share_node(left: &Vec<NfaNode>, right: &Vec<NfaNode>) -> (shared: bool)
    ensures
        shared == exists|q: nat| node_set(left@).contains(q) && node_set(right@).contains(q),
{
    let mut i: usize = 0;
    while i < left.len()
        invariant
            i <= left.len(),
            forall|j: int| 0 <= j < i ==> !node_set(right@).contains(#[trigger] left@[j].0 as nat),
        decreases left.len() - i,
    {
        if contains_node(right, left[i]) {
            proof {
                let q = left@[i as int].0 as nat;
                assert(node_set(left@).contains(q) && node_set(right@).contains(q));
            }
            return true;
        }
        i += 1;
    }
    proof {
        if exists|q: nat| node_set(left@).contains(q) && node_set(right@).contains(q) {
            let q = choose|q: nat| node_set(left@).contains(q) && node_set(right@).contains(q);
            let j = choose|j: int| 0 <= j < left@.len() && #[trigger] left@[j].0 == q;
            assert(false);
        }
    }
    false
}

/// Whether every node of the list lies below `bound`.
pub fn all_below(nodes: &Vec<NfaNode>, bound: usize) -> (ok: bool)
    ensures
        ok == nodes_below(nodes@, bound as nat),
{
    let mut i: usize = 0;
    while i < nodes.len()
        invariant
            i <= nodes.len(),
            forall|j: int| 0 <= j < i ==> #[trigger] nodes@[j].0 < bound,
        decreases nodes.len() - i,
    {
        if nodes[i].0 >= bound {
            return false;
        }
        i += 1;
    }
    true
}

/// The nodes of `base` followed by those nodes of `extra` that are not yet in
/// the list: the union of the two, with nothing twice.
pub fn union_nodes(base: &Vec<NfaNode>, extra: &Vec<NfaNode>) -> (all: Vec<NfaNode>)
    requires
        base@.no_duplicates(),
    ensures
        all@.no_duplicates(),
        node_set(all@) == node_set(base@) + node_set(extra@),
        all@.len() >= base@.len(),
{
    let mut all: Vec<NfaNode> = Vec::new();
    let mut i: usize = 0;
    while i < base.len()
        invariant
            i <= base.len(),
            all@ == base@.take(i as int),
        decreases base.len() - i,
    {
        all.push(base[i]);
        proof {
            assert(base@.take(i as int).push(base@[i as int]) =~= base@.take(i + 1));
        }
        i += 1;
    }
    proof {
        assert(base@.take(base@.len() as int) =~= base@);
        assert(extra@.take(0) =~= Seq::<NfaNode>::empty());
        lemma_node_set_empty();
        assert(node_set(all@) =~= node_set(base@) + node_set(extra@.take(0)));
    }
    let mut k: usize = 0;
    while k < extra.len()
        invariant
            k <= extra.len(),
            all@.no_duplicates(),
            all@.len() >= base@.len(),
            node_set(all@) == node_set(base@) + node_set(extra@.take(k as int)),
        decreases extra.len() - k,
    {
        let node = extra[k];
        let ghost before = all@;
        let known = contains_node(&all, node);
        if !known {
            all.push(node);
        }
        proof {
            assert(extra@.take(k as int).push(node) =~= extra@.take(k + 1));
            lemma_node_set_push(extra@.take(k as int), node);
            if !known {
                lemma_node_set_push(before, node);
                assert forall|i: int, j: int| 0 <= i < j < all@.len() implies all@[i]
                    != all@[j] by {
                    if j == before.len() {
                        assert(before[i].0 != node.0);
                    }
                }
            }
            assert(node_set(all@) =~= node_set(base@) + node_set(extra@.take(k + 1)));
        }
        k += 1;
    }
    proof {
        assert(extra@.take(extra@.len() as int) =~= extra@);
    }
    all
}

/// The list with every node raised by `by`.
pub fn raise_nodes(nodes: &Vec<NfaNode>, by: usize) -> (up: Vec<NfaNode>)
    requires
        forall|i: int| 0 <= i < nodes@.len() ==> #[trigger] nodes@[i].0 + by <= usize::MAX,
    ensures
        up@ == raised(nodes@, by as nat),
{
    let mut up: Vec<NfaNode> = Vec::new();
    let mut i: usize = 0;
    while i < nodes.len()
        invariant
            i <= nodes.len(),
            up@.len() == i,
            forall|j: int| 0 <= j < nodes@.len() ==> #[trigger] nodes@[j].0 + by <= usize::MAX,
            forall|j: int| 0 <= j < i ==> #[trigger] up@[j] == NfaNode((nodes@[j].0 + by) as usize),
        decreases nodes.len() - i,
    {
        let node = nodes[i];
        up.push(NfaNode(node.0 + by));
        i += 1;
    }
    proof {
        assert(up@ =~= raised(nodes@, by as nat));
    }
    up
}

} // verus!
