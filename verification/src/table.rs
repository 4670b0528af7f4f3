//! Transition tables: a list of entries, each a source and label with its
//! destinations, and the set of transitions that such a list holds.

use crate::nodes::{lemma_node_set_empty, node_set, nodes_below, union_nodes};
use crate::symbol::{ExtendedChar, NfaNode};
use vstd::prelude::*;

verus! {

/// One entry of a transition table: a source and a label, and the
/// destinations reached from that source on that label.
pub type Transition = ((NfaNode, ExtendedChar), Vec<NfaNode>);

/// The transitions from the source and label `key` to each node of `targets`.
pub open spec fn entry_edges(key: (NfaNode, ExtendedChar), targets: Seq<NfaNode>) -> Set<
    (nat, ExtendedChar, nat),
> {
    Set::new(
        |t: (nat, ExtendedChar, nat)|
            t.0 == key.0.0 && t.1 == key.1 && node_set(targets).contains(t.2),
    )
}

/// The transitions that the table `delta` holds. Entries with the same source
/// and label add up.
pub open spec fn edge_set(delta: Seq<Transition>) -> Set<(nat, ExtendedChar, nat)> {
    Set::new(
        |t: (nat, ExtendedChar, nat)|
            exists|i: int|
                0 <= i < delta.len() && #[trigger] entry_edges(delta[i].0, delta[i].1@).contains(t),
    )
}

/// Whether every source and destination of the table lies below `bound`.
pub open spec fn edges_below(delta: Seq<Transition>, bound: nat) -> bool {
    forall|i: int|
        0 <= i < delta.len() ==> (#[trigger] delta[i]).0.0.0 < bound && nodes_below(
            delta[i].1@,
            bound,
        )
}

/// Whether no two entries of the table have the same source and label.
pub open spec fn keys_distinct(delta: Seq<Transition>) -> bool {
    forall|i: int, j: int| 0 <= i < j < delta.len() ==> (#[trigger] delta[i]).0 != (
    #[trigger] delta[j]).0
}

/// Whether every entry of the table has a destination, and none twice.
pub open spec fn targets_proper(delta: Seq<Transition>) -> bool {
    forall|i: int|
        0 <= i < delta.len() ==> (#[trigger] delta[i]).1@.len() > 0
            && delta[i].1@.no_duplicates()
}

/// Whether every transition of the set has its source and destination below
/// `bound`.
pub open spec fn edge_set_below(edges: Set<(nat, ExtendedChar, nat)>, bound: nat) -> bool {
    forall|q: nat, l: ExtendedChar, r: nat| #[trigger]
        edges.contains((q, l, r)) ==> q < bound && r < bound
}

/// The empty table holds no transition.
pub proof fn lemma_edge_set_empty()
    ensures
        edge_set(Seq::empty()) == Set::<(nat, ExtendedChar, nat)>::empty(),
{
    assert(edge_set(Seq::empty()) =~= Set::<(nat, ExtendedChar, nat)>::empty());
}

/// One more entry adds the transitions of that entry.
pub proof fn lemma_edge_set_push(delta: Seq<Transition>, entry: Transition)
    ensures
        edge_set(delta.push(entry)) == edge_set(delta) + entry_edges(entry.0, entry.1@),
{
    let longer = delta.push(entry);
    let to = edge_set(delta) + entry_edges(entry.0, entry.1@);
    assert forall|t: (nat, ExtendedChar, nat)| edge_set(longer).contains(t) implies to.contains(
        t,
    ) by {
        let i = choose|i: int|
            0 <= i < longer.len() && #[trigger] entry_edges(longer[i].0, longer[i].1@).contains(t);
        if i < delta.len() {
            assert(entry_edges(delta[i].0, delta[i].1@).contains(t));
        }
    }
    assert forall|t: (nat, ExtendedChar, nat)| to.contains(t) implies edge_set(longer).contains(
        t,
    ) by {
        if edge_set(delta).contains(t) {
            let i = choose|i: int|
                0 <= i < delta.len() && #[trigger] entry_edges(delta[i].0, delta[i].1@).contains(
                    t,
                );
            assert(entry_edges(longer[i].0, longer[i].1@).contains(t));
        } else {
            let n = delta.len() as int;
            assert(entry_edges(longer[n].0, longer[n].1@).contains(t));
        }
    }
    assert(edge_set(longer) =~= to);
}

/// Two tables one after the other hold the union of their transitions.
pub proof fn lemma_edge_set_concat(first: Seq<Transition>, second: Seq<Transition>)
    ensures
        edge_set(first + second) == edge_set(first) + edge_set(second),
    decreases second.len(),
{
    if second.len() == 0 {
        assert(first + second =~= first);
        lemma_edge_set_empty();
        assert(second =~= Seq::<Transition>::empty());
        assert(edge_set(first) + edge_set(second) =~= edge_set(first));
    } else {
        let head = second.drop_last();
        let entry = second.last();
        lemma_edge_set_concat(first, head);
        assert(head.push(entry) =~= second);
        assert((first + head).push(entry) =~= first + second);
        lemma_edge_set_push(head, entry);
        lemma_edge_set_push(first + head, entry);
        assert(edge_set(first + second) =~= edge_set(first) + edge_set(second));
    }
}

/// Giving the entry at `at` more destinations adds the transitions to them.
pub proof fn lemma_edge_set_widen(
    delta: Seq<Transition>,
    at: int,
    wider: Vec<NfaNode>,
    extra: Seq<NfaNode>,
)
    requires
        0 <= at < delta.len(),
        node_set(wider@) == node_set(delta[at].1@) + node_set(extra),
    ensures
        edge_set(delta.update(at, (delta[at].0, wider))) == edge_set(delta) + entry_edges(
            delta[at].0,
            extra,
        ),
{
    let key = delta[at].0;
    let changed = delta.update(at, (key, wider));
    let to = edge_set(delta) + entry_edges(key, extra);
    assert forall|t: (nat, ExtendedChar, nat)| edge_set(changed).contains(t) implies to.contains(
        t,
    ) by {
        let i = choose|i: int|
            0 <= i < changed.len() && #[trigger] entry_edges(
                changed[i].0,
                changed[i].1@,
            ).contains(t);
        if i == at {
            if node_set(delta[at].1@).contains(t.2) {
                assert(entry_edges(delta[at].0, delta[at].1@).contains(t));
            }
        } else {
            assert(entry_edges(delta[i].0, delta[i].1@).contains(t));
        }
    }
    assert forall|t: (nat, ExtendedChar, nat)| to.contains(t) implies edge_set(changed).contains(
        t,
    ) by {
        if edge_set(delta).contains(t) {
            let i = choose|i: int|
                0 <= i < delta.len() && #[trigger] entry_edges(delta[i].0, delta[i].1@).contains(
                    t,
                );
            assert(entry_edges(changed[i].0, changed[i].1@).contains(t));
        } else {
            assert(entry_edges(changed[at].0, changed[at].1@).contains(t));
        }
    }
    assert(edge_set(changed) =~= to);
}

/// A table below a bound holds only transitions below that bound.
pub proof fn lemma_edges_below(delta: Seq<Transition>, bound: nat)
    requires
        edges_below(delta, bound),
    ensures
        edge_set_below(edge_set(delta), bound),
{
    assert forall|q: nat, l: ExtendedChar, r: nat| #[trigger]
        edge_set(delta).contains((q, l, r)) implies q < bound && r < bound by {
        let t = (q, l, r);
        let i = choose|i: int|
            0 <= i < delta.len() && #[trigger] entry_edges(delta[i].0, delta[i].1@).contains(t);
        let j = choose|j: int| 0 <= j < delta[i].1@.len() && #[trigger] delta[i].1@[j].0 == r;
        assert(delta[i].0.0.0 < bound);
    }
}

/// A table whose entries all have destinations lies below a bound if its
/// transitions do.
pub proof fn lemma_edges_below_back(delta: Seq<Transition>, bound: nat)
    requires
        targets_proper(delta),
        edge_set_below(edge_set(delta), bound),
    ensures
        edges_below(delta, bound),
{
    assert forall|i: int| 0 <= i < delta.len() implies (#[trigger] delta[i]).0.0.0 < bound
        && nodes_below(delta[i].1@, bound) by {
        let key = delta[i].0;
        let targets = delta[i].1@;
        assert forall|j: int| 0 <= j < targets.len() implies #[trigger] targets[j].0 < bound by {
            let t = (key.0.0 as nat, key.1, targets[j].0 as nat);
            assert(node_set(targets).contains(targets[j].0 as nat));
            assert(entry_edges(delta[i].0, delta[i].1@).contains(t));
            assert(edge_set(delta).contains((key.0.0 as nat, key.1, targets[j].0 as nat)));
        }
        let t = (key.0.0 as nat, key.1, targets[0].0 as nat);
        assert(node_set(targets).contains(targets[0].0 as nat));
        assert(entry_edges(delta[i].0, delta[i].1@).contains(t));
        assert(edge_set(delta).contains((key.0.0 as nat, key.1, targets[0].0 as nat)));
    }
}

/// Where in the table the entry with the source and label `key` stands, if
/// there is one.
pub fn find_key(delta: &Vec<Transition>, key: (NfaNode, ExtendedChar)) -> (at: Option<usize>)
    ensures
        match at {
            Some(i) => i < delta@.len() && delta@[i as int].0 == key,
            None => forall|i: int| 0 <= i < delta@.len() ==> (#[trigger] delta@[i]).0 != key,
        },
{
    let mut i: usize = 0;
    while i < delta.len()
        invariant
            i <= delta.len(),
            forall|j: int| 0 <= j < i ==> (#[trigger] delta@[j]).0 != key,
        decreases delta.len() - i,
    {
        if delta[i].0.0 == key.0 && delta[i].0.1 == key.1 {
            return Some(i);
        }
        i += 1;
    }
    None
}

/// Whether every source and destination of the table lies below `bound`.
pub fn table_below(delta: &Vec<Transition>, bound: usize) -> (ok: bool)
    ensures
        ok == edges_below(delta@, bound as nat),
{
    let mut i: usize = 0;
    while i < delta.len()
        invariant
            i <= delta.len(),
            forall|j: int|
                0 <= j < i ==> (#[trigger] delta@[j]).0.0.0 < bound && nodes_below(
                    delta@[j].1@,
                    bound as nat,
                ),
        decreases delta.len() - i,
    {
        if delta[i].0.0.0 >= bound || !crate::nodes::all_below(&delta[i].1, bound) {
            return false;
        }
        i += 1;
    }
    true
}

/// The table with the same transitions in which every source and label has
/// one entry, and every entry its destinations once and at least one.
pub fn merge_entries(delta: &Vec<Transition>) -> (merged: Vec<Transition>)
    ensures
        edge_set(merged@) == edge_set(delta@),
        keys_distinct(merged@),
        targets_proper(merged@),
{
    let mut merged: Vec<Transition> = Vec::new();
    let mut k: usize = 0;
    proof {
        assert(delta@.take(0) =~= Seq::<Transition>::empty());
    }
    while k < delta.len()
        invariant
            k <= delta.len(),
            keys_distinct(merged@),
            targets_proper(merged@),
            edge_set(merged@) == edge_set(delta@.take(k as int)),
        decreases delta.len() - k,
    {
        let key = delta[k].0;
        let ghost before = merged@;
        let ghost extra = delta@[k as int].1@;
        proof {
            assert(delta@.take(k as int).push(delta@[k as int]) =~= delta@.take(k + 1));
            lemma_edge_set_push(delta@.take(k as int), delta@[k as int]);
        }
        match find_key(&merged, key) {
            Some(i) => {
                let wider = union_nodes(&merged[i].1, &delta[k].1);
                proof {
                    lemma_edge_set_widen(before, i as int, wider, extra);
                }
                merged.set(i, (key, wider));
            },
            None => {
                let none: Vec<NfaNode> = Vec::new();
                let fresh = union_nodes(&none, &delta[k].1);
                proof {
                    lemma_node_set_empty();
                    assert(node_set(fresh@) =~= node_set(extra));
                    assert(entry_edges(key, fresh@) =~= entry_edges(key, extra));
                }
                if fresh.len() > 0 {
                    proof {
                        lemma_edge_set_push(before, (key, fresh));
                    }
                    merged.push((key, fresh));
                } else {
                    proof {
                        assert(node_set(fresh@) =~= Set::<nat>::empty());
                        assert(entry_edges(key, extra) =~= Set::<
                            (nat, ExtendedChar, nat),
                        >::empty());
                        assert(edge_set(before) + entry_edges(key, extra) =~= edge_set(before));
                    }
                }
            },
        }
        k += 1;
    }
    proof {
        assert(delta@.take(delta@.len() as int) =~= delta@);
    }
    merged
}

} // verus!
