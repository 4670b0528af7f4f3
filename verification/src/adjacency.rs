//! Which state leads to which, whatever the label: the adjacency of an
//! automaton, and the same relation turned round.

use crate::assemble::copy_nodes;
use crate::nodes::{lemma_node_set_empty, lemma_node_set_push, node_set};
use crate::symbol::{ExtendedChar, NfaNode};
use crate::table::{
    edge_set, entry_edges, keys_distinct, lemma_edge_set_empty, lemma_edge_set_push,
    merge_entries, targets_proper, Transition,
};
use vstd::prelude::*;

verus! {

/// A state and the states that its transitions lead to.
pub type Successors = (NfaNode, Vec<NfaNode>);

/// The pairs of a source and a destination that some transition of `edges`
/// connects.
pub open spec fn links(edges: Set<(nat, ExtendedChar, nat)>) -> Set<(nat, nat)> {
    Set::new(|p: (nat, nat)| exists|l: ExtendedChar| edges.contains((p.0, l, p.1)))
}

/// The pairs of a source and a destination that the list holds.
pub open spec fn link_set(list: Seq<Successors>) -> Set<(nat, nat)> {
    Set::new(
        |p: (nat, nat)|
            exists|j: int|
                0 <= j < list.len() && (#[trigger] list[j]).0.0 == p.0 && node_set(
                    list[j].1@,
                ).contains(p.1),
    )
}

/// Whether no two entries of the list have the same source.
pub open spec fn sources_distinct(list: Seq<Successors>) -> bool {
    forall|i: int, j: int| 0 <= i < j < list.len() ==> (#[trigger] list[i]).0 != (
    #[trigger] list[j]).0
}

/// Whether every entry of the list has a destination, and none twice.
pub open spec fn successors_proper(list: Seq<Successors>) -> bool {
    forall|i: int|
        0 <= i < list.len() ==> (#[trigger] list[i]).1@.len() > 0 && list[i].1@.no_duplicates()
}

/// The transitions of `edges` with every label replaced by the wildcard.
pub open spec fn unlabelled(edges: Set<(nat, ExtendedChar, nat)>) -> Set<
    (nat, ExtendedChar, nat),
> {
    Set::new(
        |t: (nat, ExtendedChar, nat)|
            t.1 == ExtendedChar::Wildcard && exists|l: ExtendedChar| edges.contains((t.0, l, t.2)),
    )
}

/// The pairs of `pairs` turned round, as transitions on the wildcard.
pub open spec fn turned(pairs: Set<(nat, nat)>) -> Set<(nat, ExtendedChar, nat)> {
    Set::new(
        |t: (nat, ExtendedChar, nat)| t.1 == ExtendedChar::Wildcard && pairs.contains((t.2, t.0)),
    )
}

/// One more entry in a table adds its transitions, unlabelled.
proof fn lemma_unlabelled_push(delta: Seq<Transition>, entry: Transition)
    ensures
        unlabelled(edge_set(delta.push(entry))) == unlabelled(edge_set(delta)) + entry_edges(
            (entry.0.0, ExtendedChar::Wildcard),
            entry.1@,
        ),
{
    let longer = delta.push(entry);
    let gained = entry_edges((entry.0.0, ExtendedChar::Wildcard), entry.1@);
    lemma_edge_set_push(delta, entry);
    assert forall|t: (nat, ExtendedChar, nat)| unlabelled(edge_set(longer)).contains(
        t,
    ) implies (unlabelled(edge_set(delta)) + gained).contains(t) by {
        let l = choose|l: ExtendedChar| edge_set(longer).contains((t.0, l, t.2));
        if edge_set(delta).contains((t.0, l, t.2)) {
        } else {
            assert(entry_edges(entry.0, entry.1@).contains((t.0, l, t.2)));
        }
    }
    assert forall|t: (nat, ExtendedChar, nat)| (unlabelled(edge_set(delta)) + gained).contains(
        t,
    ) implies unlabelled(edge_set(longer)).contains(t) by {
        if unlabelled(edge_set(delta)).contains(t) {
            let l = choose|l: ExtendedChar| edge_set(delta).contains((t.0, l, t.2));
            assert(edge_set(longer).contains((t.0, l, t.2)));
        } else {
            assert(entry_edges(entry.0, entry.1@).contains((t.0, entry.0.1, t.2)));
            assert(edge_set(longer).contains((t.0, entry.0.1, t.2)));
        }
    }
    assert(unlabelled(edge_set(longer)) =~= unlabelled(edge_set(delta)) + gained);
}

/// One more entry in a list of successors adds its pairs.
proof fn lemma_link_set_push(list: Seq<Successors>, entry: Successors, pair: (nat, nat))
    ensures
        link_set(list.push(entry)).contains(pair) <==> link_set(list).contains(pair) || (entry.0.0
            == pair.0 && node_set(entry.1@).contains(pair.1)),
{
    let longer = list.push(entry);
    if link_set(longer).contains(pair) {
        let j = choose|j: int|
            0 <= j < longer.len() && (#[trigger] longer[j]).0.0 == pair.0 && node_set(
                longer[j].1@,
            ).contains(pair.1);
        if j < list.len() {
            assert(list[j].0.0 == pair.0);
        }
    }
    if link_set(list).contains(pair) {
        let j = choose|j: int|
            0 <= j < list.len() && (#[trigger] list[j]).0.0 == pair.0 && node_set(
                list[j].1@,
            ).contains(pair.1);
        assert(longer[j].0.0 == pair.0);
    }
    if entry.0.0 == pair.0 && node_set(entry.1@).contains(pair.1) {
        assert(longer[list.len() as int].0.0 == pair.0);
    }
}

/// The states that each state leads to, whatever the label: one entry for
/// each state that has a transition, with its destinations once each.
pub fn node_edges(delta: &Vec<Transition>) -> (list: Vec<Successors>)
    ensures
        link_set(list@) == links(edge_set(delta@)),
        sources_distinct(list@),
        successors_proper(list@),
{
    let mut plain: Vec<Transition> = Vec::new();
    let mut i: usize = 0;
    proof {
        assert(delta@.take(0) =~= Seq::<Transition>::empty());
        lemma_edge_set_empty();
        assert(unlabelled(edge_set(delta@.take(0))) =~= edge_set(plain@));
    }
    while i < delta.len()
        invariant
            i <= delta.len(),
            edge_set(plain@) == unlabelled(edge_set(delta@.take(i as int))),
        decreases delta.len() - i,
    {
        let targets = copy_nodes(&delta[i].1);
        proof {
            assert(delta@.take(i as int).push(delta@[i as int]) =~= delta@.take(i + 1));
            lemma_unlabelled_push(delta@.take(i as int), delta@[i as int]);
            lemma_edge_set_push(
                plain@,
                ((delta@[i as int].0.0, ExtendedChar::Wildcard), targets),
            );
        }
        plain.push(((delta[i].0.0, ExtendedChar::Wildcard), targets));
        i += 1;
    }
    proof {
        assert(delta@.take(delta@.len() as int) =~= delta@);
    }
    let merged = merge_entries(&plain);
    let mut list: Vec<Successors> = Vec::new();
    let mut k: usize = 0;
    while k < merged.len()
        invariant
            k <= merged.len(),
            list@.len() == k,
            forall|j: int|
                0 <= j < k ==> (#[trigger] list@[j]).0 == merged@[j].0.0 && list@[j].1@
                    == merged@[j].1@,
        decreases merged.len() - k,
    {
        let targets = copy_nodes(&merged[k].1);
        list.push((merged[k].0.0, targets));
        k += 1;
    }
    proof {
        assert forall|j: int| 0 <= j < merged@.len() implies (#[trigger] merged@[j]).0.1
            == ExtendedChar::Wildcard by {
            let r = merged@[j].1@[0].0 as nat;
            assert(node_set(merged@[j].1@).contains(r));
            let t = (merged@[j].0.0.0 as nat, merged@[j].0.1, r);
            assert(entry_edges(merged@[j].0, merged@[j].1@).contains(t));
            assert(edge_set(merged@).contains(t));
        }
        let all = links(edge_set(delta@));
        assert forall|p: (nat, nat)| link_set(list@).contains(p) implies all.contains(p) by {
            let j = choose|j: int|
                0 <= j < list@.len() && (#[trigger] list@[j]).0.0 == p.0 && node_set(
                    list@[j].1@,
                ).contains(p.1);
            let t = (p.0, ExtendedChar::Wildcard, p.1);
            assert(entry_edges(merged@[j].0, merged@[j].1@).contains(t));
            assert(edge_set(merged@).contains(t));
        }
        assert forall|p: (nat, nat)| all.contains(p) implies link_set(list@).contains(p) by {
            let t = (p.0, ExtendedChar::Wildcard, p.1);
            let l = choose|l: ExtendedChar| edge_set(delta@).contains((p.0, l, p.1));
            assert(edge_set(delta@).contains((t.0, l, t.2)));
            assert(unlabelled(edge_set(delta@)).contains(t));
            let j = choose|j: int|
                0 <= j < merged@.len() && #[trigger] entry_edges(
                    merged@[j].0,
                    merged@[j].1@,
                ).contains(t);
            assert(list@[j].0.0 == p.0);
        }
        assert(link_set(list@) =~= links(edge_set(delta@)));
        assert forall|a: int, b: int| 0 <= a < b < list@.len() implies (
        #[trigger] list@[a]).0 != (#[trigger] list@[b]).0 by {
            assert(merged@[a].0 != merged@[b].0);
            assert(merged@[a].0.1 == merged@[b].0.1);
        }
        assert forall|j: int| 0 <= j < list@.len() implies (#[trigger] list@[j]).1@.len() > 0
            && list@[j].1@.no_duplicates() by {
            assert(merged@[j].1@.len() > 0);
        }
    }
    list
}

/// The adjacency turned round: for each state that transitions lead to, the
/// states that they come from. The table is keyed by the destination and the
/// wildcard.
pub fn reversed(list: &Vec<Successors>) -> (back: Vec<Transition>)
    ensures
        edge_set(back@) == turned(link_set(list@)),
        keys_distinct(back@),
        targets_proper(back@),
{
    let mut raw: Vec<Transition> = Vec::new();
    let mut i: usize = 0;
    proof {
        assert(list@.take(0) =~= Seq::<Successors>::empty());
        lemma_edge_set_empty();
        assert(turned(link_set(list@.take(0))) =~= edge_set(raw@));
    }
    while i < list.len()
        invariant
            i <= list.len(),
            edge_set(raw@) == turned(link_set(list@.take(i as int))),
        decreases list.len() - i,
    {
        let source = list[i].0;
        let ghost done = list@.take(i as int);
        let ghost targets = list@[i as int].1@;
        let mut k: usize = 0;
        proof {
            assert(targets.take(0) =~= Seq::<NfaNode>::empty());
            lemma_node_set_empty();
            assert(edge_set(raw@) =~= turned(link_set(done)) + turned(
                Set::new(
                    |p: (nat, nat)| p.0 == source.0 && node_set(targets.take(0)).contains(p.1),
                ),
            ));
        }
        while k < list[i].1.len()
            invariant
                i < list.len(),
                k <= targets.len(),
                source == list@[i as int].0,
                targets == list@[i as int].1@,
                done == list@.take(i as int),
                edge_set(raw@) == turned(link_set(done)) + turned(
                    Set::new(
                        |p: (nat, nat)|
                            p.0 == source.0 && node_set(targets.take(k as int)).contains(p.1),
                    ),
                ),
            decreases targets.len() - k,
        {
            let target = list[i].1[k];
            let mut from: Vec<NfaNode> = Vec::new();
            from.push(source);
            proof {
                let entry: Transition = ((target, ExtendedChar::Wildcard), from);
                lemma_edge_set_push(raw@, entry);
                assert(targets.take(k as int).push(target) =~= targets.take(k + 1));
                lemma_node_set_push(targets.take(k as int), target);
                assert(node_set(from@).contains(source.0 as nat)) by {
                    assert(from@[0].0 == source.0);
                }
                assert forall|q: nat| node_set(from@).contains(q) implies q == source.0 by {
                    let j = choose|j: int| 0 <= j < from@.len() && #[trigger] from@[j].0 == q;
                }
                let before = Set::new(
                    |p: (nat, nat)|
                        p.0 == source.0 && node_set(targets.take(k as int)).contains(p.1),
                );
                let after = Set::new(
                    |p: (nat, nat)|
                        p.0 == source.0 && node_set(targets.take(k + 1)).contains(p.1),
                );
                assert(turned(after) =~= turned(before) + entry_edges(entry.0, entry.1@));
                assert(edge_set(raw@.push(entry)) =~= turned(link_set(done)) + turned(after));
            }
            raw.push(((target, ExtendedChar::Wildcard), from));
            k += 1;
        }
        proof {
            assert(targets.take(targets.len() as int) =~= targets);
            assert(done.push(list@[i as int]) =~= list@.take(i + 1));
            let whole = Set::new(
                |p: (nat, nat)| p.0 == source.0 && node_set(targets).contains(p.1),
            );
            assert forall|p: (nat, nat)|
                link_set(list@.take(i + 1)).contains(p) <==> link_set(done).contains(p)
                    || whole.contains(p) by {
                lemma_link_set_push(done, list@[i as int], p);
            }
            assert(turned(link_set(list@.take(i + 1))) =~= turned(link_set(done)) + turned(whole));
        }
        i += 1;
    }
    proof {
        assert(list@.take(list@.len() as int) =~= list@);
    }
    merge_entries(&raw)
}

} // verus!
