//! Building blocks for combining tables: joining two lists, raising the
//! state numbers of one, and bridging from what completes one automaton into
//! another.

use crate::algebra::{bridge, completes, shift, shift_edges};
use crate::automaton::Automaton;
use crate::nodes::{lemma_node_set_raised, node_set, nodes_below, raise_nodes, raised, share_node};
use crate::symbol::{ExtendedChar, NfaNode};
use crate::table::{edge_set, edges_below, entry_edges, lemma_edge_set_push, Transition};
use vstd::prelude::*;

verus! {

/// Whether the two tables have, entry by entry, the same source and label
/// and the same destinations.
pub open spec fn same_table(left: Seq<Transition>, right: Seq<Transition>) -> bool {
    &&& left.len() == right.len()
    &&& forall|i: int|
        0 <= i < left.len() ==> (#[trigger] left[i]).0 == right[i].0 && left[i].1@ == right[i].1@
}

/// Whether `up` is `delta` with every source and destination raised by `by`.
pub open spec fn table_raised(delta: Seq<Transition>, up: Seq<Transition>, by: nat) -> bool {
    &&& up.len() == delta.len()
    &&& forall|i: int|
        0 <= i < up.len() ==> (#[trigger] up[i]).0 == (
            NfaNode((delta[i].0.0.0 + by) as usize),
            delta[i].0.1,
        ) && up[i].1@ == raised(delta[i].1@, by)
}

/// Whether every entry of `out` leads to the nodes `onward` from a source and
/// label of `delta`.
pub open spec fn bridges_from(
    delta: Seq<Transition>,
    out: Seq<Transition>,
    onward: Seq<NfaNode>,
) -> bool {
    forall|j: int|
        0 <= j < out.len() ==> (#[trigger] out[j]).1@ == onward && exists|i: int|
            0 <= i < delta.len() && (#[trigger] delta[i]).0 == out[j].0
}

/// Tables that agree entry by entry hold the same transitions and lie below
/// the same bounds.
pub proof fn lemma_same_table(left: Seq<Transition>, right: Seq<Transition>, bound: nat)
    requires
        same_table(left, right),
    ensures
        edge_set(left) == edge_set(right),
        edges_below(left, bound) == edges_below(right, bound),
{
    assert forall|t: (nat, ExtendedChar, nat)| edge_set(left).contains(t) implies edge_set(
        right,
    ).contains(t) by {
        let i = choose|i: int|
            0 <= i < left.len() && #[trigger] entry_edges(left[i].0, left[i].1@).contains(t);
        assert(left[i].0 == right[i].0);
        assert(entry_edges(right[i].0, right[i].1@).contains(t));
    }
    assert forall|t: (nat, ExtendedChar, nat)| edge_set(right).contains(t) implies edge_set(
        left,
    ).contains(t) by {
        let i = choose|i: int|
            0 <= i < right.len() && #[trigger] entry_edges(right[i].0, right[i].1@).contains(t);
        assert(left[i].0 == right[i].0);
        assert(entry_edges(left[i].0, left[i].1@).contains(t));
    }
    assert(edge_set(left) =~= edge_set(right));
    if edges_below(left, bound) {
        assert forall|i: int| 0 <= i < right.len() implies (#[trigger] right[i]).0.0.0 < bound
            && nodes_below(right[i].1@, bound) by {
            assert(left[i].0 == right[i].0);
        }
    }
    if edges_below(right, bound) {
        assert forall|i: int| 0 <= i < left.len() implies (#[trigger] left[i]).0.0.0 < bound
            && nodes_below(left[i].1@, bound) by {
            assert(left[i].0 == right[i].0);
        }
    }
}

/// A raised table holds the raised transitions and lies below the raised
/// bound.
pub proof fn lemma_table_raised(delta: Seq<Transition>, up: Seq<Transition>, by: nat, bound: nat)
    requires
        table_raised(delta, up, by),
        edges_below(delta, bound),
        bound + by <= usize::MAX,
    ensures
        edge_set(up) == shift_edges(edge_set(delta), by),
        edges_below(up, bound + by),
{
    let to = shift_edges(edge_set(delta), by);
    assert forall|i: int| 0 <= i < delta.len() implies node_set(#[trigger] up[i].1@) == shift(
        node_set(delta[i].1@),
        by,
    ) && up[i].0.0.0 == delta[i].0.0.0 + by by {
        assert(delta[i].0.0.0 < bound);
        assert(up[i].0 == (NfaNode((delta[i].0.0.0 + by) as usize), delta[i].0.1));
        lemma_node_set_raised(delta[i].1@, by);
    }
    assert forall|t: (nat, ExtendedChar, nat)| edge_set(up).contains(t) implies to.contains(t) by {
        let i = choose|i: int|
            0 <= i < up.len() && #[trigger] entry_edges(up[i].0, up[i].1@).contains(t);
        assert(node_set(up[i].1@) == shift(node_set(delta[i].1@), by));
        let t0 = ((t.0 - by) as nat, t.1, (t.2 - by) as nat);
        assert(entry_edges(delta[i].0, delta[i].1@).contains(t0));
    }
    assert forall|t: (nat, ExtendedChar, nat)| to.contains(t) implies edge_set(up).contains(t) by {
        let t0 = ((t.0 - by) as nat, t.1, (t.2 - by) as nat);
        let i = choose|i: int|
            0 <= i < delta.len() && #[trigger] entry_edges(delta[i].0, delta[i].1@).contains(t0);
        assert(node_set(up[i].1@) == shift(node_set(delta[i].1@), by));
        assert(entry_edges(up[i].0, up[i].1@).contains(t));
    }
    assert(edge_set(up) =~= to);
    assert forall|i: int| 0 <= i < up.len() implies (#[trigger] up[i]).0.0.0 < bound + by
        && nodes_below(up[i].1@, bound + by) by {
        assert(node_set(up[i].1@) == shift(node_set(delta[i].1@), by));
        assert(delta[i].0.0.0 < bound);
        assert forall|j: int| 0 <= j < up[i].1@.len() implies #[trigger] up[i].1@[j].0 < bound
            + by by {
            assert(delta[i].1@[j].0 < bound);
        }
    }
}

/// Bridging entries lie below a bound that their sources and the nodes they
/// lead to lie below.
pub proof fn lemma_bridges_below(
    delta: Seq<Transition>,
    out: Seq<Transition>,
    onward: Seq<NfaNode>,
    bound: nat,
)
    requires
        bridges_from(delta, out, onward),
        edges_below(delta, bound),
        nodes_below(onward, bound),
    ensures
        edges_below(out, bound),
{
    assert forall|j: int| 0 <= j < out.len() implies (#[trigger] out[j]).0.0.0 < bound
        && nodes_below(out[j].1@, bound) by {
        let i = choose|i: int| 0 <= i < delta.len() && (#[trigger] delta[i]).0 == out[j].0;
        assert(delta[i].0.0.0 < bound);
    }
}

/// Two tables one after the other lie below a bound that each lies below.
pub proof fn lemma_edges_below_concat(first: Seq<Transition>, second: Seq<Transition>, bound: nat)
    requires
        edges_below(first, bound),
        edges_below(second, bound),
    ensures
        edges_below(first + second, bound),
{
    let both = first + second;
    assert forall|i: int| 0 <= i < both.len() implies (#[trigger] both[i]).0.0.0 < bound
        && nodes_below(both[i].1@, bound) by {
        if i < first.len() {
            assert(both[i] == first[i]);
        } else {
            assert(both[i] == second[i - first.len()]);
        }
    }
}

/// A table below a bound lies below every larger bound.
pub proof fn lemma_edges_below_larger(delta: Seq<Transition>, bound: nat, larger: nat)
    requires
        edges_below(delta, bound),
        bound <= larger,
    ensures
        edges_below(delta, larger),
{
    assert forall|i: int| 0 <= i < delta.len() implies (#[trigger] delta[i]).0.0.0 < larger
        && nodes_below(delta[i].1@, larger) by {
        assert(delta[i].0.0.0 < bound);
        assert forall|j: int| 0 <= j < delta[i].1@.len() implies #[trigger] delta[i].1@[j].0
            < larger by {
            assert(delta[i].1@[j].0 < bound);
        }
    }
}

/// With one more entry in the table of `a`, the bridge gains the transitions
/// from that entry's source and label, if the entry reaches an accept state.
pub proof fn lemma_bridge_push(
    states: nat,
    start: Set<nat>,
    accept: Set<nat>,
    delta: Seq<Transition>,
    entry: Transition,
    onward: Seq<NfaNode>,
)
    ensures
        bridge(
            Automaton { states, start, accept, edges: edge_set(delta.push(entry)) },
            node_set(onward),
        ) == bridge(Automaton { states, start, accept, edges: edge_set(delta) }, node_set(onward))
            + if exists|q: nat| node_set(entry.1@).contains(q) && accept.contains(q) {
            entry_edges(entry.0, onward)
        } else {
            Set::empty()
        },
{
    let before = Automaton { states, start, accept, edges: edge_set(delta) };
    let after = Automaton { states, start, accept, edges: edge_set(delta.push(entry)) };
    let on = node_set(onward);
    let gained = if exists|q: nat| node_set(entry.1@).contains(q) && accept.contains(q) {
        entry_edges(entry.0, onward)
    } else {
        Set::empty()
    };
    lemma_edge_set_push(delta, entry);
    assert forall|t: (nat, ExtendedChar, nat)| bridge(after, on).contains(t) implies (bridge(
        before,
        on,
    ) + gained).contains(t) by {
        let r = choose|r: nat| after.edges.contains((t.0, t.1, r)) && after.accept.contains(r);
        if before.edges.contains((t.0, t.1, r)) {
            assert(before.edges.contains((t.0, t.1, r)) && before.accept.contains(r));
            assert(completes(before, t.0, t.1));
        } else {
            assert(entry_edges(entry.0, entry.1@).contains((t.0, t.1, r)));
            assert(node_set(entry.1@).contains(r) && accept.contains(r));
        }
    }
    assert forall|t: (nat, ExtendedChar, nat)| (bridge(before, on) + gained).contains(
        t,
    ) implies bridge(after, on).contains(t) by {
        if bridge(before, on).contains(t) {
            let r = choose|r: nat|
                before.edges.contains((t.0, t.1, r)) && before.accept.contains(r);
            assert(after.edges.contains((t.0, t.1, r)) && after.accept.contains(r));
            assert(completes(after, t.0, t.1));
        } else {
            let q = choose|q: nat| node_set(entry.1@).contains(q) && accept.contains(q);
            assert(entry_edges(entry.0, entry.1@).contains((t.0, t.1, q)));
            assert(after.edges.contains((t.0, t.1, q)) && after.accept.contains(q));
            assert(completes(after, t.0, t.1));
        }
    }
    assert(bridge(after, on) =~= bridge(before, on) + gained);
}

/// A copy of the list.
pub fn copy_nodes(nodes: &Vec<NfaNode>) -> (copy: Vec<NfaNode>)
    ensures
        copy@ == nodes@,
{
    let mut copy: Vec<NfaNode> = Vec::new();
    let mut i: usize = 0;
    while i < nodes.len()
        invariant
            i <= nodes.len(),
            copy@ == nodes@.take(i as int),
        decreases nodes.len() - i,
    {
        copy.push(nodes[i]);
        proof {
            assert(nodes@.take(i as int).push(nodes@[i as int]) =~= nodes@.take(i + 1));
        }
        i += 1;
    }
    proof {
        assert(nodes@.take(nodes@.len() as int) =~= nodes@);
    }
    copy
}

/// The nodes of `first` followed by those of `second`.
pub fn join_nodes(first: &Vec<NfaNode>, second: &Vec<NfaNode>) -> (both: Vec<NfaNode>)
    ensures
        both@ == first@ + second@,
{
    let mut both = copy_nodes(first);
    let mut i: usize = 0;
    while i < second.len()
        invariant
            i <= second.len(),
            both@ == first@ + second@.take(i as int),
        decreases second.len() - i,
    {
        both.push(second[i]);
        proof {
            assert((first@ + second@.take(i as int)).push(second@[i as int]) =~= first@
                + second@.take(i + 1));
        }
        i += 1;
    }
    proof {
        assert(second@.take(second@.len() as int) =~= second@);
    }
    both
}

/// The entries of `first` followed by those of `second`.
pub fn join_tables(first: &Vec<Transition>, second: &Vec<Transition>) -> (both: Vec<Transition>)
    ensures
        same_table(both@, first@ + second@),
{
    let mut both: Vec<Transition> = Vec::new();
    let mut i: usize = 0;
    while i < first.len()
        invariant
            i <= first.len(),
            same_table(both@, first@.take(i as int)),
        decreases first.len() - i,
    {
        let targets = copy_nodes(&first[i].1);
        both.push((first[i].0, targets));
        i += 1;
    }
    proof {
        assert(first@.take(first@.len() as int) =~= first@);
        assert(first@ + second@.take(0) =~= first@);
    }
    let mut k: usize = 0;
    while k < second.len()
        invariant
            k <= second.len(),
            same_table(both@, first@ + second@.take(k as int)),
        decreases second.len() - k,
    {
        let targets = copy_nodes(&second[k].1);
        both.push((second[k].0, targets));
        proof {
            let done = first@ + second@.take(k as int);
            let next = first@ + second@.take(k + 1);
            assert(next =~= done.push(second@[k as int]));
        }
        k += 1;
    }
    proof {
        assert(second@.take(second@.len() as int) =~= second@);
    }
    both
}

/// The table with every source and destination raised by `by`.
pub(crate) fn raise_table(delta: &Vec<Transition>, by: usize, Ghost(bound): Ghost<nat>) -> (up: Vec<
    Transition,
>)
    requires
        edges_below(delta@, bound),
        bound + by <= usize::MAX,
    ensures
        table_raised(delta@, up@, by as nat),
{
    let mut up: Vec<Transition> = Vec::new();
    let mut i: usize = 0;
    while i < delta.len()
        invariant
            i <= delta.len(),
            edges_below(delta@, bound),
            bound + by <= usize::MAX,
            table_raised(delta@.take(i as int), up@, by as nat),
        decreases delta.len() - i,
    {
        proof {
            assert(delta@[i as int].0.0.0 < bound);
            assert(nodes_below(delta@[i as int].1@, bound));
            let targets = delta@[i as int].1@;
            assert forall|j: int| 0 <= j < targets.len() implies #[trigger] targets[j].0 + by
                <= usize::MAX by {
                assert(targets[j].0 < bound);
            }
        }
        let key = delta[i].0;
        let targets = raise_nodes(&delta[i].1, by);
        up.push(((NfaNode(key.0.0 + by), key.1), targets));
        i += 1;
    }
    proof {
        assert(delta@.take(delta@.len() as int) =~= delta@);
    }
    up
}

/// For each entry of `delta` that has a destination among `finished`, an
/// entry with the same source and label that leads to the nodes `onward`.
pub(crate) fn bridge_entries(
    delta: &Vec<Transition>,
    finished: &Vec<NfaNode>,
    onward: &Vec<NfaNode>,
    Ghost(whole): Ghost<Automaton>,
) -> (out: Vec<Transition>)
    requires
        whole.edges == edge_set(delta@),
        whole.accept == node_set(finished@),
    ensures
        edge_set(out@) == bridge(whole, node_set(onward@)),
        bridges_from(delta@, out@, onward@),
{
    let mut out: Vec<Transition> = Vec::new();
    let mut i: usize = 0;
    let ghost accept = node_set(finished@);
    proof {
        assert(delta@.take(0) =~= Seq::<Transition>::empty());
        crate::table::lemma_edge_set_empty();
        let none = Automaton {
            states: whole.states,
            start: whole.start,
            accept,
            edges: edge_set(delta@.take(0)),
        };
        assert(bridge(none, node_set(onward@)) =~= Set::<(nat, ExtendedChar, nat)>::empty());
    }
    while i < delta.len()
        invariant
            i <= delta.len(),
            accept == node_set(finished@),
            edge_set(out@) == bridge(
                Automaton {
                    states: whole.states,
                    start: whole.start,
                    accept,
                    edges: edge_set(delta@.take(i as int)),
                },
                node_set(onward@),
            ),
            bridges_from(delta@, out@, onward@),
        decreases delta.len() - i,
    {
        let ghost before = out@;
        proof {
            assert(delta@.take(i as int).push(delta@[i as int]) =~= delta@.take(i + 1));
            lemma_bridge_push(
                whole.states,
                whole.start,
                accept,
                delta@.take(i as int),
                delta@[i as int],
                onward@,
            );
        }
        if share_node(&delta[i].1, finished) {
            let targets = copy_nodes(onward);
            out.push((delta[i].0, targets));
            proof {
                lemma_edge_set_push(before, (delta@[i as int].0, targets));
                assert forall|j: int| 0 <= j < out@.len() implies (#[trigger] out@[j]).1@
                    == onward@ && exists|k: int|
                    0 <= k < delta@.len() && (#[trigger] delta@[k]).0 == out@[j].0 by {
                    if j == before.len() {
                        assert(delta@[i as int].0 == out@[j].0);
                    } else {
                        assert(out@[j] == before[j]);
                    }
                }
            }
        } else {
            proof {
                assert(edge_set(before) + Set::<(nat, ExtendedChar, nat)>::empty() =~= edge_set(
                    before,
                ));
            }
        }
        i += 1;
    }
    proof {
        assert(delta@.take(delta@.len() as int) =~= delta@);
        let last = Automaton {
            states: whole.states,
            start: whole.start,
            accept,
            edges: edge_set(delta@),
        };
        assert(bridge(last, node_set(onward@)) =~= bridge(whole, node_set(onward@)));
    }
    out
}

} // verus!
