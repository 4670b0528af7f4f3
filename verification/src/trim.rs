//! Reduction on plain automata: the live states by a breadth-first walk
//! back from the accept states, and the table without the transitions that
//! lead elsewhere.

use crate::adjacency::{links, node_edges, reversed, turned};
use crate::assemble::copy_nodes;
use crate::automaton::Automaton;
use crate::machine::NFA;
use crate::matching::{lemma_marked_update, marked, no_marks};
use crate::nodes::{lemma_node_set_empty, lemma_node_set_push, node_set, nodes_below};
use crate::reduction::{lemma_live_source, live, reaches_accept, reduce};
use crate::symbol::{ExtendedChar, NfaNode};
use crate::table::{
    edge_set, edges_below, entry_edges, find_key, keys_distinct, lemma_edge_set_empty,
    lemma_edge_set_push, lemma_edges_below_back, Transition,
};
use std::collections::VecDeque;
use vstd::prelude::*;

verus! {

/// The number of positions of `marks` that are not marked.
pub open spec fn unmarked(marks: Seq<bool>) -> nat
    decreases marks.len(),
{
    if marks.len() == 0 {
        0
    } else {
        unmarked(marks.drop_last()) + if marks.last() {
            0nat
        } else {
            1nat
        }
    }
}

/// Marking an unmarked position leaves one unmarked position fewer.
proof fn lemma_unmarked_update(marks: Seq<bool>, at: int)
    requires
        0 <= at < marks.len(),
        !marks[at],
    ensures
        unmarked(marks.update(at, true)) + 1 == unmarked(marks),
    decreases marks.len(),
{
    let after = marks.update(at, true);
    if at == marks.len() - 1 {
        assert(after.drop_last() =~= marks.drop_last());
    } else {
        assert(after.drop_last() =~= marks.drop_last().update(at, true));
        lemma_unmarked_update(marks.drop_last(), at);
    }
}

/// Whether `closed` holds every accept state of `a` and, with the
/// destination of a transition, its source.
pub open spec fn closed_backward(a: Automaton, closed: Set<nat>) -> bool {
    &&& a.accept.subset_of(closed)
    &&& forall|p: nat, l: ExtendedChar, r: nat| #[trigger]
        a.edges.contains((p, l, r)) && closed.contains(r) ==> closed.contains(p)
}

/// A set that holds the accept states and is closed under going back along
/// transitions holds every live state.
proof fn lemma_closed_holds_live(a: Automaton, closed: Set<nat>, q: nat, k: nat)
    requires
        closed_backward(a, closed),
        reaches_accept(a, q, k),
    ensures
        closed.contains(q),
    decreases k,
{
    if !a.accept.contains(q) {
        let (l, r) = choose|l: ExtendedChar, r: nat|
            #[trigger] a.edges.contains((q, l, r)) && reaches_accept(a, r, (k - 1) as nat);
        lemma_closed_holds_live(a, closed, r, (k - 1) as nat);
    }
}

/// Marks `node` and puts it at the end of `queue`, unless it is marked.
fn visit(seen: &mut Vec<bool>, queue: &mut VecDeque<NfaNode>, node: NfaNode)
    requires
        node.0 < old(seen)@.len(),
    ensures
        final(seen)@.len() == old(seen)@.len(),
        marked(final(seen)@) == marked(old(seen)@).insert(node.0 as nat),
        final(queue)@ == if old(seen)@[node.0 as int] {
            old(queue)@
        } else {
            old(queue)@.push(node)
        },
        2 * unmarked(final(seen)@) + final(queue)@.len() <= 2 * unmarked(old(seen)@) + old(
            queue,
        )@.len(),
{
    if !seen[node.0] {
        proof {
            lemma_unmarked_update(seen@, node.0 as int);
            lemma_marked_update(seen@, node.0 as int);
        }
        seen.set(node.0, true);
        queue.push_back(node);
    } else {
        proof {
            assert(marked(seen@) =~= marked(seen@).insert(node.0 as nat));
        }
    }
}

/// The live states of the automaton as a row of marks: the accept states and
/// every state from which transitions lead to one. The walk starts from all
/// accept states at once and goes back along the transitions, first come,
/// first served.
pub fn live_marks(nfa: &NFA) -> (seen: Vec<bool>)
    requires
        nfa.wf(),
    ensures
        seen@.len() == nfa.state_count(),
        forall|q: nat| marked(seen@).contains(q) == live(nfa@, q),
{
    let ghost a = nfa@;
    let ghost n = nfa.state_count() as nat;
    let forward = node_edges(nfa.delta());
    let back = reversed(&forward);
    let finished = nfa.finished();
    proof {
        nfa.lemma_view_wf();
        assert forall|q: nat, l: ExtendedChar, r: nat| #[trigger]
            edge_set(back@).contains((q, l, r)) implies q < n && r < n by {
            let w = choose|w: ExtendedChar| a.edges.contains((r, w, q));
            assert(a.edges.contains((r, w, q)));
        }
        lemma_edges_below_back(back@, n);
    }
    let mut seen = no_marks(nfa.states());
    let mut queue: VecDeque<NfaNode> = VecDeque::new();
    let mut k: usize = 0;
    proof {
        assert(finished@.take(0) =~= Seq::<NfaNode>::empty());
        lemma_node_set_empty();
    }
    while k < finished.len()
        invariant
            k <= finished.len(),
            seen@.len() == n,
            nodes_below(finished@, n),
            marked(seen@) == node_set(finished@.take(k as int)),
            marked(seen@) == node_set(queue@),
        decreases finished.len() - k,
    {
        let node = finished[k];
        proof {
            assert(finished@[k as int].0 < n);
            assert(finished@.take(k as int).push(node) =~= finished@.take(k + 1));
            lemma_node_set_push(finished@.take(k as int), node);
            lemma_node_set_push(queue@, node);
            if seen@[node.0 as int] {
                assert(marked(seen@).contains(node.0 as nat));
                assert(node_set(queue@).insert(node.0 as nat) =~= node_set(queue@));
            }
        }
        visit(&mut seen, &mut queue, node);
        k += 1;
    }
    let ghost mut done = Seq::<NfaNode>::empty();
    proof {
        assert(finished@.take(finished@.len() as int) =~= finished@);
        assert forall|q: nat| marked(seen@).contains(q) implies live(a, q) by {
            assert(reaches_accept(a, q, 0));
        }
        assert(done + queue@ =~= queue@);
    }
    loop
        invariant
            a == nfa@,
            a.wf(),
            n == nfa.state_count(),
            seen@.len() == n,
            edges_below(back@, n),
            keys_distinct(back@),
            edge_set(back@) == turned(links(a.edges)),
            marked(seen@) == node_set(done + queue@),
            a.accept.subset_of(marked(seen@)),
            forall|q: nat| marked(seen@).contains(q) ==> live(a, q),
            forall|j: int, p: nat, l: ExtendedChar|
                0 <= j < done.len() && #[trigger] a.edges.contains((p, l, done[j].0 as nat))
                    ==> marked(seen@).contains(p),
        ensures
            queue@.len() == 0,
        decreases 2 * unmarked(seen@) + queue@.len(),
    {
        let ghost seen_before = seen@;
        let ghost queue_before = queue@;
        let ghost done_before = done;
        let node = match queue.pop_front() {
            Some(node) => node,
            None => {
                break ;
            },
        };
        proof {
            done = done_before.push(node);
            assert(done + queue@ =~= done_before + queue_before);
            assert((done_before + queue_before)[done_before.len() as int] == node);
            assert(node_set(done_before + queue_before).contains(node.0 as nat));
            assert(marked(seen@).contains(node.0 as nat));
        }
        let found = find_key(&back, (node, ExtendedChar::Wildcard));
        match found {
            Some(i) => {
                let mut m: usize = 0;
                while m < back[i].1.len()
                    invariant
                        m <= back@[i as int].1@.len(),
                        i < back@.len(),
                        back@[i as int].0 == (node, ExtendedChar::Wildcard),
                        a.wf(),
                        n == seen@.len(),
                        seen_before.len() == n,
                        edges_below(back@, n),
                        edge_set(back@) == turned(links(a.edges)),
                        live(a, node.0 as nat),
                        marked(seen_before).subset_of(marked(seen@)),
                        marked(seen@) == node_set(done + queue@),
                        forall|q: nat| marked(seen@).contains(q) ==> live(a, q),
                        forall|j: int|
                            0 <= j < m ==> marked(seen@).contains(
                                (#[trigger] back@[i as int].1@[j]).0 as nat,
                            ),
                        2 * unmarked(seen@) + queue@.len() + 1 <= 2 * unmarked(seen_before)
                            + queue_before.len(),
                    decreases back@[i as int].1@.len() - m,
                {
                    let source = back[i].1[m];
                    proof {
                        assert(nodes_below(back@[i as int].1@, n));
                        assert(back@[i as int].1@[m as int].0 < n);
                        let t = (node.0 as nat, ExtendedChar::Wildcard, source.0 as nat);
                        assert(node_set(back@[i as int].1@).contains(source.0 as nat));
                        assert(entry_edges(back@[i as int].0, back@[i as int].1@).contains(t));
                        assert(edge_set(back@).contains(t));
                        assert(links(a.edges).contains((source.0 as nat, node.0 as nat)));
                        let l = choose|l: ExtendedChar|
                            a.edges.contains((source.0 as nat, l, node.0 as nat));
                        lemma_live_source(a, source.0 as nat, l, node.0 as nat);
                        lemma_node_set_push(done + queue@, source);
                        assert((done + queue@).push(source) =~= done + queue@.push(source));
                        if seen@[source.0 as int] {
                            assert(marked(seen@).contains(source.0 as nat));
                            assert(node_set(done + queue@).insert(source.0 as nat) =~= node_set(
                                done + queue@,
                            ));
                        }
                    }
                    visit(&mut seen, &mut queue, source);
                    m += 1;
                }
            },
            None => {},
        }
        proof {
            assert forall|p: nat, l: ExtendedChar| #[trigger]
                a.edges.contains((p, l, node.0 as nat)) implies marked(seen@).contains(p) by {
                let t = (node.0 as nat, ExtendedChar::Wildcard, p);
                let pair = (p, node.0 as nat);
                assert(a.edges.contains((pair.0, l, pair.1)));
                assert(links(a.edges).contains(pair));
                assert(edge_set(back@).contains(t));
                let x = choose|x: int|
                    0 <= x < back@.len() && #[trigger] entry_edges(
                        back@[x].0,
                        back@[x].1@,
                    ).contains(t);
                assert(back@[x].0 == (node, ExtendedChar::Wildcard));
                match found {
                    Some(i) => {
                        assert(x == i);
                        let j = choose|j: int|
                            0 <= j < back@[x].1@.len() && #[trigger] back@[x].1@[j].0 == p;
                        assert(marked(seen@).contains(back@[i as int].1@[j].0 as nat));
                    },
                    None => {
                        assert(false);
                    },
                }
            }
            assert forall|j: int, p: nat, l: ExtendedChar|
                0 <= j < done.len() && #[trigger] a.edges.contains(
                    (p, l, done[j].0 as nat),
                ) implies marked(seen@).contains(p) by {
                if j < done_before.len() {
                    assert(done[j] == done_before[j]);
                    assert(marked(seen_before).contains(p));
                } else {
                    assert(done[j] == node);
                }
            }
        }
    }
    proof {
        assert(done + queue@ =~= done);
        assert forall|p: nat, l: ExtendedChar, r: nat| #[trigger]
            a.edges.contains((p, l, r)) && marked(seen@).contains(r) implies marked(
            seen@,
        ).contains(p) by {
            let j = choose|j: int| 0 <= j < done.len() && #[trigger] done[j].0 == r;
            assert(a.edges.contains((p, l, done[j].0 as nat)));
        }
        assert forall|q: nat| live(a, q) implies marked(seen@).contains(q) by {
            let k = choose|k: nat| reaches_accept(a, q, k);
            lemma_closed_holds_live(a, marked(seen@), q, k);
        }
    }
    seen
}

/// The nodes of the list that are marked.
pub fn keep_marked(nodes: &Vec<NfaNode>, marks: &Vec<bool>) -> (kept: Vec<NfaNode>)
    requires
        nodes_below(nodes@, marks@.len()),
    ensures
        node_set(kept@) == node_set(nodes@).intersect(marked(marks@)),
{
    let mut kept: Vec<NfaNode> = Vec::new();
    let mut i: usize = 0;
    proof {
        assert(nodes@.take(0) =~= Seq::<NfaNode>::empty());
        lemma_node_set_empty();
        assert(node_set(kept@) =~= node_set(nodes@.take(0)).intersect(marked(marks@)));
    }
    while i < nodes.len()
        invariant
            i <= nodes.len(),
            nodes_below(nodes@, marks@.len()),
            node_set(kept@) == node_set(nodes@.take(i as int)).intersect(marked(marks@)),
        decreases nodes.len() - i,
    {
        let node = nodes[i];
        let ghost before = kept@;
        proof {
            assert(nodes@[i as int].0 < marks@.len());
            assert(nodes@.take(i as int).push(node) =~= nodes@.take(i + 1));
            lemma_node_set_push(nodes@.take(i as int), node);
            lemma_node_set_push(before, node);
        }
        if marks[node.0] {
            kept.push(node);
        }
        proof {
            assert(node_set(kept@) =~= node_set(nodes@.take(i + 1)).intersect(marked(marks@)));
        }
        i += 1;
    }
    proof {
        assert(nodes@.take(nodes@.len() as int) =~= nodes@);
    }
    kept
}

/// The transitions of `edges` that lead to a state of `kept`.
pub open spec fn leading_to(edges: Set<(nat, ExtendedChar, nat)>, kept: Set<nat>) -> Set<
    (nat, ExtendedChar, nat),
> {
    Set::new(|t: (nat, ExtendedChar, nat)| edges.contains(t) && kept.contains(t.2))
}

/// The table with, in each entry, only the destinations that are marked.
pub fn prune(delta: &Vec<Transition>, marks: &Vec<bool>) -> (kept: Vec<Transition>)
    requires
        edges_below(delta@, marks@.len()),
    ensures
        edge_set(kept@) == leading_to(edge_set(delta@), marked(marks@)),
        edges_below(kept@, marks@.len()),
{
    let mut kept: Vec<Transition> = Vec::new();
    let mut i: usize = 0;
    let ghost live = marked(marks@);
    proof {
        assert(delta@.take(0) =~= Seq::<Transition>::empty());
        lemma_edge_set_empty();
        assert(edge_set(kept@) =~= leading_to(edge_set(delta@.take(0)), live));
    }
    while i < delta.len()
        invariant
            i <= delta.len(),
            live == marked(marks@),
            edges_below(delta@, marks@.len()),
            edges_below(kept@, marks@.len()),
            edge_set(kept@) == leading_to(edge_set(delta@.take(i as int)), live),
        decreases delta.len() - i,
    {
        let key = delta[i].0;
        proof {
            assert(delta@[i as int].0.0.0 < marks@.len());
            assert(nodes_below(delta@[i as int].1@, marks@.len() as nat));
        }
        let targets = keep_marked(&delta[i].1, marks);
        proof {
            let entry = delta@[i as int];
            let done = delta@.take(i as int);
            assert(done.push(entry) =~= delta@.take(i + 1));
            lemma_edge_set_push(done, entry);
            lemma_edge_set_push(kept@, (key, targets));
            assert(entry_edges(key, targets@) =~= leading_to(entry_edges(key, entry.1@), live));
            assert(leading_to(edge_set(done.push(entry)), live) =~= leading_to(
                edge_set(done),
                live,
            ) + entry_edges(key, targets@));
            assert forall|j: int| 0 <= j < targets@.len() implies #[trigger] targets@[j].0
                < marks@.len() by {
                assert(node_set(targets@).contains(targets@[j].0 as nat));
            }
            assert forall|j: int| 0 <= j < kept@.push((key, targets)).len() implies (
            #[trigger] kept@.push((key, targets))[j]).0.0.0 < marks@.len() && nodes_below(
                kept@.push((key, targets))[j].1@,
                marks@.len() as nat,
            ) by {
                if j < kept@.len() {
                    assert(kept@.push((key, targets))[j] == kept@[j]);
                }
            }
        }
        kept.push((key, targets));
        i += 1;
    }
    proof {
        assert(delta@.take(delta@.len() as int) =~= delta@);
    }
    kept
}

/// The automaton without the transitions that lead to a state that is not
/// live. The state count, the start nodes and the accept nodes stay.
pub fn trim(nfa: &NFA) -> (trimmed: NFA)
    requires
        nfa.wf(),
    ensures
        trimmed.wf(),
        trimmed@ == reduce(nfa@),
{
    let seen = live_marks(nfa);
    let delta = prune(nfa.delta(), &seen);
    let starting = copy_nodes(nfa.starting());
    let finished = copy_nodes(nfa.finished());
    proof {
        assert(edge_set(delta@) =~= reduce(nfa@).edges);
    }
    NFA::new(nfa.states(), starting, delta, finished)
}

} // verus!
