//! The construction algebra on plain automata: unit, empty, alternation,
//! concatenation and star. None of them reduces its result.

use crate::algebra;
use crate::assemble::{
    bridge_entries, copy_nodes, join_nodes, join_tables, lemma_bridges_below,
    lemma_edges_below_concat, lemma_edges_below_larger, lemma_same_table, lemma_table_raised,
    raise_table,
};
use crate::machine::NFA;
use crate::nodes::{
    lemma_node_set_concat, lemma_node_set_raised, node_set, nodes_below, raise_nodes, raised,
    share_node,
};
use crate::symbol::{ExtendedChar, NfaNode};
use crate::table::{edge_set, entry_edges, lemma_edge_set_concat, Transition};
use vstd::prelude::*;

verus! {

/// A list below `bound`, raised by `by`, lies below `bound + by`.
proof fn lemma_raised_below(nodes: Seq<NfaNode>, by: nat, bound: nat)
    requires
        nodes_below(nodes, bound),
        bound + by <= usize::MAX,
    ensures
        nodes_below(raised(nodes, by), bound + by),
        forall|i: int| 0 <= i < nodes.len() ==> #[trigger] nodes[i].0 + by <= usize::MAX,
{
    assert forall|i: int| 0 <= i < nodes.len() implies #[trigger] nodes[i].0 + by
        <= usize::MAX by {
        assert(nodes[i].0 < bound);
    }
    assert forall|i: int| 0 <= i < nodes.len() implies #[trigger] raised(nodes, by)[i].0 < bound
        + by by {
        assert(nodes[i].0 < bound);
    }
}

/// Two lists one after the other lie below a bound that the first lies below
/// and that the second lies below.
proof fn lemma_nodes_below_concat(first: Seq<NfaNode>, second: Seq<NfaNode>, bound: nat)
    requires
        nodes_below(first, bound),
        nodes_below(second, bound),
    ensures
        nodes_below(first + second, bound),
{
    assert forall|i: int| 0 <= i < (first + second).len() implies #[trigger] (first
        + second)[i].0 < bound by {
        if i < first.len() {
            assert(first[i].0 < bound);
        } else {
            assert(second[i - first.len()].0 < bound);
        }
    }
}

/// A list below a bound lies below every larger bound.
proof fn lemma_nodes_below_larger(nodes: Seq<NfaNode>, bound: nat, larger: nat)
    requires
        nodes_below(nodes, bound),
        bound <= larger,
    ensures
        nodes_below(nodes, larger),
{
    assert forall|i: int| 0 <= i < nodes.len() implies #[trigger] nodes[i].0 < larger by {
        assert(nodes[i].0 < bound);
    }
}

/// The alternation of two automata: a word is accepted if one of the two
/// accepts it. The states of `second` follow those of `first`.
pub fn plus(first: &NFA, second: &NFA) -> (nfa: NFA)
    requires
        first.wf(),
        second.wf(),
        first.state_count() + second.state_count() <= usize::MAX,
    ensures
        nfa.wf(),
        nfa@ == algebra::alternate(first@, second@),
{
    let by = first.states();
    let states = by + second.states();
    let ghost n = by as nat;
    let ghost m = second.state_count() as nat;
    proof {
        lemma_raised_below(second.start_list(), n, m);
        lemma_raised_below(second.accept_list(), n, m);
    }
    let second_starting = raise_nodes(second.starting(), by);
    let second_finished = raise_nodes(second.finished(), by);
    let second_delta = raise_table(second.delta(), by, Ghost(m));
    let starting = join_nodes(first.starting(), &second_starting);
    let finished = join_nodes(first.finished(), &second_finished);
    let delta = join_tables(first.delta(), &second_delta);
    proof {
        let whole = first.table() + second_delta@;
        lemma_node_set_concat(first.start_list(), second_starting@);
        lemma_node_set_concat(first.accept_list(), second_finished@);
        lemma_node_set_raised(second.start_list(), n);
        lemma_node_set_raised(second.accept_list(), n);
        lemma_table_raised(second.table(), second_delta@, n, m);
        lemma_edge_set_concat(first.table(), second_delta@);
        lemma_nodes_below_larger(first.start_list(), n, n + m);
        lemma_nodes_below_larger(first.accept_list(), n, n + m);
        lemma_nodes_below_concat(first.start_list(), second_starting@, n + m);
        lemma_nodes_below_concat(first.accept_list(), second_finished@, n + m);
        lemma_edges_below_larger(first.table(), n, n + m);
        lemma_edges_below_concat(first.table(), second_delta@, n + m);
        lemma_same_table(delta@, whole, n + m);
    }
    NFA::new(states, starting, delta, finished)
}

/// The concatenation of two automata: a word is accepted if it is a word of
/// `first` followed by a word of `second`. The states of `second` follow
/// those of `first`; what completes `first` enters `second`.
pub fn times(first: &NFA, second: &NFA) -> (nfa: NFA)
    requires
        first.wf(),
        second.wf(),
        first.state_count() + second.state_count() <= usize::MAX,
    ensures
        nfa.wf(),
        nfa@ == algebra::concat(first@, second@),
{
    let by = first.states();
    let states = by + second.states();
    let ghost n = by as nat;
    let ghost m = second.state_count() as nat;
    proof {
        lemma_raised_below(second.start_list(), n, m);
        lemma_raised_below(second.accept_list(), n, m);
    }
    let second_starting = raise_nodes(second.starting(), by);
    let finished = raise_nodes(second.finished(), by);
    let second_delta = raise_table(second.delta(), by, Ghost(m));
    let falls_through = share_node(first.starting(), first.finished());
    let starting = if falls_through {
        join_nodes(first.starting(), &second_starting)
    } else {
        copy_nodes(first.starting())
    };
    let bridging = bridge_entries(
        first.delta(),
        first.finished(),
        &second_starting,
        Ghost(first@),
    );
    let chained = join_tables(first.delta(), &bridging);
    let delta = join_tables(&chained, &second_delta);
    proof {
        let front = first.table() + bridging@;
        let whole = chained@ + second_delta@;
        lemma_node_set_concat(first.start_list(), second_starting@);
        lemma_node_set_raised(second.start_list(), n);
        lemma_node_set_raised(second.accept_list(), n);
        lemma_table_raised(second.table(), second_delta@, n, m);
        lemma_nodes_below_larger(first.start_list(), n, n + m);
        lemma_nodes_below_concat(first.start_list(), second_starting@, n + m);
        lemma_edges_below_larger(first.table(), n, n + m);
        lemma_bridges_below(first.table(), bridging@, second_starting@, n + m);
        lemma_edges_below_concat(first.table(), bridging@, n + m);
        lemma_same_table(chained@, front, n + m);
        lemma_edges_below_concat(chained@, second_delta@, n + m);
        lemma_same_table(delta@, whole, n + m);
        lemma_edge_set_concat(first.table(), bridging@);
        lemma_edge_set_concat(chained@, second_delta@);
        assert(falls_through == algebra::starts_accepting(first@));
    }
    NFA::new(states, starting, delta, finished)
}

/// The automaton of two states that accepts the one-character words that
/// `ec` admits.
pub fn unit(ec: ExtendedChar) -> (nfa: NFA)
    ensures
        nfa.wf(),
        nfa@ == algebra::unit(ec),
{
    let node0 = NfaNode(0);
    let node1 = NfaNode(1);
    let mut starting: Vec<NfaNode> = Vec::new();
    starting.push(node0);
    let mut finished: Vec<NfaNode> = Vec::new();
    finished.push(node1);
    let mut targets: Vec<NfaNode> = Vec::new();
    targets.push(node1);
    let mut delta: Vec<Transition> = Vec::new();
    delta.push(((node0, ec), targets));
    proof {
        assert(node_set(starting@) =~= set![0nat]) by {
            assert(starting@[0].0 == 0);
        }
        assert(node_set(finished@) =~= set![1nat]) by {
            assert(finished@[0].0 == 1);
        }
        assert(edge_set(delta@) =~= set![(0nat, ec, 1nat)]) by {
            assert(delta@[0].1@[0].0 == 1);
            assert(node_set(delta@[0].1@).contains(1nat));
            assert(entry_edges(delta@[0].0, delta@[0].1@).contains((0nat, ec, 1nat)));
        }
    }
    NFA::new(2, starting, delta, finished)
}

/// Zero or more repetitions of an automaton: what completes it restarts it,
/// and its start states accept too.
pub fn star(nfa: &NFA) -> (repeated: NFA)
    requires
        nfa.wf(),
    ensures
        repeated.wf(),
        repeated@ == algebra::star(nfa@),
{
    let ghost n = nfa.state_count() as nat;
    let starting = copy_nodes(nfa.starting());
    let finished = join_nodes(nfa.finished(), nfa.starting());
    let bridging = bridge_entries(nfa.delta(), nfa.finished(), nfa.starting(), Ghost(nfa@));
    let delta = join_tables(nfa.delta(), &bridging);
    proof {
        let whole = nfa.table() + bridging@;
        lemma_node_set_concat(nfa.accept_list(), nfa.start_list());
        lemma_nodes_below_concat(nfa.accept_list(), nfa.start_list(), n);
        lemma_bridges_below(nfa.table(), bridging@, nfa.start_list(), n);
        lemma_edges_below_concat(nfa.table(), bridging@, n);
        lemma_same_table(delta@, whole, n);
        lemma_edge_set_concat(nfa.table(), bridging@);
    }
    NFA::new(nfa.states(), starting, delta, finished)
}

/// The automaton of one state that accepts the empty word and nothing else.
pub fn empty() -> (nfa: NFA)
    ensures
        nfa.wf(),
        nfa@ == algebra::empty(),
{
    let mut starting: Vec<NfaNode> = Vec::new();
    starting.push(NfaNode(0));
    let mut finished: Vec<NfaNode> = Vec::new();
    finished.push(NfaNode(0));
    let delta: Vec<Transition> = Vec::new();
    proof {
        assert(node_set(starting@) =~= set![0nat]) by {
            assert(starting@[0].0 == 0);
        }
        assert(node_set(finished@) =~= set![0nat]) by {
            assert(finished@[0].0 == 0);
        }
        crate::table::lemma_edge_set_empty();
        assert(delta@ =~= Seq::<Transition>::empty());
    }
    NFA::new(1, starting, delta, finished)
}

} // verus!
