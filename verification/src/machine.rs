//! The plain automaton: a state count, start and accept nodes and a
//! transition table, taken as given and never reduced.

use crate::assemble::{copy_nodes, join_tables, lemma_same_table};
use crate::automaton::Automaton;
use crate::nodes::{
    all_below, lemma_node_set_empty, lemma_nodes_below, node_set, nodes_below, union_nodes,
};
use crate::symbol::NfaNode;
use crate::table::{
    edge_set, edges_below, keys_distinct, lemma_edges_below, lemma_edges_below_back,
    merge_entries, table_below, targets_proper, Transition,
};
use vstd::prelude::*;

verus! {

/// A nondeterministic finite automaton over the states `0..states`.
///
/// Its view is the [`Automaton`] that its lists hold. Start nodes, accept
/// nodes and the destinations of each table entry are kept without
/// repetition, and the table has one entry for each source and label.
#[derive(Debug)]
pub struct NFA {
    states: usize,
    starting: Vec<NfaNode>,
    delta: Vec<Transition>,
    finished: Vec<NfaNode>,
}

/// The automaton that a state count, two node lists and a table describe.
pub open spec fn table_model(
    states: usize,
    starting: Seq<NfaNode>,
    delta: Seq<Transition>,
    finished: Seq<NfaNode>,
) -> Automaton {
    Automaton {
        states: states as nat,
        start: node_set(starting),
        accept: node_set(finished),
        edges: edge_set(delta),
    }
}

/// Whether every node of the two lists and of the table lies below `states`.
pub open spec fn parts_below(
    states: usize,
    starting: Seq<NfaNode>,
    delta: Seq<Transition>,
    finished: Seq<NfaNode>,
) -> bool {
    &&& nodes_below(starting, states as nat)
    &&& edges_below(delta, states as nat)
    &&& nodes_below(finished, states as nat)
}

/// Parts below the state count describe a well-formed automaton.
pub proof fn lemma_parts_below(
    states: usize,
    starting: Seq<NfaNode>,
    delta: Seq<Transition>,
    finished: Seq<NfaNode>,
)
    requires
        parts_below(states, starting, delta, finished),
    ensures
        table_model(states, starting, delta, finished).wf(),
{
    lemma_nodes_below(starting, states as nat);
    lemma_nodes_below(finished, states as nat);
    lemma_edges_below(delta, states as nat);
}

impl View for NFA {
    type V = Automaton;

    open spec fn view(&self) -> Automaton {
        table_model(self.state_count(), self.start_list(), self.table(), self.accept_list())
    }
}

impl NFA {
    /// The number of states.
    pub closed spec fn state_count(&self) -> usize {
        self.states
    }

    /// The start nodes as they are stored.
    pub closed spec fn start_list(&self) -> Seq<NfaNode> {
        self.starting@
    }

    /// The transition table as it is stored.
    pub closed spec fn table(&self) -> Seq<Transition> {
        self.delta@
    }

    /// The accept nodes as they are stored.
    pub closed spec fn accept_list(&self) -> Seq<NfaNode> {
        self.finished@
    }

    /// The invariant of the type: every node lies below the state count, no
    /// list holds a node twice, and the table has one entry, not empty, for
    /// each source and label.
    pub open spec fn wf(&self) -> bool {
        &&& parts_below(self.state_count(), self.start_list(), self.table(), self.accept_list())
        &&& self.start_list().no_duplicates()
        &&& self.accept_list().no_duplicates()
        &&& keys_distinct(self.table())
        &&& targets_proper(self.table())
    }

    /// A well-formed automaton has a well-formed view.
    pub proof fn lemma_view_wf(&self)
        requires
            self.wf(),
        ensures
            self@.wf(),
    {
        lemma_parts_below(self.state_count(), self.start_list(), self.table(), self.accept_list());
    }

    /// Whether the parts name only states below `states`, as `new` asks.
    pub fn consistent(
        states: usize,
        starting: &Vec<NfaNode>,
        delta: &Vec<Transition>,
        finished: &Vec<NfaNode>,
    ) -> (ok: bool)
        ensures
            ok == parts_below(states, starting@, delta@, finished@),
    {
        all_below(starting, states) && table_below(delta, states) && all_below(finished, states)
    }

    /// The automaton with the given state count, start nodes, transitions and
    /// accept nodes. Repeated nodes count once, entries with the same source
    /// and label add up, and an entry without destinations is no transition.
    pub fn new(
        states: usize,
        starting: Vec<NfaNode>,
        delta: Vec<Transition>,
        finished: Vec<NfaNode>,
    ) -> (nfa: NFA)
        requires
            parts_below(states, starting@, delta@, finished@),
        ensures
            nfa.wf(),
            nfa@ == table_model(states, starting@, delta@, finished@),
    {
        let none: Vec<NfaNode> = Vec::new();
        let start_nodes = union_nodes(&none, &starting);
        let finish_nodes = union_nodes(&none, &finished);
        let table = merge_entries(&delta);
        proof {
            lemma_node_set_empty();
            assert(node_set(start_nodes@) =~= node_set(starting@));
            assert(node_set(finish_nodes@) =~= node_set(finished@));
            lemma_nodes_below(starting@, states as nat);
            lemma_nodes_below(start_nodes@, states as nat);
            lemma_nodes_below(finished@, states as nat);
            lemma_nodes_below(finish_nodes@, states as nat);
            lemma_edges_below(delta@, states as nat);
            lemma_edges_below_back(table@, states as nat);
        }
        NFA { states, starting: start_nodes, delta: table, finished: finish_nodes }
    }

    /// The number of states.
    pub fn states(&self) -> (count: usize)
        ensures
            count == self.state_count(),
    {
        self.states
    }

    /// The start nodes, each once.
    pub fn starting(&self) -> (nodes: &Vec<NfaNode>)
        ensures
            nodes@ == self.start_list(),
    {
        &self.starting
    }

    /// The transition table, one entry for each source and label.
    pub fn delta(&self) -> (entries: &Vec<Transition>)
        ensures
            entries@ == self.table(),
    {
        &self.delta
    }

    /// The accept nodes, each once.
    pub fn finished(&self) -> (nodes: &Vec<NfaNode>)
        ensures
            nodes@ == self.accept_list(),
    {
        &self.finished
    }
}

impl Clone for NFA {
    /// A copy that holds the same automaton.
    fn clone(&self) -> (copy: NFA)
        ensures
            copy@ == self@,
            self.wf() ==> copy.wf(),
    {
        let none: Vec<Transition> = Vec::new();
        let starting = copy_nodes(&self.starting);
        let finished = copy_nodes(&self.finished);
        let delta = join_tables(&self.delta, &none);
        proof {
            assert(self.delta@ + none@ =~= self.delta@);
            lemma_same_table(delta@, self.delta@, self.states as nat);
            if self.wf() {
                assert forall|i: int, j: int| 0 <= i < j < delta@.len() implies (
                #[trigger] delta@[i]).0 != (#[trigger] delta@[j]).0 by {
                    assert(self.delta@[i].0 != self.delta@[j].0);
                }
                assert forall|i: int| 0 <= i < delta@.len() implies (#[trigger] delta@[i]).1@.len()
                    > 0 && delta@[i].1@.no_duplicates() by {
                    assert(self.delta@[i].1@.len() > 0);
                }
            }
        }
        NFA { states: self.states, starting, delta, finished }
    }
}

} // verus!
