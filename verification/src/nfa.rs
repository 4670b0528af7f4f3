//! The reduced automaton: every constructor and combinator prunes the
//! transitions that cannot lead to an accept state.

use crate::adjacency::{
    link_set, links, node_edges, sources_distinct, successors_proper, Successors,
};
use crate::algebra;
use crate::automaton::Automaton;
use crate::machine::{parts_below, table_model};
use crate::reduction::{lemma_reduce_trimmed, lemma_reduce_trims, reduce, trimmed};
use crate::table::Transition;
use crate::trim::trim;
use crate::utils;
use char_stream::CharStream;
use vstd::prelude::*;

pub use crate::export::NfaExporter;
pub use crate::machine::NFA;
pub use crate::symbol::NfaNode as Node;
pub use crate::symbol::{ExtendedChar, NfaNode};
pub use crate::utils::{empty, plus, star, times, unit};

verus! {

/// A nondeterministic finite automaton that is kept reduced: no transition
/// of it leads to a state from which no accept state can be reached.
///
/// Its view is the [`Automaton`] that it holds.
#[derive(Debug)]
pub struct Nfa {
    inner: NFA,
}

impl View for Nfa {
    type V = Automaton;

    open spec fn view(&self) -> Automaton {
        self.plain()@
    }
}

impl Nfa {
    /// The plain automaton that is held.
    pub closed spec fn plain(&self) -> NFA {
        self.inner
    }

    /// The invariant of the type: the plain automaton is well formed, and
    /// every transition leads to a live state.
    pub open spec fn wf(&self) -> bool {
        &&& self.plain().wf()
        &&& trimmed(self@)
    }

    /// The plain automaton, reduced.
    fn reduced(plain: &NFA) -> (nfa: Nfa)
        requires
            plain.wf(),
        ensures
            nfa.wf(),
            nfa@ == reduce(plain@),
    {
        let inner = trim(plain);
        proof {
            lemma_reduce_trims(plain@);
        }
        Nfa { inner }
    }

    /// The automaton with the given state count, start nodes, transitions and
    /// accept nodes, reduced. Repeated nodes count once, and entries with the
    /// same source and label add up.
    pub fn new(
        states: usize,
        start_nodes: Vec<NfaNode>,
        edges: Vec<Transition>,
        finish_nodes: Vec<NfaNode>,
    ) -> (nfa: Nfa)
        requires
            parts_below(states, start_nodes@, edges@, finish_nodes@),
        ensures
            nfa.wf(),
            nfa@ == reduce(table_model(states, start_nodes@, edges@, finish_nodes@)),
    {
        let plain = NFA::new(states, start_nodes, edges, finish_nodes);
        Nfa::reduced(&plain)
    }

    /// The automaton of one state that accepts the empty word and nothing
    /// else.
    pub fn empty() -> (nfa: Nfa)
        ensures
            nfa.wf(),
            nfa@ == algebra::empty(),
    {
        let plain = utils::empty();
        proof {
            assert(trimmed(algebra::empty()));
            lemma_reduce_trimmed(algebra::empty());
        }
        Nfa::reduced(&plain)
    }

    /// Whether the automaton accepts `input`.
    pub fn accepts(&self, input: &Vec<char>) -> (matched: bool)
        requires
            self.wf(),
        ensures
            matched == self@.accepts(input@),
    {
        self.inner.accepts(input)
    }

    /// Whether the automaton accepts the characters that are left in the
    /// stream. The stream is read to its end, so it has to be finite; what it
    /// yields decides the answer as `accepts` says.
    pub fn is_match(&self, stream: &mut CharStream) -> (matched: bool)
        requires
            self.wf(),
        ensures
            exists|input: Seq<char>| matched == #[trigger] self@.accepts(input),
    {
        self.inner.is_match(stream)
    }

    /// The alternation of two automata: a word is accepted if one of the two
    /// accepts it. The states of `second` follow those of `first`. The result
    /// is reduced as it stands, since both automata are.
    pub fn alternate(first: &Nfa, second: &Nfa) -> (nfa: Nfa)
        requires
            first.wf(),
            second.wf(),
            first@.states + second@.states <= usize::MAX,
        ensures
            nfa.wf(),
            nfa@ == algebra::alternate(first@, second@),
            nfa@ == reduce(algebra::alternate(first@, second@)),
    {
        let plain = utils::plus(&first.inner, &second.inner);
        proof {
            algebra::lemma_alternate_trimmed(first@, second@);
        }
        Nfa::reduced(&plain)
    }

    /// The concatenation of two automata, reduced: a word is accepted if it
    /// is a word of `first` followed by a word of `second`.
    pub fn concat(first: &Nfa, second: &Nfa) -> (nfa: Nfa)
        requires
            first.wf(),
            second.wf(),
            first@.states + second@.states <= usize::MAX,
        ensures
            nfa.wf(),
            nfa@ == reduce(algebra::concat(first@, second@)),
    {
        let plain = utils::times(&first.inner, &second.inner);
        Nfa::reduced(&plain)
    }

    /// The states that each state leads to, whatever the label: one entry for
    /// each state that has a transition, with its destinations once each.
    pub fn get_node_edges(&self) -> (list: Vec<Successors>)
        ensures
            link_set(list@) == links(self@.edges),
            sources_distinct(list@),
            successors_proper(list@),
    {
        node_edges(self.inner.delta())
    }

    /// Reduces the automaton where it stands. An automaton of this type is
    /// reduced already, so nothing changes.
    pub fn reduce_in_place(&mut self)
        requires
            old(self).wf(),
        ensures
            final(self).wf(),
            final(self)@ == reduce(old(self)@),
            final(self)@ == old(self)@,
    {
        let inner = trim(&self.inner);
        proof {
            lemma_reduce_trimmed(self@);
        }
        self.inner = inner;
    }

    /// The automaton, reduced.
    pub fn reduce(nfa: Nfa) -> (reduced: Nfa)
        requires
            nfa.wf(),
        ensures
            reduced.wf(),
            reduced@ == reduce(nfa@),
            reduced@ == nfa@,
    {
        let mut nfa = nfa;
        nfa.reduce_in_place();
        nfa
    }

    /// The automaton of two states that accepts the one-character words that
    /// `ec` admits.
    pub fn unit(ec: ExtendedChar) -> (nfa: Nfa)
        ensures
            nfa.wf(),
            nfa@ == algebra::unit(ec),
    {
        let plain = utils::unit(ec);
        proof {
            let u = algebra::unit(ec);
            assert forall|q: nat, l: ExtendedChar, r: nat| #[trigger]
                u.edges.contains((q, l, r)) implies crate::reduction::live(u, r) by {
                assert(crate::reduction::reaches_accept(u, r, 0));
            }
            lemma_reduce_trimmed(u);
        }
        Nfa::reduced(&plain)
    }

    /// Zero or more repetitions of an automaton: what completes it restarts
    /// it, and its start states accept too. The result is reduced as it
    /// stands, since the automaton is.
    pub fn star(nfa: &Nfa) -> (repeated: Nfa)
        requires
            nfa.wf(),
        ensures
            repeated.wf(),
            repeated@ == algebra::star(nfa@),
            repeated@ == reduce(algebra::star(nfa@)),
    {
        let plain = utils::star(&nfa.inner);
        proof {
            algebra::lemma_star_trimmed(nfa@);
        }
        Nfa::reduced(&plain)
    }

    /// Zero or more repetitions of this automaton.
    pub fn get_star(&self) -> (repeated: Nfa)
        requires
            self.wf(),
        ensures
            repeated.wf(),
            repeated@ == algebra::star(self@),
            repeated@ == reduce(algebra::star(self@)),
    {
        Nfa::star(self)
    }

    /// The number of states.
    pub fn states(&self) -> (count: usize)
        ensures
            count == self@.states,
    {
        self.inner.states()
    }

    /// The start nodes, each once.
    pub fn start_nodes(&self) -> (nodes: &Vec<NfaNode>)
        ensures
            nodes@ == self.plain().start_list(),
    {
        self.inner.starting()
    }

    /// The transition table, one entry for each source and label.
    pub fn edges(&self) -> (entries: &Vec<Transition>)
        ensures
            entries@ == self.plain().table(),
    {
        self.inner.delta()
    }

    /// The accept nodes, each once.
    pub fn finish_nodes(&self) -> (nodes: &Vec<NfaNode>)
        ensures
            nodes@ == self.plain().accept_list(),
    {
        self.inner.finished()
    }
}

impl Clone for Nfa {
    /// A copy that holds the same automaton.
    fn clone(&self) -> (copy: Nfa)
        ensures
            copy@ == self@,
            self.wf() ==> copy.wf(),
    {
        Nfa { inner: self.inner.clone() }
    }
}

} // verus!
