//! The mathematical model of an automaton and the language it accepts.
//!
//! Every executable automaton of this crate has an [`Automaton`] as its view;
//! contracts and laws are stated over this model.

use crate::symbol::ExtendedChar;
use vstd::prelude::*;

verus! {

/// A nondeterministic finite automaton as a mathematical value.
///
/// States are the numbers below `states`. A transition is a triple of source
/// state, label and destination state; a source and label with no triple has
/// no transition, so an empty destination set cannot be expressed.
pub struct Automaton {
    pub states: nat,
    pub start: Set<nat>,
    pub accept: Set<nat>,
    pub edges: Set<(nat, ExtendedChar, nat)>,
}

/// Whether every member of `set` is a state number below `bound`.
pub open spec fn below(set: Set<nat>, bound: nat) -> bool {
    forall|q: nat| #[trigger] set.contains(q) ==> q < bound
}

impl Automaton {
    /// Every state mentioned anywhere lies below `states`.
    pub open spec fn wf(self) -> bool {
        &&& below(self.start, self.states)
        &&& below(self.accept, self.states)
        &&& forall|q: nat, s: ExtendedChar, r: nat| #[trigger]
            self.edges.contains((q, s, r)) ==> q < self.states && r < self.states
    }

    /// The destinations stored for the source `q` and the label `s`.
    pub open spec fn targets(self, q: nat, s: ExtendedChar) -> Set<nat> {
        Set::new(|r: nat| self.edges.contains((q, s, r)))
    }

    /// The transition relation as a mapping from source and label to the set
    /// of destinations. A key is present only if it has a destination.
    pub open spec fn transitions(self) -> Map<(nat, ExtendedChar), Set<nat>> {
        Map::new(
            |k: (nat, ExtendedChar)| exists|r: nat| self.edges.contains((k.0, k.1, r)),
            |k: (nat, ExtendedChar)| self.targets(k.0, k.1),
        )
    }

    /// Reading `c` in state `q` may lead to state `r`: by a transition
    /// labelled with `c` itself or by one labelled with the wildcard.
    pub open spec fn moves(self, q: nat, c: char, r: nat) -> bool {
        self.edges.contains((q, ExtendedChar::Char(c), r)) || self.edges.contains(
            (q, ExtendedChar::Wildcard, r),
        )
    }

    /// The states reachable from some state of `active` by reading `c`.
    pub open spec fn step(self, active: Set<nat>, c: char) -> Set<nat> {
        Set::new(|r: nat| exists|q: nat| active.contains(q) && self.moves(q, c, r))
    }

    /// The states reachable from some state of `active` by reading `input`
    /// from left to right.
    pub open spec fn run(self, active: Set<nat>, input: Seq<char>) -> Set<nat>
        decreases input.len(),
    {
        if input.len() == 0 {
            active
        } else {
            self.step(self.run(active, input.drop_last()), input.last())
        }
    }

    /// Whether `active` holds an accept state.
    pub open spec fn accepting(self, active: Set<nat>) -> bool {
        exists|q: nat| active.contains(q) && self.accept.contains(q)
    }

    /// Whether the automaton accepts `input`: after reading all of it from
    /// the start states, some accept state is active.
    pub open spec fn accepts(self, input: Seq<char>) -> bool {
        self.accepting(self.run(self.start, input))
    }
}

/// The mapping of transitions has no key without a destination, and its
/// destinations are the transitions of the automaton.
pub proof fn lemma_transitions(a: Automaton)
    ensures
        forall|k: (nat, ExtendedChar)| #[trigger]
            a.transitions().dom().contains(k) ==> exists|r: nat| a.transitions()[k].contains(r),
        forall|q: nat, s: ExtendedChar, r: nat|
            a.edges.contains((q, s, r)) <==> a.transitions().dom().contains((q, s))
                && #[trigger] a.transitions()[(q, s)].contains(r),
{
    assert forall|k: (nat, ExtendedChar)| #[trigger]
        a.transitions().dom().contains(k) implies exists|r: nat| a.transitions()[k].contains(
        r,
    ) by {
        let r = choose|r: nat| a.edges.contains((k.0, k.1, r));
        assert(a.transitions()[k].contains(r));
    }
}

/// Reading one more character is one more step.
pub proof fn lemma_run_push(a: Automaton, active: Set<nat>, input: Seq<char>, c: char)
    ensures
        a.run(active, input.push(c)) == a.step(a.run(active, input), c),
{
    assert(input.push(c).drop_last() =~= input);
}

/// A step from states below the bound stays below the bound.
pub proof fn lemma_step_below(a: Automaton, active: Set<nat>, c: char)
    requires
        a.wf(),
    ensures
        below(a.step(active, c), a.states),
{
}

/// A run from states below the bound stays below the bound.
pub proof fn lemma_run_below(a: Automaton, active: Set<nat>, input: Seq<char>)
    requires
        a.wf(),
        below(active, a.states),
    ensures
        below(a.run(active, input), a.states),
    decreases input.len(),
{
    if input.len() > 0 {
        lemma_run_below(a, active, input.drop_last());
        lemma_step_below(a, a.run(active, input.drop_last()), input.last());
    }
}

} // verus!
