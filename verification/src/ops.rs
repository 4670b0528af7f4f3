//! `|` for alternation and `&` for concatenation, on automata and on
//! references to them.

use crate::algebra;
use crate::nfa::Nfa;
use crate::reduction::reduce;
use std::ops::{BitAnd, BitOr};
use vstd::prelude::*;
use vstd::std_specs::ops::{BitAndSpecImpl, BitOrSpecImpl};

verus! {

/// Whether two automata can be combined: both are well formed and their
/// states can be counted together.
pub open spec fn combinable(first: &Nfa, second: &Nfa) -> bool {
    &&& first.wf()
    &&& second.wf()
    &&& first@.states + second@.states <= usize::MAX
}

impl BitOr for Nfa {
    type Output = Nfa;

    /// The alternation of the two automata.
    fn bitor(self, other: Nfa) -> (nfa: Nfa)
        ensures
            nfa.wf(),
            nfa@ == algebra::alternate(self@, other@),
    {
        Nfa::alternate(&self, &other)
    }
}

impl BitOrSpecImpl for Nfa {
    /// The result is stated by the operator's own contract, not by a spec
    /// function.
    open spec fn obeys_bitor_spec() -> bool {
        false
    }

    /// The operator asks for operands that can be combined.
    open spec fn bitor_req(self, other: Nfa) -> bool {
        combinable(&self, &other)
    }

    /// Stands for no claim: `obeys` is false.
    open spec fn bitor_spec(self, other: Nfa) -> Nfa {
        self
    }
}

impl BitOr for &'_ Nfa {
    type Output = Nfa;

    /// The alternation of the two automata.
    fn bitor(self, other: &Nfa) -> (nfa: Nfa)
        ensures
            nfa.wf(),
            nfa@ == algebra::alternate(self@, other@),
    {
        Nfa::alternate(self, other)
    }
}

impl BitOrSpecImpl for &'_ Nfa {
    /// The result is stated by the operator's own contract, not by a spec
    /// function.
    open spec fn obeys_bitor_spec() -> bool {
        false
    }

    /// The operator asks for operands that can be combined.
    open spec fn bitor_req(self, other: &Nfa) -> bool {
        combinable(self, other)
    }

    /// Stands for no claim: `obeys` is false.
    open spec fn bitor_spec(self, other: &Nfa) -> Nfa {
        *self
    }
}

impl BitOr<&'_ Nfa> for Nfa {
    type Output = Nfa;

    /// The alternation of the two automata.
    fn bitor(self, other: &Nfa) -> (nfa: Nfa)
        ensures
            nfa.wf(),
            nfa@ == algebra::alternate(self@, other@),
    {
        Nfa::alternate(&self, other)
    }
}

impl BitOrSpecImpl<&'_ Nfa> for Nfa {
    /// The result is stated by the operator's own contract, not by a spec
    /// function.
    open spec fn obeys_bitor_spec() -> bool {
        false
    }

    /// The operator asks for operands that can be combined.
    open spec fn bitor_req(self, other: &Nfa) -> bool {
        combinable(&self, other)
    }

    /// Stands for no claim: `obeys` is false.
    open spec fn bitor_spec(self, other: &Nfa) -> Nfa {
        self
    }
}

impl BitOr<Nfa> for &'_ Nfa {
    type Output = Nfa;

    /// The alternation of the two automata.
    fn bitor(self, other: Nfa) -> (nfa: Nfa)
        ensures
            nfa.wf(),
            nfa@ == algebra::alternate(self@, other@),
    {
        Nfa::alternate(self, &other)
    }
}

impl BitOrSpecImpl<Nfa> for &'_ Nfa {
    /// The result is stated by the operator's own contract, not by a spec
    /// function.
    open spec fn obeys_bitor_spec() -> bool {
        false
    }

    /// The operator asks for operands that can be combined.
    open spec fn bitor_req(self, other: Nfa) -> bool {
        combinable(self, &other)
    }

    /// Stands for no claim: `obeys` is false.
    open spec fn bitor_spec(self, other: Nfa) -> Nfa {
        *self
    }
}

impl BitAnd for Nfa {
    type Output = Nfa;

    /// The concatenation of the two automata, reduced.
    fn bitand(self, other: Nfa) -> (nfa: Nfa)
        ensures
            nfa.wf(),
            nfa@ == reduce(algebra::concat(self@, other@)),
    {
        Nfa::concat(&self, &other)
    }
}

impl BitAndSpecImpl for Nfa {
    /// The result is stated by the operator's own contract, not by a spec
    /// function.
    open spec fn obeys_bitand_spec() -> bool {
        false
    }

    /// The operator asks for operands that can be combined.
    open spec fn bitand_req(self, other: Nfa) -> bool {
        combinable(&self, &other)
    }

    /// Stands for no claim: `obeys` is false.
    open spec fn bitand_spec(self, other: Nfa) -> Nfa {
        self
    }
}

impl BitAnd for &'_ Nfa {
    type Output = Nfa;

    /// The concatenation of the two automata, reduced.
    fn bitand(self, other: &Nfa) -> (nfa: Nfa)
        ensures
            nfa.wf(),
            nfa@ == reduce(algebra::concat(self@, other@)),
    {
        Nfa::concat(self, other)
    }
}

impl BitAndSpecImpl for &'_ Nfa {
    /// The result is stated by the operator's own contract, not by a spec
    /// function.
    open spec fn obeys_bitand_spec() -> bool {
        false
    }

    /// The operator asks for operands that can be combined.
    open spec fn bitand_req(self, other: &Nfa) -> bool {
        combinable(self, other)
    }

    /// Stands for no claim: `obeys` is false.
    open spec fn bitand_spec(self, other: &Nfa) -> Nfa {
        *self
    }
}

impl BitAnd<&'_ Nfa> for Nfa {
    type Output = Nfa;

    /// The concatenation of the two automata, reduced.
    fn bitand(self, other: &Nfa) -> (nfa: Nfa)
        ensures
            nfa.wf(),
            nfa@ == reduce(algebra::concat(self@, other@)),
    {
        Nfa::concat(&self, other)
    }
}

impl BitAndSpecImpl<&'_ Nfa> for Nfa {
    /// The result is stated by the operator's own contract, not by a spec
    /// function.
    open spec fn obeys_bitand_spec() -> bool {
        false
    }

    /// The operator asks for operands that can be combined.
    open spec fn bitand_req(self, other: &Nfa) -> bool {
        combinable(&self, other)
    }

    /// Stands for no claim: `obeys` is false.
    open spec fn bitand_spec(self, other: &Nfa) -> Nfa {
        self
    }
}

impl BitAnd<Nfa> for &'_ Nfa {
    type Output = Nfa;

    /// The concatenation of the two automata, reduced.
    fn bitand(self, other: Nfa) -> (nfa: Nfa)
        ensures
            nfa.wf(),
            nfa@ == reduce(algebra::concat(self@, other@)),
    {
        Nfa::concat(self, &other)
    }
}

impl BitAndSpecImpl<Nfa> for &'_ Nfa {
    /// The result is stated by the operator's own contract, not by a spec
    /// function.
    open spec fn obeys_bitand_spec() -> bool {
        false
    }

    /// The operator asks for operands that can be combined.
    open spec fn bitand_req(self, other: Nfa) -> bool {
        combinable(self, &other)
    }

    /// Stands for no claim: `obeys` is false.
    open spec fn bitand_spec(self, other: Nfa) -> Nfa {
        *self
    }
}

} // verus!
