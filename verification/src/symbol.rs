//! Transition labels and state identifiers.

use vstd::prelude::*;

verus! {

/// A transition label: one literal character, or the wildcard that stands for
/// any single character.
#[derive(Clone, Copy, PartialEq, Eq, Hash, Debug, Structural)]
pub enum ExtendedChar {
    Char(char),
    Wildcard,
}

/// The identifier of one state of an automaton.
#[derive(Clone, Copy, PartialEq, Eq, Hash, Debug, Structural)]
pub struct NfaNode(pub usize);

impl ExtendedChar {
    /// Whether a transition labelled `self` may be taken on reading `c`.
    pub open spec fn admits(self, c: char) -> bool {
        self == ExtendedChar::Wildcard || self == ExtendedChar::Char(c)
    }

    /// Whether a transition with this label may be taken on reading `c`.
    pub fn matches(&self, c: char) -> (taken: bool)
        ensures
            taken == self.admits(c),
    {
        match self {
            ExtendedChar::Char(d) => *d == c,
            ExtendedChar::Wildcard => true,
        }
    }

    /// The spelling of a label: the character itself, or `*` for the wildcard.
    pub open spec fn glyph(self) -> char {
        match self {
            ExtendedChar::Char(c) => c,
            ExtendedChar::Wildcard => '*',
        }
    }

    /// The character that names this label in printed output.
    pub fn label(&self) -> (shown: char)
        ensures
            shown == self.glyph(),
    {
        match self {
            ExtendedChar::Char(c) => *c,
            ExtendedChar::Wildcard => '*',
        }
    }
}

impl From<char> for ExtendedChar {
    /// The label that admits the character `c` and no other.
    fn from(c: char) -> (symbol: ExtendedChar) {
        ExtendedChar::Char(c)
    }
}

impl vstd::std_specs::convert::FromSpecImpl<char> for ExtendedChar {
    open spec fn obeys_from_spec() -> bool {
        true
    }

    open spec fn from_spec(c: char) -> ExtendedChar {
        ExtendedChar::Char(c)
    }
}

} // verus!
