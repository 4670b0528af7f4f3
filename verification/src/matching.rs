//! Subset simulation: the set of active states as a row of marks, one step
//! for each character, and the test for an accept state at the end.

use crate::automaton::{lemma_run_push, Automaton};
use crate::machine::NFA;
use crate::nodes::{lemma_node_set_empty, lemma_node_set_push, node_set, nodes_below};
use crate::stream::read_to_end;
use crate::symbol::{ExtendedChar, NfaNode};
use crate::table::{edge_set, edges_below, entry_edges, Transition};
use char_stream::CharStream;
use vstd::prelude::*;

verus! {

/// The set of the positions of `marks` that are marked.
pub open spec fn marked(marks: Seq<bool>) -> Set<nat> {
    Set::new(|q: nat| q < marks.len() && marks[q as int])
}

/// Whether reading `c` with the states `active` takes the entry `entry` to
/// the state `r`.
pub open spec fn fires(entry: Transition, active: Set<nat>, c: char, r: nat) -> bool {
    &&& active.contains(entry.0.0.0 as nat)
    &&& entry.0.1.admits(c)
    &&& node_set(entry.1@).contains(r)
}

/// The states that the entries of `delta` lead to on reading `c` with the
/// states `active`.
pub open spec fn fired(delta: Seq<Transition>, active: Set<nat>, c: char) -> Set<nat> {
    Set::new(
        |r: nat| exists|i: int| 0 <= i < delta.len() && fires(#[trigger] delta[i], active, c, r),
    )
}

/// No mark is no state.
pub proof fn lemma_marked_none(marks: Seq<bool>)
    requires
        forall|i: int| 0 <= i < marks.len() ==> !marks[i],
    ensures
        marked(marks) == Set::<nat>::empty(),
{
    assert(marked(marks) =~= Set::<nat>::empty());
}

/// One more mark is one more state.
pub proof fn lemma_marked_update(marks: Seq<bool>, at: int)
    requires
        0 <= at < marks.len(),
    ensures
        marked(marks.update(at, true)) == marked(marks).insert(at as nat),
{
    assert(marked(marks.update(at, true)) =~= marked(marks).insert(at as nat));
}

/// What the entries of a table lead to is one step of the automaton that the
/// table describes.
pub proof fn lemma_fired_is_step(a: Automaton, delta: Seq<Transition>, active: Set<nat>, c: char)
    requires
        a.edges == edge_set(delta),
    ensures
        fired(delta, active, c) == a.step(active, c),
{
    assert forall|r: nat| fired(delta, active, c).contains(r) implies a.step(active, c).contains(
        r,
    ) by {
        let i = choose|i: int| 0 <= i < delta.len() && fires(#[trigger] delta[i], active, c, r);
        let q = delta[i].0.0.0 as nat;
        let l = delta[i].0.1;
        assert(entry_edges(delta[i].0, delta[i].1@).contains((q, l, r)));
        assert(a.edges.contains((q, l, r)));
        assert(active.contains(q) && a.moves(q, c, r));
    }
    assert forall|r: nat| a.step(active, c).contains(r) implies fired(delta, active, c).contains(
        r,
    ) by {
        let q = choose|q: nat| active.contains(q) && a.moves(q, c, r);
        let l = if a.edges.contains((q, ExtendedChar::Char(c), r)) {
            ExtendedChar::Char(c)
        } else {
            ExtendedChar::Wildcard
        };
        let t = (q, l, r);
        assert(edge_set(delta).contains(t));
        let i = choose|i: int|
            0 <= i < delta.len() && #[trigger] entry_edges(delta[i].0, delta[i].1@).contains(t);
        assert(fires(delta[i], active, c, r));
    }
    assert(fired(delta, active, c) =~= a.step(active, c));
}

/// One more entry in the table adds what that entry leads to.
pub proof fn lemma_fired_push(delta: Seq<Transition>, entry: Transition, active: Set<nat>, c: char)
    ensures
        fired(delta.push(entry), active, c) == fired(delta, active, c) + if active.contains(
            entry.0.0.0 as nat,
        ) && entry.0.1.admits(c) {
            node_set(entry.1@)
        } else {
            Set::empty()
        },
{
    let longer = delta.push(entry);
    let gained = if active.contains(entry.0.0.0 as nat) && entry.0.1.admits(c) {
        node_set(entry.1@)
    } else {
        Set::empty()
    };
    assert forall|r: nat| fired(longer, active, c).contains(r) implies (fired(delta, active, c)
        + gained).contains(r) by {
        let i = choose|i: int| 0 <= i < longer.len() && fires(#[trigger] longer[i], active, c, r);
        if i < delta.len() {
            assert(fires(delta[i], active, c, r));
        }
    }
    assert forall|r: nat| (fired(delta, active, c) + gained).contains(r) implies fired(
        longer,
        active,
        c,
    ).contains(r) by {
        if fired(delta, active, c).contains(r) {
            let i = choose|i: int| 0 <= i < delta.len() && fires(#[trigger] delta[i], active, c, r);
            assert(fires(longer[i], active, c, r));
        } else {
            assert(fires(longer[delta.len() as int], active, c, r));
        }
    }
    assert(fired(longer, active, c) =~= fired(delta, active, c) + gained);
}

/// A row of `count` marks, none of them set.
pub fn no_marks(count: usize) -> (marks: Vec<bool>)
    ensures
        marks@.len() == count,
        marked(marks@) == Set::<nat>::empty(),
{
    let mut marks: Vec<bool> = Vec::new();
    let mut i: usize = 0;
    while i < count
        invariant
            i <= count,
            marks@.len() == i,
            forall|j: int| 0 <= j < i ==> !marks@[j],
        decreases count - i,
    {
        marks.push(false);
        i += 1;
    }
    proof {
        lemma_marked_none(marks@);
    }
    marks
}

/// Marks every node of the list.
pub fn mark_nodes(marks: &mut Vec<bool>, nodes: &Vec<NfaNode>)
    requires
        nodes_below(nodes@, old(marks)@.len()),
    ensures
        final(marks)@.len() == old(marks)@.len(),
        marked(final(marks)@) == marked(old(marks)@) + node_set(nodes@),
{
    let mut k: usize = 0;
    proof {
        assert(nodes@.take(0) =~= Seq::<NfaNode>::empty());
        lemma_node_set_empty();
        assert(marked(marks@) + Set::<nat>::empty() =~= marked(marks@));
    }
    while k < nodes.len()
        invariant
            k <= nodes.len(),
            marks@.len() == old(marks)@.len(),
            nodes_below(nodes@, marks@.len()),
            marked(marks@) == marked(old(marks)@) + node_set(nodes@.take(k as int)),
        decreases nodes.len() - k,
    {
        let node = nodes[k];
        let ghost before = marks@;
        proof {
            assert(nodes@[k as int].0 < marks@.len());
            assert(nodes@.take(k as int).push(node) =~= nodes@.take(k + 1));
            lemma_node_set_push(nodes@.take(k as int), node);
            lemma_marked_update(before, node.0 as int);
        }
        marks.set(node.0, true);
        proof {
            assert(marked(marks@) =~= marked(old(marks)@) + node_set(nodes@.take(k + 1)));
        }
        k += 1;
    }
    proof {
        assert(nodes@.take(nodes@.len() as int) =~= nodes@);
    }
}

/// Whether a node of the list is marked.
pub fn any_marked(marks: &Vec<bool>, nodes: &Vec<NfaNode>) -> (found: bool)
    requires
        nodes_below(nodes@, marks@.len()),
    ensures
        found == exists|q: nat| marked(marks@).contains(q) && node_set(nodes@).contains(q),
{
    let mut k: usize = 0;
    while k < nodes.len()
        invariant
            k <= nodes.len(),
            nodes_below(nodes@, marks@.len()),
            forall|j: int| 0 <= j < k ==> !marks@[(#[trigger] nodes@[j]).0 as int],
        decreases nodes.len() - k,
    {
        proof {
            assert(nodes@[k as int].0 < marks@.len());
        }
        if marks[nodes[k].0] {
            proof {
                let q = nodes@[k as int].0 as nat;
                assert(marked(marks@).contains(q) && node_set(nodes@).contains(q));
            }
            return true;
        }
        k += 1;
    }
    proof {
        if exists|q: nat| marked(marks@).contains(q) && node_set(nodes@).contains(q) {
            let q = choose|q: nat| marked(marks@).contains(q) && node_set(nodes@).contains(q);
            let j = choose|j: int| 0 <= j < nodes@.len() && #[trigger] nodes@[j].0 == q;
            assert(!marks@[nodes@[j].0 as int]);
        }
    }
    false
}

impl NFA {
    /// The start states as a row of marks.
    pub fn start_marks(&self) -> (marks: Vec<bool>)
        requires
            self.wf(),
        ensures
            marks@.len() == self.state_count(),
            marked(marks@) == self@.start,
    {
        let mut marks = no_marks(self.states());
        mark_nodes(&mut marks, self.starting());
        proof {
            assert(marked(marks@) =~= self@.start);
        }
        marks
    }

    /// The states that are active after reading `c` with the states `active`:
    /// the destinations of every transition from an active state that is
    /// labelled with `c` or with the wildcard.
    pub fn step(&self, active: &Vec<bool>, c: char) -> (next: Vec<bool>)
        requires
            self.wf(),
            active@.len() == self.state_count(),
        ensures
            next@.len() == self.state_count(),
            marked(next@) == self@.step(marked(active@), c),
    {
        let delta = self.delta();
        let mut next = no_marks(self.states());
        let mut i: usize = 0;
        let ghost from = marked(active@);
        proof {
            assert(delta@.take(0) =~= Seq::<Transition>::empty());
            assert(fired(delta@.take(0), from, c) =~= Set::<nat>::empty());
        }
        while i < delta.len()
            invariant
                i <= delta.len(),
                delta@ == self.table(),
                edges_below(delta@, self.state_count() as nat),
                active@.len() == self.state_count(),
                next@.len() == self.state_count(),
                from == marked(active@),
                marked(next@) == fired(delta@.take(i as int), from, c),
            decreases delta.len() - i,
        {
            proof {
                assert(delta@.take(i as int).push(delta@[i as int]) =~= delta@.take(i + 1));
                lemma_fired_push(delta@.take(i as int), delta@[i as int], from, c);
                assert(delta@[i as int].0.0.0 < self.state_count());
                assert(nodes_below(delta@[i as int].1@, self.state_count() as nat));
            }
            if active[delta[i].0.0.0] && delta[i].0.1.matches(c) {
                mark_nodes(&mut next, &delta[i].1);
            } else {
                proof {
                    assert(marked(next@) + Set::<nat>::empty() =~= marked(next@));
                }
            }
            i += 1;
        }
        proof {
            assert(delta@.take(delta@.len() as int) =~= delta@);
            lemma_fired_is_step(self@, delta@, from, c);
        }
        next
    }

    /// Whether an accept state is among the states `active`.
    pub fn accepting(&self, active: &Vec<bool>) -> (found: bool)
        requires
            self.wf(),
            active@.len() == self.state_count(),
        ensures
            found == self@.accepting(marked(active@)),
    {
        any_marked(active, self.finished())
    }

    /// Whether the automaton accepts `input`: starting from the start states
    /// and stepping once for each character, some accept state is active at
    /// the end.
    pub fn accepts(&self, input: &Vec<char>) -> (matched: bool)
        requires
            self.wf(),
        ensures
            matched == self@.accepts(input@),
    {
        let mut active = self.start_marks();
        let mut i: usize = 0;
        proof {
            assert(input@.take(0) =~= Seq::<char>::empty());
        }
        while i < input.len()
            invariant
                i <= input.len(),
                self.wf(),
                active@.len() == self.state_count(),
                marked(active@) == self@.run(self@.start, input@.take(i as int)),
            decreases input.len() - i,
        {
            let c = input[i];
            proof {
                assert(input@.take(i as int).push(c) =~= input@.take(i + 1));
                lemma_run_push(self@, self@.start, input@.take(i as int), c);
            }
            active = self.step(&active, c);
            i += 1;
        }
        proof {
            assert(input@.take(input@.len() as int) =~= input@);
        }
        self.accepting(&active)
    }

    /// Whether the automaton accepts the characters that are left in the
    /// stream. The stream is read to its end, so it has to be finite; what it
    /// yields decides the answer as `accepts` says.
    pub fn is_match(&self, stream: &mut CharStream) -> (matched: bool)
        requires
            self.wf(),
        ensures
            exists|input: Seq<char>| matched == #[trigger] self@.accepts(input),
    {
        let input = read_to_end(stream);
        self.accepts(&input)
    }
}

} // verus!
