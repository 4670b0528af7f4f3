//! Graph descriptions of automata: an exporter that collects clusters, and
//! the plain automaton's own descriptions.

use crate::automaton::Automaton;
use crate::machine::NFA;
use crate::matching::marked;
use crate::nfa::Nfa;
use crate::render::{
    cluster_lines, cluster_text, decimal, decimal_text, document, join_after, joined,
    lemma_texts_push, node_name, node_name_text, table_lines, table_lines_text, texts,
    touched, touched_marks,
};
use crate::table::Transition;
use vstd::prelude::*;
use vstd::string::StringExecFns;

verus! {

/// Collects the clusters of a graph description and writes them out as one
/// text.
pub struct NfaExporter {
    args: Vec<String>,
    horizontal: bool,
}

impl NfaExporter {
    /// The lines collected so far.
    pub closed spec fn lines(&self) -> Seq<Seq<char>> {
        texts(self.args@)
    }

    /// Whether the graph runs from left to right.
    pub closed spec fn is_horizontal(&self) -> bool {
        self.horizontal
    }

    /// An exporter without lines, for a graph from left to right.
    pub fn new() -> (exporter: Self)
        ensures
            exporter.lines() == Seq::<Seq<char>>::empty(),
            exporter.is_horizontal(),
    {
        let exporter = NfaExporter { args: Vec::new(), horizontal: true };
        proof {
            assert(exporter.lines() =~= Seq::<Seq<char>>::empty());
        }
        exporter
    }

    /// Drops the lines collected so far.
    pub fn clear(&mut self)
        ensures
            final(self).lines() == Seq::<Seq<char>>::empty(),
            final(self).is_horizontal() == old(self).is_horizontal(),
    {
        self.args = Vec::new();
        proof {
            assert(self.lines() =~= Seq::<Seq<char>>::empty());
        }
    }

    /// Lets the graph run from left to right.
    pub fn set_horizontal(&mut self)
        ensures
            final(self).is_horizontal(),
            final(self).lines() == old(self).lines(),
    {
        self.horizontal = true;
    }

    /// Lets the graph run from top to bottom.
    pub fn set_vertical(&mut self)
        ensures
            !final(self).is_horizontal(),
            final(self).lines() == old(self).lines(),
    {
        self.horizontal = false;
    }

    /// Adds the cluster of `nfa` under the name `label`.
    fn add_nfa_impl(&mut self, nfa: &Nfa, label: &str, boxed: bool)
        requires
            nfa.wf(),
        ensures
            final(self).lines() == old(self).lines() + cluster_lines(
                label@,
                nfa.plain().table(),
                nfa@,
                boxed,
            ),
            final(self).is_horizontal() == old(self).is_horizontal(),
    {
        let cluster = cluster_text(
            nfa.states(),
            nfa.start_nodes(),
            nfa.edges(),
            nfa.finish_nodes(),
            label,
            boxed,
        );
        let mut i: usize = 0;
        proof {
            assert(texts(cluster@).take(0) =~= Seq::<Seq<char>>::empty());
            assert(old(self).lines() + texts(cluster@).take(0) =~= old(self).lines());
        }
        while i < cluster.len()
            invariant
                i <= cluster.len(),
                self.horizontal == old(self).horizontal,
                texts(self.args@) == texts(old(self).args@) + texts(cluster@).take(i as int),
            decreases cluster.len() - i,
        {
            let line = cluster[i].clone();
            proof {
                lemma_texts_push(self.args@, line);
                assert((texts(old(self).args@) + texts(cluster@).take(i as int)).push(line@)
                    =~= texts(old(self).args@) + texts(cluster@).take(i + 1));
            }
            self.args.push(line);
            i += 1;
        }
        proof {
            assert(texts(cluster@).take(cluster@.len() as int) =~= texts(cluster@));
        }
    }

    /// Adds the cluster of `nfa`, with its name as caption and a dotted
    /// frame. Each automaton added needs a name of its own.
    pub fn add_nfa_boxed(&mut self, nfa: &Nfa, label: &str)
        requires
            nfa.wf(),
        ensures
            final(self).lines() == old(self).lines() + cluster_lines(
                label@,
                nfa.plain().table(),
                nfa@,
                true,
            ),
            final(self).is_horizontal() == old(self).is_horizontal(),
    {
        self.add_nfa_impl(nfa, label, true)
    }

    /// Adds the cluster of `nfa` without caption and frame. Each automaton
    /// added needs a name of its own.
    pub fn add_nfa_unboxed(&mut self, nfa: &Nfa, label: &str)
        requires
            nfa.wf(),
        ensures
            final(self).lines() == old(self).lines() + cluster_lines(
                label@,
                nfa.plain().table(),
                nfa@,
                false,
            ),
            final(self).is_horizontal() == old(self).is_horizontal(),
    {
        self.add_nfa_impl(nfa, label, false)
    }

    /// The description of the one automaton `nfa`, from left to right.
    pub fn dumps_nfa(nfa: &Nfa) -> (text: String)
        requires
            nfa.wf(),
        ensures
            text@ == document(cluster_lines(""@, nfa.plain().table(), nfa@, false), true),
    {
        let mut exporter = Self::new();
        exporter.add_nfa_unboxed(nfa, "");
        proof {
            assert(exporter.lines() =~= cluster_lines(""@, nfa.plain().table(), nfa@, false));
        }
        exporter.dumps()
    }

    /// The description of all that was collected. The exporter is left
    /// without lines.
    pub fn dumps(&mut self) -> (text: String)
        ensures
            text@ == document(old(self).lines(), old(self).is_horizontal()),
            final(self).lines() == Seq::<Seq<char>>::empty(),
            final(self).is_horizontal() == old(self).is_horizontal(),
    {
        let mut text = join_after("digraph{", &self.args);
        if self.horizontal {
            text.append("rankdir=\"LR\";");
        } else {
            proof {
                assert(text@ + Seq::<char>::empty() =~= text@);
            }
        }
        text.append("}");
        self.args = Vec::new();
        proof {
            assert(self.lines() =~= Seq::<Seq<char>>::empty());
        }
        text
    }
}

impl Default for NfaExporter {
    /// An exporter without lines, for a graph from top to bottom.
    fn default() -> (exporter: Self)
        ensures
            exporter.lines() == Seq::<Seq<char>>::empty(),
            !exporter.is_horizontal(),
    {
        let exporter = NfaExporter { args: Vec::new(), horizontal: false };
        proof {
            assert(exporter.lines() =~= Seq::<Seq<char>>::empty());
        }
        exporter
    }
}

/// The line of the state `u` in a boxed description of a plain automaton.
pub open spec fn plain_node_line(label: Seq<char>, u: nat) -> Seq<char> {
    node_name(label, u) + " [label=\""@ + decimal(u) + "\"]"@
}

/// The lines for the states below `upto` that a transition of `a` touches, in
/// rising order.
pub open spec fn plain_node_lines(label: Seq<char>, a: Automaton, upto: nat) -> Seq<Seq<char>>
    decreases upto,
{
    if upto == 0 {
        Seq::empty()
    } else {
        let u = (upto - 1) as nat;
        if touched(a.edges).contains(u) {
            plain_node_lines(label, a, u).push(plain_node_line(label, u))
        } else {
            plain_node_lines(label, a, u)
        }
    }
}

/// The description of a plain automaton on its own: its transitions, from
/// left to right.
pub open spec fn plain_document(delta: Seq<Transition>) -> Seq<char> {
    "digraph{rankdir=\"LR\";"@ + joined(table_lines(""@, delta)) + "}"@
}

/// The description of a plain automaton as a cluster named `label`: caption,
/// dotted frame, transitions and states.
pub open spec fn plain_cluster(label: Seq<char>, delta: Seq<Transition>, a: Automaton) -> Seq<
    char,
> {
    "subgraph cluster_"@ + label + " {"@ + "label=\""@ + label + "\";"@ + "style=dotted;"@
        + joined(table_lines(label, delta) + plain_node_lines(label, a, a.states)) + "};\n"@
}

/// The joined text of two lists of lines is the joined texts one after the
/// other.
pub proof fn lemma_joined_concat(first: Seq<Seq<char>>, second: Seq<Seq<char>>)
    ensures
        joined(first + second) == joined(first) + joined(second),
    decreases second.len(),
{
    if second.len() == 0 {
        assert(first + second =~= first);
        assert(joined(first) + joined(second) =~= joined(first));
    } else {
        lemma_joined_concat(first, second.drop_last());
        assert((first + second).drop_last() =~= first + second.drop_last());
        assert((first + second).last() == second.last());
        assert(joined(first + second) =~= joined(first) + joined(second));
    }
}

impl NFA {
    /// The description of the automaton on its own: its transitions, from
    /// left to right.
    pub fn dumps(&self) -> (text: String)
        ensures
            text@ == plain_document(self.table()),
    {
        let lines = table_lines_text("", self.delta());
        let mut text = join_after("digraph{rankdir=\"LR\";", &lines);
        text.append("}");
        text
    }

    /// The description of the automaton as a cluster named `label`, with its
    /// name as caption and a dotted frame, for use inside a larger
    /// description.
    pub fn dumps_boxed(&self, label: &str) -> (text: String)
        requires
            self.wf(),
        ensures
            text@ == plain_cluster(label@, self.table(), self@),
    {
        let mut text = String::from_str("subgraph cluster_");
        text.append(label);
        text.append(" {");
        text.append("label=\"");
        text.append(label);
        text.append("\";");
        text.append("style=dotted;");
        let ghost head = text@;
        let delta = self.delta();
        let lines = table_lines_text(label, delta);
        let ghost a = self@;
        let states = self.states();
        let mut i: usize = 0;
        proof {
            assert(texts(lines@).take(0) =~= Seq::<Seq<char>>::empty());
            assert(head + joined(texts(lines@).take(0)) =~= head);
        }
        while i < lines.len()
            invariant
                i <= lines.len(),
                text@ == head + joined(texts(lines@).take(i as int)),
            decreases lines.len() - i,
        {
            proof {
                let upto = texts(lines@).take(i + 1);
                assert(upto.drop_last() =~= texts(lines@).take(i as int));
                assert(upto.last() == lines@[i as int]@);
                assert(head + joined(upto) =~= head + joined(texts(lines@).take(i as int))
                    + lines@[i as int]@);
            }
            text.append(lines[i].as_str());
            i += 1;
        }
        proof {
            assert(texts(lines@).take(lines@.len() as int) =~= texts(lines@));
        }
        let marks = touched_marks(states, delta);
        let ghost front = table_lines(label@, self.table());
        let mut u: usize = 0;
        proof {
            assert(front + plain_node_lines(label@, a, 0) =~= front);
        }
        while u < states
            invariant
                u <= states,
                states == a.states,
                marks@.len() == states,
                marked(marks@) == touched(a.edges),
                text@ == head + joined(front + plain_node_lines(label@, a, u as nat)),
            decreases states - u,
        {
            proof {
                assert(marks@[u as int] == marked(marks@).contains(u as nat));
            }
            if marks[u] {
                let name = node_name_text(label, u);
                let number = decimal_text(u);
                let ghost before = front + plain_node_lines(label@, a, u as nat);
                proof {
                    let line = plain_node_line(label@, u as nat);
                    assert(front + plain_node_lines(label@, a, (u + 1) as nat) =~= before.push(
                        line,
                    ));
                    assert(before.push(line).drop_last() =~= before);
                    assert(head + joined(before.push(line)) =~= head + joined(before)
                        + name@ + " [label=\""@ + number@ + "\"]"@);
                }
                text.append(name.as_str());
                text.append(" [label=\"");
                text.append(number.as_str());
                text.append("\"]");
            }
            u += 1;
        }
        text.append("};\n");
        text
    }
}

} // verus!
