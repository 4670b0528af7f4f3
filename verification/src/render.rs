//! The text of a graph description: what each line says, stated over
//! sequences of characters, and the code that writes it.

use crate::automaton::Automaton;
use crate::machine::{parts_below, table_model};
use crate::matching::{lemma_marked_update, mark_nodes, marked, no_marks};
use crate::nodes::{contains_node, node_set, nodes_below};
use crate::symbol::{ExtendedChar, NfaNode};
use crate::table::{
    edge_set, edges_below, entry_edges, lemma_edge_set_empty, lemma_edge_set_push, Transition,
};
use vstd::prelude::*;
use vstd::string::StringExecFns;

verus! {

/// The text that consists of the character `c` alone, by `char::to_string`.
#[verifier::external_body]
fn char_text(c: char) -> (text: String)
    ensures
        text@ == seq![c],
{
    c.to_string()
}

/// The decimal digit that stands for `d`.
pub open spec fn digit(d: nat) -> char {
    ((48 + d) as u8) as char
}

/// The decimal spelling of `n`, without leading zeros.
pub open spec fn decimal(n: nat) -> Seq<char>
    decreases n,
{
    if n < 10 {
        seq![digit(n)]
    } else {
        decimal(n / 10).push(digit(n % 10))
    }
}

/// The views of the texts of a list.
pub open spec fn texts(list: Seq<String>) -> Seq<Seq<char>> {
    Seq::new(list.len(), |i: int| list[i]@)
}

/// The lines one after the other, with nothing between them.
pub open spec fn joined(lines: Seq<Seq<char>>) -> Seq<char>
    decreases lines.len(),
{
    if lines.len() == 0 {
        Seq::empty()
    } else {
        joined(lines.drop_last()) + lines.last()
    }
}

/// The name of the state `u` in the cluster `label`.
pub open spec fn node_name(label: Seq<char>, u: nat) -> Seq<char> {
    label + decimal(u)
}

/// The line for one transition: source, arrow, destination, and the label's
/// glyph as the caption.
pub open spec fn edge_line(label: Seq<char>, source: nat, symbol: ExtendedChar, target: nat) -> Seq<
    char,
> {
    node_name(label, source) + "->"@ + node_name(label, target) + "[label=\""@ + seq![
        symbol.glyph(),
    ] + "\"];"@
}

/// The lines for the transitions of one table entry, in the order of its
/// destinations.
pub open spec fn entry_lines(
    label: Seq<char>,
    key: (NfaNode, ExtendedChar),
    targets: Seq<NfaNode>,
) -> Seq<Seq<char>>
    decreases targets.len(),
{
    if targets.len() == 0 {
        Seq::empty()
    } else {
        entry_lines(label, key, targets.drop_last()).push(
            edge_line(label, key.0.0 as nat, key.1, targets.last().0 as nat),
        )
    }
}

/// The lines for the transitions of a table, in the order of its entries.
pub open spec fn table_lines(label: Seq<char>, delta: Seq<Transition>) -> Seq<Seq<char>>
    decreases delta.len(),
{
    if delta.len() == 0 {
        Seq::empty()
    } else {
        table_lines(label, delta.drop_last()) + entry_lines(
            label,
            delta.last().0,
            delta.last().1@,
        )
    }
}

/// The states that are the source or the destination of a transition.
pub open spec fn touched(edges: Set<(nat, ExtendedChar, nat)>) -> Set<nat> {
    Set::new(
        |u: nat|
            exists|t: (nat, ExtendedChar, nat)| edges.contains(t) && (t.0 == u || t.2 == u),
    )
}

/// How a state is drawn: a start state red, an accept state green, one that
/// is both in the two colours.
pub open spec fn node_style(in_start: bool, in_finish: bool) -> Seq<char> {
    if in_start && in_finish {
        "style=wedged,fillcolor=\"red:green\""@
    } else if in_start {
        "color=\"red\""@
    } else if in_finish {
        "color=\"green\""@
    } else {
        Seq::empty()
    }
}

/// The line for the state `u` in the cluster `label`.
pub open spec fn node_line(label: Seq<char>, u: nat, in_start: bool, in_finish: bool) -> Seq<
    char,
> {
    node_name(label, u) + "[label=\""@ + decimal(u) + "\""@ + " "@ + node_style(
        in_start,
        in_finish,
    ) + "];"@
}

/// The lines for the states below `upto` that a transition of `a` touches, in
/// rising order.
pub open spec fn node_lines(label: Seq<char>, a: Automaton, upto: nat) -> Seq<Seq<char>>
    decreases upto,
{
    if upto == 0 {
        Seq::empty()
    } else {
        let u = (upto - 1) as nat;
        if touched(a.edges).contains(u) {
            node_lines(label, a, u).push(
                node_line(label, u, a.start.contains(u), a.accept.contains(u)),
            )
        } else {
            node_lines(label, a, u)
        }
    }
}

/// The first lines of a cluster: its opening, and for a boxed one its
/// caption and frame.
pub open spec fn cluster_head(label: Seq<char>, boxed: bool) -> Seq<Seq<char>> {
    if boxed {
        seq!["subgraph cluster_"@ + label + "{"@, "label=\""@ + label + "\";"@, "style=dotted;"@]
    } else {
        seq!["subgraph cluster_"@ + label + "{"@]
    }
}

/// The lines of one cluster: head, transitions, states, and the closing.
pub open spec fn cluster_lines(
    label: Seq<char>,
    delta: Seq<Transition>,
    a: Automaton,
    boxed: bool,
) -> Seq<Seq<char>> {
    (cluster_head(label, boxed) + table_lines(label, delta) + node_lines(label, a, a.states)).push(
        "}"@,
    )
}

/// The whole description: the opening, the lines, the direction if it runs
/// from left to right, and the closing.
pub open spec fn document(lines: Seq<Seq<char>>, horizontal: bool) -> Seq<char> {
    "digraph{"@ + joined(lines) + if horizontal {
        "rankdir=\"LR\";"@
    } else {
        Seq::empty()
    } + "}"@
}

/// One more line in a list of texts is one more line in their views.
pub proof fn lemma_texts_push(list: Seq<String>, text: String)
    ensures
        texts(list.push(text)) == texts(list).push(text@),
{
    assert(texts(list.push(text)) =~= texts(list).push(text@));
}

/// One more entry in a table touches its source, if it has a destination,
/// and its destinations.
pub proof fn lemma_touched_push(delta: Seq<Transition>, entry: Transition)
    ensures
        touched(edge_set(delta.push(entry))) == touched(edge_set(delta)) + if entry.1@.len() > 0 {
            node_set(entry.1@).insert(entry.0.0.0 as nat)
        } else {
            Set::empty()
        },
{
    let longer = delta.push(entry);
    let gained = if entry.1@.len() > 0 {
        node_set(entry.1@).insert(entry.0.0.0 as nat)
    } else {
        Set::empty()
    };
    lemma_edge_set_push(delta, entry);
    assert forall|u: nat| touched(edge_set(longer)).contains(u) implies (touched(edge_set(delta))
        + gained).contains(u) by {
        let t = choose|t: (nat, ExtendedChar, nat)|
            edge_set(longer).contains(t) && (t.0 == u || t.2 == u);
        if edge_set(delta).contains(t) {
            assert(touched(edge_set(delta)).contains(u));
        } else {
            assert(entry_edges(entry.0, entry.1@).contains(t));
            let j = choose|j: int| 0 <= j < entry.1@.len() && #[trigger] entry.1@[j].0 == t.2;
        }
    }
    assert forall|u: nat| (touched(edge_set(delta)) + gained).contains(u) implies touched(
        edge_set(longer),
    ).contains(u) by {
        if touched(edge_set(delta)).contains(u) {
            let t = choose|t: (nat, ExtendedChar, nat)|
                edge_set(delta).contains(t) && (t.0 == u || t.2 == u);
            assert(edge_set(longer).contains(t) && (t.0 == u || t.2 == u));
        } else if node_set(entry.1@).contains(u) {
            let t = (entry.0.0.0 as nat, entry.0.1, u);
            assert(entry_edges(entry.0, entry.1@).contains(t));
            assert(edge_set(longer).contains(t) && (t.0 == u || t.2 == u));
        } else {
            let r = entry.1@[0].0 as nat;
            assert(node_set(entry.1@).contains(r));
            let t = (entry.0.0.0 as nat, entry.0.1, r);
            assert(entry_edges(entry.0, entry.1@).contains(t));
            assert(edge_set(longer).contains(t) && (t.0 == u || t.2 == u));
        }
    }
    assert(touched(edge_set(longer)) =~= touched(edge_set(delta)) + gained);
}

/// The decimal spelling of `n`.
pub fn decimal_text(n: usize) -> (text: String)
    ensures
        text@ == decimal(n as nat),
    decreases n,
{
    let last = char_text((48u8 + (n % 10) as u8) as char);
    if n < 10 {
        last
    } else {
        let mut text = decimal_text(n / 10);
        text.append(last.as_str());
        proof {
            assert(decimal(n as nat / 10).push(digit(n as nat % 10)) =~= decimal(n as nat / 10)
                + seq![digit(n as nat % 10)]);
        }
        text
    }
}

/// The name of the state `u` in the cluster `label`.
pub fn node_name_text(label: &str, u: usize) -> (text: String)
    ensures
        text@ == node_name(label@, u as nat),
{
    let mut text = String::from_str(label);
    text.append(decimal_text(u).as_str());
    text
}

/// The line for one transition.
pub fn edge_line_text(label: &str, source: NfaNode, symbol: ExtendedChar, target: NfaNode) -> (text:
    String)
    ensures
        text@ == edge_line(label@, source.0 as nat, symbol, target.0 as nat),
{
    let mut text = node_name_text(label, source.0);
    text.append("->");
    text.append(node_name_text(label, target.0).as_str());
    text.append("[label=\"");
    text.append(char_text(symbol.label()).as_str());
    text.append("\"];");
    text
}

/// The lines for the transitions of a table, in the order of its entries and
/// of their destinations.
pub fn table_lines_text(label: &str, delta: &Vec<Transition>) -> (out: Vec<String>)
    ensures
        texts(out@) == table_lines(label@, delta@),
{
    let mut out: Vec<String> = Vec::new();
    let mut i: usize = 0;
    proof {
        assert(delta@.take(0) =~= Seq::<Transition>::empty());
        assert(texts(out@) =~= table_lines(label@, delta@.take(0)));
    }
    while i < delta.len()
        invariant
            i <= delta.len(),
            texts(out@) == table_lines(label@, delta@.take(i as int)),
        decreases delta.len() - i,
    {
        let key = delta[i].0;
        let ghost done = table_lines(label@, delta@.take(i as int));
        let ghost targets = delta@[i as int].1@;
        let mut k: usize = 0;
        proof {
            assert(targets.take(0) =~= Seq::<NfaNode>::empty());
            assert(done + entry_lines(label@, key, targets.take(0)) =~= done);
        }
        while k < delta[i].1.len()
            invariant
                i < delta.len(),
                k <= targets.len(),
                key == delta@[i as int].0,
                targets == delta@[i as int].1@,
                texts(out@) == done + entry_lines(label@, key, targets.take(k as int)),
            decreases targets.len() - k,
        {
            let target = delta[i].1[k];
            let line = edge_line_text(label, key.0, key.1, target);
            proof {
                lemma_texts_push(out@, line);
                assert(targets.take(k + 1).drop_last() =~= targets.take(k as int));
                assert(targets.take(k + 1).last() == target);
                assert((done + entry_lines(label@, key, targets.take(k as int))).push(line@)
                    =~= done + entry_lines(label@, key, targets.take(k + 1)));
            }
            out.push(line);
            k += 1;
        }
        proof {
            assert(targets.take(targets.len() as int) =~= targets);
            assert(delta@.take(i + 1).drop_last() =~= delta@.take(i as int));
            assert(delta@.take(i + 1).last() == delta@[i as int]);
        }
        i += 1;
    }
    proof {
        assert(delta@.take(delta@.len() as int) =~= delta@);
    }
    out
}

/// The states that a transition of the table touches, as a row of marks.
pub fn touched_marks(states: usize, delta: &Vec<Transition>) -> (marks: Vec<bool>)
    requires
        edges_below(delta@, states as nat),
    ensures
        marks@.len() == states,
        marked(marks@) == touched(edge_set(delta@)),
{
    let mut marks = no_marks(states);
    let mut i: usize = 0;
    proof {
        assert(delta@.take(0) =~= Seq::<Transition>::empty());
        lemma_edge_set_empty();
        assert(touched(edge_set(delta@.take(0))) =~= Set::<nat>::empty());
    }
    while i < delta.len()
        invariant
            i <= delta.len(),
            marks@.len() == states,
            edges_below(delta@, states as nat),
            marked(marks@) == touched(edge_set(delta@.take(i as int))),
        decreases delta.len() - i,
    {
        proof {
            assert(delta@.take(i as int).push(delta@[i as int]) =~= delta@.take(i + 1));
            lemma_touched_push(delta@.take(i as int), delta@[i as int]);
            assert(delta@[i as int].0.0.0 < states);
            assert(nodes_below(delta@[i as int].1@, states as nat));
        }
        if delta[i].1.len() > 0 {
            let ghost before = marks@;
            proof {
                lemma_marked_update(before, delta@[i as int].0.0.0 as int);
            }
            marks.set(delta[i].0.0.0, true);
            mark_nodes(&mut marks, &delta[i].1);
            proof {
                assert(marked(marks@) =~= touched(edge_set(delta@.take(i as int))) + node_set(
                    delta@[i as int].1@,
                ).insert(delta@[i as int].0.0.0 as nat));
            }
        } else {
            proof {
                assert(marked(marks@) + Set::<nat>::empty() =~= marked(marks@));
            }
        }
        i += 1;
    }
    proof {
        assert(delta@.take(delta@.len() as int) =~= delta@);
    }
    marks
}

/// The line for the state `u`.
pub fn node_line_text(label: &str, u: usize, in_start: bool, in_finish: bool) -> (text: String)
    ensures
        text@ == node_line(label@, u as nat, in_start, in_finish),
{
    let mut text = node_name_text(label, u);
    text.append("[label=\"");
    text.append(decimal_text(u).as_str());
    text.append("\"");
    text.append(" ");
    if in_start && in_finish {
        text.append("style=wedged,fillcolor=\"red:green\"");
    } else if in_start {
        text.append("color=\"red\"");
    } else if in_finish {
        text.append("color=\"green\"");
    } else {
        proof {
            assert(text@ + Seq::<char>::empty() =~= text@);
        }
    }
    text.append("];");
    text
}

/// The lines of one cluster.
pub fn cluster_text(
    states: usize,
    starting: &Vec<NfaNode>,
    delta: &Vec<Transition>,
    finished: &Vec<NfaNode>,
    label: &str,
    boxed: bool,
) -> (out: Vec<String>)
    requires
        parts_below(states, starting@, delta@, finished@),
    ensures
        texts(out@) == cluster_lines(
            label@,
            delta@,
            table_model(states, starting@, delta@, finished@),
            boxed,
        ),
{
    let ghost a = table_model(states, starting@, delta@, finished@);
    let mut out: Vec<String> = Vec::new();
    let mut opening = String::from_str("subgraph cluster_");
    opening.append(label);
    opening.append("{");
    proof {
        lemma_texts_push(out@, opening);
    }
    out.push(opening);
    if boxed {
        let mut caption = String::from_str("label=\"");
        caption.append(label);
        caption.append("\";");
        let frame = String::from_str("style=dotted;");
        proof {
            lemma_texts_push(out@, caption);
            lemma_texts_push(out@.push(caption), frame);
        }
        out.push(caption);
        out.push(frame);
    }
    proof {
        assert(texts(out@) =~= cluster_head(label@, boxed));
    }
    let edges = table_lines_text(label, delta);
    let mut i: usize = 0;
    proof {
        assert(texts(edges@).take(0) =~= Seq::<Seq<char>>::empty());
        assert(cluster_head(label@, boxed) + texts(edges@).take(0) =~= cluster_head(
            label@,
            boxed,
        ));
    }
    while i < edges.len()
        invariant
            i <= edges.len(),
            texts(out@) == cluster_head(label@, boxed) + texts(edges@).take(i as int),
        decreases edges.len() - i,
    {
        let line = edges[i].clone();
        proof {
            lemma_texts_push(out@, line);
            assert(texts(edges@).take(i as int).push(line@) =~= texts(edges@).take(i + 1));
            assert((cluster_head(label@, boxed) + texts(edges@).take(i as int)).push(line@)
                =~= cluster_head(label@, boxed) + texts(edges@).take(i + 1));
        }
        out.push(line);
        i += 1;
    }
    proof {
        assert(texts(edges@).take(edges@.len() as int) =~= texts(edges@));
    }
    let marks = touched_marks(states, delta);
    let ghost front = cluster_head(label@, boxed) + table_lines(label@, delta@);
    let mut u: usize = 0;
    proof {
        assert(front + node_lines(label@, a, 0) =~= front);
    }
    while u < states
        invariant
            u <= states,
            marks@.len() == states,
            marked(marks@) == touched(a.edges),
            a == table_model(states, starting@, delta@, finished@),
            texts(out@) == front + node_lines(label@, a, u as nat),
        decreases states - u,
    {
        proof {
            assert(marks@[u as int] == marked(marks@).contains(u as nat));
        }
        if marks[u] {
            let in_start = contains_node(starting, NfaNode(u));
            let in_finish = contains_node(finished, NfaNode(u));
            let line = node_line_text(label, u, in_start, in_finish);
            proof {
                lemma_texts_push(out@, line);
                assert((front + node_lines(label@, a, u as nat)).push(line@) =~= front
                    + node_lines(label@, a, (u + 1) as nat));
            }
            out.push(line);
        }
        u += 1;
    }
    let closing = String::from_str("}");
    proof {
        lemma_texts_push(out@, closing);
    }
    out.push(closing);
    out
}

/// The texts one after the other, after `opening`.
pub fn join_after(opening: &str, lines: &Vec<String>) -> (text: String)
    ensures
        text@ == opening@ + joined(texts(lines@)),
{
    let mut text = String::from_str(opening);
    let mut i: usize = 0;
    proof {
        assert(texts(lines@).take(0) =~= Seq::<Seq<char>>::empty());
        assert(opening@ + joined(texts(lines@).take(0)) =~= opening@);
    }
    while i < lines.len()
        invariant
            i <= lines.len(),
            text@ == opening@ + joined(texts(lines@).take(i as int)),
        decreases lines.len() - i,
    {
        proof {
            let upto = texts(lines@).take(i + 1);
            assert(upto.drop_last() =~= texts(lines@).take(i as int));
            assert(upto.last() == lines@[i as int]@);
            assert(opening@ + joined(upto) =~= opening@ + joined(texts(lines@).take(i as int))
                + lines@[i as int]@);
        }
        text.append(lines[i].as_str());
        i += 1;
    }
    proof {
        assert(texts(lines@).take(lines@.len() as int) =~= texts(lines@));
    }
    text
}

} // verus!
