use rust_dfa_regex::nfa::{unit, ExtendedChar, Nfa, NfaExporter, NfaNode, NFA};
use rust_dfa_regex::render::{decimal_text, edge_line_text, node_line_text, node_name_text};

fn both_ways() -> Nfa {
    Nfa::new(
        12,
        vec![NfaNode(0), NfaNode(11)],
        vec![
            ((NfaNode(0), ExtendedChar::Char('a')), vec![NfaNode(11), NfaNode(3)]),
            ((NfaNode(3), ExtendedChar::Wildcard), vec![NfaNode(11)]),
        ],
        vec![NfaNode(11)],
    )
}

#[test]
fn numbers_are_written_in_decimal() {
    assert_eq!(decimal_text(0), "0");
    assert_eq!(decimal_text(7), "7");
    assert_eq!(decimal_text(10), "10");
    assert_eq!(decimal_text(105), "105");
    assert_eq!(decimal_text(9990), "9990");
    assert_eq!(decimal_text(usize::MAX), usize::MAX.to_string());
}

#[test]
fn names_and_transition_lines() {
    assert_eq!(node_name_text("nfa", 12), "nfa12");
    assert_eq!(
        edge_line_text("q", NfaNode(1), ExtendedChar::Char('x'), NfaNode(20)),
        "q1->q20[label=\"x\"];"
    );
    assert_eq!(
        edge_line_text("", NfaNode(0), ExtendedChar::Wildcard, NfaNode(0)),
        "0->0[label=\"*\"];"
    );
}

#[test]
fn one_automaton_on_its_own() {
    let text = NfaExporter::dumps_nfa(&Nfa::unit(ExtendedChar::Char('a')));
    assert_eq!(
        text,
        "digraph{subgraph cluster_{0->1[label=\"a\"];0[label=\"0\" color=\"red\"];\
         1[label=\"1\" color=\"green\"];}rankdir=\"LR\";}"
    );
}

#[test]
fn boxed_cluster_with_every_kind_of_state() {
    let mut exporter = NfaExporter::new();
    exporter.add_nfa_boxed(&both_ways(), "n");
    assert_eq!(
        exporter.dumps(),
        "digraph{subgraph cluster_n{label=\"n\";style=dotted;\
         n0->n11[label=\"a\"];n0->n3[label=\"a\"];n3->n11[label=\"*\"];\
         n0[label=\"0\" color=\"red\"];n3[label=\"3\" ];\
         n11[label=\"11\" style=wedged,fillcolor=\"red:green\"];}rankdir=\"LR\";}"
    );
}

#[test]
fn unboxed_cluster_has_no_caption() {
    let mut exporter = NfaExporter::new();
    exporter.add_nfa_unboxed(&both_ways(), "n");
    assert_eq!(
        exporter.dumps(),
        "digraph{subgraph cluster_n{\
         n0->n11[label=\"a\"];n0->n3[label=\"a\"];n3->n11[label=\"*\"];\
         n0[label=\"0\" color=\"red\"];n3[label=\"3\" ];\
         n11[label=\"11\" style=wedged,fillcolor=\"red:green\"];}rankdir=\"LR\";}"
    );
}

#[test]
fn states_without_transitions_are_not_drawn() {
    let text = NfaExporter::dumps_nfa(&Nfa::empty());
    assert_eq!(text, "digraph{subgraph cluster_{}rankdir=\"LR\";}");
}

#[test]
fn direction_clear_and_reuse() {
    let a = Nfa::unit(ExtendedChar::Char('a'));
    let mut exporter = NfaExporter::new();
    assert_eq!(exporter.dumps(), "digraph{rankdir=\"LR\";}");
    exporter.set_vertical();
    assert_eq!(exporter.dumps(), "digraph{}");
    exporter.add_nfa_unboxed(&a, "a");
    exporter.add_nfa_boxed(&a, "b");
    exporter.clear();
    assert_eq!(exporter.dumps(), "digraph{}");
    exporter.add_nfa_unboxed(&a, "a");
    exporter.add_nfa_unboxed(&a, "b");
    exporter.set_horizontal();
    let both = exporter.dumps();
    assert_eq!(
        both,
        "digraph{subgraph cluster_a{a0->a1[label=\"a\"];a0[label=\"0\" color=\"red\"];\
         a1[label=\"1\" color=\"green\"];}\
         subgraph cluster_b{b0->b1[label=\"a\"];b0[label=\"0\" color=\"red\"];\
         b1[label=\"1\" color=\"green\"];}rankdir=\"LR\";}"
    );
    assert_eq!(exporter.dumps(), "digraph{rankdir=\"LR\";}");
}

#[test]
fn default_exporter_runs_from_top_to_bottom() {
    let mut exporter = NfaExporter::default();
    assert_eq!(exporter.dumps(), "digraph{}");
}

#[test]
fn plain_automaton_on_its_own() {
    let nfa = NFA::new(
        3,
        vec![NfaNode(0)],
        vec![
            ((NfaNode(0), ExtendedChar::Char('x')), vec![NfaNode(1)]),
            ((NfaNode(1), ExtendedChar::Char('y')), vec![NfaNode(2), NfaNode(0)]),
        ],
        vec![NfaNode(2)],
    );
    assert_eq!(
        nfa.dumps(),
        "digraph{rankdir=\"LR\";0->1[label=\"x\"];1->2[label=\"y\"];1->0[label=\"y\"];}"
    );
    assert_eq!(unit(ExtendedChar::Wildcard).dumps(), "digraph{rankdir=\"LR\";0->1[label=\"*\"];}");
}

#[test]
fn plain_automaton_as_a_cluster() {
    let nfa = NFA::new(
        11,
        vec![NfaNode(0)],
        vec![((NfaNode(10), ExtendedChar::Char('y')), vec![NfaNode(2)])],
        vec![NfaNode(2)],
    );
    assert_eq!(
        nfa.dumps_boxed("nfa1"),
        "subgraph cluster_nfa1 {label=\"nfa1\";style=dotted;nfa110->nfa12[label=\"y\"];\
         nfa12 [label=\"2\"]nfa110 [label=\"10\"]};\n"
    );
}

#[test]
fn state_lines() {
    assert_eq!(node_line_text("n", 4, false, false), "n4[label=\"4\" ];");
    assert_eq!(node_line_text("n", 4, true, false), "n4[label=\"4\" color=\"red\"];");
    assert_eq!(node_line_text("n", 4, false, true), "n4[label=\"4\" color=\"green\"];");
    assert_eq!(
        node_line_text("", 40, true, true),
        "40[label=\"40\" style=wedged,fillcolor=\"red:green\"];"
    );
}
