use rust_dfa_regex::nfa::{plus, star, times, unit, ExtendedChar, Nfa, NfaNode, NFA};
use rust_dfa_regex::trim::{live_marks, trim};

fn chars(text: &str) -> Vec<char> {
    text.chars().collect()
}

fn with_dead_ends() -> (usize, Vec<NfaNode>, Vec<((NfaNode, ExtendedChar), Vec<NfaNode>)>, Vec<NfaNode>) {
    (
        6,
        vec![NfaNode(0), NfaNode(4)],
        vec![
            ((NfaNode(0), ExtendedChar::Char('a')), vec![NfaNode(1), NfaNode(2)]),
            ((NfaNode(1), ExtendedChar::Char('b')), vec![NfaNode(3)]),
            ((NfaNode(2), ExtendedChar::Char('b')), vec![NfaNode(2)]),
            ((NfaNode(4), ExtendedChar::Wildcard), vec![NfaNode(5)]),
            ((NfaNode(5), ExtendedChar::Char('c')), vec![NfaNode(4)]),
        ],
        vec![NfaNode(3)],
    )
}

#[test]
fn new_drops_transitions_to_dead_states() {
    let (states, start, edges, finish) = with_dead_ends();
    let nfa = Nfa::new(states, start, edges, finish);
    assert_eq!(nfa.states(), 6);
    assert_eq!(nfa.start_nodes(), &vec![NfaNode(0), NfaNode(4)]);
    assert_eq!(nfa.finish_nodes(), &vec![NfaNode(3)]);
    assert_eq!(
        nfa.edges(),
        &vec![
            ((NfaNode(0), ExtendedChar::Char('a')), vec![NfaNode(1)]),
            ((NfaNode(1), ExtendedChar::Char('b')), vec![NfaNode(3)]),
        ]
    );
}

#[test]
fn live_states_reach_an_accept_state() {
    let (states, start, edges, finish) = with_dead_ends();
    let plain = NFA::new(states, start, edges, finish);
    assert_eq!(live_marks(&plain), vec![true, true, false, true, false, false]);
}

#[test]
fn accept_states_are_live_without_transitions() {
    let plain = NFA::new(3, vec![NfaNode(0)], vec![], vec![NfaNode(2), NfaNode(1)]);
    assert_eq!(live_marks(&plain), vec![false, true, true]);
}

#[test]
fn reduction_is_idempotent() {
    let (states, start, edges, finish) = with_dead_ends();
    let plain = NFA::new(states, start, edges, finish);
    let once = trim(&plain);
    let twice = trim(&once);
    assert_eq!(twice.delta(), once.delta());
    assert_eq!(twice.starting(), once.starting());
    assert_eq!(twice.finished(), once.finished());
    assert_eq!(twice.states(), once.states());
    assert_ne!(once.delta(), plain.delta());
}

#[test]
fn reducing_a_reduced_automaton_changes_nothing() {
    let (states, start, edges, finish) = with_dead_ends();
    let mut nfa = Nfa::new(states, start, edges, finish);
    let before = nfa.clone();
    nfa.reduce_in_place();
    assert_eq!(nfa.edges(), before.edges());
    assert_eq!(nfa.start_nodes(), before.start_nodes());
    assert_eq!(nfa.finish_nodes(), before.finish_nodes());
    let again = Nfa::reduce(nfa);
    assert_eq!(again.edges(), before.edges());
    assert_eq!(again.states(), 6);
}

#[test]
fn reduction_preserves_matching() {
    let (states, start, edges, finish) = with_dead_ends();
    let plain = NFA::new(states, start.clone(), edges.clone(), finish.clone());
    let reduced = Nfa::new(states, start, edges, finish);
    for word in ["", "a", "ab", "abb", "b", "xc", "ac", "abab", "aab"] {
        let w = chars(word);
        assert_eq!(plain.accepts(&w), reduced.accepts(&w), "{}", word);
        assert_eq!(plain.accepts(&w), trim(&plain).accepts(&w), "{}", word);
    }
    assert!(reduced.accepts(&chars("ab")));
}

#[test]
fn reduced_combinators_match_like_the_plain_ones() {
    let a = unit(ExtendedChar::Char('a'));
    let b = unit(ExtendedChar::Wildcard);
    let plain = star(&plus(&times(&a, &b), &b));
    let ra = Nfa::unit(ExtendedChar::Char('a'));
    let rb = Nfa::unit(ExtendedChar::Wildcard);
    let reduced = Nfa::star(&Nfa::alternate(&Nfa::concat(&ra, &rb), &rb));
    for word in ["", "a", "ab", "aba", "ba", "bb", "aab", "abab", "x", "ax", "axx"] {
        let w = chars(word);
        assert_eq!(plain.accepts(&w), reduced.accepts(&w), "{}", word);
    }
}

#[test]
fn reduction_keeps_start_states_that_lead_nowhere() {
    let nfa = Nfa::new(
        3,
        vec![NfaNode(0), NfaNode(2)],
        vec![
            ((NfaNode(0), ExtendedChar::Char('a')), vec![NfaNode(1)]),
            ((NfaNode(2), ExtendedChar::Char('a')), vec![NfaNode(2)]),
        ],
        vec![NfaNode(1)],
    );
    assert_eq!(nfa.start_nodes(), &vec![NfaNode(0), NfaNode(2)]);
    assert_eq!(nfa.states(), 3);
    assert_eq!(nfa.edges(), &vec![((NfaNode(0), ExtendedChar::Char('a')), vec![NfaNode(1)])]);
}

#[test]
fn an_automaton_without_accept_states_loses_every_transition() {
    let nfa = Nfa::new(
        2,
        vec![NfaNode(0)],
        vec![((NfaNode(0), ExtendedChar::Char('a')), vec![NfaNode(1)])],
        vec![],
    );
    assert!(nfa.edges().is_empty());
    assert!(!nfa.accepts(&chars("a")));
    assert!(!nfa.accepts(&chars("")));
}

#[test]
fn node_edges_forget_the_labels() {
    let nfa = Nfa::new(
        3,
        vec![NfaNode(0)],
        vec![
            ((NfaNode(0), ExtendedChar::Char('a')), vec![NfaNode(1), NfaNode(2)]),
            ((NfaNode(1), ExtendedChar::Char('b')), vec![NfaNode(2)]),
            ((NfaNode(0), ExtendedChar::Wildcard), vec![NfaNode(2), NfaNode(0)]),
        ],
        vec![NfaNode(2)],
    );
    assert_eq!(
        nfa.get_node_edges(),
        vec![
            (NfaNode(0), vec![NfaNode(1), NfaNode(2), NfaNode(0)]),
            (NfaNode(1), vec![NfaNode(2)]),
        ]
    );
    assert!(Nfa::empty().get_node_edges().is_empty());
}

#[test]
fn alternation_and_star_of_reduced_automata_need_no_reduction() {
    let a = Nfa::concat(&Nfa::unit('a'.into()), &Nfa::unit('b'.into()));
    let b = Nfa::unit(ExtendedChar::Wildcard);
    let plain_a =
        NFA::new(a.states(), a.start_nodes().clone(), a.edges().clone(), a.finish_nodes().clone());
    let plain_b = unit(ExtendedChar::Wildcard);
    let either = Nfa::alternate(&a, &b);
    let plain_either = plus(&plain_a, &plain_b);
    assert_eq!(either.edges(), plain_either.delta());
    assert_eq!(either.start_nodes(), plain_either.starting());
    assert_eq!(either.finish_nodes(), plain_either.finished());
    let repeated = Nfa::star(&a);
    let plain_repeated = star(&plain_a);
    assert_eq!(repeated.edges(), plain_repeated.delta());
    assert_eq!(repeated.start_nodes(), plain_repeated.starting());
    assert_eq!(repeated.finish_nodes(), plain_repeated.finished());
}
