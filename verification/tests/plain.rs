use char_stream::CharStream;
use rust_dfa_regex::nfa::{empty, plus, star, times, unit, ExtendedChar, Node, NFA};

fn chars(text: &str) -> Vec<char> {
    text.chars().collect()
}

fn xy() -> NFA {
    let r1 = Node(0);
    let r2 = Node(1);
    let r3 = Node(2);
    NFA::new(
        3,
        vec![r1],
        vec![((r1, ExtendedChar::Char('x')), vec![r2]), ((r2, ExtendedChar::Char('y')), vec![r3])],
        vec![r3],
    )
}

#[test]
fn plain_new_keeps_what_it_is_given() {
    let nfa = xy();
    assert_eq!(nfa.states(), 3);
    assert_eq!(nfa.starting(), &vec![Node(0)]);
    assert_eq!(nfa.finished(), &vec![Node(2)]);
    assert_eq!(
        nfa.delta(),
        &vec![
            ((Node(0), ExtendedChar::Char('x')), vec![Node(1)]),
            ((Node(1), ExtendedChar::Char('y')), vec![Node(2)]),
        ]
    );
}

#[test]
fn plain_new_counts_repeated_nodes_once() {
    let nfa = NFA::new(
        3,
        vec![Node(1), Node(0), Node(1)],
        vec![
            ((Node(0), ExtendedChar::Char('a')), vec![Node(1), Node(1)]),
            ((Node(1), ExtendedChar::Wildcard), vec![]),
            ((Node(0), ExtendedChar::Char('a')), vec![Node(2), Node(1)]),
            ((Node(0), ExtendedChar::Wildcard), vec![Node(0)]),
        ],
        vec![Node(2), Node(2)],
    );
    assert_eq!(nfa.starting(), &vec![Node(1), Node(0)]);
    assert_eq!(nfa.finished(), &vec![Node(2)]);
    assert_eq!(
        nfa.delta(),
        &vec![
            ((Node(0), ExtendedChar::Char('a')), vec![Node(1), Node(2)]),
            ((Node(0), ExtendedChar::Wildcard), vec![Node(0)]),
        ]
    );
}

#[test]
fn plain_new_does_not_reduce() {
    let nfa = NFA::new(
        3,
        vec![Node(0)],
        vec![((Node(0), ExtendedChar::Char('a')), vec![Node(1), Node(2)])],
        vec![Node(1)],
    );
    assert_eq!(nfa.delta(), &vec![((Node(0), ExtendedChar::Char('a')), vec![Node(1), Node(2)])]);
}

#[test]
fn consistent_tells_whether_new_may_be_called() {
    let starting = vec![Node(0)];
    let finished = vec![Node(2)];
    let delta = vec![((Node(0), ExtendedChar::Char('a')), vec![Node(2)])];
    assert!(NFA::consistent(3, &starting, &delta, &finished));
    assert!(!NFA::consistent(2, &starting, &delta, &finished));
    assert!(!NFA::consistent(3, &vec![Node(3)], &delta, &finished));
    assert!(!NFA::consistent(3, &starting, &vec![((Node(3), ExtendedChar::Wildcard), vec![])], &finished));
    assert!(!NFA::consistent(3, &starting, &delta, &vec![Node(7)]));
    assert!(NFA::consistent(0, &vec![], &vec![], &vec![]));
}

#[test]
fn plain_matching() {
    let nfa = xy();
    assert!(nfa.accepts(&chars("xy")));
    assert!(!nfa.accepts(&chars("x")));
    assert!(!nfa.accepts(&chars("xyx")));
    assert!(nfa.is_match(&mut CharStream::from("xy")));
    assert!(!nfa.is_match(&mut CharStream::from("yx")));
    assert!(nfa.is_match(&mut CharStream::from_string(String::from("xy"))));
}

#[test]
fn plain_step_by_step() {
    let nfa = xy();
    let start = nfa.start_marks();
    assert_eq!(start, vec![true, false, false]);
    assert!(!nfa.accepting(&start));
    let after_x = nfa.step(&start, 'x');
    assert_eq!(after_x, vec![false, true, false]);
    let after_xy = nfa.step(&after_x, 'y');
    assert_eq!(after_xy, vec![false, false, true]);
    assert!(nfa.accepting(&after_xy));
    let stuck = nfa.step(&after_xy, 'y');
    assert_eq!(stuck, vec![false, false, false]);
    assert_eq!(nfa.step(&stuck, 'x'), vec![false, false, false]);
    assert!(!nfa.accepting(&stuck));
}

#[test]
fn step_follows_literal_and_wildcard_transitions() {
    let nfa = NFA::new(
        4,
        vec![Node(0)],
        vec![
            ((Node(0), ExtendedChar::Char('a')), vec![Node(1)]),
            ((Node(0), ExtendedChar::Wildcard), vec![Node(2)]),
            ((Node(0), ExtendedChar::Char('b')), vec![Node(3)]),
        ],
        vec![Node(3)],
    );
    let start = nfa.start_marks();
    assert_eq!(nfa.step(&start, 'a'), vec![false, true, true, false]);
    assert_eq!(nfa.step(&start, 'b'), vec![false, false, true, true]);
    assert_eq!(nfa.step(&start, 'c'), vec![false, false, true, false]);
}

#[test]
fn plus_is_the_disjoint_union() {
    let either = plus(&xy(), &unit(ExtendedChar::Char('b')));
    assert_eq!(either.states(), 5);
    assert_eq!(either.starting(), &vec![Node(0), Node(3)]);
    assert_eq!(either.finished(), &vec![Node(2), Node(4)]);
    assert_eq!(
        either.delta(),
        &vec![
            ((Node(0), ExtendedChar::Char('x')), vec![Node(1)]),
            ((Node(1), ExtendedChar::Char('y')), vec![Node(2)]),
            ((Node(3), ExtendedChar::Char('b')), vec![Node(4)]),
        ]
    );
    for (word, expected) in [("xy", true), ("b", true), ("", false), ("xyb", false), ("x", false)] {
        assert_eq!(either.accepts(&chars(word)), expected, "{}", word);
    }
}

#[test]
fn times_chains_the_first_into_the_second() {
    let both = times(&xy(), &unit(ExtendedChar::Char('b')));
    assert_eq!(both.states(), 5);
    assert_eq!(both.starting(), &vec![Node(0)]);
    assert_eq!(both.finished(), &vec![Node(4)]);
    assert_eq!(
        both.delta(),
        &vec![
            ((Node(0), ExtendedChar::Char('x')), vec![Node(1)]),
            ((Node(1), ExtendedChar::Char('y')), vec![Node(2), Node(3)]),
            ((Node(3), ExtendedChar::Char('b')), vec![Node(4)]),
        ]
    );
    for (word, expected) in [("xyb", true), ("xy", false), ("b", false), ("", false), ("xybb", false)] {
        assert_eq!(both.accepts(&chars(word)), expected, "{}", word);
    }
}

#[test]
fn times_starts_in_the_second_when_the_first_accepts_nothing_read() {
    let both = times(&empty(), &unit(ExtendedChar::Char('b')));
    assert_eq!(both.states(), 3);
    assert_eq!(both.starting(), &vec![Node(0), Node(1)]);
    assert_eq!(both.finished(), &vec![Node(2)]);
    assert_eq!(both.delta(), &vec![((Node(1), ExtendedChar::Char('b')), vec![Node(2)])]);
    assert!(both.accepts(&chars("b")));
    assert!(!both.accepts(&chars("")));
}

#[test]
fn plain_unit_star_and_empty() {
    let a = unit(ExtendedChar::Char('a'));
    assert_eq!(a.states(), 2);
    assert_eq!(a.starting(), &vec![Node(0)]);
    assert_eq!(a.finished(), &vec![Node(1)]);
    assert_eq!(a.delta(), &vec![((Node(0), ExtendedChar::Char('a')), vec![Node(1)])]);
    let repeated = star(&a);
    assert_eq!(repeated.states(), 2);
    assert_eq!(repeated.starting(), &vec![Node(0)]);
    assert_eq!(repeated.finished(), &vec![Node(1), Node(0)]);
    assert_eq!(repeated.delta(), &vec![((Node(0), ExtendedChar::Char('a')), vec![Node(1), Node(0)])]);
    for (word, expected) in [("", true), ("a", true), ("aaa", true), ("b", false), ("ab", false)] {
        assert_eq!(repeated.accepts(&chars(word)), expected, "{}", word);
    }
    let nothing = empty();
    assert_eq!(nothing.states(), 1);
    assert_eq!(nothing.starting(), &vec![Node(0)]);
    assert_eq!(nothing.finished(), &vec![Node(0)]);
    assert!(nothing.delta().is_empty());
    assert!(nothing.accepts(&chars("")));
    assert!(!nothing.accepts(&chars("a")));
}

#[test]
fn plain_clone_holds_the_same_automaton() {
    let nfa = xy();
    let copy = nfa.clone();
    assert_eq!(copy.states(), nfa.states());
    assert_eq!(copy.starting(), nfa.starting());
    assert_eq!(copy.delta(), nfa.delta());
    assert_eq!(copy.finished(), nfa.finished());
}

#[test]
fn an_automaton_without_start_states_accepts_nothing() {
    let nfa = NFA::new(1, vec![], vec![], vec![Node(0)]);
    assert!(!nfa.accepts(&chars("")));
    assert!(!nfa.accepts(&chars("a")));
    assert!(!star(&nfa).accepts(&chars("")));
}
