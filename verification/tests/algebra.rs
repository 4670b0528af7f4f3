use rust_dfa_regex::nfa::{ExtendedChar, Nfa, NfaNode};

fn chars(text: &str) -> Vec<char> {
    text.chars().collect()
}

fn words() -> Vec<&'static str> {
    vec!["", "a", "b", "ab", "ba", "aa", "bb", "aab", "abab", "xyz", "xy", "xyzxyz", "abxy", "xyab"]
}

fn xyz() -> Nfa {
    let r0 = NfaNode(0);
    let r1 = NfaNode(1);
    let r2 = NfaNode(2);
    let r3 = NfaNode(3);
    Nfa::new(
        4,
        vec![r0],
        vec![
            ((r0, ExtendedChar::Char('x')), vec![r1]),
            ((r1, ExtendedChar::Char('y')), vec![r2, r3]),
            ((r2, ExtendedChar::Char('z')), vec![r0, r3]),
        ],
        vec![r3],
    )
}

fn ab() -> Nfa {
    Nfa::concat(&Nfa::unit('a'.into()), &Nfa::unit('b'.into()))
}

#[test]
fn unit_accepts_its_character_alone() {
    let a = Nfa::unit(ExtendedChar::Char('a'));
    assert!(a.accepts(&chars("a")));
    assert!(!a.accepts(&chars("")));
    assert!(!a.accepts(&chars("b")));
    assert!(!a.accepts(&chars("aa")));
    assert!(!a.accepts(&chars("ab")));
}

#[test]
fn wildcard_unit_accepts_any_one_character() {
    let any = Nfa::unit(ExtendedChar::Wildcard);
    for word in ["a", "b", "*", "\u{4e16}"] {
        assert!(any.accepts(&chars(word)), "{}", word);
    }
    assert!(!any.accepts(&chars("")));
    assert!(!any.accepts(&chars("ab")));
}

#[test]
fn literal_star_is_no_wildcard() {
    let star_char = Nfa::unit(ExtendedChar::Char('*'));
    assert!(star_char.accepts(&chars("*")));
    assert!(!star_char.accepts(&chars("a")));
}

#[test]
fn unit_has_two_states_and_one_transition() {
    let a = Nfa::unit(ExtendedChar::Char('a'));
    assert_eq!(a.states(), 2);
    assert_eq!(a.start_nodes(), &vec![NfaNode(0)]);
    assert_eq!(a.finish_nodes(), &vec![NfaNode(1)]);
    assert_eq!(a.edges(), &vec![((NfaNode(0), ExtendedChar::Char('a')), vec![NfaNode(1)])]);
}

#[test]
fn empty_accepts_only_the_empty_word() {
    let e = Nfa::empty();
    assert_eq!(e.states(), 1);
    assert_eq!(e.start_nodes(), &vec![NfaNode(0)]);
    assert_eq!(e.finish_nodes(), &vec![NfaNode(0)]);
    assert!(e.edges().is_empty());
    assert!(e.accepts(&chars("")));
    assert!(!e.accepts(&chars("a")));
    assert!(!e.accepts(&chars("ab")));
}

#[test]
fn alternation_accepts_what_either_side_accepts() {
    let left = xyz();
    let right = ab();
    let either = Nfa::alternate(&left, &right);
    for word in words() {
        let w = chars(word);
        assert_eq!(either.accepts(&w), left.accepts(&w) || right.accepts(&w), "{}", word);
    }
    assert!(either.accepts(&chars("ab")));
    assert!(either.accepts(&chars("xyz")));
    assert!(!either.accepts(&chars("abxy")));
}

#[test]
fn alternation_puts_the_second_after_the_first() {
    let either = Nfa::alternate(&Nfa::unit('a'.into()), &Nfa::unit('b'.into()));
    assert_eq!(either.states(), 4);
    assert_eq!(either.start_nodes(), &vec![NfaNode(0), NfaNode(2)]);
    assert_eq!(either.finish_nodes(), &vec![NfaNode(1), NfaNode(3)]);
    assert_eq!(
        either.edges(),
        &vec![
            ((NfaNode(0), ExtendedChar::Char('a')), vec![NfaNode(1)]),
            ((NfaNode(2), ExtendedChar::Char('b')), vec![NfaNode(3)]),
        ]
    );
}

#[test]
fn concatenation_accepts_joined_words() {
    let left = xyz();
    let right = ab();
    let both = Nfa::concat(&left, &right);
    for first in words() {
        for second in words() {
            if left.accepts(&chars(first)) && right.accepts(&chars(second)) {
                let joined = format!("{}{}", first, second);
                assert!(both.accepts(&chars(&joined)), "{}", joined);
            }
        }
    }
    assert!(both.accepts(&chars("xyab")));
    assert!(both.accepts(&chars("xyzab")));
}

#[test]
fn concatenation_accepts_only_what_splits() {
    let left = xyz();
    let right = Nfa::star(&Nfa::unit('a'.into()));
    let both = Nfa::concat(&left, &right);
    for word in ["", "a", "xy", "xya", "xyzaa", "xyzxy", "xyax", "axy", "xyzx", "xyzxyaaa"] {
        let w = chars(word);
        let splits = (0..=w.len()).any(|k| left.accepts(&w[..k].to_vec()) && right.accepts(&w[k..].to_vec()));
        assert_eq!(both.accepts(&w), splits, "{}", word);
    }
}

#[test]
fn concatenation_falls_through_an_empty_first_word() {
    let maybe_a = Nfa::star(&Nfa::unit('a'.into()));
    let b = Nfa::unit('b'.into());
    let both = Nfa::concat(&maybe_a, &b);
    assert!(both.accepts(&chars("b")));
    assert!(both.accepts(&chars("ab")));
    assert!(both.accepts(&chars("aab")));
    assert!(!both.accepts(&chars("")));
    assert!(!both.accepts(&chars("a")));
    assert!(!both.accepts(&chars("ba")));
    assert_eq!(both.start_nodes(), &vec![NfaNode(0), NfaNode(2)]);
}

#[test]
fn concatenation_with_the_empty_automaton() {
    let a = Nfa::unit('a'.into());
    let before = Nfa::concat(&Nfa::empty(), &a);
    let after = Nfa::concat(&a, &Nfa::empty());
    let twice = Nfa::concat(&Nfa::empty(), &Nfa::empty());
    for word in ["", "a", "aa", "b"] {
        let w = chars(word);
        assert_eq!(before.accepts(&w), word == "a", "{}", word);
        assert_eq!(after.accepts(&w), word == "a", "{}", word);
        assert_eq!(twice.accepts(&w), word.is_empty(), "{}", word);
    }
}

#[test]
fn concatenation_drops_what_cannot_reach_the_end() {
    let both = Nfa::concat(&Nfa::unit('a'.into()), &Nfa::unit('b'.into()));
    assert_eq!(both.states(), 4);
    assert_eq!(both.start_nodes(), &vec![NfaNode(0)]);
    assert_eq!(both.finish_nodes(), &vec![NfaNode(3)]);
    assert_eq!(
        both.edges(),
        &vec![
            ((NfaNode(0), ExtendedChar::Char('a')), vec![NfaNode(2)]),
            ((NfaNode(2), ExtendedChar::Char('b')), vec![NfaNode(3)]),
        ]
    );
}

#[test]
fn star_accepts_repetitions() {
    let piece = ab();
    let repeated = Nfa::star(&piece);
    for word in ["", "ab", "abab", "ababab"] {
        assert!(repeated.accepts(&chars(word)), "{}", word);
    }
    for word in ["a", "b", "aba", "ba", "abb", "aab"] {
        assert!(!repeated.accepts(&chars(word)), "{}", word);
    }
    assert_eq!(repeated.get_star().accepts(&chars("abab")), true);
}

#[test]
fn star_restarts_from_the_start_states() {
    let repeated = Nfa::star(&Nfa::unit('a'.into()));
    assert_eq!(repeated.states(), 2);
    assert_eq!(repeated.start_nodes(), &vec![NfaNode(0)]);
    assert_eq!(repeated.finish_nodes(), &vec![NfaNode(1), NfaNode(0)]);
    assert_eq!(
        repeated.edges(),
        &vec![((NfaNode(0), ExtendedChar::Char('a')), vec![NfaNode(1), NfaNode(0)])]
    );
}

#[test]
fn star_of_the_empty_automaton() {
    let repeated = Nfa::star(&Nfa::empty());
    assert!(repeated.accepts(&chars("")));
    assert!(!repeated.accepts(&chars("a")));
}

#[test]
fn star_of_a_start_that_is_the_only_accept_state() {
    let q = NfaNode(0);
    let r = NfaNode(1);
    let looped = Nfa::new(
        2,
        vec![q],
        vec![((q, ExtendedChar::Char('a')), vec![r]), ((r, ExtendedChar::Char('b')), vec![q])],
        vec![q],
    );
    let repeated = Nfa::star(&looped);
    for word in ["", "ab", "abab"] {
        assert!(looped.accepts(&chars(word)), "{}", word);
        assert!(repeated.accepts(&chars(word)), "{}", word);
    }
    for word in ["a", "b", "aba", "ba"] {
        assert!(!looped.accepts(&chars(word)), "{}", word);
        assert!(!repeated.accepts(&chars(word)), "{}", word);
    }
}

#[test]
fn star_of_an_automaton_that_comes_back_to_its_start() {
    let s0 = NfaNode(0);
    let s1 = NfaNode(1);
    let s2 = NfaNode(2);
    let back = Nfa::new(
        3,
        vec![s0],
        vec![
            ((s0, ExtendedChar::Char('a')), vec![s1]),
            ((s1, ExtendedChar::Char('b')), vec![s0]),
            ((s1, ExtendedChar::Char('c')), vec![s2]),
        ],
        vec![s2],
    );
    assert!(back.accepts(&chars("ac")));
    assert!(back.accepts(&chars("abac")));
    assert!(!back.accepts(&chars("ab")));
    let repeated = Nfa::star(&back);
    assert!(repeated.accepts(&chars("")));
    assert!(repeated.accepts(&chars("acac")));
    assert!(repeated.accepts(&chars("ab")));
}

#[test]
fn operators_are_the_combinators() {
    let a = Nfa::unit('a'.into());
    let b = Nfa::unit('b'.into());
    let or_refs = &a | &b;
    let or_mixed = a.clone() | &b;
    let or_mixed_back = &a | b.clone();
    let or_owned = a.clone() | b.clone();
    let and_refs = &a & &b;
    let and_mixed = a.clone() & &b;
    let and_mixed_back = &a & b.clone();
    let and_owned = a.clone() & b.clone();
    let either = Nfa::alternate(&a, &b);
    let both = Nfa::concat(&a, &b);
    for nfa in [&or_refs, &or_mixed, &or_mixed_back, &or_owned] {
        assert_eq!(nfa.edges(), either.edges());
        assert_eq!(nfa.start_nodes(), either.start_nodes());
        assert_eq!(nfa.finish_nodes(), either.finish_nodes());
        assert_eq!(nfa.states(), either.states());
    }
    for nfa in [&and_refs, &and_mixed, &and_mixed_back, &and_owned] {
        assert_eq!(nfa.edges(), both.edges());
        assert_eq!(nfa.start_nodes(), both.start_nodes());
        assert_eq!(nfa.finish_nodes(), both.finish_nodes());
        assert_eq!(nfa.states(), both.states());
    }
}

#[test]
fn combinators_leave_their_operands_alone() {
    let a = Nfa::unit('a'.into());
    let b = Nfa::unit('b'.into());
    let _ = Nfa::concat(&a, &b);
    let _ = Nfa::alternate(&a, &b);
    let _ = Nfa::star(&a);
    assert_eq!(a.edges(), Nfa::unit('a'.into()).edges());
    assert_eq!(b.edges(), Nfa::unit('b'.into()).edges());
    assert_eq!(a.finish_nodes(), &vec![NfaNode(1)]);
}

#[test]
fn labels_convert_compare_and_print() {
    let a: ExtendedChar = 'a'.into();
    assert_eq!(a, ExtendedChar::Char('a'));
    assert_eq!(ExtendedChar::from('z'), ExtendedChar::Char('z'));
    assert!(a.matches('a'));
    assert!(!a.matches('b'));
    assert!(ExtendedChar::Wildcard.matches('q'));
    assert_eq!(a.label(), 'a');
    assert_eq!(ExtendedChar::Wildcard.label(), '*');
    assert_ne!(ExtendedChar::Char('*'), ExtendedChar::Wildcard);
}
