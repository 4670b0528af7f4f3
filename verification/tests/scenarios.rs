use char_stream::CharStream;
use rust_dfa_regex::nfa::{ExtendedChar, Nfa, NfaNode};

fn chars(text: &str) -> Vec<char> {
    text.chars().collect()
}

fn matches(nfa: &Nfa, text: &str) -> bool {
    let by_chars = nfa.accepts(&chars(text));
    let by_stream = nfa.is_match(&mut CharStream::from(text));
    assert_eq!(by_chars, by_stream, "{:?}", text);
    by_chars
}

fn hand_built() -> Nfa {
    let r0 = NfaNode(0);
    let r1 = NfaNode(1);
    let r2 = NfaNode(2);
    let r3 = NfaNode(3);
    Nfa::new(
        4,
        vec![r0],
        vec![
            ((r0, ExtendedChar::Char('x')), vec![r1]),
            ((r1, ExtendedChar::Char('y')), vec![r2, r3]),
            ((r2, ExtendedChar::Char('z')), vec![r0, r3]),
        ],
        vec![r3],
    )
}

#[test]
fn hand_built_table_accepts_its_words() {
    let nfa = hand_built();
    assert!(matches(&nfa, "xyz"));
    assert!(matches(&nfa, "xyzxyz"));
    assert!(matches(&nfa, "xy"));
    assert!(matches(&nfa, "xyzxy"));
}

#[test]
fn hand_built_table_rejects_other_words() {
    let nfa = hand_built();
    assert!(!matches(&nfa, "xyzx"));
    assert!(!matches(&nfa, ""));
    assert!(!matches(&nfa, "x"));
    assert!(!matches(&nfa, "xyzxyzyz"));
    assert!(!matches(&nfa, "yz"));
}

#[test]
fn concat_of_unit_and_star() {
    let a = Nfa::unit(ExtendedChar::Char('a'));
    let b = Nfa::unit(ExtendedChar::Char('b'));
    let ab_star = Nfa::concat(&a, &Nfa::star(&b));
    for word in ["a", "ab", "abbb"] {
        assert!(matches(&ab_star, word), "{}", word);
    }
    for word in ["", "b", "ba"] {
        assert!(!matches(&ab_star, word), "{}", word);
    }
}

#[test]
fn divisibility_by_thirteen() {
    const N: usize = 13;
    let mut edges = Vec::new();
    for i in 0..N {
        for (j, c) in ('0'..='9').enumerate() {
            edges.push(((NfaNode(i), ExtendedChar::from(c)), vec![NfaNode((i * 10 + j) % N)]));
        }
    }
    let nfa = Nfa::new(N, vec![NfaNode(0)], edges, vec![NfaNode(0)]);
    for i in 1..=10000usize {
        assert_eq!(i % N == 0, nfa.is_match(&mut CharStream::from(&i.to_string())), "{}", i);
    }
    for i in (1..=10000usize).step_by(7) {
        assert_eq!(i % N == 0, nfa.accepts(&chars(&i.to_string())), "{}", i);
    }
}

#[test]
fn divisibility_by_three_from_operators() {
    let r: Vec<Nfa> = ('0'..='9').map(|c| Nfa::unit(c.into())).collect();
    let r0369 = &(&(&(&r[0] | &r[3]) | &r[6]) | &r[9]);
    let r147 = &(&(&r[1] | &r[4]) | &r[7]);
    let r258 = &(&(&r[2] | &r[5]) | &r[8]);
    let part1 = r0369;
    let r0369_star = &r0369.get_star();
    let part2 = &(&(r147 & r0369_star) & r258);
    let part3_1 = &(r258 | (&(r147 & r0369_star) & r147));
    let part3_2 = &(r0369 | (&(r258 & r0369_star) & r147));
    let part3_3 = &(r147 | (&(r258 & r0369_star) & r258));
    let part3 = &(&(part3_1 & part3_2.get_star()) & part3_3);
    let part = &(&(part1 | part2) | part3);
    let nfa = part | part.get_star();
    for i in 1..=2000usize {
        assert_eq!(i % 3 == 0, nfa.accepts(&chars(&i.to_string())), "{}", i);
    }
}

#[test]
fn stream_is_read_from_where_it_stands() {
    let nfa = Nfa::unit(ExtendedChar::Char('b'));
    let mut stream = CharStream::from("ab");
    assert_eq!(stream.next(), Some('a'));
    assert!(nfa.is_match(&mut stream));
    assert_eq!(stream.next(), None);
}

#[test]
fn empty_stream_is_the_empty_word() {
    assert!(Nfa::empty().is_match(&mut CharStream::from("")));
    assert!(!Nfa::unit(ExtendedChar::Wildcard).is_match(&mut CharStream::from("")));
}
