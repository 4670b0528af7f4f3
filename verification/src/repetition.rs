//! What a star accepts, and on which automata that is exactly the
//! repetitions of accepted words.

use crate::algebra::{bridge, completes, star};
use crate::automaton::{lemma_run_push, Automaton};
use crate::concatenation::entry;
use crate::reduction::{lemma_reduce_accepts, reduce};
use crate::symbol::ExtendedChar;
use vstd::prelude::*;

verus! {

/// Whether `input` is empty or splits into one or more consecutive words,
/// none of them empty, each of which `a` accepts.
pub open spec fn repeats(a: Automaton, input: Seq<char>) -> bool
    decreases input.len(),
{
    input.len() == 0 || exists|k: int|
        0 <= k < input.len() && a.accepts(#[trigger] input.subrange(k, input.len() as int))
            && repeats(a, input.subrange(0, k))
}

/// Whether the characters of `input` from `k` on are a word, not empty, that
/// `a` accepts, and those before `k` repeat `a`.
pub open spec fn last_piece(a: Automaton, input: Seq<char>, k: int) -> bool {
    &&& 0 <= k < input.len()
    &&& a.accepts(input.subrange(k, input.len() as int))
    &&& repeats(a, input.subrange(0, k))
}

/// A word repeats `a` exactly if it is empty or has a last piece.
pub proof fn lemma_repeats_by_last_piece(a: Automaton, input: Seq<char>)
    ensures
        repeats(a, input) <==> input.len() == 0 || exists|k: int| last_piece(a, input, k),
{
    if repeats(a, input) && input.len() > 0 {
        let k = choose|k: int|
            0 <= k < input.len() && a.accepts(#[trigger] input.subrange(k, input.len() as int))
                && repeats(a, input.subrange(0, k));
        assert(last_piece(a, input, k));
    }
    if exists|k: int| last_piece(a, input, k) {
        let k = choose|k: int| last_piece(a, input, k);
        assert(a.accepts(input.subrange(k, input.len() as int)));
    }
}

/// Whether `input` leads `a` from a start state back to a start state.
pub open spec fn returns_to_start(a: Automaton, input: Seq<char>) -> bool {
    exists|q: nat| a.run(a.start, input).contains(q) && a.start.contains(q)
}

/// Whether the first `k` characters of `input` repeat `a` and the rest leads
/// `a` from its start states to `r`.
pub open spec fn resumes(a: Automaton, input: Seq<char>, k: int, r: nat) -> bool {
    &&& 0 <= k <= input.len()
    &&& repeats(a, input.subrange(0, k))
    &&& a.run(a.start, input.subrange(k, input.len() as int)).contains(r)
}

/// The states of `a` that are active after `input`, over every way to let a
/// prefix of it repeat `a`.
pub open spec fn resumed(a: Automaton, input: Seq<char>) -> Set<nat> {
    Set::new(|r: nat| exists|k: int| resumes(a, input, k, r))
}

/// Whether the first `k` characters of `input` repeat `a` and the rest is
/// accepted by `a` or leads `a` back to a start state.
pub open spec fn star_split(a: Automaton, input: Seq<char>, k: int) -> bool {
    &&& 0 <= k <= input.len()
    &&& repeats(a, input.subrange(0, k))
    &&& (a.accepts(input.subrange(k, input.len() as int)) || returns_to_start(
        a,
        input.subrange(k, input.len() as int),
    ))
}

/// One step of the star: a step of `a`, and a restart where the step
/// completes `a`.
proof fn lemma_star_step(a: Automaton, active: Set<nat>, c: char)
    ensures
        star(a).step(active, c) == a.step(active, c) + entry(
            a,
            a.accepting(a.step(active, c)),
        ),
{
    let s = star(a);
    let restarted = a.accepting(a.step(active, c));
    let to = a.step(active, c) + entry(a, restarted);
    assert forall|r: nat| s.step(active, c).contains(r) implies to.contains(r) by {
        let q = choose|q: nat| active.contains(q) && s.moves(q, c, r);
        let l = if s.edges.contains((q, ExtendedChar::Char(c), r)) {
            ExtendedChar::Char(c)
        } else {
            ExtendedChar::Wildcard
        };
        assert(s.edges.contains((q, l, r)));
        if a.edges.contains((q, l, r)) {
            assert(a.moves(q, c, r));
        } else {
            assert(bridge(a, a.start).contains((q, l, r)));
            let t = choose|t: nat| a.edges.contains((q, l, t)) && a.accept.contains(t);
            assert(a.moves(q, c, t));
            assert(a.step(active, c).contains(t));
            assert(restarted);
        }
    }
    assert forall|r: nat| to.contains(r) implies s.step(active, c).contains(r) by {
        if a.step(active, c).contains(r) {
            let q = choose|q: nat| active.contains(q) && a.moves(q, c, r);
            assert(s.moves(q, c, r));
        } else {
            let t = choose|t: nat| a.step(active, c).contains(t) && a.accept.contains(t);
            let q = choose|q: nat| active.contains(q) && a.moves(q, c, t);
            let l = if a.edges.contains((q, ExtendedChar::Char(c), t)) {
                ExtendedChar::Char(c)
            } else {
                ExtendedChar::Wildcard
            };
            assert(a.edges.contains((q, l, t)));
            assert(completes(a, q, l));
            assert(bridge(a, a.start).contains((q, l, r)));
            assert(s.edges.contains((q, l, r)));
            assert(s.moves(q, c, r));
        }
    }
    assert(s.step(active, c) =~= to);
}

/// Whether `resumes` holds at a `k` before the end of `input`.
pub open spec fn resumes_early(a: Automaton, input: Seq<char>, k: int, r: nat) -> bool {
    k < input.len() && resumes(a, input, k, r)
}

/// With one more character, a state is resumed from `k` exactly if one step
/// leads to it from a state that was resumed from `k`.
proof fn lemma_resumes_push(a: Automaton, input: Seq<char>, c: char, k: int, r: nat)
    requires
        0 <= k <= input.len(),
    ensures
        resumes(a, input.push(c), k, r) <==> exists|q: nat|
            resumes(a, input, k, q) && a.moves(q, c, r),
{
    let longer = input.push(c);
    let n = input.len() as int;
    let rest = input.subrange(k, n);
    assert(longer.subrange(0, k) =~= input.subrange(0, k));
    assert(longer.subrange(k, n + 1) =~= rest.push(c));
    lemma_run_push(a, a.start, rest, c);
    if resumes(a, longer, k, r) {
        let q = choose|q: nat| a.run(a.start, rest).contains(q) && a.moves(q, c, r);
        assert(resumes(a, input, k, q) && a.moves(q, c, r));
    }
    if exists|q: nat| resumes(a, input, k, q) && a.moves(q, c, r) {
        let q = choose|q: nat| resumes(a, input, k, q) && a.moves(q, c, r);
        assert(a.step(a.run(a.start, rest), c).contains(r));
    }
}

/// One step on from the resumed states are the states resumed, after one
/// more character, from before the end.
proof fn lemma_resumed_step(a: Automaton, input: Seq<char>, c: char, r: nat)
    ensures
        a.step(resumed(a, input), c).contains(r) <==> exists|k: int|
            resumes_early(a, input.push(c), k, r),
{
    let longer = input.push(c);
    if a.step(resumed(a, input), c).contains(r) {
        let q = choose|q: nat| resumed(a, input).contains(q) && a.moves(q, c, r);
        let k = choose|k: int| resumes(a, input, k, q);
        assert(resumes(a, input, k, q) && a.moves(q, c, r));
        lemma_resumes_push(a, input, c, k, r);
        assert(resumes_early(a, longer, k, r));
    }
    if exists|k: int| resumes_early(a, longer, k, r) {
        let k = choose|k: int| resumes_early(a, longer, k, r);
        lemma_resumes_push(a, input, c, k, r);
        let q = choose|q: nat| resumes(a, input, k, q) && a.moves(q, c, r);
        assert(resumed(a, input).contains(q));
    }
}

/// After one more character, the states resumed are those one step on, and
/// the start states if all that was read repeats `a`.
proof fn lemma_resumed_push(a: Automaton, input: Seq<char>, c: char)
    ensures
        a.accepting(a.step(resumed(a, input), c)) == repeats(a, input.push(c)),
        resumed(a, input.push(c)) == a.step(resumed(a, input), c) + entry(
            a,
            repeats(a, input.push(c)),
        ),
{
    let longer = input.push(c);
    let n = input.len() as int;
    let stepped = a.step(resumed(a, input), c);
    assert(longer.subrange(0, n + 1) =~= longer);
    assert(longer.subrange(n + 1, n + 1).len() == 0);
    lemma_repeats_by_last_piece(a, longer);
    if a.accepting(stepped) {
        let t = choose|t: nat| stepped.contains(t) && a.accept.contains(t);
        lemma_resumed_step(a, input, c, t);
        let k = choose|k: int| resumes_early(a, longer, k, t);
        assert(last_piece(a, longer, k));
    }
    if repeats(a, longer) {
        let k = choose|k: int| last_piece(a, longer, k);
        let t = choose|t: nat|
            a.run(a.start, longer.subrange(k, n + 1)).contains(t) && a.accept.contains(t);
        assert(resumes_early(a, longer, k, t));
        lemma_resumed_step(a, input, c, t);
    }
    let to = stepped + entry(a, repeats(a, longer));
    assert forall|r: nat| resumed(a, longer).contains(r) implies to.contains(r) by {
        let k = choose|k: int| resumes(a, longer, k, r);
        lemma_resumed_step(a, input, c, r);
        if k <= n {
            assert(resumes_early(a, longer, k, r));
        }
    }
    assert forall|r: nat| to.contains(r) implies resumed(a, longer).contains(r) by {
        lemma_resumed_step(a, input, c, r);
        if stepped.contains(r) {
            let k = choose|k: int| resumes_early(a, longer, k, r);
            assert(resumes(a, longer, k, r));
        } else {
            assert(resumes(a, longer, n + 1, r));
        }
    }
    assert(resumed(a, longer) =~= to);
}

/// The active states of the star after `input`: those of `a` over every way
/// to let a prefix repeat `a`.
proof fn lemma_star_run(a: Automaton, input: Seq<char>)
    ensures
        star(a).run(a.start, input) == resumed(a, input),
    decreases input.len(),
{
    if input.len() == 0 {
        assert(input.subrange(0, 0) =~= input);
        assert forall|r: nat| a.start.contains(r) implies resumed(a, input).contains(r) by {
            assert(resumes(a, input, 0, r));
        }
        assert(a.start =~= resumed(a, input));
    } else {
        let before = input.drop_last();
        let c = input.last();
        assert(before.push(c) =~= input);
        lemma_star_run(a, before);
        lemma_star_step(a, resumed(a, before), c);
        lemma_resumed_push(a, before, c);
    }
}

/// What the star of any automaton accepts: the words of which a prefix
/// repeats the automaton and the rest is accepted by it or leads it back to a
/// start state.
pub proof fn lemma_star_accepts(a: Automaton, input: Seq<char>)
    ensures
        star(a).accepts(input) <==> exists|k: int| star_split(a, input, k),
        reduce(star(a)).accepts(input) <==> exists|k: int| star_split(a, input, k),
{
    let s = star(a);
    lemma_reduce_accepts(s, input);
    lemma_star_run(a, input);
    let n = input.len() as int;
    if s.accepts(input) {
        let q = choose|q: nat| resumed(a, input).contains(q) && s.accept.contains(q);
        let k = choose|k: int| resumes(a, input, k, q);
        assert(star_split(a, input, k));
    }
    if exists|k: int| star_split(a, input, k) {
        let k = choose|k: int| star_split(a, input, k);
        let rest = input.subrange(k, n);
        if a.accepts(rest) {
            let q = choose|q: nat| a.run(a.start, rest).contains(q) && a.accept.contains(q);
            assert(resumes(a, input, k, q));
            assert(resumed(a, input).contains(q) && s.accept.contains(q));
        } else {
            let q = choose|q: nat| a.run(a.start, rest).contains(q) && a.start.contains(q);
            assert(resumes(a, input, k, q));
            assert(resumed(a, input).contains(q) && s.accept.contains(q));
        }
    }
}

/// A word that repeats `a`, followed by a word that repeats `a`, repeats `a`.
pub proof fn lemma_repeats_joined(a: Automaton, first: Seq<char>, second: Seq<char>)
    requires
        repeats(a, first),
        repeats(a, second),
    ensures
        repeats(a, first + second),
    decreases second.len(),
{
    let whole = first + second;
    lemma_repeats_by_last_piece(a, second);
    lemma_repeats_by_last_piece(a, whole);
    if second.len() == 0 {
        assert(whole =~= first);
    } else {
        let k = choose|k: int| last_piece(a, second, k);
        lemma_repeats_joined(a, first, second.subrange(0, k));
        let j = first.len() + k;
        assert(whole.subrange(0, j) =~= first + second.subrange(0, k));
        assert(whole.subrange(j, whole.len() as int) =~= second.subrange(
            k,
            second.len() as int,
        ));
        assert(last_piece(a, whole, j));
    }
}

/// The star of an automaton accepts exactly the repetitions of words that the
/// automaton accepts, provided the automaton has a start state and every word
/// that leads it from a start state back to a start state is itself such a
/// repetition.
pub proof fn lemma_star_accepts_repetitions(a: Automaton, input: Seq<char>)
    requires
        exists|q: nat| a.start.contains(q),
        forall|word: Seq<char>| #[trigger] returns_to_start(a, word) ==> repeats(a, word),
    ensures
        star(a).accepts(input) <==> repeats(a, input),
        reduce(star(a)).accepts(input) <==> repeats(a, input),
{
    lemma_star_accepts(a, input);
    lemma_repeats_by_last_piece(a, input);
    let n = input.len() as int;
    if repeats(a, input) {
        let q = choose|q: nat| a.start.contains(q);
        assert(input.subrange(0, n) =~= input);
        assert(input.subrange(n, n).len() == 0);
        assert(a.run(a.start, input.subrange(n, n)).contains(q));
        assert(returns_to_start(a, input.subrange(n, n)));
        assert(star_split(a, input, n));
    }
    if exists|k: int| star_split(a, input, k) {
        let k = choose|k: int| star_split(a, input, k);
        let head = input.subrange(0, k);
        let rest = input.subrange(k, n);
        assert(head + rest =~= input);
        if returns_to_start(a, rest) {
            lemma_repeats_joined(a, head, rest);
        } else if k == n {
            assert(head =~= input);
        } else {
            assert(last_piece(a, input, k));
        }
    }
}

/// A run of at least one character from any states ends in the destination
/// of a transition.
proof fn lemma_run_ends_in_destination(a: Automaton, active: Set<nat>, input: Seq<char>, r: nat)
    requires
        input.len() > 0,
        a.run(active, input).contains(r),
    ensures
        exists|q: nat, l: ExtendedChar| a.edges.contains((q, l, r)),
{
    let before = a.run(active, input.drop_last());
    lemma_step_ends_in_destination(a, before, input.last(), r);
}

/// A step from any states ends in the destination of a transition.
proof fn lemma_step_ends_in_destination(a: Automaton, active: Set<nat>, c: char, r: nat)
    requires
        a.step(active, c).contains(r),
    ensures
        exists|q: nat, l: ExtendedChar| a.edges.contains((q, l, r)),
{
    let q = choose|q: nat| active.contains(q) && a.moves(q, c, r);
    if a.edges.contains((q, ExtendedChar::Char(c), r)) {
    } else {
        assert(a.edges.contains((q, ExtendedChar::Wildcard, r)));
    }
}

/// The star of an automaton accepts exactly the repetitions of words that the
/// automaton accepts, provided the automaton has a start state and no
/// transition of it leads to a start state.
pub proof fn lemma_star_without_reentry(a: Automaton, input: Seq<char>)
    requires
        exists|q: nat| a.start.contains(q),
        forall|q: nat, l: ExtendedChar, r: nat|
            #[trigger] a.edges.contains((q, l, r)) ==> !a.start.contains(r),
    ensures
        star(a).accepts(input) <==> repeats(a, input),
        reduce(star(a)).accepts(input) <==> repeats(a, input),
{
    assert forall|word: Seq<char>| #[trigger] returns_to_start(a, word) implies repeats(
        a,
        word,
    ) by {
        if word.len() > 0 {
            let r = choose|r: nat| a.run(a.start, word).contains(r) && a.start.contains(r);
            lemma_run_ends_in_destination(a, a.start, word, r);
        }
    }
    lemma_star_accepts_repetitions(a, input);
}

/// The star of an automaton accepts exactly the repetitions of words that the
/// automaton accepts, provided the automaton has a start state and each of
/// its start states is an accept state.
pub proof fn lemma_star_of_accepting_start(a: Automaton, input: Seq<char>)
    requires
        exists|q: nat| a.start.contains(q),
        a.start.subset_of(a.accept),
    ensures
        star(a).accepts(input) <==> repeats(a, input),
        reduce(star(a)).accepts(input) <==> repeats(a, input),
{
    assert forall|word: Seq<char>| #[trigger] returns_to_start(a, word) implies repeats(
        a,
        word,
    ) by {
        lemma_repeats_by_last_piece(a, word);
        if word.len() > 0 {
            let r = choose|r: nat| a.run(a.start, word).contains(r) && a.start.contains(r);
            assert(a.accept.contains(r));
            assert(word.subrange(0, word.len() as int) =~= word);
            assert(word.subrange(0, 0).len() == 0);
            assert(last_piece(a, word, 0));
        }
    }
    lemma_star_accepts_repetitions(a, input);
}

} // verus!
