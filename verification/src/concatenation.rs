//! What a concatenation accepts: the words that split into a word of the
//! first automaton followed by a word of the second.

use crate::algebra::{bridge, completes, concat, shift, shift_edges, starts_accepting};
use crate::automaton::{below, lemma_run_below, Automaton};
use crate::reduction::{lemma_reduce_accepts, reduce};
use crate::symbol::ExtendedChar;
use vstd::prelude::*;

verus! {

/// Whether `a` accepts the first `k` characters of `input` and `b` accepts
/// the rest.
pub open spec fn split_accepted(a: Automaton, b: Automaton, input: Seq<char>, k: int) -> bool {
    &&& 0 <= k <= input.len()
    &&& a.accepts(input.subrange(0, k))
    &&& b.accepts(input.subrange(k, input.len() as int))
}

/// Whether `a` accepts the first `k` characters of `input` and the rest
/// leads `b` from its start states to `r`.
pub open spec fn hands_over(a: Automaton, b: Automaton, input: Seq<char>, k: int, r: nat) -> bool {
    &&& 0 <= k <= input.len()
    &&& a.accepts(input.subrange(0, k))
    &&& b.run(b.start, input.subrange(k, input.len() as int)).contains(r)
}

/// The states of `b` that are active after `input`, over every way to let
/// `a` accept a prefix of it.
pub open spec fn handed_over(a: Automaton, b: Automaton, input: Seq<char>) -> Set<nat> {
    Set::new(|r: nat| exists|k: int| hands_over(a, b, input, k, r))
}

/// The start states of `b` if `entered`, else no state.
pub open spec fn entry(b: Automaton, entered: bool) -> Set<nat> {
    if entered {
        b.start
    } else {
        Set::empty()
    }
}

/// One step of the concatenation: a step of each side, and an entry into
/// `b` where the step completes `a`.
proof fn lemma_concat_step(a: Automaton, b: Automaton, left: Set<nat>, right: Set<nat>, c: char)
    requires
        a.wf(),
        b.wf(),
        below(left, a.states),
    ensures
        concat(a, b).step(left + shift(right, a.states), c) == a.step(left, c) + shift(
            b.step(right, c) + entry(b, a.accepting(a.step(left, c))),
            a.states,
        ),
{
    let ab = concat(a, b);
    let n = a.states;
    let from = left + shift(right, n);
    let entered = a.accepting(a.step(left, c));
    let to = a.step(left, c) + shift(b.step(right, c) + entry(b, entered), n);
    assert forall|r: nat| ab.step(from, c).contains(r) implies to.contains(r) by {
        let q = choose|q: nat| from.contains(q) && ab.moves(q, c, r);
        let s = if ab.edges.contains((q, ExtendedChar::Char(c), r)) {
            ExtendedChar::Char(c)
        } else {
            ExtendedChar::Wildcard
        };
        assert(ab.edges.contains((q, s, r)));
        if a.edges.contains((q, s, r)) {
            assert(a.moves(q, c, r));
            assert(left.contains(q));
        } else if bridge(a, shift(b.start, n)).contains((q, s, r)) {
            let t = choose|t: nat| a.edges.contains((q, s, t)) && a.accept.contains(t);
            assert(a.moves(q, c, t));
            assert(left.contains(q));
            assert(a.step(left, c).contains(t));
            assert(entered);
            assert(entry(b, entered).contains((r - n) as nat));
        } else {
            assert(shift_edges(b.edges, n).contains((q, s, r)));
            assert(right.contains((q - n) as nat));
            assert(b.moves((q - n) as nat, c, (r - n) as nat));
            assert(b.step(right, c).contains((r - n) as nat));
        }
    }
    assert forall|r: nat| to.contains(r) implies ab.step(from, c).contains(r) by {
        if a.step(left, c).contains(r) {
            let q = choose|q: nat| left.contains(q) && a.moves(q, c, r);
            assert(from.contains(q) && ab.moves(q, c, r));
        } else {
            let r0 = (r - n) as nat;
            if b.step(right, c).contains(r0) {
                let q0 = choose|q0: nat| right.contains(q0) && b.moves(q0, c, r0);
                let q = q0 + n;
                assert((q - n) as nat == q0);
                assert(shift(right, n).contains(q));
                assert(from.contains(q) && ab.moves(q, c, r));
            } else {
                assert(entered && b.start.contains(r0));
                let t = choose|t: nat| a.step(left, c).contains(t) && a.accept.contains(t);
                let q = choose|q: nat| left.contains(q) && a.moves(q, c, t);
                let s = if a.edges.contains((q, ExtendedChar::Char(c), t)) {
                    ExtendedChar::Char(c)
                } else {
                    ExtendedChar::Wildcard
                };
                assert(a.edges.contains((q, s, t)));
                assert(completes(a, q, s));
                assert(shift(b.start, n).contains(r));
                assert(bridge(a, shift(b.start, n)).contains((q, s, r)));
                assert(ab.edges.contains((q, s, r)));
                assert(from.contains(q) && ab.moves(q, c, r));
            }
        }
    }
    assert(ab.step(from, c) =~= to);
}

/// Before any input, `b` has been entered exactly if `a` accepts the empty
/// word.
proof fn lemma_handed_over_empty(a: Automaton, b: Automaton)
    ensures
        handed_over(a, b, Seq::empty()) == entry(b, starts_accepting(a)),
        a.accepts(Seq::empty()) == starts_accepting(a),
{
    let e = Seq::<char>::empty();
    assert(e.subrange(0, 0) =~= e);
    assert forall|r: nat| handed_over(a, b, e).contains(r) implies entry(
        b,
        starts_accepting(a),
    ).contains(r) by {
        let k = choose|k: int| hands_over(a, b, e, k, r);
        assert(k == 0);
    }
    assert forall|r: nat| entry(b, starts_accepting(a)).contains(r) implies handed_over(
        a,
        b,
        e,
    ).contains(r) by {
        assert(hands_over(a, b, e, 0, r));
    }
    assert(handed_over(a, b, e) =~= entry(b, starts_accepting(a)));
}

/// After one more character, the states handed over are those one step on,
/// and the start states of `b` if `a` accepts all that was read.
proof fn lemma_handed_over_push(a: Automaton, b: Automaton, input: Seq<char>, c: char)
    ensures
        handed_over(a, b, input.push(c)) == b.step(handed_over(a, b, input), c) + entry(
            b,
            a.accepts(input.push(c)),
        ),
{
    let longer = input.push(c);
    let n = input.len() as int;
    let to = b.step(handed_over(a, b, input), c) + entry(b, a.accepts(longer));
    assert(longer.subrange(0, n + 1) =~= longer);
    assert(longer.subrange(n + 1, n + 1) =~= Seq::<char>::empty());
    assert forall|k: int| 0 <= k <= n implies longer.subrange(0, k) == input.subrange(0, k)
        && longer.subrange(k, n + 1) == #[trigger] input.subrange(k, n).push(c) by {
        assert(longer.subrange(0, k) =~= input.subrange(0, k));
        assert(longer.subrange(k, n + 1) =~= input.subrange(k, n).push(c));
    }
    assert forall|r: nat| handed_over(a, b, longer).contains(r) implies to.contains(r) by {
        let k = choose|k: int| hands_over(a, b, longer, k, r);
        if k == n + 1 {
            assert(entry(b, a.accepts(longer)).contains(r));
        } else {
            let rest = input.subrange(k, n);
            assert(longer.subrange(k, n + 1) == rest.push(c));
            crate::automaton::lemma_run_push(b, b.start, rest, c);
            let q = choose|q: nat| b.run(b.start, rest).contains(q) && b.moves(q, c, r);
            assert(hands_over(a, b, input, k, q));
            assert(handed_over(a, b, input).contains(q));
            assert(b.step(handed_over(a, b, input), c).contains(r));
        }
    }
    assert forall|r: nat| to.contains(r) implies handed_over(a, b, longer).contains(r) by {
        if b.step(handed_over(a, b, input), c).contains(r) {
            let q = choose|q: nat| handed_over(a, b, input).contains(q) && b.moves(q, c, r);
            let k = choose|k: int| hands_over(a, b, input, k, q);
            let rest = input.subrange(k, n);
            assert(longer.subrange(k, n + 1) == rest.push(c));
            crate::automaton::lemma_run_push(b, b.start, rest, c);
            assert(b.step(b.run(b.start, rest), c).contains(r));
            assert(hands_over(a, b, longer, k, r));
        } else {
            assert(hands_over(a, b, longer, n + 1, r));
        }
    }
    assert(handed_over(a, b, longer) =~= to);
}

/// The active states of the concatenation after `input`: those of `a`, and
/// those of `b` over every way to let `a` accept a prefix.
proof fn lemma_concat_run(a: Automaton, b: Automaton, input: Seq<char>)
    requires
        a.wf(),
        b.wf(),
    ensures
        concat(a, b).run(concat(a, b).start, input) == a.run(a.start, input) + shift(
            handed_over(a, b, input),
            a.states,
        ),
    decreases input.len(),
{
    let ab = concat(a, b);
    let n = a.states;
    if input.len() == 0 {
        assert(input =~= Seq::<char>::empty());
        lemma_handed_over_empty(a, b);
        assert(ab.start =~= a.start + shift(handed_over(a, b, input), n));
    } else {
        let before = input.drop_last();
        let c = input.last();
        assert(before.push(c) =~= input);
        lemma_concat_run(a, b, before);
        lemma_run_below(a, a.start, before);
        lemma_concat_step(a, b, a.run(a.start, before), handed_over(a, b, before), c);
        lemma_handed_over_push(a, b, before, c);
    }
}

/// The concatenation of two automata accepts a word exactly when the word
/// splits into a prefix that the first accepts and a rest that the second
/// accepts, and so does the reduced concatenation.
pub proof fn lemma_concat_accepts(a: Automaton, b: Automaton, input: Seq<char>)
    requires
        a.wf(),
        b.wf(),
    ensures
        concat(a, b).accepts(input) <==> exists|k: int| split_accepted(a, b, input, k),
        reduce(concat(a, b)).accepts(input) <==> exists|k: int| split_accepted(a, b, input, k),
{
    let ab = concat(a, b);
    let n = a.states;
    lemma_reduce_accepts(ab, input);
    lemma_concat_run(a, b, input);
    lemma_run_below(a, a.start, input);
    let left = a.run(a.start, input);
    let right = handed_over(a, b, input);
    if ab.accepts(input) {
        let q = choose|q: nat| (left + shift(right, n)).contains(q) && ab.accept.contains(q);
        let q0 = (q - n) as nat;
        assert(right.contains(q0));
        let k = choose|k: int| hands_over(a, b, input, k, q0);
        assert(split_accepted(a, b, input, k));
    }
    if exists|k: int| split_accepted(a, b, input, k) {
        let k = choose|k: int| split_accepted(a, b, input, k);
        let rest = input.subrange(k, input.len() as int);
        let q0 = choose|q0: nat| b.run(b.start, rest).contains(q0) && b.accept.contains(q0);
        assert(hands_over(a, b, input, k, q0));
        let q = q0 + n;
        assert((q - n) as nat == q0);
        assert((left + shift(right, n)).contains(q) && ab.accept.contains(q));
    }
}

/// A word that the first automaton accepts, followed by a word that the
/// second accepts, is accepted by the concatenation, reduced or not.
pub proof fn lemma_concat_accepts_joined(
    a: Automaton,
    b: Automaton,
    first: Seq<char>,
    second: Seq<char>,
)
    requires
        a.wf(),
        b.wf(),
        a.accepts(first),
        b.accepts(second),
    ensures
        concat(a, b).accepts(first + second),
        reduce(concat(a, b)).accepts(first + second),
{
    let whole = first + second;
    let k = first.len() as int;
    assert(whole.subrange(0, k) =~= first);
    assert(whole.subrange(k, whole.len() as int) =~= second);
    assert(split_accepted(a, b, whole, k));
    lemma_concat_accepts(a, b, whole);
}

/// A word that the concatenation accepts, reduced or not, is a word that
/// the first automaton accepts followed by a word that the second accepts.
pub proof fn lemma_concat_accepts_split(a: Automaton, b: Automaton, input: Seq<char>)
    requires
        a.wf(),
        b.wf(),
        concat(a, b).accepts(input) || reduce(concat(a, b)).accepts(input),
    ensures
        exists|first: Seq<char>, second: Seq<char>|
            first + second == input && a.accepts(first) && b.accepts(second),
{
    lemma_concat_accepts(a, b, input);
    let k = choose|k: int| split_accepted(a, b, input, k);
    let first = input.subrange(0, k);
    let second = input.subrange(k, input.len() as int);
    assert(first + second =~= input);
}

} // verus!
