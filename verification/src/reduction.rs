//! Reduction on the model: which states are live, which transitions stay,
//! and why acceptance does not change.

use crate::automaton::Automaton;
use crate::symbol::ExtendedChar;
use vstd::prelude::*;

verus! {

/// Whether `q` is an accept state of `a` or reaches one over at most `n`
/// transitions, whatever their labels.
pub open spec fn reaches_accept(a: Automaton, q: nat, n: nat) -> bool
    decreases n,
{
    a.accept.contains(q) || (n > 0 && exists|l: ExtendedChar, r: nat|
        #[trigger] a.edges.contains((q, l, r)) && reaches_accept(a, r, (n - 1) as nat))
}

/// Whether `q` is live in `a`: an accept state, or a state from which
/// transitions lead to one.
pub open spec fn live(a: Automaton, q: nat) -> bool {
    exists|n: nat| reaches_accept(a, q, n)
}

/// Whether every transition of `a` leads to a live state.
pub open spec fn trimmed(a: Automaton) -> bool {
    forall|q: nat, l: ExtendedChar, r: nat| #[trigger] a.edges.contains((q, l, r)) ==> live(a, r)
}

/// The automaton `a` without the transitions that lead to a state that is not
/// live. States, start states and accept states stay as they are.
pub open spec fn reduce(a: Automaton) -> Automaton {
    Automaton {
        states: a.states,
        start: a.start,
        accept: a.accept,
        edges: Set::new(|t: (nat, ExtendedChar, nat)| a.edges.contains(t) && live(a, t.2)),
    }
}

/// Reduction keeps every state number below the state count.
pub proof fn lemma_reduce_wf(a: Automaton)
    requires
        a.wf(),
    ensures
        reduce(a).wf(),
{
}

/// The source of a transition to a live state is live.
pub proof fn lemma_live_source(a: Automaton, q: nat, l: ExtendedChar, r: nat)
    requires
        a.edges.contains((q, l, r)),
        live(a, r),
    ensures
        live(a, q),
{
    let n = choose|n: nat| reaches_accept(a, r, n);
    assert(reaches_accept(a, q, n + 1));
}

/// What reaches an accept state in the reduced automaton does so in `a`.
proof fn lemma_reaches_accept_before(a: Automaton, q: nat, n: nat)
    requires
        reaches_accept(reduce(a), q, n),
    ensures
        reaches_accept(a, q, n),
    decreases n,
{
    let red = reduce(a);
    if !a.accept.contains(q) {
        let (l, r) = choose|l: ExtendedChar, r: nat|
            #[trigger] red.edges.contains((q, l, r)) && reaches_accept(red, r, (n - 1) as nat);
        lemma_reaches_accept_before(a, r, (n - 1) as nat);
        assert(a.edges.contains((q, l, r)));
    }
}

/// What reaches an accept state in `a` does so in the reduced automaton.
proof fn lemma_reaches_accept_after(a: Automaton, q: nat, n: nat)
    requires
        reaches_accept(a, q, n),
    ensures
        reaches_accept(reduce(a), q, n),
    decreases n,
{
    let red = reduce(a);
    if !a.accept.contains(q) {
        let (l, r) = choose|l: ExtendedChar, r: nat|
            #[trigger] a.edges.contains((q, l, r)) && reaches_accept(a, r, (n - 1) as nat);
        lemma_reaches_accept_after(a, r, (n - 1) as nat);
        assert(live(a, r));
        assert(red.edges.contains((q, l, r)));
    }
}

/// Reduction changes no state's liveness.
pub proof fn lemma_reduce_keeps_live(a: Automaton, q: nat)
    ensures
        live(reduce(a), q) == live(a, q),
{
    if live(reduce(a), q) {
        let n = choose|n: nat| reaches_accept(reduce(a), q, n);
        lemma_reaches_accept_before(a, q, n);
    }
    if live(a, q) {
        let n = choose|n: nat| reaches_accept(a, q, n);
        lemma_reaches_accept_after(a, q, n);
    }
}

/// What reaches an accept state keeps doing so when accept states and
/// transitions are added.
pub proof fn lemma_reaches_accept_monotone(a: Automaton, b: Automaton, q: nat, n: nat)
    requires
        a.accept.subset_of(b.accept),
        a.edges.subset_of(b.edges),
        reaches_accept(a, q, n),
    ensures
        reaches_accept(b, q, n),
    decreases n,
{
    if !a.accept.contains(q) {
        let (l, r) = choose|l: ExtendedChar, r: nat|
            #[trigger] a.edges.contains((q, l, r)) && reaches_accept(a, r, (n - 1) as nat);
        lemma_reaches_accept_monotone(a, b, r, (n - 1) as nat);
        assert(b.edges.contains((q, l, r)));
    }
}

/// A live state stays live when accept states and transitions are added.
pub proof fn lemma_live_monotone(a: Automaton, b: Automaton, q: nat)
    requires
        a.accept.subset_of(b.accept),
        a.edges.subset_of(b.edges),
        live(a, q),
    ensures
        live(b, q),
{
    let n = choose|n: nat| reaches_accept(a, q, n);
    lemma_reaches_accept_monotone(a, b, q, n);
}

/// A reduced automaton is trimmed.
pub proof fn lemma_reduce_trims(a: Automaton)
    ensures
        trimmed(reduce(a)),
{
    assert forall|q: nat, l: ExtendedChar, r: nat| #[trigger]
        reduce(a).edges.contains((q, l, r)) implies live(reduce(a), r) by {
        lemma_reduce_keeps_live(a, r);
    }
}

/// Reduction leaves a trimmed automaton as it is.
pub proof fn lemma_reduce_trimmed(a: Automaton)
    requires
        trimmed(a),
    ensures
        reduce(a) == a,
{
    assert forall|t: (nat, ExtendedChar, nat)| a.edges.contains(t) implies live(a, t.2) by {
        assert(a.edges.contains((t.0, t.1, t.2)));
    }
    assert(reduce(a).edges =~= a.edges);
}

/// Reduction is idempotent: reducing a reduced automaton changes nothing.
pub proof fn lemma_reduce_idempotent(a: Automaton)
    ensures
        reduce(reduce(a)) == reduce(a),
        reduce(reduce(a)).transitions() == reduce(a).transitions(),
{
    lemma_reduce_trims(a);
    lemma_reduce_trimmed(reduce(a));
}

/// One step keeps the reduced run inside the full run, and every live state
/// of the full run in the reduced run.
proof fn lemma_reduce_step(a: Automaton, full: Set<nat>, kept: Set<nat>, c: char)
    requires
        kept.subset_of(full),
        forall|q: nat| full.contains(q) && live(a, q) ==> kept.contains(q),
    ensures
        reduce(a).step(kept, c).subset_of(a.step(full, c)),
        forall|r: nat| a.step(full, c).contains(r) && live(a, r) ==> reduce(a).step(
            kept,
            c,
        ).contains(r),
{
    let red = reduce(a);
    assert forall|r: nat| red.step(kept, c).contains(r) implies a.step(full, c).contains(r) by {
        let q = choose|q: nat| kept.contains(q) && red.moves(q, c, r);
        assert(full.contains(q) && a.moves(q, c, r));
    }
    assert forall|r: nat| a.step(full, c).contains(r) && live(a, r) implies red.step(
        kept,
        c,
    ).contains(r) by {
        let q = choose|q: nat| full.contains(q) && a.moves(q, c, r);
        let l = if a.edges.contains((q, ExtendedChar::Char(c), r)) {
            ExtendedChar::Char(c)
        } else {
            ExtendedChar::Wildcard
        };
        assert(a.edges.contains((q, l, r)));
        lemma_live_source(a, q, l, r);
        assert(red.edges.contains((q, l, r)));
        assert(kept.contains(q) && red.moves(q, c, r));
    }
}

/// A run of the reduced automaton stays inside the run of `a`, and holds
/// every live state of it.
proof fn lemma_reduce_run(a: Automaton, input: Seq<char>)
    ensures
        reduce(a).run(a.start, input).subset_of(a.run(a.start, input)),
        forall|q: nat|
            a.run(a.start, input).contains(q) && live(a, q) ==> reduce(a).run(
                a.start,
                input,
            ).contains(q),
    decreases input.len(),
{
    if input.len() > 0 {
        let before = input.drop_last();
        lemma_reduce_run(a, before);
        lemma_reduce_step(
            a,
            a.run(a.start, before),
            reduce(a).run(a.start, before),
            input.last(),
        );
    }
}

/// Reduction preserves matching: the reduced automaton accepts exactly the
/// words that the automaton accepts.
pub proof fn lemma_reduce_accepts(a: Automaton, input: Seq<char>)
    ensures
        reduce(a).accepts(input) == a.accepts(input),
{
    let red = reduce(a);
    lemma_reduce_run(a, input);
    if red.accepts(input) {
        let q = choose|q: nat| red.run(red.start, input).contains(q) && red.accept.contains(q);
        assert(a.run(a.start, input).contains(q) && a.accept.contains(q));
    }
    if a.accepts(input) {
        let q = choose|q: nat| a.run(a.start, input).contains(q) && a.accept.contains(q);
        assert(reaches_accept(a, q, 0));
        assert(live(a, q));
        assert(red.run(red.start, input).contains(q) && red.accept.contains(q));
    }
}

} // verus!
