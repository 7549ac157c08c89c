//! What forward matching computes, over the model of the states.

use vstd::prelude::*;
use crate::model::{has_token, lemma_slot_of_present, target, Edge, StateView};

verus! {

/// The length of the shortest prefix of `input`, of at least `from`
/// characters, that labels an edge.
pub open spec fn first_match(edges: Seq<Edge>, input: Seq<char>, from: int) -> Option<int>
    decreases input.len() + 1 - from,
{
    if from > input.len() {
        None
    } else if has_token(edges, input.take(from)) {
        Some(from)
    } else {
        first_match(edges, input, from + 1)
    }
}

/// The length of the shortest non-empty prefix of `input` that labels an edge.
pub open spec fn shortest_match(edges: Seq<Edge>, input: Seq<char>) -> Option<int> {
    first_match(edges, input, 1)
}

/// Every destination is the index of a state.
pub open spec fn destinations_valid(states: Seq<StateView>) -> bool {
    forall|s: int, e: int|
        0 <= s < states.len() && 0 <= e < states[s].edges.len() ==> (
        #[trigger] states[s].edges[e]).1 < states.len()
}

/// There is a start state and every destination is the index of a state.
pub open spec fn well_formed(states: Seq<StateView>) -> bool {
    states.len() > 0 && destinations_valid(states)
}

/// Where matching `input` from state `current` stops, and what is left of the
/// input there. Each step takes the shortest non-empty prefix that labels a
/// transition of the state reached; matching stops when the input is used up
/// or no prefix labels a transition.
pub open spec fn walk(states: Seq<StateView>, current: int, input: Seq<char>) -> (int, Seq<char>)
    decreases input.len(),
{
    if input.len() == 0 {
        (current, input)
    } else {
        match shortest_match(states[current].edges, input) {
            Some(k) => if 1 <= k <= input.len() {
                walk(
                    states,
                    target(states[current].edges, input.take(k)).unwrap() as int,
                    input.skip(k),
                )
            } else {
                (current, input)
            },
            None => (current, input),
        }
    }
}

/// Whether the automaton accepts `input`: matching from the start state uses
/// up the input and stops in an accepting state.
pub open spec fn accepts(states: Seq<StateView>, input: Seq<char>) -> bool {
    walk(states, 0, input).1.len() == 0 && states[walk(states, 0, input).0].accepting
}

/// The shortest match, where there is one, is a non-empty prefix that labels
/// an edge, and no shorter non-empty prefix does; where there is none, no
/// non-empty prefix labels an edge.
pub proof fn lemma_first_match(edges: Seq<Edge>, input: Seq<char>, from: int)
    requires
        0 <= from,
    ensures
        match first_match(edges, input, from) {
            Some(k) => {
                &&& from <= k <= input.len()
                &&& has_token(edges, input.take(k))
                &&& forall|j: int| from <= j < k ==> !has_token(edges, #[trigger] input.take(j))
            },
            None => forall|j: int|
                from <= j <= input.len() ==> !has_token(edges, #[trigger] input.take(j)),
        },
    decreases input.len() + 1 - from,
{
    if from > input.len() {
    } else if has_token(edges, input.take(from)) {
    } else {
        lemma_first_match(edges, input, from + 1);
    }
}

/// Shortest-prefix-first: a prefix is taken only if no shorter non-empty
/// prefix labels an edge, and matching gets stuck only if none does.
pub proof fn lemma_shortest_match(edges: Seq<Edge>, input: Seq<char>)
    ensures
        match shortest_match(edges, input) {
            Some(k) => {
                &&& 1 <= k <= input.len()
                &&& has_token(edges, input.take(k))
                &&& forall|j: int| 1 <= j < k ==> !has_token(edges, #[trigger] input.take(j))
            },
            None => forall|j: int|
                1 <= j <= input.len() ==> !has_token(edges, #[trigger] input.take(j)),
        },
{
    lemma_first_match(edges, input, 1);
}

/// The prefix length `k` is the shortest match exactly if it labels an edge
/// and no shorter non-empty prefix does.
pub proof fn lemma_shortest_match_is(edges: Seq<Edge>, input: Seq<char>, k: int)
    requires
        1 <= k <= input.len(),
        has_token(edges, input.take(k)),
        forall|j: int| 1 <= j < k ==> !has_token(edges, #[trigger] input.take(j)),
    ensures
        shortest_match(edges, input) == Some(k),
{
    lemma_first_match(edges, input, 1);
    match shortest_match(edges, input) {
        Some(m) => {
            if m < k {
                assert(!has_token(edges, input.take(m)));
            } else if k < m {
                assert(!has_token(edges, input.take(k)));
            }
        },
        None => {
            assert(!has_token(edges, input.take(k)));
        },
    }
}

/// Whether `token` leads from state `from` to state `to`.
pub open spec fn is_edge(states: Seq<StateView>, from: int, token: Seq<char>, to: int) -> bool {
    &&& 0 <= from < states.len()
    &&& target(states[from].edges, token) matches Some(dest)
    &&& dest == to
}

/// Whether `steps`, each a token and the state it leads to, are transitions
/// that follow one another from state `start`.
pub open spec fn follows(states: Seq<StateView>, start: int, steps: Seq<Edge>) -> bool
    decreases steps.len(),
{
    steps.len() == 0 || (is_edge(states, start, steps[0].0, steps[0].1 as int) && follows(
        states,
        steps[0].1 as int,
        steps.drop_first(),
    ))
}

/// The state in which `steps` from `start` end.
pub open spec fn end_of(start: int, steps: Seq<Edge>) -> int {
    if steps.len() == 0 {
        start
    } else {
        steps.last().1 as int
    }
}

/// The tokens of `steps`, one after the other.
pub open spec fn label(steps: Seq<Edge>) -> Seq<char>
    decreases steps.len(),
{
    if steps.len() == 0 {
        Seq::empty()
    } else {
        steps[0].0 + label(steps.drop_first())
    }
}

/// Whether each of `steps` takes the shortest non-empty prefix, of the text
/// that the steps from there on spell, that labels a transition of the state
/// reached.
pub open spec fn shortest_first(states: Seq<StateView>, start: int, steps: Seq<Edge>) -> bool
    decreases steps.len(),
{
    steps.len() == 0 || (shortest_match(states[start].edges, label(steps)) == Some(
        steps[0].0.len() as int,
    ) && shortest_first(states, steps[0].1 as int, steps.drop_first()))
}

/// Whether `steps` are an accepting run on `input`: transitions that follow
/// one another from the start state, each chosen shortest prefix first, that
/// spell `input` and end in an accepting state.
pub open spec fn is_accepting_run(
    states: Seq<StateView>,
    input: Seq<char>,
    steps: Seq<Edge>,
) -> bool {
    &&& follows(states, 0, steps)
    &&& shortest_first(states, 0, steps)
    &&& label(steps) == input
    &&& states[end_of(0, steps)].accepting
}

/// A step put in front of others: what the whole spells and where it ends.
pub proof fn lemma_prepend_step(start: int, step: Edge, steps: Seq<Edge>)
    ensures
        (seq![step] + steps).drop_first() == steps,
        label(seq![step] + steps) == step.0 + label(steps),
        end_of(start, seq![step] + steps) == end_of(step.1 as int, steps),
{
    let all = seq![step] + steps;
    assert(all.drop_first() =~= steps);
    assert(all[0] == step);
    if steps.len() > 0 {
        assert(all.last() == steps.last());
    }
}

/// Matching that uses up its input has gone through transitions that spell
/// the input, each chosen shortest prefix first.
pub proof fn lemma_walk_steps(states: Seq<StateView>, start: int, input: Seq<char>) -> (steps: Seq<
    Edge,
>)
    requires
        well_formed(states),
        0 <= start < states.len(),
        walk(states, start, input).1.len() == 0,
    ensures
        follows(states, start, steps),
        shortest_first(states, start, steps),
        label(steps) == input,
        end_of(start, steps) == walk(states, start, input).0,
        0 <= end_of(start, steps) < states.len(),
        steps.len() <= input.len(),
    decreases input.len(),
{
    if input.len() == 0 {
        assert(input =~= Seq::<char>::empty());
        Seq::empty()
    } else {
        let edges = states[start].edges;
        lemma_shortest_match(edges, input);
        let k = shortest_match(edges, input).unwrap();
        let token = input.take(k);
        lemma_slot_of_present(edges, token);
        let dest = target(edges, token).unwrap();
        let rest = lemma_walk_steps(states, dest as int, input.skip(k));
        let step = (token, dest);
        lemma_prepend_step(start, step, rest);
        let steps = seq![step] + rest;
        assert(steps[0] == step);
        assert(token + input.skip(k) =~= input);
        steps
    }
}

/// Transitions that follow one another from `start`, each chosen shortest
/// prefix first, are what matching the text they spell goes through.
pub proof fn lemma_steps_walk(states: Seq<StateView>, start: int, steps: Seq<Edge>)
    requires
        follows(states, start, steps),
        shortest_first(states, start, steps),
    ensures
        walk(states, start, label(steps)) == (end_of(start, steps), Seq::<char>::empty()),
    decreases steps.len(),
{
    if steps.len() == 0 {
    } else {
        let input = label(steps);
        let rest = steps.drop_first();
        let edges = states[start].edges;
        lemma_shortest_match(edges, input);
        let k = steps[0].0.len() as int;
        assert(input.take(k) =~= steps[0].0);
        assert(input.skip(k) =~= label(rest));
        lemma_steps_walk(states, steps[0].1 as int, rest);
        if rest.len() > 0 {
            assert(rest.last() == steps.last());
        }
    }
}

/// An input is accepted exactly if it has an accepting run.
pub proof fn lemma_accepts_iff_run(states: Seq<StateView>, input: Seq<char>)
    requires
        well_formed(states),
    ensures
        accepts(states, input) <==> exists|steps: Seq<Edge>| is_accepting_run(states, input, steps),
{
    if accepts(states, input) {
        let steps = lemma_walk_steps(states, 0, input);
        assert(is_accepting_run(states, input, steps));
    }
    if exists|steps: Seq<Edge>| is_accepting_run(states, input, steps) {
        let steps = choose|steps: Seq<Edge>| is_accepting_run(states, input, steps);
        lemma_steps_walk(states, 0, steps);
    }
}

} // verus!
