//! How the strings listed by walking back relate to the paths of the
//! automaton and to the strings that it accepts.

use vstd::prelude::*;
use crate::language::{
    expand, expands_from, extends_by, language_upto, lemma_expand_contains, lemma_language_contains,
    lemma_language_stable, level, Path,
};
use crate::matcher::{
    accepts, destinations_valid, end_of, follows, label, lemma_prepend_step,
    lemma_shortest_match_is, lemma_steps_walk, lemma_walk_steps, shortest_first, shortest_match,
    well_formed,
};
use crate::model::{
    distinct_tokens, has_token, lemma_slot_of_present, slot, tokens_distinct, Edge, StateView,
};
use crate::reverse::{
    lemma_accepting_listed, lemma_accepting_upto, lemma_reverse_edges_exact,
    lemma_reverse_valid, reverse_of,
};

verus! {

/// Whether `steps` are transitions that follow one another from `start`
/// and end in an accepting state.
pub open spec fn leads_to_accepting(states: Seq<StateView>, start: int, steps: Seq<Edge>) -> bool {
    &&& 0 <= start < states.len()
    &&& follows(states, start, steps)
    &&& 0 <= end_of(start, steps) < states.len()
    &&& states[end_of(start, steps)].accepting
}

/// Every path found by walking back `depth` edges spells that many
/// transitions of the automaton, from the state where the path is to an
/// accepting state.
pub proof fn lemma_level_sound(states: Seq<StateView>, depth: nat, path: Path) -> (steps: Seq<Edge>)
    requires
        destinations_valid(states),
        tokens_distinct(states),
        level(reverse_of(states), depth).contains(path),
    ensures
        steps.len() == depth,
        leads_to_accepting(states, path.0, steps),
        label(steps) == path.1,
    decreases depth,
{
    let reverse = reverse_of(states);
    lemma_reverse_valid(states);
    if depth == 0 {
        let seeds = level(reverse, 0);
        let k = choose|k: int| 0 <= k < seeds.len() && seeds[k] == path;
        lemma_accepting_upto(states, states.len() as int, k);
        Seq::empty()
    } else {
        let shorter = level(reverse, (depth - 1) as nat);
        lemma_expand_contains(reverse, shorter, path);
        let i = choose|i: int| expands_from(reverse, shorter, i, path);
        let e = choose|e: int| extends_by(reverse, shorter[i], e, path);
        let tail = shorter[i];
        assert(shorter.contains(tail));
        let rest = lemma_level_sound(states, (depth - 1) as nat, tail);
        let parent = reverse.states[tail.0][e];
        assert(reverse.states[tail.0].contains(parent));
        lemma_reverse_edges_exact(states, tail.0, parent);
        let step = (parent.1, tail.0 as usize);
        lemma_prepend_step(parent.0, step, rest);
        let steps = seq![step] + rest;
        assert(steps[0] == step);
        steps
    }
}

/// Transitions that follow one another to an accepting state are found by
/// walking back as many edges.
pub proof fn lemma_level_complete(states: Seq<StateView>, start: int, steps: Seq<Edge>)
    requires
        destinations_valid(states),
        tokens_distinct(states),
        leads_to_accepting(states, start, steps),
    ensures
        level(reverse_of(states), steps.len()).contains((start, label(steps))),
    decreases steps.len(),
{
    let reverse = reverse_of(states);
    let n = states.len() as int;
    if steps.len() == 0 {
        lemma_accepting_listed(states, n, start);
        let k = choose|k: int| 0 <= k < reverse.accepting.len() && reverse.accepting[k] == start;
        assert(level(reverse, 0)[k] == (start, Seq::<char>::empty()));
    } else {
        let token = steps[0].0;
        let dest = steps[0].1 as int;
        let rest = steps.drop_first();
        let edges = states[start].edges;
        lemma_slot_of_present(edges, token);
        assert(edges[slot(edges, token)].1 < n);
        if rest.len() > 0 {
            assert(rest.last() == steps.last());
        }
        lemma_level_complete(states, dest, rest);
        let shorter = level(reverse, rest.len());
        let tail = (dest, label(rest));
        let i = choose|i: int| 0 <= i < shorter.len() && shorter[i] == tail;
        let parent = (start, token);
        lemma_reverse_edges_exact(states, dest, parent);
        let e = choose|e: int|
            0 <= e < reverse.states[dest].len() && reverse.states[dest][e] == parent;
        let path = (start, label(steps));
        assert(extends_by(reverse, shorter[i], e, path));
        assert(expands_from(reverse, shorter, i, path));
        lemma_expand_contains(reverse, shorter, path);
        assert(steps.len() == rest.len() + 1);
        assert(level(reverse, steps.len()) == expand(reverse, level(reverse, rest.len())));
    }
}

/// Every token is non-empty and none is a prefix of another.
pub open spec fn prefix_free(edges: Seq<Edge>) -> bool {
    &&& forall|i: int| 0 <= i < edges.len() ==> (#[trigger] edges[i]).0.len() > 0
    &&& forall|i: int, j: int|
        0 <= i < edges.len() && 0 <= j < edges.len() && i != j ==> !(
        #[trigger] edges[i]).0.is_prefix_of((#[trigger] edges[j]).0)
}

/// In every state the tokens are non-empty and none is a prefix of another.
pub open spec fn tokens_prefix_free(states: Seq<StateView>) -> bool {
    forall|s: int| 0 <= s < states.len() ==> prefix_free((#[trigger] states[s]).edges)
}

/// Tokens of which none is a prefix of another are distinct.
pub proof fn lemma_prefix_free_distinct(states: Seq<StateView>)
    requires
        tokens_prefix_free(states),
    ensures
        tokens_distinct(states),
{
    assert forall|s: int| 0 <= s < states.len() implies distinct_tokens(
        (#[trigger] states[s]).edges,
    ) by {
        let edges = states[s].edges;
        assert(prefix_free(edges));
        assert forall|i: int, j: int| 0 <= i < j < edges.len() implies (#[trigger] edges[i]).0 != (
        #[trigger] edges[j]).0 by {
            if edges[i].0 == edges[j].0 {
                assert(edges[i].0.is_prefix_of(edges[j].0));
            }
        }
    }
}

/// Where no token is a prefix of another, a token at the head of the input
/// is the shortest match.
pub proof fn lemma_prefix_free_match(edges: Seq<Edge>, token: Seq<char>, rest: Seq<char>)
    requires
        prefix_free(edges),
        has_token(edges, token),
    ensures
        shortest_match(edges, token + rest) == Some(token.len() as int),
{
    let input = token + rest;
    let k = token.len() as int;
    lemma_slot_of_present(edges, token);
    let at = slot(edges, token);
    assert(edges[at].0.len() > 0);
    assert(input.take(k) =~= token);
    assert forall|j: int| 1 <= j < k implies !has_token(edges, #[trigger] input.take(j)) by {
        let shorter = input.take(j);
        if has_token(edges, shorter) {
            lemma_slot_of_present(edges, shorter);
            let other = slot(edges, shorter);
            assert(shorter =~= token.subrange(0, j));
            assert(edges[other].0.is_prefix_of(edges[at].0));
        }
    }
    lemma_shortest_match_is(edges, input, k);
}

/// Where no token is a prefix of another, transitions that follow one
/// another are each the shortest match.
pub proof fn lemma_follows_shortest_first(states: Seq<StateView>, start: int, steps: Seq<Edge>)
    requires
        tokens_prefix_free(states),
        follows(states, start, steps),
    ensures
        shortest_first(states, start, steps),
    decreases steps.len(),
{
    if steps.len() > 0 {
        lemma_prefix_free_match(states[start].edges, steps[0].0, label(steps.drop_first()));
        lemma_follows_shortest_first(states, steps[0].1 as int, steps.drop_first());
    }
}

/// Every string listed is accepted, where in no state a token is a prefix of
/// another.
pub proof fn lemma_listed_is_accepted(states: Seq<StateView>, depth: nat, text: Seq<char>)
    requires
        well_formed(states),
        tokens_prefix_free(states),
        language_upto(reverse_of(states), depth).contains(text),
    ensures
        accepts(states, text),
{
    let reverse = reverse_of(states);
    lemma_prefix_free_distinct(states);
    lemma_language_contains(reverse, depth, text);
    let d = choose|d: nat| d <= depth && #[trigger] level(reverse, d).contains((0int, text));
    let steps = lemma_level_sound(states, d, (0int, text));
    lemma_follows_shortest_first(states, 0, steps);
    lemma_steps_walk(states, 0, steps);
}

/// Every accepted string of at most `depth` characters is listed by walking
/// back `depth` edges.
pub proof fn lemma_accepted_is_listed(states: Seq<StateView>, depth: nat, text: Seq<char>)
    requires
        well_formed(states),
        tokens_distinct(states),
        accepts(states, text),
        text.len() <= depth,
    ensures
        language_upto(reverse_of(states), depth).contains(text),
{
    let reverse = reverse_of(states);
    let steps = lemma_walk_steps(states, 0, text);
    lemma_level_complete(states, 0, steps);
    assert(steps.len() <= depth && level(reverse, steps.len()).contains((0int, text)));
    lemma_language_contains(reverse, depth, text);
}

/// Where walking back comes to an end, the strings listed are the strings
/// accepted, if in no state a token is a prefix of another.
pub proof fn lemma_round_trip(states: Seq<StateView>, text: Seq<char>)
    requires
        well_formed(states),
        tokens_prefix_free(states),
        level(reverse_of(states), states.len()).len() == 0,
    ensures
        language_upto(reverse_of(states), states.len()).contains(text) <==> accepts(states, text),
{
    let reverse = reverse_of(states);
    let n = states.len();
    lemma_prefix_free_distinct(states);
    if language_upto(reverse, n).contains(text) {
        lemma_listed_is_accepted(states, n, text);
    }
    if accepts(states, text) {
        let steps = lemma_walk_steps(states, 0, text);
        lemma_level_complete(states, 0, steps);
        if steps.len() >= n {
            lemma_language_stable(reverse, (n - 1) as nat, (steps.len() - 1) as nat);
            assert(level(reverse, steps.len()).len() == 0);
        }
        assert(steps.len() <= n && level(reverse, steps.len()).contains((0int, text)));
        lemma_language_contains(reverse, n, text);
    }
}

} // verus!
