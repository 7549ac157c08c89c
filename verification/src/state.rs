//! A state of an automaton: its outgoing transitions and whether it accepts.

use vstd::prelude::*;
use crate::model::{
    ascending, collect_edges, distinct_tokens, edge_map, has_token, insert_edge, is_rank, is_slot,
    lemma_ascending_distinct, lemma_collect_edges, lemma_rank_is, lemma_slot_is, map_of_pairs,
    target, Edge, StateView,
};
use crate::text::{
    chars_of, lemma_less_irreflexive, lemma_less_transitive, matches_at, order_of, same_text,
    text_less, Rank,
};

verus! {

/// The tokens and destinations of a list of transitions.
pub open spec fn pairs_view(pairs: Seq<(&str, usize)>) -> Seq<Edge> {
    pairs.map_values(|p: (&str, usize)| (p.0@, p.1))
}

/// A node of an automaton. Each token labels at most one transition; the
/// transitions are kept in the order of their tokens, which is the order of
/// strings.
#[derive(Debug)]
pub struct State<'a> {
    transitions: Vec<(&'a str, usize)>,
    end_state: bool,
}

impl<'a> View for State<'a> {
    type V = StateView;

    closed spec fn view(&self) -> StateView {
        StateView { edges: pairs_view(self.transitions@), accepting: self.end_state }
    }
}

/// The place of the first transition in `list` that is labelled `token`.
fn find_token(list: &Vec<(&str, usize)>, token: &str) -> (found: Option<usize>)
    ensures
        match found {
            Some(i) => is_slot(pairs_view(list@), token@, i as int),
            None => !has_token(pairs_view(list@), token@),
        },
{
    let mut i: usize = 0;
    while i < list.len()
        invariant
            i <= list@.len(),
            forall|j: int| 0 <= j < i ==> (#[trigger] pairs_view(list@)[j]).0 != token@,
        decreases list@.len() - i,
    {
        if same_text(list[i].0, token) {
            return Some(i);
        }
        i += 1;
    }
    None
}

/// The place for `token` among the transitions in `list`, and whether the
/// transition there carries it.
fn find_place(list: &Vec<(&str, usize)>, token: &Vec<char>) -> (found: (usize, bool))
    requires
        ascending(pairs_view(list@)),
    ensures
        found.1 ==> is_slot(pairs_view(list@), token@, found.0 as int),
        !found.1 ==> !has_token(pairs_view(list@), token@) && is_rank(
            pairs_view(list@),
            token@,
            found.0 as int,
        ),
{
    let ghost edges = pairs_view(list@);
    let mut i: usize = 0;
    while i < list.len()
        invariant
            i <= list@.len(),
            edges == pairs_view(list@),
            ascending(edges),
            forall|j: int| 0 <= j < i ==> text_less((#[trigger] edges[j]).0, token@),
        decreases list@.len() - i,
    {
        match order_of(list[i].0, token) {
            Rank::Before => {
                i += 1;
            },
            Rank::Same => {
                proof {
                    lemma_less_irreflexive(token@);
                }
                return (i, true);
            },
            Rank::After => {
                proof {
                    let here = edges[i as int].0;
                    lemma_less_irreflexive(token@);
                    if text_less(here, token@) {
                        lemma_less_transitive(token@, here, token@);
                    }
                    assert forall|j: int| 0 <= j < edges.len() implies (#[trigger] edges[j]).0
                        != token@ by {
                        if j > i {
                            assert(text_less(edges[i as int].0, edges[j].0));
                            lemma_less_transitive(token@, here, edges[j].0);
                        }
                    }
                }
                return (i, false);
            },
        }
    }
    proof {
        lemma_less_irreflexive(token@);
    }
    (i, false)
}

impl<'a> State<'a> {
    #[verifier::type_invariant]
    spec fn tokens_rise(&self) -> bool {
        ascending(pairs_view(self.transitions@))
    }

    /// The tokens rise from each transition to the next, in the order of
    /// strings; so no two transitions carry the same token.
    pub fn tokens_are_ascending(&self)
        ensures
            ascending(self@.edges),
            distinct_tokens(self@.edges),
    {
        proof {
            use_type_invariant(self);
            lemma_ascending_distinct(self@.edges);
        }
    }

    /// A state with the given transitions. Of the pairs with one token the
    /// last gives the destination; the transitions are kept in the order of
    /// their tokens, whatever the order of the pairs.
    pub fn new(transitions: Vec<(&'a str, usize)>, end_state: bool) -> (state: Self)
        ensures
            state@.accepting == end_state,
            ascending(state@.edges),
            edge_map(state@.edges) == map_of_pairs(pairs_view(transitions@)),
            state@.edges == collect_edges(pairs_view(transitions@)),
            distinct_tokens(state@.edges),
    {
        let ghost pairs = pairs_view(transitions@);
        let mut kept: Vec<(&'a str, usize)> = Vec::new();
        let mut i: usize = 0;
        while i < transitions.len()
            invariant
                i <= transitions@.len(),
                pairs == pairs_view(transitions@),
                pairs_view(kept@) == collect_edges(pairs.take(i as int)),
            decreases transitions@.len() - i,
        {
            let (token, dest) = transitions[i];
            let ghost before = pairs_view(kept@);
            proof {
                lemma_collect_edges(pairs.take(i as int));
            }
            let chars = chars_of(token);
            let (k, present) = find_place(&kept, &chars);
            if present {
                kept.set(k, (token, dest));
                proof {
                    lemma_slot_is(before, token@, k as int);
                }
            } else {
                kept.insert(k, (token, dest));
                proof {
                    lemma_rank_is(before, token@, k as int);
                }
            }
            proof {
                assert(pairs.take(i + 1).drop_last() =~= pairs.take(i as int));
                assert(pairs.take(i + 1).last() == (token@, dest));
                assert(pairs_view(kept@) =~= insert_edge(before, token@, dest));
            }
            i += 1;
        }
        proof {
            assert(pairs.take(i as int) =~= pairs);
            lemma_collect_edges(pairs);
        }
        State { transitions: kept, end_state }
    }

    /// Whether the state accepts.
    pub fn is_accepting(&self) -> (accepting: bool)
        ensures
            accepting == self@.accepting,
    {
        self.end_state
    }

    /// The number of transitions.
    pub fn len(&self) -> (n: usize)
        ensures
            n == self@.edges.len(),
    {
        self.transitions.len()
    }

    /// The transition at place `i`.
    pub fn transition(&self, i: usize) -> (edge: (&'a str, usize))
        requires
            i < self@.edges.len(),
        ensures
            (edge.0@, edge.1) == self@.edges[i as int],
    {
        self.transitions[i]
    }

    /// Where `token` leads.
    pub fn lookup(&self, token: &str) -> (dest: Option<usize>)
        ensures
            dest == target(self@.edges, token@),
    {
        match find_token(&self.transitions, token) {
            Some(k) => {
                proof {
                    lemma_slot_is(self@.edges, token@, k as int);
                }
                Some(self.transitions[k].1)
            },
            None => None,
        }
    }

    /// Where the piece of `input` that starts at `start` and is `len`
    /// characters long leads.
    pub fn lookup_at(&self, input: &Vec<char>, start: usize, len: usize) -> (dest: Option<usize>)
        requires
            start + len <= input@.len(),
        ensures
            dest == target(self@.edges, input@.subrange(start as int, start + len)),
    {
        let ghost word = input@.subrange(start as int, start + len);
        let mut i: usize = 0;
        while i < self.transitions.len()
            invariant
                i <= self.transitions@.len(),
                start + len <= input@.len(),
                word == input@.subrange(start as int, start + len),
                forall|j: int| 0 <= j < i ==> (#[trigger] self@.edges[j]).0 != word,
            decreases self.transitions@.len() - i,
        {
            if matches_at(self.transitions[i].0, input, start, len) {
                proof {
                    lemma_slot_is(self@.edges, word, i as int);
                }
                return Some(self.transitions[i].1);
            }
            i += 1;
        }
        None
    }
}

} // verus!
