//! The automaton and its forward matcher.

use vstd::prelude::*;
use vstd::string::StrSliceExecFns;
use crate::matcher::{
    accepts, destinations_valid, lemma_shortest_match, lemma_shortest_match_is, walk, well_formed,
};
use crate::model::{
    ascending, has_token, lemma_slot_of_present, lemma_tokens_ascending_distinct, slot, target,
    tokens_ascending, tokens_distinct, StateView,
};
use crate::state::State;
use crate::text::chars_of;

verus! {

/// A sequence of states; the state at index 0 is the start state.
#[derive(Debug)]
pub struct Automaton<'a> {
    states: Vec<State<'a>>,
}

/// Where matching got stuck: the state reached and the input that was left,
/// of which no non-empty prefix labels a transition of that state.
#[derive(Debug)]
pub struct MatchFailure<'b> {
    pub state: usize,
    pub remaining: &'b str,
}

impl<'a> View for Automaton<'a> {
    type V = Seq<StateView>;

    closed spec fn view(&self) -> Seq<StateView> {
        self.states@.map_values(|s: State<'a>| s@)
    }
}

impl<'a> Automaton<'a> {
    #[verifier::type_invariant]
    spec fn tokens_rise(&self) -> bool {
        tokens_ascending(self@)
    }

    /// In every state the tokens rise from each transition to the next, in
    /// the order of strings; so no state has two transitions with one token.
    pub fn tokens_are_ascending(&self)
        ensures
            tokens_ascending(self@),
            tokens_distinct(self@),
    {
        proof {
            use_type_invariant(self);
            lemma_tokens_ascending_distinct(self@);
        }
    }

    /// An automaton without states.
    pub fn new() -> (automaton: Self)
        ensures
            automaton@ == Seq::<StateView>::empty(),
    {
        let automaton = Automaton { states: Vec::new() };
        assert(automaton@ =~= Seq::<StateView>::empty());
        automaton
    }

    /// Appends `state`; its index is the number of states before the call.
    pub fn add_state(&mut self, state: State<'a>)
        ensures
            final(self)@ == old(self)@.push(state@),
    {
        let at = self.states.len();
        self.insert_state(at, state);
        assert(old(self)@.insert(at as int, state@) =~= old(self)@.push(state@));
    }

    /// Puts `state` at index `at`; the states from there on move up by one.
    pub(crate) fn insert_state(&mut self, at: usize, state: State<'a>)
        requires
            at <= old(self)@.len(),
        ensures
            final(self)@ == old(self)@.insert(at as int, state@),
    {
        proof {
            use_type_invariant(&*self);
        }
        state.tokens_are_ascending();
        let mut states: Vec<State<'a>> = Vec::new();
        core::mem::swap(&mut self.states, &mut states);
        states.insert(at, state);
        proof {
            let after = states@.map_values(|s: State<'a>| s@);
            assert(after =~= old(self)@.insert(at as int, state@));
            assert forall|i: int| 0 <= i < after.len() implies ascending(
                (#[trigger] after[i]).edges,
            ) by {
                if i < at {
                    assert(after[i] == old(self)@[i]);
                } else if i > at {
                    assert(after[i] == old(self)@[i - 1]);
                }
            }
        }
        self.states = states;
        assert(self@ =~= old(self)@.insert(at as int, state@));
    }

    /// The number of states.
    pub fn len(&self) -> (n: usize)
        ensures
            n == self@.len(),
    {
        self.states.len()
    }

    /// The state at index `i`.
    pub fn state(&self, i: usize) -> (state: &State<'a>)
        requires
            i < self@.len(),
        ensures
            state@ == self@[i as int],
    {
        &self.states[i]
    }

    /// The first transition that leads to no state, as the index of its
    /// state and its place among that state's transitions.
    pub fn dangling(&self) -> (found: Option<(usize, usize)>)
        ensures
            match found {
                Some((s, e)) => {
                    &&& s < self@.len()
                    &&& e < self@[s as int].edges.len()
                    &&& self@[s as int].edges[e as int].1 >= self@.len()
                    &&& forall|p: int, f: int|
                        0 <= p <= s && 0 <= f < self@[p].edges.len() && (p < s || f < e) ==> (
                        #[trigger] self@[p].edges[f]).1 < self@.len()
                },
                None => destinations_valid(self@),
            },
    {
        let n = self.states.len();
        let mut s: usize = 0;
        while s < n
            invariant
                s <= n == self@.len(),
                forall|p: int, f: int|
                    0 <= p < s && 0 <= f < self@[p].edges.len() ==> (#[trigger] self@[p].edges[f]).1
                        < n,
            decreases n - s,
        {
            let state = &self.states[s];
            let count = state.len();
            let mut e: usize = 0;
            while e < count
                invariant
                    s < n == self@.len(),
                    state@ == self@[s as int],
                    e <= count == state@.edges.len(),
                    forall|f: int| 0 <= f < e ==> (#[trigger] state@.edges[f]).1 < n,
                    forall|p: int, f: int|
                        0 <= p < s && 0 <= f < self@[p].edges.len() ==> (
                        #[trigger] self@[p].edges[f]).1 < n,
                decreases count - e,
            {
                let edge = state.transition(e);
                if edge.1 >= n {
                    return Some((s, e));
                }
                e += 1;
            }
            s += 1;
        }
        None
    }

    /// Whether there is a start state and every transition leads to a state
    /// of the automaton.
    pub fn is_well_formed(&self) -> (ok: bool)
        ensures
            ok == well_formed(self@),
    {
        if self.states.len() == 0 {
            return false;
        }
        match self.dangling() {
            Some((s, e)) => {
                assert(!(self@[s as int].edges[e as int].1 < self@.len()));
                false
            },
            None => true,
        }
    }

    /// Matches `input` from the start state, each time taking the shortest
    /// non-empty prefix of what is left that labels a transition of the
    /// current state. Returns the state in which the input was used up, or
    /// where matching got stuck and on what.
    pub fn try_run<'b>(&self, input: &'b str) -> (end: Result<usize, MatchFailure<'b>>)
        requires
            well_formed(self@),
        ensures
            match end {
                Ok(state) => walk(self@, 0, input@) == (state as int, Seq::<char>::empty()),
                Err(failure) => failure.remaining@.len() > 0 && walk(self@, 0, input@) == (
                    failure.state as int,
                    failure.remaining@,
                ),
            },
            end matches Ok(state) ==> state < self@.len(),
            end matches Err(failure) ==> failure.state < self@.len(),
    {
        let chars = chars_of(input);
        let total = chars.len();
        let mut position: usize = 0;
        let mut current: usize = 0;
        assert(input@.skip(0) =~= input@);
        while position < total
            invariant
                well_formed(self@),
                chars@ == input@,
                total == chars@.len(),
                position <= total,
                current < self@.len(),
                walk(self@, 0, input@) == walk(self@, current as int, input@.skip(position as int)),
            decreases total - position,
        {
            let ghost rest = input@.skip(position as int);
            let ghost edges = self@[current as int].edges;
            let state = &self.states[current];
            let left = total - position;
            let mut tried: usize = 0;
            let mut next: Option<usize> = None;
            while tried < left && next.is_none()
                invariant
                    chars@ == input@,
                    total == chars@.len(),
                    position + left == total,
                    rest == input@.skip(position as int),
                    state@.edges == edges,
                    tried <= left,
                    forall|j: int| 1 <= j <= tried ==> !has_token(edges, #[trigger] rest.take(j)),
                    next matches Some(dest) ==> tried < left && target(edges, rest.take(tried + 1))
                        == Some(dest),
                decreases left - tried + (if next is None { 1int } else { 0int }),
            {
                let found = state.lookup_at(&chars, position, tried + 1);
                proof {
                    assert(rest.take(tried + 1) =~= chars@.subrange(
                        position as int,
                        position + tried + 1,
                    ));
                }
                match found {
                    Some(dest) => {
                        next = Some(dest);
                    },
                    None => {
                        tried += 1;
                    },
                }
            }
            match next {
                Some(dest) => {
                    proof {
                        let token = rest.take(tried + 1);
                        lemma_shortest_match_is(edges, rest, tried + 1);
                        lemma_slot_of_present(edges, token);
                        assert(edges[slot(edges, token)].1 == dest);
                        assert(rest.skip(tried + 1) =~= input@.skip(position + tried + 1));
                    }
                    position += tried + 1;
                    current = dest;
                },
                None => {
                    proof {
                        lemma_shortest_match(edges, rest);
                    }
                    let remaining = input.substring_char(position, total);
                    proof {
                        assert(remaining@ =~= rest);
                    }
                    return Err(MatchFailure { state: current, remaining });
                },
            }
        }
        proof {
            assert(input@.skip(position as int) =~= Seq::<char>::empty());
        }
        Ok(current)
    }

    /// Whether the automaton accepts `input`.
    pub fn run(&self, input: &str) -> (accepted: bool)
        requires
            well_formed(self@),
        ensures
            accepted == accepts(self@, input@),
    {
        match self.try_run(input) {
            Ok(state) => self.states[state].is_accepting(),
            Err(_) => false,
        }
    }
}

} // verus!
