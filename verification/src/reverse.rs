//! The automaton with its edges turned round.

use vstd::prelude::*;
use crate::automaton::Automaton;
use crate::matcher::{destinations_valid, is_edge};
use crate::model::{
    ascending, distinct_tokens, lemma_slot_of_present, lemma_slot_unique, slot, tokens_ascending,
    tokens_distinct, Edge, StateView,
};
use crate::text::text_less;

verus! {

/// An edge seen from the state it leads to: the state it comes from and the
/// token that labels it.
pub type Parent = (int, Seq<char>);

/// What a reverse automaton is: for each state the edges that lead to it, and
/// the indices of the accepting states.
pub struct ReverseView {
    pub states: Seq<Seq<Parent>>,
    pub accepting: Seq<int>,
}

/// Those of `edges`, the edges out of state `source`, that lead to `dest`,
/// in their order.
pub open spec fn parents_among(edges: Seq<Edge>, source: int, dest: int) -> Seq<Parent>
    decreases edges.len(),
{
    if edges.len() == 0 {
        Seq::empty()
    } else if edges.last().1 == dest {
        parents_among(edges.drop_last(), source, dest).push((source, edges.last().0))
    } else {
        parents_among(edges.drop_last(), source, dest)
    }
}

/// The edges that lead to `dest` out of the first `count` states, by state
/// and, within a state, in the order of its edges.
pub open spec fn parents_upto(states: Seq<StateView>, count: int, dest: int) -> Seq<Parent>
    decreases count,
{
    if count <= 0 {
        Seq::empty()
    } else {
        parents_upto(states, count - 1, dest) + parents_among(
            states[count - 1].edges,
            count - 1,
            dest,
        )
    }
}

/// The indices of the accepting states among the first `count`, ascending.
pub open spec fn accepting_upto(states: Seq<StateView>, count: int) -> Seq<int>
    decreases count,
{
    if count <= 0 {
        Seq::empty()
    } else if states[count - 1].accepting {
        accepting_upto(states, count - 1).push(count - 1)
    } else {
        accepting_upto(states, count - 1)
    }
}

/// The reverse of an automaton.
pub open spec fn reverse_of(states: Seq<StateView>) -> ReverseView {
    ReverseView {
        states: Seq::new(states.len(), |d: int| parents_upto(states, states.len() as int, d)),
        accepting: accepting_upto(states, states.len() as int),
    }
}

/// Every edge comes from a state and every accepting index is that of a state.
pub open spec fn reverse_valid(reverse: ReverseView) -> bool {
    &&& forall|d: int, e: int|
        0 <= d < reverse.states.len() && 0 <= e < reverse.states[d].len() ==> 0 <= (
        #[trigger] reverse.states[d][e]).0 < reverse.states.len()
    &&& forall|i: int|
        0 <= i < reverse.accepting.len() ==> 0 <= #[trigger] reverse.accepting[i]
            < reverse.states.len()
}

/// The edges that lead to one state.
#[derive(Debug, Clone)]
pub struct ReverseState<'a> {
    parent_states: Vec<(usize, &'a str)>,
}

impl<'a> View for ReverseState<'a> {
    type V = Seq<Parent>;

    closed spec fn view(&self) -> Seq<Parent> {
        self.parent_states@.map_values(|p: (usize, &'a str)| (p.0 as int, p.1@))
    }
}

impl<'a> ReverseState<'a> {
    /// A state to which no edge leads.
    pub fn new() -> (state: Self)
        ensures
            state@ == Seq::<Parent>::empty(),
    {
        let state = ReverseState { parent_states: Vec::new() };
        assert(state@ =~= Seq::<Parent>::empty());
        state
    }

    /// Records an edge labelled `word` that comes from state `state_idx`.
    pub fn add_parent(&mut self, state_idx: usize, word: &'a str)
        ensures
            final(self)@ == old(self)@.push((state_idx as int, word@)),
    {
        self.parent_states.push((state_idx, word));
        assert(self@ =~= old(self)@.push((state_idx as int, word@)));
    }

    /// The number of edges that lead to the state.
    pub fn len(&self) -> (n: usize)
        ensures
            n == self@.len(),
    {
        self.parent_states.len()
    }

    /// The edge at place `i`.
    pub fn parent(&self, i: usize) -> (edge: (usize, &'a str))
        requires
            i < self@.len(),
        ensures
            (edge.0 as int, edge.1@) == self@[i as int],
    {
        self.parent_states[i]
    }
}

/// An automaton's edges, each kept with the state it leads to, and the
/// indices of its accepting states.
#[derive(Debug)]
pub struct ReverseAutomaton<'a> {
    states: Vec<ReverseState<'a>>,
    end_states: Vec<usize>,
}

impl<'a> View for ReverseAutomaton<'a> {
    type V = ReverseView;

    closed spec fn view(&self) -> ReverseView {
        ReverseView {
            states: self.states@.map_values(|s: ReverseState<'a>| s@),
            accepting: self.end_states@.map_values(|i: usize| i as int),
        }
    }
}

impl<'a> ReverseAutomaton<'a> {
    #[verifier::type_invariant]
    spec fn indices_valid(&self) -> bool {
        reverse_valid(self@)
    }

    /// Every edge comes from a state and every accepting index is that of a
    /// state.
    pub fn is_valid(&self)
        ensures
            reverse_valid(self@),
    {
        proof {
            use_type_invariant(self);
        }
    }

    /// The number of states.
    pub fn len(&self) -> (n: usize)
        ensures
            n == self@.states.len(),
    {
        self.states.len()
    }

    /// The edges that lead to the state at index `i`.
    pub fn state(&self, i: usize) -> (state: &ReverseState<'a>)
        requires
            i < self@.states.len(),
        ensures
            state@ == self@.states[i as int],
    {
        &self.states[i]
    }

    /// The indices of the accepting states.
    pub fn accepting_indices(&self) -> (indices: &Vec<usize>)
        ensures
            indices@.map_values(|i: usize| i as int) == self@.accepting,
    {
        &self.end_states
    }

    /// Turns every edge of `automaton` round: with each state are kept, once
    /// each, the transitions that lead to it, and nothing else. States come
    /// in the order of the automaton, the edges into one state in the order
    /// of the states they come from and, from one state, in the order of
    /// their tokens.
    pub fn from_automaton(automaton: &Automaton<'a>) -> (reverse: Self)
        requires
            destinations_valid(automaton@),
        ensures
            reverse@ == reverse_of(automaton@),
            reverse_valid(reverse@),
            reverse@.states.len() == automaton@.len(),
            forall|i: int|
                #[trigger] reverse@.accepting.contains(i) <==> 0 <= i < automaton@.len()
                    && automaton@[i].accepting,
            forall|dest: int, parent: Parent|
                0 <= dest < automaton@.len() ==> (#[trigger] reverse@.states[dest].contains(parent)
                    <==> is_edge(automaton@, parent.0, parent.1, dest)),
            forall|dest: int|
                0 <= dest < automaton@.len() ==> (#[trigger] reverse@.states[dest]).no_duplicates(),
            forall|dest: int|
                0 <= dest < automaton@.len() ==> parents_ascending(
                    #[trigger] reverse@.states[dest],
                ),
    {
        let ghost model = automaton@;
        let n = automaton.len();
        let mut states: Vec<ReverseState<'a>> = Vec::new();
        while states.len() < n
            invariant
                states@.len() <= n,
                forall|d: int| 0 <= d < states@.len() ==> (#[trigger] states@[d])@ == Seq::<
                    Parent,
                >::empty(),
            decreases n - states@.len(),
        {
            states.push(ReverseState::new());
        }
        let mut end_states: Vec<usize> = Vec::new();
        let mut s: usize = 0;
        while s < n
            invariant
                model == automaton@,
                destinations_valid(model),
                n == model.len(),
                s <= n,
                states@.len() == n,
                end_states@.map_values(|i: usize| i as int) == accepting_upto(model, s as int),
                forall|d: int|
                    0 <= d < n ==> (#[trigger] states@[d])@ == parents_upto(model, s as int, d),
            decreases n - s,
        {
            let state = automaton.state(s);
            if state.is_accepting() {
                let ghost before = end_states@.map_values(|i: usize| i as int);
                end_states.push(s);
                assert(end_states@.map_values(|i: usize| i as int) =~= before.push(s as int));
            }
            let count = state.len();
            let ghost edges = model[s as int].edges;
            let mut e: usize = 0;
            while e < count
                invariant
                    destinations_valid(model),
                    n == model.len(),
                    s < n,
                    state@ == model[s as int],
                    edges == model[s as int].edges,
                    count == edges.len(),
                    e <= count,
                    states@.len() == n,
                    forall|d: int|
                        0 <= d < n ==> (#[trigger] states@[d])@ == parents_upto(model, s as int, d)
                            + parents_among(edges.take(e as int), s as int, d),
                decreases count - e,
            {
                let (word, child) = state.transition(e);
                assert(edges[e as int].1 < n);
                let ghost before = states@;
                states[child].add_parent(s, word);
                proof {
                    assert(edges.take(e + 1).drop_last() =~= edges.take(e as int));
                    assert(edges.take(e + 1).last() == edges[e as int]);
                    assert forall|d: int| 0 <= d < n implies (#[trigger] states@[d])@
                        == parents_upto(model, s as int, d) + parents_among(
                        edges.take(e + 1),
                        s as int,
                        d,
                    ) by {
                        if d == child {
                            let so_far = parents_upto(model, s as int, d) + parents_among(
                                edges.take(e as int),
                                s as int,
                                d,
                            );
                            assert(states@[d]@ =~= so_far.push((s as int, word@)));
                            assert(states@[d]@ =~= parents_upto(model, s as int, d)
                                + parents_among(edges.take(e + 1), s as int, d));
                        } else {
                            assert(states@[d] == before[d]);
                        }
                    }
                }
                e += 1;
            }
            proof {
                assert(edges.take(count as int) =~= edges);
            }
            s += 1;
        }
        proof {
            let built = ReverseView {
                states: states@.map_values(|s: ReverseState<'a>| s@),
                accepting: end_states@.map_values(|i: usize| i as int),
            };
            assert(built.states =~= reverse_of(model).states);
            lemma_reverse_valid(model);
        }
        let reverse = ReverseAutomaton { states, end_states };
        automaton.tokens_are_ascending();
        proof {
            assert forall|i: int| #[trigger]
                reverse@.accepting.contains(i) <==> 0 <= i < model.len() && model[i].accepting by {
                lemma_accepting_listed(model, model.len() as int, i);
            }
            assert forall|dest: int, parent: Parent| 0 <= dest < model.len() implies (
            #[trigger] reverse@.states[dest].contains(parent) <==> is_edge(
                model,
                parent.0,
                parent.1,
                dest,
            )) by {
                lemma_reverse_edges_exact(model, dest, parent);
            }
            assert forall|dest: int| 0 <= dest < model.len() implies (
            #[trigger] reverse@.states[dest]).no_duplicates() by {
                lemma_reverse_edges_once(model, dest);
            }
            assert forall|dest: int| 0 <= dest < model.len() implies parents_ascending(
                #[trigger] reverse@.states[dest],
            ) by {
                lemma_parents_upto_ascending(model, model.len() as int, dest);
            }
        }
        reverse
    }
}

/// Whether the edge at place `e` is labelled `token` and leads to `dest`.
pub open spec fn is_edge_at(edges: Seq<Edge>, e: int, token: Seq<char>, dest: int) -> bool {
    0 <= e < edges.len() && edges[e].0 == token && edges[e].1 == dest
}

/// Which parents `parents_among` holds: one for each edge that leads to
/// `dest`, and no other.
pub proof fn lemma_parents_among(edges: Seq<Edge>, source: int, dest: int, parent: Parent)
    ensures
        parents_among(edges, source, dest).contains(parent) <==> parent.0 == source && exists|
            e: int,
        | is_edge_at(edges, e, parent.1, dest),
    decreases edges.len(),
{
    let found = parents_among(edges, source, dest);
    if edges.len() > 0 {
        let front = edges.drop_last();
        let last = edges.len() - 1;
        lemma_parents_among(front, source, dest, parent);
        let before = parents_among(front, source, dest);
        if found.contains(parent) {
            let i = choose|i: int| 0 <= i < found.len() && found[i] == parent;
            if edges.last().1 == dest && i == before.len() {
                assert(is_edge_at(edges, last, parent.1, dest));
            } else {
                assert(before[i] == parent);
                assert(before.contains(parent));
                let e = choose|e: int| is_edge_at(front, e, parent.1, dest);
                assert(is_edge_at(edges, e, parent.1, dest));
            }
        }
        if parent.0 == source && exists|e: int| is_edge_at(edges, e, parent.1, dest) {
            let e = choose|e: int| is_edge_at(edges, e, parent.1, dest);
            if e == last {
                assert(found[before.len() as int] == parent);
            } else {
                assert(is_edge_at(front, e, parent.1, dest));
                assert(before.contains(parent));
                let i = choose|i: int| 0 <= i < before.len() && before[i] == parent;
                assert(found[i] == parent);
            }
        }
    } else {
        assert(!found.contains(parent));
    }
}

/// Which parents `parents_upto` holds: those of each of the first `count`
/// states.
pub proof fn lemma_parents_upto(states: Seq<StateView>, count: int, dest: int, parent: Parent)
    ensures
        parents_upto(states, count, dest).contains(parent) <==> 0 <= parent.0 < count
            && parents_among(states[parent.0].edges, parent.0, dest).contains(parent),
    decreases count,
{
    if count > 0 {
        let before = parents_upto(states, count - 1, dest);
        let here = parents_among(states[count - 1].edges, count - 1, dest);
        lemma_parents_upto(states, count - 1, dest, parent);
        lemma_parents_among(states[count - 1].edges, count - 1, dest, parent);
        let all = before + here;
        if all.contains(parent) {
            let i = choose|i: int| 0 <= i < all.len() && all[i] == parent;
            if i < before.len() {
                assert(before[i] == parent);
            } else {
                assert(here[i - before.len()] == parent);
            }
        }
        if before.contains(parent) {
            let i = choose|i: int| 0 <= i < before.len() && before[i] == parent;
            assert(all[i] == parent);
        }
        if here.contains(parent) {
            let i = choose|i: int| 0 <= i < here.len() && here[i] == parent;
            assert(all[before.len() + i] == parent);
        }
    }
}

/// The reverse automaton holds exactly the edges of the automaton: the edges
/// kept with state `dest` are the pairs of a state and a token such that the
/// token leads from that state to `dest`.
pub proof fn lemma_reverse_edges_exact(states: Seq<StateView>, dest: int, parent: Parent)
    requires
        destinations_valid(states),
        tokens_distinct(states),
        0 <= dest < states.len(),
    ensures
        reverse_of(states).states[dest].contains(parent) <==> is_edge(
            states,
            parent.0,
            parent.1,
            dest,
        ),
{
    let n = states.len() as int;
    lemma_parents_upto(states, n, dest, parent);
    if 0 <= parent.0 < n {
        let edges = states[parent.0].edges;
        lemma_parents_among(edges, parent.0, dest, parent);
        if exists|e: int| is_edge_at(edges, e, parent.1, dest) {
            let e = choose|e: int| is_edge_at(edges, e, parent.1, dest);
            lemma_slot_unique(edges, e);
        }
        if is_edge(states, parent.0, parent.1, dest) {
            lemma_slot_of_present(edges, parent.1);
            let e = slot(edges, parent.1);
            assert(is_edge_at(edges, e, parent.1, dest));
        }
    }
}

/// The edges of one state that lead to `dest` are listed once each.
pub proof fn lemma_parents_among_once(edges: Seq<Edge>, source: int, dest: int)
    requires
        distinct_tokens(edges),
    ensures
        parents_among(edges, source, dest).no_duplicates(),
    decreases edges.len(),
{
    if edges.len() > 0 {
        let front = edges.drop_last();
        let before = parents_among(front, source, dest);
        assert(distinct_tokens(front)) by {
            assert forall|i: int, j: int| 0 <= i < j < front.len() implies (#[trigger] front[i]).0
                != (#[trigger] front[j]).0 by {
                assert(edges[i].0 != edges[j].0);
            }
        }
        lemma_parents_among_once(front, source, dest);
        if edges.last().1 == dest {
            let parent = (source, edges.last().0);
            lemma_parents_among(front, source, dest, parent);
            if before.contains(parent) {
                let e = choose|e: int| is_edge_at(front, e, parent.1, dest);
                assert(edges[e].0 != edges[edges.len() - 1].0);
            }
            assert forall|i: int| 0 <= i < before.len() implies before[i] != parent by {
                if before[i] == parent {
                    assert(before.contains(parent));
                }
            }
        }
    }
}

/// The reverse automaton holds each edge of the automaton once.
pub proof fn lemma_parents_upto_once(states: Seq<StateView>, count: int, dest: int)
    requires
        tokens_distinct(states),
        count <= states.len(),
    ensures
        parents_upto(states, count, dest).no_duplicates(),
    decreases count,
{
    if count > 0 {
        let before = parents_upto(states, count - 1, dest);
        let here = parents_among(states[count - 1].edges, count - 1, dest);
        lemma_parents_upto_once(states, count - 1, dest);
        lemma_parents_among_once(states[count - 1].edges, count - 1, dest);
        let all = before + here;
        assert forall|i: int, j: int| 0 <= i < j < all.len() implies all[i] != all[j] by {
            if i < before.len() && j >= before.len() {
                let k = j - before.len();
                assert(all[i] == before[i] && all[j] == here[k]);
                assert(before.contains(before[i]));
                assert(here.contains(here[k]));
                lemma_parents_upto(states, count - 1, dest, before[i]);
                lemma_parents_among(states[count - 1].edges, count - 1, dest, here[k]);
            } else if j < before.len() {
                assert(all[i] == before[i] && all[j] == before[j]);
            } else {
                assert(all[i] == here[i - before.len()] && all[j] == here[j - before.len()]);
            }
        }
    }
}

/// No edge is kept twice with the state it leads to.
pub proof fn lemma_reverse_edges_once(states: Seq<StateView>, dest: int)
    requires
        tokens_distinct(states),
        0 <= dest < states.len(),
    ensures
        reverse_of(states).states[dest].no_duplicates(),
{
    lemma_parents_upto_once(states, states.len() as int, dest);
}

/// The accepting indices listed are those of states.
pub proof fn lemma_accepting_upto(states: Seq<StateView>, count: int, i: int)
    requires
        0 <= i < accepting_upto(states, count).len(),
    ensures
        0 <= accepting_upto(states, count)[i] < count,
        states[accepting_upto(states, count)[i]].accepting,
    decreases count,
{
    if count > 0 {
        if i < accepting_upto(states, count - 1).len() {
            lemma_accepting_upto(states, count - 1, i);
        }
    }
}

/// The accepting states are listed, and no others.
pub proof fn lemma_accepting_listed(states: Seq<StateView>, count: int, index: int)
    requires
        count <= states.len(),
    ensures
        accepting_upto(states, count).contains(index) <==> 0 <= index < count
            && states[index].accepting,
    decreases count,
{
    let listed = accepting_upto(states, count);
    if count <= 0 {
        assert(!listed.contains(index));
    } else {
        let before = accepting_upto(states, count - 1);
        lemma_accepting_listed(states, count - 1, index);
        if listed.contains(index) {
            let k = choose|k: int| 0 <= k < listed.len() && listed[k] == index;
            lemma_accepting_upto(states, count, k);
        }
        if 0 <= index < count && states[index].accepting {
            if index == count - 1 {
                assert(listed[before.len() as int] == index);
            } else {
                let k = choose|k: int| 0 <= k < before.len() && before[k] == index;
                assert(listed[k] == index);
            }
        }
    }
}

/// In the reverse of an automaton every index is that of a state.
pub proof fn lemma_reverse_valid(states: Seq<StateView>)
    ensures
        reverse_valid(reverse_of(states)),
{
    let reverse = reverse_of(states);
    let n = states.len() as int;
    assert forall|d: int, e: int|
        0 <= d < reverse.states.len() && 0 <= e < reverse.states[d].len() implies 0 <= (
    #[trigger] reverse.states[d][e]).0 < reverse.states.len() by {
        let parent = reverse.states[d][e];
        assert(reverse.states[d].contains(parent));
        lemma_parents_upto(states, n, d, parent);
    }
    assert forall|i: int| 0 <= i < reverse.accepting.len() implies 0
        <= #[trigger] reverse.accepting[i] < reverse.states.len() by {
        lemma_accepting_upto(states, n, i);
    }
}

/// Whether `a` stands before `b` among the edges into a state: it comes
/// from an earlier state or, from the same state, with an earlier token.
pub open spec fn parent_before(a: Parent, b: Parent) -> bool {
    a.0 < b.0 || (a.0 == b.0 && text_less(a.1, b.1))
}

/// Whether `parents` come by source state and, from one state, by token.
pub open spec fn parents_ascending(parents: Seq<Parent>) -> bool {
    forall|i: int, j: int|
        0 <= i < j < parents.len() ==> parent_before(#[trigger] parents[i], #[trigger] parents[j])
}

/// The edges of one state that lead to `dest` come in the order of their
/// tokens.
pub proof fn lemma_parents_among_ascending(edges: Seq<Edge>, source: int, dest: int)
    requires
        ascending(edges),
    ensures
        parents_ascending(parents_among(edges, source, dest)),
    decreases edges.len(),
{
    if edges.len() > 0 {
        let front = edges.drop_last();
        let before = parents_among(front, source, dest);
        assert(ascending(front)) by {
            assert forall|i: int, j: int| 0 <= i < j < front.len() implies text_less(
                (#[trigger] front[i]).0,
                (#[trigger] front[j]).0,
            ) by {
                assert(text_less(edges[i].0, edges[j].0));
            }
        }
        lemma_parents_among_ascending(front, source, dest);
        if edges.last().1 == dest {
            let all = parents_among(edges, source, dest);
            assert forall|i: int, j: int| 0 <= i < j < all.len() implies parent_before(
                #[trigger] all[i],
                #[trigger] all[j],
            ) by {
                if j == before.len() {
                    assert(before.contains(before[i]));
                    lemma_parents_among(front, source, dest, before[i]);
                    let e = choose|e: int| is_edge_at(front, e, before[i].1, dest);
                    assert(text_less(edges[e].0, edges[edges.len() - 1].0));
                } else {
                    assert(parent_before(before[i], before[j]));
                }
            }
        }
    }
}

/// The edges into a state come by source state and, from one state, by
/// token.
pub proof fn lemma_parents_upto_ascending(states: Seq<StateView>, count: int, dest: int)
    requires
        tokens_ascending(states),
        count <= states.len(),
    ensures
        parents_ascending(parents_upto(states, count, dest)),
    decreases count,
{
    if count > 0 {
        let before = parents_upto(states, count - 1, dest);
        let here = parents_among(states[count - 1].edges, count - 1, dest);
        lemma_parents_upto_ascending(states, count - 1, dest);
        lemma_parents_among_ascending(states[count - 1].edges, count - 1, dest);
        let all = before + here;
        assert forall|i: int, j: int| 0 <= i < j < all.len() implies parent_before(
            #[trigger] all[i],
            #[trigger] all[j],
        ) by {
            if i < before.len() && j >= before.len() {
                let k = j - before.len();
                assert(all[i] == before[i] && all[j] == here[k]);
                assert(before.contains(before[i]));
                assert(here.contains(here[k]));
                lemma_parents_upto(states, count - 1, dest, before[i]);
                lemma_parents_among(states[count - 1].edges, count - 1, dest, here[k]);
            } else if j < before.len() {
                assert(parent_before(before[i], before[j]));
            } else {
                assert(parent_before(here[i - before.len()], here[j - before.len()]));
            }
        }
    }
}

} // verus!
