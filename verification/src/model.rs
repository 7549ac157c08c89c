//! The mathematical model of a state: its transitions as a sequence of
//! edges, each a token and the index of the state it leads to.

use vstd::prelude::*;
use crate::text::{lemma_less_irreflexive, lemma_less_total, lemma_less_transitive, text_less};

verus! {

/// One transition: the token that labels it and the state it leads to.
pub type Edge = (Seq<char>, usize);

/// Whether some edge is labelled `token`.
pub open spec fn has_token(edges: Seq<Edge>, token: Seq<char>) -> bool {
    exists|i: int| 0 <= i < edges.len() && (#[trigger] edges[i]).0 == token
}

/// Whether the edge at `i` is the first that is labelled `token`.
pub open spec fn is_slot(edges: Seq<Edge>, token: Seq<char>, i: int) -> bool {
    &&& 0 <= i < edges.len()
    &&& edges[i].0 == token
    &&& forall|j: int| 0 <= j < i ==> (#[trigger] edges[j]).0 != token
}

/// The place of the first edge labelled `token`, where there is one.
pub open spec fn slot(edges: Seq<Edge>, token: Seq<char>) -> int {
    choose|i: int| is_slot(edges, token, i)
}

/// Where `token` leads, if an edge is labelled with it.
pub open spec fn target(edges: Seq<Edge>, token: Seq<char>) -> Option<usize> {
    if has_token(edges, token) {
        Some(edges[slot(edges, token)].1)
    } else {
        None
    }
}

/// No two edges carry the same token.
pub open spec fn distinct_tokens(edges: Seq<Edge>) -> bool {
    forall|i: int, j: int|
        0 <= i < j < edges.len() ==> (#[trigger] edges[i]).0 != (#[trigger] edges[j]).0
}

/// The edges as a mapping from token to destination.
pub open spec fn edge_map(edges: Seq<Edge>) -> Map<Seq<char>, usize> {
    Map::new(|t: Seq<char>| has_token(edges, t), |t: Seq<char>| edges[slot(edges, t)].1)
}

/// The tokens rise from each edge to the next, in the order of strings.
pub open spec fn ascending(edges: Seq<Edge>) -> bool {
    forall|i: int, j: int|
        0 <= i < j < edges.len() ==> text_less((#[trigger] edges[i]).0, (#[trigger] edges[j]).0)
}

/// Whether `k` is the place behind the edges whose token comes before
/// `token` and at the first whose token does not.
pub open spec fn is_rank(edges: Seq<Edge>, token: Seq<char>, k: int) -> bool {
    &&& 0 <= k <= edges.len()
    &&& forall|j: int| 0 <= j < k ==> text_less((#[trigger] edges[j]).0, token)
    &&& k < edges.len() ==> !text_less(edges[k].0, token)
}

/// The place in `edges` for an edge labelled `token`.
pub open spec fn rank(edges: Seq<Edge>, token: Seq<char>) -> int {
    choose|k: int| is_rank(edges, token, k)
}

/// `edges` with `token` leading to `dest`: an edge that already carries the
/// token gets the new destination, a new token goes to its place in the
/// order of strings.
pub open spec fn insert_edge(edges: Seq<Edge>, token: Seq<char>, dest: usize) -> Seq<Edge> {
    if has_token(edges, token) {
        edges.update(slot(edges, token), (token, dest))
    } else {
        edges.insert(rank(edges, token), (token, dest))
    }
}

/// The edges that result from inserting `pairs` one after the other: one
/// edge for each token, with the destination of its last pair, in the order
/// of the tokens.
pub open spec fn collect_edges(pairs: Seq<Edge>) -> Seq<Edge>
    decreases pairs.len(),
{
    if pairs.len() == 0 {
        Seq::empty()
    } else {
        insert_edge(collect_edges(pairs.drop_last()), pairs.last().0, pairs.last().1)
    }
}

/// The mapping that results from inserting `pairs` one after the other, a
/// later pair replacing an earlier one with the same token.
pub open spec fn map_of_pairs(pairs: Seq<Edge>) -> Map<Seq<char>, usize>
    decreases pairs.len(),
{
    if pairs.len() == 0 {
        Map::empty()
    } else {
        map_of_pairs(pairs.drop_last()).insert(pairs.last().0, pairs.last().1)
    }
}

/// What a state is: its edges in the order in which they are walked, which
/// is that of their tokens, and whether it accepts.
pub struct StateView {
    pub edges: Seq<Edge>,
    pub accepting: bool,
}

/// No state has two edges with the same token.
pub open spec fn tokens_distinct(states: Seq<StateView>) -> bool {
    forall|s: int| 0 <= s < states.len() ==> distinct_tokens((#[trigger] states[s]).edges)
}

/// In every state the tokens rise from each edge to the next.
pub open spec fn tokens_ascending(states: Seq<StateView>) -> bool {
    forall|s: int| 0 <= s < states.len() ==> ascending((#[trigger] states[s]).edges)
}

/// Tokens that rise are distinct.
pub proof fn lemma_ascending_distinct(edges: Seq<Edge>)
    requires
        ascending(edges),
    ensures
        distinct_tokens(edges),
{
    assert forall|i: int, j: int| 0 <= i < j < edges.len() implies (#[trigger] edges[i]).0 != (
    #[trigger] edges[j]).0 by {
        lemma_less_irreflexive(edges[i].0);
    }
}

/// States whose tokens rise have distinct tokens.
pub proof fn lemma_tokens_ascending_distinct(states: Seq<StateView>)
    requires
        tokens_ascending(states),
    ensures
        tokens_distinct(states),
{
    assert forall|s: int| 0 <= s < states.len() implies distinct_tokens(
        (#[trigger] states[s]).edges,
    ) by {
        lemma_ascending_distinct(states[s].edges);
    }
}

/// The place for a token is the one that `rank` names.
pub proof fn lemma_rank_is(edges: Seq<Edge>, token: Seq<char>, k: int)
    requires
        is_rank(edges, token, k),
    ensures
        rank(edges, token) == k,
{
    let other = rank(edges, token);
    assert(is_rank(edges, token, other));
    if other < k {
        assert(text_less(edges[other].0, token));
    } else if k < other {
        assert(text_less(edges[k].0, token));
    }
}

/// Before an edge whose token does not come before `token`, some place is
/// the one for `token`.
proof fn lemma_rank_before(edges: Seq<Edge>, token: Seq<char>, bound: int) -> (k: int)
    requires
        0 <= bound <= edges.len(),
        bound < edges.len() ==> !text_less(edges[bound].0, token),
    ensures
        is_rank(edges, token, k),
    decreases bound,
{
    if exists|j: int| 0 <= j < bound && !text_less((#[trigger] edges[j]).0, token) {
        let j = choose|j: int| 0 <= j < bound && !text_less((#[trigger] edges[j]).0, token);
        lemma_rank_before(edges, token, j)
    } else {
        bound
    }
}

/// Every token has a place among the edges.
pub proof fn lemma_rank_exists(edges: Seq<Edge>, token: Seq<char>)
    ensures
        is_rank(edges, token, rank(edges, token)),
{
    let k = lemma_rank_before(edges, token, edges.len() as int);
}

/// The first edge labelled `token` is the one that `slot` names.
pub proof fn lemma_slot_is(edges: Seq<Edge>, token: Seq<char>, i: int)
    requires
        is_slot(edges, token, i),
    ensures
        has_token(edges, token),
        slot(edges, token) == i,
        target(edges, token) == Some(edges[i].1),
{
    assert(edges[i].0 == token);
    let k = slot(edges, token);
    assert(is_slot(edges, token, k));
    if k < i {
        assert(edges[k].0 != token);
    } else if i < k {
        assert(edges[i].0 != token);
    }
}

/// Among the edges before `bound` that are labelled `token`, one is the first.
proof fn lemma_first_before(edges: Seq<Edge>, token: Seq<char>, bound: int) -> (i: int)
    requires
        0 <= bound < edges.len(),
        edges[bound].0 == token,
    ensures
        is_slot(edges, token, i),
        i <= bound,
    decreases bound,
{
    if exists|j: int| 0 <= j < bound && (#[trigger] edges[j]).0 == token {
        let j = choose|j: int| 0 <= j < bound && (#[trigger] edges[j]).0 == token;
        lemma_first_before(edges, token, j)
    } else {
        bound
    }
}

/// A token that labels an edge has a first such edge, and `slot` names it.
pub proof fn lemma_slot_of_present(edges: Seq<Edge>, token: Seq<char>)
    requires
        has_token(edges, token),
    ensures
        is_slot(edges, token, slot(edges, token)),
{
    let w = choose|i: int| 0 <= i < edges.len() && (#[trigger] edges[i]).0 == token;
    let i = lemma_first_before(edges, token, w);
}

/// With distinct tokens, the edge found for a token is the one that carries it.
pub proof fn lemma_slot_unique(edges: Seq<Edge>, i: int)
    requires
        distinct_tokens(edges),
        0 <= i < edges.len(),
    ensures
        has_token(edges, edges[i].0),
        slot(edges, edges[i].0) == i,
        target(edges, edges[i].0) == Some(edges[i].1),
{
    assert forall|j: int| 0 <= j < i implies (#[trigger] edges[j]).0 != edges[i].0 by {}
    lemma_slot_is(edges, edges[i].0, i);
}

/// Inserting an edge keeps the tokens rising, makes `token` lead to `dest`
/// and leaves every other token where it led.
pub proof fn lemma_insert_edge(edges: Seq<Edge>, token: Seq<char>, dest: usize)
    requires
        ascending(edges),
    ensures
        ascending(insert_edge(edges, token, dest)),
        edge_map(insert_edge(edges, token, dest)) == edge_map(edges).insert(token, dest),
{
    let after = insert_edge(edges, token, dest);
    lemma_ascending_distinct(edges);
    if has_token(edges, token) {
        lemma_slot_of_present(edges, token);
        let k = slot(edges, token);
        assert forall|i: int| 0 <= i < after.len() implies (#[trigger] after[i]).0
            == edges[i].0 by {}
        assert forall|i: int, j: int| 0 <= i < j < after.len() implies text_less(
            (#[trigger] after[i]).0,
            (#[trigger] after[j]).0,
        ) by {
            assert(text_less(edges[i].0, edges[j].0));
        }
        lemma_ascending_distinct(after);
        assert forall|t: Seq<char>| has_token(after, t) == (t == token || has_token(edges, t)) by {
            if has_token(after, t) {
                lemma_slot_of_present(after, t);
                assert(edges[slot(after, t)].0 == t);
            }
            if t == token {
                assert(after[k].0 == token);
            } else if has_token(edges, t) {
                lemma_slot_of_present(edges, t);
                assert(after[slot(edges, t)].0 == t);
            }
        }
        assert forall|t: Seq<char>| has_token(after, t) implies #[trigger] edge_map(after)[t]
            == edge_map(edges).insert(token, dest)[t] by {
            lemma_slot_of_present(after, t);
            let i = slot(after, t);
            lemma_slot_unique(after, i);
            if t != token {
                assert(edges[i].0 == t);
                lemma_slot_unique(edges, i);
            } else {
                lemma_slot_unique(after, k);
            }
        }
    } else {
        lemma_rank_exists(edges, token);
        let k = rank(edges, token);
        assert forall|j: int| k <= j < edges.len() implies text_less(
            token,
            (#[trigger] edges[j]).0,
        ) by {
            lemma_less_total(edges[k].0, token);
            assert(edges[k].0 != token);
            if j > k {
                assert(text_less(edges[k].0, edges[j].0));
                lemma_less_transitive(token, edges[k].0, edges[j].0);
            }
        }
        assert forall|i: int, j: int| 0 <= i < j < after.len() implies text_less(
            (#[trigger] after[i]).0,
            (#[trigger] after[j]).0,
        ) by {
            let a = if i < k {
                i
            } else {
                i - 1
            };
            let b = if j < k {
                j
            } else {
                j - 1
            };
            if i != k && j != k {
                assert(after[i] == edges[a] && after[j] == edges[b]);
                assert(text_less(edges[a].0, edges[b].0));
            } else if i == k {
                assert(after[j] == edges[b]);
            } else {
                assert(after[i] == edges[a]);
            }
        }
        lemma_ascending_distinct(after);
        assert forall|t: Seq<char>| has_token(after, t) == (t == token || has_token(edges, t)) by {
            if has_token(after, t) {
                lemma_slot_of_present(after, t);
                let i = slot(after, t);
                if i < k {
                    assert(edges[i].0 == t);
                } else if i > k {
                    assert(edges[i - 1].0 == t);
                }
            }
            if t == token {
                assert(after[k].0 == token);
            } else if has_token(edges, t) {
                lemma_slot_of_present(edges, t);
                let i = slot(edges, t);
                if i < k {
                    assert(after[i].0 == t);
                } else {
                    assert(after[i + 1].0 == t);
                }
            }
        }
        assert forall|t: Seq<char>| has_token(after, t) implies #[trigger] edge_map(after)[t]
            == edge_map(edges).insert(token, dest)[t] by {
            lemma_slot_of_present(after, t);
            let i = slot(after, t);
            lemma_slot_unique(after, i);
            if t == token {
                lemma_slot_unique(after, k);
            } else if i < k {
                assert(edges[i].0 == t);
                lemma_slot_unique(edges, i);
            } else {
                assert(i != k);
                assert(edges[i - 1].0 == t);
                lemma_slot_unique(edges, i - 1);
            }
        }
    }
    assert(edge_map(after) =~= edge_map(edges).insert(token, dest));
}

/// Collected edges rise by their tokens and form the mapping in which a
/// later pair has replaced an earlier one.
pub proof fn lemma_collect_edges(pairs: Seq<Edge>)
    ensures
        ascending(collect_edges(pairs)),
        distinct_tokens(collect_edges(pairs)),
        edge_map(collect_edges(pairs)) == map_of_pairs(pairs),
    decreases pairs.len(),
{
    if pairs.len() == 0 {
        assert(edge_map(collect_edges(pairs)) =~= map_of_pairs(pairs));
    } else {
        lemma_collect_edges(pairs.drop_last());
        lemma_insert_edge(collect_edges(pairs.drop_last()), pairs.last().0, pairs.last().1);
    }
    lemma_ascending_distinct(collect_edges(pairs));
}

/// Without its last edge a sequence of rising tokens is the mapping
/// without the last token.
pub proof fn lemma_edge_map_drop_last(edges: Seq<Edge>)
    requires
        ascending(edges),
        edges.len() > 0,
    ensures
        ascending(edges.drop_last()),
        edge_map(edges.drop_last()) == edge_map(edges).remove(edges.last().0),
{
    let front = edges.drop_last();
    let last = edges.len() - 1;
    assert forall|i: int, j: int| 0 <= i < j < front.len() implies text_less(
        (#[trigger] front[i]).0,
        (#[trigger] front[j]).0,
    ) by {
        assert(text_less(edges[i].0, edges[j].0));
    }
    lemma_ascending_distinct(edges);
    lemma_ascending_distinct(front);
    assert forall|t: Seq<char>|
        has_token(front, t) == (has_token(edges, t) && t != edges[last].0) by {
        if has_token(front, t) {
            lemma_slot_of_present(front, t);
            let i = slot(front, t);
            assert(edges[i].0 == t);
            assert(edges[i].0 != edges[last].0);
        }
        if has_token(edges, t) && t != edges[last].0 {
            lemma_slot_of_present(edges, t);
            let i = slot(edges, t);
            assert(front[i].0 == t);
        }
    }
    assert forall|t: Seq<char>| has_token(front, t) implies #[trigger] edge_map(front)[t]
        == edge_map(edges)[t] by {
        lemma_slot_of_present(front, t);
        let i = slot(front, t);
        assert(edges[i].0 == t);
        lemma_slot_unique(edges, i);
    }
    assert(edge_map(front) =~= edge_map(edges).remove(edges[last].0));
}

/// The last of the rising tokens of `a` is the last of those of `b`, if both
/// hold the same tokens.
proof fn lemma_same_last_token(a: Seq<Edge>, b: Seq<Edge>)
    requires
        ascending(a),
        ascending(b),
        a.len() > 0,
        b.len() > 0,
        forall|t: Seq<char>| has_token(a, t) == has_token(b, t),
    ensures
        a.last().0 == b.last().0,
{
    let x = a[a.len() - 1].0;
    let y = b[b.len() - 1].0;
    assert(has_token(a, x));
    assert(has_token(b, y));
    assert(has_token(b, x));
    assert(has_token(a, y));
    lemma_slot_of_present(a, y);
    lemma_slot_of_present(b, x);
    let i = slot(a, y);
    let j = slot(b, x);
    lemma_less_irreflexive(x);
    if x != y {
        assert(i < a.len() - 1 && j < b.len() - 1);
        assert(text_less(a[i].0, a[a.len() - 1].0));
        assert(text_less(b[j].0, b[b.len() - 1].0));
        lemma_less_transitive(x, y, x);
    }
}

/// The order of the tokens and the mapping fix the edges: two sequences of
/// rising tokens that form one mapping are one sequence.
pub proof fn lemma_ascending_unique(a: Seq<Edge>, b: Seq<Edge>)
    requires
        ascending(a),
        ascending(b),
        edge_map(a) == edge_map(b),
    ensures
        a == b,
    decreases a.len(),
{
    assert forall|t: Seq<char>| has_token(a, t) == has_token(b, t) by {
        assert(edge_map(a).contains_key(t) == has_token(a, t));
        assert(edge_map(b).contains_key(t) == has_token(b, t));
    }
    if a.len() == 0 || b.len() == 0 {
        if a.len() > 0 {
            assert(has_token(a, a[0].0));
        }
        if b.len() > 0 {
            assert(has_token(b, b[0].0));
        }
        assert(a =~= b);
    } else {
        lemma_same_last_token(a, b);
        let token = a.last().0;
        lemma_ascending_distinct(a);
        lemma_ascending_distinct(b);
        lemma_slot_unique(a, a.len() - 1);
        lemma_slot_unique(b, b.len() - 1);
        assert(edge_map(a)[token] == a.last().1);
        assert(edge_map(b)[token] == b.last().1);
        lemma_edge_map_drop_last(a);
        lemma_edge_map_drop_last(b);
        lemma_ascending_unique(a.drop_last(), b.drop_last());
        assert(a =~= a.drop_last().push(a.last()));
        assert(b =~= b.drop_last().push(b.last()));
    }
}

} // verus!
