//! When walking back from the accepting states never comes to an end.

use vstd::prelude::*;
use vstd::set_lib::{lemma_int_range, lemma_len_subset, set_int_range};
use crate::language::{
    expand, expands_from, extends_by, lemma_expand_contains, lemma_level_valid, level, Path,
};
use crate::reverse::{reverse_valid, ReverseView};

verus! {

/// Whether an edge leads from `parent` to `state`.
pub open spec fn has_parent(reverse: ReverseView, state: int, parent: int) -> bool {
    &&& 0 <= state < reverse.states.len()
    &&& exists|e: int|
        0 <= e < reverse.states[state].len() && (#[trigger] reverse.states[state][e]).0 == parent
}

/// Whether an edge leads to the state at place `i` of `walk` from the state
/// behind it.
pub open spec fn steps_back(reverse: ReverseView, walk: Seq<int>, i: int) -> bool {
    has_parent(reverse, walk[i], walk[i + 1])
}

/// Whether `walk` starts at an accepting state and goes from each state to
/// one from which an edge leads to it.
pub open spec fn is_back_walk(reverse: ReverseView, walk: Seq<int>) -> bool {
    &&& walk.len() > 0
    &&& reverse.accepting.contains(walk[0])
    &&& forall|i: int| 0 <= i < walk.len() - 1 ==> #[trigger] steps_back(reverse, walk, i)
}

/// A path found by walking back has gone through one state for each edge,
/// and the accepting state before them.
pub proof fn lemma_level_walk(reverse: ReverseView, depth: nat, path: Path) -> (walk: Seq<int>)
    requires
        reverse_valid(reverse),
        level(reverse, depth).contains(path),
    ensures
        is_back_walk(reverse, walk),
        walk.len() == depth + 1,
        walk.last() == path.0,
    decreases depth,
{
    if depth == 0 {
        let seeds = level(reverse, 0);
        let k = choose|k: int| 0 <= k < seeds.len() && seeds[k] == path;
        assert(reverse.accepting[k] == path.0);
        seq![path.0]
    } else {
        let shorter = level(reverse, (depth - 1) as nat);
        lemma_expand_contains(reverse, shorter, path);
        let i = choose|i: int| expands_from(reverse, shorter, i, path);
        let e = choose|e: int| extends_by(reverse, shorter[i], e, path);
        let tail = shorter[i];
        assert(shorter.contains(tail));
        lemma_level_valid(reverse, (depth - 1) as nat);
        let before = lemma_level_walk(reverse, (depth - 1) as nat, tail);
        let walk = before.push(path.0);
        assert(reverse.states[tail.0][e].0 == path.0);
        assert forall|k: int| 0 <= k < walk.len() - 1 implies #[trigger] steps_back(
            reverse,
            walk,
            k,
        ) by {
            if k < before.len() - 1 {
                assert(steps_back(reverse, before, k));
            }
        }
        walk
    }
}

/// Where a walk goes, a path of as many edges is found.
pub proof fn lemma_walk_level(reverse: ReverseView, walk: Seq<int>) -> (text: Seq<char>)
    requires
        is_back_walk(reverse, walk),
    ensures
        level(reverse, (walk.len() - 1) as nat).contains((walk.last(), text)),
    decreases walk.len(),
{
    if walk.len() == 1 {
        let k = choose|k: int| 0 <= k < reverse.accepting.len() && reverse.accepting[k] == walk[0];
        let text = Seq::<char>::empty();
        assert(level(reverse, 0)[k] == (walk[0], text));
        text
    } else {
        let before = walk.drop_last();
        assert forall|k: int| 0 <= k < before.len() - 1 implies #[trigger] steps_back(
            reverse,
            before,
            k,
        ) by {
            assert(steps_back(reverse, walk, k));
        }
        let suffix = lemma_walk_level(reverse, before);
        let depth = (walk.len() - 2) as nat;
        let shorter = level(reverse, depth);
        let tail = (before.last(), suffix);
        let i = choose|i: int| 0 <= i < shorter.len() && shorter[i] == tail;
        assert(steps_back(reverse, walk, walk.len() - 2));
        let e = choose|e: int|
            0 <= e < reverse.states[tail.0].len() && (#[trigger] reverse.states[tail.0][e]).0
                == walk.last();
        let text = reverse.states[tail.0][e].1 + suffix;
        let path = (walk.last(), text);
        assert(extends_by(reverse, shorter[i], e, path));
        assert(expands_from(reverse, shorter, i, path));
        lemma_expand_contains(reverse, shorter, path);
        assert(level(reverse, (depth + 1) as nat) == expand(reverse, shorter));
        text
    }
}

/// A walk stays among the states.
pub proof fn lemma_walk_in_range(reverse: ReverseView, walk: Seq<int>, i: int)
    requires
        reverse_valid(reverse),
        is_back_walk(reverse, walk),
        0 <= i < walk.len(),
    ensures
        0 <= walk[i] < reverse.states.len(),
    decreases i,
{
    if i == 0 {
        let k = choose|k: int| 0 <= k < reverse.accepting.len() && reverse.accepting[k] == walk[0];
    } else {
        lemma_walk_in_range(reverse, walk, i - 1);
        assert(steps_back(reverse, walk, i - 1));
    }
}

/// More values than `bound`, all from 0 and below `bound`, hold one twice.
pub proof fn lemma_pigeonhole(values: Seq<int>, bound: nat) -> (places: (int, int))
    requires
        values.len() > bound,
        forall|i: int| 0 <= i < values.len() ==> 0 <= #[trigger] values[i] < bound,
    ensures
        0 <= places.0 < places.1 < values.len(),
        values[places.0] == values[places.1],
{
    if values.no_duplicates() {
        values.unique_seq_to_set();
        lemma_int_range(0, bound as int);
        assert(values.to_set().subset_of(set_int_range(0, bound as int))) by {
            assert forall|v: int| values.to_set().contains(v) implies set_int_range(
                0,
                bound as int,
            ).contains(v) by {
                let i = choose|i: int| 0 <= i < values.len() && values[i] == v;
            }
        }
        lemma_len_subset(values.to_set(), set_int_range(0, bound as int));
        assert(false);
        (0, 0)
    } else {
        let (i, j) = choose|i: int, j: int|
            0 <= i < values.len() && 0 <= j < values.len() && i != j && values[i] == values[j];
        if i < j {
            (i, j)
        } else {
            (j, i)
        }
    }
}

/// A walk through more states than there are can be made longer.
pub proof fn lemma_walk_longer(reverse: ReverseView, walk: Seq<int>) -> (longer: Seq<int>)
    requires
        reverse_valid(reverse),
        is_back_walk(reverse, walk),
        walk.len() > reverse.states.len(),
    ensures
        is_back_walk(reverse, longer),
        longer.len() > walk.len(),
{
    assert forall|i: int| 0 <= i < walk.len() implies 0 <= #[trigger] walk[i]
        < reverse.states.len() by {
        lemma_walk_in_range(reverse, walk, i);
    }
    let (i, j) = lemma_pigeonhole(walk, reverse.states.len());
    let longer = walk.take(j + 1) + walk.skip(i + 1);
    assert(longer[0] == walk[0]);
    assert forall|k: int| 0 <= k < longer.len() - 1 implies #[trigger] steps_back(
        reverse,
        longer,
        k,
    ) by {
        if k < j {
            assert(steps_back(reverse, walk, k));
        } else if k == j {
            assert(steps_back(reverse, walk, i));
            assert(longer[k] == walk[j]);
            assert(longer[k + 1] == walk[i + 1]);
        } else {
            assert(steps_back(reverse, walk, k - j + i));
            assert(longer[k] == walk[k - j + i]);
            assert(longer[k + 1] == walk[k - j + i + 1]);
        }
    }
    longer
}

/// Where a path of as many edges as there are states exists, walks of any
/// length exist.
pub proof fn lemma_long_walk(reverse: ReverseView, length: nat) -> (walk: Seq<int>)
    requires
        reverse_valid(reverse),
        level(reverse, reverse.states.len()).len() > 0,
    ensures
        is_back_walk(reverse, walk),
        walk.len() > reverse.states.len(),
        walk.len() > length,
    decreases length,
{
    if length == 0 {
        let paths = level(reverse, reverse.states.len());
        assert(paths.contains(paths[0]));
        lemma_level_walk(reverse, reverse.states.len(), paths[0])
    } else {
        let walk = lemma_long_walk(reverse, (length - 1) as nat);
        if walk.len() > length {
            walk
        } else {
            lemma_walk_longer(reverse, walk)
        }
    }
}

/// Where a path of as many edges as there are states exists, paths of every
/// length exist: walking back never comes to an end.
pub proof fn lemma_walk_never_ends(reverse: ReverseView, depth: nat)
    requires
        reverse_valid(reverse),
        level(reverse, reverse.states.len()).len() > 0,
    ensures
        level(reverse, depth).len() > 0,
{
    let long = lemma_long_walk(reverse, depth);
    let walk = long.take(depth as int + 1);
    assert(walk[0] == long[0]);
    assert forall|k: int| 0 <= k < walk.len() - 1 implies #[trigger] steps_back(
        reverse,
        walk,
        k,
    ) by {
        assert(steps_back(reverse, long, k));
    }
    let text = lemma_walk_level(reverse, walk);
}

} // verus!
