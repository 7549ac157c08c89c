//! The strings that walking back from the accepting states finds.

use vstd::prelude::*;
use crate::reverse::{reverse_valid, Parent, ReverseView};

verus! {

/// A walk back from an accepting state: the state reached and the text of
/// the edges walked, in forward order.
pub type Path = (int, Seq<char>);

/// One path for each edge in `parents`: the edge's source, and its token in
/// front of `suffix`.
pub open spec fn extend(parents: Seq<Parent>, suffix: Seq<char>) -> Seq<Path> {
    parents.map_values(|p: Parent| (p.0, p.1 + suffix))
}

/// The paths one edge longer than `paths`: each path in turn, extended by
/// each edge that leads to its state.
pub open spec fn expand(reverse: ReverseView, paths: Seq<Path>) -> Seq<Path>
    decreases paths.len(),
{
    if paths.len() == 0 {
        Seq::empty()
    } else {
        expand(reverse, paths.drop_last()) + extend(
            reverse.states[paths.last().0],
            paths.last().1,
        )
    }
}

/// The paths of `depth` edges, in the order in which they are found.
pub open spec fn level(reverse: ReverseView, depth: nat) -> Seq<Path>
    decreases depth,
{
    if depth == 0 {
        reverse.accepting.map_values(|i: int| (i, Seq::<char>::empty()))
    } else {
        expand(reverse, level(reverse, (depth - 1) as nat))
    }
}

/// The texts of those of `paths` that have reached the start state.
pub open spec fn arrived(paths: Seq<Path>) -> Seq<Seq<char>>
    decreases paths.len(),
{
    if paths.len() == 0 {
        Seq::empty()
    } else if paths.last().0 == 0 {
        arrived(paths.drop_last()).push(paths.last().1)
    } else {
        arrived(paths.drop_last())
    }
}

/// The texts of the paths of at most `depth` edges from the start state to
/// an accepting state: shorter paths first, paths of one length in the order
/// in which they are found.
pub open spec fn language_upto(reverse: ReverseView, depth: nat) -> Seq<Seq<char>>
    decreases depth,
{
    if depth == 0 {
        arrived(level(reverse, 0))
    } else {
        language_upto(reverse, (depth - 1) as nat) + arrived(level(reverse, depth))
    }
}

/// The texts of a list of strings.
pub open spec fn texts(words: Seq<String>) -> Seq<Seq<char>> {
    words.map_values(|w: String| w@)
}

/// The paths that a work list stands for.
pub open spec fn paths_view(paths: Seq<(usize, String)>) -> Seq<Path> {
    paths.map_values(|p: (usize, String)| (p.0 as int, p.1@))
}

/// Whether an edge leads to the state of one of `paths`.
pub open spec fn can_expand(reverse: ReverseView, paths: Seq<Path>) -> bool {
    exists|i: int| 0 <= i < paths.len() && reverse.states[(#[trigger] paths[i]).0].len() > 0
}

/// Paths can be made longer exactly if an edge leads to the state of one.
pub proof fn lemma_expand_empty(reverse: ReverseView, paths: Seq<Path>)
    ensures
        expand(reverse, paths).len() > 0 <==> can_expand(reverse, paths),
    decreases paths.len(),
{
    if paths.len() > 0 {
        let front = paths.drop_last();
        lemma_expand_empty(reverse, front);
        if can_expand(reverse, front) {
            let i = choose|i: int|
                0 <= i < front.len() && reverse.states[(#[trigger] front[i]).0].len() > 0;
            assert(reverse.states[paths[i].0].len() > 0);
        }
        if can_expand(reverse, paths) {
            let i = choose|i: int|
                0 <= i < paths.len() && reverse.states[(#[trigger] paths[i]).0].len() > 0;
            if i < front.len() {
                assert(reverse.states[front[i].0].len() > 0);
            }
        }
        if reverse.states[paths.last().0].len() > 0 {
            assert(reverse.states[paths[paths.len() - 1].0].len() > 0);
        }
    }
}

/// Once no path of some length is left, none is left of any greater length,
/// and the language is complete.
pub proof fn lemma_language_stable(reverse: ReverseView, depth: nat, later: nat)
    requires
        level(reverse, depth + 1).len() == 0,
        depth <= later,
    ensures
        level(reverse, later + 1).len() == 0,
        language_upto(reverse, later) == language_upto(reverse, depth),
    decreases later,
{
    if later > depth {
        lemma_language_stable(reverse, depth, (later - 1) as nat);
        assert(level(reverse, later) =~= Seq::<Path>::empty());
        assert(expand(reverse, level(reverse, later)) =~= Seq::<Path>::empty());
        assert(language_upto(reverse, later) =~= language_upto(reverse, depth));
    }
}

/// Whether every path is at a state of the automaton.
pub open spec fn paths_valid(reverse: ReverseView, paths: Seq<Path>) -> bool {
    forall|i: int| 0 <= i < paths.len() ==> 0 <= (#[trigger] paths[i]).0 < reverse.states.len()
}

/// Longer paths are at states of the automaton too.
pub proof fn lemma_expand_valid(reverse: ReverseView, paths: Seq<Path>)
    requires
        reverse_valid(reverse),
        paths_valid(reverse, paths),
    ensures
        paths_valid(reverse, expand(reverse, paths)),
    decreases paths.len(),
{
    if paths.len() > 0 {
        let front = paths.drop_last();
        assert(paths_valid(reverse, front)) by {
            assert forall|i: int| 0 <= i < front.len() implies 0 <= (#[trigger] front[i]).0
                < reverse.states.len() by {
                assert(front[i] == paths[i]);
            }
        }
        lemma_expand_valid(reverse, front);
        let before = expand(reverse, front);
        let last = paths[paths.len() - 1];
        let added = extend(reverse.states[last.0], last.1);
        let all = expand(reverse, paths);
        assert forall|i: int| 0 <= i < all.len() implies 0 <= (#[trigger] all[i]).0
            < reverse.states.len() by {
            if i < before.len() {
                assert(all[i] == before[i]);
            } else {
                let e = i - before.len();
                assert(all[i] == added[e]);
                assert(added[e].0 == reverse.states[last.0][e].0);
            }
        }
    }
}

/// The paths of every length are at states of the automaton.
pub proof fn lemma_level_valid(reverse: ReverseView, depth: nat)
    requires
        reverse_valid(reverse),
    ensures
        paths_valid(reverse, level(reverse, depth)),
    decreases depth,
{
    if depth > 0 {
        lemma_level_valid(reverse, (depth - 1) as nat);
        lemma_expand_valid(reverse, level(reverse, (depth - 1) as nat));
    }
}

/// Whether `longer` is `path` with the edge at place `e` of those that lead
/// to its state put in front.
pub open spec fn extends_by(reverse: ReverseView, path: Path, e: int, longer: Path) -> bool {
    &&& 0 <= e < reverse.states[path.0].len()
    &&& longer == (reverse.states[path.0][e].0, reverse.states[path.0][e].1 + path.1)
}

/// Whether `longer` is the path at place `i` of `paths` with an edge put in
/// front.
pub open spec fn expands_from(
    reverse: ReverseView,
    paths: Seq<Path>,
    i: int,
    longer: Path,
) -> bool {
    0 <= i < paths.len() && exists|e: int| extends_by(reverse, paths[i], e, longer)
}

/// What is in one sequence followed by another is in either.
pub proof fn lemma_concat_contains<A>(front: Seq<A>, back: Seq<A>, item: A)
    ensures
        (front + back).contains(item) <==> front.contains(item) || back.contains(item),
{
    let all = front + back;
    if all.contains(item) {
        let k = choose|k: int| 0 <= k < all.len() && all[k] == item;
        if k < front.len() {
            assert(front[k] == item);
        } else {
            assert(back[k - front.len()] == item);
        }
    }
    if front.contains(item) {
        let k = choose|k: int| 0 <= k < front.len() && front[k] == item;
        assert(all[k] == item);
    }
    if back.contains(item) {
        let k = choose|k: int| 0 <= k < back.len() && back[k] == item;
        assert(all[front.len() + k] == item);
    }
}

/// The paths made from one path are that path with each edge that leads to
/// its state put in front.
pub proof fn lemma_extend_contains(reverse: ReverseView, path: Path, longer: Path)
    ensures
        extend(reverse.states[path.0], path.1).contains(longer) <==> exists|e: int|
            extends_by(reverse, path, e, longer),
{
    let made = extend(reverse.states[path.0], path.1);
    if made.contains(longer) {
        let e = choose|e: int| 0 <= e < made.len() && made[e] == longer;
        assert(extends_by(reverse, path, e, longer));
    }
    if exists|e: int| extends_by(reverse, path, e, longer) {
        let e = choose|e: int| extends_by(reverse, path, e, longer);
        assert(made[e] == longer);
    }
}

/// The paths one edge longer than `paths` are the paths of `paths` with an
/// edge put in front.
pub proof fn lemma_expand_contains(reverse: ReverseView, paths: Seq<Path>, longer: Path)
    ensures
        expand(reverse, paths).contains(longer) <==> exists|i: int|
            expands_from(reverse, paths, i, longer),
    decreases paths.len(),
{
    if paths.len() == 0 {
        assert(!expand(reverse, paths).contains(longer));
    } else {
        let front = paths.drop_last();
        let last = paths.len() - 1;
        let before = expand(reverse, front);
        let added = extend(reverse.states[paths[last].0], paths[last].1);
        lemma_expand_contains(reverse, front, longer);
        lemma_extend_contains(reverse, paths[last], longer);
        lemma_concat_contains(before, added, longer);
        if before.contains(longer) {
            let i = choose|i: int| expands_from(reverse, front, i, longer);
            assert(front[i] == paths[i]);
            assert(expands_from(reverse, paths, i, longer));
        }
        if added.contains(longer) {
            assert(expands_from(reverse, paths, last, longer));
        }
        if exists|i: int| expands_from(reverse, paths, i, longer) {
            let i = choose|i: int| expands_from(reverse, paths, i, longer);
            if i < last {
                assert(front[i] == paths[i]);
                assert(expands_from(reverse, front, i, longer));
            }
        }
    }
}

/// The texts listed for `paths` are those of the paths at the start state.
pub proof fn lemma_arrived_contains(paths: Seq<Path>, text: Seq<char>)
    ensures
        arrived(paths).contains(text) <==> paths.contains((0int, text)),
    decreases paths.len(),
{
    let listed = arrived(paths);
    let path = (0int, text);
    if paths.len() == 0 {
        assert(!listed.contains(text));
        assert(!paths.contains(path));
    } else {
        let front = paths.drop_last();
        let last = paths.len() - 1;
        let before = arrived(front);
        lemma_arrived_contains(front, text);
        if listed.contains(text) {
            let k = choose|k: int| 0 <= k < listed.len() && listed[k] == text;
            if k < before.len() {
                assert(before[k] == text);
                assert(before.contains(text));
                let i = choose|i: int| 0 <= i < front.len() && front[i] == path;
                assert(paths[i] == path);
            } else {
                assert(paths[last] == path);
            }
        }
        if paths.contains(path) {
            let i = choose|i: int| 0 <= i < paths.len() && paths[i] == path;
            if i < last {
                assert(front[i] == path);
                assert(front.contains(path));
                let k = choose|k: int| 0 <= k < before.len() && before[k] == text;
                assert(listed[k] == text);
            } else {
                assert(listed[before.len() as int] == text);
            }
        }
    }
}

/// A text is listed to some depth exactly if a path of at most that many
/// edges with that text is at the start state.
pub proof fn lemma_language_contains(reverse: ReverseView, depth: nat, text: Seq<char>)
    ensures
        language_upto(reverse, depth).contains(text) <==> exists|d: nat|
            d <= depth && #[trigger] level(reverse, d).contains((0int, text)),
    decreases depth,
{
    let listed = language_upto(reverse, depth);
    let path = (0int, text);
    lemma_arrived_contains(level(reverse, depth), text);
    if depth == 0 {
        if exists|d: nat| d <= depth && #[trigger] level(reverse, d).contains(path) {
            let d = choose|d: nat| d <= depth && #[trigger] level(reverse, d).contains(path);
            assert(d == 0);
        }
    } else {
        let before = language_upto(reverse, (depth - 1) as nat);
        let here = arrived(level(reverse, depth));
        lemma_language_contains(reverse, (depth - 1) as nat, text);
        if listed.contains(text) {
            let k = choose|k: int| 0 <= k < listed.len() && listed[k] == text;
            if k < before.len() {
                assert(before[k] == text);
                assert(before.contains(text));
                let d = choose|d: nat|
                    d <= depth - 1 && #[trigger] level(reverse, d).contains(path);
                assert(d <= depth && level(reverse, d).contains(path));
            } else {
                assert(here[k - before.len()] == text);
                assert(here.contains(text));
                assert(level(reverse, depth).contains(path));
            }
        }
        if exists|d: nat| d <= depth && #[trigger] level(reverse, d).contains(path) {
            let d = choose|d: nat| d <= depth && #[trigger] level(reverse, d).contains(path);
            if d < depth {
                assert(d <= depth - 1 && level(reverse, d).contains(path));
                assert(before.contains(text));
                let k = choose|k: int| 0 <= k < before.len() && before[k] == text;
                assert(listed[k] == text);
            } else {
                assert(here.contains(text));
                let k = choose|k: int| 0 <= k < here.len() && here[k] == text;
                assert(listed[before.len() + k] == text);
            }
        }
    }
}

} // verus!
