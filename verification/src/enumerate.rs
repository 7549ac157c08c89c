//! Listing the accepted strings by walking back from the accepting states.

use vstd::prelude::*;
use vstd::string::StringExecFns;
use crate::cycles::lemma_walk_never_ends;
use crate::language::{
    arrived, can_expand, expand, extend, language_upto, lemma_expand_empty, lemma_language_stable,
    lemma_level_valid, level, paths_valid, paths_view, texts, Path,
};
use crate::reverse::{reverse_valid, ReverseAutomaton};

verus! {

/// What walking back to some depth has found.
#[derive(Debug)]
pub struct Enumeration {
    /// The texts of the paths found, shorter paths first.
    pub words: Vec<String>,
    /// Whether no longer path exists, so that `words` is the whole language.
    pub complete: bool,
}

/// Appends to `words` the texts of those of `paths` that are at the start
/// state.
fn emit(paths: &Vec<(usize, String)>, words: &mut Vec<String>)
    ensures
        texts(final(words)@) == texts(old(words)@) + arrived(paths_view(paths@)),
{
    let ghost all = paths_view(paths@);
    let ghost before = texts(words@);
    let mut i: usize = 0;
    assert(texts(words@) =~= before + arrived(all.take(0)));
    while i < paths.len()
        invariant
            i <= paths@.len(),
            all == paths_view(paths@),
            texts(words@) == before + arrived(all.take(i as int)),
        decreases paths@.len() - i,
    {
        let ghost so_far = texts(words@);
        if paths[i].0 == 0 {
            words.push(paths[i].1.clone());
            assert(texts(words@) =~= so_far.push(paths@[i as int].1@));
        }
        proof {
            assert(all.take(i + 1).drop_last() =~= all.take(i as int));
            assert(all.take(i + 1).last() == all[i as int]);
            assert(texts(words@) =~= before + arrived(all.take(i + 1)));
        }
        i += 1;
    }
    assert(all.take(i as int) =~= all);
}

impl<'a> ReverseAutomaton<'a> {
    /// The paths one edge longer than `paths`.
    fn expand_paths(&self, paths: &Vec<(usize, String)>) -> (next: Vec<(usize, String)>)
        requires
            paths_valid(self@, paths_view(paths@)),
        ensures
            paths_view(next@) == expand(self@, paths_view(paths@)),
    {
        let ghost all = paths_view(paths@);
        let mut next: Vec<(usize, String)> = Vec::new();
        let mut i: usize = 0;
        assert(paths_view(next@) =~= expand(self@, all.take(0)));
        while i < paths.len()
            invariant
                i <= paths@.len(),
                all == paths_view(paths@),
                paths_valid(self@, all),
                paths_view(next@) == expand(self@, all.take(i as int)),
            decreases paths@.len() - i,
        {
            assert(0 <= all[i as int].0 < self@.states.len());
            let state = self.state(paths[i].0);
            let suffix = paths[i].1.as_str();
            let count = state.len();
            let ghost before = paths_view(next@);
            let mut j: usize = 0;
            assert(paths_view(next@) =~= before + extend(state@.take(0), suffix@));
            while j < count
                invariant
                    j <= count == state@.len(),
                    paths_view(next@) == before + extend(state@.take(j as int), suffix@),
                decreases count - j,
            {
                let (parent, token) = state.parent(j);
                let mut text = token.to_owned();
                text.append(suffix);
                let ghost so_far = paths_view(next@);
                let ghost path = (parent as int, text@);
                next.push((parent, text));
                proof {
                    assert(paths_view(next@) =~= so_far.push(path));
                    assert(path == (state@[j as int].0, state@[j as int].1 + suffix@));
                    assert(state@.take(j + 1) =~= state@.take(j as int).push(state@[j as int]));
                    assert(extend(state@.take(j + 1), suffix@) =~= extend(
                        state@.take(j as int),
                        suffix@,
                    ).push(path));
                    assert(paths_view(next@) =~= before + extend(state@.take(j + 1), suffix@));
                }
                j += 1;
            }
            proof {
                assert(state@.take(count as int) =~= state@);
                assert(all.take(i + 1).drop_last() =~= all.take(i as int));
                assert(all.take(i + 1).last() == all[i as int]);
            }
            i += 1;
        }
        assert(all.take(i as int) =~= all);
        next
    }

    /// Whether an edge leads to the state of one of `paths`.
    fn any_expandable(&self, paths: &Vec<(usize, String)>) -> (more: bool)
        requires
            paths_valid(self@, paths_view(paths@)),
        ensures
            more == can_expand(self@, paths_view(paths@)),
    {
        let ghost all = paths_view(paths@);
        let mut i: usize = 0;
        while i < paths.len()
            invariant
                i <= paths@.len(),
                all == paths_view(paths@),
                paths_valid(self@, all),
                forall|k: int| 0 <= k < i ==> self@.states[(#[trigger] all[k]).0].len() == 0,
            decreases paths@.len() - i,
        {
            assert(0 <= all[i as int].0 < self@.states.len());
            if self.state(paths[i].0).len() > 0 {
                assert(self@.states[all[i as int].0].len() > 0);
                return true;
            }
            i += 1;
        }
        false
    }

    /// Walks back from the accepting states along at most `max_depth` edges
    /// and lists the text of every path that is at the start state, shorter
    /// paths first; says whether that is the whole language.
    pub fn enumerate_language_bounded(&self, max_depth: usize) -> (found: Enumeration)
        ensures
            texts(found.words@) == language_upto(self@, max_depth as nat),
            found.complete == (level(self@, (max_depth + 1) as nat).len() == 0),
    {
        self.is_valid();
        let seeds = self.accepting_indices();
        let mut paths: Vec<(usize, String)> = Vec::new();
        let mut s: usize = 0;
        while s < seeds.len()
            invariant
                s <= seeds@.len(),
                seeds@.map_values(|i: usize| i as int) == self@.accepting,
                paths_view(paths@) == level(self@, 0).take(s as int),
            decreases seeds@.len() - s,
        {
            let ghost so_far = paths_view(paths@);
            paths.push((seeds[s], String::new()));
            proof {
                let seed = seeds@.map_values(|i: usize| i as int)[s as int];
                assert(seed == seeds@[s as int] as int);
                assert(level(self@, 0)[s as int] == (seed, Seq::<char>::empty()));
                assert(paths_view(paths@) =~= so_far.push((seed, Seq::<char>::empty())));
                assert(paths_view(paths@) =~= level(self@, 0).take(s + 1));
            }
            s += 1;
        }
        assert(level(self@, 0).take(s as int) =~= level(self@, 0));
        let mut words: Vec<String> = Vec::new();
        emit(&paths, &mut words);
        assert(texts(words@) =~= language_upto(self@, 0));
        let mut depth: usize = 0;
        while depth < max_depth && paths.len() > 0
            invariant
                reverse_valid(self@),
                depth <= max_depth,
                paths_view(paths@) == level(self@, depth as nat),
                texts(words@) == language_upto(self@, depth as nat),
            decreases max_depth - depth,
        {
            proof {
                lemma_level_valid(self@, depth as nat);
            }
            let next = self.expand_paths(&paths);
            emit(&next, &mut words);
            paths = next;
            depth += 1;
        }
        proof {
            lemma_level_valid(self@, depth as nat);
            lemma_expand_empty(self@, level(self@, depth as nat));
        }
        let complete = !self.any_expandable(&paths);
        proof {
            if depth < max_depth {
                assert(level(self@, depth as nat) =~= Seq::<Path>::empty());
                lemma_language_stable(self@, depth as nat, max_depth as nat);
            }
        }
        Enumeration { words, complete }
    }

    /// Lists the whole language, shorter paths first, where walking back
    /// comes to an end. It does not where a path of as many edges as there
    /// are states exists: such a path goes through some state twice, paths
    /// of every length exist, and `None` is returned.
    pub fn enumerate_language(&self) -> (words: Option<Vec<String>>)
        ensures
            match words {
                Some(list) => forall|depth: nat|
                    #![trigger level(self@, depth)]
                    #![trigger language_upto(self@, depth)]
                    depth >= self@.states.len() ==> level(self@, depth).len() == 0 && texts(list@)
                        == language_upto(self@, depth),
                None => forall|depth: nat| (#[trigger] level(self@, depth)).len() > 0,
            },
    {
        self.is_valid();
        let n = self.len();
        let bound = if n == 0 {
            0
        } else {
            n - 1
        };
        proof {
            if n == 0 {
                let reverse = self@;
                if reverse.accepting.len() > 0 {
                    let first = reverse.accepting[0];
                    assert(0 <= first < reverse.states.len());
                }
                assert(level(reverse, 0) =~= Seq::<Path>::empty());
                assert(level(reverse, 1) =~= Seq::<Path>::empty());
            }
        }
        let found = self.enumerate_language_bounded(bound);
        if found.complete {
            proof {
                assert forall|depth: nat|
                    #![trigger level(self@, depth)]
                    #![trigger language_upto(self@, depth)]
                    depth >= n implies level(self@, depth).len() == 0 && texts(found.words@)
                    == language_upto(self@, depth) by {
                    lemma_language_stable(self@, bound as nat, depth);
                    if depth > bound {
                        lemma_language_stable(self@, bound as nat, (depth - 1) as nat);
                    }
                }
            }
            Some(found.words)
        } else {
            proof {
                assert forall|depth: nat| (#[trigger] level(self@, depth)).len() > 0 by {
                    lemma_walk_never_ends(self@, depth);
                }
            }
            None
        }
    }
}

} // verus!
