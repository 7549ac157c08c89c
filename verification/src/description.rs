//! The text form of an automaton.
//!
//! A line that holds a colon starts a state: before the colon stands the
//! state's index, and `final` behind it marks the state as accepting. A line
//! that holds a number and nothing else starts a state that does not accept.
//! Any other line that holds `->` adds a transition to the state started
//! last: before the arrow stands the token, behind it the index of the state
//! that the token leads to. White space around each of these is dropped.
//! Every other line is skipped. The states are taken in the order of their
//! indices. A description without a state, a state without an index, a
//! transition without a destination and a destination that is no state of
//! the automaton are refused.

use vstd::prelude::*;
use crate::automaton::Automaton;
use crate::matcher::well_formed;
use crate::model::{
    collect_edges, has_token, lemma_rank_exists, lemma_slot_of_present, Edge, StateView,
};
use crate::state::{pairs_view, State};
use crate::text::{chars_of, piece};
use crate::scan::{
    after, before, find, find_char, find_pair, number, parse_number, trim, trim_range,
};

verus! {

/// What one line of a description says.
pub enum Line {
    /// A state starts; `index` is `None` where none can be read.
    Header { index: Option<usize>, accepting: bool },
    /// A transition of the state started last; `dest` is `None` where no
    /// destination can be read.
    Transition { token: Seq<char>, dest: Option<usize> },
    /// Nothing.
    Skipped,
}

/// The line separator.
pub open spec fn newline() -> Seq<char> {
    seq!['\n']
}

/// What separates a state's index from its mark.
pub open spec fn colon() -> Seq<char> {
    seq![':']
}

/// What separates a token from its destination.
pub open spec fn arrow() -> Seq<char> {
    seq!['-', '>']
}

/// The mark of an accepting state.
pub open spec fn final_word() -> Seq<char> {
    seq!['f', 'i', 'n', 'a', 'l']
}

/// The lines of `text`: the pieces between line separators, without an
/// empty piece at the end.
pub open spec fn lines(text: Seq<char>) -> Seq<Seq<char>>
    decreases text.len(),
{
    if text.len() == 0 {
        Seq::empty()
    } else {
        match find(text, newline()) {
            Some(k) => if 0 <= k < text.len() {
                seq![text.take(k)] + lines(text.skip(k + 1))
            } else {
                seq![text]
            },
            None => seq![text],
        }
    }
}

/// What `line` says.
pub open spec fn read_line(line: Seq<char>) -> Line {
    match after(line, colon()) {
        Some(mark) => Line::Header {
            index: number(trim(before(line, colon()))),
            accepting: trim(before(mark, colon())) == final_word(),
        },
        None => match after(line, arrow()) {
            Some(rest) => Line::Transition {
                token: trim(before(line, arrow())),
                dest: number(trim(before(rest, arrow()))),
            },
            None => match number(trim(line)) {
                Some(index) => Line::Header { index: Some(index), accepting: false },
                None => Line::Skipped,
            },
        },
    }
}

/// What one line of a description says, with the token as a piece of the
/// description.
pub enum Entry<'a> {
    Header { index: Option<usize>, accepting: bool },
    Transition { token: &'a str, dest: Option<usize> },
    Skipped,
}

impl<'a> View for Entry<'a> {
    type V = Line;

    open spec fn view(&self) -> Line {
        match *self {
            Entry::Header { index, accepting } => Line::Header { index, accepting },
            Entry::Transition { token, dest } => Line::Transition { token: token@, dest },
            Entry::Skipped => Line::Skipped,
        }
    }
}

/// Whether `final` stands in `chars` between `from` and `to`.
fn is_final_word(chars: &Vec<char>, from: usize, to: usize) -> (yes: bool)
    requires
        from <= to <= chars@.len(),
    ensures
        yes == (chars@.subrange(from as int, to as int) == final_word()),
{
    let ghost word = chars@.subrange(from as int, to as int);
    if to - from != 5 {
        assert(word.len() != final_word().len());
        return false;
    }
    let yes = chars[from] == 'f' && chars[from + 1] == 'i' && chars[from + 2] == 'n' && chars[from
        + 3] == 'a' && chars[from + 4] == 'l';
    proof {
        assert(word[0] == chars@[from as int]);
        assert(word[1] == chars@[from + 1]);
        assert(word[2] == chars@[from + 2]);
        assert(word[3] == chars@[from + 3]);
        assert(word[4] == chars@[from + 4]);
        if yes {
            assert(word =~= final_word());
        }
    }
    yes
}

/// Reads the line of `text` that stands between `from` and `to`.
pub fn read_entry<'a>(
    text: &'a str,
    chars: &Vec<char>,
    ascii: bool,
    from: usize,
    to: usize,
) -> (entry: Entry<'a>)
    requires
        chars@ == text@,
        ascii ==> text.is_ascii(),
        from <= to <= chars@.len(),
    ensures
        entry@ == read_line(text@.subrange(from as int, to as int)),
{
    let ghost line = chars@.subrange(from as int, to as int);
    match find_char(chars, from, to, ':') {
        Some(at) => {
            let head = trim_range(chars, from, at);
            let index = parse_number(chars, head.0, head.1);
            let stop = match find_char(chars, at + 1, to, ':') {
                Some(next) => next,
                None => to,
            };
            let mark = trim_range(chars, at + 1, stop);
            let accepting = is_final_word(chars, mark.0, mark.1);
            proof {
                let rest = chars@.subrange(at + 1, to as int);
                assert(before(line, colon()) =~= chars@.subrange(from as int, at as int));
                assert(after(line, colon()) == Some(line.skip(at - from + 1)));
                assert(line.skip(at - from + 1) =~= rest);
                assert(before(rest, colon()) =~= chars@.subrange(at + 1, stop as int));
            }
            Entry::Header { index, accepting }
        },
        None => {
            match find_pair(chars, from, to, '-', '>') {
                Some(at) => {
                    let stop = match find_pair(chars, at + 2, to, '-', '>') {
                        Some(next) => next,
                        None => to,
                    };
                    let digits = trim_range(chars, at + 2, stop);
                    proof {
                        let rest = chars@.subrange(at + 2, to as int);
                        assert(before(line, arrow()) =~= chars@.subrange(from as int, at as int));
                        assert(after(line, arrow()) == Some(line.skip(at - from + 2)));
                        assert(line.skip(at - from + 2) =~= rest);
                        assert(before(rest, arrow()) =~= chars@.subrange(at + 2, stop as int));
                    }
                    let dest = parse_number(chars, digits.0, digits.1);
                    let key = trim_range(chars, from, at);
                    Entry::Transition { token: piece(text, ascii, key.0, key.1), dest }
                },
                None => {
                    let whole = trim_range(chars, from, to);
                    match parse_number(chars, whole.0, whole.1) {
                        Some(index) => Entry::Header { index: Some(index), accepting: false },
                        None => Entry::Skipped,
                    }
                },
            }
        },
    }
}

/// A state as a description gives it: the index written for it, its
/// transitions in the order of their lines, and whether it accepts.
pub struct Block {
    pub index: usize,
    pub pairs: Seq<Edge>,
    pub accepting: bool,
}

/// What has been read of a description: the states that are closed, and of
/// the state that is open its index, if one has started, its mark and its
/// transitions so far.
pub struct Progress {
    pub blocks: Seq<Block>,
    pub index: Option<usize>,
    pub accepting: bool,
    pub pairs: Seq<Edge>,
}

/// Before the first line.
pub open spec fn nothing_read() -> Progress {
    Progress { blocks: Seq::empty(), index: None, accepting: false, pairs: Seq::empty() }
}

/// What has been read after one more line; `None` where the line starts a
/// state without an index that can be read, or holds a transition without a
/// destination that can be read. A transition that comes before the first
/// state belongs to the first state.
pub open spec fn step(progress: Progress, line: Line) -> Option<Progress> {
    match line {
        Line::Header { index: None, accepting } => None,
        Line::Header { index: Some(index), accepting } => Some(
            match progress.index {
                Some(open) => Progress {
                    blocks: progress.blocks.push(
                        Block { index: open, pairs: progress.pairs, accepting: progress.accepting },
                    ),
                    index: Some(index),
                    accepting,
                    pairs: Seq::empty(),
                },
                None => Progress {
                    blocks: progress.blocks,
                    index: Some(index),
                    accepting,
                    pairs: progress.pairs,
                },
            },
        ),
        Line::Transition { token, dest: None } => None,
        Line::Transition { token, dest: Some(dest) } => Some(
            Progress {
                blocks: progress.blocks,
                index: progress.index,
                accepting: progress.accepting,
                pairs: progress.pairs.push((token, dest)),
            },
        ),
        Line::Skipped => Some(progress),
    }
}

/// What has been read after `lines`, or the number of the first line, from
/// 0, that cannot be read.
pub open spec fn scan(lines: Seq<Seq<char>>) -> Result<Progress, int>
    decreases lines.len(),
{
    if lines.len() == 0 {
        Ok(nothing_read())
    } else {
        match scan(lines.drop_last()) {
            Ok(progress) => match step(progress, read_line(lines.last())) {
                Some(next) => Ok(next),
                None => Err(lines.len() - 1),
            },
            Err(line) => Err(line),
        }
    }
}

/// The states that `text` describes, in the order of their first lines. A
/// text that starts no state is refused at line 0.
pub open spec fn blocks_of(text: Seq<char>) -> Result<Seq<Block>, int> {
    match scan(lines(text)) {
        Ok(progress) => match progress.index {
            Some(open) => Ok(
                progress.blocks.push(
                    Block { index: open, pairs: progress.pairs, accepting: progress.accepting },
                ),
            ),
            None => Err(0),
        },
        Err(line) => Err(line),
    }
}

/// Whether `k` is the place in `sorted` behind the blocks whose index is at
/// most `index` and before the first whose index is greater.
pub open spec fn is_place(sorted: Seq<Block>, index: usize, k: int) -> bool {
    &&& 0 <= k <= sorted.len()
    &&& forall|j: int| 0 <= j < k ==> (#[trigger] sorted[j]).index <= index
    &&& k < sorted.len() ==> sorted[k].index > index
}

/// The place in `sorted` for a block with the given index.
pub open spec fn place_for(sorted: Seq<Block>, index: usize) -> int {
    choose|k: int| is_place(sorted, index, k)
}

/// `blocks` in the order of their indices; blocks with one index keep the
/// order of their first lines.
pub open spec fn ordered(blocks: Seq<Block>) -> Seq<Block>
    decreases blocks.len(),
{
    if blocks.len() == 0 {
        Seq::empty()
    } else {
        let sorted = ordered(blocks.drop_last());
        sorted.insert(place_for(sorted, blocks.last().index), blocks.last())
    }
}

/// The state that a block describes.
pub open spec fn state_of(block: Block) -> StateView {
    StateView { edges: collect_edges(block.pairs), accepting: block.accepting }
}

/// The destinations written in `lines`: for each line that holds a
/// transition, in their order, the number of the line and the destination.
pub open spec fn destinations(lines: Seq<Seq<char>>) -> Seq<(int, usize)>
    decreases lines.len(),
{
    if lines.len() == 0 {
        Seq::empty()
    } else {
        match read_line(lines.last()) {
            Line::Transition { token, dest: Some(dest) } => destinations(lines.drop_last()).push(
                (lines.len() - 1, dest),
            ),
            _ => destinations(lines.drop_last()),
        }
    }
}

/// Whether the destination at place `j` is the first that is no index of
/// `count` states.
pub open spec fn is_first_beyond(written: Seq<(int, usize)>, count: int, j: int) -> bool {
    &&& 0 <= j < written.len()
    &&& written[j].1 >= count
    &&& forall|i: int| 0 <= i < j ==> (#[trigger] written[i]).1 < count
}

/// The line of the first destination that is no index of `count` states.
pub open spec fn first_beyond(written: Seq<(int, usize)>, count: int) -> Option<int> {
    if exists|j: int| is_first_beyond(written, count, j) {
        Some(written[choose|j: int| is_first_beyond(written, count, j)].0)
    } else {
        None
    }
}

/// The states of the automaton that `text` describes, or the number of the
/// line, from 0, at which the description is refused: the first line that
/// cannot be read or, where all can be read and a state is started, the
/// first line whose transition leads to no state.
pub open spec fn described(text: Seq<char>) -> Result<Seq<StateView>, int> {
    match blocks_of(text) {
        Ok(blocks) => match first_beyond(destinations(lines(text)), blocks.len() as int) {
            Some(line) => Err(line),
            None => Ok(ordered(blocks).map_values(|b: Block| state_of(b))),
        },
        Err(line) => Err(line),
    }
}

/// Every destination is below `count`.
pub open spec fn pairs_below(pairs: Seq<Edge>, count: int) -> bool {
    forall|i: int| 0 <= i < pairs.len() ==> (#[trigger] pairs[i]).1 < count
}

/// In every block every destination is below `count`.
pub open spec fn blocks_below(blocks: Seq<Block>, count: int) -> bool {
    forall|k: int| 0 <= k < blocks.len() ==> pairs_below((#[trigger] blocks[k]).pairs, count)
}

/// Where every destination written in the lines is below `count`, so is
/// every destination that has been read.
pub proof fn lemma_scan_below(lines: Seq<Seq<char>>, count: int)
    requires
        scan(lines) is Ok,
        forall|j: int|
            0 <= j < destinations(lines).len() ==> (#[trigger] destinations(lines)[j]).1 < count,
    ensures
        pairs_below(scan(lines)->Ok_0.pairs, count),
        blocks_below(scan(lines)->Ok_0.blocks, count),
    decreases lines.len(),
{
    if lines.len() > 0 {
        let front = lines.drop_last();
        let before = destinations(front);
        let all = destinations(lines);
        assert forall|j: int| 0 <= j < before.len() implies (#[trigger] before[j]).1 < count by {
            assert(all[j] == before[j]);
        }
        lemma_scan_below(front, count);
        let progress = scan(front)->Ok_0;
        match read_line(lines.last()) {
            Line::Transition { token, dest: Some(dest) } => {
                assert(all[before.len() as int].1 == dest);
            },
            _ => {},
        }
    }
}

/// Ordering blocks keeps every destination below `count`.
pub proof fn lemma_ordered_below(blocks: Seq<Block>, count: int)
    requires
        blocks_below(blocks, count),
    ensures
        blocks_below(ordered(blocks), count),
    decreases blocks.len(),
{
    if blocks.len() > 0 {
        let front = blocks.drop_last();
        assert forall|k: int| 0 <= k < front.len() implies pairs_below(
            (#[trigger] front[k]).pairs,
            count,
        ) by {
            assert(front[k] == blocks[k]);
        }
        lemma_ordered_below(front, count);
        lemma_place_exists(ordered(front), blocks.last().index);
        assert(pairs_below(blocks[blocks.len() - 1].pairs, count));
    }
}

/// Collecting edges keeps every destination below `count`.
pub proof fn lemma_collect_below(pairs: Seq<Edge>, count: int)
    requires
        pairs_below(pairs, count),
    ensures
        pairs_below(collect_edges(pairs), count),
    decreases pairs.len(),
{
    if pairs.len() > 0 {
        let front = pairs.drop_last();
        assert forall|i: int| 0 <= i < front.len() implies (#[trigger] front[i]).1 < count by {
            assert(front[i] == pairs[i]);
        }
        lemma_collect_below(front, count);
        let edges = collect_edges(front);
        let token = pairs.last().0;
        assert(pairs[pairs.len() - 1].1 < count);
        if has_token(edges, token) {
            lemma_slot_of_present(edges, token);
        } else {
            lemma_rank_exists(edges, token);
        }
    }
}

/// Blocks whose destinations are all below their number describe an
/// automaton in which every transition leads to a state.
pub proof fn lemma_blocks_well_formed(blocks: Seq<Block>)
    requires
        blocks.len() > 0,
        blocks_below(blocks, blocks.len() as int),
    ensures
        well_formed(ordered(blocks).map_values(|b: Block| state_of(b))),
{
    let count = blocks.len() as int;
    let sorted = ordered(blocks);
    let states = sorted.map_values(|b: Block| state_of(b));
    lemma_ordered(blocks, 0);
    lemma_ordered_below(blocks, count);
    assert forall|s: int, e: int|
        0 <= s < states.len() && 0 <= e < states[s].edges.len() implies (
    #[trigger] states[s].edges[e]).1 < states.len() by {
        assert(pairs_below(sorted[s].pairs, count));
        lemma_collect_below(sorted[s].pairs, count);
    }
}

/// The place for a block is the one that `place_for` names.
pub proof fn lemma_place_is(sorted: Seq<Block>, index: usize, k: int)
    requires
        is_place(sorted, index, k),
    ensures
        place_for(sorted, index) == k,
{
    let other = place_for(sorted, index);
    assert(is_place(sorted, index, other));
    if other < k {
        assert(sorted[other].index <= index);
    } else if k < other {
        assert(sorted[k].index <= index);
    }
}

/// Whether the indices of `blocks` never fall.
pub open spec fn in_order(blocks: Seq<Block>) -> bool {
    forall|i: int, j: int|
        0 <= i < j < blocks.len() ==> (#[trigger] blocks[i]).index <= (#[trigger] blocks[j]).index
}

/// Those of `blocks` that have the given index, in their order.
pub open spec fn with_index(blocks: Seq<Block>, index: usize) -> Seq<Block>
    decreases blocks.len(),
{
    if blocks.len() == 0 {
        Seq::empty()
    } else if blocks.last().index == index {
        with_index(blocks.drop_last(), index).push(blocks.last())
    } else {
        with_index(blocks.drop_last(), index)
    }
}

/// The blocks with an index among two sequences, one after the other.
pub proof fn lemma_with_index_concat(front: Seq<Block>, back: Seq<Block>, index: usize)
    ensures
        with_index(front + back, index) == with_index(front, index) + with_index(back, index),
    decreases back.len(),
{
    if back.len() == 0 {
        assert(front + back =~= front);
        assert(with_index(front, index) + with_index(back, index) =~= with_index(front, index));
    } else {
        lemma_with_index_concat(front, back.drop_last(), index);
        assert((front + back).drop_last() =~= front + back.drop_last());
        assert((front + back).last() == back.last());
        if back.last().index == index {
            assert(with_index(front, index) + with_index(back, index) =~= (with_index(
                front,
                index,
            ) + with_index(back.drop_last(), index)).push(back.last()));
        }
    }
}

/// Blocks of which none has an index hold none with it.
pub proof fn lemma_with_index_none(blocks: Seq<Block>, index: usize)
    requires
        forall|i: int| 0 <= i < blocks.len() ==> (#[trigger] blocks[i]).index != index,
    ensures
        with_index(blocks, index) == Seq::<Block>::empty(),
    decreases blocks.len(),
{
    if blocks.len() > 0 {
        let front = blocks.drop_last();
        assert forall|i: int| 0 <= i < front.len() implies (#[trigger] front[i]).index != index by {
            assert(front[i] == blocks[i]);
        }
        lemma_with_index_none(front, index);
        assert(blocks[blocks.len() - 1].index != index);
    }
}

/// Before a place in `sorted` that holds a greater index than `index`, some
/// place is the one for a block with that index.
proof fn lemma_place_before(sorted: Seq<Block>, index: usize, bound: int) -> (k: int)
    requires
        0 <= bound <= sorted.len(),
        bound < sorted.len() ==> sorted[bound].index > index,
    ensures
        is_place(sorted, index, k),
    decreases bound,
{
    if exists|j: int| 0 <= j < bound && (#[trigger] sorted[j]).index > index {
        let j = choose|j: int| 0 <= j < bound && (#[trigger] sorted[j]).index > index;
        lemma_place_before(sorted, index, j)
    } else {
        bound
    }
}

/// Every sequence has a place for a block with a given index.
pub proof fn lemma_place_exists(sorted: Seq<Block>, index: usize)
    ensures
        is_place(sorted, index, place_for(sorted, index)),
{
    let k = lemma_place_before(sorted, index, sorted.len() as int);
}

/// Ordering sorts by index and keeps the blocks of each index in the order
/// in which they came.
pub proof fn lemma_ordered(blocks: Seq<Block>, index: usize)
    ensures
        ordered(blocks).len() == blocks.len(),
        in_order(ordered(blocks)),
        with_index(ordered(blocks), index) == with_index(blocks, index),
    decreases blocks.len(),
{
    if blocks.len() > 0 {
        let front = blocks.drop_last();
        let last = blocks.last();
        let sorted = ordered(front);
        lemma_ordered(front, index);
        lemma_place_exists(sorted, last.index);
        let k = place_for(sorted, last.index);
        let all = sorted.insert(k, last);
        assert forall|i: int, j: int| 0 <= i < j < all.len() implies (#[trigger] all[i]).index <= (
        #[trigger] all[j]).index by {
            let a = if i < k {
                i
            } else {
                i - 1
            };
            let b = if j < k {
                j
            } else {
                j - 1
            };
            if i != k && j != k {
                assert(all[i] == sorted[a] && all[j] == sorted[b]);
            } else if i == k {
                assert(all[j] == sorted[b]);
                if k < b {
                    assert(sorted[k].index <= sorted[b].index);
                }
            } else {
                assert(all[i] == sorted[a]);
            }
        }
        let head = sorted.take(k);
        let tail = sorted.skip(k);
        assert(all =~= head + seq![last] + tail);
        assert(sorted =~= head + tail);
        lemma_with_index_concat(head, tail, index);
        lemma_with_index_concat(head + seq![last], tail, index);
        lemma_with_index_concat(head, seq![last], index);
        let one = seq![last];
        assert(one.drop_last() =~= Seq::<Block>::empty());
        assert(with_index(one.drop_last(), index) =~= Seq::<Block>::empty());
        assert(one.last() == last);
        if last.index == index {
            assert forall|i: int| 0 <= i < tail.len() implies (#[trigger] tail[i]).index
                != index by {
                assert(tail[i] == sorted[k + i]);
                if i > 0 {
                    assert(sorted[k].index <= sorted[k + i].index);
                }
            }
            lemma_with_index_none(tail, index);
            assert(with_index(one, index) =~= one);
            assert(with_index(all, index) =~= with_index(sorted, index).push(last));
        } else {
            assert(with_index(one, index) =~= Seq::<Block>::empty());
            assert(with_index(all, index) =~= with_index(sorted, index));
        }
    }
}

/// A description that cannot be read; it holds the number of the line, from
/// 0, at which reading stopped.
#[derive(Debug)]
pub struct AutomatonParseError(pub usize);

/// The first place in `keys` that holds a greater index than `index`.
fn find_place(keys: &Vec<usize>, index: usize) -> (k: usize)
    ensures
        k <= keys@.len(),
        forall|j: int| 0 <= j < k ==> #[trigger] keys@[j] <= index,
        k < keys@.len() ==> keys@[k as int] > index,
{
    let mut k: usize = 0;
    while k < keys.len() && keys[k] <= index
        invariant
            k <= keys@.len(),
            forall|j: int| 0 <= j < k ==> #[trigger] keys@[j] <= index,
        decreases keys@.len() - k,
    {
        k += 1;
    }
    k
}

/// Whether `automaton` and `keys` hold the states and indices of `blocks`
/// in order.
pub open spec fn holds_ordered(
    states: Seq<StateView>,
    keys: Seq<usize>,
    blocks: Seq<Block>,
) -> bool {
    &&& states == ordered(blocks).map_values(|b: Block| state_of(b))
    &&& keys == ordered(blocks).map_values(|b: Block| b.index)
}

/// Closes a state: puts it among the states read so far, by its index.
fn close_state<'a>(
    automaton: &mut Automaton<'a>,
    keys: &mut Vec<usize>,
    index: usize,
    pairs: Vec<(&'a str, usize)>,
    accepting: bool,
    Ghost(blocks): Ghost<Seq<Block>>,
)
    requires
        holds_ordered(old(automaton)@, old(keys)@, blocks),
    ensures
        holds_ordered(
            final(automaton)@,
            final(keys)@,
            blocks.push(Block { index, pairs: pairs_view(pairs@), accepting }),
        ),
{
    let ghost block = Block { index, pairs: pairs_view(pairs@), accepting };
    let ghost sorted = ordered(blocks);
    let place = find_place(keys, index);
    let state = State::new(pairs, accepting);
    proof {
        assert(keys@.len() == sorted.len());
        assert forall|j: int| 0 <= j < place implies (#[trigger] sorted[j]).index <= index by {
            assert(keys@[j] == sorted[j].index);
        }
        if place < sorted.len() {
            assert(keys@[place as int] == sorted[place as int].index);
        }
        lemma_place_is(sorted, index, place as int);
        assert(blocks.push(block).drop_last() =~= blocks);
        assert(ordered(blocks.push(block)) == sorted.insert(place as int, block));
        assert(state@ == state_of(block));
    }
    keys.insert(place, index);
    automaton.insert_state(place, state);
    proof {
        let after = sorted.insert(place as int, block);
        assert(automaton@ =~= after.map_values(|b: Block| state_of(b)));
        assert(keys@ =~= after.map_values(|b: Block| b.index));
    }
}

/// The lines of a text that does not end a line: the first line, then the
/// lines of what follows it.
proof fn lemma_lines_unfold(text: Seq<char>, from: int, end: int)
    requires
        0 <= from < text.len(),
        from <= end <= text.len(),
        end < text.len() ==> find(text.subrange(from, text.len() as int), newline()) == Some(
            end - from,
        ),
        end == text.len() ==> find(text.subrange(from, text.len() as int), newline()) is None,
    ensures
        lines(text.skip(from)) == seq![text.subrange(from, end)] + lines(
            text.skip(if end < text.len() {
                end + 1
            } else {
                end
            }),
        ),
{
    let rest = text.skip(from);
    assert(rest =~= text.subrange(from, text.len() as int));
    if end < text.len() {
        assert(rest.take(end - from) =~= text.subrange(from, end));
        assert(rest.skip(end - from + 1) =~= text.skip(end + 1));
    } else {
        assert(rest =~= text.subrange(from, end));
        assert(text.skip(end).len() == 0);
        assert(seq![rest] + Seq::<Seq<char>>::empty() =~= seq![rest]);
    }
}

/// The first of `written`, each a line and a destination, whose destination
/// is no index of `count` states.
fn find_beyond(written: &Vec<(usize, usize)>, count: usize) -> (found: Option<usize>)
    ensures
        match found {
            Some(j) => is_first_beyond(lines_view(written@), count as int, j as int),
            None => forall|j: int|
                0 <= j < written@.len() ==> (#[trigger] lines_view(written@)[j]).1 < count,
        },
{
    let mut j: usize = 0;
    while j < written.len()
        invariant
            j <= written@.len(),
            forall|i: int| 0 <= i < j ==> (#[trigger] lines_view(written@)[i]).1 < count,
        decreases written@.len() - j,
    {
        if written[j].1 >= count {
            return Some(j);
        }
        j += 1;
    }
    None
}

/// Reads the description of an automaton. The states come in the order of
/// the indices written for them; a transition keeps the destination
/// written for it, which is the index of a state. The error holds the
/// number of the first line that cannot be read; where all can be read, 0
/// if the description starts no state, else the number of the first line
/// whose transition leads to no state.
pub fn parse_description<'a>(text: &'a str) -> (parsed: Result<Automaton<'a>, AutomatonParseError>)
    ensures
        match parsed {
            Ok(automaton) => described(text@) == Ok::<Seq<StateView>, int>(automaton@)
                && well_formed(automaton@),
            Err(error) => described(text@) == Err::<Seq<StateView>, int>(error.0 as int),
        },
{
    let chars = chars_of(text);
    let ascii = text.is_ascii();
    let total = chars.len();
    let mut automaton = Automaton::new();
    let mut keys: Vec<usize> = Vec::new();
    let mut index: Option<usize> = None;
    let mut accepting = false;
    let mut pairs: Vec<(&'a str, usize)> = Vec::new();
    let mut written: Vec<(usize, usize)> = Vec::new();
    let mut position: usize = 0;
    let mut line_number: usize = 0;
    let ghost mut done: Seq<Seq<char>> = Seq::empty();
    let ghost mut progress = nothing_read();
    proof {
        assert(text@.skip(0) =~= text@);
        assert(done + lines(text@) =~= lines(text@));
        assert(pairs_view(pairs@) =~= progress.pairs);
        let sorted = ordered(progress.blocks);
        assert(automaton@ =~= sorted.map_values(|b: Block| state_of(b)));
        assert(keys@ =~= sorted.map_values(|b: Block| b.index));
        assert(lines_view(written@) =~= destinations(done));
    }
    while position < total
        invariant
            chars@ == text@,
            ascii ==> text.is_ascii(),
            total == chars@.len(),
            position <= total,
            line_number <= position,
            line_number == done.len(),
            lines(text@) == done + lines(text@.skip(position as int)),
            scan(done) == Ok::<Progress, int>(progress),
            progress.index == index,
            progress.accepting == accepting,
            progress.pairs == pairs_view(pairs@),
            holds_ordered(automaton@, keys@, progress.blocks),
            lines_view(written@) == destinations(done),
        decreases total - position,
    {
        let found = find_char(&chars, position, total, '\n');
        let end = match found {
            Some(at) => at,
            None => total,
        };
        let entry = read_entry(text, &chars, ascii, position, end);
        let ghost line = text@.subrange(position as int, end as int);
        let ghost longer = done.push(line);
        proof {
            lemma_lines_unfold(text@, position as int, end as int);
            assert(longer.drop_last() =~= done);
            assert(longer.last() == line);
        }
        match entry {
            Entry::Header { index: None, accepting: _ } => {
                proof {
                    lemma_scan_fails(longer, lines(text@), line_number as int);
                }
                return Err(AutomatonParseError(line_number));
            },
            Entry::Header { index: Some(next), accepting: mark } => {
                match index {
                    Some(open) => {
                        close_state(
                            &mut automaton,
                            &mut keys,
                            open,
                            pairs,
                            accepting,
                            Ghost(progress.blocks),
                        );
                        pairs = Vec::new();
                    },
                    None => {},
                }
                index = Some(next);
                accepting = mark;
            },
            Entry::Transition { token, dest: None } => {
                proof {
                    lemma_scan_fails(longer, lines(text@), line_number as int);
                }
                return Err(AutomatonParseError(line_number));
            },
            Entry::Transition { token, dest: Some(dest) } => {
                pairs.push((token, dest));
                written.push((line_number, dest));
            },
            Entry::Skipped => {},
        }
        proof {
            progress = step(progress, read_line(line)).unwrap();
            done = longer;
            assert(pairs_view(pairs@) =~= progress.pairs);
            assert(lines_view(written@) =~= destinations(done));
            let next = if end < total {
                end + 1
            } else {
                end as int
            };
            assert(lines(text@) =~= done + lines(text@.skip(next)));
        }
        position = if end < total {
            end + 1
        } else {
            end
        };
        line_number += 1;
    }
    proof {
        assert(lines(text@.skip(position as int)) =~= Seq::<Seq<char>>::empty());
        assert(done =~= lines(text@));
    }
    match index {
        Some(open) => {
            let ghost blocks = progress.blocks.push(
                Block { index: open, pairs: pairs_view(pairs@), accepting },
            );
            close_state(&mut automaton, &mut keys, open, pairs, accepting, Ghost(progress.blocks));
            proof {
                lemma_ordered(blocks, 0);
            }
            match find_beyond(&written, automaton.len()) {
                Some(j) => Err(AutomatonParseError(written[j].0)),
                None => {
                    proof {
                        lemma_scan_below(done, blocks.len() as int);
                        assert(blocks_below(blocks, blocks.len() as int)) by {
                            assert forall|k: int| 0 <= k < blocks.len() implies pairs_below(
                                (#[trigger] blocks[k]).pairs,
                                blocks.len() as int,
                            ) by {
                                if k < progress.blocks.len() {
                                    assert(blocks[k] == progress.blocks[k]);
                                }
                            }
                        }
                        lemma_blocks_well_formed(blocks);
                    }
                    Ok(automaton)
                },
            }
        },
        None => Err(AutomatonParseError(0)),
    }
}

/// The lines and destinations that a list stands for.
pub open spec fn lines_view(written: Seq<(usize, usize)>) -> Seq<(int, usize)> {
    written.map_values(|p: (usize, usize)| (p.0 as int, p.1))
}

/// Reading that fails at some line fails there whatever follows.
proof fn lemma_scan_fails(start: Seq<Seq<char>>, all: Seq<Seq<char>>, line: int)
    requires
        scan(start) == Err::<Progress, int>(line),
        start.is_prefix_of(all),
    ensures
        scan(all) == Err::<Progress, int>(line),
    decreases all.len(),
{
    if all.len() > start.len() {
        assert(start.is_prefix_of(all.drop_last()));
        lemma_scan_fails(start, all.drop_last(), line);
    } else {
        assert(all =~= start);
    }
}

impl<'a> TryFrom<&'a str> for Automaton<'a> {
    type Error = AutomatonParseError;

    /// Reads the description of an automaton.
    fn try_from(s: &'a str) -> (parsed: Result<Self, AutomatonParseError>)
        ensures
            match parsed {
                Ok(automaton) => described(s@) == Ok::<Seq<StateView>, int>(automaton@)
                    && well_formed(automaton@),
                Err(error) => described(s@) == Err::<Seq<StateView>, int>(error.0 as int),
            },
    {
        parse_description(s)
    }
}

/// What `try_from` returns is stated in its own contract, over the states of
/// the automaton: automata that hold the same states need not be equal, so
/// no function of the text names the one that is returned.
impl<'a> vstd::std_specs::convert::TryFromSpecImpl<&'a str> for Automaton<'a> {
    open spec fn obeys_try_from_spec() -> bool {
        false
    }

    open spec fn try_from_spec(v: &'a str) -> Result<Self, AutomatonParseError> {
        Err(AutomatonParseError(0))
    }
}

} // verus!
