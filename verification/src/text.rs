//! Strings as sequences of characters.

use vstd::prelude::*;
use vstd::string::{StrSliceExecFns, StringSliceAdditionalSpecFns};
use vstd::utf8::{char_u32_cast, encode_utf8_decode_utf8};

verus! {

/// The characters of `s`, in order.
pub fn chars_of(s: &str) -> (out: Vec<char>)
    ensures
        out@ == s@,
{
    let mut out: Vec<char> = Vec::new();
    for c in it: s.chars()
        invariant
            it.seq() == s@,
            out@ == s@.subrange(0, it.index() as int),
    {
        out.push(c);
        assert(out@ =~= s@.subrange(0, it.index() + 1));
    }
    assert(out@ =~= s@);
    out
}

/// Two strings with the same encoding hold the same characters.
pub proof fn lemma_same_bytes_same_text(a: Seq<char>, b: Seq<char>)
    requires
        vstd::utf8::encode_utf8(a) == vstd::utf8::encode_utf8(b),
    ensures
        a == b,
{
    encode_utf8_decode_utf8(a);
    encode_utf8_decode_utf8(b);
}

/// Whether `a` and `b` hold the same characters.
pub fn same_text(a: &str, b: &str) -> (same: bool)
    ensures
        same == (a@ == b@),
{
    let x = a.as_bytes();
    let y = b.as_bytes();
    if x.len() != y.len() {
        return false;
    }
    let mut i: usize = 0;
    while i < x.len()
        invariant
            x@.len() == y@.len(),
            i <= x@.len(),
            x@ == a.spec_bytes(),
            y@ == b.spec_bytes(),
            forall|j: int| 0 <= j < i ==> x@[j] == y@[j],
        decreases x@.len() - i,
    {
        if x[i] != y[i] {
            return false;
        }
        i += 1;
    }
    proof {
        assert(x@ =~= y@);
        lemma_same_bytes_same_text(a@, b@);
    }
    true
}

/// Whether `token` is the piece of `input` that starts at `start` and is
/// `len` characters long.
pub fn matches_at(token: &str, input: &Vec<char>, start: usize, len: usize) -> (hit: bool)
    requires
        start + len <= input@.len(),
    ensures
        hit == (token@ == input@.subrange(start as int, start + len)),
{
    let ghost word = input@.subrange(start as int, start + len);
    let total = input.len();
    let mut agree = true;
    let mut seen: usize = 0;
    for c in it: token.chars()
        invariant
            it.seq() == token@,
            word == input@.subrange(start as int, start + len),
            start + len <= total == input@.len(),
            seen <= len,
            agree ==> seen == it.index(),
            agree == (it.index() <= len && forall|j: int|
                0 <= j < it.index() ==> token@[j] == word[j]),
    {
        let ghost at = it.index() as int;
        let ghost was = agree;
        if agree && seen < len && input[start + seen] == c {
            seen += 1;
        } else {
            agree = false;
        }
        proof {
            assert(token@[at] == c);
            if at < len {
                assert(word[at] == input@[start + at]);
            }
            if !was && at <= len {
                let j = choose|j: int| 0 <= j < at && token@[j] != word[j];
                assert(token@[j] != word[j]);
            }
        }
    }
    proof {
        if agree && seen == len {
            assert(token@ =~= word);
        }
    }
    agree && seen == len
}

/// The piece of `text` between `from` and `to`, counted in characters.
/// `ascii` says whether `text` is known to hold one byte for each character.
pub fn piece<'a>(text: &'a str, ascii: bool, from: usize, to: usize) -> (part: &'a str)
    requires
        from <= to <= text@.len(),
        ascii ==> text.is_ascii(),
    ensures
        part@ == text@.subrange(from as int, to as int),
{
    if ascii {
        text.substring_ascii(from, to)
    } else {
        text.substring_char(from, to)
    }
}

/// Whether `a` comes before `b` in the order of strings: at the first place
/// where they differ `a` holds the smaller character, or `a` ends there and
/// `b` goes on.
pub open spec fn text_less(a: Seq<char>, b: Seq<char>) -> bool
    decreases a.len(),
{
    if b.len() == 0 {
        false
    } else if a.len() == 0 {
        true
    } else if a[0] != b[0] {
        (a[0] as u32) < (b[0] as u32)
    } else {
        text_less(a.drop_first(), b.drop_first())
    }
}

/// How one text stands to another in the order of strings.
pub enum Rank {
    Before,
    Same,
    After,
}

/// Texts that agree on their first `k` characters are in order if the first
/// ends there and the second goes on, or if the first holds the smaller
/// character there.
pub proof fn lemma_less_at(a: Seq<char>, b: Seq<char>, k: int)
    requires
        0 <= k <= a.len(),
        k < b.len(),
        forall|j: int| 0 <= j < k ==> a[j] == b[j],
        k == a.len() || (a[k] as u32) < (b[k] as u32),
    ensures
        text_less(a, b),
    decreases k,
{
    if k > 0 {
        let x = a.drop_first();
        let y = b.drop_first();
        assert forall|j: int| 0 <= j < k - 1 implies x[j] == y[j] by {
            assert(a[j + 1] == b[j + 1]);
        }
        lemma_less_at(x, y, k - 1);
    }
}

/// No text comes before itself.
pub proof fn lemma_less_irreflexive(a: Seq<char>)
    ensures
        !text_less(a, a),
    decreases a.len(),
{
    if a.len() > 0 {
        lemma_less_irreflexive(a.drop_first());
    }
}

/// What comes before a text comes before everything behind that text.
pub proof fn lemma_less_transitive(a: Seq<char>, b: Seq<char>, c: Seq<char>)
    requires
        text_less(a, b),
        text_less(b, c),
    ensures
        text_less(a, c),
    decreases a.len(),
{
    if a.len() > 0 && a[0] == b[0] && b[0] == c[0] {
        lemma_less_transitive(a.drop_first(), b.drop_first(), c.drop_first());
    }
}

/// Different characters have different codes.
pub proof fn lemma_codes_differ(c: char, d: char)
    requires
        c != d,
    ensures
        c as u32 != d as u32,
{
    char_u32_cast(c, c as u32);
    char_u32_cast(d, d as u32);
}

/// Of two different texts one comes before the other.
pub proof fn lemma_less_total(a: Seq<char>, b: Seq<char>)
    ensures
        text_less(a, b) || a == b || text_less(b, a),
    decreases a.len(),
{
    if a.len() > 0 && b.len() > 0 && a[0] == b[0] {
        lemma_less_total(a.drop_first(), b.drop_first());
        if a.drop_first() == b.drop_first() {
            assert(a =~= seq![a[0]] + a.drop_first());
            assert(b =~= seq![b[0]] + b.drop_first());
        }
    } else if a.len() == 0 && b.len() == 0 {
        assert(a =~= b);
    } else if a.len() > 0 && b.len() > 0 {
        lemma_codes_differ(a[0], b[0]);
    }
}

/// How `text` stands to `other` in the order of strings.
pub fn order_of(text: &str, other: &Vec<char>) -> (rank: Rank)
    ensures
        match rank {
            Rank::Before => text_less(text@, other@),
            Rank::Same => text@ == other@,
            Rank::After => text_less(other@, text@),
        },
{
    let total = other.len();
    let mut rank = Rank::Same;
    let mut seen: usize = 0;
    for c in it: text.chars()
        invariant
            it.seq() == text@,
            total == other@.len(),
            rank is Same ==> seen == it.index() && seen <= total && forall|j: int|
                0 <= j < seen ==> text@[j] == other@[j],
            rank is Before ==> text_less(text@, other@),
            rank is After ==> text_less(other@, text@),
    {
        let ghost at = it.index() as int;
        assert(text@[at] == c);
        match rank {
            Rank::Same => {
                if seen < total {
                    let d = other[seen];
                    if c == d {
                        seen += 1;
                    } else if (c as u32) < (d as u32) {
                        proof {
                            lemma_less_at(text@, other@, at);
                        }
                        rank = Rank::Before;
                    } else {
                        proof {
                            lemma_codes_differ(c, d);
                            lemma_less_at(other@, text@, at);
                        }
                        rank = Rank::After;
                    }
                } else {
                    proof {
                        lemma_less_at(other@, text@, at);
                    }
                    rank = Rank::After;
                }
            },
            Rank::Before => {},
            Rank::After => {},
        }
    }
    match rank {
        Rank::Same => {
            if seen < total {
                proof {
                    lemma_less_at(text@, other@, seen as int);
                }
                Rank::Before
            } else {
                assert(text@ =~= other@);
                Rank::Same
            }
        },
        Rank::Before => Rank::Before,
        Rank::After => Rank::After,
    }
}

} // verus!
