//! Scanning text: white space, separators and numbers.

use vstd::prelude::*;

verus! {

/// Whether `c` is white space.
pub open spec fn is_space(c: char) -> bool {
    let code = c as u32;
    ||| 9 <= code <= 13
    ||| code == 0x20
    ||| code == 0x85
    ||| code == 0xA0
    ||| code == 0x1680
    ||| 0x2000 <= code <= 0x200A
    ||| code == 0x2028
    ||| code == 0x2029
    ||| code == 0x202F
    ||| code == 0x205F
    ||| code == 0x3000
}

/// `s` without the white space at its start.
pub open spec fn trim_start(s: Seq<char>) -> Seq<char>
    decreases s.len(),
{
    if s.len() > 0 && is_space(s[0]) {
        trim_start(s.drop_first())
    } else {
        s
    }
}

/// `s` without the white space at its end.
pub open spec fn trim_end(s: Seq<char>) -> Seq<char>
    decreases s.len(),
{
    if s.len() > 0 && is_space(s.last()) {
        trim_end(s.drop_last())
    } else {
        s
    }
}

/// `s` without the white space at its start and at its end.
pub open spec fn trim(s: Seq<char>) -> Seq<char> {
    trim_end(trim_start(s))
}

/// Whether `c` is white space.
pub fn space(c: char) -> (yes: bool)
    ensures
        yes == is_space(c),
{
    let code = c as u32;
    (9 <= code && code <= 13) || code == 0x20 || code == 0x85 || code == 0xA0 || code == 0x1680
        || (0x2000 <= code && code <= 0x200A) || code == 0x2028 || code == 0x2029 || code
        == 0x202F || code == 0x205F || code == 0x3000
}

/// The bounds of the piece of `text` between `from` and `to` without the
/// white space at its start and at its end.
pub fn trim_range(text: &Vec<char>, from: usize, to: usize) -> (bounds: (usize, usize))
    requires
        from <= to <= text@.len(),
    ensures
        from <= bounds.0 <= bounds.1 <= to,
        text@.subrange(bounds.0 as int, bounds.1 as int) == trim(
            text@.subrange(from as int, to as int),
        ),
{
    let mut start = from;
    while start < to && space(text[start])
        invariant
            from <= start <= to <= text@.len(),
            trim_start(text@.subrange(from as int, to as int)) == trim_start(
                text@.subrange(start as int, to as int),
            ),
        decreases to - start,
    {
        proof {
            let piece = text@.subrange(start as int, to as int);
            assert(piece.drop_first() =~= text@.subrange(start + 1, to as int));
        }
        start += 1;
    }
    let mut end = to;
    while start < end && space(text[end - 1])
        invariant
            start <= end <= to <= text@.len(),
            trim(text@.subrange(from as int, to as int)) == trim_end(
                text@.subrange(start as int, end as int),
            ),
        decreases end - start,
    {
        proof {
            let piece = text@.subrange(start as int, end as int);
            assert(piece.drop_last() =~= text@.subrange(start as int, end - 1));
        }
        end -= 1;
    }
    (start, end)
}

/// Whether `pattern` stands in `s` at place `i`.
pub open spec fn occurs_at(s: Seq<char>, pattern: Seq<char>, i: int) -> bool {
    0 <= i && i + pattern.len() <= s.len() && s.subrange(i, i + pattern.len()) == pattern
}

/// Whether `i` is the first place at which `pattern` stands in `s`.
pub open spec fn is_first(s: Seq<char>, pattern: Seq<char>, i: int) -> bool {
    occurs_at(s, pattern, i) && forall|j: int| 0 <= j < i ==> !occurs_at(s, pattern, j)
}

/// The first place at which `pattern` stands in `s`.
pub open spec fn find(s: Seq<char>, pattern: Seq<char>) -> Option<int> {
    if exists|i: int| occurs_at(s, pattern, i) {
        Some(choose|i: int| is_first(s, pattern, i))
    } else {
        None
    }
}

/// What stands in `s` before the first `pattern`: all of `s` where there
/// is none.
pub open spec fn before(s: Seq<char>, pattern: Seq<char>) -> Seq<char> {
    match find(s, pattern) {
        Some(k) => s.take(k),
        None => s,
    }
}

/// What stands in `s` after the first `pattern`, where there is one.
pub open spec fn after(s: Seq<char>, pattern: Seq<char>) -> Option<Seq<char>> {
    match find(s, pattern) {
        Some(k) => Some(s.skip(k + pattern.len())),
        None => None,
    }
}

/// The first place of a pattern is the one that `find` gives.
pub proof fn lemma_find_is(s: Seq<char>, pattern: Seq<char>, i: int)
    requires
        is_first(s, pattern, i),
    ensures
        find(s, pattern) == Some(i),
{
    let k = choose|k: int| is_first(s, pattern, k);
    assert(is_first(s, pattern, k));
    if k < i {
        assert(!occurs_at(s, pattern, k));
    } else if i < k {
        assert(!occurs_at(s, pattern, i));
    }
}

/// The first place in `text`, between `from` and `to`, at which `c` stands.
pub fn find_char(text: &Vec<char>, from: usize, to: usize, c: char) -> (place: Option<usize>)
    requires
        from <= to <= text@.len(),
    ensures
        match place {
            Some(k) => from <= k < to && text@[k as int] == c && find(
                text@.subrange(from as int, to as int),
                seq![c],
            ) == Some(k - from),
            None => find(text@.subrange(from as int, to as int), seq![c]) is None,
        },
{
    let ghost piece = text@.subrange(from as int, to as int);
    let ghost pattern = seq![c];
    let mut k = from;
    while k < to
        invariant
            from <= k <= to <= text@.len(),
            piece == text@.subrange(from as int, to as int),
            pattern == seq![c],
            forall|j: int| 0 <= j < k - from ==> !occurs_at(piece, pattern, j),
        decreases to - k,
    {
        if text[k] == c {
            proof {
                assert(piece.subrange(k - from, k - from + 1) =~= pattern);
                lemma_find_is(piece, pattern, k - from);
            }
            return Some(k);
        }
        proof {
            assert(piece.subrange(k - from, k - from + 1)[0] == text@[k as int]);
            assert(pattern[0] == c);
        }
        k += 1;
    }
    None
}

/// The first place in `text`, between `from` and `to`, at which `first`
/// stands with `second` behind it.
pub fn find_pair(text: &Vec<char>, from: usize, to: usize, first: char, second: char) -> (place:
    Option<usize>)
    requires
        from <= to <= text@.len(),
    ensures
        match place {
            Some(k) => from <= k && k + 2 <= to && find(
                text@.subrange(from as int, to as int),
                seq![first, second],
            ) == Some(k - from),
            None => find(text@.subrange(from as int, to as int), seq![first, second]) is None,
        },
{
    let ghost piece = text@.subrange(from as int, to as int);
    let ghost pattern = seq![first, second];
    if to - from < 2 {
        return None;
    }
    let mut k = from;
    while k < to - 1
        invariant
            from <= k <= to - 1,
            to <= text@.len(),
            piece == text@.subrange(from as int, to as int),
            pattern == seq![first, second],
            forall|j: int| 0 <= j < k - from ==> !occurs_at(piece, pattern, j),
        decreases to - k,
    {
        if text[k] == first && text[k + 1] == second {
            proof {
                assert(piece.subrange(k - from, k - from + 2) =~= pattern);
                lemma_find_is(piece, pattern, k - from);
            }
            return Some(k);
        }
        proof {
            let here = piece.subrange(k - from, k - from + 2);
            assert(here[0] == text@[k as int] && here[1] == text@[k + 1]);
            assert(pattern[0] == first && pattern[1] == second);
        }
        k += 1;
    }
    None
}

/// Whether `c` is a decimal digit.
pub open spec fn is_digit(c: char) -> bool {
    48 <= c as u32 <= 57
}

/// The value of the digit `c`.
pub open spec fn digit_value(c: char) -> nat {
    if is_digit(c) {
        (c as u32 - 48) as nat
    } else {
        0
    }
}

/// Whether `s` holds decimal digits only.
pub open spec fn all_digits(s: Seq<char>) -> bool {
    forall|i: int| 0 <= i < s.len() ==> is_digit(#[trigger] s[i])
}

/// The number that the decimal digits `s` write.
pub open spec fn digits_value(s: Seq<char>) -> nat
    decreases s.len(),
{
    if s.len() == 0 {
        0
    } else {
        digits_value(s.drop_last()) * 10 + digit_value(s.last())
    }
}

/// `s` without a plus sign at its start.
pub open spec fn unsigned(s: Seq<char>) -> Seq<char> {
    if s.len() > 0 && s[0] == '+' {
        s.drop_first()
    } else {
        s
    }
}

/// The number that `s` writes: an optional plus sign and at least one
/// decimal digit, with a value that an index can hold.
pub open spec fn number(s: Seq<char>) -> Option<usize> {
    let digits = unsigned(s);
    if digits.len() > 0 && all_digits(digits) && digits_value(digits) <= usize::MAX {
        Some(digits_value(digits) as usize)
    } else {
        None
    }
}

/// More digits do not write a smaller number.
pub proof fn lemma_digits_value_grows(s: Seq<char>, k: int)
    requires
        0 <= k <= s.len(),
    ensures
        digits_value(s.take(k)) <= digits_value(s),
    decreases s.len() - k,
{
    if k == s.len() {
        assert(s.take(k) =~= s);
    } else {
        lemma_digits_value_grows(s, k + 1);
        assert(s.take(k + 1).drop_last() =~= s.take(k));
    }
}

/// The number written in `text` between `from` and `to`.
pub fn parse_number(text: &Vec<char>, from: usize, to: usize) -> (value: Option<usize>)
    requires
        from <= to <= text@.len(),
    ensures
        value == number(text@.subrange(from as int, to as int)),
{
    let ghost piece = text@.subrange(from as int, to as int);
    let start = if from < to && text[from] == '+' {
        from + 1
    } else {
        from
    };
    let ghost digits = text@.subrange(start as int, to as int);
    assert(digits =~= unsigned(piece));
    if start == to {
        return None;
    }
    let mut value: usize = 0;
    let mut k = start;
    assert(digits.take(0) =~= Seq::<char>::empty());
    while k < to
        invariant
            start <= k <= to <= text@.len(),
            piece == text@.subrange(from as int, to as int),
            digits == text@.subrange(start as int, to as int),
            digits == unsigned(piece),
            all_digits(digits.take(k - start)),
            value == digits_value(digits.take(k - start)),
        decreases to - k,
    {
        let c = text[k];
        let code = c as u32;
        let ghost longer = digits.take(k - start + 1);
        proof {
            assert(longer.drop_last() =~= digits.take(k - start));
            assert(longer.last() == c);
        }
        if code < 48 || code > 57 {
            assert(!is_digit(digits[k - start]));
            return None;
        }
        let digit = (code - 48) as usize;
        let next = match value.checked_mul(10) {
            Some(tens) => tens.checked_add(digit),
            None => None,
        };
        match next {
            Some(sum) => {
                value = sum;
            },
            None => {
                proof {
                    assert(digits_value(longer) > usize::MAX);
                    lemma_digits_value_grows(digits, k - start + 1);
                }
                return None;
            },
        }
        proof {
            assert forall|i: int| 0 <= i < longer.len() implies is_digit(#[trigger] longer[i]) by {
                if i < k - start {
                    assert(longer[i] == digits.take(k - start)[i]);
                }
            }
        }
        k += 1;
    }
    proof {
        assert(digits.take(to - start) =~= digits);
    }
    Some(value)
}

} // verus!
