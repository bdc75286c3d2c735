use vstd::prelude::*;

use crate::common::Motion;

verus! {

/// The whitespace that is trimmed around tokens.
pub open spec fn is_space(c: char) -> bool {
    c == ' ' || c == '\t' || c == '\n' || c == '\r' || c == '\x0B' || c == '\x0C'
}

/// `s` without its leading whitespace.
pub open spec fn trim_start(s: Seq<char>) -> Seq<char>
    decreases s.len(),
{
    if s.len() > 0 && is_space(s[0]) {
        trim_start(s.drop_first())
    } else {
        s
    }
}

/// `s` without its trailing whitespace.
pub open spec fn trim_end(s: Seq<char>) -> Seq<char>
    decreases s.len(),
{
    if s.len() > 0 && is_space(s.last()) {
        trim_end(s.drop_last())
    } else {
        s
    }
}

/// `s` without leading or trailing whitespace.
pub open spec fn trimmed(s: Seq<char>) -> Seq<char> {
    trim_end(trim_start(s))
}

/// The pieces of `s` between occurrences of `sep`, empty pieces included: a
/// text with `k` separators has `k + 1` pieces.
pub open spec fn pieces(s: Seq<char>, sep: char) -> Seq<Seq<char>>
    decreases s.len(),
{
    if s.len() == 0 {
        seq![Seq::empty()]
    } else {
        let p = pieces(s.drop_last(), sep);
        if s.last() == sep {
            p.push(Seq::empty())
        } else {
            p.update(p.len() - 1, p.last().push(s.last()))
        }
    }
}

/// There is always at least one piece.
pub proof fn lemma_pieces_nonempty(s: Seq<char>, sep: char)
    ensures
        pieces(s, sep).len() >= 1,
    decreases s.len(),
{
    if s.len() > 0 {
        lemma_pieces_nonempty(s.drop_last(), sep);
    }
}

/// The symbol a token stands for: a token of exactly one ASCII character.
pub open spec fn as_symbol(t: Seq<char>) -> Option<char> {
    if t.len() == 1 && (t[0] as u32) < 128 {
        Some(t[0])
    } else {
        None
    }
}

/// The motion a token names: `R`, `L` or `S`.
pub open spec fn as_motion(t: Seq<char>) -> Option<Motion> {
    if t == seq!['R'] {
        Some(Motion::Right)
    } else if t == seq!['L'] {
        Some(Motion::Left)
    } else if t == seq!['S'] {
        Some(Motion::Stay)
    } else {
        None
    }
}

/// Whether `c` is a decimal digit.
pub open spec fn is_digit(c: char) -> bool {
    '0' <= c <= '9'
}

/// The value of a string of decimal digits.
pub open spec fn digits_value(t: Seq<char>) -> nat
    decreases t.len(),
{
    if t.len() == 0 {
        0
    } else {
        digits_value(t.drop_last()) * 10 + (t.last() as nat - '0' as nat) as nat
    }
}

/// Whether every character of `d` is a decimal digit.
pub open spec fn all_digits(d: Seq<char>) -> bool {
    forall|i: int| 0 <= i < d.len() ==> is_digit(#[trigger] d[i])
}

/// `t` without a leading `+` sign.
pub open spec fn unsigned(t: Seq<char>) -> Seq<char> {
    if t.len() > 0 && t[0] == '+' {
        t.drop_first()
    } else {
        t
    }
}

/// The digits of a number token: an optional `+` sign, then at least one digit.
pub open spec fn number_digits(t: Seq<char>) -> Option<Seq<char>> {
    if unsigned(t).len() > 0 && all_digits(unsigned(t)) {
        Some(unsigned(t))
    } else {
        None
    }
}

/// The count a token gives, if it is a number that fits in `usize`.
pub open spec fn as_count(t: Seq<char>) -> Option<usize> {
    match number_digits(t) {
        Some(d) => if digits_value(d) <= usize::MAX {
            Some(digits_value(d) as usize)
        } else {
            None
        },
        None => None,
    }
}

/// Whether `s` begins with `prefix`.
pub open spec fn starts_with(s: Seq<char>, prefix: Seq<char>) -> bool {
    prefix.len() <= s.len() && s.take(prefix.len() as int) == prefix
}

/// A copy of `s[lo..hi]`.
pub fn slice_of(s: &Vec<char>, lo: usize, hi: usize) -> (r: Vec<char>)
    requires
        lo <= hi <= s.len(),
    ensures
        r@ == s@.subrange(lo as int, hi as int),
{
    let mut r: Vec<char> = Vec::new();
    let mut i = lo;
    while i < hi
        invariant
            lo <= i <= hi,
            hi <= s.len(),
            r@ == s@.subrange(lo as int, i as int),
        decreases hi - i,
    {
        r.push(s[i]);
        i = i + 1;
        assert(r@ =~= s@.subrange(lo as int, i as int));
    }
    r
}

/// `s` without leading or trailing whitespace.
pub fn trim(s: &Vec<char>) -> (r: Vec<char>)
    ensures
        r@ == trimmed(s@),
{
    let mut lo: usize = 0;
    assert(s@.subrange(0, s@.len() as int) =~= s@);
    while lo < s.len() && is_space_char(s[lo])
        invariant
            lo <= s.len(),
            trim_start(s@) == trim_start(s@.subrange(lo as int, s@.len() as int)),
        decreases s.len() - lo,
    {
        proof {
            let t = s@.subrange(lo as int, s@.len() as int);
            assert(t.drop_first() =~= s@.subrange(lo + 1, s@.len() as int));
        }
        lo = lo + 1;
    }
    let ghost start = s@.subrange(lo as int, s@.len() as int);
    assert(trim_start(start) == start);
    let mut hi: usize = s.len();
    while hi > lo && is_space_char(s[hi - 1])
        invariant
            lo <= hi <= s.len(),
            trim_start(s@) == start,
            trim_end(start) == trim_end(s@.subrange(lo as int, hi as int)),
        decreases hi - lo,
    {
        proof {
            let t = s@.subrange(lo as int, hi as int);
            assert(t.drop_last() =~= s@.subrange(lo as int, hi - 1));
        }
        hi = hi - 1;
    }
    let r = slice_of(s, lo, hi);
    proof {
        let t = s@.subrange(lo as int, hi as int);
        assert(trim_end(t) == t);
    }
    r
}

/// Whether `c` is whitespace that trimming removes.
pub fn is_space_char(c: char) -> (r: bool)
    ensures
        r == is_space(c),
{
    c == ' ' || c == '\t' || c == '\n' || c == '\r' || c == '\x0B' || c == '\x0C'
}

/// The pieces of `s` between occurrences of `sep`.
pub fn split(s: &Vec<char>, sep: char) -> (r: Vec<Vec<char>>)
    ensures
        r@.len() == pieces(s@, sep).len(),
        forall|i: int| 0 <= i < r@.len() ==> (#[trigger] r@[i])@ == pieces(s@, sep)[i],
{
    let mut r: Vec<Vec<char>> = Vec::new();
    let mut start: usize = 0;
    let mut i: usize = 0;
    while i < s.len()
        invariant
            start <= i <= s.len(),
            r@.len() + 1 == pieces(s@.take(i as int), sep).len(),
            forall|j: int| 0 <= j < r@.len() ==> (#[trigger] r@[j])@ == pieces(s@.take(i as int), sep)[j],
            pieces(s@.take(i as int), sep).last() == s@.subrange(start as int, i as int),
        decreases s.len() - i,
    {
        proof {
            lemma_pieces_nonempty(s@.take(i as int), sep);
            assert(s@.take(i + 1).drop_last() =~= s@.take(i as int));
            assert(s@.take(i + 1).last() == s@[i as int]);
        }
        if s[i] == sep {
            let piece = slice_of(s, start, i);
            r.push(piece);
            start = i + 1;
            proof {
                let p = pieces(s@.take(i as int), sep);
                assert(pieces(s@.take(i + 1), sep) == p.push(Seq::empty()));
                assert(s@.subrange(start as int, i + 1) =~= Seq::<char>::empty());
            }
        } else {
            proof {
                let p = pieces(s@.take(i as int), sep);
                assert(s@.subrange(start as int, i + 1) =~= s@.subrange(start as int, i as int).push(s@[i as int]));
            }
        }
        i = i + 1;
    }
    let last = slice_of(s, start, s.len());
    r.push(last);
    proof {
        assert(s@.take(s@.len() as int) =~= s@);
        lemma_pieces_nonempty(s@, sep);
    }
    r
}

/// The symbol a token stands for, if any.
pub fn token_symbol(t: &Vec<char>) -> (r: Option<char>)
    ensures
        r == as_symbol(t@),
{
    if t.len() == 1 && (t[0] as u32) < 128 {
        Some(t[0])
    } else {
        None
    }
}

/// The motion a token names, if any.
pub fn token_motion(t: &Vec<char>) -> (r: Option<Motion>)
    ensures
        r == as_motion(t@),
{
    if t.len() == 1 {
        let c = t[0];
        proof {
            assert(t@ =~= seq![c]);
        }
        if c == 'R' {
            return Some(Motion::Right);
        } else if c == 'L' {
            return Some(Motion::Left);
        } else if c == 'S' {
            return Some(Motion::Stay);
        }
        assert(t@ != seq!['R'] && t@ != seq!['L'] && t@ != seq!['S']);
        None
    } else {
        assert(seq!['R'].len() == 1 && seq!['L'].len() == 1 && seq!['S'].len() == 1);
        None
    }
}

/// The count a token gives, if it is a number that fits in `usize`.
pub fn token_count(t: &Vec<char>) -> (r: Option<usize>)
    ensures
        r == as_count(t@),
{
    let lo: usize = if t.len() > 0 && t[0] == '+' {
        1
    } else {
        0
    };
    let ghost d = t@.subrange(lo as int, t@.len() as int);
    proof {
        if t@.len() > 0 && t@[0] == '+' {
            assert(d =~= t@.drop_first());
        } else {
            assert(d =~= t@);
        }
    }
    if lo >= t.len() {
        return None;
    }
    let mut value: usize = 0;
    let mut i = lo;
    while i < t.len()
        invariant
            lo <= i <= t.len(),
            lo < t.len(),
            d == t@.subrange(lo as int, t@.len() as int),
            d == (if t@.len() > 0 && t@[0] == '+' {
                t@.drop_first()
            } else {
                t@
            }),
            forall|j: int| 0 <= j < i - lo ==> is_digit(#[trigger] d[j]),
            value as nat == digits_value(d.take(i - lo)),
        decreases t.len() - i,
    {
        let c = t[i];
        if !('0' <= c && c <= '9') {
            assert(!is_digit(d[i - lo]));
            proof {
                lemma_not_number(t@, d, i - lo);
            }
            return None;
        }
        let digit = (c as u32 - '0' as u32) as usize;
        proof {
            assert(d.take(i - lo + 1).drop_last() =~= d.take(i - lo));
            assert(d.take(i - lo + 1).last() == c);
        }
        if value > (usize::MAX - digit) / 10 {
            proof {
                assert(value * 10 + digit > usize::MAX) by (nonlinear_arith)
                    requires value > (usize::MAX - digit) / 10, digit <= 9;
                if forall|j: int| 0 <= j < d.len() ==> is_digit(#[trigger] d[j]) {
                    lemma_digits_value_grows(d, i - lo + 1);
                    assert(number_digits(t@) == Some(d));
                } else {
                    let k = choose|k: int| 0 <= k < d.len() && !is_digit(#[trigger] d[k]);
                    lemma_not_number(t@, d, k);
                }
            }
            return None;
        }
        value = value * 10 + digit;
        i = i + 1;
    }
    assert(d.take(d.len() as int) =~= d);
    Some(value)
}

/// A token whose digit part holds a non-digit is no number.
proof fn lemma_not_number(t: Seq<char>, d: Seq<char>, k: int)
    requires
        d == (if t.len() > 0 && t[0] == '+' {
            t.drop_first()
        } else {
            t
        }),
        0 <= k < d.len(),
        !is_digit(d[k]),
    ensures
        number_digits(t) is None,
{
}

/// The value of a digit string is at least that of each of its prefixes.
proof fn lemma_digits_value_grows(d: Seq<char>, k: int)
    requires
        0 <= k <= d.len(),
        forall|j: int| 0 <= j < d.len() ==> is_digit(#[trigger] d[j]),
    ensures
        digits_value(d.take(k)) <= digits_value(d),
    decreases d.len() - k,
{
    if k < d.len() {
        lemma_digits_value_grows(d, k + 1);
        assert(d.take(k + 1).drop_last() =~= d.take(k));
    } else {
        assert(d.take(k) =~= d);
    }
}

/// Whether `s` begins with `prefix`.
pub fn begins_with(s: &Vec<char>, prefix: &Vec<char>) -> (r: bool)
    ensures
        r == starts_with(s@, prefix@),
{
    if prefix.len() > s.len() {
        return false;
    }
    let mut i: usize = 0;
    while i < prefix.len()
        invariant
            prefix.len() <= s.len(),
            i <= prefix.len(),
            forall|j: int| 0 <= j < i ==> s@[j] == prefix@[j],
        decreases prefix.len() - i,
    {
        if s[i] != prefix[i] {
            assert(s@.take(prefix@.len() as int)[i as int] != prefix@[i as int]);
            return false;
        }
        i = i + 1;
    }
    assert(s@.take(prefix@.len() as int) =~= prefix@);
    true
}

/// The tape symbols that a text holds: its ASCII characters that are not
/// whitespace, in order.
pub open spec fn tape_symbols(t: Seq<char>) -> Seq<char>
    decreases t.len(),
{
    if t.len() == 0 {
        Seq::empty()
    } else {
        let rest = tape_symbols(t.drop_last());
        if (t.last() as u32) < 128 && !is_space(t.last()) {
            rest.push(t.last())
        } else {
            rest
        }
    }
}

/// The tape symbols that `text` holds.
pub fn tape_from_text(text: &Vec<char>) -> (r: Vec<char>)
    ensures
        r@ == tape_symbols(text@),
{
    let mut r: Vec<char> = Vec::new();
    let mut i: usize = 0;
    while i < text.len()
        invariant
            i <= text.len(),
            r@ == tape_symbols(text@.take(i as int)),
        decreases text.len() - i,
    {
        let c = text[i];
        proof {
            assert(text@.take(i + 1).drop_last() =~= text@.take(i as int));
            assert(text@.take(i + 1).last() == c);
        }
        if (c as u32) < 128 && !is_space_char(c) {
            r.push(c);
        }
        i = i + 1;
    }
    assert(text@.take(text.len() as int) =~= text@);
    r
}

} // verus!
