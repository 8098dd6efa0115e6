//! The small grammars of sysfs: numbers, lists of CPUs and paths.

use vstd::prelude::*;
use vstd::string::*;

verus! {

/// The longest run of digits that is taken for a number.
pub const MAX_DIGITS: usize = 20;

/// Whether `c` has the Unicode property White_Space.
pub open spec fn is_white(c: char) -> bool {
    ||| '\u{9}' <= c <= '\u{d}'
    ||| c == ' '
    ||| c == '\u{85}'
    ||| c == '\u{a0}'
    ||| c == '\u{1680}'
    ||| '\u{2000}' <= c <= '\u{200a}'
    ||| c == '\u{2028}'
    ||| c == '\u{2029}'
    ||| c == '\u{202f}'
    ||| c == '\u{205f}'
    ||| c == '\u{3000}'
}

/// `s` without the white space that it starts with.
pub open spec fn trim_start(s: Seq<char>) -> Seq<char>
    decreases s.len(),
{
    if s.len() > 0 && is_white(s[0]) {
        trim_start(s.skip(1))
    } else {
        s
    }
}

/// `s` without the white space that it ends in.
pub open spec fn trim_end(s: Seq<char>) -> Seq<char>
    decreases s.len(),
{
    if s.len() > 0 && is_white(s.last()) {
        trim_end(s.drop_last())
    } else {
        s
    }
}

/// `s` without the white space around it.
pub open spec fn trimmed(s: Seq<char>) -> Seq<char> {
    trim_end(trim_start(s))
}

/// The pieces that `separator` cuts `s` into: each separator starts a new piece,
/// and any other character is the next one of the last piece.
pub open spec fn pieces(s: Seq<char>, separator: char) -> Seq<Seq<char>>
    decreases s.len(),
{
    if s.len() == 0 {
        seq![Seq::empty()]
    } else {
        let before = pieces(s.drop_last(), separator);
        if s.last() == separator {
            before.push(Seq::empty())
        } else {
            before.drop_last().push(before.last().push(s.last()))
        }
    }
}

pub open spec fn is_digit(c: char) -> bool {
    '0' <= c <= '9'
}

/// Whether `s` is made of decimal digits.
pub open spec fn all_digits(s: Seq<char>) -> bool {
    forall|i: int| 0 <= i < s.len() ==> is_digit(#[trigger] s[i])
}

/// The number that decimal digits stand for.
pub open spec fn decimal(s: Seq<char>) -> int
    decreases s.len(),
{
    if s.len() == 0 {
        0
    } else {
        decimal(s.drop_last()) * 10 + (s.last() as int - '0' as int)
    }
}

/// The digits of a number without the plus sign that may stand before them.
pub open spec fn unsigned(s: Seq<char>) -> Seq<char> {
    if s.len() > 0 && s[0] == '+' {
        s.skip(1)
    } else {
        s
    }
}

/// The number that `s` is: an optional plus sign, then at least one and at most
/// [`MAX_DIGITS`] digits, for a number that a `usize` can hold.
pub open spec fn number(s: Seq<char>) -> Option<usize> {
    let digits = unsigned(s);
    if 1 <= digits.len() <= MAX_DIGITS && all_digits(digits) && decimal(digits) <= usize::MAX {
        Some(decimal(digits) as usize)
    } else {
        None
    }
}

/// The two ends of the range `s`: two numbers with a hyphen between them.
pub open spec fn number_range(s: Seq<char>) -> Option<(usize, usize)> {
    match s.index_of_first('-') {
        Some(i) => match (number(s.take(i)), number(s.skip(i + 1))) {
            (Some(min), Some(max)) => Some((min, max)),
            _ => None,
        },
        None => None,
    }
}

/// The ends of the range that a group of a CPU list stands for: a range, or a
/// single number, with white space around it or not.
pub open spec fn cpu_group(group: Seq<char>) -> Option<(usize, usize)> {
    let s = trimmed(group);
    match number_range(s) {
        Some(range) => Some(range),
        None => match number(s) {
            Some(cpu) => Some((cpu, cpu)),
            None => None,
        },
    }
}

/// The number that stands behind `prefix` in `s`.
pub open spec fn number_after(s: Seq<char>, prefix: Seq<char>) -> Option<usize> {
    if prefix.is_prefix_of(s) {
        number(s.skip(prefix.len() as int))
    } else {
        None
    }
}

/// The characters of `s`.
pub fn chars_of(s: &str) -> (chars: Vec<char>)
    ensures
        chars@ == s@,
{
    let mut chars: Vec<char> = Vec::new();
    for c in it: s.chars()
        invariant
            it.seq() == s@,
            chars@ == s@.take(it.index() as int),
    {
        chars.push(c);
    }
    assert(s@.take(s@.len() as int) == s@);
    chars
}

/// Whether `c` has the Unicode property White_Space.
fn white(c: char) -> (white: bool)
    ensures
        white == is_white(c),
{
    ('\u{9}' <= c && c <= '\u{d}') || c == ' ' || c == '\u{85}' || c == '\u{a0}' || c
        == '\u{1680}' || ('\u{2000}' <= c && c <= '\u{200a}') || c == '\u{2028}' || c
        == '\u{2029}' || c == '\u{202f}' || c == '\u{205f}' || c == '\u{3000}'
}

/// `s` without the white space around it.
pub fn trim(s: &str) -> (inner: &str)
    ensures
        inner@ == trimmed(s@),
{
    let chars = chars_of(s);
    let n = chars.len();
    let mut from: usize = 0;
    assert(s@.skip(0) == s@);
    while from < n && white(chars[from])
        invariant
            n == chars.len(),
            chars@ == s@,
            from <= n,
            trim_start(s@) == trim_start(s@.skip(from as int)),
        decreases n - from,
    {
        assert(s@.skip(from as int).skip(1) == s@.skip(from + 1));
        from = from + 1;
    }
    assert(trim_start(s@) == s@.skip(from as int));
    let mut to = n;
    assert(s@.skip(from as int) == s@.subrange(from as int, n as int));
    while to > from && white(chars[to - 1])
        invariant
            n == chars.len(),
            chars@ == s@,
            from <= to <= n,
            trimmed(s@) == trim_end(s@.subrange(from as int, to as int)),
        decreases to,
    {
        assert(s@.subrange(from as int, to as int).drop_last() == s@.subrange(
            from as int,
            to - 1,
        ));
        to = to - 1;
    }
    s.substring_char(from, to)
}

/// The pieces that `separator` cuts `s` into.
pub fn split<'a>(s: &'a str, separator: char) -> (parts: Vec<&'a str>)
    ensures
        parts@.map_values(|part: &str| part@) == pieces(s@, separator),
{
    let chars = chars_of(s);
    let mut parts: Vec<&'a str> = Vec::new();
    let mut from: usize = 0;
    let mut i: usize = 0;
    let ghost view = |part: &str| part@;
    assert(s@.subrange(0, 0) == Seq::<char>::empty());
    assert(parts@.map_values(view).push(s@.subrange(0, 0)) == seq![Seq::<char>::empty()]);
    while i < chars.len()
        invariant
            chars@ == s@,
            from <= i <= chars.len(),
            view == (|part: &str| part@),
            parts@.map_values(view).push(s@.subrange(from as int, i as int)) == pieces(
                s@.take(i as int),
                separator,
            ),
        decreases chars.len() - i,
    {
        let ghost before = parts@.map_values(view);
        let ghost piece = s@.subrange(from as int, i as int);
        let ghost next = s@.take(i + 1);
        assert(next.drop_last() == s@.take(i as int));
        assert(next.last() == chars@[i as int]);
        if chars[i] == separator {
            let part = s.substring_char(from, i);
            parts.push(part);
            assert(parts@.map_values(view) == before.push(piece));
            from = i + 1;
            assert(s@.subrange(from as int, i + 1) == Seq::<char>::empty());
        } else {
            assert(before.push(piece).drop_last() == before);
            assert(s@.subrange(from as int, i + 1) == piece.push(chars@[i as int]));
        }
        i = i + 1;
    }
    let ghost before = parts@.map_values(view);
    let part = s.substring_char(from, i);
    parts.push(part);
    assert(parts@.map_values(view) == before.push(part@));
    assert(s@.take(i as int) == s@);
    parts
}

/// More digits make no smaller number.
proof fn lemma_decimal_grows(s: Seq<char>, n: int)
    requires
        all_digits(s),
        0 <= n <= s.len(),
    ensures
        0 <= decimal(s.take(n)) <= decimal(s),
    decreases s.len(),
{
    assert(s.take(s.len() as int) == s);
    if s.len() > 0 {
        let head = s.drop_last();
        assert(is_digit(s[s.len() - 1]));
        assert forall|i: int| 0 <= i < head.len() implies is_digit(#[trigger] head[i]) by {
            assert(is_digit(s[i]));
        }
        if n < s.len() {
            lemma_decimal_grows(head, n);
            assert(head.take(n) == s.take(n));
        } else {
            lemma_decimal_grows(head, head.len() as int);
            assert(head.take(head.len() as int) == head);
        }
    }
}

/// The number that `s` is, with a plus sign before it or not.
pub fn scan_number(s: &str) -> (result: Option<usize>)
    ensures
        result == number(s@),
{
    let chars = chars_of(s);
    let from: usize = if chars.len() > 0 && chars[0] == '+' { 1 } else { 0 };
    let len = chars.len() - from;
    let ghost digits = unsigned(s@);
    assert(digits == s@.skip(from as int));
    if len < 1 || len > MAX_DIGITS {
        return None;
    }
    let mut i: usize = 0;
    while i < len
        invariant
            chars@ == s@,
            from + len == chars.len(),
            digits == s@.skip(from as int) && digits == unsigned(s@),
            digits.len() == len,
            i <= len,
            forall|j: int| 0 <= j < i ==> is_digit(#[trigger] digits[j]),
        decreases len - i,
    {
        let c = chars[from + i];
        assert(c == digits[i as int]);
        if !('0' <= c && c <= '9') {
            assert(!is_digit(digits[i as int]));
            return None;
        }
        i = i + 1;
    }
    let mut value: usize = 0;
    let mut k: usize = 0;
    while k < len
        invariant
            chars@ == s@,
            from + len == chars.len(),
            digits == s@.skip(from as int) && digits == unsigned(s@),
            digits.len() == len,
            all_digits(digits),
            k <= len,
            value == decimal(digits.take(k as int)),
        decreases len - k,
    {
        let c = chars[from + k];
        assert(c == digits[k as int] && is_digit(digits[k as int]));
        let digit: usize = c as usize - '0' as usize;
        proof {
            let next = digits.take(k + 1);
            assert(next.drop_last() == digits.take(k as int));
            assert(next.last() == c);
            assert(decimal(next) == value * 10 + digit);
            lemma_decimal_grows(digits, k + 1);
        }
        if value > (usize::MAX - digit) / 10 {
            assert(decimal(digits) > usize::MAX);
            return None;
        }
        value = value * 10 + digit;
        k = k + 1;
    }
    assert(digits.take(len as int) == digits);
    Some(value)
}

/// `s` up to the first `mark`, and from there on.
pub fn cut_at<'a>(s: &'a str, mark: char) -> (parts: Option<(&'a str, &'a str)>)
    ensures
        match parts {
            Some((head, tail)) => s@.index_of_first(mark) == Some(head@.len() as int)
                && head@.len() < s@.len() && head@ == s@.take(head@.len() as int) && tail@
                == s@.skip(head@.len() as int),
            None => s@.index_of_first(mark) is None,
        },
{
    let chars = chars_of(s);
    let mut i: usize = 0;
    proof {
        s@.index_of_first_ensures(mark);
    }
    while i < chars.len()
        invariant
            chars@ == s@,
            i <= chars.len(),
            forall|j: int| 0 <= j < i ==> s@[j] != mark,
        decreases chars.len() - i,
    {
        if chars[i] == mark {
            assert(s@.contains(mark));
            proof {
                s@.index_of_first_ensures(mark);
            }
            let head = s.substring_char(0, i);
            let tail = s.substring_char(i, chars.len());
            assert(head@ == s@.take(i as int));
            assert(tail@ == s@.skip(i as int));
            return Some((head, tail));
        }
        i = i + 1;
    }
    assert(!s@.contains(mark));
    None
}

/// The ends of the range `s`.
pub fn scan_range(s: &str) -> (result: Option<(usize, usize)>)
    ensures
        result == number_range(s@),
{
    match cut_at(s, '-') {
        Some((min, tail)) => {
            let ghost i = min@.len() as int;
            proof {
                reveal_strlit("-");
                s@.index_of_first_ensures('-');
                assert(tail@.subrange(0, 1) == "-"@);
                assert(tail@.skip(1) == s@.skip(i + 1));
            }
            match strip_prefix(tail, "-") {
                Some(max) => match (scan_number(min), scan_number(max)) {
                    (Some(min), Some(max)) => Some((min, max)),
                    _ => None,
                },
                None => None,
            }
        },
        None => None,
    }
}

/// The ends of the range that a group of a CPU list stands for.
pub fn scan_cpu_group(group: &str) -> (result: Option<(usize, usize)>)
    ensures
        result == cpu_group(group@),
{
    let s = trim(group);
    match scan_range(s) {
        Some(range) => Some(range),
        None => match scan_number(s) {
            Some(cpu) => Some((cpu, cpu)),
            None => None,
        },
    }
}

/// What stands behind `prefix` in `s`.
pub fn strip_prefix<'a>(s: &'a str, prefix: &str) -> (rest: Option<&'a str>)
    ensures
        match rest {
            Some(rest) => prefix@.is_prefix_of(s@) && rest@ == s@.skip(prefix@.len() as int),
            None => !prefix@.is_prefix_of(s@),
        },
{
    let chars = chars_of(s);
    let expected = chars_of(prefix);
    if expected.len() > chars.len() {
        return None;
    }
    let mut i: usize = 0;
    while i < expected.len()
        invariant
            chars@ == s@,
            expected@ == prefix@,
            i <= expected.len() <= chars.len(),
            forall|j: int| 0 <= j < i ==> s@[j] == prefix@[j],
        decreases expected.len() - i,
    {
        if chars[i] != expected[i] {
            assert(s@.subrange(0, prefix@.len() as int)[i as int] != prefix@[i as int]);
            return None;
        }
        i = i + 1;
    }
    assert(prefix@ =~= s@.subrange(0, prefix@.len() as int));
    Some(s.substring_char(expected.len(), chars.len()))
}

/// The number that stands behind `prefix` in `s`.
pub fn scan_number_after(s: &str, prefix: &str) -> (result: Option<usize>)
    ensures
        result == number_after(s@, prefix@),
{
    match strip_prefix(s, prefix) {
        Some(rest) => scan_number(rest),
        None => None,
    }
}

} // verus!
