//! What the texts of sysfs stand for.

use crate::cpumask::CpumaskView;
use crate::error::ErrorView;
use crate::sysfs;
use crate::text;
use vstd::prelude::*;

verus! {

/// Ten to the power of `k`.
pub open spec fn power_of_ten(k: nat) -> int
    decreases k,
{
    if k == 0 {
        1
    } else {
        10 * power_of_ten((k - 1) as nat)
    }
}

/// The sum of the digits of `s`, each times the power of ten of its place.
pub open spec fn place_value(s: Seq<char>) -> int
    decreases s.len(),
{
    if s.len() == 0 {
        0
    } else {
        (s[0] as int - 48) * power_of_ten((s.len() - 1) as nat) + place_value(s.skip(1))
    }
}

/// Whether `s` is a run of one to twenty decimal digits.
pub open spec fn digit_run(s: Seq<char>) -> bool {
    &&& 1 <= s.len() <= 20
    &&& forall|i: int| 0 <= i < s.len() ==> 48 <= #[trigger] s[i] as int <= 57
}

/// The digit for a number below ten.
pub open spec fn digit(d: nat) -> char {
    if d == 0 {
        '0'
    } else if d == 1 {
        '1'
    } else if d == 2 {
        '2'
    } else if d == 3 {
        '3'
    } else if d == 4 {
        '4'
    } else if d == 5 {
        '5'
    } else if d == 6 {
        '6'
    } else if d == 7 {
        '7'
    } else if d == 8 {
        '8'
    } else {
        '9'
    }
}

/// The decimal digits of a number, without leading zeros.
pub open spec fn printed(v: nat) -> Seq<char>
    decreases v,
{
    if v < 10 {
        seq![digit(v)]
    } else {
        printed(v / 10).push(digit(v % 10))
    }
}

proof fn lemma_place_value_push(s: Seq<char>, c: char)
    ensures
        place_value(s.push(c)) == 10 * place_value(s) + (c as int - 48),
    decreases s.len(),
{
    let longer = s.push(c);
    if s.len() == 0 {
        assert(longer.skip(1) == Seq::<char>::empty());
        assert(power_of_ten(0) == 1);
        assert(place_value(longer.skip(1)) == 0);
    } else {
        assert(longer.skip(1) == s.skip(1).push(c));
        lemma_place_value_push(s.skip(1), c);
        let d = s[0] as int - 48;
        let p = power_of_ten((s.len() - 1) as nat);
        assert(power_of_ten(s.len()) == 10 * p);
        assert(d * (10 * p) == 10 * (d * p)) by (nonlinear_arith);
    }
}

proof fn lemma_decimal_is_place_value(s: Seq<char>)
    ensures
        text::decimal(s) == place_value(s),
    decreases s.len(),
{
    if s.len() > 0 {
        lemma_decimal_is_place_value(s.drop_last());
        lemma_place_value_push(s.drop_last(), s.last());
        assert(s.drop_last().push(s.last()) == s);
    }
}

/// A text is a number exactly where it is one to twenty decimal digits, behind a plus
/// sign or not, and the number is then their value by place.
pub proof fn law_number(s: Seq<char>, v: usize)
    ensures
        text::number(s) == Some(v) <==> {
            let digits = if s.len() > 0 && s[0] == '+' {
                s.skip(1)
            } else {
                s
            };
            digit_run(digits) && place_value(digits) == v
        },
{
    let digits = text::unsigned(s);
    lemma_decimal_is_place_value(digits);
    if text::all_digits(digits) {
        assert forall|i: int| 0 <= i < digits.len() implies 48 <= #[trigger] digits[i] as int
            <= 57 by {
            assert(text::is_digit(digits[i]));
        }
    }
    if digit_run(digits) {
        assert forall|i: int| 0 <= i < digits.len() implies text::is_digit(
            #[trigger] digits[i],
        ) by {}
    }
    if text::number(s) is Some {
        lemma_value_bounds(digits);
    }
}

proof fn lemma_value_bounds(s: Seq<char>)
    requires
        text::all_digits(s),
    ensures
        0 <= place_value(s),
    decreases s.len(),
{
    lemma_decimal_is_place_value(s);
    if s.len() > 0 {
        let head = s.drop_last();
        assert forall|i: int| 0 <= i < head.len() implies text::is_digit(#[trigger] head[i]) by {
            assert(text::is_digit(s[i]));
        }
        lemma_value_bounds(head);
        lemma_decimal_is_place_value(head);
        assert(text::is_digit(s[s.len() - 1]));
    }
}

proof fn lemma_printed(v: nat, k: nat)
    requires
        v < power_of_ten(k),
        k >= 1,
    ensures
        1 <= printed(v).len() <= k,
        forall|i: int| 0 <= i < printed(v).len() ==> 48 <= #[trigger] printed(v)[i] as int <= 57,
        place_value(printed(v)) == v,
    decreases v,
{
    if v < 10 {
        let s = printed(v);
        assert(s == Seq::<char>::empty().push(digit(v)));
        lemma_place_value_push(Seq::<char>::empty(), digit(v));
    } else {
        let head = printed(v / 10);
        if k == 1 {
            assert(power_of_ten(0) == 1);
            assert(power_of_ten(1) == 10);
        }
        assert(power_of_ten(k) == 10 * power_of_ten((k - 1) as nat));
        lemma_printed(v / 10, (k - 1) as nat);
        lemma_place_value_push(head, digit(v % 10));
    }
}

/// The digits of a `usize` are a run of digits with that value.
pub proof fn law_printed(v: usize)
    ensures
        digit_run(printed(v as nat)),
        place_value(printed(v as nat)) == v,
        text::number(printed(v as nat)) == Some(v),
{
    reveal_with_fuel(power_of_ten, 21);
    assert(power_of_ten(20) == 100000000000000000000);
    lemma_printed(v as nat, 20);
    law_number(printed(v as nat), v);
}

/// A number has no character but digits and the plus sign.
proof fn lemma_number_chars(s: Seq<char>)
    requires
        text::number(s) is Some,
    ensures
        s.len() > 0,
        forall|i: int|
            0 <= i < s.len() ==> 48 <= #[trigger] s[i] as int <= 57 || s[i] == '+',
        48 <= s.last() as int <= 57,
{
    let v = text::number(s).unwrap();
    law_number(s, v);
    let digits = text::unsigned(s);
    assert forall|i: int| 0 <= i < s.len() implies 48 <= #[trigger] s[i] as int <= 57 || s[i]
        == '+' by {
        if s[0] == '+' {
            if i > 0 {
                assert(digits[i - 1] == s[i]);
            }
        } else {
            assert(digits[i] == s[i]);
        }
    }
    assert(digits.last() == s.last());
    assert(48 <= digits[digits.len() - 1] as int <= 57);
}

/// A text is a range exactly where it is two numbers with a hyphen between them, and the
/// range is then from the first to the second.
pub proof fn law_range(s: Seq<char>, min: usize, max: usize)
    ensures
        text::number_range(s) == Some((min, max)) <==> exists|i: int|
            0 <= i < s.len() && #[trigger] s[i] == '-' && text::number(s.take(i)) == Some(min)
                && text::number(s.skip(i + 1)) == Some(max),
{
    s.index_of_first_ensures('-');
    if text::number_range(s) == Some((min, max)) {
        let i = s.index_of_first('-').unwrap();
        assert(s[i] == '-');
    }
    if exists|i: int|
        0 <= i < s.len() && #[trigger] s[i] == '-' && text::number(s.take(i)) == Some(min)
            && text::number(s.skip(i + 1)) == Some(max) {
        let i = choose|i: int|
            0 <= i < s.len() && #[trigger] s[i] == '-' && text::number(s.take(i)) == Some(min)
                && text::number(s.skip(i + 1)) == Some(max);
        lemma_number_chars(s.take(i));
        assert(s.contains('-'));
        let first = s.index_of_first('-').unwrap();
        if first < i {
            assert(s.take(i)[first] == '-');
        }
    }
}

/// The group of two runs of digits with a hyphen between them is the range from the value
/// of the first to the value of the second, with white space around it or not.
pub proof fn law_group_of_range(
    before: Seq<char>,
    a: Seq<char>,
    b: Seq<char>,
    after: Seq<char>,
    min: usize,
    max: usize,
)
    requires
        white(before),
        digit_run(a),
        digit_run(b),
        white(after),
        place_value(a) == min,
        place_value(b) == max,
    ensures
        text::cpu_group(before + (a + seq!['-'] + b) + after) == Some((min, max)),
{
    let s = a + seq!['-'] + b;
    assert(48 <= a[0] as int <= 57 && 48 <= b[0] as int <= 57);
    assert(48 <= b[b.len() - 1] as int <= 57);
    law_number(a, min);
    law_number(b, max);
    let i = a.len() as int;
    assert(s[i] == '-');
    assert(s.take(i) == a);
    assert(s.skip(i + 1) == b);
    law_range(s, min, max);
    assert(s[0] == a[0] && s.last() == b.last());
    law_white(s[0]);
    law_white(s.last());
    law_trimmed(before, s, after);
}

/// The group of a single run of digits is the range with its value at both ends.
pub proof fn law_group_of_number(before: Seq<char>, a: Seq<char>, after: Seq<char>, cpu: usize)
    requires
        white(before),
        digit_run(a),
        white(after),
        place_value(a) == cpu,
    ensures
        text::cpu_group(before + a + after) == Some((cpu, cpu)),
{
    assert(48 <= a[0] as int <= 57);
    assert(48 <= a[a.len() - 1] as int <= 57);
    law_number(a, cpu);
    law_white(a[0]);
    law_white(a.last());
    law_trimmed(before, a, after);
    a.index_of_first_ensures('-');
    if a.contains('-') {
        let i = choose|i: int| 0 <= i < a.len() && a[i] == '-';
        assert(48 <= a[i] as int <= 57);
    }
}

/// A group is a range exactly where it is, without the white space around it, two numbers
/// with a hyphen between them, or one number that is both ends.
pub proof fn law_group(group: Seq<char>, min: usize, max: usize)
    ensures
        text::cpu_group(group) == Some((min, max)) <==> {
            let s = text::trimmed(group);
            ||| exists|i: int|
                0 <= i < s.len() && #[trigger] s[i] == '-' && text::number(s.take(i)) == Some(min)
                    && text::number(s.skip(i + 1)) == Some(max)
            ||| min == max && text::number(s) == Some(min)
        },
{
    let s = text::trimmed(group);
    law_range(s, min, max);
    if text::number(s) is Some {
        lemma_number_chars(s);
        s.index_of_first_ensures('-');
        if s.contains('-') {
            let i = choose|i: int| 0 <= i < s.len() && s[i] == '-';
            assert(48 <= s[i] as int <= 57 || s[i] == '+');
        }
        assert(text::number_range(s) is None);
    }
}

/// White space is what Unicode takes for it.
pub proof fn law_white(c: char)
    ensures
        text::is_white(c) <==> {
            let code = c as int;
            ||| 0x9 <= code <= 0xd
            ||| code == 0x20
            ||| code == 0x85
            ||| code == 0xa0
            ||| code == 0x1680
            ||| 0x2000 <= code <= 0x200a
            ||| code == 0x2028
            ||| code == 0x2029
            ||| code == 0x202f
            ||| code == 0x205f
            ||| code == 0x3000
        },
{
}

/// Whether `s` is white space.
pub open spec fn white(s: Seq<char>) -> bool {
    forall|i: int| 0 <= i < s.len() ==> text::is_white(#[trigger] s[i])
}

proof fn lemma_trim_start(before: Seq<char>, s: Seq<char>)
    requires
        white(before),
        s.len() > 0 ==> !text::is_white(s[0]),
    ensures
        text::trim_start(before + s) == s,
    decreases before.len(),
{
    let whole = before + s;
    if before.len() == 0 {
        assert(whole == s);
    } else {
        assert(whole[0] == before[0]);
        assert(text::is_white(before[0]));
        assert(whole.skip(1) == before.skip(1) + s);
        let rest = before.skip(1);
        assert forall|i: int| 0 <= i < rest.len() implies text::is_white(#[trigger] rest[i]) by {
            assert(text::is_white(before[i + 1]));
        }
        lemma_trim_start(rest, s);
    }
}

proof fn lemma_trim_end(s: Seq<char>, after: Seq<char>)
    requires
        white(after),
        s.len() > 0 ==> !text::is_white(s.last()),
    ensures
        text::trim_end(s + after) == s,
    decreases after.len(),
{
    let whole = s + after;
    if after.len() == 0 {
        assert(whole == s);
    } else {
        assert(whole.last() == after.last());
        assert(text::is_white(after[after.len() - 1]));
        assert(whole.drop_last() == s + after.drop_last());
        let rest = after.drop_last();
        assert forall|i: int| 0 <= i < rest.len() implies text::is_white(#[trigger] rest[i]) by {
            assert(text::is_white(after[i]));
        }
        lemma_trim_end(s, rest);
    }
}

/// Trimming takes off the white space before and after a text that neither starts nor ends
/// with any, and nothing else.
pub proof fn law_trimmed(before: Seq<char>, s: Seq<char>, after: Seq<char>)
    requires
        white(before),
        white(after),
        s.len() > 0 ==> !text::is_white(s[0]) && !text::is_white(s.last()),
    ensures
        text::trimmed(before + s + after) == s,
{
    if s.len() == 0 {
        let all = before + s + after;
        assert forall|i: int| 0 <= i < all.len() implies text::is_white(#[trigger] all[i]) by {
            if i < before.len() {
                assert(text::is_white(before[i]));
            } else {
                assert(text::is_white(after[i - before.len()]));
            }
        }
        lemma_trim_start(all, Seq::<char>::empty());
        assert(all + Seq::<char>::empty() == all);
        assert(text::trim_end(Seq::<char>::empty()) == Seq::<char>::empty());
        assert(s == Seq::<char>::empty());
    } else {
        assert(before + s + after == before + (s + after));
        assert((s + after)[0] == s[0]);
        lemma_trim_start(before, s + after);
        lemma_trim_end(s, after);
    }
}

/// `parts` one after the other, with `separator` between two of them.
pub open spec fn joined(parts: Seq<Seq<char>>, separator: char) -> Seq<char>
    decreases parts.len(),
{
    if parts.len() == 0 {
        Seq::empty()
    } else if parts.len() == 1 {
        parts[0]
    } else {
        joined(parts.drop_last(), separator).push(separator) + parts.last()
    }
}

proof fn lemma_pieces_longer(s: Seq<char>, tail: Seq<char>, separator: char)
    requires
        !tail.contains(separator),
    ensures
        text::pieces(s, separator).len() > 0,
        text::pieces(s + tail, separator) == text::pieces(s, separator).drop_last().push(
            text::pieces(s, separator).last() + tail,
        ),
    decreases tail.len(),
{
    lemma_pieces_some(s, separator);
    let before = text::pieces(s, separator);
    if tail.len() == 0 {
        assert(s + tail == s);
        assert(before.last() + tail == before.last());
        assert(before.drop_last().push(before.last()) == before);
    } else {
        let less = tail.drop_last();
        let whole = s + tail;
        assert(whole.drop_last() == s + less);
        assert(whole.last() == tail.last());
        assert(tail.contains(tail[tail.len() - 1]));
        assert(!less.contains(separator)) by {
            if less.contains(separator) {
                let i = choose|i: int| 0 <= i < less.len() && less[i] == separator;
                assert(tail[i] == separator);
            }
        }
        lemma_pieces_longer(s, less, separator);
        let some = text::pieces(s + less, separator);
        assert(some.drop_last() == before.drop_last());
        assert((before.last() + less).push(tail.last()) == before.last() + tail);
    }
}

proof fn lemma_pieces_some(s: Seq<char>, separator: char)
    ensures
        text::pieces(s, separator).len() > 0,
    decreases s.len(),
{
    if s.len() > 0 {
        lemma_pieces_some(s.drop_last(), separator);
    }
}

/// Splitting gives back the parts that were joined.
pub proof fn law_pieces_of_joined(parts: Seq<Seq<char>>, separator: char)
    requires
        parts.len() > 0,
        forall|k: int| 0 <= k < parts.len() ==> !(#[trigger] parts[k]).contains(separator),
    ensures
        text::pieces(joined(parts, separator), separator) == parts,
    decreases parts.len(),
{
    if parts.len() == 1 {
        let empty = Seq::<char>::empty();
        lemma_pieces_longer(empty, parts[0], separator);
        assert(empty + parts[0] == parts[0]);
        assert(text::pieces(empty, separator) == seq![empty]);
        assert(text::pieces(parts[0], separator) =~= parts);
    } else {
        let head = parts.drop_last();
        let start = joined(head, separator).push(separator);
        assert forall|k: int| 0 <= k < head.len() implies !(#[trigger] head[k]).contains(
            separator,
        ) by {
            assert(!parts[k].contains(separator));
        }
        law_pieces_of_joined(head, separator);
        assert(start.drop_last() == joined(head, separator));
        assert(text::pieces(start, separator) == head.push(Seq::empty()));
        assert(!parts[parts.len() - 1].contains(separator));
        lemma_pieces_longer(start, parts.last(), separator);
        assert(head.push(Seq::empty()).drop_last() == head);
        assert(Seq::<char>::empty() + parts.last() == parts.last());
        assert(head.push(parts.last()) == parts);
    }
}

/// Joining gives back the text that was split. No piece has the separator in it.
pub proof fn law_joined_pieces(s: Seq<char>, separator: char)
    ensures
        text::pieces(s, separator).len() > 0,
        joined(text::pieces(s, separator), separator) == s,
        forall|k: int|
            0 <= k < text::pieces(s, separator).len() ==> !(#[trigger] text::pieces(
                s,
                separator,
            )[k]).contains(separator),
    decreases s.len(),
{
    let parts = text::pieces(s, separator);
    if s.len() == 0 {
        assert(parts == seq![Seq::<char>::empty()]);
        assert(joined(parts, separator) == parts[0]);
        assert(s == Seq::<char>::empty());
    } else {
        let before = text::pieces(s.drop_last(), separator);
        law_joined_pieces(s.drop_last(), separator);
        if s.last() == separator {
            assert(parts.drop_last() == before);
            assert(joined(parts, separator) == joined(before, separator).push(separator)
                + Seq::<char>::empty());
            assert(joined(parts, separator) =~= s);
        } else {
            assert(parts.drop_last() == before.drop_last());
            if before.len() == 1 {
                assert(joined(parts, separator) == before[0].push(s.last()));
            } else {
                assert(joined(before, separator) == joined(before.drop_last(), separator).push(
                    separator,
                ) + before.last());
                assert(joined(parts, separator) =~= joined(before, separator).push(s.last()));
            }
            assert(s.drop_last().push(s.last()) == s);
            assert forall|k: int| 0 <= k < parts.len() implies !(#[trigger] parts[k]).contains(
                separator,
            ) by {
                if k < before.len() - 1 {
                    assert(parts[k] == before[k]);
                } else {
                    assert(!before[before.len() - 1].contains(separator));
                    let last = before.last().push(s.last());
                    if last.contains(separator) {
                        let i = choose|i: int| 0 <= i < last.len() && last[i] == separator;
                        assert(before.last()[i] == separator);
                    }
                }
            }
        }
    }
}

/// What stands behind a prefix is read as a number. Without the prefix there is none.
pub proof fn law_number_after(s: Seq<char>, prefix: Seq<char>, v: usize)
    ensures
        text::number_after(s, prefix) == Some(v) <==> exists|rest: Seq<char>|
            s == prefix + rest && #[trigger] text::number(rest) == Some(v),
{
    if text::number_after(s, prefix) == Some(v) {
        let rest = s.skip(prefix.len() as int);
        assert(s =~= prefix + rest);
        assert(text::number(rest) == Some(v));
    }
    if exists|rest: Seq<char>| s == prefix + rest && #[trigger] text::number(rest) == Some(v) {
        let rest = choose|rest: Seq<char>|
            s == prefix + rest && #[trigger] text::number(rest) == Some(v);
        assert(prefix.is_prefix_of(s));
        assert(s.skip(prefix.len() as int) == rest);
    }
}

/// A path without white space around it is not changed by trimming.
proof fn lemma_path_kept(path: Seq<char>)
    requires
        path.len() > 0,
        path[0] == '/',
        48 <= path.last() as int <= 57,
    ensures
        text::trimmed(path) == path,
{
    let empty = Seq::<char>::empty();
    law_white(path[0]);
    law_white(path.last());
    law_trimmed(empty, path, empty);
    assert(empty + path + empty == path);
}

/// A path is that of the CPU whose number stands behind `/sys/devices/system/cpu/cpu`.
pub proof fn law_cpu_path(path: Seq<char>, v: usize)
    ensures
        sysfs::cpu_dir_id(path) == Some(v) <==> exists|rest: Seq<char>|
            text::trimmed(path) == "/sys/devices/system/cpu/cpu"@ + rest && #[trigger] text::number(
                rest,
            ) == Some(v),
{
    law_number_after(text::trimmed(path), "/sys/devices/system/cpu/cpu"@, v);
}

/// The directory of each CPU is known for its own.
pub proof fn law_cpu_dir(v: usize)
    ensures
        sysfs::cpu_dir_id("/sys/devices/system/cpu/cpu"@ + printed(v as nat)) == Some(v),
{
    reveal_strlit("/sys/devices/system/cpu/cpu");
    let prefix = "/sys/devices/system/cpu/cpu"@;
    let rest = printed(v as nat);
    law_printed(v);
    assert(48 <= rest[rest.len() - 1] as int <= 57);
    assert((prefix + rest)[0] == '/');
    assert((prefix + rest).last() == rest.last());
    lemma_path_kept(prefix + rest);
    law_cpu_path(prefix + rest, v);
}

/// A path is that of the NUMA node whose number stands behind
/// `/sys/devices/system/node/node`.
pub proof fn law_node_path(path: Seq<char>, v: usize)
    ensures
        sysfs::node_dir_id(path) == Some(v) <==> exists|rest: Seq<char>|
            text::trimmed(path) == "/sys/devices/system/node/node"@ + rest && #[trigger] text::number(
                rest,
            ) == Some(v),
{
    law_number_after(text::trimmed(path), "/sys/devices/system/node/node"@, v);
}

/// The directory of each NUMA node is known for its own.
pub proof fn law_node_dir(v: usize)
    ensures
        sysfs::node_dir_id("/sys/devices/system/node/node"@ + printed(v as nat)) == Some(v),
{
    reveal_strlit("/sys/devices/system/node/node");
    let prefix = "/sys/devices/system/node/node"@;
    let rest = printed(v as nat);
    law_printed(v);
    assert(48 <= rest[rest.len() - 1] as int <= 57);
    assert((prefix + rest)[0] == '/');
    assert((prefix + rest).last() == rest.last());
    lemma_path_kept(prefix + rest);
    law_node_path(prefix + rest, v);
}

/// Whether `path` is `/sys/devices/system/node/node`, a number `a`, `/cpu` and a number
/// `b`.
pub open spec fn node_cpu_path(path: Seq<char>, a: Seq<char>, b: Seq<char>) -> bool {
    &&& path == "/sys/devices/system/node/node"@ + (a + ("/cpu"@ + b))
    &&& text::number(a) is Some
    &&& text::number(b) is Some
}

/// A path in the directory of a NUMA node is that of the CPU whose number stands behind
/// the number of the node and `/cpu`.
pub proof fn law_node_cpu_path(path: Seq<char>, v: usize)
    ensures
        sysfs::node_cpu_id(path) == Some(v) <==> exists|a: Seq<char>, b: Seq<char>| #[trigger]
            node_cpu_path(text::trimmed(path), a, b) && text::number(b) == Some(v),
{
    let s = text::trimmed(path);
    let prefix = "/sys/devices/system/node/node"@;
    let rest = s.skip(prefix.len() as int);
    if sysfs::node_cpu_id(path) == Some(v) {
        let i = rest.index_of_first('/').unwrap();
        let a = rest.take(i);
        assert(text::number_after(rest.skip(i), "/cpu"@) == Some(v));
        law_number_after(rest.skip(i), "/cpu"@, v);
        let b = choose|b: Seq<char>|
            rest.skip(i) == "/cpu"@ + b && #[trigger] text::number(b) == Some(v);
        rest.index_of_first_ensures('/');
        assert(s =~= prefix + rest);
        assert(rest =~= a + rest.skip(i));
        assert(node_cpu_path(s, a, b));
    }
    if exists|a: Seq<char>, b: Seq<char>| #[trigger]
        node_cpu_path(s, a, b) && text::number(b) == Some(v) {
        let (a, b) = choose|a: Seq<char>, b: Seq<char>| #[trigger]
            node_cpu_path(s, a, b) && text::number(b) == Some(v);
        assert(prefix.is_prefix_of(s));
        assert(rest =~= a + ("/cpu"@ + b));
        lemma_cut_at_mark(rest, a, b);
        assert(rest.skip(a.len() as int) =~= "/cpu"@ + b);
        law_number_after(rest.skip(a.len() as int), "/cpu"@, v);
    }
}

/// The first slash behind a number and before `/cpu` is that of `/cpu`.
proof fn lemma_cut_at_mark(rest: Seq<char>, a: Seq<char>, b: Seq<char>)
    requires
        rest == a + ("/cpu"@ + b),
        text::number(a) is Some,
    ensures
        rest.index_of_first('/') == Some(a.len() as int),
        rest.take(a.len() as int) == a,
{
    reveal_strlit("/cpu");
    let i = a.len() as int;
    rest.index_of_first_ensures('/');
    assert(rest[i] == "/cpu"@[0]);
    assert(rest.contains('/'));
    lemma_number_chars(a);
    let first = rest.index_of_first('/').unwrap();
    if first < i {
        assert(a[first] == '/');
    }
    assert(rest.take(i) =~= a);
}

/// The directory of each CPU in that of a NUMA node is known for its own.
pub proof fn law_node_cpu_dir(n: usize, v: usize)
    ensures
        sysfs::node_cpu_id(
            "/sys/devices/system/node/node"@ + (printed(n as nat) + ("/cpu"@ + printed(v as nat))),
        ) == Some(v),
{
    reveal_strlit("/sys/devices/system/node/node");
    reveal_strlit("/cpu");
    let a = printed(n as nat);
    let b = printed(v as nat);
    let path = "/sys/devices/system/node/node"@ + (a + ("/cpu"@ + b));
    law_printed(n);
    law_printed(v);
    assert(48 <= b[b.len() - 1] as int <= 57);
    assert(path[0] == '/');
    assert(path.last() == b.last());
    lemma_path_kept(path);
    assert(node_cpu_path(path, a, b));
    law_node_cpu_path(path, v);
}

/// The text of a range in a list of CPUs: its ends with a hyphen between them, or the one
/// number that both ends are.
pub open spec fn range_text(range: (usize, usize)) -> Seq<char> {
    if range.0 == range.1 {
        printed(range.0 as nat)
    } else {
        printed(range.0 as nat) + seq!['-'] + printed(range.1 as nat)
    }
}

/// The text of a list of CPUs: its ranges with commas between them, and the end of the
/// line.
pub open spec fn list_text(ranges: Seq<(usize, usize)>) -> Seq<char> {
    joined(ranges.map_values(|range: (usize, usize)| range_text(range)), ',').push('\n')
}

proof fn lemma_range_text(range: (usize, usize), after: Seq<char>)
    requires
        white(after),
    ensures
        text::cpu_group(range_text(range) + after) == Some(range),
        !range_text(range).contains(','),
{
    let a = printed(range.0 as nat);
    let b = printed(range.1 as nat);
    let s = range_text(range);
    let empty = Seq::<char>::empty();
    law_printed(range.0);
    law_printed(range.1);
    if range.0 == range.1 {
        law_group_of_number(empty, a, after, range.0);
    } else {
        law_group_of_range(empty, a, b, after, range.0, range.1);
    }
    assert(empty + s + after == s + after);
    if s.contains(',') {
        let i = choose|i: int| 0 <= i < s.len() && s[i] == ',';
        if i < a.len() {
            assert(48 <= a[i] as int <= 57);
        } else if i > a.len() {
            assert(48 <= b[i - a.len() - 1] as int <= 57);
        }
    }
}

/// Characters behind a joined text belong to its last part.
proof fn lemma_joined_last(parts: Seq<Seq<char>>, separator: char, c: char)
    requires
        parts.len() > 0,
    ensures
        joined(parts, separator).push(c) == joined(
            parts.drop_last().push(parts.last().push(c)),
            separator,
        ),
{
    let longer = parts.drop_last().push(parts.last().push(c));
    assert(longer.drop_last() == parts.drop_last());
    assert(joined(parts, separator).push(c) =~= joined(longer, separator));
}

/// The file with the online CPUs, as the kernel writes it, stands for the CPUs in its
/// ranges, from the first to the last of each.
pub proof fn law_online_file(ranges: Seq<(usize, usize)>, nr_cpu_ids: usize)
    requires
        ranges.len() > 0,
        forall|i: int| 0 <= i < ranges.len() ==> (#[trigger] ranges[i]).1 < nr_cpu_ids,
    ensures
        sysfs::online_cpus(Some(list_text(ranges)), nr_cpu_ids) matches Ok(mask) && {
            &&& mask.nr_cpu_ids == nr_cpu_ids
            &&& forall|u: usize| #[trigger]
                mask.cpus.contains(u) <==> exists|i: int|
                    0 <= i < ranges.len() && (#[trigger] ranges[i]).0 <= u <= ranges[i].1
        },
{
    let parts = ranges.map_values(|range: (usize, usize)| range_text(range));
    let groups = parts.drop_last().push(parts.last().push('\n'));
    lemma_joined_last(parts, ',', '\n');
    let newline = seq!['\n'];
    law_white('\n');
    assert(white(newline));
    assert(white(Seq::<char>::empty()));
    assert forall|k: int| 0 <= k < groups.len() implies !(#[trigger] groups[k]).contains(',')
        && text::cpu_group(groups[k]) == Some(ranges[k]) by {
        let s = range_text(ranges[k]);
        lemma_range_text(ranges[k], Seq::<char>::empty());
        lemma_range_text(ranges[k], newline);
        assert(s + Seq::<char>::empty() == s);
        assert(s + newline == s.push('\n'));
        if k == groups.len() - 1 {
            assert(groups[k] == s.push('\n'));
            if groups[k].contains(',') {
                let i = choose|i: int| 0 <= i < groups[k].len() && groups[k][i] == ',';
                assert(s[i] == ',');
            }
        } else {
            assert(groups[k] == s);
        }
    }
    law_pieces_of_joined(groups, ',');
    lemma_listed(groups, ranges, nr_cpu_ids);
}

proof fn lemma_listed(groups: Seq<Seq<char>>, ranges: Seq<(usize, usize)>, nr_cpu_ids: usize)
    requires
        groups.len() == ranges.len(),
        forall|k: int|
            0 <= k < groups.len() ==> text::cpu_group(#[trigger] groups[k]) == Some(ranges[k]),
        forall|i: int| 0 <= i < ranges.len() ==> (#[trigger] ranges[i]).1 < nr_cpu_ids,
    ensures
        sysfs::listed_cpus(groups, nr_cpu_ids) matches Ok(cpus) && forall|u: usize| #[trigger]
            cpus.contains(u) <==> exists|i: int|
                0 <= i < ranges.len() && (#[trigger] ranges[i]).0 <= u <= ranges[i].1,
    decreases groups.len(),
{
    if groups.len() > 0 {
        let head = groups.drop_last();
        let fewer = ranges.drop_last();
        assert forall|k: int| 0 <= k < head.len() implies text::cpu_group(#[trigger] head[k])
            == Some(fewer[k]) by {
            assert(text::cpu_group(groups[k]) == Some(ranges[k]));
        }
        assert forall|i: int| 0 <= i < fewer.len() implies (#[trigger] fewer[i]).1 < nr_cpu_ids by {
            assert(ranges[i].1 < nr_cpu_ids);
        }
        lemma_listed(head, fewer, nr_cpu_ids);
        let before = sysfs::listed_cpus(head, nr_cpu_ids)->Ok_0;
        let (min, max) = ranges.last();
        assert(text::cpu_group(groups[groups.len() - 1]) == Some(ranges.last()));
        assert(ranges[ranges.len() - 1].1 < nr_cpu_ids);
        let cpus = sysfs::listed_cpus(groups, nr_cpu_ids)->Ok_0;
        assert(cpus == before.union(sysfs::cpus_between(min, max)));
        assert forall|u: usize| #[trigger] cpus.contains(u) <==> exists|i: int|
            0 <= i < ranges.len() && (#[trigger] ranges[i]).0 <= u <= ranges[i].1 by {
            if before.contains(u) {
                let i = choose|i: int|
                    0 <= i < fewer.len() && (#[trigger] fewer[i]).0 <= u <= fewer[i].1;
                assert(ranges[i] == fewer[i]);
            }
            if min <= u <= max {
                assert(ranges[ranges.len() - 1].0 <= u <= ranges[ranges.len() - 1].1);
            }
            if exists|i: int|
                0 <= i < ranges.len() && (#[trigger] ranges[i]).0 <= u <= ranges[i].1 {
                let i = choose|i: int|
                    0 <= i < ranges.len() && (#[trigger] ranges[i]).0 <= u <= ranges[i].1;
                if i < fewer.len() {
                    assert(fewer[i] == ranges[i]);
                    assert(before.contains(u));
                }
            }
        }
    }
}

/// Whether the group `k` of a list of CPUs is a range of CPUs below `nr_cpu_ids`. A range
/// that runs backwards has no CPU.
pub open spec fn group_holds(groups: Seq<Seq<char>>, k: int, nr_cpu_ids: usize) -> bool {
    text::cpu_group(groups[k]) matches Some((min, max)) && (min <= max ==> max < nr_cpu_ids)
}

/// What is wrong with the group `k` of a list of CPUs: it is no range, and the error has
/// its text without white space, or the error has the first CPU of the range that is not
/// below `nr_cpu_ids`.
pub open spec fn group_fault(
    groups: Seq<Seq<char>>,
    k: int,
    nr_cpu_ids: usize,
    error: ErrorView,
) -> bool {
    match text::cpu_group(groups[k]) {
        None => error == (ErrorView::ParseOnline { group: text::trimmed(groups[k]) }),
        Some((min, max)) => exists|cpu: usize| #[trigger]
            first_beyond(min, max, nr_cpu_ids, cpu) && error == (ErrorView::InvalidCpu {
                cpu,
                nr_cpu_ids,
            }),
    }
}

/// Whether `cpu` is the lowest CPU from `min` to `max` that is not below `nr_cpu_ids`.
pub open spec fn first_beyond(min: usize, max: usize, nr_cpu_ids: usize, cpu: usize) -> bool {
    &&& min <= cpu <= max
    &&& cpu >= nr_cpu_ids
    &&& cpu > min ==> cpu - 1 < nr_cpu_ids
}

/// A list of CPUs can be read exactly where each of its groups can. Otherwise the error is
/// that of its first group that cannot.
pub proof fn law_online_groups(groups: Seq<Seq<char>>, nr_cpu_ids: usize)
    ensures
        sysfs::listed_cpus(groups, nr_cpu_ids) is Ok <==> forall|k: int|
            0 <= k < groups.len() ==> #[trigger] group_holds(groups, k, nr_cpu_ids),
        sysfs::listed_cpus(groups, nr_cpu_ids) matches Err(error) ==> exists|k: int|
            {
                &&& 0 <= k < groups.len()
                &&& #[trigger] group_fault(groups, k, nr_cpu_ids, error)
                &&& !group_holds(groups, k, nr_cpu_ids)
                &&& forall|j: int| 0 <= j < k ==> #[trigger] group_holds(groups, j, nr_cpu_ids)
            },
    decreases groups.len(),
{
    if groups.len() > 0 {
        let head = groups.drop_last();
        let last = groups.len() - 1;
        law_online_groups(head, nr_cpu_ids);
        assert forall|k: int| 0 <= k < head.len() implies #[trigger] group_holds(
            groups,
            k,
            nr_cpu_ids,
        ) == group_holds(head, k, nr_cpu_ids) by {
            assert(head[k] == groups[k]);
        }
        match sysfs::listed_cpus(head, nr_cpu_ids) {
            Err(error) => {
                let k = choose|k: int|
                    {
                        &&& 0 <= k < head.len()
                        &&& #[trigger] group_fault(head, k, nr_cpu_ids, error)
                        &&& !group_holds(head, k, nr_cpu_ids)
                        &&& forall|j: int| 0 <= j < k ==> #[trigger] group_holds(head, j, nr_cpu_ids)
                    };
                assert(head[k] == groups[k]);
                assert(group_fault(groups, k, nr_cpu_ids, error));
                assert(!group_holds(groups, k, nr_cpu_ids));
                assert forall|j: int| 0 <= j < k implies #[trigger] group_holds(
                    groups,
                    j,
                    nr_cpu_ids,
                ) by {
                    assert(group_holds(head, j, nr_cpu_ids));
                }
            },
            Ok(_) => {
                assert forall|j: int| 0 <= j < last implies #[trigger] group_holds(
                    groups,
                    j,
                    nr_cpu_ids,
                ) by {
                    assert(group_holds(head, j, nr_cpu_ids));
                }
                match text::cpu_group(groups.last()) {
                    None => {
                        let error = ErrorView::ParseOnline { group: text::trimmed(groups.last()) };
                        assert(group_fault(groups, last, nr_cpu_ids, error));
                        assert(!group_holds(groups, last, nr_cpu_ids));
                    },
                    Some((min, max)) => {
                        if min <= max && max >= nr_cpu_ids {
                            let cpu = if min < nr_cpu_ids {
                                nr_cpu_ids
                            } else {
                                min
                            };
                            assert(first_beyond(min, max, nr_cpu_ids, cpu));
                            assert(group_fault(
                                groups,
                                last,
                                nr_cpu_ids,
                                ErrorView::InvalidCpu { cpu, nr_cpu_ids },
                            ));
                            assert(!group_holds(groups, last, nr_cpu_ids));
                        } else {
                            assert(group_holds(groups, last, nr_cpu_ids));
                        }
                    },
                }
            },
        }
    }
}

/// The mask of online CPUs has room for all possible CPUs, and holds those in the ranges
/// between the commas of the text. A text that cannot be read is an error.
pub proof fn law_online_mask(text: Option<Seq<char>>, nr_cpu_ids: usize, u: usize)
    ensures
        text is None <==> sysfs::online_cpus(text, nr_cpu_ids) == Err::<CpumaskView, _>(
            ErrorView::OnlineUnreadable,
        ),
        sysfs::online_cpus(text, nr_cpu_ids) matches Ok(mask) ==> {
            let groups = text::pieces(text.unwrap(), ',');
            &&& mask.nr_cpu_ids == nr_cpu_ids
            &&& mask.cpus.contains(u) <==> exists|k: int|
                0 <= k < groups.len() && (text::cpu_group(#[trigger] groups[k]) matches Some(
                    (min, max),
                ) && min <= u <= max)
        },
        text is Some ==> (sysfs::online_cpus(text, nr_cpu_ids) is Ok <==> sysfs::listed_cpus(
            text::pieces(text.unwrap(), ','),
            nr_cpu_ids,
        ) is Ok),
{
    if text is Some {
        let groups = text::pieces(text.unwrap(), ',');
        law_online_groups(groups, nr_cpu_ids);
        match sysfs::listed_cpus(groups, nr_cpu_ids) {
            Ok(cpus) => {
                crate::laws::law_online_list(groups, nr_cpu_ids, cpus);
                if exists|k: int|
                    0 <= k < groups.len() && (text::cpu_group(#[trigger] groups[k]) matches Some(
                        (min, max),
                    ) && min <= u <= max) {
                    let k = choose|k: int|
                        0 <= k < groups.len() && (text::cpu_group(#[trigger] groups[k]) matches Some(
                            (min, max),
                        ) && min <= u <= max);
                    assert(groups[k] == groups[k]);
                    assert(cpus.contains(u));
                }
            },
            Err(_) => {},
        }
    }
}

} // verus!
