use scx_topology::text;

#[test]
fn number_is_up_to_twenty_digits_with_an_optional_plus() {
    assert_eq!(text::scan_number("0"), Some(0));
    assert_eq!(text::scan_number("12"), Some(12));
    assert_eq!(text::scan_number("+12"), Some(12));
    assert_eq!(text::scan_number("00000000000000000007"), Some(7));
    assert_eq!(text::scan_number("000000000000000000007"), None);
    assert_eq!(text::scan_number(""), None);
    assert_eq!(text::scan_number("+"), None);
    assert_eq!(text::scan_number("-1"), None);
    assert_eq!(text::scan_number("1 "), None);
    assert_eq!(text::scan_number("0x10"), None);
    assert_eq!(text::scan_number("++1"), None);
}

#[test]
fn number_stops_at_the_range_of_usize() {
    let greatest = format!("{}", usize::MAX);
    assert_eq!(text::scan_number(&greatest), Some(usize::MAX));
    assert_eq!(text::scan_number("99999999999999999999"), None);
}

#[test]
fn trim_takes_white_space_off_both_ends() {
    assert_eq!(text::trim(" \t0-3\n"), "0-3");
    assert_eq!(text::trim("a b"), "a b");
    assert_eq!(text::trim(" \n"), "");
    assert_eq!(text::trim(""), "");
    assert_eq!(text::trim("\u{2003}7\u{a0}"), "7");
}

#[test]
fn split_keeps_empty_pieces() {
    assert_eq!(text::split("0-3,8", ','), vec!["0-3", "8"]);
    assert_eq!(text::split("", ','), vec![""]);
    assert_eq!(text::split(",1,", ','), vec!["", "1", ""]);
}

#[test]
fn cpu_group_is_a_number_or_a_range() {
    assert_eq!(text::scan_cpu_group("0-3"), Some((0, 3)));
    assert_eq!(text::scan_cpu_group(" 8\n"), Some((8, 8)));
    assert_eq!(text::scan_cpu_group("3-1"), Some((3, 1)));
    assert_eq!(text::scan_cpu_group("+1-+2"), Some((1, 2)));
    assert_eq!(text::scan_cpu_group("1-2-3"), None);
    assert_eq!(text::scan_cpu_group("1-"), None);
    assert_eq!(text::scan_cpu_group("-1"), None);
    assert_eq!(text::scan_cpu_group("1 - 2"), None);
    assert_eq!(text::scan_cpu_group(""), None);
}

#[test]
fn number_after_needs_the_whole_prefix() {
    assert_eq!(text::scan_number_after("cpu17", "cpu"), Some(17));
    assert_eq!(text::scan_number_after("cpu", "cpu"), None);
    assert_eq!(text::scan_number_after("cp17", "cpu"), None);
    assert_eq!(text::scan_number_after("cpu17x", "cpu"), None);
}
