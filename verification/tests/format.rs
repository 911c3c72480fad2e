use typesize::numfmt::{decimal_string, format_size, pad_left, pad_right, percent_string};

#[test]
fn format_size_zero() {
    assert_eq!(format_size(0), "0.00 B");
}

#[test]
fn format_size_just_below_one_kilobyte() {
    assert_eq!(format_size(1023), "1023.00 B");
}

#[test]
fn format_size_one_kilobyte() {
    assert_eq!(format_size(1024), "1.00 KB");
}

#[test]
fn format_size_one_and_a_half_kilobytes() {
    assert_eq!(format_size(1536), "1.50 KB");
}

#[test]
fn format_size_one_megabyte() {
    assert_eq!(format_size(1048576), "1.00 MB");
}

#[test]
fn format_size_rounds_up_just_below_one_megabyte() {
    // 1048575 bytes is 1023.999 KB; two decimals round it up to 1024.00,
    // and the unit stays KB: rounding never bumps the unit.
    assert_eq!(format_size(1048575), "1024.00 KB");
}

#[test]
fn format_size_one_gigabyte() {
    assert_eq!(format_size(1024u64.pow(3)), "1.00 GB");
}

#[test]
fn format_size_one_terabyte() {
    assert_eq!(format_size(1024u64.pow(4)), "1.00 TB");
}

#[test]
fn format_size_one_petabyte() {
    assert_eq!(format_size(1024u64.pow(5)), "1.00 PB");
}

#[test]
fn format_size_caps_at_petabytes() {
    // No unit beyond PB: huge values stay in PB, however large.
    assert_eq!(format_size(1024u64.pow(5) * 1536), "1536.00 PB");
    assert_eq!(format_size(u64::MAX), "16384.00 PB");
}

#[test]
fn decimal_string_renders_plain_numbers() {
    assert_eq!(decimal_string(0), "0");
    assert_eq!(decimal_string(7), "7");
    assert_eq!(decimal_string(105), "105");
    assert_eq!(decimal_string(u64::MAX), u64::MAX.to_string());
}

#[test]
fn percent_string_exact_shares() {
    assert_eq!(percent_string(1, 4), "25.00");
    assert_eq!(percent_string(5, 5), "100.00");
    assert_eq!(percent_string(0, 5), "0.00");
}

#[test]
fn percent_string_rounds_to_two_decimals() {
    assert_eq!(percent_string(1, 3), "33.33");
    assert_eq!(percent_string(2, 3), "66.67");
}

#[test]
fn percent_string_rounds_ties_to_even() {
    // 1/800 is exactly 0.125 %, 3/800 exactly 0.375 %: ties go to the even
    // neighbour, as the standard float formatting does on exact halves.
    assert_eq!(percent_string(1, 800), "0.12");
    assert_eq!(percent_string(3, 800), "0.38");
}

#[test]
fn percent_string_zero_total() {
    // Only reachable when every counted file is empty.
    assert_eq!(percent_string(0, 0), "0.00");
}

#[test]
fn pad_left_widens_to_the_requested_width() {
    assert_eq!(pad_left("7", 3), "  7");
    assert_eq!(pad_left("abc", 3), "abc");
    assert_eq!(pad_left("abcd", 3), "abcd");
    assert_eq!(pad_left("", 2), "  ");
}

#[test]
fn pad_right_widens_to_the_requested_width() {
    assert_eq!(pad_right("ab", 4), "ab  ");
    assert_eq!(pad_right("abcd", 4), "abcd");
    assert_eq!(pad_right("abcde", 4), "abcde");
    assert_eq!(pad_right("", 2), "  ");
}
