use aoc25::days::util::normalize_day;
use aoc25::{parse_grid_chars, parse_grid_digits, parse_ints_whitespace, parse_lines_i64};

#[test]
fn grid_chars() {
    let g = parse_grid_chars("ab\ncd\n");
    assert_eq!(g, vec![vec!['a', 'b'], vec!['c', 'd']]);
}

#[test]
fn grid_digits() {
    let g = parse_grid_digits("12\n90x\n");
    assert_eq!(g, vec![vec![1, 2], vec![9, 0]]);
}

#[test]
fn ints_ws_and_lines() {
    let v = parse_ints_whitespace("1 -2 3\n4");
    assert_eq!(v, vec![1, -2, 3, 4]);
    let v2 = parse_lines_i64("\n10\n 20 \n\n-5\n");
    assert_eq!(v2, vec![10, 20, -5]);
}

#[test]
fn lines_keep_inner_carriage_returns() {
    let g = parse_grid_chars("a\r\nb\rc\n\nd\r");
    assert_eq!(g, vec![vec!['a'], vec!['b', '\r', 'c'], vec![], vec!['d', '\r']]);
    assert!(parse_grid_chars("").is_empty());
}

#[test]
fn integers_at_the_limits() {
    let v = parse_ints_whitespace("9223372036854775807 -9223372036854775808 9223372036854775808 +7 - 1x");
    assert_eq!(v, vec![i64::MAX, i64::MIN, 7]);
    let w = parse_lines_i64("\u{a0}12\u{a0}\n+\n-0\n");
    assert_eq!(w, vec![12, 0]);
}

#[test]
fn day_names() {
    assert_eq!(normalize_day("1"), "day01");
    assert_eq!(normalize_day("01"), "day01");
    assert_eq!(normalize_day(" Day7 "), "day07");
    assert_eq!(normalize_day("DAY12"), "day12");
    assert_eq!(normalize_day("day+3"), "day03");
    assert_eq!(normalize_day("123"), "day123");
    assert_eq!(normalize_day("day"), "day00");
    assert_eq!(normalize_day("day 1"), "day00");
    assert_eq!(normalize_day("x"), "day00");
    assert_eq!(normalize_day("4294967295"), "day4294967295");
    assert_eq!(normalize_day("4294967296"), "day00");
    assert_eq!(normalize_day(""), "day00");
}
