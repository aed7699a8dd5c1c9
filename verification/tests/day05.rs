use aoc25::days::day05::answers::{part1, part2, Day05Error};
use aoc25::days::day05::database::{
    parse_database, parse_range, parse_u64, DatabaseError, DatabaseLineError,
};
use aoc25::days::day05::ranges::{count_covered, count_fresh, holds, merge_ranges};

const EXAMPLE: &str = "3-5\n10-14\n16-20\n12-18\n\n1\n5\n8\n11\n17\n32\n";

fn chars(s: &str) -> Vec<char> {
    s.chars().collect()
}

#[test]
fn ingredients_example_part1() {
    assert_eq!(part1(EXAMPLE), Ok("3".to_string()));
}

#[test]
fn ingredients_example_part2() {
    assert_eq!(part2(EXAMPLE), Ok("14".to_string()));
}

#[test]
fn database_is_read_in_two_parts() {
    let (ranges, ids) = parse_database(EXAMPLE).unwrap();
    assert_eq!(ranges, vec![(3, 5), (10, 14), (16, 20), (12, 18)]);
    assert_eq!(ids, vec![1, 5, 8, 11, 17, 32]);
}

#[test]
fn blank_lines_before_the_first_range_do_not_end_the_ranges() {
    let (ranges, ids) = parse_database("\n\n 7 - 3 \n\n\n+4\n\n5\n").unwrap();
    assert_eq!(ranges, vec![(3, 7)]);
    assert_eq!(ids, vec![4, 5]);
    assert_eq!(parse_database(""), Ok((vec![], vec![])));
    assert_eq!(parse_database("1-2\n3-4"), Ok((vec![(1, 2), (3, 4)], vec![])));
}

#[test]
fn each_database_error_has_its_line() {
    let at = |line_index, error| Err(DatabaseLineError { line_index, error });
    assert_eq!(parse_database("1-2\n34\n"), at(1, DatabaseError::MissingDash));
    assert_eq!(parse_database("x-2\n"), at(0, DatabaseError::InvalidStart));
    assert_eq!(parse_database("\n1-\n"), at(1, DatabaseError::InvalidEnd));
    assert_eq!(parse_database("1-2-3\n"), at(0, DatabaseError::InvalidEnd));
    assert_eq!(parse_database("1-2\n\n3\n4-5\n"), at(3, DatabaseError::InvalidId));
    assert_eq!(
        part1("1-2\n\nabc\n"),
        Err(Day05Error::Parse(DatabaseLineError { line_index: 2, error: DatabaseError::InvalidId }))
    );
    assert_eq!(
        part2("12\n"),
        Err(Day05Error::Parse(DatabaseLineError { line_index: 0, error: DatabaseError::MissingDash }))
    );
}

#[test]
fn numbers_are_read_as_the_standard_library_reads_them() {
    for s in ["0", "7", "+7", "007", "18446744073709551615", "18446744073709551616", "", "+", "-1", "1 ", "١", "99999999999999999999999999"] {
        assert_eq!(parse_u64(&chars(s)), s.parse::<u64>().ok(), "{s:?}");
    }
}

#[test]
fn range_ends_are_put_in_order() {
    assert_eq!(parse_range(&chars("5-3")), Ok((3, 5)));
    assert_eq!(parse_range(&chars("3 - 5")), Ok((3, 5)));
    assert_eq!(parse_range(&chars("4-4")), Ok((4, 4)));
    assert_eq!(parse_range(&chars("-4")), Err(DatabaseError::InvalidStart));
    assert_eq!(parse_range(&chars("4")), Err(DatabaseError::MissingDash));
}

#[test]
fn merging_sorts_and_joins() {
    assert_eq!(merge_ranges(vec![]), vec![]);
    assert_eq!(merge_ranges(vec![(10, 14), (3, 5)]), vec![(3, 5), (10, 14)]);
    assert_eq!(merge_ranges(vec![(3, 5), (10, 14), (16, 20), (12, 18)]), vec![(3, 5), (10, 20)]);
    assert_eq!(merge_ranges(vec![(1, 2), (3, 4)]), vec![(1, 4)]);
    assert_eq!(merge_ranges(vec![(1, 2), (4, 5)]), vec![(1, 2), (4, 5)]);
    assert_eq!(merge_ranges(vec![(1, 10), (2, 3), (4, 5)]), vec![(1, 10)]);
    assert_eq!(merge_ranges(vec![(5, u64::MAX), (0, 1), (7, 9)]), vec![(0, 1), (5, u64::MAX)]);
    assert_eq!(merge_ranges(vec![(0, u64::MAX), (u64::MAX, u64::MAX)]), vec![(0, u64::MAX)]);
}

#[test]
fn membership_in_merged_ranges() {
    let merged = merge_ranges(vec![(3, 5), (10, 14), (16, 20), (12, 18)]);
    for (id, expected) in [(1, false), (3, true), (5, true), (6, false), (9, false), (10, true), (15, true), (20, true), (21, false)] {
        assert_eq!(holds(&merged, id), expected, "{id}");
    }
    assert!(!holds(&vec![], 0));
    assert_eq!(count_fresh(&merged, &vec![1, 5, 8, 11, 17, 32, 5]), 4);
    assert_eq!(count_fresh(&merged, &vec![]), 0);
}

#[test]
fn covered_ids_are_counted_once() {
    assert_eq!(count_covered(&vec![]), 0);
    assert_eq!(count_covered(&merge_ranges(vec![(3, 5), (4, 6), (3, 3)])), 4);
    assert_eq!(count_covered(&merge_ranges(vec![(0, u64::MAX)])), 1u128 << 64);
    assert_eq!(part2("0-18446744073709551615\n"), Err(Day05Error::Overflow));
    assert_eq!(part2("1-18446744073709551615\n"), Ok("18446744073709551615".to_string()));
    assert_eq!(part2(""), Ok("0".to_string()));
    assert_eq!(part1("1-5\n"), Ok("0".to_string()));
    assert_eq!(part1("\n7\n"), Err(Day05Error::Parse(DatabaseLineError { line_index: 1, error: DatabaseError::MissingDash })));
}
