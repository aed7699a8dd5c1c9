use aoc25::days::day03::bank::{best_pair, digits, max_pair_value, part1, Day03Error};
use aoc25::days::day03::pick::{best_pick, max_subsequence_value, part2};
use aoc25::days::day03::regex_solvers::{
    best_pair_regex, pair_from_outcomes, pattern_for, sanitize, sum_with_regex_part1,
};

const EXAMPLE: &str = "987654321111111\n811111111111119\n234234234234278\n818181911112111\n";

#[test]
fn battery_example_part1() {
    assert_eq!(part1(EXAMPLE), Ok("357".to_string()));
}

#[test]
fn regex_part1_matches_example() {
    assert_eq!(sum_with_regex_part1(EXAMPLE), Ok(357));
}

#[test]
fn greatest_pair_of_each_example_bank() {
    assert_eq!(max_pair_value("987654321111111"), 98);
    assert_eq!(max_pair_value("811111111111119"), 89);
    assert_eq!(max_pair_value("234234234234278"), 78);
    assert_eq!(max_pair_value("818181911112111"), 92);
}

#[test]
fn greatest_pair_keeps_the_order_of_the_digits() {
    assert_eq!(max_pair_value("19"), 19);
    assert_eq!(max_pair_value("91"), 91);
    assert_eq!(max_pair_value("109"), 19);
    assert_eq!(max_pair_value("00"), 0);
}

#[test]
fn short_banks_are_worth_nothing() {
    assert_eq!(max_pair_value(""), 0);
    assert_eq!(max_pair_value("7"), 0);
    assert_eq!(max_pair_value("a7b"), 0);
    assert_eq!(best_pair(&vec![]), 0);
    assert_eq!(best_pair(&vec![5]), 0);
}

#[test]
fn other_characters_are_passed_over() {
    assert_eq!(max_pair_value("a1b2c3"), 23);
    assert_eq!(digits(&"a1b2c3".chars().collect()), vec![1, 2, 3]);
    assert_eq!(sanitize(&" 4x5-6 ".chars().collect()), "456");
}

#[test]
fn blank_lines_count_nothing() {
    assert_eq!(part1("12\n\n   \n34\r\n"), Ok("46".to_string()));
    assert_eq!(part1(""), Ok("0".to_string()));
    assert_eq!(sum_with_regex_part1("12\n\n   \n34\r\n"), Ok(46));
    assert_eq!(sum_with_regex_part1(""), Ok(0));
}

#[test]
fn pattern_for_a_pair() {
    assert_eq!(pattern_for(9, 8), "(?s).*9.*8.*");
    assert_eq!(pattern_for(0, 0), "(?s).*0.*0.*");
}

#[test]
fn outcomes_decide_the_pair() {
    assert_eq!(pair_from_outcomes(&vec![]), Ok(0));
    assert_eq!(pair_from_outcomes(&vec![Some(true)]), Ok(99));
    assert_eq!(pair_from_outcomes(&vec![Some(false), Some(true), Some(true)]), Ok(98));
    assert_eq!(pair_from_outcomes(&vec![Some(false), None, Some(true)]), Err(Day03Error::Pattern));
    assert_eq!(pair_from_outcomes(&vec![Some(false); 100]), Ok(0));
    let mut last = vec![Some(false); 99];
    last.push(Some(true));
    assert_eq!(pair_from_outcomes(&last), Ok(0));
    let mut beyond = vec![Some(false); 100];
    beyond.push(Some(true));
    assert_eq!(pair_from_outcomes(&beyond), Ok(0));
}

#[test]
fn regex_pair_agrees_with_the_direct_search() {
    for line in ["987654321111111", "19", "91", "109", "00", "7", "", "a1b2c3", "5050"] {
        let chars: Vec<char> = line.chars().collect();
        assert_eq!(best_pair_regex(&chars), Ok(max_pair_value(line)), "{line}");
    }
}

#[test]
fn battery_example_part2() {
    assert_eq!(part2(EXAMPLE), Ok("3121910778619".to_string()));
}

#[test]
fn greatest_pick_of_each_example_bank() {
    assert_eq!(max_subsequence_value("987654321111111"), 987654321111);
    assert_eq!(max_subsequence_value("811111111111119"), 811111111119);
    assert_eq!(max_subsequence_value("234234234234278"), 434234234278);
    assert_eq!(max_subsequence_value("818181911112111"), 888911112111);
}

#[test]
fn short_banks_are_read_whole() {
    assert_eq!(max_subsequence_value(""), 0);
    assert_eq!(max_subsequence_value("7"), 7);
    assert_eq!(max_subsequence_value("1a2b3"), 123);
    assert_eq!(max_subsequence_value("000000000001"), 1);
    assert_eq!(max_subsequence_value("123456789012"), 123456789012);
    assert_eq!(best_pick(&vec![]), 0);
}

#[test]
fn pick_drops_the_digits_that_cost_most() {
    assert_eq!(max_subsequence_value("1234567890123"), 234567890123);
    assert_eq!(max_subsequence_value("9123456789012"), 923456789012);
    assert_eq!(max_subsequence_value("1111111111119"), 111111111119);
    assert_eq!(max_subsequence_value("9999999999990"), 999999999999);
    assert_eq!(max_subsequence_value("00000000000000000009"), 9);
    assert_eq!(max_subsequence_value("5555555555556555555555555"), 655555555555);
}

#[test]
fn pick_is_the_greatest_of_all_choices() {
    let line = "31415926535897";
    let d: Vec<u64> = line.bytes().map(|b| (b - b'0') as u64).collect();
    let mut best = 0u64;
    for a in 0..d.len() {
        for b in a + 1..d.len() {
            let mut v = 0u64;
            for (i, x) in d.iter().enumerate() {
                if i != a && i != b {
                    v = v * 10 + x;
                }
            }
            best = best.max(v);
        }
    }
    assert_eq!(max_subsequence_value(line), best);
}

#[test]
fn blank_lines_count_nothing_in_the_pick() {
    assert_eq!(part2("12\n\n   \n34\r\n"), Ok("46".to_string()));
    assert_eq!(part2(""), Ok("0".to_string()));
}
