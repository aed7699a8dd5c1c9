use aoc25::days::day01::dial::{part1, part2, simulate, zero_hits_during_rotation, Day01Error};
use aoc25::days::day01::rotations::{parse_rotations, RotationError, RotationLineError};

const TURNS: &str = "L68\nL30\nR48\nL5\nR60\nL55\nL1\nL99\nR14\nL82\n";

#[test]
fn dial_turns_and_counts() {
    assert_eq!(part1(TURNS), Ok("3".to_string()));
    assert_eq!(part2(TURNS), Ok("6".to_string()));
    let rotations = parse_rotations(TURNS).unwrap();
    assert_eq!(rotations.len(), 10);
    assert_eq!(rotations[0], ('L', 68));
    assert_eq!(simulate(&rotations), Some((3, 32, 6)));
}

#[test]
fn clicks_on_zero_during_one_rotation() {
    assert_eq!(zero_hits_during_rotation(50, 'L', 0), 0);
    assert_eq!(zero_hits_during_rotation(50, 'L', 49), 0);
    assert_eq!(zero_hits_during_rotation(50, 'L', 50), 1);
    assert_eq!(zero_hits_during_rotation(50, 'L', 149), 1);
    assert_eq!(zero_hits_during_rotation(50, 'L', 150), 2);
    assert_eq!(zero_hits_during_rotation(50, 'R', 50), 1);
    assert_eq!(zero_hits_during_rotation(0, 'R', 99), 0);
    assert_eq!(zero_hits_during_rotation(0, 'R', 100), 1);
    assert_eq!(zero_hits_during_rotation(0, 'L', 1000), 10);
    assert_eq!(zero_hits_during_rotation(1, 'L', 1000), 10);
    assert_eq!(zero_hits_during_rotation(99, 'R', 1), 1);
    assert_eq!(zero_hits_during_rotation(7, 'R', i64::MAX), 92233720368547758);
}

#[test]
fn rotations_are_read_line_by_line() {
    let rotations = parse_rotations("  l5 \n\nR 12\nr+0\n").unwrap();
    assert_eq!(rotations, vec![('L', 5), ('R', 12), ('R', 0)]);
    assert!(parse_rotations("").unwrap().is_empty());
    let err = |text: &str| parse_rotations(text).unwrap_err();
    assert_eq!(
        err("L1\nX2"),
        RotationLineError { line_index: 1, error: RotationError::UnknownDirection }
    );
    assert_eq!(
        err("L1\n\nR"),
        RotationLineError { line_index: 2, error: RotationError::InvalidDistance }
    );
    assert_eq!(
        err("Rx"),
        RotationLineError { line_index: 0, error: RotationError::InvalidDistance }
    );
    assert_eq!(
        err("L-3"),
        RotationLineError { line_index: 0, error: RotationError::NegativeDistance }
    );
    assert_eq!(
        part1("L1\nQ"),
        Err(Day01Error::Parse(RotationLineError {
            line_index: 1,
            error: RotationError::UnknownDirection
        }))
    );
}

#[test]
fn long_rotations_do_not_overflow() {
    let text = format!("R{}\nL{}\n", i64::MAX, i64::MAX);
    assert_eq!(part1(&text), Ok("0".to_string()));
    assert_eq!(part2(&text), Ok("184467440737095516".to_string()));
    assert_eq!(part1("R50\nL100\nR300"), Ok("3".to_string()));
    assert_eq!(part2("R50\nL100\nR300"), Ok("5".to_string()));
}
