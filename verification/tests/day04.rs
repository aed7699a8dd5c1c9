use aoc25::days::day04::removal::{part1, part2, peel};
use aoc25::days::day04::rolls::{count_accessible, count_neighbors, parse_grid, roll_near};

const EXAMPLE: &str = "..@@.@@@@.\n@@@.@.@.@@\n@@@@@.@.@@\n@.@@@@..@.\n@@.@@@@.@@\n.@@@@@@@.@\n.@.@.@.@@@\n@.@@@.@@@@\n.@@@@@@@@.\n@.@.@@@.@.\n";

fn around(grid: &[Vec<bool>], y: usize, x: usize) -> usize {
    let mut n = 0;
    for dy in -1i64..=1 {
        for dx in -1i64..=1 {
            let (ny, nx) = (y as i64 + dy, x as i64 + dx);
            if (dy, dx) != (0, 0) && ny >= 0 && nx >= 0 {
                if let Some(row) = grid.get(ny as usize) {
                    if row.get(nx as usize) == Some(&true) {
                        n += 1;
                    }
                }
            }
        }
    }
    n
}

fn peel_by_rounds(mut grid: Vec<Vec<bool>>) -> (Vec<Vec<bool>>, u128) {
    let mut removed = 0;
    loop {
        let mut gone = Vec::new();
        for y in 0..grid.len() {
            for x in 0..grid[y].len() {
                if grid[y][x] && around(&grid, y, x) < 4 {
                    gone.push((y, x));
                }
            }
        }
        if gone.is_empty() {
            return (grid, removed);
        }
        for (y, x) in gone {
            grid[y][x] = false;
            removed += 1;
        }
    }
}

#[test]
fn rolls_example_part1() {
    assert_eq!(part1(EXAMPLE), Ok("13".to_string()));
}

#[test]
fn rolls_example_part2() {
    assert_eq!(part2(EXAMPLE), Ok("43".to_string()));
}

#[test]
fn grid_is_read_line_by_line() {
    assert_eq!(parse_grid("@.\n\n  \n.@@\r\n"), vec![vec![true, false], vec![false, true, true]]);
    assert_eq!(parse_grid(" @x@ \n"), vec![vec![false, true, false, true, false]]);
    assert_eq!(parse_grid(""), Vec::<Vec<bool>>::new());
}

#[test]
fn neighbours_are_counted_on_eight_places() {
    let grid = parse_grid("@@@\n@@@\n@@@\n");
    assert_eq!(count_neighbors(&grid, 1, 1), 8);
    assert_eq!(count_neighbors(&grid, 0, 0), 3);
    assert_eq!(count_neighbors(&grid, 0, 1), 5);
    assert_eq!(count_neighbors(&grid, 2, 2), 3);
    let ragged = parse_grid("@\n@@@\n.@\n");
    assert_eq!(count_neighbors(&ragged, 1, 1), 4);
    assert_eq!(count_neighbors(&ragged, 1, 2), 2);
    assert_eq!(count_neighbors(&ragged, 0, 0), 2);
    assert!(roll_near(&ragged, 1, 1, 0, 0));
    assert!(!roll_near(&ragged, 1, 1, 0, 1));
    assert!(!roll_near(&ragged, 0, 0, 0, 0));
    assert!(roll_near(&ragged, 1, 1, 2, 1));
    assert!(!roll_near(&ragged, 1, 1, 2, 2));
}

#[test]
fn accessible_rolls_agree_with_a_direct_count() {
    for text in [EXAMPLE, "@@@\n@@@\n@@@\n", "@\n@@@\n.@\n", "", "....\n", "@@@@@\n@@@@@\n@@@@@\n@@@@@\n"] {
        let grid = parse_grid(text);
        let mut expected = 0u128;
        for y in 0..grid.len() {
            for x in 0..grid[y].len() {
                if grid[y][x] && around(&grid, y, x) < 4 {
                    expected += 1;
                }
            }
        }
        assert_eq!(count_accessible(&grid), expected, "{text:?}");
    }
}

#[test]
fn peeling_leaves_the_greatest_stable_part() {
    for text in [
        EXAMPLE,
        "@@@\n@@@\n@@@\n",
        "@@@@@\n@@@@@\n@@@@@\n@@@@@\n",
        "@@@@@@\n@@@@@@\n@@@@@@\n@@@@@@\n@@@@@@\n",
        "@\n@@@\n.@\n",
        "",
        ".@@@.\n@@@@@\n@@@@@\n@@@@@\n.@@@.\n",
    ] {
        let mut grid = parse_grid(text);
        let (left, expected) = peel_by_rounds(grid.clone());
        assert_eq!(peel(&mut grid), expected, "{text:?}");
        assert_eq!(grid, left, "{text:?}");
        for y in 0..grid.len() {
            for x in 0..grid[y].len() {
                assert!(!grid[y][x] || around(&grid, y, x) >= 4);
            }
        }
    }
}

#[test]
fn a_full_block_loses_its_corners() {
    let mut grid = parse_grid("@@@@\n@@@@\n@@@@\n@@@@\n");
    assert_eq!(peel(&mut grid), 4);
    assert_eq!(grid, parse_grid(".@@.\n@@@@\n@@@@\n.@@.\n"));
    let mut large = parse_grid("@@@@@\n@@@@@\n@@@@@\n@@@@@\n@@@@@\n");
    let removed = peel(&mut large);
    assert_eq!(removed, 25 - large.iter().flatten().filter(|b| **b).count() as u128);
    assert_eq!(part2("@@\n@@\n"), Ok("4".to_string()));
    assert_eq!(part1("@@\n@@\n"), Ok("4".to_string()));
    assert_eq!(part1(""), Ok("0".to_string()));
    assert_eq!(part2(""), Ok("0".to_string()));
}
