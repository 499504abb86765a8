use cave_risk::grid::{clamp, part2, Cave};
use cave_risk::parse::{parse_cave, ParseError};
use cave_risk::solver::{best_path_through, solve_with_path};

const SAMPLE: &str = "1163751742\n1381373672\n2136511328\n3694931569\n7463417111\n1319128137\n1359912421\n3125421639\n1293138521\n2311944581";

fn sample_cave() -> Cave {
    parse_cave(SAMPLE).unwrap()
}

#[test]
fn test_clamp() {
    assert!(clamp(9 + 1) == 1);
    assert!(clamp(8 + 4) == 3);
    assert!(clamp(8 + 8) == 7);
}

#[test]
fn clamp_stays_in_range_and_wraps_with_period_nine() {
    assert_eq!(clamp(10), 1);
    assert_eq!(clamp(11), 2);
    assert_eq!(clamp(17), 8);
    assert_eq!(clamp(18), 9);
    assert_eq!(clamp(19), 1);
    for v in 1..=9u8 {
        for k in 0..=4u8 {
            for l in 0..=4u8 {
                let w = clamp(v + k + l);
                assert!((1..=9).contains(&w));
                assert_eq!(clamp(v + k + l + 9), w);
            }
        }
    }
}

#[test]
fn two_by_two_of_ones_costs_two() {
    let cave = parse_cave("11\n11").unwrap();
    assert_eq!(best_path_through(&cave), 2);
}

#[test]
fn single_cell_grid_costs_zero() {
    let cave = parse_cave("5").unwrap();
    assert_eq!(best_path_through(&cave), 0);
    let (total, path) = solve_with_path(&cave);
    assert_eq!(total, 0);
    assert_eq!(path, vec![(0, 0)]);
}

#[test]
fn larger_grids_cost_more_than_zero() {
    let cave = parse_cave("12\n21").unwrap();
    assert_eq!(best_path_through(&cave), 3);
}

#[test]
fn sample_grid_costs_forty() {
    let cave = sample_cave();
    assert_eq!(best_path_through(&cave), 40);
}

#[test]
fn expanded_sample_grid_costs_three_hundred_fifteen() {
    let cave = sample_cave();
    let big = part2(&cave);
    assert_eq!(big.rows(), 50);
    assert_eq!(big.cols(), 50);
    assert_eq!(best_path_through(&big), 315);
}

#[test]
fn expansion_is_deterministic_and_leaves_the_input_unchanged() {
    let cave = sample_cave();
    let first = part2(&cave);
    let second = part2(&cave);
    assert_eq!(first.rows(), second.rows());
    assert_eq!(first.cols(), second.cols());
    for i in 0..first.rows() {
        for j in 0..first.cols() {
            assert_eq!(first.get(i, j), second.get(i, j));
        }
    }
    // the input still parses-equal to a fresh copy and solves the same
    let fresh = sample_cave();
    assert_eq!(cave.rows(), fresh.rows());
    assert_eq!(cave.cols(), fresh.cols());
    for i in 0..cave.rows() {
        for j in 0..cave.cols() {
            assert_eq!(cave.get(i, j), fresh.get(i, j));
        }
    }
    assert_eq!(best_path_through(&cave), 40);
}

#[test]
fn expansion_applies_the_wrapping_increment_per_tile() {
    let cave = parse_cave("8").unwrap();
    let big = part2(&cave);
    assert_eq!(big.rows(), 5);
    assert_eq!(big.cols(), 5);
    for k in 0..5u8 {
        for l in 0..5u8 {
            assert_eq!(big.get(k as usize, l as usize), clamp(8 + k + l));
        }
    }
    assert_eq!(big.get(0, 0), 8);
    assert_eq!(big.get(0, 1), 9);
    assert_eq!(big.get(0, 2), 1);
    assert_eq!(big.get(4, 4), 7);
}

#[test]
fn parse_reads_rows_of_digits_and_skips_blank_lines() {
    let cave = parse_cave("12\n34\n").unwrap();
    assert_eq!(cave.rows(), 2);
    assert_eq!(cave.cols(), 2);
    assert_eq!(cave.get(0, 0), 1);
    assert_eq!(cave.get(0, 1), 2);
    assert_eq!(cave.get(1, 0), 3);
    assert_eq!(cave.get(1, 1), 4);
    let skipping = parse_cave("\n12\n\n34\n\n").unwrap();
    assert_eq!(skipping.rows(), 2);
    assert_eq!(skipping.get(1, 0), 3);
}

#[test]
fn parse_rejects_bad_characters() {
    assert_eq!(parse_cave("1x\n11").unwrap_err(), ParseError::InvalidCharacter);
    assert_eq!(parse_cave("10").unwrap_err(), ParseError::InvalidCharacter);
    assert_eq!(parse_cave("1 2").unwrap_err(), ParseError::InvalidCharacter);
}

#[test]
fn parse_rejects_texts_without_any_row() {
    assert_eq!(parse_cave("").unwrap_err(), ParseError::EmptyGrid);
    assert_eq!(parse_cave("\n\n").unwrap_err(), ParseError::EmptyGrid);
}

#[test]
fn parse_rejects_jagged_rows() {
    assert_eq!(parse_cave("1\n22").unwrap_err(), ParseError::UnevenRows);
    assert_eq!(parse_cave("123\n12\n123").unwrap_err(), ParseError::UnevenRows);
}

#[test]
fn reconstructed_path_is_consistent_with_the_total() {
    let cave = sample_cave();
    let (total, path) = solve_with_path(&cave);
    assert_eq!(total, best_path_through(&cave));
    assert_eq!(total, 40);
    assert_eq!(path[0], (0, 0));
    assert_eq!(path[path.len() - 1], (9, 9));
    let mut summed: usize = 0;
    for w in path.windows(2) {
        let (ai, aj) = w[0];
        let (bi, bj) = w[1];
        let row_step = (ai as i64 - bi as i64).abs();
        let col_step = (aj as i64 - bj as i64).abs();
        assert_eq!(row_step + col_step, 1);
        summed += cave.get(bi, bj) as usize;
    }
    assert_eq!(summed, total);
}
