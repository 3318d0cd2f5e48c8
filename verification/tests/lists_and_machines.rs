//! Tests for the list-similarity, towel-tiling, and claw-machine modules.

use advent_puzzles::day01::count_elements;
use advent_puzzles::day13::{solve, ClawMachine};
use advent_puzzles::day14::{check_field, construct_field, Robot};
use advent_puzzles::day19::{can_tokenize, count_tokenization};

#[test]
fn similarity_table() {
    let l1 = vec![3, 4, 2, 1, 3, 3];
    let l2 = vec![4, 3, 5, 3, 9, 3];
    let table = count_elements(&l1, &l2);
    let lookup = |v: i32| table.iter().find(|p| p.0 == v).map(|p| p.1);
    assert_eq!(lookup(3), Some(9));
    assert_eq!(lookup(4), Some(1));
    assert_eq!(lookup(2), Some(0));
    assert_eq!(lookup(1), Some(0));
    assert_eq!(table.len(), 4);
    let score: i32 = table.iter().map(|p| p.0 * p.1).sum();
    assert_eq!(score, 31);
}

fn towel_patterns() -> Vec<String> {
    ["r", "wr", "b", "g", "bwu", "rb", "gb", "br"]
        .iter()
        .map(|s| s.to_string())
        .collect()
}

#[test]
fn towel_tilings() {
    let ps = towel_patterns();
    assert!(can_tokenize("brwrr", &ps));
    assert!(can_tokenize("bggr", &ps));
    assert!(can_tokenize("gbbr", &ps));
    assert!(can_tokenize("rrbgbr", &ps));
    assert!(!can_tokenize("ubwu", &ps));
    assert!(can_tokenize("bwurrg", &ps));
    assert!(can_tokenize("brgr", &ps));
    assert!(!can_tokenize("bbrgwb", &ps));
    assert_eq!(count_tokenization("brwrr", &ps), 2);
    assert_eq!(count_tokenization("bggr", &ps), 1);
    assert_eq!(count_tokenization("gbbr", &ps), 4);
    assert_eq!(count_tokenization("rrbgbr", &ps), 6);
    assert_eq!(count_tokenization("ubwu", &ps), 0);
    assert_eq!(count_tokenization("bwurrg", &ps), 1);
    assert_eq!(count_tokenization("brgr", &ps), 2);
    assert_eq!(count_tokenization("bbrgwb", &ps), 0);
    assert_eq!(count_tokenization("", &ps), 1);
}

fn machine(a: (isize, isize), b: (isize, isize), prize: (isize, isize)) -> ClawMachine {
    ClawMachine {
        a_x: a.0,
        a_y: a.1,
        b_x: b.0,
        b_y: b.1,
        prize_x: prize.0,
        prize_y: prize.1,
    }
}

#[test]
fn claw_machines() {
    let machines = [
        machine((94, 34), (22, 67), (8400, 5400)),
        machine((26, 66), (67, 21), (12748, 12176)),
        machine((17, 86), (84, 37), (7870, 6450)),
        machine((69, 23), (27, 71), (18641, 10279)),
    ];
    assert_eq!(solve(&machines[0]), Some((80, 40)));
    assert_eq!(solve(&machines[1]), None);
    assert_eq!(solve(&machines[2]), Some((38, 86)));
    assert_eq!(solve(&machines[3]), None);
    let total: i128 = machines
        .iter()
        .filter_map(|m| solve(m))
        .map(|(a, b)| a * 3 + b)
        .sum();
    assert_eq!(total, 480);
}

#[test]
fn occupancy_field_and_picture_detector() {
    let robots = vec![
        Robot { position: (7, 9), velocity: (0, 0) },
        Robot { position: (7, 9), velocity: (0, 0) },
        Robot { position: (0, 0), velocity: (0, 0) },
    ];
    let field = construct_field(&robots);
    assert_eq!(field.len(), 103);
    assert_eq!(field[0].len(), 101);
    assert_eq!(field[9][7], 2);
    assert_eq!(field[0][0], 1);
    assert_eq!(field[1][1], 0);
    assert!(!check_field(&field));
    let mut tall = vec![vec![0; 101]; 103];
    for y in 40..61 {
        tall[y][33] = 1;
    }
    assert!(check_field(&tall));
    let mut broken = tall.clone();
    broken[50][33] = 0;
    assert!(!check_field(&broken));
}

use advent_puzzles::day07::{check_tests, check_value, construct_res};
use advent_puzzles::day08::{gcd, get_antinodes, get_line_points_in_bounds, Point};
use advent_puzzles::day18::get_neighbors;

fn calibration_lines() -> Vec<(i64, Vec<i64>)> {
    vec![
        (190, vec![10, 19]),
        (3267, vec![81, 40, 27]),
        (83, vec![17, 5]),
        (156, vec![15, 6]),
        (7290, vec![6, 8, 6, 15]),
        (161011, vec![16, 10, 13]),
        (192, vec![17, 8, 14]),
        (21037, vec![9, 7, 18, 13]),
        (292, vec![11, 6, 16, 20]),
    ]
}

#[test]
fn calibration_sums() {
    let lines = calibration_lines();
    assert_eq!(check_tests(&lines, false), 3749);
    assert_eq!(check_tests(&lines, true), 11387);
}

#[test]
fn calibration_single_lines() {
    assert!(check_value(&190, &vec![10, 19], false));
    assert!(!check_value(&83, &vec![17, 5], false));
    assert!(!check_value(&156, &vec![15, 6], false));
    assert!(check_value(&156, &vec![15, 6], true));
    assert!(check_value(&7290, &vec![6, 8, 6, 15], true));
    assert!(!check_value(&21037, &vec![9, 7, 18, 13], true));
    assert!(!check_value(&5, &Vec::new(), true));
    assert!(construct_res(10, 1, &vec![10, 19], 190, false));
    assert!(!construct_res(10, 1, &vec![10, 19], 191, false));
}

#[test]
fn greatest_common_divisors() {
    assert_eq!(gcd(12, 18), 6);
    assert_eq!(gcd(-4, 6), 2);
    assert_eq!(gcd(0, 5), 5);
    assert_eq!(gcd(7, 0), 7);
    assert_eq!(gcd(-9, -6), 3);
}

#[test]
fn antinode_pairs() {
    let p1 = Point { x: 4, y: 3 };
    let p2 = Point { x: 5, y: 5 };
    assert_eq!(get_antinodes(&p1, &p2, 12, 12), vec![(1, 3), (7, 6)]);
    let q1 = Point { x: 0, y: 0 };
    let q2 = Point { x: 3, y: 1 };
    assert_eq!(get_antinodes(&q1, &q2, 12, 12), vec![(2, 6)]);
    assert_eq!(get_antinodes(&q1, &q2, 2, 2), Vec::<(usize, usize)>::new());
}

#[test]
fn open_neighbours() {
    let mut field = [[0i32; 71]; 71];
    assert_eq!(get_neighbors(&field, 0, 0), vec![(1, 0), (0, 1)]);
    assert_eq!(
        get_neighbors(&field, 5, 5),
        vec![(6, 5), (4, 5), (5, 6), (5, 4)]
    );
    field[0][1] = i32::MAX;
    assert_eq!(get_neighbors(&field, 0, 0), vec![(0, 1)]);
    assert_eq!(get_neighbors(&field, 70, 70), vec![(69, 70), (70, 69)]);
}

#[test]
fn line_points_on_grid() {
    let p1 = Point { x: 4, y: 3 };
    let p2 = Point { x: 6, y: 4 };
    // Reduced step (2, 1): forward 6,4 / 8,5 / 10,6; backward 2,2 / 0,1.
    let pts = get_line_points_in_bounds(&p1, &p2, 12, 12);
    let coords: Vec<(usize, usize)> = pts.iter().map(|p| (p.x, p.y)).collect();
    assert_eq!(
        coords,
        vec![(6, 4), (8, 5), (10, 6), (2, 2), (0, 1)]
    );
    // A vertical pair walks the whole column.
    let q1 = Point { x: 3, y: 1 };
    let q2 = Point { x: 3, y: 3 };
    let qs = get_line_points_in_bounds(&q1, &q2, 5, 5);
    let qcoords: Vec<(usize, usize)> = qs.iter().map(|p| (p.x, p.y)).collect();
    assert_eq!(qcoords, vec![(3, 2), (3, 3), (3, 4), (3, 0)]);
}
