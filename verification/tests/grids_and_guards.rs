//! Tests for the smaller puzzle modules.

use advent_puzzles::day02::is_safe;
use advent_puzzles::day04::{can_match, count_x_mas, count_xmas};
use advent_puzzles::day06::Guard;
use advent_puzzles::day10::check_valid_path;
use advent_puzzles::day10::Point as TrailPoint;
use advent_puzzles::day09::{
    calculate_checksum, calculate_new_checksum, construct_disk_map, find_leftmost_free_span,
};
use advent_puzzles::day12;
use advent_puzzles::day14::{check_quadrants, move_robots, Robot};
use advent_puzzles::day15;
use advent_puzzles::day16;
use advent_puzzles::day16::Direction as MazeDirection;
use advent_puzzles::day17::{Instruction, Opcode};
use advent_puzzles::day24::Operator;
use advent_puzzles::day25::{check_all_locks, check_pins, Input, Lock};

#[test]
fn safe_reports() {
    assert!(is_safe(&vec![7, 6, 4, 2, 1]));
    assert!(!is_safe(&vec![1, 2, 7, 8, 9]));
    assert!(!is_safe(&vec![9, 7, 6, 2, 1]));
    assert!(!is_safe(&vec![1, 3, 2, 4, 5]));
    assert!(!is_safe(&vec![8, 6, 4, 4, 1]));
    assert!(is_safe(&vec![1, 3, 6, 7, 9]));
    assert!(is_safe(&Vec::new()));
}

const XMAS_GRID: &str = "MMMSXXMASM
MSAMXMSMSA
AMXSXMAAMM
MSAMASMSMX
XMASAMXAMM
XXAMMXXAMA
SMSMSASXSS
SAXAMASAAA
MAMMMXMMMM
MXMXAXMASX";

fn grid_of(s: &str) -> Vec<Vec<char>> {
    s.lines().map(|l| l.chars().collect()).collect()
}

#[test]
fn word_search_counts() {
    let grid = grid_of(XMAS_GRID);
    assert_eq!(count_xmas(&grid), 18);
    assert_eq!(count_x_mas(&grid), 9);
}

#[test]
fn straight_line_match() {
    let grid = grid_of("XMAS\nAAAA");
    let word: Vec<char> = "XMAS".chars().collect();
    assert!(can_match(&grid, &word, 0, 0, 0, 1));
    assert!(!can_match(&grid, &word, 0, 0, 1, 0));
    assert!(!can_match(&grid, &word, 0, 1, 0, 1));
}

#[test]
fn guard_moves() {
    let mut g = Guard { pos: (5, 5), dir: (-1, 0) };
    assert_eq!(g.next_pos(), (4, 5));
    g.make_move();
    assert_eq!(g.pos, (4, 5));
    g.turn_right();
    assert_eq!(g.dir, (0, 1));
    g.turn_right();
    assert_eq!(g.dir, (1, 0));
    g.turn_right();
    assert_eq!(g.dir, (0, -1));
    g.turn_right();
    assert_eq!(g.dir, (-1, 0));
    // Stepping off the top edge wraps to a huge coordinate, which any
    // bounds check then rejects.
    let mut top = Guard { pos: (0, 3), dir: (-1, 0) };
    top.make_move();
    assert_eq!(top.pos, (usize::MAX, 3));
}

#[test]
fn disk_map_construction() {
    let disk = construct_disk_map(&vec![1, 2, 3]);
    assert_eq!(
        disk,
        vec![Some(0), None, None, Some(1), Some(1), Some(1)]
    );
    let sample = construct_disk_map(&vec![2, 3, 3]);
    assert_eq!(sample.len(), 8);
    assert_eq!(sample[0], Some(0));
    assert_eq!(sample[2], None);
    assert_eq!(sample[5], Some(1));
}

#[test]
fn disk_checksums() {
    // 0 * 0 + 1 * 0 + 2 * 1 + 3 * 1 = 5
    let compact = vec![Some(0), Some(0), Some(1), Some(1)];
    assert_eq!(calculate_checksum(&compact), 5);
    let sparse = vec![Some(2), None, Some(1)];
    assert_eq!(calculate_new_checksum(&sparse), 2);
}

#[test]
fn leftmost_free_span() {
    let spans = vec![(0usize, 1usize), (2, 3), (8, 4)];
    assert_eq!(find_leftmost_free_span(&spans, 10, 2), Some(1));
    assert_eq!(find_leftmost_free_span(&spans, 10, 1), Some(0));
    assert_eq!(find_leftmost_free_span(&spans, 1, 1), Some(0));
    assert_eq!(find_leftmost_free_span(&spans, 0, 1), None);
    assert_eq!(find_leftmost_free_span(&spans, 10, 5), None);
}

#[test]
fn plot_rotations() {
    assert_eq!(day12::rot_90(day12::Direction::Up), day12::Direction::Right);
    assert_eq!(day12::rot_90(day12::Direction::Right), day12::Direction::Down);
    assert_eq!(day12::rot_270(day12::Direction::Up), day12::Direction::Left);
    assert_eq!(day12::rot_270(day12::Direction::Left), day12::Direction::Down);
}

#[test]
fn plant_lookup() {
    let grid = vec![vec!['A', 'B'], vec!['C', 'D']];
    assert_eq!(day12::get_plant_type(1, 0, &grid), Some('B'));
    assert_eq!(day12::get_plant_type(0, 1, &grid), Some('C'));
    assert_eq!(day12::get_plant_type(2, 0, &grid), None);
    assert_eq!(day12::get_plant_type(0, 2, &grid), None);
}

#[test]
fn robots_wrap_and_census() {
    let mut robots = vec![
        Robot { position: (0, 0), velocity: (-1, -1) },
        Robot { position: (100, 102), velocity: (1, 1) },
        Robot { position: (2, 4), velocity: (2, -3) },
    ];
    move_robots(&mut robots);
    assert_eq!(robots[0].position, (100, 102));
    assert_eq!(robots[1].position, (0, 0));
    assert_eq!(robots[2].position, (4, 1));
    // One robot per quadrant multiplies to one; an empty quadrant zeroes
    // the product.
    let mut spread = vec![
        Robot { position: (60, 60), velocity: (0, 0) },
        Robot { position: (10, 60), velocity: (0, 0) },
        Robot { position: (10, 10), velocity: (0, 0) },
        Robot { position: (60, 10), velocity: (0, 0) },
    ];
    assert_eq!(check_quadrants(&mut spread), 1);
    let mut lopsided = vec![
        Robot { position: (60, 60), velocity: (0, 0) },
        Robot { position: (50, 51), velocity: (0, 0) },
    ];
    assert_eq!(check_quadrants(&mut lopsided), 0);
}

#[test]
fn warehouse_tiles() {
    assert_eq!(day15::Direction::from_char('^'), day15::Direction::Up);
    assert_eq!(day15::Direction::from_char('>'), day15::Direction::Right);
    assert_eq!(day15::TileType::from_char('#'), day15::TileType::Wall);
    assert_eq!(day15::TileType::from_char('['), day15::TileType::BoxLeft);
    assert_eq!(day15::scale_up('O'), vec!['[', ']']);
    assert_eq!(day15::scale_up('@'), vec!['@', '.']);
    assert_eq!(day15::scale_up('x'), vec!['x']);
    assert_eq!(day15::get_next_position((3, 3), &day15::Direction::Up), (3, 2));
    assert_eq!(day15::get_next_position((0, 0), &day15::Direction::Left), (0, 0));
    let map = vec![
        vec![day15::TileType::Empty, day15::TileType::Box],
        vec![day15::TileType::BoxLeft, day15::TileType::Wall],
    ];
    assert!(day15::is_within_bounds(&map, 1, 1));
    assert!(!day15::is_within_bounds(&map, 2, 0));
    // Box at (x=1, y=0) and box-left at (x=0, y=1): 1 + 100 = 101.
    assert_eq!(day15::calculate_box_coords_sum(&map), 101);
}

#[test]
fn maze_directions() {
    let all = MazeDirection::list_all();
    assert_eq!(
        all,
        [
            MazeDirection::North,
            MazeDirection::East,
            MazeDirection::South,
            MazeDirection::West
        ]
    );
    assert_eq!(MazeDirection::from_dxy(0, -1), MazeDirection::North);
    assert_eq!(MazeDirection::from_dxy(1, 0), MazeDirection::East);
    assert_eq!(MazeDirection::North.turn_cost(MazeDirection::North), 1);
    assert_eq!(MazeDirection::North.turn_cost(MazeDirection::West), 1001);
    assert_eq!(MazeDirection::South.to_index(), 2);
    assert_eq!(
        day16::index_of(2, 1, MazeDirection::East, 15),
        (1 * 15 + 2) * 4 + 1
    );
}

#[test]
fn opcode_decoding() {
    assert_eq!(Opcode::from_i32(0), Some(Opcode::ADV));
    assert_eq!(Opcode::from_i32(5), Some(Opcode::OUT));
    assert_eq!(Opcode::from_i32(7), Some(Opcode::CDV));
    assert_eq!(Opcode::from_i32(8), None);
    assert_eq!(Opcode::from_i32(-1), None);
    let ins = Instruction { reg_a: 9, reg_b: 11, reg_c: 13, opcode: Opcode::BST, operand: 6 };
    assert_eq!(ins.match_combo_operand(), 13);
    let lit = Instruction { reg_a: 9, reg_b: 11, reg_c: 13, opcode: Opcode::BST, operand: 2 };
    assert_eq!(lit.match_combo_operand(), 2);
}

#[test]
fn keys_and_locks() {
    let lock = Lock { pins: vec![0, 5, 3, 4, 3] };
    let key_a = Lock { pins: vec![5, 0, 2, 1, 3] };
    let key_b = Lock { pins: vec![4, 3, 4, 0, 2] };
    let key_c = Lock { pins: vec![3, 0, 2, 0, 1] };
    assert!(!check_pins(&key_a, &lock));
    assert!(!check_pins(&key_b, &lock));
    assert!(check_pins(&key_c, &lock));
    let inp = Input {
        keys: vec![key_a, key_b, key_c],
        locks: vec![lock, Lock { pins: vec![1, 2, 0, 5, 3] }],
    };
    assert_eq!(check_all_locks(&inp), 3);
}

#[test]
fn hiking_trails() {
    let rows = [
        "89010123", "78121874", "87430965", "96549874", "45678903", "32019012", "01329801",
        "10456732",
    ];
    let geomap: Vec<Vec<u32>> = rows
        .iter()
        .map(|r| r.chars().map(|c| c.to_digit(10).unwrap()).collect())
        .collect();
    let mut total_score = 0usize;
    let mut total_rating = 0usize;
    for (y, row) in geomap.iter().enumerate() {
        for (x, &h) in row.iter().enumerate() {
            if h == 0 {
                let ends = check_valid_path(&vec![TrailPoint(x, y)], 0, &geomap);
                total_rating += ends.len();
                let mut unique = ends.clone();
                unique.sort_by_key(|p| (p.0, p.1));
                unique.dedup();
                total_score += unique.len();
            }
        }
    }
    assert_eq!(total_score, 36);
    assert_eq!(total_rating, 81);
}

#[test]
fn plot_edges() {
    let grid = grid_of("AAB\nABB");
    let s = day12::check_edges(0, 0, 'A', &grid);
    assert_eq!(
        s,
        day12::Sides { up: true, down: false, left: true, right: false }
    );
    let s2 = day12::check_edges(1, 0, 'A', &grid);
    assert_eq!(
        s2,
        day12::Sides { up: true, down: true, left: false, right: true }
    );
    let s3 = day12::check_edges(2, 1, 'B', &grid);
    assert_eq!(
        s3,
        day12::Sides { up: false, down: true, left: false, right: true }
    );
}

#[test]
fn wire_logic() {
    assert_eq!(Operator::from_str("AND"), Operator::AND);
    assert_eq!(Operator::from_str("OR"), Operator::OR);
    assert_eq!(Operator::from_str("XOR"), Operator::XOR);
    assert_eq!(Operator::AND.apply(1, 0), 0);
    assert_eq!(Operator::OR.apply(1, 0), 1);
    assert_eq!(Operator::XOR.apply(1, 1), 0);
    assert_eq!(Operator::XOR.apply(0b1100, 0b1010), 0b0110);
}
