//! Tests for the keypad command synthesizer.

use advent_puzzles::day21::SolveError;
use advent_puzzles::day21::{
    find_seq_len, find_seq_len_direct, gen_paths, get_max_consecutive_sequences, get_seq_count,
    get_seq_len, parse_inputs, part1, part2, solve, ArrowPad, CostCache, DirectionMap, NumericPad,
};

const TEST_INPUT: &str = "029A\n980A\n179A\n456A\n379A\n";

const DIR_BUTTONS: [char; 5] = ['A', '^', 'v', '<', '>'];

const NUM_BUTTONS: [char; 11] = ['A', '0', '1', '2', '3', '4', '5', '6', '7', '8', '9'];

fn dir_pos(b: char) -> (usize, usize) {
    match b {
        '^' => (0, 1),
        'A' => (0, 2),
        '<' => (1, 0),
        'v' => (1, 1),
        '>' => (1, 2),
        _ => panic!("not a directional button"),
    }
}

#[test]
fn day21_test_part1() {
    let inp = parse_inputs(TEST_INPUT);
    assert_eq!(part1(&inp), Ok(126384));
}

#[test]
fn full_chain_aggregate() {
    let inp = parse_inputs(TEST_INPUT);
    assert_eq!(part2(&inp), Ok(154115708116294));
    // The aggregate is a pure function of the codes: a second run agrees,
    // and the deeper chain costs at least as much as the short one.
    assert_eq!(part2(&inp), Ok(154115708116294));
    assert!(part2(&inp).unwrap() >= part1(&inp).unwrap());
}

#[test]
fn single_code_at_depth_two() {
    let codes = vec!["029A".to_string()];
    assert_eq!(solve(&codes, 2), Ok(29 * 68));
}

#[test]
fn malformed_code_is_rejected() {
    let codes = vec!["02XA".to_string()];
    assert_eq!(solve(&codes, 2), Err(SolveError::InvalidCodeSymbol));
    let no_activate = vec!["029".to_string()];
    assert_eq!(solve(&no_activate, 2), Err(SolveError::InvalidCodeSymbol));
}

#[test]
fn adjacent_pair_has_single_path() {
    let mut pad = NumericPad::new();
    let seqs = pad.find_shortest_seq('0');
    assert_eq!(seqs, vec![vec!['<', 'A']]);
}

#[test]
fn enumerator_never_crosses_the_gap() {
    // Numeric pad: gap at (3, 0) on a 4 x 3 grid.
    for &from in NUM_BUTTONS.iter() {
        for &to in NUM_BUTTONS.iter() {
            let (fr, fc) = NumericPad::char_map(from);
            let (tr, tc) = NumericPad::char_map(to);
            let walks = gen_paths(fr, fc, tr, tc, 3, 0, 4, 3);
            assert!(!walks.is_empty());
            for walk in &walks {
                check_walk(walk, (fr, fc), (tr, tc), (3, 0), (4, 3));
            }
        }
    }
    // Directional pad: gap at (0, 0) on a 2 x 3 grid.
    for &from in DIR_BUTTONS.iter() {
        for &to in DIR_BUTTONS.iter() {
            let (fr, fc) = dir_pos(from);
            let (tr, tc) = dir_pos(to);
            let walks = gen_paths(fr, fc, tr, tc, 0, 0, 2, 3);
            assert!(!walks.is_empty());
            for walk in &walks {
                check_walk(walk, (fr, fc), (tr, tc), (0, 0), (2, 3));
            }
        }
    }
}

fn check_walk(
    walk: &[char],
    from: (usize, usize),
    to: (usize, usize),
    gap: (usize, usize),
    dims: (usize, usize),
) {
    let mut r = from.0 as i64;
    let mut c = from.1 as i64;
    for &ch in walk {
        match ch {
            '^' => r -= 1,
            'v' => r += 1,
            '<' => c -= 1,
            '>' => c += 1,
            _ => panic!("unexpected symbol {ch}"),
        }
        assert!(r >= 0 && c >= 0 && r < dims.0 as i64 && c < dims.1 as i64);
        assert!((r, c) != (gap.0 as i64, gap.1 as i64));
    }
    assert_eq!((r, c), (to.0 as i64, to.1 as i64));
    let dist = (from.0 as i64 - to.0 as i64).abs() + (from.1 as i64 - to.1 as i64).abs();
    assert_eq!(walk.len() as i64, dist);
}

#[test]
fn routing_table_entries_are_minimal_paths() {
    let pad = ArrowPad::new();
    for &from in DIR_BUTTONS.iter() {
        for &to in DIR_BUTTONS.iter() {
            let entry = pad.pad_move_map(from, to);
            assert_eq!(entry.last(), Some(&'A'));
            let walk = &entry[..entry.len() - 1];
            let (fr, fc) = dir_pos(from);
            let (tr, tc) = dir_pos(to);
            check_walk(walk, (fr, fc), (tr, tc), (0, 0), (2, 3));
        }
    }
}

#[test]
fn pressing_the_same_button_costs_one_at_any_depth() {
    let mut cache = CostCache::new();
    for &b in DIR_BUTTONS.iter() {
        for num_robots in 1..=25 {
            assert_eq!(find_seq_len(b, b, num_robots, 1, &mut cache), 1);
        }
    }
}

#[test]
fn deeper_chains_never_get_cheaper() {
    let mut cache = CostCache::new();
    for &a in DIR_BUTTONS.iter() {
        for &b in DIR_BUTTONS.iter() {
            let mut prev = 0u64;
            for num_robots in 1..=25 {
                let cost = find_seq_len(a, b, num_robots, 1, &mut cache);
                assert!(cost >= prev);
                prev = cost;
            }
        }
    }
}

#[test]
fn memoized_and_direct_costs_agree() {
    let mut cache = CostCache::new();
    for &a in DIR_BUTTONS.iter() {
        for &b in DIR_BUTTONS.iter() {
            for num_robots in 1..=5 {
                for robot_num in 1..=num_robots {
                    assert_eq!(
                        find_seq_len(a, b, num_robots, robot_num, &mut cache),
                        find_seq_len_direct(a, b, num_robots, robot_num)
                    );
                }
            }
        }
    }
}

#[test]
fn sequence_expansion_length() {
    // "<A" typed through one robot: the operator types "v<<A" then ">>^A".
    let mut cache = CostCache::new();
    let seq = vec!['<', 'A'];
    assert_eq!(get_seq_len(&seq, 1, &mut cache), 8);
}

#[test]
fn repeat_count_and_selection() {
    assert_eq!(get_seq_count(&vec!['v', '<', '<', 'A']), 1);
    assert_eq!(get_seq_count(&vec!['<', 'v', '<', 'A']), 0);
    assert_eq!(get_seq_count(&Vec::new()), 0);
    let list = vec![
        vec!['v', '<', '<', 'A'],
        vec!['<', 'v', '<', 'A'],
        vec!['<', '<', 'v', 'A'],
    ];
    let kept = get_max_consecutive_sequences(list);
    assert_eq!(
        kept,
        vec![vec!['v', '<', '<', 'A'], vec!['<', '<', 'v', 'A']]
    );
}

#[test]
fn direction_map_lookup() {
    let dm = DirectionMap::new();
    assert_eq!(dm.direction_map(0, 1), Some('>'));
    assert_eq!(dm.direction_map(1, 0), Some('v'));
    assert_eq!(dm.direction_map(0, -1), Some('<'));
    assert_eq!(dm.direction_map(-1, 0), Some('^'));
    assert_eq!(dm.direction_map(1, 1), None);
}

#[test]
fn numeric_pad_lookups() {
    let pad = NumericPad::new();
    assert_eq!(pad.current_pos, (3, 2));
    assert_eq!(NumericPad::char_map('7'), (0, 0));
    assert_eq!(NumericPad::char_map('0'), (3, 1));
    assert_eq!(NumericPad::reverse_map((3, 2)), Some('A'));
    assert_eq!(NumericPad::reverse_map((3, 0)), None);
    assert_eq!(NumericPad::reverse_map((9, 9)), None);
    assert_eq!(pad.get_manhattan_distance((0, 0)), 5);
}

#[test]
fn process_code_produces_all_candidates() {
    let mut pad = NumericPad::new();
    let all = pad.process_code("029A");
    // Every candidate ends with the activate press and expands the code.
    assert!(!all.is_empty());
    for cand in &all {
        assert_eq!(cand.last(), Some(&'A'));
        assert_eq!(cand.iter().filter(|&&c| c == 'A').count(), 4);
    }
    // The known cheapest candidate is among them.
    let best: Vec<char> = "<A^A>^^AvvvA".chars().collect();
    assert!(all.contains(&best));
}

#[test]
fn parse_inputs_splits_lines() {
    let lines = parse_inputs("029A\n980A");
    assert_eq!(lines, vec!["029A".to_string(), "980A".to_string()]);
    let lines2 = parse_inputs("029A\n980A\n");
    assert_eq!(lines2, vec!["029A".to_string(), "980A".to_string()]);
    assert_eq!(parse_inputs(""), Vec::<String>::new());
}
