//! Tests for the secret-number market module.

use advent_puzzles::day22::{
    get_best_sequence, get_diff, get_diffs, get_i_iteration_last_digit, get_i_iterations,
    get_last_digits, get_next_secret_number,
};

#[test]
fn sample2() {
    assert_eq!(get_next_secret_number(123), 15887950);
}

#[test]
fn sample3() {
    assert_eq!(get_i_iterations(2024, 2000), 8667524);
}

#[test]
fn sample5() {
    assert_eq!(get_i_iteration_last_digit(123, 4), vec![3, 0, 6, 5, 4]);
}

#[test]
fn sample6() {
    let inp: Vec<i128> = vec![1, 2, 3, 2024];
    let (_, score) = get_best_sequence(&inp);
    assert_eq!(score, 23);
}

#[test]
fn first_ten_secrets_of_123() {
    let expected: [i128; 10] = [
        15887950, 16495136, 527345, 704524, 1553684, 12683156, 11100544, 12249484, 7753432,
        5908254,
    ];
    let mut s: i128 = 123;
    for &e in expected.iter() {
        s = get_next_secret_number(s);
        assert_eq!(s, e);
    }
}

#[test]
fn iteration_count_edge_cases() {
    assert_eq!(get_i_iterations(123, 0), 123);
    assert_eq!(get_i_iterations(123, -3), 123);
    assert_eq!(get_i_iterations(123, 1), 15887950);
}

#[test]
fn digit_differences() {
    let digits = vec![3, 0, 6, 5, 4];
    assert_eq!(get_diff(&digits), vec![-3, 6, -1, -1]);
    assert_eq!(get_diff(&Vec::new()), Vec::<i32>::new());
    assert_eq!(get_diff(&vec![7]), Vec::<i32>::new());
}

#[test]
fn digit_tables() {
    let secrets: Vec<i128> = vec![123, 1];
    let tables = get_last_digits(&secrets, 4);
    assert_eq!(tables.len(), 2);
    assert_eq!(tables[0], vec![3, 0, 6, 5, 4]);
    let diffs = get_diffs(&tables, 4);
    assert_eq!(diffs[0], vec![-3, 6, -1, -1]);
    assert_eq!(diffs[1].len(), 4);
}
