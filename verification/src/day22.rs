//! Pseudo-random "secret number" sequences.
//!
//! A secret number evolves by three mix-and-prune steps (multiply by 64,
//! divide by 32, multiply by 2048, each XOR-ed in and reduced modulo
//! 16777216).  The solver iterates this process, watches the last decimal
//! digit of each secret, and looks for the four-step difference pattern
//! that earns the most across all starting secrets.

use vstd::prelude::*;

verus! {

/// Modulus used by the prune step.
pub const PRUNE: u64 = 16777216;

/// One mix step: XOR the candidate value into the secret.
pub open spec fn mix(a: u64, b: u64) -> u64 {
    a ^ b
}

/// One full evolution step of a secret number.
pub open spec fn next_secret(n: u64) -> u64 {
    let s1 = (mix(n, (n * 64) as u64) % PRUNE) as u64;
    let s2 = (mix(s1, (s1 / 32) as u64) % PRUNE) as u64;
    (mix(s2, (s2 * 2048) as u64) % PRUNE) as u64
}

/// The secret number after `k` evolution steps.
pub open spec fn iterate_secret(n: u64, k: nat) -> u64
    decreases k,
{
    if k == 0 {
        n
    } else {
        next_secret(iterate_secret(n, (k - 1) as nat))
    }
}

/// A starting secret admitted by the solver: non-negative and already
/// reduced modulo [`PRUNE`].
pub open spec fn valid_secret(n: i128) -> bool {
    0 <= n < PRUNE
}

/// Computes the successor of a secret number.
pub fn get_next_secret_number(secret_number: i128) -> (r: i128)
    requires
        valid_secret(secret_number),
    ensures
        r == next_secret(secret_number as u64) as i128,
        valid_secret(r),
{
    let n: u64 = secret_number as u64;
    let s1: u64 = (n ^ (n * 64)) % PRUNE;
    assert(s1 == (mix(n, (n * 64) as u64) % PRUNE) as u64);
    let s2: u64 = (s1 ^ (s1 / 32)) % PRUNE;
    let s3: u64 = (s2 ^ (s2 * 2048)) % PRUNE;
    assert(s3 == next_secret(n));
    s3 as i128
}

/// Runs `i` evolution steps from a starting secret (none when `i` is
/// negative, matching an empty iteration range).
pub fn get_i_iterations(secret_number: i128, i: isize) -> (r: i128)
    requires
        valid_secret(secret_number),
    ensures
        i >= 0 ==> r == iterate_secret(secret_number as u64, i as nat) as i128,
        i < 0 ==> r == secret_number,
        valid_secret(r),
{
    let mut new_secret: i128 = secret_number;
    let mut step: isize = 0;
    while step < i
        invariant
            0 <= step,
            i >= 0 ==> step <= i,
            i < 0 ==> step == 0,
            valid_secret(new_secret),
            new_secret == iterate_secret(secret_number as u64, step as nat) as i128,
        decreases i - step,
    {
        new_secret = get_next_secret_number(new_secret);
        step = step + 1;
    }
    new_secret
}

/// The last decimal digit of the secret after `k` steps.
pub open spec fn digit_at(n: u64, k: nat) -> int {
    iterate_secret(n, k) as int % 10
}

/// Collects the last decimal digit of the start secret and of each of the
/// `i` following secrets.
pub fn get_i_iteration_last_digit(secret_number: i128, i: isize) -> (r: Vec<i32>)
    requires
        valid_secret(secret_number),
        i < 100_000_000,
    ensures
        i >= 0 ==> r@.len() == i + 1,
        i < 0 ==> r@.len() == 1,
        forall|j: int| 0 <= j < r@.len() ==> r@[j] == digit_at(secret_number as u64, j as nat),
        forall|j: int| 0 <= j < r@.len() ==> 0 <= #[trigger] r@[j] <= 9,
{
    let mut new_secret: i128 = secret_number;
    let mut last_digits: Vec<i32> = Vec::new();
    last_digits.push((new_secret % 10) as i32);
    let mut step: isize = 0;
    while step < i
        invariant
            0 <= step,
            i >= 0 ==> step <= i,
            i < 0 ==> step == 0,
            valid_secret(new_secret),
            new_secret == iterate_secret(secret_number as u64, step as nat) as i128,
            last_digits@.len() == step + 1,
            forall|j: int|
                0 <= j < last_digits@.len() ==> last_digits@[j] == digit_at(
                    secret_number as u64,
                    j as nat,
                ),
            forall|j: int| 0 <= j < last_digits@.len() ==> 0 <= #[trigger] last_digits@[j] <= 9,
        decreases i - step,
    {
        new_secret = get_next_secret_number(new_secret);
        last_digits.push((new_secret % 10) as i32);
        step = step + 1;
    }
    last_digits
}

/// Steps between consecutive entries of a digit sequence.
pub open spec fn diff_seq(s: Seq<i32>) -> Seq<int> {
    Seq::new((s.len() - 1) as nat, |j: int| s[j + 1] - s[j])
}

/// Computes the pairwise differences of consecutive entries.
pub fn get_diff(last_digits: &Vec<i32>) -> (r: Vec<i32>)
    requires
        forall|j: int| 0 <= j < last_digits@.len() ==> 0 <= #[trigger] last_digits@[j] <= 9,
    ensures
        last_digits@.len() == 0 ==> r@.len() == 0,
        last_digits@.len() > 0 ==> r@.len() == last_digits@.len() - 1,
        forall|j: int| 0 <= j < r@.len() ==> r@[j] == last_digits@[j + 1] - last_digits@[j],
{
    let mut diffs: Vec<i32> = Vec::new();
    if last_digits.len() == 0 {
        return diffs;
    }
    let n: usize = last_digits.len();
    let mut j: usize = 0;
    while j + 1 < n
        invariant
            n == last_digits@.len(),
            j + 1 <= n,
            diffs@.len() == j,
            forall|k: int| 0 <= k < last_digits@.len() ==> 0 <= #[trigger] last_digits@[k] <= 9,
            forall|k: int| 0 <= k < j ==> diffs@[k] == last_digits@[k + 1] - last_digits@[k],
        decreases last_digits@.len() - j,
    {
        diffs.push(last_digits[j + 1] - last_digits[j]);
        j = j + 1;
    }
    diffs
}

/// Maps every starting secret to its digit sequence over `i` steps.
pub fn get_last_digits(sec_nums: &Vec<i128>, i: isize) -> (r: Vec<Vec<i32>>)
    requires
        forall|k: int| 0 <= k < sec_nums@.len() ==> valid_secret(sec_nums@[k]),
        0 <= i < 100_000_000,
    ensures
        r@.len() == sec_nums@.len(),
        forall|k: int| 0 <= k < r@.len() ==> r@[k].len() == i + 1,
        forall|k: int, j: int|
            0 <= k < r@.len() && 0 <= j < r@[k].len() ==> r@[k][j] == digit_at(
                sec_nums@[k] as u64,
                j as nat,
            ),
        forall|k: int, j: int| 0 <= k < r@.len() && 0 <= j < r@[k].len() ==> 0 <= #[trigger] r@[k][j] <= 9,
{
    let mut out: Vec<Vec<i32>> = Vec::new();
    let mut k: usize = 0;
    while k < sec_nums.len()
        invariant
            k <= sec_nums@.len(),
            out@.len() == k,
            forall|m: int| 0 <= m < sec_nums@.len() ==> valid_secret(sec_nums@[m]),
            0 <= i < 100_000_000,
            forall|m: int| 0 <= m < k ==> out@[m].len() == i + 1,
            forall|m: int, j: int|
                0 <= m < k && 0 <= j < out@[m].len() ==> out@[m][j] == digit_at(
                    sec_nums@[m] as u64,
                    j as nat,
                ),
            forall|m: int, j: int| 0 <= m < k && 0 <= j < out@[m].len() ==> 0 <= #[trigger] out@[m][j] <= 9,
        decreases sec_nums@.len() - k,
    {
        out.push(get_i_iteration_last_digit(sec_nums[k], i));
        k = k + 1;
    }
    out
}

/// Maps every digit sequence to its difference sequence.  The step count
/// is carried along unused, mirroring the shape of [`get_last_digits`].
pub fn get_diffs(last_digits: &Vec<Vec<i32>>, i: isize) -> (r: Vec<Vec<i32>>)
    requires
        forall|k: int, j: int|
            0 <= k < last_digits@.len() && 0 <= j < last_digits@[k].len() ==> 0 <= #[trigger] last_digits@[k][j]
                <= 9,
    ensures
        r@.len() == last_digits@.len(),
        forall|k: int|
            0 <= k < r@.len() ==> r@[k].len() == if last_digits@[k].len() == 0 {
                0int
            } else {
                last_digits@[k].len() - 1
            },
        forall|k: int, j: int|
            0 <= k < r@.len() && 0 <= j < r@[k].len() ==> r@[k][j] == last_digits@[k][j + 1]
                - last_digits@[k][j],
{
    let _ = i;
    let mut out: Vec<Vec<i32>> = Vec::new();
    let mut k: usize = 0;
    while k < last_digits.len()
        invariant
            k <= last_digits@.len(),
            out@.len() == k,
            forall|m: int, j: int|
                0 <= m < last_digits@.len() && 0 <= j < last_digits@[m].len() ==> 0 <= #[trigger] last_digits@[m][j]
                    <= 9,
            forall|m: int|
                0 <= m < k ==> out@[m].len() == if last_digits@[m].len() == 0 {
                    0int
                } else {
                    last_digits@[m].len() - 1
                },
            forall|m: int, j: int|
                0 <= m < k && 0 <= j < out@[m].len() ==> out@[m][j] == last_digits@[m][j + 1]
                    - last_digits@[m][j],
        decreases last_digits@.len() - k,
    {
        out.push(get_diff(&last_digits[k]));
        k = k + 1;
    }
    out
}

} // verus!

verus! {

/// Price change between consecutive secrets.
pub open spec fn diff_at(n: u64, j: int) -> int {
    digit_at(n, (j + 1) as nat) - digit_at(n, j as nat)
}

/// The four price changes starting at position `i`, packed into one
/// base-19 index (each change lies in `-9 ..= 9`).
pub open spec fn window_code(n: u64, i: int) -> int {
    (((diff_at(n, i) + 9) * 19 + (diff_at(n, i + 1) + 9)) * 19 + (diff_at(n, i + 2) + 9)) * 19 + (
    diff_at(n, i + 3) + 9)
}

/// Price earned from one buyer for pattern `idx`, scanning windows from
/// position `i`: the price right after the first matching window, zero
/// when no window up to the end of the scan matches.
pub open spec fn first_hit(n: u64, idx: int, i: int) -> int
    decreases 1996 - i,
{
    if i >= 1996 {
        0
    } else if window_code(n, i) == idx {
        digit_at(n, (i + 4) as nat)
    } else {
        first_hit(n, idx, i + 1)
    }
}

/// Total price earned for pattern `idx` over all buyers.
pub open spec fn total_score(secrets: Seq<i128>, idx: int) -> int
    decreases secrets.len(),
{
    if secrets.len() == 0 {
        0
    } else {
        total_score(secrets.drop_last(), idx) + first_hit(secrets.last() as u64, idx, 0)
    }
}

proof fn lemma_first_hit_bounds(n: u64, idx: int, i: int)
    ensures
        0 <= first_hit(n, idx, i) <= 9,
    decreases 1996 - i,
{
    if i < 1996 && window_code(n, i) != idx {
        lemma_first_hit_bounds(n, idx, i + 1);
    }
}

proof fn lemma_first_hit_skip(n: u64, idx: int, j: int, i: int)
    requires
        0 <= j <= i < 1996,
        forall|x: int| j <= x < i ==> #[trigger] window_code(n, x) != idx,
        window_code(n, i) == idx,
    ensures
        first_hit(n, idx, j) == digit_at(n, (i + 4) as nat),
    decreases i - j,
{
    if j < i {
        lemma_first_hit_skip(n, idx, j + 1, i);
    }
}

proof fn lemma_first_hit_none(n: u64, idx: int, j: int)
    requires
        0 <= j,
        forall|x: int| j <= x < 1996 ==> #[trigger] window_code(n, x) != idx,
    ensures
        first_hit(n, idx, j) == 0,
    decreases 1996 - j,
{
    if j < 1996 {
        lemma_first_hit_none(n, idx, j + 1);
    }
}

proof fn lemma_total_score_bounds(secrets: Seq<i128>, idx: int)
    ensures
        0 <= total_score(secrets, idx) <= 9 * secrets.len(),
    decreases secrets.len(),
{
    if secrets.len() > 0 {
        lemma_total_score_bounds(secrets.drop_last(), idx);
        lemma_first_hit_bounds(secrets.last() as u64, idx, 0);
    }
}

/// Scores every four-change pattern across all buyers and returns the
/// score table (indexed by packed pattern) with its maximum entry: the
/// most bananas any single pattern can earn.
pub fn get_best_sequence(secret_numbers: &Vec<i128>) -> (r: (Vec<i32>, i32))
    requires
        forall|k: int| 0 <= k < secret_numbers@.len() ==> valid_secret(#[trigger] secret_numbers@[k]),
        1 <= secret_numbers@.len() <= 100_000_000,
    ensures
        r.0@.len() == 130321,
        forall|idx: int| 0 <= idx < 130321 ==> r.0@[idx] == total_score(secret_numbers@, idx),
        forall|idx: int| 0 <= idx < 130321 ==> #[trigger] r.0@[idx] <= r.1,
        exists|idx: int| 0 <= idx < 130321 && r.0@[idx] == r.1,
{
    let n: usize = secret_numbers.len();
    let mut table: Vec<i32> = Vec::new();
    let mut z: usize = 0;
    while z < 130321
        invariant
            z <= 130321,
            table@.len() == z,
            forall|idx: int| 0 <= idx < z ==> table@[idx] == 0,
        decreases 130321 - z,
    {
        table.push(0);
        z = z + 1;
    }
    let mut k: usize = 0;
    proof {
        assert(secret_numbers@.take(0) =~= Seq::<i128>::empty());
    }
    while k < n
        invariant
            n == secret_numbers@.len(),
            1 <= n <= 100_000_000,
            forall|x: int| 0 <= x < n ==> valid_secret(#[trigger] secret_numbers@[x]),
            k <= n,
            table@.len() == 130321,
            forall|idx: int|
                0 <= idx < 130321 ==> table@[idx] == total_score(
                    secret_numbers@.take(k as int),
                    idx,
                ),
            forall|idx: int|
                0 <= idx < 130321 ==> 0 <= #[trigger] table@[idx] <= 9 * (k as int),
        decreases n - k,
    {
        let ghost nk: u64 = secret_numbers@[k as int] as u64;
        let ghost base = table@;
        let digits: Vec<i32> = get_i_iteration_last_digit(secret_numbers[k], 2000);
        let diffs: Vec<i32> = get_diff(&digits);
        let mut visited: Vec<bool> = Vec::new();
        let mut z2: usize = 0;
        while z2 < 130321
            invariant
                z2 <= 130321,
                visited@.len() == z2,
                forall|idx: int| 0 <= idx < z2 ==> !visited@[idx],
            decreases 130321 - z2,
        {
            visited.push(false);
            z2 = z2 + 1;
        }
        proof {
            assert(digits@.len() == 2001);
            assert(diffs@.len() == 2000);
            assert forall|j: int| 0 <= j < 2000 implies #[trigger] diffs@[j] == diff_at(nk, j)
                && -9 <= diffs@[j] <= 9 by {
                assert(digits@[j] == digit_at(nk, j as nat));
                assert(digits@[j + 1] == digit_at(nk, (j + 1) as nat));
            }
        }
        let mut i: usize = 0;
        while i < 1996
            invariant
                n == secret_numbers@.len(),
                1 <= n <= 100_000_000,
                k < n,
                nk == secret_numbers@[k as int] as u64,
                i <= 1996,
                digits@.len() == 2001,
                diffs@.len() == 2000,
                forall|j: int| 0 <= j < 2001 ==> #[trigger] digits@[j] == digit_at(nk, j as nat),
                forall|j: int| 0 <= j < 2001 ==> 0 <= #[trigger] digits@[j] <= 9,
                forall|j: int|
                    0 <= j < 2000 ==> #[trigger] diffs@[j] == diff_at(nk, j) && -9 <= diffs@[j]
                        <= 9,
                table@.len() == 130321,
                visited@.len() == 130321,
                base.len() == 130321,
                forall|idx: int|
                    0 <= idx < 130321 ==> (visited@[idx] <==> exists|j: int|
                        0 <= j < i && #[trigger] window_code(nk, j) == idx),
                forall|idx: int|
                    0 <= idx < 130321 ==> #[trigger] table@[idx] == base[idx] + if visited@[idx] {
                        first_hit(nk, idx, 0)
                    } else {
                        0int
                    },
                forall|idx: int| 0 <= idx < 130321 ==> 0 <= #[trigger] base[idx] <= 9 * (k as int),
            decreases 1996 - i,
        {
            let d0: i32 = diffs[i];
            let d1: i32 = diffs[i + 1];
            let d2: i32 = diffs[i + 2];
            let d3: i32 = diffs[i + 3];
            let ui: usize = ((((d0 + 9) * 19 + (d1 + 9)) * 19 + (d2 + 9)) * 19 + (d3 + 9)) as usize;
            proof {
                assert(ui == window_code(nk, i as int));
                assert(0 <= ui < 130321);
            }
            let ghost visited_pre = visited@;
            let ghost table_pre = table@;
            if !visited[ui] {
                visited[ui] = true;
                let score: i32 = digits[i + 4];
                proof {
                    assert(forall|j: int| 0 <= j < i ==> #[trigger] window_code(nk, j) != ui);
                    lemma_first_hit_skip(nk, ui as int, 0, i as int);
                    lemma_first_hit_bounds(nk, ui as int, 0);
                }
                let cur: i32 = table[ui];
                table[ui] = cur + score;
            }
            proof {
                assert forall|idx: int| 0 <= idx < 130321 implies (visited@[idx] <==> exists|j: int|
                    0 <= j < i + 1 && #[trigger] window_code(nk, j) == idx) by {
                    if idx == ui {
                        assert(window_code(nk, i as int) == idx);
                    } else {
                        assert(visited@[idx] == visited_pre[idx]);
                        if visited@[idx] {
                            let j0 = choose|j: int|
                                0 <= j < i && #[trigger] window_code(nk, j) == idx;
                            assert(window_code(nk, j0) == idx);
                        } else {
                            assert forall|j: int| 0 <= j < i + 1 implies #[trigger] window_code(
                                nk,
                                j,
                            ) != idx by {
                                if j == i {
                                    assert(window_code(nk, i as int) == ui);
                                }
                            }
                        }
                    }
                }
                assert forall|idx: int| 0 <= idx < 130321 implies #[trigger] table@[idx]
                    == base[idx] + if visited@[idx] {
                    first_hit(nk, idx, 0)
                } else {
                    0int
                } by {
                    if idx != ui {
                        assert(table@[idx] == table_pre[idx]);
                        assert(visited@[idx] == visited_pre[idx]);
                    }
                }
            }
            i = i + 1;
        }
        proof {
            assert(secret_numbers@.take(k + 1).drop_last() =~= secret_numbers@.take(k as int));
            assert(secret_numbers@.take(k + 1).last() == secret_numbers@[k as int]);
            assert forall|idx: int| 0 <= idx < 130321 implies table@[idx] == total_score(
                secret_numbers@.take(k + 1),
                idx,
            ) && 0 <= table@[idx] <= 9 * (k + 1) by {
                lemma_first_hit_bounds(nk, idx, 0);
                if visited@[idx] {
                } else {
                    assert(forall|x: int| 0 <= x < 1996 ==> #[trigger] window_code(nk, x) != idx);
                    lemma_first_hit_none(nk, idx, 0);
                }
                lemma_total_score_bounds(secret_numbers@.take(k as int), idx);
            }
        }
        k = k + 1;
    }
    proof {
        assert(secret_numbers@.take(n as int) =~= secret_numbers@);
    }
    let mut max_value: i32 = table[0];
    let mut m: usize = 1;
    while m < 130321
        invariant
            table@.len() == 130321,
            1 <= m <= 130321,
            exists|idx: int| 0 <= idx < m && table@[idx] == max_value,
            forall|idx: int| 0 <= idx < m ==> #[trigger] table@[idx] <= max_value,
        decreases 130321 - m,
    {
        let v: i32 = table[m];
        if v > max_value {
            max_value = v;
        }
        m = m + 1;
    }
    (table, max_value)
}

} // verus!
