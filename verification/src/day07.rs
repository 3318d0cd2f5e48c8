//! Bridge calibration: can a target be built from a value list with
//! addition, multiplication, and digit concatenation, left to right?

use vstd::arithmetic::div_mod::lemma_fundamental_div_mod;
use vstd::prelude::*;

verus! {

/// The power of ten that shifts `b` clear when concatenating digits:
/// ten to the number of decimal digits of `b`.
pub open spec fn pow10_for(b: int) -> int
    decreases b,
{
    if b < 10 {
        10
    } else {
        10 * pow10_for(b / 10)
    }
}

/// Decimal concatenation of two non-negative values.
pub open spec fn concat_val(a: int, b: int) -> int {
    a * pow10_for(b) + b
}

/// Every operand is at least one.  Calibration lines list positive
/// whole numbers, and positivity is load-bearing twice over: it makes
/// every operation non-decreasing, which justifies pruning a running
/// value that already exceeds the target, and it means a digit
/// concatenation too large for the word size also exceeds any
/// representable target, so skipping it loses no solution.
pub open spec fn vals_ok(vs: Seq<i64>) -> bool {
    forall|j: int| 0 <= j < vs.len() ==> 1 <= (#[trigger] vs[j]) as int
}

/// The target is reachable from the running value using the remaining
/// operands, applying `+`, `*`, or (when allowed) digit concatenation at
/// each step, strictly left to right.
pub open spec fn reachable(cur: int, i: int, vs: Seq<i64>, target: int, concat: bool) -> bool
    decreases vs.len() - i,
        when 0 <= i <= vs.len()
{
    if i >= vs.len() {
        cur == target
    } else {
        reachable(cur + vs[i] as int, i + 1, vs, target, concat) || reachable(
            cur * vs[i] as int,
            i + 1,
            vs,
            target,
            concat,
        ) || (concat && reachable(concat_val(cur, vs[i] as int), i + 1, vs, target, concat))
    }
}

proof fn lemma_pow10_bounds(b: int)
    ensures
        pow10_for(b) >= 10,
        b >= 1 ==> pow10_for(b) <= 10 * b,
    decreases b,
{
    if b >= 10 {
        lemma_pow10_bounds(b / 10);
        lemma_fundamental_div_mod(b, 10);
        assert(10 * pow10_for(b / 10) <= 10 * (10 * (b / 10))) by (nonlinear_arith)
            requires
                pow10_for(b / 10) <= 10 * (b / 10),
        {}
    }
}

/// All three operations only grow a positive running value, so once it
/// exceeds the target nothing is reachable any more.
proof fn lemma_unreachable_above(cur: int, i: int, vs: Seq<i64>, target: int, concat: bool)
    requires
        0 <= i <= vs.len(),
        vals_ok(vs),
        1 <= cur,
        cur > target,
    ensures
        !reachable(cur, i, vs, target, concat),
    decreases vs.len() - i,
{
    if i < vs.len() {
        let v = vs[i] as int;
        assert(cur * v >= cur) by (nonlinear_arith)
            requires
                cur >= 1,
                v >= 1,
        {}
        lemma_pow10_bounds(v);
        assert(cur * pow10_for(v) >= cur) by (nonlinear_arith)
            requires
                cur >= 1,
                pow10_for(v) >= 10,
        {}
        lemma_unreachable_above(cur + v, i + 1, vs, target, concat);
        lemma_unreachable_above(cur * v, i + 1, vs, target, concat);
        lemma_unreachable_above(concat_val(cur, v), i + 1, vs, target, concat);
    }
}

/// Ten to the number of decimal digits of `b`.
fn pow10_of(b: u64) -> (p: u128)
    ensures
        p == pow10_for(b as int),
        10 <= p,
        b >= 1 ==> p <= 10 * (b as u128),
    decreases b,
{
    proof {
        lemma_pow10_bounds(b as int);
    }
    if b < 10 {
        10
    } else {
        proof {
            lemma_fundamental_div_mod(b as int, 10);
        }
        10 * pow10_of(b / 10)
    }
}

/// Division threshold: a factor above `t / p` pushes the product past `t`.
proof fn lemma_div_threshold(x: int, t: int, p: int)
    requires
        0 <= t,
        0 < p,
        x > t / p,
    ensures
        x * p > t,
{
    lemma_fundamental_div_mod(t, p);
    assert(x * p >= (t / p) * p + p) by (nonlinear_arith)
        requires
            x >= t / p + 1,
            p > 0,
    {}
    assert((t / p) * p + p > t) by (nonlinear_arith)
        requires
            t == p * (t / p) + t % p,
            t % p < p,
    {}
}

/// And conversely, a factor at most `t / p` keeps the product within `t`.
proof fn lemma_div_threshold_le(x: int, t: int, p: int)
    requires
        0 <= t,
        0 < p,
        0 <= x <= t / p,
    ensures
        x * p <= t,
{
    lemma_fundamental_div_mod(t, p);
    assert(x * p <= (t / p) * p) by (nonlinear_arith)
        requires
            x <= t / p,
            p > 0,
    {}
    assert((t / p) * p <= t) by (nonlinear_arith)
        requires
            t == p * (t / p) + t % p,
            t % p >= 0,
    {}
}

/// Tries every operator assignment, left to right, pruning branches whose
/// running value already exceeds the target.  The running value starts
/// at the first (positive) operand and only grows, so `current >= 1`
/// throughout; on that domain the pruning is exact (see
/// [`lemma_unreachable_above`]) and the result equals the unbounded
/// mathematical [`reachable`] relation.
pub fn construct_res(
    current: i64,
    index: usize,
    values: &Vec<i64>,
    target: i64,
    allow_concat: bool,
) -> (r: bool)
    requires
        vals_ok(values@),
        1 <= current,
        index <= values@.len(),
    ensures
        r == reachable(current as int, index as int, values@, target as int, allow_concat),
    decreases values@.len() - index,
{
    if index == values.len() {
        return current == target;
    }
    if current > target {
        proof {
            lemma_unreachable_above(
                current as int,
                index as int,
                values@,
                target as int,
                allow_concat,
            );
        }
        return false;
    }
    let next: i64 = values[index];
    let sum128: i128 = current as i128 + next as i128;
    if sum128 <= target as i128 {
        if construct_res(sum128 as i64, index + 1, values, target, allow_concat) {
            return true;
        }
    } else {
        proof {
            lemma_unreachable_above(
                current + next as int,
                index + 1,
                values@,
                target as int,
                allow_concat,
            );
        }
    }
    proof {
        assert(1 <= (current as int) * (next as int) <= 0x4000_0000_0000_0000_0000_0000_0000_0000int)
            by (nonlinear_arith)
            requires
                1 <= current as int <= 0x8000_0000_0000_0000int,
                1 <= next as int <= 0x8000_0000_0000_0000int,
        {}
    }
    let prod128: i128 = current as i128 * next as i128;
    if prod128 <= target as i128 {
        if construct_res(prod128 as i64, index + 1, values, target, allow_concat) {
            return true;
        }
    } else {
        proof {
            lemma_unreachable_above(
                (current as int) * (next as int),
                index + 1,
                values@,
                target as int,
                allow_concat,
            );
        }
    }
    if allow_concat {
        let p: u128 = pow10_of(next as u64);
        let ghost cv = concat_val(current as int, next as int);
        proof {
            lemma_pow10_bounds(next as int);
            assert((current as int) * (p as int) >= current as int) by (nonlinear_arith)
                requires
                    current as int >= 1,
                    p as int >= 10,
            {}
        }
        let tminus: i128 = target as i128 - next as i128;
        if tminus >= 0 && current as i128 <= tminus / (p as i128) {
            proof {
                lemma_div_threshold_le(current as int, tminus as int, p as int);
            }
            let cv128: i128 = current as i128 * (p as i128) + next as i128;
            if construct_res(cv128 as i64, index + 1, values, target, allow_concat) {
                return true;
            }
        } else {
            proof {
                if tminus < 0 {
                } else {
                    lemma_div_threshold(current as int, tminus as int, p as int);
                }
                lemma_unreachable_above(cv, index + 1, values@, target as int, allow_concat);
            }
        }
    }
    false
}

/// Whether the key can be calibrated from the value list of one
/// calibration line; the operands are the line's positive numbers.
pub fn check_value(key: &i64, values: &Vec<i64>, allow_concat: bool) -> (r: bool)
    requires
        vals_ok(values@),
    ensures
        r == (values@.len() >= 1 && reachable(
            values@[0] as int,
            1,
            values@,
            *key as int,
            allow_concat,
        )),
{
    if values.len() == 0 {
        return false;
    }
    construct_res(values[0], 1, values, *key, allow_concat)
}

/// One calibration line satisfies its key.
pub open spec fn calib_ok(e: (i64, Vec<i64>), concat: bool) -> bool {
    e.1@.len() >= 1 && reachable(e.1@[0] as int, 1, e.1@, e.0 as int, concat)
}

/// Sum of the keys of the satisfiable calibration lines.
pub open spec fn calib_sum(es: Seq<(i64, Vec<i64>)>, concat: bool) -> int
    decreases es.len(),
{
    if es.len() == 0 {
        0
    } else {
        calib_sum(es.drop_last(), concat) + if calib_ok(es.last(), concat) {
            es.last().0 as int
        } else {
            0
        }
    }
}

proof fn lemma_calib_sum_prefix(es: Seq<(i64, Vec<i64>)>, concat: bool, i: int)
    requires
        0 <= i <= es.len(),
        forall|j: int| 0 <= j < es.len() ==> (#[trigger] es[j]).0 >= 0,
    ensures
        0 <= calib_sum(es.take(i), concat) <= calib_sum(es, concat),
    decreases es.len() - i,
{
    if i < es.len() {
        assert(es.take(i + 1).drop_last() =~= es.take(i));
        assert(es.take(i + 1).last() == es[i]);
        lemma_calib_sum_prefix(es, concat, i + 1);
        assert forall|j: int| 0 <= j < es.take(i).len() implies (#[trigger] es.take(i)[j]).0
            >= 0 by {
            assert(es.take(i)[j] == es[j]);
        }
        lemma_calib_sum_nonneg(es.take(i), concat);
    } else {
        assert(es.take(i) =~= es);
        lemma_calib_sum_nonneg(es, concat);
    }
}

proof fn lemma_calib_sum_nonneg(es: Seq<(i64, Vec<i64>)>, concat: bool)
    requires
        forall|j: int| 0 <= j < es.len() ==> (#[trigger] es[j]).0 >= 0,
    ensures
        0 <= calib_sum(es, concat),
    decreases es.len(),
{
    if es.len() > 0 {
        lemma_calib_sum_nonneg(es.drop_last(), concat);
    }
}

/// Sums the keys of all calibration lines that some operator assignment
/// satisfies.
pub fn check_tests(entries: &Vec<(i64, Vec<i64>)>, allow_concat: bool) -> (r: i64)
    requires
        forall|j: int| 0 <= j < entries@.len() ==> (#[trigger] entries@[j]).0 >= 0,
        forall|j: int| 0 <= j < entries@.len() ==> vals_ok((#[trigger] entries@[j]).1@),
        calib_sum(entries@, allow_concat) <= i64::MAX,
    ensures
        r == calib_sum(entries@, allow_concat),
{
    let n: usize = entries.len();
    let mut correct_tests: i64 = 0;
    let mut i: usize = 0;
    proof {
        assert(entries@.take(0) =~= Seq::<(i64, Vec<i64>)>::empty());
    }
    while i < n
        invariant
            n == entries@.len(),
            i <= n,
            forall|j: int| 0 <= j < n ==> (#[trigger] entries@[j]).0 >= 0,
            forall|j: int| 0 <= j < n ==> vals_ok((#[trigger] entries@[j]).1@),
            calib_sum(entries@, allow_concat) <= i64::MAX,
            correct_tests == calib_sum(entries@.take(i as int), allow_concat),
        decreases n - i,
    {
        proof {
            assert(entries@.take(i + 1).drop_last() =~= entries@.take(i as int));
            assert(entries@.take(i + 1).last() == entries@[i as int]);
            lemma_calib_sum_prefix(entries@, allow_concat, i + 1);
            lemma_calib_sum_prefix(entries@, allow_concat, i as int);
        }
        let entry: &(i64, Vec<i64>) = &entries[i];
        if check_value(&entry.0, &entry.1, allow_concat) {
            correct_tests = correct_tests + entry.0;
        }
        i = i + 1;
    }
    proof {
        assert(entries@.take(n as int) =~= entries@);
    }
    correct_tests
}

} // verus!
