//! Reactor reports: a report is safe when its levels change gently and in
//! one direction only.

use vstd::prelude::*;

verus! {

/// Every consecutive step of the sequence lies in `[lo, hi]`.
pub open spec fn diffs_within(s: Seq<i32>, lo: int, hi: int) -> bool {
    forall|i: int| 0 <= i < s.len() - 1 ==> lo <= #[trigger] s[i + 1] - s[i] <= hi
}

fn check_diffs(levels: &Vec<i32>, lo: i64, hi: i64) -> (r: bool)
    ensures
        r == diffs_within(levels@, lo as int, hi as int),
{
    let n: usize = levels.len();
    if n == 0 {
        return true;
    }
    let mut i: usize = 0;
    while i < n - 1
        invariant
            1 <= n == levels@.len(),
            i <= n - 1,
            forall|x: int| 0 <= x < i ==> lo <= #[trigger] levels@[x + 1] - levels@[x] <= hi,
        decreases n - i,
    {
        let d: i64 = levels[i + 1] as i64 - levels[i] as i64;
        if !(lo <= d && d <= hi) {
            return false;
        }
        i = i + 1;
    }
    true
}

/// A report is safe when all its steps are increases of one to three, or
/// all are decreases of one to three.
pub fn is_safe(levels: &Vec<i32>) -> (r: bool)
    ensures
        r == (diffs_within(levels@, 1, 3) || diffs_within(levels@, -3, -1)),
{
    let up = check_diffs(levels, 1, 3);
    let down = check_diffs(levels, -3, -1);
    up || down
}

} // verus!
