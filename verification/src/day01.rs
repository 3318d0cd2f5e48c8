//! Location lists: similarity counting between the two columns.

use vstd::prelude::*;

verus! {

/// Occurrences of `v` in a sequence.
pub open spec fn count_occ(s: Seq<i32>, v: i32) -> nat
    decreases s.len(),
{
    if s.len() == 0 {
        0
    } else {
        count_occ(s.drop_last(), v) + if s.last() == v {
            1nat
        } else {
            0nat
        }
    }
}

proof fn lemma_count_occ_le(s: Seq<i32>, v: i32)
    ensures
        count_occ(s, v) <= s.len(),
    decreases s.len(),
{
    if s.len() > 0 {
        lemma_count_occ_le(s.drop_last(), v);
    }
}

/// Counts occurrences of `v` in a list.
fn count_in(list: &Vec<i32>, v: i32) -> (r: usize)
    ensures
        r == count_occ(list@, v),
{
    let n: usize = list.len();
    let mut count: usize = 0;
    let mut i: usize = 0;
    proof {
        assert(list@.take(0) =~= Seq::<i32>::empty());
    }
    while i < n
        invariant
            n == list@.len(),
            i <= n,
            count == count_occ(list@.take(i as int), v),
        decreases n - i,
    {
        proof {
            assert(list@.take(i + 1).drop_last() =~= list@.take(i as int));
            assert(list@.take(i + 1).last() == list@[i as int]);
            lemma_count_occ_le(list@.take(i as int), v);
        }
        if list[i] == v {
            count = count + 1;
        }
        i = i + 1;
    }
    proof {
        assert(list@.take(n as int) =~= list@);
    }
    count
}

/// The similarity table of the two lists: one entry per distinct value of
/// the first list, holding `occurrences in the first list * occurrences
/// in the second list`.
pub fn count_elements(list1: &Vec<i32>, list2: &Vec<i32>) -> (r: Vec<(i32, i32)>)
    requires
        list1@.len() <= 30_000,
        list2@.len() <= 30_000,
    ensures
        forall|i: int, j: int| 0 <= i < j < r@.len() ==> (#[trigger] r@[i]).0 != (#[trigger] r@[j]).0,
        forall|i: int|
            0 <= i < r@.len() ==> count_occ(list1@, (#[trigger] r@[i]).0) >= 1 && r@[i].1
                == count_occ(list1@, r@[i].0) * count_occ(list2@, r@[i].0),
        forall|v: i32|
            count_occ(list1@, v) >= 1 ==> exists|i: int| 0 <= i < r@.len() && (#[trigger] r@[i]).0
                == v,
{
    let n: usize = list1.len();
    let mut out: Vec<(i32, i32)> = Vec::new();
    let mut i: usize = 0;
    proof {
        assert(list1@.take(0) =~= Seq::<i32>::empty());
    }
    while i < n
        invariant
            n == list1@.len() <= 30_000,
            list2@.len() <= 30_000,
            i <= n,
            forall|a: int, b: int|
                0 <= a < b < out@.len() ==> (#[trigger] out@[a]).0 != (#[trigger] out@[b]).0,
            forall|a: int|
                0 <= a < out@.len() ==> count_occ(list1@.take(i as int), (#[trigger] out@[a]).0)
                    >= 1 && out@[a].1 == count_occ(list1@.take(i as int), out@[a].0) * count_occ(
                    list2@,
                    out@[a].0,
                ),
            forall|v: i32|
                #[trigger] count_occ(list1@.take(i as int), v) >= 1 ==> exists|a: int|
                    0 <= a < out@.len() && (#[trigger] out@[a]).0 == v,
        decreases n - i,
    {
        let item: i32 = list1[i];
        let c2: usize = count_in(list2, item);
        let ghost out_pre = out@;
        proof {
            assert(list1@.take(i + 1).drop_last() =~= list1@.take(i as int));
            assert(list1@.take(i + 1).last() == list1@[i as int]);
            lemma_count_occ_le(list1@.take(i as int), item);
            lemma_count_occ_le(list2@, item);
        }
        let m: usize = out.len();
        let mut k: usize = 0;
        let mut found: bool = false;
        while k < m && !found
            invariant
                m == out@.len(),
                k <= m,
                !found ==> forall|a: int| 0 <= a < k ==> (#[trigger] out@[a]).0 != item,
                found ==> k < m && out@[k as int].0 == item,
            decreases m - k + if found {
                0int
            } else {
                1int
            },
        {
            if out[k].0 == item {
                found = true;
            } else {
                k = k + 1;
            }
        }
        if found {
            let old_pair: (i32, i32) = out[k];
            proof {
                lemma_count_occ_le(list1@.take(i as int), item);
                assert(count_occ(list1@.take(i as int), item) * count_occ(list2@, item) + count_occ(
                    list2@,
                    item,
                ) == count_occ(list1@.take(i + 1), item) * count_occ(list2@, item))
                    by (nonlinear_arith)
                    requires
                        count_occ(list1@.take(i + 1), item) == count_occ(
                            list1@.take(i as int),
                            item,
                        ) + 1,
                {}
                assert(count_occ(list1@.take(i + 1), item) * count_occ(list2@, item) <= 30_000
                    * 30_000) by (nonlinear_arith)
                    requires
                        count_occ(list1@.take(i + 1), item) <= 30_000,
                        count_occ(list2@, item) <= 30_000,
                {}
            }
            out[k] = (item, old_pair.1 + c2 as i32);
            proof {
                assert forall|a: int|
                    0 <= a < out@.len() implies count_occ(
                    list1@.take(i + 1),
                    (#[trigger] out@[a]).0,
                ) >= 1 && out@[a].1 == count_occ(list1@.take(i + 1), out@[a].0) * count_occ(
                    list2@,
                    out@[a].0,
                ) by {
                    if a != k {
                        assert(out@[a] == out_pre[a]);
                        assert(out@[a].0 != item);
                        assert(count_occ(list1@.take(i + 1), out@[a].0) == count_occ(
                            list1@.take(i as int),
                            out@[a].0,
                        ));
                    }
                }
                assert forall|v: i32|
                    #[trigger] count_occ(list1@.take(i + 1), v) >= 1 implies exists|a: int|
                    0 <= a < out@.len() && (#[trigger] out@[a]).0 == v by {
                    if v == item {
                        assert(out@[k as int].0 == v);
                    } else {
                        assert(count_occ(list1@.take(i as int), v) >= 1);
                        let a0 = choose|a: int|
                            0 <= a < out_pre.len() && (#[trigger] out_pre[a]).0 == v;
                        assert(out@[a0].0 == v);
                    }
                }
            }
        } else {
            proof {
                assert(count_occ(list1@.take(i as int), item) == 0) by {
                    if count_occ(list1@.take(i as int), item) >= 1 {
                        let a0 = choose|a: int|
                            0 <= a < out_pre.len() && (#[trigger] out_pre[a]).0 == item;
                    }
                }
                assert(count_occ(list1@.take(i + 1), item) == 1);
                assert(1 * count_occ(list2@, item) == count_occ(list2@, item))
                    by (nonlinear_arith);
            }
            out.push((item, c2 as i32));
            proof {
                assert forall|a: int|
                    0 <= a < out@.len() implies count_occ(
                    list1@.take(i + 1),
                    (#[trigger] out@[a]).0,
                ) >= 1 && out@[a].1 == count_occ(list1@.take(i + 1), out@[a].0) * count_occ(
                    list2@,
                    out@[a].0,
                ) by {
                    if a < out@.len() - 1 {
                        assert(out@[a] == out_pre[a]);
                        assert(out@[a].0 != item);
                        assert(count_occ(list1@.take(i + 1), out@[a].0) == count_occ(
                            list1@.take(i as int),
                            out@[a].0,
                        ));
                    } else {
                        assert(out@[a] == (item, c2 as i32));
                    }
                }
                assert forall|v: i32|
                    #[trigger] count_occ(list1@.take(i + 1), v) >= 1 implies exists|a: int|
                    0 <= a < out@.len() && (#[trigger] out@[a]).0 == v by {
                    if v == item {
                        assert(out@[out@.len() - 1].0 == v);
                    } else {
                        assert(count_occ(list1@.take(i as int), v) >= 1);
                        let a0 = choose|a: int|
                            0 <= a < out_pre.len() && (#[trigger] out_pre[a]).0 == v;
                        assert(out@[a0].0 == v);
                    }
                }
                assert forall|a: int, b: int|
                    0 <= a < b < out@.len() implies (#[trigger] out@[a]).0 != (
                #[trigger] out@[b]).0 by {
                    if b == out@.len() - 1 {
                        assert(out@[a] == out_pre[a]);
                        assert(out@[b].0 == item);
                    }
                }
            }
        }
        i = i + 1;
    }
    proof {
        assert(list1@.take(n as int) =~= list1@);
    }
    out
}

} // verus!
