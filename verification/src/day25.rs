//! Keys and locks: pin-height compatibility.

use vstd::prelude::*;

verus! {

/// Pin heights of one key or lock schematic.
pub struct Lock {
    pub pins: Vec<u16>,
}

/// The parsed schematics, keys and locks apart.
pub struct Input {
    pub keys: Vec<Lock>,
    pub locks: Vec<Lock>,
}

/// A key fits a lock when no shared pin column overlaps: each pair of
/// heights sums to at most five.
pub open spec fn pins_fit(key: Seq<u16>, lock: Seq<u16>) -> bool {
    forall|i: int|
        0 <= i < key.len() && i < lock.len() ==> #[trigger] key[i] + lock[i] <= 5
}

/// Checks a key against a lock, column by column.
pub fn check_pins(key: &Lock, lock: &Lock) -> (r: bool)
    ensures
        r == pins_fit(key.pins@, lock.pins@),
{
    let n: usize = if key.pins.len() < lock.pins.len() {
        key.pins.len()
    } else {
        lock.pins.len()
    };
    let mut i: usize = 0;
    while i < n
        invariant
            n <= key.pins@.len(),
            n <= lock.pins@.len(),
            n == if key.pins@.len() < lock.pins@.len() {
                key.pins@.len()
            } else {
                lock.pins@.len()
            },
            i <= n,
            forall|x: int| 0 <= x < i ==> #[trigger] key.pins@[x] + lock.pins@[x] <= 5,
        decreases n - i,
    {
        let k: u32 = key.pins[i] as u32;
        let l: u32 = lock.pins[i] as u32;
        if k + l > 5 {
            return false;
        }
        i = i + 1;
    }
    true
}

/// Number of locks a single key fits, scanning a prefix of the lock list.
pub open spec fn fits_among(key: Seq<u16>, locks: Seq<Lock>) -> nat
    decreases locks.len(),
{
    if locks.len() == 0 {
        0
    } else {
        fits_among(key, locks.drop_last()) + if pins_fit(key, locks.last().pins@) {
            1nat
        } else {
            0nat
        }
    }
}

/// Number of fitting `(key, lock)` pairs.
pub open spec fn count_fits(keys: Seq<Lock>, locks: Seq<Lock>) -> nat
    decreases keys.len(),
{
    if keys.len() == 0 {
        0
    } else {
        count_fits(keys.drop_last(), locks) + fits_among(keys.last().pins@, locks)
    }
}

/// Counts how many key/lock pairs fit together.
pub fn check_all_locks(inp: &Input) -> (r: usize)
    requires
        inp.keys@.len() * inp.locks@.len() <= usize::MAX,
    ensures
        r == count_fits(inp.keys@, inp.locks@),
{
    let nk: usize = inp.keys.len();
    let nl: usize = inp.locks.len();
    let mut count: usize = 0;
    let mut i: usize = 0;
    proof {
        lemma_count_fits_bound(inp.keys@, inp.locks@);
        lemma_count_fits_prefix(inp.keys@, inp.locks@, 0);
        assert(inp.keys@.take(0) =~= Seq::<Lock>::empty());
    }
    while i < nk
        invariant
            nk == inp.keys@.len(),
            nl == inp.locks@.len(),
            nk * nl <= usize::MAX,
            i <= nk,
            count == count_fits(inp.keys@.take(i as int), inp.locks@),
            count_fits(inp.keys@, inp.locks@) <= nk * nl,
            count <= count_fits(inp.keys@, inp.locks@),
        decreases nk - i,
    {
        let mut j: usize = 0;
        proof {
            assert(inp.locks@.take(0) =~= Seq::<Lock>::empty());
            assert(inp.keys@.take(i + 1).drop_last() =~= inp.keys@.take(i as int));
            assert(inp.keys@.take(i + 1).last() == inp.keys@[i as int]);
            lemma_count_fits_prefix(inp.keys@, inp.locks@, i + 1);
        }
        while j < nl
            invariant
                nk == inp.keys@.len(),
                nl == inp.locks@.len(),
                nk * nl <= usize::MAX,
                i < nk,
                j <= nl,
                count == count_fits(inp.keys@.take(i as int), inp.locks@) + fits_among(
                    inp.keys@[i as int].pins@,
                    inp.locks@.take(j as int),
                ),
                count_fits(inp.keys@, inp.locks@) <= nk * nl,
                count + fits_among(inp.keys@[i as int].pins@, inp.locks@) - fits_among(
                    inp.keys@[i as int].pins@,
                    inp.locks@.take(j as int),
                ) <= count_fits(inp.keys@, inp.locks@),
            decreases nl - j,
        {
            proof {
                assert(inp.locks@.take(j + 1).drop_last() =~= inp.locks@.take(j as int));
                assert(inp.locks@.take(j + 1).last() == inp.locks@[j as int]);
                lemma_fits_among_prefix(inp.keys@[i as int].pins@, inp.locks@, j + 1);
            }
            if check_pins(&inp.keys[i], &inp.locks[j]) {
                count = count + 1;
            }
            j = j + 1;
        }
        proof {
            assert(inp.locks@.take(nl as int) =~= inp.locks@);
            assert(inp.keys@.take(i + 1).drop_last() =~= inp.keys@.take(i as int));
            assert(inp.keys@.take(i + 1).last() == inp.keys@[i as int]);
            lemma_count_fits_prefix(inp.keys@, inp.locks@, i + 1);
        }
        i = i + 1;
    }
    proof {
        assert(inp.keys@.take(nk as int) =~= inp.keys@);
    }
    count
}

/// A single key fits at most every lock of a prefix.
proof fn lemma_fits_among_prefix(key: Seq<u16>, locks: Seq<Lock>, j: int)
    requires
        0 <= j <= locks.len(),
    ensures
        fits_among(key, locks.take(j)) <= fits_among(key, locks),
        fits_among(key, locks) <= locks.len(),
    decreases locks.len() - j,
{
    if j < locks.len() {
        assert(locks.take(j + 1).drop_last() =~= locks.take(j));
        lemma_fits_among_prefix(key, locks, j + 1);
    } else {
        assert(locks.take(j) =~= locks);
        lemma_fits_among_len(key, locks);
    }
}

proof fn lemma_fits_among_len(key: Seq<u16>, locks: Seq<Lock>)
    ensures
        fits_among(key, locks) <= locks.len(),
    decreases locks.len(),
{
    if locks.len() > 0 {
        lemma_fits_among_len(key, locks.drop_last());
    }
}

/// Prefix sums of the pair count never exceed the whole.
proof fn lemma_count_fits_prefix(keys: Seq<Lock>, locks: Seq<Lock>, i: int)
    requires
        0 <= i <= keys.len(),
    ensures
        count_fits(keys.take(i), locks) <= count_fits(keys, locks),
    decreases keys.len() - i,
{
    if i < keys.len() {
        assert(keys.take(i + 1).drop_last() =~= keys.take(i));
        assert(keys.take(i + 1).last() == keys[i]);
        lemma_count_fits_prefix(keys, locks, i + 1);
    } else {
        assert(keys.take(i) =~= keys);
    }
}

/// The pair count is at most `keys * locks`.
proof fn lemma_count_fits_bound(keys: Seq<Lock>, locks: Seq<Lock>)
    ensures
        count_fits(keys, locks) <= keys.len() * locks.len(),
    decreases keys.len(),
{
    if keys.len() > 0 {
        lemma_count_fits_bound(keys.drop_last(), locks);
        lemma_fits_among_len(keys.last().pins@, locks);
        assert((keys.len() - 1) * locks.len() + locks.len() == keys.len() * locks.len())
            by (nonlinear_arith);
    }
}

} // verus!
