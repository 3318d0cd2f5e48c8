//! Towel patterns: whether and in how many ways a design can be tiled
//! from a list of patterns.

use vstd::prelude::*;

verus! {

/// A parsed puzzle: the available patterns ("tokens") and the designs to
/// tile with them.
pub struct Input {
    pub tokens: Vec<String>,
    pub patterns: Vec<String>,
}

/// Some listed pattern equals `s`.
pub open spec fn has_pattern(ps: Seq<Seq<char>>, s: Seq<char>) -> bool {
    exists|k: int| 0 <= k < ps.len() && ps[k] == s
}

/// Every listed pattern is non-empty.
pub open spec fn patterns_ok(ps: Seq<Seq<char>>) -> bool {
    forall|k: int| 0 <= k < ps.len() ==> (#[trigger] ps[k]).len() >= 1
}

/// Number of tilings of the length-`i` prefix, summed over cut points
/// below `j`: a tiling cuts the prefix at some `x` where the piece
/// `text[x .. i]` is a listed pattern and the rest tiles recursively.
pub open spec fn split_sum(text: Seq<char>, ps: Seq<Seq<char>>, i: int, j: int) -> nat
    decreases i, j,
        when j <= i
{
    if j <= 0 || i <= 0 {
        0
    } else {
        split_sum(text, ps, i, j - 1) + if has_pattern(ps, text.subrange(j - 1, i)) {
            split_count(text, ps, j - 1)
        } else {
            0nat
        }
    }
}

/// Number of tilings of the length-`i` prefix of `text`.
pub open spec fn split_count(text: Seq<char>, ps: Seq<Seq<char>>, i: int) -> nat
    decreases i, i + 1,
{
    if i <= 0 {
        1
    } else {
        split_sum(text, ps, i, i)
    }
}

/// Powers of two, bounding how fast tiling counts can grow.
pub open spec fn pow2(d: nat) -> nat
    decreases d,
{
    if d == 0 {
        1
    } else {
        2 * pow2((d - 1) as nat)
    }
}

/// The sixty-third power of two, spelled out.
pub proof fn lemma_pow2_63()
    ensures
        pow2(63) == 0x8000_0000_0000_0000,
{
    reveal_with_fuel(pow2, 64);
}

pub proof fn lemma_pow2_monotone(d1: nat, d2: nat)
    requires
        d1 <= d2,
    ensures
        pow2(d1) <= pow2(d2),
    decreases d2,
{
    if d1 < d2 && d2 > 0 {
        lemma_pow2_monotone(d1, (d2 - 1) as nat);
    }
}

/// Tiling counts are at most exponential in the prefix length.
pub proof fn lemma_split_count_bound(text: Seq<char>, ps: Seq<Seq<char>>, i: int)
    ensures
        i >= 1 ==> split_count(text, ps, i) <= pow2(i as nat) - 1,
        split_count(text, ps, i) <= pow2(if i >= 0 {
            i as nat
        } else {
            0nat
        }),
    decreases i, i + 1,
{
    if i >= 1 {
        lemma_split_sum_bound(text, ps, i, i);
    }
}

proof fn lemma_split_sum_bound(text: Seq<char>, ps: Seq<Seq<char>>, i: int, j: int)
    requires
        1 <= i,
        0 <= j <= i,
    ensures
        split_sum(text, ps, i, j) <= pow2(j as nat) - 1,
    decreases i, j,
{
    if j > 0 {
        lemma_split_sum_bound(text, ps, i, j - 1);
        lemma_split_count_bound(text, ps, j - 1);
        if j - 1 >= 1 {
            assert(pow2((j - 1) as nat) >= 1) by {
                lemma_pow2_monotone(0, (j - 1) as nat);
            }
        }
    }
}

/// Compares a text slice with one pattern.
fn str_eq(a: &str, b: &str) -> (r: bool)
    ensures
        r == (a@ == b@),
{
    let na: usize = a.unicode_len();
    let nb: usize = b.unicode_len();
    if na != nb {
        return false;
    }
    let mut i: usize = 0;
    while i < na
        invariant
            na == a@.len(),
            nb == b@.len(),
            na == nb,
            i <= na,
            forall|x: int| 0 <= x < i ==> a@[x] == b@[x],
        decreases na - i,
    {
        if a.get_char(i) != b.get_char(i) {
            return false;
        }
        i = i + 1;
    }
    proof {
        assert(a@ =~= b@);
    }
    true
}

/// Whether any listed pattern equals the slice.
fn contains_pattern(patterns: &Vec<String>, piece: &str) -> (r: bool)
    ensures
        r == has_pattern(patterns@.map_values(|p: String| p@), piece@),
{
    let ghost ps = patterns@.map_values(|p: String| p@);
    let n: usize = patterns.len();
    let mut k: usize = 0;
    while k < n
        invariant
            n == patterns@.len(),
            ps == patterns@.map_values(|p: String| p@),
            k <= n,
            forall|x: int| 0 <= x < k ==> #[trigger] ps[x] != piece@,
        decreases n - k,
    {
        if str_eq(patterns[k].as_str(), piece) {
            proof {
                assert(ps[k as int] == piece@);
            }
            return true;
        }
        k = k + 1;
    }
    false
}

/// Counts the ways `text` can be tiled by listed patterns, by dynamic
/// programming over prefixes.
pub fn count_tokenization(text: &str, patterns: &Vec<String>) -> (r: u64)
    requires
        patterns_ok(patterns@.map_values(|p: String| p@)),
        text@.len() <= 63,
    ensures
        r == split_count(text@, patterns@.map_values(|p: String| p@), text@.len() as int),
{
    let ghost ps = patterns@.map_values(|p: String| p@);
    let n: usize = text.unicode_len();
    let mut dp: Vec<u64> = Vec::new();
    dp.push(1);
    let mut i: usize = 1;
    while i <= n
        invariant
            n == text@.len() <= 63,
            ps == patterns@.map_values(|p: String| p@),
            patterns_ok(ps),
            1 <= i <= n + 1,
            dp@.len() == i,
            forall|x: int| 0 <= x < i ==> #[trigger] dp@[x] == split_count(text@, ps, x),
        decreases n + 1 - i,
    {
        let mut acc: u64 = 0;
        let mut j: usize = 0;
        proof {
            lemma_split_sum_bound(text@, ps, i as int, i as int);
            lemma_pow2_63();
            lemma_pow2_monotone(i as nat, 63);
        }
        while j <= i
            invariant
                n == text@.len() <= 63,
                ps == patterns@.map_values(|p: String| p@),
                patterns_ok(ps),
                1 <= i <= n,
                j <= i + 1,
                dp@.len() == i,
                forall|x: int| 0 <= x < i ==> #[trigger] dp@[x] == split_count(text@, ps, x),
                acc == split_sum(
                    text@,
                    ps,
                    i as int,
                    if j <= i {
                        j as int
                    } else {
                        i as int
                    },
                ),
                split_sum(text@, ps, i as int, i as int) <= 0x7fff_ffff_ffff_ffff,
            decreases i + 1 - j,
        {
            if j < i {
                proof {
                    lemma_split_sum_prefix(text@, ps, i as int, j + 1);
                }
                let piece: &str = text.substring_char(j, i);
                if contains_pattern(patterns, piece) {
                    let prev: u64 = dp[j];
                    acc = acc + prev;
                }
            } else {
                proof {
                    lemma_split_sum_prefix(text@, ps, i as int, i as int);
                }
                // An empty piece never equals a (non-empty) pattern.
                proof {
                    assert(text@.subrange(j as int, i as int).len() == 0);
                    if has_pattern(ps, text@.subrange(j as int, i as int)) {
                        let k = choose|k: int|
                            0 <= k < ps.len() && ps[k] == text@.subrange(j as int, i as int);
                        assert(ps[k].len() >= 1);
                    }
                }
            }
            j = j + 1;
        }
        dp.push(acc);
        i = i + 1;
    }
    dp[n]
}

/// Partial cut-point sums never exceed the full sum.
proof fn lemma_split_sum_prefix(text: Seq<char>, ps: Seq<Seq<char>>, i: int, j: int)
    requires
        1 <= i,
        0 <= j <= i,
    ensures
        split_sum(text, ps, i, j) <= split_sum(text, ps, i, i),
    decreases i - j,
{
    if j < i {
        lemma_split_sum_prefix(text, ps, i, j + 1);
    }
}

/// Whether some cut below `j` starts a tiling of the length-`i` prefix.
pub open spec fn can_split_sum(text: Seq<char>, ps: Seq<Seq<char>>, i: int, j: int) -> bool
    decreases i, j,
        when j <= i
{
    if j <= 0 || i <= 0 {
        false
    } else {
        can_split_sum(text, ps, i, j - 1) || (has_pattern(ps, text.subrange(j - 1, i))
            && can_split(text, ps, j - 1))
    }
}

/// Whether the length-`i` prefix of `text` can be tiled at all.
pub open spec fn can_split(text: Seq<char>, ps: Seq<Seq<char>>, i: int) -> bool
    decreases i, i + 1,
{
    if i <= 0 {
        true
    } else {
        can_split_sum(text, ps, i, i)
    }
}

/// Whether `text` can be tiled by listed patterns, by the same dynamic
/// programming as the counting variant but over booleans, so neither a
/// length cap nor any pattern shape is needed.
pub fn can_tokenize(text: &str, patterns: &Vec<String>) -> (r: bool)
    ensures
        r == can_split(text@, patterns@.map_values(|p: String| p@), text@.len() as int),
{
    let ghost ps = patterns@.map_values(|p: String| p@);
    let n: usize = text.unicode_len();
    let mut dp: Vec<bool> = Vec::new();
    dp.push(true);
    let mut i: usize = 0;
    while i < n
        invariant
            n == text@.len(),
            ps == patterns@.map_values(|p: String| p@),
            i <= n,
            dp@.len() == i + 1,
            forall|x: int| 0 <= x <= i ==> #[trigger] dp@[x] == can_split(text@, ps, x),
        decreases n - i,
    {
        let mut acc: bool = false;
        let mut j: usize = 0;
        while j <= i
            invariant
                n == text@.len(),
                ps == patterns@.map_values(|p: String| p@),
                i < n,
                j <= i + 1,
                dp@.len() == i + 1,
                forall|x: int| 0 <= x <= i ==> #[trigger] dp@[x] == can_split(text@, ps, x),
                acc == can_split_sum(text@, ps, i + 1, j as int),
            decreases i + 1 - j,
        {
            let piece: &str = text.substring_char(j, i + 1);
            let hit: bool = contains_pattern(patterns, piece);
            let prev: bool = dp[j];
            if hit && prev {
                acc = true;
            }
            j = j + 1;
        }
        dp.push(acc);
        i = i + 1;
    }
    dp[n]
}

} // verus!
