//! Disk compaction: building the block map from the dense layout, free
//! span search, and checksums.

use vstd::prelude::*;
use vstd::slice::slice_index_get;

verus! {

/// The block written for the `i`-th dense-layout entry: even entries are
/// files (numbered in order), odd entries are free space.
pub open spec fn layout_block(i: int) -> Option<usize> {
    if i % 2 == 0 {
        Some((i / 2) as usize)
    } else {
        None
    }
}

/// The disk map spelled out from the first `i` dense-layout entries.
pub open spec fn disk_spec(inp: Seq<usize>, i: int) -> Seq<Option<usize>>
    decreases i,
{
    if i <= 0 {
        Seq::empty()
    } else {
        disk_spec(inp, i - 1) + Seq::new(inp[i - 1] as nat, |x: int| layout_block(i - 1))
    }
}

/// Expands the dense layout (alternating file and free-space lengths)
/// into one block per disk cell.
pub fn construct_disk_map(inp: &Vec<usize>) -> (r: Vec<Option<usize>>)
    ensures
        r@ == disk_spec(inp@, inp@.len() as int),
{
    let n: usize = inp.len();
    let mut disk_map: Vec<Option<usize>> = Vec::new();
    let mut file_id: usize = 0;
    let mut i: usize = 0;
    proof {
        assert(disk_map@ =~= disk_spec(inp@, 0));
    }
    while i < n
        invariant
            n == inp@.len(),
            i <= n,
            file_id == (i + 1) / 2,
            disk_map@ == disk_spec(inp@, i as int),
        decreases n - i,
    {
        let length: usize = inp[i];
        let block: Option<usize> = if i % 2 == 0 {
            Some(file_id)
        } else {
            None
        };
        proof {
            assert(block == layout_block(i as int));
        }
        let mut k: usize = 0;
        while k < length
            invariant
                k <= length,
                block == layout_block(i as int),
                length == inp@[i as int],
                i < n == inp@.len(),
                disk_map@ == disk_spec(inp@, i as int) + Seq::new(
                    k as nat,
                    |x: int| layout_block(i as int),
                ),
            decreases length - k,
        {
            disk_map.push(block);
            proof {
                assert(disk_map@ =~= disk_spec(inp@, i as int) + Seq::new(
                    (k + 1) as nat,
                    |x: int| layout_block(i as int),
                ));
            }
            k = k + 1;
        }
        if i % 2 == 0 {
            file_id = file_id + 1;
        }
        proof {
            assert(disk_map@ =~= disk_spec(inp@, i + 1));
        }
        i = i + 1;
    }
    disk_map
}

/// Checksum of the first `i` blocks: position times file number, free
/// cells counting zero.
pub open spec fn disk_checksum(d: Seq<Option<usize>>, i: int) -> nat
    decreases i,
{
    if i <= 0 {
        0
    } else {
        disk_checksum(d, i - 1) + ((i - 1) * (match d[i - 1] {
            Some(v) => v as int,
            None => 0int,
        })) as nat
    }
}

proof fn lemma_disk_checksum_prefix(d: Seq<Option<usize>>, i: int)
    requires
        0 <= i <= d.len(),
    ensures
        disk_checksum(d, i) <= disk_checksum(d, d.len() as int),
    decreases d.len() - i,
{
    if i < d.len() {
        lemma_disk_checksum_prefix(d, i + 1);
        let blockval: int = match d[i] {
            Some(v) => v as int,
            None => 0int,
        };
        assert(i * blockval >= 0) by (nonlinear_arith)
            requires
                i >= 0,
                blockval >= 0,
        {}
    }
}

/// Checksum of a fully compacted disk, every cell holding a file block.
pub fn calculate_checksum(disk_map: &Vec<Option<usize>>) -> (r: usize)
    requires
        forall|j: int| 0 <= j < disk_map@.len() ==> (#[trigger] disk_map@[j]) is Some,
        disk_checksum(disk_map@, disk_map@.len() as int) <= usize::MAX,
    ensures
        r == disk_checksum(disk_map@, disk_map@.len() as int),
{
    calculate_new_checksum(disk_map)
}

/// Checksum of a disk that may still hold free cells, which count zero.
pub fn calculate_new_checksum(disk_map: &Vec<Option<usize>>) -> (r: usize)
    requires
        disk_checksum(disk_map@, disk_map@.len() as int) <= usize::MAX,
    ensures
        r == disk_checksum(disk_map@, disk_map@.len() as int),
{
    let n: usize = disk_map.len();
    let mut total: usize = 0;
    let mut i: usize = 0;
    while i < n
        invariant
            n == disk_map@.len(),
            i <= n,
            total == disk_checksum(disk_map@, i as int),
            disk_checksum(disk_map@, n as int) <= usize::MAX,
        decreases n - i,
    {
        proof {
            lemma_disk_checksum_prefix(disk_map@, i + 1);
        }
        match disk_map[i] {
            Some(v) => {
                proof {
                    assert(disk_checksum(disk_map@, i + 1) == disk_checksum(disk_map@, i as int)
                        + ((i as int) * (v as int)) as nat);
                }
                total = total + i * v;
            },
            None => {
                proof {
                    assert(disk_checksum(disk_map@, i + 1) == disk_checksum(
                        disk_map@,
                        i as int,
                    ) + 0);
                }
            },
        }
        i = i + 1;
    }
    total
}

/// A free span usable for a file: it lies wholly before the file and is
/// long enough.
pub open spec fn span_fits(span: (usize, usize), file_start: int, file_length: int) -> bool {
    span.0 + span.1 <= file_start && span.1 >= file_length
}

/// Finds the leftmost free span that can host the file, if any.
pub fn find_leftmost_free_span(
    free_spans: &[(usize, usize)],
    file_start: usize,
    file_length: usize,
) -> (r: Option<usize>)
    ensures
        match r {
            Some(idx) => 0 <= idx < free_spans@.len() && span_fits(
                free_spans@[idx as int],
                file_start as int,
                file_length as int,
            ) && forall|x: int|
                0 <= x < idx ==> !span_fits(
                    #[trigger] free_spans@[x],
                    file_start as int,
                    file_length as int,
                ),
            None => forall|x: int|
                0 <= x < free_spans@.len() ==> !span_fits(
                    #[trigger] free_spans@[x],
                    file_start as int,
                    file_length as int,
                ),
        },
{
    let n: usize = free_spans.len();
    let mut i: usize = 0;
    while i < n
        invariant
            n == free_spans@.len(),
            i <= n,
            forall|x: int|
                0 <= x < i ==> !span_fits(
                    #[trigger] free_spans@[x],
                    file_start as int,
                    file_length as int,
                ),
        decreases n - i,
    {
        let (span_start, span_len) = *slice_index_get(free_spans, i);
        if span_start <= file_start && span_len <= file_start - span_start && span_len
            >= file_length {
            return Some(i);
        }
        i = i + 1;
    }
    None
}

} // verus!
