//! Layered indirect-control command synthesizer.
//!
//! A code must be typed on a numeric keypad, but the keypad is operated by
//! a chain of robots, each driven through an identical directional pad.
//! The solver enumerates every tied-shortest gap-avoiding move sequence on
//! the numeric pad, expands candidates through the chain with a cost
//! function memoized on `(previous button, target button, remaining
//! depth)`, and sums `numeric value * minimal press count` over the codes.

use std::collections::HashMap;
use vstd::prelude::*;

verus! {

broadcast use vstd::std_specs::hash::group_hash_axioms;

// ---------------------------------------------------------------------------
// Buttons and pad topology
// ---------------------------------------------------------------------------

/// The five buttons of a directional pad.
pub open spec fn is_dir_button(b: char) -> bool {
    b == 'A' || b == '^' || b == 'v' || b == '<' || b == '>'
}

/// The eleven buttons of the numeric pad.
pub open spec fn is_num_button(b: char) -> bool {
    b == 'A' || ('0' <= b && b <= '9')
}

/// Every character of a sequence is a directional-pad button.
pub open spec fn dir_seq_ok(s: Seq<char>) -> bool {
    forall|i: int| 0 <= i < s.len() ==> is_dir_button(#[trigger] s[i])
}

/// Position `(row, column)` of a button on the numeric pad.  The layout is
/// `7 8 9 / 4 5 6 / 1 2 3 / _ 0 A`, with the gap at the bottom left.
pub open spec fn num_pos(b: char) -> (int, int) {
    if b == '7' {
        (0, 0)
    } else if b == '8' {
        (0, 1)
    } else if b == '9' {
        (0, 2)
    } else if b == '4' {
        (1, 0)
    } else if b == '5' {
        (1, 1)
    } else if b == '6' {
        (1, 2)
    } else if b == '1' {
        (2, 0)
    } else if b == '2' {
        (2, 1)
    } else if b == '3' {
        (2, 2)
    } else if b == '0' {
        (3, 1)
    } else {
        (3, 2)
    }
}

/// The gap cell of the numeric pad.
pub open spec fn num_gap() -> (int, int) {
    (3, 0)
}

/// A cell of the numeric pad that carries a button.
pub open spec fn num_cell_ok(p: (int, int)) -> bool {
    0 <= p.0 < 4 && 0 <= p.1 < 3 && p != num_gap()
}

/// The button found at a numeric-pad cell, if any.
pub open spec fn num_button_at(p: (int, int)) -> Option<char> {
    if p == (0int, 0int) {
        Some('7')
    } else if p == (0int, 1int) {
        Some('8')
    } else if p == (0int, 2int) {
        Some('9')
    } else if p == (1int, 0int) {
        Some('4')
    } else if p == (1int, 1int) {
        Some('5')
    } else if p == (1int, 2int) {
        Some('6')
    } else if p == (2int, 0int) {
        Some('1')
    } else if p == (2int, 1int) {
        Some('2')
    } else if p == (2int, 2int) {
        Some('3')
    } else if p == (3int, 1int) {
        Some('0')
    } else if p == (3int, 2int) {
        Some('A')
    } else {
        None
    }
}

// ---------------------------------------------------------------------------
// The fixed directional-pad routing table
// ---------------------------------------------------------------------------

/// The chosen minimal move sequence (ending in the activate press) that a
/// controller issues to drive the pad below from button `from` to button
/// `to`.
pub open spec fn arrow_moves(from: char, to: char) -> Seq<char> {
    if from == 'A' {
        if to == 'A' {
            seq!['A']
        } else if to == '^' {
            seq!['<', 'A']
        } else if to == 'v' {
            seq!['<', 'v', 'A']
        } else if to == '<' {
            seq!['v', '<', '<', 'A']
        } else {
            seq!['v', 'A']
        }
    } else if from == '^' {
        if to == 'A' {
            seq!['>', 'A']
        } else if to == '^' {
            seq!['A']
        } else if to == 'v' {
            seq!['v', 'A']
        } else if to == '<' {
            seq!['v', '<', 'A']
        } else {
            seq!['v', '>', 'A']
        }
    } else if from == 'v' {
        if to == 'A' {
            seq!['^', '>', 'A']
        } else if to == '^' {
            seq!['^', 'A']
        } else if to == 'v' {
            seq!['A']
        } else if to == '<' {
            seq!['<', 'A']
        } else {
            seq!['>', 'A']
        }
    } else if from == '<' {
        if to == 'A' {
            seq!['>', '>', '^', 'A']
        } else if to == '^' {
            seq!['>', '^', 'A']
        } else if to == 'v' {
            seq!['>', 'A']
        } else if to == '<' {
            seq!['A']
        } else {
            seq!['>', '>', 'A']
        }
    } else {
        if to == 'A' {
            seq!['^', 'A']
        } else if to == '^' {
            seq!['<', '^', 'A']
        } else if to == 'v' {
            seq!['<', 'A']
        } else if to == '<' {
            seq!['<', '<', 'A']
        } else {
            seq!['A']
        }
    }
}

/// Shape facts about every routing-table entry: it is non-empty, at most
/// four presses long, ends with the activate press and uses directional
/// buttons only.
pub proof fn lemma_arrow_moves_wf(from: char, to: char)
    requires
        is_dir_button(from),
        is_dir_button(to),
    ensures
        1 <= arrow_moves(from, to).len() <= 4,
        arrow_moves(from, to).last() == 'A',
        dir_seq_ok(arrow_moves(from, to)),
        from == to ==> arrow_moves(from, to) =~= seq!['A'],
{
    let s = arrow_moves(from, to);
    assert forall|i: int| 0 <= i < s.len() implies is_dir_button(#[trigger] s[i]) by {
        if i == 0 {
        } else if i == 1 {
        } else if i == 2 {
        } else {
        }
    }
}

// ---------------------------------------------------------------------------
// The chain cost function
// ---------------------------------------------------------------------------

/// Presses needed, `depth` levels above the bottom pad, to drive the pad
/// below from `prev` to `cur` and activate it once.  At depth zero the
/// operator types the routing-table entry directly; above that, the entry
/// itself must be typed through one more controller.
pub open spec fn seq_cost(prev: char, cur: char, depth: nat) -> nat
    decreases depth, 0nat,
{
    if depth == 0 {
        arrow_moves(prev, cur).len()
    } else {
        expand_cost(arrow_moves(prev, cur), 'A', (depth - 1) as nat)
    }
}

/// Presses needed, `depth` levels up, to type the whole sequence `s` on a
/// directional pad whose pointer currently rests on `prev`.
pub open spec fn expand_cost(s: Seq<char>, prev: char, depth: nat) -> nat
    decreases depth, s.len() + 1,
{
    if s.len() == 0 {
        0
    } else {
        seq_cost(prev, s[0], depth) + expand_cost(s.drop_first(), s[0], depth)
    }
}

/// Powers of four, the branching bound of one expansion level.
pub open spec fn pow4(d: nat) -> nat
    decreases d,
{
    if d == 0 {
        1
    } else {
        4 * pow4((d - 1) as nat)
    }
}

pub proof fn lemma_pow4_monotone(d1: nat, d2: nat)
    requires
        d1 <= d2,
    ensures
        pow4(d1) <= pow4(d2),
    decreases d2,
{
    if d1 < d2 && d2 > 0 {
        lemma_pow4_monotone(d1, (d2 - 1) as nat);
    }
}

/// Every cost is at least one press and at most geometric in the depth.
pub proof fn lemma_seq_cost_bounds(prev: char, cur: char, depth: nat)
    requires
        is_dir_button(prev),
        is_dir_button(cur),
    ensures
        1 <= seq_cost(prev, cur, depth) <= pow4(depth + 1),
    decreases depth, 0nat,
{
    lemma_arrow_moves_wf(prev, cur);
    if depth == 0 {
        assert(pow4(1) == 4) by {
            reveal_with_fuel(pow4, 3);
        }
    } else {
        lemma_expand_cost_bounds(arrow_moves(prev, cur), 'A', (depth - 1) as nat);
        assert(arrow_moves(prev, cur).len() * pow4(depth) <= 4 * pow4(depth)) by (nonlinear_arith)
            requires
                arrow_moves(prev, cur).len() <= 4,
        {}
        assert(pow4(depth + 1) == 4 * pow4(depth));
    }
}

/// A sequence of `n` presses costs between `n` and `n * pow4(depth + 1)`.
pub proof fn lemma_expand_cost_bounds(s: Seq<char>, prev: char, depth: nat)
    requires
        dir_seq_ok(s),
        is_dir_button(prev),
    ensures
        s.len() <= expand_cost(s, prev, depth) <= s.len() * pow4(depth + 1),
    decreases depth, s.len() + 1,
{
    if s.len() == 0 {
    } else {
        lemma_seq_cost_bounds(prev, s[0], depth);
        lemma_expand_cost_bounds(s.drop_first(), s[0], depth);
        assert(pow4(depth + 1) + (s.len() - 1) * pow4(depth + 1) == s.len() * pow4(depth + 1))
            by (nonlinear_arith);
    }
}

/// Pressing the button already under the pointer takes exactly one
/// activate press, at every chain depth.
pub proof fn lemma_cost_of_self_is_one(b: char, depth: nat)
    requires
        is_dir_button(b),
    ensures
        seq_cost(b, b, depth) == 1,
    decreases depth,
{
    lemma_arrow_moves_wf(b, b);
    if depth == 0 {
    } else {
        let d1 = (depth - 1) as nat;
        lemma_cost_of_self_is_one('A', d1);
        let s = seq!['A'];
        assert(arrow_moves(b, b) =~= s);
        assert(s.drop_first() =~= Seq::<char>::empty());
        assert(expand_cost(s.drop_first(), 'A', d1) == 0);
        assert(expand_cost(s, 'A', d1) == seq_cost('A', 'A', d1) + expand_cost(
            s.drop_first(),
            'A',
            d1,
        ));
        assert(seq_cost(b, b, depth) == expand_cost(arrow_moves(b, b), 'A', d1));
    }
}

/// A deeper controller chain never makes a transition cheaper.
pub proof fn lemma_cost_monotone_in_depth(prev: char, cur: char, d1: nat, d2: nat)
    requires
        is_dir_button(prev),
        is_dir_button(cur),
        d1 <= d2,
    ensures
        seq_cost(prev, cur, d1) <= seq_cost(prev, cur, d2),
    decreases d2,
{
    if d1 < d2 {
        lemma_cost_step_monotone(prev, cur, (d2 - 1) as nat);
        lemma_cost_monotone_in_depth(prev, cur, d1, (d2 - 1) as nat);
    }
}

proof fn lemma_cost_step_monotone(prev: char, cur: char, depth: nat)
    requires
        is_dir_button(prev),
        is_dir_button(cur),
    ensures
        seq_cost(prev, cur, depth) <= seq_cost(prev, cur, depth + 1),
    decreases depth, 0nat,
{
    lemma_arrow_moves_wf(prev, cur);
    let s = arrow_moves(prev, cur);
    if depth == 0 {
        lemma_expand_cost_bounds(s, 'A', 0);
    } else {
        lemma_expand_step_monotone(s, 'A', (depth - 1) as nat);
    }
}

proof fn lemma_expand_step_monotone(s: Seq<char>, prev: char, depth: nat)
    requires
        dir_seq_ok(s),
        is_dir_button(prev),
    ensures
        expand_cost(s, prev, depth) <= expand_cost(s, prev, depth + 1),
    decreases depth, s.len() + 1,
{
    if s.len() == 0 {
    } else {
        lemma_cost_step_monotone(prev, s[0], depth);
        lemma_expand_step_monotone(s.drop_first(), s[0], depth);
    }
}

// ---------------------------------------------------------------------------
// The memo cache
// ---------------------------------------------------------------------------

/// Maximum chain depth the solver accepts.
pub const MAX_ROBOTS: usize = 25;

/// Index of a directional button in the cache key encoding.
pub open spec fn dir_index(b: char) -> int {
    if b == 'A' {
        0
    } else if b == '^' {
        1
    } else if b == 'v' {
        2
    } else if b == '<' {
        3
    } else {
        4
    }
}

/// Packed cache key for a `(previous button, target button, remaining
/// depth)` triple.
pub open spec fn cache_key(prev: char, cur: char, depth: int) -> int {
    (dir_index(prev) * 5 + dir_index(cur)) * 32 + depth
}

/// Distinct admissible triples receive distinct keys.
pub proof fn lemma_cache_key_injective(p1: char, c1: char, d1: int, p2: char, c2: char, d2: int)
    requires
        is_dir_button(p1),
        is_dir_button(c1),
        is_dir_button(p2),
        is_dir_button(c2),
        0 <= d1 < 32,
        0 <= d2 < 32,
        cache_key(p1, c1, d1) == cache_key(p2, c2, d2),
    ensures
        p1 == p2 && c1 == c2 && d1 == d2,
{
}

/// Every entry of a well-formed cache stores the true cost of the triple
/// its key encodes.
pub open spec fn cache_wf(m: Map<u64, u64>) -> bool {
    forall|p: char, c: char, d: int|
        is_dir_button(p) && is_dir_button(c) && 0 <= d <= MAX_ROBOTS && #[trigger] m.contains_key(
            cache_key(p, c, d) as u64,
        ) ==> m[cache_key(p, c, d) as u64] == seq_cost(p, c, d as nat)
}

/// Explicit memo table for the chain cost function, keyed on the bounded
/// `(previous button, target button, remaining depth)` state.
pub struct CostCache {
    pub table: HashMap<u64, u64>,
}

impl CostCache {
    /// A cache is usable while every stored entry is truthful.
    pub open spec fn wf(&self) -> bool {
        cache_wf(self.table@)
    }

    /// Creates an empty cache.
    pub fn new() -> (r: CostCache)
        ensures
            r.wf(),
    {
        CostCache { table: HashMap::new() }
    }
}

fn dir_index_exec(b: char) -> (r: u8)
    requires
        is_dir_button(b),
    ensures
        r == dir_index(b),
{
    if b == 'A' {
        0
    } else if b == '^' {
        1
    } else if b == 'v' {
        2
    } else if b == '<' {
        3
    } else {
        4
    }
}

fn cache_key_exec(prev: char, cur: char, depth: usize) -> (r: u64)
    requires
        is_dir_button(prev),
        is_dir_button(cur),
        depth <= MAX_ROBOTS,
    ensures
        r == cache_key(prev, cur, depth as int),
{
    let ip: u64 = dir_index_exec(prev) as u64;
    let ic: u64 = dir_index_exec(cur) as u64;
    (ip * 5 + ic) * 32 + (depth as u64)
}

// ---------------------------------------------------------------------------
// The routing table as executable code
// ---------------------------------------------------------------------------

/// The directional pad and its fixed routing table.
pub struct ArrowPad {}

impl ArrowPad {
    /// Creates the pad.
    pub fn new() -> (r: ArrowPad) {
        ArrowPad {}
    }

    /// Looks up the routing-table entry for a pair of buttons.
    pub fn pad_move_map(&self, from: char, to: char) -> (r: Vec<char>)
        requires
            is_dir_button(from),
            is_dir_button(to),
        ensures
            r@ == arrow_moves(from, to),
    {
        if from == 'A' {
            if to == 'A' {
                vec!['A']
            } else if to == '^' {
                vec!['<', 'A']
            } else if to == 'v' {
                vec!['<', 'v', 'A']
            } else if to == '<' {
                vec!['v', '<', '<', 'A']
            } else {
                vec!['v', 'A']
            }
        } else if from == '^' {
            if to == 'A' {
                vec!['>', 'A']
            } else if to == '^' {
                vec!['A']
            } else if to == 'v' {
                vec!['v', 'A']
            } else if to == '<' {
                vec!['v', '<', 'A']
            } else {
                vec!['v', '>', 'A']
            }
        } else if from == 'v' {
            if to == 'A' {
                vec!['^', '>', 'A']
            } else if to == '^' {
                vec!['^', 'A']
            } else if to == 'v' {
                vec!['A']
            } else if to == '<' {
                vec!['<', 'A']
            } else {
                vec!['>', 'A']
            }
        } else if from == '<' {
            if to == 'A' {
                vec!['>', '>', '^', 'A']
            } else if to == '^' {
                vec!['>', '^', 'A']
            } else if to == 'v' {
                vec!['>', 'A']
            } else if to == '<' {
                vec!['A']
            } else {
                vec!['>', '>', 'A']
            }
        } else {
            if to == 'A' {
                vec!['^', 'A']
            } else if to == '^' {
                vec!['<', '^', 'A']
            } else if to == 'v' {
                vec!['<', 'A']
            } else if to == '<' {
                vec!['<', '<', 'A']
            } else {
                vec!['A']
            }
        }
    }
}

// ---------------------------------------------------------------------------
// The memoized chain cost
// ---------------------------------------------------------------------------

/// Memoized cost of driving the pad below from `prev_button` to
/// `current_button` when `robot_num` of `num_robots` chain levels are
/// already above us.
pub fn find_seq_len(
    prev_button: char,
    current_button: char,
    num_robots: usize,
    robot_num: usize,
    cache: &mut CostCache,
) -> (r: u64)
    requires
        is_dir_button(prev_button),
        is_dir_button(current_button),
        1 <= robot_num <= num_robots,
        num_robots <= MAX_ROBOTS,
        old(cache).wf(),
    ensures
        final(cache).wf(),
        r == seq_cost(prev_button, current_button, (num_robots - robot_num) as nat),
        r <= pow4((num_robots - robot_num + 1) as nat),
    decreases num_robots - robot_num,
{
    let depth: usize = num_robots - robot_num;
    let ghost d: nat = depth as nat;
    proof {
        lemma_seq_cost_bounds(prev_button, current_button, d);
    }
    let key: u64 = cache_key_exec(prev_button, current_button, depth);
    if let Some(v) = cache.table.get(&key) {
        proof {
            assert(cache.table@.contains_key(cache_key(prev_button, current_button, depth as int)
                as u64));
        }
        return *v;
    }
    let arrow_pad = ArrowPad::new();
    let moves: Vec<char> = arrow_pad.pad_move_map(prev_button, current_button);
    proof {
        lemma_arrow_moves_wf(prev_button, current_button);
    }
    let total: u64;
    if robot_num == num_robots {
        total = moves.len() as u64;
    } else {
        let ghost d1: nat = (d - 1) as nat;
        let mut acc: u64 = 0;
        let mut next_prev: char = 'A';
        let mut i: usize = 0;
        proof {
            lemma_expand_cost_bounds(moves@, 'A', d1);
            assert(moves@.skip(0) =~= moves@);
            assert(moves@.len() * pow4(d) <= 4 * pow4(d)) by (nonlinear_arith)
                requires
                    moves@.len() <= 4,
            {}
        }
        while i < moves.len()
            invariant
                is_dir_button(prev_button),
                is_dir_button(current_button),
                1 <= robot_num < num_robots,
                num_robots <= MAX_ROBOTS,
                d == num_robots - robot_num,
                d1 == d - 1,
                moves@ == arrow_moves(prev_button, current_button),
                dir_seq_ok(moves@),
                i <= moves@.len(),
                is_dir_button(next_prev),
                next_prev == if i == 0 {
                    'A'
                } else {
                    moves@[i - 1]
                },
                acc + expand_cost(moves@.skip(i as int), next_prev, d1) == expand_cost(
                    moves@,
                    'A',
                    d1,
                ),
                acc <= expand_cost(moves@, 'A', d1),
                expand_cost(moves@, 'A', d1) <= 4 * pow4(d),
                cache.wf(),
            decreases moves@.len() - i,
        {
            proof {
                assert(moves@.skip(i as int)[0] == moves@[i as int]);
                assert(moves@.skip(i as int).drop_first() =~= moves@.skip(i + 1));
                lemma_expand_cost_bounds(moves@.skip(i + 1), moves@[i as int], d1);
            }
            let step: u64 = find_seq_len(next_prev, moves[i], num_robots, robot_num + 1, cache);
            proof {
                lemma_pow4_monotone((d1 + 1) as nat, 26);
                lemma_pow4_monotone(d, 26);
                reveal_with_fuel(pow4, 27);
            }
            acc = acc + step;
            next_prev = moves[i];
            i = i + 1;
        }
        proof {
            assert(moves@.skip(moves@.len() as int) =~= Seq::<char>::empty());
        }
        total = acc;
    }
    proof {
        assert forall|p: char, c: char, dd: int|
            is_dir_button(p) && is_dir_button(c) && 0 <= dd <= MAX_ROBOTS
                && #[trigger] cache.table@.insert(key, total).contains_key(
                cache_key(p, c, dd) as u64,
            ) implies cache.table@.insert(key, total)[cache_key(p, c, dd) as u64] == seq_cost(
            p,
            c,
            dd as nat,
        ) by {
            if cache_key(p, c, dd) as u64 == key {
                lemma_cache_key_injective(p, c, dd, prev_button, current_button, depth as int);
            }
        }
    }
    cache.table.insert(key, total);
    total
}

/// Cache-free twin of [`find_seq_len`]: the fully recursive cost
/// computation.  Both functions return exactly `seq_cost` of the same
/// triple, so memoization is an optimization and not a semantic change.
pub fn find_seq_len_direct(
    prev_button: char,
    current_button: char,
    num_robots: usize,
    robot_num: usize,
) -> (r: u64)
    requires
        is_dir_button(prev_button),
        is_dir_button(current_button),
        1 <= robot_num <= num_robots,
        num_robots <= MAX_ROBOTS,
    ensures
        r == seq_cost(prev_button, current_button, (num_robots - robot_num) as nat),
    decreases num_robots - robot_num,
{
    let depth: usize = num_robots - robot_num;
    let ghost d: nat = depth as nat;
    proof {
        lemma_seq_cost_bounds(prev_button, current_button, d);
    }
    let arrow_pad = ArrowPad::new();
    let moves: Vec<char> = arrow_pad.pad_move_map(prev_button, current_button);
    proof {
        lemma_arrow_moves_wf(prev_button, current_button);
    }
    if robot_num == num_robots {
        return moves.len() as u64;
    }
    let ghost d1: nat = (d - 1) as nat;
    let mut acc: u64 = 0;
    let mut next_prev: char = 'A';
    let mut i: usize = 0;
    proof {
        lemma_expand_cost_bounds(moves@, 'A', d1);
        assert(moves@.skip(0) =~= moves@);
        assert(moves@.len() * pow4(d) <= 4 * pow4(d)) by (nonlinear_arith)
            requires
                moves@.len() <= 4,
        {}
    }
    while i < moves.len()
        invariant
            is_dir_button(prev_button),
            is_dir_button(current_button),
            1 <= robot_num < num_robots,
            num_robots <= MAX_ROBOTS,
            d == num_robots - robot_num,
            d1 == d - 1,
            moves@ == arrow_moves(prev_button, current_button),
            dir_seq_ok(moves@),
            i <= moves@.len(),
            is_dir_button(next_prev),
            next_prev == if i == 0 {
                'A'
            } else {
                moves@[i - 1]
            },
            acc + expand_cost(moves@.skip(i as int), next_prev, d1) == expand_cost(
                moves@,
                'A',
                d1,
            ),
            acc <= expand_cost(moves@, 'A', d1),
            expand_cost(moves@, 'A', d1) <= 4 * pow4(d),
        decreases moves@.len() - i,
    {
        proof {
            assert(moves@.skip(i as int)[0] == moves@[i as int]);
            assert(moves@.skip(i as int).drop_first() =~= moves@.skip(i + 1));
            lemma_expand_cost_bounds(moves@.skip(i + 1), moves@[i as int], d1);
        }
        let step: u64 = find_seq_len_direct(next_prev, moves[i], num_robots, robot_num + 1);
        proof {
            lemma_seq_cost_bounds(next_prev, moves@[i as int], d1);
            lemma_pow4_monotone((d1 + 1) as nat, 26);
            lemma_pow4_monotone(d, 26);
            reveal_with_fuel(pow4, 27);
        }
        acc = acc + step;
        next_prev = moves[i];
        i = i + 1;
    }
    proof {
        assert(moves@.skip(moves@.len() as int) =~= Seq::<char>::empty());
    }
    acc
}

/// Total presses needed at the top of a chain of `num_robots` directional
/// pads to type `seq` on the first of them.
pub fn get_seq_len(seq: &Vec<char>, num_robots: usize, cache: &mut CostCache) -> (r: u128)
    requires
        dir_seq_ok(seq@),
        1 <= num_robots <= MAX_ROBOTS,
        old(cache).wf(),
    ensures
        final(cache).wf(),
        r == expand_cost(seq@, 'A', (num_robots - 1) as nat),
{
    let ghost d1: nat = (num_robots - 1) as nat;
    let n: usize = seq.len();
    let mut total_len: u128 = 0;
    let mut prev_button: char = 'A';
    let mut i: usize = 0;
    proof {
        lemma_expand_cost_bounds(seq@, 'A', d1);
        lemma_pow4_monotone((d1 + 1) as nat, 26);
        assert(seq@.len() * pow4((d1 + 1) as nat) <= n * pow4(26)) by (nonlinear_arith)
            requires
                seq@.len() == n,
                pow4((d1 + 1) as nat) <= pow4(26),
        {}
        reveal_with_fuel(pow4, 27);
        assert(seq@.skip(0) =~= seq@);
    }
    while i < n
        invariant
            dir_seq_ok(seq@),
            1 <= num_robots <= MAX_ROBOTS,
            n == seq@.len(),
            d1 == num_robots - 1,
            i <= n,
            is_dir_button(prev_button),
            prev_button == if i == 0 {
                'A'
            } else {
                seq@[i - 1]
            },
            total_len + expand_cost(seq@.skip(i as int), prev_button, d1) == expand_cost(
                seq@,
                'A',
                d1,
            ),
            total_len <= expand_cost(seq@, 'A', d1),
            expand_cost(seq@, 'A', d1) <= n * 4503599627370496,
            cache.wf(),
        decreases n - i,
    {
        proof {
            assert(seq@.skip(i as int)[0] == seq@[i as int]);
            assert(seq@.skip(i as int).drop_first() =~= seq@.skip(i + 1));
            lemma_expand_cost_bounds(seq@.skip(i + 1), seq@[i as int], d1);
        }
        let step: u64 = find_seq_len(prev_button, seq[i], num_robots, 1, cache);
        proof {
            assert(expand_cost(seq@.skip(i as int), prev_button, d1) == seq_cost(
                prev_button,
                seq@[i as int],
                d1,
            ) + expand_cost(seq@.skip(i + 1), seq@[i as int], d1));
            assert(total_len + step <= expand_cost(seq@, 'A', d1));
        }
        total_len = total_len + (step as u128);
        prev_button = seq[i];
        i = i + 1;
    }
    proof {
        assert(seq@.skip(n as int) =~= Seq::<char>::empty());
    }
    total_len
}

} // verus!

verus! {

// ---------------------------------------------------------------------------
// Walks on a pad grid
// ---------------------------------------------------------------------------

/// Grid displacement of one direction symbol (zero for any other symbol).
pub open spec fn delta_of(ch: char) -> (int, int) {
    if ch == '^' {
        (-1, 0)
    } else if ch == 'v' {
        (1, 0)
    } else if ch == '<' {
        (0, -1)
    } else if ch == '>' {
        (0, 1)
    } else {
        (0, 0)
    }
}

/// The cell reached from `p` by one symbol.
pub open spec fn move_pos(p: (int, int), ch: char) -> (int, int) {
    (p.0 + delta_of(ch).0, p.1 + delta_of(ch).1)
}

/// The cell reached from `p` after a whole symbol sequence.
pub open spec fn pos_after(p: (int, int), s: Seq<char>) -> (int, int)
    decreases s.len(),
{
    if s.len() == 0 {
        p
    } else {
        pos_after(move_pos(p, s[0]), s.drop_first())
    }
}

/// A cell inside a `rows x cols` grid.
pub open spec fn in_grid(p: (int, int), rows: int, cols: int) -> bool {
    0 <= p.0 < rows && 0 <= p.1 < cols
}

/// Every cell a walk enters stays on the grid and off the gap.
pub open spec fn path_clear(p: (int, int), s: Seq<char>, gap: (int, int), rows: int, cols: int) -> bool
    decreases s.len(),
{
    if s.len() == 0 {
        true
    } else {
        let q = move_pos(p, s[0]);
        in_grid(q, rows, cols) && q != gap && path_clear(q, s.drop_first(), gap, rows, cols)
    }
}

pub open spec fn abs_val(x: int) -> int {
    if x < 0 {
        -x
    } else {
        x
    }
}

/// Taxicab distance between two cells.
pub open spec fn manhattan(a: (int, int), b: (int, int)) -> int {
    abs_val(a.0 - b.0) + abs_val(a.1 - b.1)
}

/// A tied-shortest, gap-avoiding walk: it reaches the target in exactly
/// the taxicab distance, never leaving the grid or entering the gap.
pub open spec fn is_min_walk(
    from: (int, int),
    to: (int, int),
    gap: (int, int),
    rows: int,
    cols: int,
    s: Seq<char>,
) -> bool {
    s.len() == manhattan(from, to) && pos_after(from, s) == to && path_clear(from, s, gap, rows, cols)
}

/// Membership of a symbol sequence in a list of move vectors.
pub open spec fn in_list(vs: Seq<Vec<char>>, s: Seq<char>) -> bool {
    exists|i: int| 0 <= i < vs.len() && vs[i]@ == s
}

/// No symbol sequence appears twice in the list: together with a
/// membership characterisation this pins the list as a set, so its
/// length is that set's cardinality.
pub open spec fn distinct_seqs(vs: Seq<Vec<char>>) -> bool {
    forall|i: int, j: int| 0 <= i < j < vs.len() ==> (#[trigger] vs[i])@ != (#[trigger] vs[j])@
}

/// Any walk that reaches the target is at least the taxicab distance long.
pub proof fn lemma_walk_len_ge_manhattan(p: (int, int), to: (int, int), s: Seq<char>)
    requires
        pos_after(p, s) == to,
    ensures
        s.len() >= manhattan(p, to),
    decreases s.len(),
{
    if s.len() > 0 {
        lemma_walk_len_ge_manhattan(move_pos(p, s[0]), to, s.drop_first());
    }
}

/// First-step analysis of a minimal walk: the walk is non-empty, its first
/// symbol moves one cell straight towards the target without entering the
/// gap, and the remainder is again a minimal walk.
pub proof fn lemma_min_walk_step(
    from: (int, int),
    to: (int, int),
    gap: (int, int),
    rows: int,
    cols: int,
    s: Seq<char>,
)
    requires
        is_min_walk(from, to, gap, rows, cols, s),
        from != to,
    ensures
        s.len() >= 1,
        manhattan(move_pos(from, s[0]), to) == manhattan(from, to) - 1,
        in_grid(move_pos(from, s[0]), rows, cols),
        move_pos(from, s[0]) != gap,
        is_min_walk(move_pos(from, s[0]), to, gap, rows, cols, s.drop_first()),
        (from.0 != to.0 && s[0] == (if to.0 > from.0 {
            'v'
        } else {
            '^'
        })) || (from.1 != to.1 && s[0] == (if to.1 > from.1 {
            '>'
        } else {
            '<'
        })),
{
    let q = move_pos(from, s[0]);
    lemma_walk_len_ge_manhattan(q, to, s.drop_first());
}

} // verus!

verus! {

/// Copies a move vector with one symbol prepended.
fn prepend_char(ch: char, tail: &Vec<char>) -> (r: Vec<char>)
    ensures
        r@ == seq![ch] + tail@,
{
    let mut out: Vec<char> = Vec::new();
    out.push(ch);
    let mut i: usize = 0;
    while i < tail.len()
        invariant
            i <= tail@.len(),
            out@.len() == i + 1,
            out@[0] == ch,
            forall|j: int| 0 <= j < i ==> out@[j + 1] == tail@[j],
        decreases tail@.len() - i,
    {
        out.push(tail[i]);
        i = i + 1;
    }
    proof {
        assert(out@ =~= seq![ch] + tail@);
    }
    out
}

/// The symbol that moves one cell towards the target, vertically or
/// horizontally.
pub open spec fn toward_step(from: (int, int), to: (int, int), vertical: bool) -> char {
    if vertical {
        if to.0 > from.0 {
            'v'
        } else {
            '^'
        }
    } else {
        if to.1 > from.1 {
            '>'
        } else {
            '<'
        }
    }
}

/// One branch of the generator: the walks whose first symbol steps
/// towards the target along the chosen axis (possible only when that axis
/// still differs and the entered cell is not the gap) and whose remainder
/// is a minimal walk from the entered cell.
pub open spec fn toward_branch(
    from: (int, int),
    to: (int, int),
    gap: (int, int),
    rows: int,
    cols: int,
    vertical: bool,
    s: Seq<char>,
) -> bool {
    let ch = toward_step(from, to, vertical);
    let q = move_pos(from, ch);
    (if vertical {
        from.0 != to.0
    } else {
        from.1 != to.1
    }) && q != gap && s.len() >= 1 && s[0] == ch && is_min_walk(q, to, gap, rows, cols, s.drop_first())
}

/// A minimal walk between distinct cells is exactly a first step towards
/// the target followed by a minimal walk from the entered cell.
pub proof fn lemma_min_walk_decompose(
    from: (int, int),
    to: (int, int),
    gap: (int, int),
    rows: int,
    cols: int,
    s: Seq<char>,
)
    requires
        from != to,
        in_grid(from, rows, cols),
        in_grid(to, rows, cols),
    ensures
        is_min_walk(from, to, gap, rows, cols, s) <==> (toward_branch(
            from,
            to,
            gap,
            rows,
            cols,
            true,
            s,
        ) || toward_branch(from, to, gap, rows, cols, false, s)),
{
    if is_min_walk(from, to, gap, rows, cols, s) {
        lemma_min_walk_step(from, to, gap, rows, cols, s);
    }
    if toward_branch(from, to, gap, rows, cols, true, s) || toward_branch(
        from,
        to,
        gap,
        rows,
        cols,
        false,
        s,
    ) {
        let vertical = toward_branch(from, to, gap, rows, cols, true, s);
        let ch = toward_step(from, to, vertical);
        let q = move_pos(from, ch);
        assert(manhattan(q, to) == manhattan(from, to) - 1);
        assert(pos_after(from, s) == pos_after(q, s.drop_first()));
        assert(is_min_walk(from, to, gap, rows, cols, s));
    }
}

/// Builds one branch of the walk enumeration: exactly those minimal walks
/// that start with the vertical (or horizontal) step towards the target.
fn toward_paths(
    r: usize,
    c: usize,
    tr: usize,
    tc: usize,
    gr: usize,
    gc: usize,
    rows: usize,
    cols: usize,
    vertical: bool,
) -> (out: Vec<Vec<char>>)
    requires
        in_grid((r as int, c as int), rows as int, cols as int),
        in_grid((tr as int, tc as int), rows as int, cols as int),
        (r as int, c as int) != (gr as int, gc as int),
        (tr as int, tc as int) != (gr as int, gc as int),
    ensures
        forall|s: Seq<char>| #[trigger] in_list(out@, s) <==> toward_branch(
            (r as int, c as int),
            (tr as int, tc as int),
            (gr as int, gc as int),
            rows as int,
            cols as int,
            vertical,
            s,
        ),
        distinct_seqs(out@),
    decreases manhattan((r as int, c as int), (tr as int, tc as int)), 0int,
{
    let ghost from = (r as int, c as int);
    let ghost to = (tr as int, tc as int);
    let ghost gap = (gr as int, gc as int);
    let mut out: Vec<Vec<char>> = Vec::new();
    if vertical && tr == r {
        return out;
    }
    if !vertical && tc == c {
        return out;
    }
    let nr: usize = if !vertical {
        r
    } else if tr > r {
        r + 1
    } else {
        r - 1
    };
    let nc: usize = if vertical {
        c
    } else if tc > c {
        c + 1
    } else {
        c - 1
    };
    let ch: char = if vertical {
        if tr > r {
            'v'
        } else {
            '^'
        }
    } else {
        if tc > c {
            '>'
        } else {
            '<'
        }
    };
    let ghost q = (nr as int, nc as int);
    proof {
        assert(ch == toward_step(from, to, vertical));
        assert(q == move_pos(from, ch));
        assert(manhattan(q, to) == manhattan(from, to) - 1);
    }
    if nr == gr && nc == gc {
        return out;
    }
    let sub = gen_paths(nr, nc, tr, tc, gr, gc, rows, cols);
    let mut i: usize = 0;
    while i < sub.len()
        invariant
            i <= sub@.len(),
            out@.len() == i,
            forall|j: int| 0 <= j < i ==> out@[j]@ == seq![ch] + sub@[j]@,
        decreases sub@.len() - i,
    {
        out.push(prepend_char(ch, &sub[i]));
        i = i + 1;
    }
    proof {
        assert forall|s: Seq<char>| #[trigger] in_list(out@, s) implies toward_branch(
            from,
            to,
            gap,
            rows as int,
            cols as int,
            vertical,
            s,
        ) by {
            let j = choose|j: int| 0 <= j < out@.len() && out@[j]@ == s;
            assert(out@[j]@ == seq![ch] + sub@[j]@);
            assert(in_list(sub@, sub@[j]@));
            assert(s.drop_first() =~= sub@[j]@);
        }
        assert forall|s: Seq<char>|
            toward_branch(from, to, gap, rows as int, cols as int, vertical, s) implies #[trigger] in_list(
            out@,
            s,
        ) by {
            assert(is_min_walk(q, to, gap, rows as int, cols as int, s.drop_first()));
            assert(in_list(sub@, s.drop_first()));
            let j = choose|j: int| 0 <= j < sub@.len() && sub@[j]@ == s.drop_first();
            assert(out@[j]@ == seq![ch] + sub@[j]@);
            assert(s =~= seq![ch] + s.drop_first());
        }
        assert forall|x: int, y: int|
            0 <= x < y < out@.len() implies (#[trigger] out@[x])@ != (#[trigger] out@[y])@ by {
            if out@[x]@ == out@[y]@ {
                assert(out@[x]@ == seq![ch] + sub@[x]@);
                assert(out@[y]@ == seq![ch] + sub@[y]@);
                assert((seq![ch] + sub@[x]@).drop_first() =~= sub@[x]@);
                assert((seq![ch] + sub@[y]@).drop_first() =~= sub@[y]@);
                assert(sub@[x]@ == sub@[y]@);
            }
        }
    }
    out
}

/// Enumerates every tied-shortest gap-avoiding walk from `(r, c)` to
/// `(tr, tc)` on a `rows x cols` grid whose gap cell is `(gr, gc)`: a
/// sequence is in the returned list if and only if it is such a walk.
pub fn gen_paths(
    r: usize,
    c: usize,
    tr: usize,
    tc: usize,
    gr: usize,
    gc: usize,
    rows: usize,
    cols: usize,
) -> (out: Vec<Vec<char>>)
    requires
        in_grid((r as int, c as int), rows as int, cols as int),
        in_grid((tr as int, tc as int), rows as int, cols as int),
        (r as int, c as int) != (gr as int, gc as int),
        (tr as int, tc as int) != (gr as int, gc as int),
    ensures
        forall|s: Seq<char>| #[trigger] in_list(out@, s) <==> is_min_walk(
            (r as int, c as int),
            (tr as int, tc as int),
            (gr as int, gc as int),
            rows as int,
            cols as int,
            s,
        ),
        distinct_seqs(out@),
    decreases manhattan((r as int, c as int), (tr as int, tc as int)), 1int,
{
    let ghost from = (r as int, c as int);
    let ghost to = (tr as int, tc as int);
    let ghost gap = (gr as int, gc as int);
    let mut out: Vec<Vec<char>> = Vec::new();
    if r == tr && c == tc {
        out.push(Vec::new());
        proof {
            assert forall|s: Seq<char>| #[trigger] in_list(out@, s) implies is_min_walk(
                from,
                to,
                gap,
                rows as int,
                cols as int,
                s,
            ) by {
                let i = choose|i: int| 0 <= i < out@.len() && out@[i]@ == s;
                assert(s =~= Seq::<char>::empty());
            }
            assert forall|s: Seq<char>|
                is_min_walk(from, to, gap, rows as int, cols as int, s) implies #[trigger] in_list(
                out@,
                s,
            ) by {
                assert(s =~= Seq::<char>::empty());
                assert(out@[0]@ == s);
            }
        }
        return out;
    }
    let mut out = toward_paths(r, c, tr, tc, gr, gc, rows, cols, true);
    let mut horiz = toward_paths(r, c, tr, tc, gr, gc, rows, cols, false);
    let ghost vert = out@;
    let ghost hor = horiz@;
    out.append(&mut horiz);
    proof {
        assert forall|s: Seq<char>| #[trigger] in_list(out@, s) implies is_min_walk(
            from,
            to,
            gap,
            rows as int,
            cols as int,
            s,
        ) by {
            let i = choose|i: int| 0 <= i < out@.len() && out@[i]@ == s;
            if i < vert.len() {
                assert(vert[i]@ == s);
                assert(in_list(vert, s));
            } else {
                assert(hor[i - vert.len()]@ == s);
                assert(in_list(hor, s));
            }
            lemma_min_walk_decompose(from, to, gap, rows as int, cols as int, s);
        }
        assert forall|s: Seq<char>|
            is_min_walk(from, to, gap, rows as int, cols as int, s) implies #[trigger] in_list(
            out@,
            s,
        ) by {
            lemma_min_walk_decompose(from, to, gap, rows as int, cols as int, s);
            if toward_branch(from, to, gap, rows as int, cols as int, true, s) {
                assert(in_list(vert, s));
                let i = choose|i: int| 0 <= i < vert.len() && vert[i]@ == s;
                assert(out@[i]@ == s);
            } else {
                assert(in_list(hor, s));
                let i = choose|i: int| 0 <= i < hor.len() && hor[i]@ == s;
                assert(out@[vert.len() + i]@ == s);
            }
        }
        assert forall|x: int, y: int|
            0 <= x < y < out@.len() implies (#[trigger] out@[x])@ != (#[trigger] out@[y])@ by {
            if y < vert.len() {
                assert(out@[x]@ == vert[x]@);
                assert(out@[y]@ == vert[y]@);
            } else if x >= vert.len() {
                assert(out@[x]@ == hor[x - vert.len()]@);
                assert(out@[y]@ == hor[y - vert.len()]@);
            } else {
                assert(out@[x]@ == vert[x]@);
                assert(in_list(vert, vert[x]@));
                assert(toward_branch(from, to, gap, rows as int, cols as int, true, out@[x]@));
                assert(out@[y]@ == hor[y - vert.len()]@);
                assert(in_list(hor, hor[y - vert.len()]@));
                assert(toward_branch(from, to, gap, rows as int, cols as int, false, out@[y]@));
                assert(out@[x]@[0] == toward_step(from, to, true));
                assert(out@[y]@[0] == toward_step(from, to, false));
            }
        }
    }
    out
}

} // verus!

verus! {

/// On a grid whose gap lies in a corner column-0 cell (as on both pads),
/// every pair of proper cells is joined by some tied-shortest gap-avoiding
/// walk, so enumeration never comes back empty.
pub proof fn lemma_min_walk_exists(
    from: (int, int),
    to: (int, int),
    gap: (int, int),
    rows: int,
    cols: int,
)
    requires
        in_grid(from, rows, cols),
        in_grid(to, rows, cols),
        from != gap,
        to != gap,
        gap.1 == 0,
        gap.0 == 0 || gap.0 == rows - 1,
    ensures
        exists|s: Seq<char>| is_min_walk(from, to, gap, rows, cols, s),
    decreases manhattan(from, to),
{
    if from == to {
        assert(is_min_walk(from, to, gap, rows, cols, Seq::<char>::empty()));
    } else {
        let vch = toward_step(from, to, true);
        let hch = toward_step(from, to, false);
        let vq = move_pos(from, vch);
        let hq = move_pos(from, hch);
        if from.0 != to.0 && vq != gap {
            assert(in_grid(vq, rows, cols));
            assert(manhattan(vq, to) == manhattan(from, to) - 1);
            lemma_min_walk_exists(vq, to, gap, rows, cols);
            let w = choose|w: Seq<char>| is_min_walk(vq, to, gap, rows, cols, w);
            let s = seq![vch] + w;
            assert(s.drop_first() =~= w);
            assert(toward_branch(from, to, gap, rows, cols, true, s));
            lemma_min_walk_decompose(from, to, gap, rows, cols, s);
            assert(is_min_walk(from, to, gap, rows, cols, s));
        } else if from.1 != to.1 && hq != gap {
            assert(in_grid(hq, rows, cols));
            assert(manhattan(hq, to) == manhattan(from, to) - 1);
            lemma_min_walk_exists(hq, to, gap, rows, cols);
            let w = choose|w: Seq<char>| is_min_walk(hq, to, gap, rows, cols, w);
            let s = seq![hch] + w;
            assert(s.drop_first() =~= w);
            assert(toward_branch(from, to, gap, rows, cols, false, s));
            lemma_min_walk_decompose(from, to, gap, rows, cols, s);
            assert(is_min_walk(from, to, gap, rows, cols, s));
        } else {
            assert(false);
        }
    }
}

} // verus!

verus! {

// ---------------------------------------------------------------------------
// The two pads as executable code
// ---------------------------------------------------------------------------

/// The direction symbol that performs a unit displacement, if any.
pub open spec fn dir_of_delta(d: (int, int)) -> Option<char> {
    if d == (0int, 1int) {
        Some('>')
    } else if d == (1int, 0int) {
        Some('v')
    } else if d == (0int, -1int) {
        Some('<')
    } else if d == (-1int, 0int) {
        Some('^')
    } else {
        None
    }
}

/// Lookup table from unit displacements to direction symbols.
pub struct DirectionMap {}

impl DirectionMap {
    /// Creates the table.
    pub fn new() -> (r: DirectionMap) {
        DirectionMap {}
    }

    /// The direction symbol of a displacement, if it is a unit step.
    pub fn direction_map(&self, dr: isize, dc: isize) -> (r: Option<char>)
        ensures
            r == dir_of_delta((dr as int, dc as int)),
    {
        if dr == 0 && dc == 1 {
            Some('>')
        } else if dr == 1 && dc == 0 {
            Some('v')
        } else if dr == 0 && dc == -1 {
            Some('<')
        } else if dr == -1 && dc == 0 {
            Some('^')
        } else {
            None
        }
    }
}

/// A move sequence that drives a pad pointer from `from` to `to` and ends
/// with the single activate press: a tied-shortest gap-avoiding walk plus
/// the final `'A'`.
pub open spec fn is_min_seq(
    from: (int, int),
    to: (int, int),
    gap: (int, int),
    rows: int,
    cols: int,
    s: Seq<char>,
) -> bool {
    s.len() >= 1 && s.last() == 'A' && is_min_walk(from, to, gap, rows, cols, s.drop_last())
}

/// Copies a move vector and appends the activate press.
fn push_activate(v: &Vec<char>) -> (r: Vec<char>)
    ensures
        r@ == v@.push('A'),
{
    let mut out: Vec<char> = Vec::new();
    let mut i: usize = 0;
    while i < v.len()
        invariant
            i <= v@.len(),
            out@ =~= v@.subrange(0, i as int),
        decreases v@.len() - i,
    {
        out.push(v[i]);
        i = i + 1;
    }
    out.push('A');
    proof {
        assert(out@ =~= v@.push('A'));
    }
    out
}

/// The numeric keypad: fixed button layout plus the pointer position that
/// path enumeration starts from.
pub struct NumericPad {
    pub current_pos: (usize, usize),
}

impl NumericPad {
    /// The pointer always rests on a proper button cell.
    pub open spec fn wf(&self) -> bool {
        num_cell_ok(self.pos_spec())
    }

    /// The pointer position as a mathematical cell.
    pub open spec fn pos_spec(&self) -> (int, int) {
        (self.current_pos.0 as int, self.current_pos.1 as int)
    }

    /// Creates the pad with the pointer on its home button `'A'`.
    pub fn new() -> (r: NumericPad)
        ensures
            r.wf(),
            r.pos_spec() == num_pos('A'),
    {
        NumericPad { current_pos: (3, 2) }
    }

    /// Cell of a numeric button.
    pub fn char_map(b: char) -> (r: (usize, usize))
        requires
            is_num_button(b),
        ensures
            (r.0 as int, r.1 as int) == num_pos(b),
            num_cell_ok((r.0 as int, r.1 as int)),
    {
        if b == '7' {
            (0, 0)
        } else if b == '8' {
            (0, 1)
        } else if b == '9' {
            (0, 2)
        } else if b == '4' {
            (1, 0)
        } else if b == '5' {
            (1, 1)
        } else if b == '6' {
            (1, 2)
        } else if b == '1' {
            (2, 0)
        } else if b == '2' {
            (2, 1)
        } else if b == '3' {
            (2, 2)
        } else if b == '0' {
            (3, 1)
        } else {
            (3, 2)
        }
    }

    /// Button of a numeric-pad cell, `None` at the gap or off the grid.
    pub fn reverse_map(p: (usize, usize)) -> (r: Option<char>)
        ensures
            r == num_button_at((p.0 as int, p.1 as int)),
    {
        if p.0 == 0 && p.1 == 0 {
            Some('7')
        } else if p.0 == 0 && p.1 == 1 {
            Some('8')
        } else if p.0 == 0 && p.1 == 2 {
            Some('9')
        } else if p.0 == 1 && p.1 == 0 {
            Some('4')
        } else if p.0 == 1 && p.1 == 1 {
            Some('5')
        } else if p.0 == 1 && p.1 == 2 {
            Some('6')
        } else if p.0 == 2 && p.1 == 0 {
            Some('1')
        } else if p.0 == 2 && p.1 == 1 {
            Some('2')
        } else if p.0 == 2 && p.1 == 2 {
            Some('3')
        } else if p.0 == 3 && p.1 == 1 {
            Some('0')
        } else if p.0 == 3 && p.1 == 2 {
            Some('A')
        } else {
            None
        }
    }

    /// Taxicab distance from the pointer to a target cell.
    pub fn get_manhattan_distance(&self, target_pos: (usize, usize)) -> (r: usize)
        requires
            self.wf(),
            in_grid((target_pos.0 as int, target_pos.1 as int), 4, 3),
        ensures
            r == manhattan(self.pos_spec(), (target_pos.0 as int, target_pos.1 as int)),
    {
        let dr: usize = if self.current_pos.0 >= target_pos.0 {
            self.current_pos.0 - target_pos.0
        } else {
            target_pos.0 - self.current_pos.0
        };
        let dc: usize = if self.current_pos.1 >= target_pos.1 {
            self.current_pos.1 - target_pos.1
        } else {
            target_pos.1 - self.current_pos.1
        };
        dr + dc
    }

    /// Enumerates every tied-shortest gap-avoiding move sequence (activate
    /// press included) from the current pointer position to `target`, and
    /// moves the pointer there.  The list is never empty, and a sequence
    /// is listed if and only if it is such a minimal sequence — in
    /// particular no listed sequence ever crosses the gap cell.
    pub fn find_shortest_seq(&mut self, target: char) -> (r: Vec<Vec<char>>)
        requires
            old(self).wf(),
            is_num_button(target),
        ensures
            final(self).wf(),
            final(self).pos_spec() == num_pos(target),
            forall|s: Seq<char>| #[trigger] in_list(r@, s) <==> is_min_seq(
                old(self).pos_spec(),
                num_pos(target),
                num_gap(),
                4,
                3,
                s,
            ),
            r@.len() >= 1,
            distinct_seqs(r@),
    {
        let ghost from = self.pos_spec();
        let ghost to = num_pos(target);
        let (tr, tc) = Self::char_map(target);
        let r0: usize = self.current_pos.0;
        let c0: usize = self.current_pos.1;
        let walks = gen_paths(r0, c0, tr, tc, 3, 0, 4, 3);
        self.current_pos = (tr, tc);
        let mut out: Vec<Vec<char>> = Vec::new();
        let mut i: usize = 0;
        while i < walks.len()
            invariant
                i <= walks@.len(),
                out@.len() == i,
                forall|j: int| 0 <= j < i ==> out@[j]@ == walks@[j]@.push('A'),
            decreases walks@.len() - i,
        {
            out.push(push_activate(&walks[i]));
            i = i + 1;
        }
        proof {
            assert forall|s: Seq<char>| #[trigger] in_list(out@, s) implies is_min_seq(
                from,
                to,
                num_gap(),
                4,
                3,
                s,
            ) by {
                let j = choose|j: int| 0 <= j < out@.len() && out@[j]@ == s;
                assert(out@[j]@ == walks@[j]@.push('A'));
                assert(in_list(walks@, walks@[j]@));
                assert(s.drop_last() =~= walks@[j]@);
            }
            assert forall|s: Seq<char>|
                is_min_seq(from, to, num_gap(), 4, 3, s) implies #[trigger] in_list(out@, s) by {
                assert(in_list(walks@, s.drop_last()));
                let j = choose|j: int| 0 <= j < walks@.len() && walks@[j]@ == s.drop_last();
                assert(out@[j]@ == walks@[j]@.push('A'));
                assert(s =~= s.drop_last().push(s.last()));
            }
            lemma_min_walk_exists(from, to, num_gap(), 4, 3);
            let w = choose|w: Seq<char>| is_min_walk(from, to, num_gap(), 4, 3, w);
            assert(w.push('A').drop_last() =~= w);
            assert(is_min_seq(from, to, num_gap(), 4, 3, w.push('A')));
            assert(in_list(out@, w.push('A')));
            assert forall|x: int, y: int|
                0 <= x < y < out@.len() implies (#[trigger] out@[x])@ != (#[trigger] out@[y])@ by {
                if out@[x]@ == out@[y]@ {
                    assert(out@[x]@ == walks@[x]@.push('A'));
                    assert(out@[y]@ == walks@[y]@.push('A'));
                    assert(walks@[x]@.push('A').drop_last() =~= walks@[x]@);
                    assert(walks@[y]@.push('A').drop_last() =~= walks@[y]@);
                    assert(walks@[x]@ == walks@[y]@);
                }
            }
        }
        out
    }
}

} // verus!

verus! {

// ---------------------------------------------------------------------------
// Code expansion: the cross product of per-character candidate sequences
// ---------------------------------------------------------------------------

/// The button whose cell a walk occupies, with the home button as the
/// (never used) default for the gap.
pub open spec fn button_of_cell(p: (int, int)) -> char {
    match num_button_at(p) {
        Some(b) => b,
        None => 'A',
    }
}

/// The numeric-pad button under the pointer before the `i`-th character
/// of a code is typed: the start button for `i == 0`, else the previous
/// character.
pub open spec fn code_prev(prev: char, code: Seq<char>, i: int) -> char {
    if i == 0 {
        prev
    } else {
        code[i - 1]
    }
}

/// `s` expands the first `i` characters of `code`, starting with the
/// pointer on `prev`: a concatenation, character by character, of
/// tied-shortest activate-terminated sequences on the numeric pad.
pub open spec fn is_code_expansion_upto(s: Seq<char>, prev: char, code: Seq<char>, i: int) -> bool
    decreases i,
{
    if i <= 0 {
        s.len() == 0
    } else {
        exists|k: int|
            #![trigger s.take(k), s.skip(k)]
            0 <= k <= s.len() && is_code_expansion_upto(s.take(k), prev, code, i - 1)
                && is_min_seq(
                num_pos(code_prev(prev, code, i - 1)),
                num_pos(code[i - 1]),
                num_gap(),
                4,
                3,
                s.skip(k),
            )
    }
}

/// Introduction form of one expansion step.
pub proof fn lemma_upto_intro(s: Seq<char>, prev: char, code: Seq<char>, i: int, k: int)
    requires
        1 <= i,
        0 <= k <= s.len(),
        is_code_expansion_upto(s.take(k), prev, code, i - 1),
        is_min_seq(
            num_pos(code_prev(prev, code, i - 1)),
            num_pos(code[i - 1]),
            num_gap(),
            4,
            3,
            s.skip(k),
        ),
    ensures
        is_code_expansion_upto(s, prev, code, i),
{
}

/// Elimination form of one expansion step.
pub proof fn lemma_upto_elim(s: Seq<char>, prev: char, code: Seq<char>, i: int) -> (k: int)
    requires
        1 <= i,
        is_code_expansion_upto(s, prev, code, i),
    ensures
        0 <= k <= s.len(),
        is_code_expansion_upto(s.take(k), prev, code, i - 1),
        is_min_seq(
            num_pos(code_prev(prev, code, i - 1)),
            num_pos(code[i - 1]),
            num_gap(),
            4,
            3,
            s.skip(k),
        ),
{
    choose|k: int|
        #![trigger s.take(k), s.skip(k)]
        0 <= k <= s.len() && is_code_expansion_upto(s.take(k), prev, code, i - 1)
            && is_min_seq(
            num_pos(code_prev(prev, code, i - 1)),
            num_pos(code[i - 1]),
            num_gap(),
            4,
            3,
            s.skip(k),
        )
}

/// `s` is one full candidate command sequence for `code`.
pub open spec fn is_code_expansion(s: Seq<char>, prev: char, code: Seq<char>) -> bool {
    is_code_expansion_upto(s, prev, code, code.len() as int)
}

/// Copies a move vector.
fn clone_moves(v: &Vec<char>) -> (r: Vec<char>)
    ensures
        r@ == v@,
{
    let mut out: Vec<char> = Vec::new();
    let mut i: usize = 0;
    while i < v.len()
        invariant
            i <= v@.len(),
            out@ =~= v@.subrange(0, i as int),
        decreases v@.len() - i,
    {
        out.push(v[i]);
        i = i + 1;
    }
    proof {
        assert(out@ =~= v@);
    }
    out
}

/// Concatenates two move vectors into a fresh one.
fn concat_moves(a: &Vec<char>, b: &Vec<char>) -> (r: Vec<char>)
    ensures
        r@ == a@ + b@,
{
    let mut out: Vec<char> = clone_moves(a);
    let mut i: usize = 0;
    while i < b.len()
        invariant
            i <= b@.len(),
            out@ =~= a@ + b@.subrange(0, i as int),
        decreases b@.len() - i,
    {
        out.push(b[i]);
        i = i + 1;
    }
    proof {
        assert(out@ =~= a@ + b@);
    }
    out
}

/// A sequence splits into a head drawn from `va` and a tail drawn from
/// `vb`.
pub open spec fn is_join(va: Seq<Vec<char>>, vb: Seq<Vec<char>>, s: Seq<char>) -> bool {
    exists|k: int| 0 <= k <= s.len() && #[trigger] in_list(va, s.take(k)) && in_list(vb, s.skip(k))
}

/// No sequence splits into a head from `va` and a tail from `vb` at two
/// different cut points.  Candidate heads and tails have this shape
/// because every tail is a single activate-terminated chunk.
pub open spec fn unique_split(va: Seq<Vec<char>>, vb: Seq<Vec<char>>) -> bool {
    forall|s: Seq<char>, k1: int, k2: int|
        #![trigger in_list(va, s.take(k1)), in_list(va, s.take(k2))]
        0 <= k1 <= s.len() && 0 <= k2 <= s.len() && in_list(va, s.take(k1)) && in_list(
            vb,
            s.skip(k1),
        ) && in_list(va, s.take(k2)) && in_list(vb, s.skip(k2)) ==> k1 == k2
}

/// The head of each output entry of the cross product, by source indices.
pub open spec fn pair_concat(va: Seq<Vec<char>>, vb: Seq<Vec<char>>, a: int, b: int) -> Seq<char> {
    va[a]@ + vb[b]@
}

/// All concatenations of one entry of `acc` with one entry of `cands`:
/// exactly the sequences that split into a member of each.
fn cross_join(acc: &Vec<Vec<char>>, cands: &Vec<Vec<char>>) -> (r: Vec<Vec<char>>)
    requires
        distinct_seqs(acc@),
        distinct_seqs(cands@),
        unique_split(acc@, cands@),
    ensures
        forall|s: Seq<char>| #[trigger] in_list(r@, s) <==> is_join(acc@, cands@, s),
        acc@.len() >= 1 && cands@.len() >= 1 ==> r@.len() >= 1,
        distinct_seqs(r@),
{
    let mut out: Vec<Vec<char>> = Vec::new();
    let mut i: usize = 0;
    while i < acc.len()
        invariant
            i <= acc@.len(),
            distinct_seqs(acc@),
            distinct_seqs(cands@),
            unique_split(acc@, cands@),
            forall|s: Seq<char>| #[trigger] in_list(out@, s) ==> is_join(acc@, cands@, s),
            forall|s: Seq<char>|
                is_join(acc@.subrange(0, i as int), cands@, s) ==> #[trigger] in_list(out@, s),
            forall|s: Seq<char>|
                #[trigger] in_list(out@, s) ==> exists|a: int, b: int|
                    0 <= a < i && 0 <= b < cands@.len() && s == #[trigger] pair_concat(
                        acc@,
                        cands@,
                        a,
                        b,
                    ),
            distinct_seqs(out@),
            i >= 1 && cands@.len() >= 1 ==> out@.len() >= 1,
        decreases acc@.len() - i,
    {
        let ghost out_before = out@;
        let mut j: usize = 0;
        while j < cands.len()
            invariant
                i < acc@.len(),
                j <= cands@.len(),
                distinct_seqs(acc@),
                distinct_seqs(cands@),
                unique_split(acc@, cands@),
                forall|s: Seq<char>| #[trigger] in_list(out@, s) ==> is_join(acc@, cands@, s),
                forall|s: Seq<char>|
                    in_list(out_before, s) ==> #[trigger] in_list(out@, s),
                forall|j2: int|
                    0 <= j2 < j ==> #[trigger] in_list(out@, acc@[i as int]@ + cands@[j2]@),
                forall|s: Seq<char>|
                    #[trigger] in_list(out@, s) ==> exists|a: int, b: int|
                        ((0 <= a < i && 0 <= b < cands@.len()) || (a == i && 0 <= b < j)) && s
                            == #[trigger] pair_concat(acc@, cands@, a, b),
                distinct_seqs(out@),
                out@.len() >= out_before.len() + j,
            decreases cands@.len() - j,
        {
            let piece = concat_moves(&acc[i], &cands[j]);
            let ghost snew = acc@[i as int]@ + cands@[j as int]@;
            let ghost out_pre = out@;
            proof {
                assert(snew == pair_concat(acc@, cands@, i as int, j as int));
                assert(snew.take(acc@[i as int]@.len() as int) =~= acc@[i as int]@);
                assert(snew.skip(acc@[i as int]@.len() as int) =~= cands@[j as int]@);
                assert(in_list(acc@, acc@[i as int]@));
                assert(in_list(cands@, cands@[j as int]@));
                assert(in_list(acc@, snew.take(acc@[i as int]@.len() as int)));
                assert(in_list(cands@, snew.skip(acc@[i as int]@.len() as int)));
                assert(!in_list(out_pre, snew)) by {
                    if in_list(out_pre, snew) {
                        let (a, b) = choose|a: int, b: int|
                            ((0 <= a < i && 0 <= b < cands@.len()) || (a == i && 0 <= b < j))
                                && snew == #[trigger] pair_concat(acc@, cands@, a, b);
                        assert(snew == acc@[a]@ + cands@[b]@);
                        assert(snew.take(acc@[a]@.len() as int) =~= acc@[a]@);
                        assert(snew.skip(acc@[a]@.len() as int) =~= cands@[b]@);
                        assert(in_list(acc@, snew.take(acc@[a]@.len() as int)));
                        assert(in_list(cands@, snew.skip(acc@[a]@.len() as int)));
                        assert(acc@[a]@.len() == acc@[i as int]@.len());
                        assert(acc@[a]@ == snew.take(acc@[a]@.len() as int));
                        assert(acc@[a]@ == acc@[i as int]@);
                        assert(a == i);
                        assert(cands@[b]@ == cands@[j as int]@);
                        assert(b == j);
                    }
                }
            }
            out.push(piece);
            proof {
                assert(out@[out@.len() - 1]@ == snew);
                assert(in_list(out@, snew));
                assert(is_join(acc@, cands@, snew));
                assert forall|x: int, y: int|
                    0 <= x < y < out@.len() implies (#[trigger] out@[x])@ != (
                #[trigger] out@[y])@ by {
                    if y < out@.len() - 1 {
                        assert(out@[x]@ == out_pre[x]@);
                        assert(out@[y]@ == out_pre[y]@);
                    } else {
                        assert(out@[y]@ == snew);
                        assert(out@[x]@ == out_pre[x]@);
                        if out@[x]@ == snew {
                            assert(in_list(out_pre, snew));
                        }
                    }
                }
                assert forall|s: Seq<char>| #[trigger] in_list(out@, s) implies exists|a: int, b: int|
                    ((0 <= a < i && 0 <= b < cands@.len()) || (a == i && 0 <= b < j + 1)) && s
                        == #[trigger] pair_concat(acc@, cands@, a, b) by {
                    let x = choose|x: int| 0 <= x < out@.len() && out@[x]@ == s;
                    if x < out@.len() - 1 {
                        assert(out_pre[x]@ == s);
                        assert(in_list(out_pre, s));
                        let (a, b) = choose|a: int, b: int|
                            ((0 <= a < i && 0 <= b < cands@.len()) || (a == i && 0 <= b < j)) && s
                                == #[trigger] pair_concat(acc@, cands@, a, b);
                        assert(s == pair_concat(acc@, cands@, a, b));
                    } else {
                        assert(s == snew);
                        assert(s == pair_concat(acc@, cands@, i as int, j as int));
                    }
                }
                assert forall|s: Seq<char>| #[trigger] in_list(out@, s) implies is_join(
                    acc@,
                    cands@,
                    s,
                ) by {
                    let x = choose|x: int| 0 <= x < out@.len() && out@[x]@ == s;
                    if x < out@.len() - 1 {
                        assert(out_pre[x]@ == s);
                        assert(in_list(out_pre, s));
                    } else {
                        assert(s == snew);
                    }
                }
                assert forall|s: Seq<char>| in_list(out_pre, s) implies #[trigger] in_list(
                    out@,
                    s,
                ) by {
                    let x = choose|x: int| 0 <= x < out_pre.len() && out_pre[x]@ == s;
                    assert(out@[x]@ == s);
                }
            }
            j = j + 1;
        }
        proof {
            assert forall|s: Seq<char>| #[trigger] in_list(out@, s) implies exists|a: int, b: int|
                0 <= a < i + 1 && 0 <= b < cands@.len() && s == #[trigger] pair_concat(
                    acc@,
                    cands@,
                    a,
                    b,
                ) by {
                let (a, b) = choose|a: int, b: int|
                    ((0 <= a < i && 0 <= b < cands@.len()) || (a == i && 0 <= b
                        < cands@.len())) && s == #[trigger] pair_concat(acc@, cands@, a, b);
                assert(s == pair_concat(acc@, cands@, a, b));
            }
            assert forall|s: Seq<char>|
                is_join(acc@.subrange(0, i + 1), cands@, s) implies #[trigger] in_list(out@, s) by {
                let k = choose|k: int|
                    0 <= k <= s.len() && #[trigger] in_list(acc@.subrange(0, i + 1), s.take(k))
                        && in_list(cands@, s.skip(k));
                let a = choose|a: int|
                    0 <= a < acc@.subrange(0, i + 1).len() && #[trigger] acc@.subrange(
                        0,
                        i + 1,
                    )[a]@ == s.take(k);
                let b = choose|b: int| 0 <= b < cands@.len() && cands@[b]@ == s.skip(k);
                if a < i {
                    assert(in_list(acc@.subrange(0, i as int), s.take(k)));
                    assert(is_join(acc@.subrange(0, i as int), cands@, s));
                    assert(in_list(out_before, s));
                } else {
                    assert(acc@[i as int]@ == s.take(k));
                    assert(s =~= acc@[i as int]@ + cands@[b]@);
                    assert(in_list(out@, acc@[i as int]@ + cands@[b]@));
                }
            }
        }
        i = i + 1;
    }
    proof {
        assert(acc@.subrange(0, acc@.len() as int) =~= acc@);
    }
    out
}

} // verus!

verus! {

/// Every character of a code is a numeric-pad button.
pub open spec fn code_chars_ok(code: Seq<char>) -> bool {
    forall|i: int| 0 <= i < code.len() ==> is_num_button(#[trigger] code[i])
}

/// A proper button cell carries a button that maps back to the same cell.
pub proof fn lemma_cell_button_roundtrip(p: (int, int))
    requires
        num_cell_ok(p),
    ensures
        num_button_at(p) is Some,
        is_num_button(button_of_cell(p)),
        num_pos(button_of_cell(p)) == p,
{
}

impl NumericPad {
    /// Expands a whole code into the list of all full candidate command
    /// sequences: every concatenation of per-character tied-shortest
    /// sequences, in cross-product fashion.  The list is exactly the set
    /// of such candidates and is never empty.
    pub fn process_code(&mut self, code: &str) -> (r: Vec<Vec<char>>)
        requires
            old(self).wf(),
            code_chars_ok(code@),
        ensures
            final(self).wf(),
            final(self).pos_spec() == if code@.len() == 0 {
                old(self).pos_spec()
            } else {
                num_pos(code@.last())
            },
            forall|s: Seq<char>| #[trigger] in_list(r@, s) <==> is_code_expansion(
                s,
                button_of_cell(old(self).pos_spec()),
                code@,
            ),
            r@.len() >= 1,
            distinct_seqs(r@),
    {
        let ghost b0 = button_of_cell(old(self).pos_spec());
        proof {
            lemma_cell_button_roundtrip(old(self).pos_spec());
        }
        let n: usize = code.unicode_len();
        let mut acc: Vec<Vec<char>> = Vec::new();
        acc.push(Vec::new());
        proof {
            assert forall|s: Seq<char>| #[trigger] in_list(acc@, s) implies is_code_expansion_upto(
                s,
                b0,
                code@,
                0,
            ) by {
                let x = choose|x: int| 0 <= x < acc@.len() && acc@[x]@ == s;
                assert(s =~= Seq::<char>::empty());
            }
            assert forall|s: Seq<char>|
                is_code_expansion_upto(s, b0, code@, 0) implies #[trigger] in_list(acc@, s) by {
                assert(s =~= Seq::<char>::empty());
                assert(acc@[0]@ == s);
            }
        }
        let mut idx: usize = 0;
        while idx < n
            invariant
                n == code@.len(),
                idx <= n,
                code_chars_ok(code@),
                self.wf(),
                b0 == button_of_cell(old(self).pos_spec()),
                is_num_button(b0),
                self.pos_spec() == num_pos(code_prev(b0, code@, idx as int)),
                is_num_button(code_prev(b0, code@, idx as int)),
                forall|s: Seq<char>| #[trigger] in_list(acc@, s) <==> is_code_expansion_upto(
                    s,
                    b0,
                    code@,
                    idx as int,
                ),
                acc@.len() >= 1,
                distinct_seqs(acc@),
            decreases n - idx,
        {
            let ch: char = code.get_char(idx);
            let ghost acc_pre = acc@;
            let ghost i1: int = idx as int + 1;
            let cands = self.find_shortest_seq(ch);
            proof {
                assert forall|s: Seq<char>, k1: int, k2: int|
                    #![trigger in_list(acc@, s.take(k1)), in_list(acc@, s.take(k2))]
                    0 <= k1 <= s.len() && 0 <= k2 <= s.len() && in_list(acc@, s.take(k1))
                        && in_list(cands@, s.skip(k1)) && in_list(acc@, s.take(k2)) && in_list(
                        cands@,
                        s.skip(k2),
                    ) implies k1 == k2 by {
                    assert(is_code_expansion_upto(s.take(k1), b0, code@, idx as int));
                    assert(is_code_expansion_upto(s.take(k2), b0, code@, idx as int));
                    assert(is_min_seq(
                        num_pos(code_prev(b0, code@, idx as int)),
                        num_pos(code@[idx as int]),
                        num_gap(),
                        4,
                        3,
                        s.skip(k1),
                    ));
                    assert(is_min_seq(
                        num_pos(code_prev(b0, code@, idx as int)),
                        num_pos(code@[idx as int]),
                        num_gap(),
                        4,
                        3,
                        s.skip(k2),
                    ));
                    lemma_expansion_split_unique(
                        s,
                        b0,
                        code@,
                        idx as int,
                        k1,
                        k2,
                        num_pos(code_prev(b0, code@, idx as int)),
                        num_pos(code@[idx as int]),
                    );
                }
                assert(unique_split(acc@, cands@));
            }
            let joined = cross_join(&acc, &cands);
            acc = joined;
            proof {
                assert forall|s: Seq<char>| #[trigger] in_list(acc@, s) implies is_code_expansion_upto(
                    s,
                    b0,
                    code@,
                    i1,
                ) by {
                    assert(is_join(acc_pre, cands@, s));
                    let k = choose|k: int|
                        0 <= k <= s.len() && #[trigger] in_list(acc_pre, s.take(k)) && in_list(
                            cands@,
                            s.skip(k),
                        );
                    assert(is_code_expansion_upto(s.take(k), b0, code@, i1 - 1));
                    assert(is_min_seq(
                        num_pos(code_prev(b0, code@, i1 - 1)),
                        num_pos(code@[i1 - 1]),
                        num_gap(),
                        4,
                        3,
                        s.skip(k),
                    ));
                    lemma_upto_intro(s, b0, code@, i1, k);
                }
                assert forall|s: Seq<char>|
                    is_code_expansion_upto(s, b0, code@, i1) implies #[trigger] in_list(
                    acc@,
                    s,
                ) by {
                    let k = lemma_upto_elim(s, b0, code@, i1);
                    assert(in_list(acc_pre, s.take(k)));
                    assert(in_list(cands@, s.skip(k)));
                    assert(is_join(acc_pre, cands@, s));
                }
            }
            idx = idx + 1;
        }
        acc
    }
}

} // verus!

verus! {

/// Minimal walks use direction symbols only: a symbol that does not move
/// the pointer, or moves it away, would break tied-shortest length.
pub proof fn lemma_min_walk_dir_chars(
    from: (int, int),
    to: (int, int),
    gap: (int, int),
    rows: int,
    cols: int,
    s: Seq<char>,
)
    requires
        is_min_walk(from, to, gap, rows, cols, s),
    ensures
        dir_seq_ok(s),
        forall|i: int| 0 <= i < s.len() ==> #[trigger] s[i] != 'A',
    decreases s.len(),
{
    if from != to {
        lemma_min_walk_step(from, to, gap, rows, cols, s);
        lemma_min_walk_dir_chars(move_pos(from, s[0]), to, gap, rows, cols, s.drop_first());
        assert forall|i: int| 0 <= i < s.len() implies is_dir_button(#[trigger] s[i]) && s[i]
            != 'A' by {
            if i > 0 {
                assert(s.drop_first()[i - 1] == s[i]);
            }
        }
    }
}

/// Every candidate command sequence consists of directional-pad buttons.
pub proof fn lemma_expansion_dir_chars(s: Seq<char>, prev: char, code: Seq<char>, i: int)
    requires
        is_code_expansion_upto(s, prev, code, i),
    ensures
        dir_seq_ok(s),
        i >= 1 ==> s.len() >= 1,
    decreases i,
{
    if i >= 1 {
        let k = lemma_upto_elim(s, prev, code, i);
        lemma_expansion_dir_chars(s.take(k), prev, code, i - 1);
        let piece = s.skip(k);
        lemma_min_walk_dir_chars(
            num_pos(code_prev(prev, code, i - 1)),
            num_pos(code[i - 1]),
            num_gap(),
            4,
            3,
            piece.drop_last(),
        );
        assert forall|j: int| 0 <= j < s.len() implies is_dir_button(#[trigger] s[j]) by {
            if j < k {
                assert(s.take(k)[j] == s[j]);
            } else {
                assert(piece[j - k] == s[j]);
                if j - k < piece.len() - 1 {
                    assert(piece.drop_last()[j - k] == piece[j - k]);
                } else {
                    assert(piece.last() == 'A');
                }
            }
        }
    }
}

// ---------------------------------------------------------------------------
// Candidate selection heuristics
// ---------------------------------------------------------------------------

/// Number of adjacent positions holding the same symbol twice in a row.
pub open spec fn rep_count(s: Seq<char>) -> nat
    decreases s.len(),
{
    if s.len() <= 1 {
        0
    } else {
        rep_count(s.drop_last()) + if s[s.len() - 1] == s[s.len() - 2] {
            1nat
        } else {
            0nat
        }
    }
}

/// The largest adjacent-repeat count over a list of candidates.
pub open spec fn max_rep(vs: Seq<Vec<char>>) -> nat
    decreases vs.len(),
{
    if vs.len() == 0 {
        0
    } else if rep_count(vs.last()@) >= max_rep(vs.drop_last()) {
        rep_count(vs.last()@)
    } else {
        max_rep(vs.drop_last())
    }
}

/// Counts adjacent repeated symbols in one candidate sequence, the cheap
/// proxy for how well it will expand at deeper levels.
pub fn get_seq_count(seq: &Vec<char>) -> (r: usize)
    ensures
        r == rep_count(seq@),
{
    let n: usize = seq.len();
    let mut count: usize = 0;
    if n == 0 {
        return count;
    }
    let mut i: usize = 1;
    proof {
        assert(seq@.take(1).len() == 1);
    }
    while i < n
        invariant
            1 <= i <= n,
            n == seq@.len(),
            count == rep_count(seq@.take(i as int)),
            count < i,
        decreases n - i,
    {
        proof {
            assert(seq@.take(i + 1).drop_last() =~= seq@.take(i as int));
            assert(seq@.take(i + 1)[i as int] == seq@[i as int]);
            assert(seq@.take(i + 1)[i - 1] == seq@[i - 1]);
        }
        if seq[i] == seq[i - 1] {
            count = count + 1;
        }
        i = i + 1;
    }
    proof {
        assert(seq@.take(n as int) =~= seq@);
    }
    count
}

/// Keeps exactly the candidates whose adjacent-repeat count is maximal.
pub fn get_max_consecutive_sequences(sequence_list: Vec<Vec<char>>) -> (r: Vec<Vec<char>>)
    ensures
        forall|j: int|
            0 <= j < r@.len() ==> #[trigger] in_list(sequence_list@, r@[j]@) && rep_count(r@[j]@)
                == max_rep(sequence_list@),
        forall|j: int|
            0 <= j < sequence_list@.len() && rep_count(#[trigger] sequence_list@[j]@) == max_rep(
                sequence_list@,
            ) ==> in_list(r@, sequence_list@[j]@),
        sequence_list@.len() >= 1 ==> r@.len() >= 1,
{
    let n: usize = sequence_list.len();
    let mut best: usize = 0;
    let mut i: usize = 0;
    while i < n
        invariant
            i <= n,
            n == sequence_list@.len(),
            best == max_rep(sequence_list@.take(i as int)),
        decreases n - i,
    {
        proof {
            assert(sequence_list@.take(i + 1).drop_last() =~= sequence_list@.take(i as int));
            assert(sequence_list@.take(i + 1).last() == sequence_list@[i as int]);
        }
        let cnt = get_seq_count(&sequence_list[i]);
        if cnt > best {
            best = cnt;
        }
        i = i + 1;
    }
    proof {
        assert(sequence_list@.take(n as int) =~= sequence_list@);
    }
    let mut out: Vec<Vec<char>> = Vec::new();
    let mut j: usize = 0;
    while j < n
        invariant
            j <= n,
            n == sequence_list@.len(),
            best == max_rep(sequence_list@),
            forall|x: int|
                0 <= x < out@.len() ==> #[trigger] in_list(sequence_list@, out@[x]@) && rep_count(
                    out@[x]@,
                ) == max_rep(sequence_list@),
            forall|x: int|
                0 <= x < j && rep_count(#[trigger] sequence_list@[x]@) == max_rep(sequence_list@)
                    ==> in_list(out@, sequence_list@[x]@),
        decreases n - j,
    {
        let ghost out_pre = out@;
        let cnt = get_seq_count(&sequence_list[j]);
        if cnt == best {
            let copy = clone_moves(&sequence_list[j]);
            out.push(copy);
            proof {
                assert(out@[out@.len() - 1]@ == sequence_list@[j as int]@);
                assert(in_list(sequence_list@, sequence_list@[j as int]@));
            }
        }
        proof {
            assert forall|x: int|
                0 <= x < j + 1 && rep_count(#[trigger] sequence_list@[x]@) == max_rep(
                    sequence_list@,
                ) implies in_list(out@, sequence_list@[x]@) by {
                if x < j {
                    assert(in_list(out_pre, sequence_list@[x]@));
                    let y = choose|y: int| 0 <= y < out_pre.len() && out_pre[y]@ == sequence_list@[x]@;
                    assert(out@[y]@ == sequence_list@[x]@);
                } else {
                    assert(out@[out@.len() - 1]@ == sequence_list@[x]@);
                }
            }
        }
        j = j + 1;
    }
    proof {
        if sequence_list@.len() >= 1 {
            lemma_max_rep_attained(sequence_list@);
            let w = choose|w: int|
                0 <= w < sequence_list@.len() && rep_count(#[trigger] sequence_list@[w]@)
                    == max_rep(sequence_list@);
            assert(in_list(out@, sequence_list@[w]@));
        }
    }
    out
}

/// The maximal adjacent-repeat count is attained by some list entry.
pub proof fn lemma_max_rep_attained(vs: Seq<Vec<char>>)
    requires
        vs.len() >= 1,
    ensures
        exists|w: int|
            0 <= w < vs.len() && rep_count(#[trigger] vs[w]@) == max_rep(vs),
        forall|w: int| 0 <= w < vs.len() ==> rep_count(#[trigger] vs[w]@) <= max_rep(vs),
    decreases vs.len(),
{
    if vs.len() == 1 {
        assert(vs.drop_last().len() == 0);
        assert(max_rep(vs.drop_last()) == 0);
        assert(vs.last() == vs[0]);
        assert(rep_count(vs[0]@) == max_rep(vs));
    } else {
        lemma_max_rep_attained(vs.drop_last());
        let w0 = choose|w: int|
            0 <= w < vs.drop_last().len() && rep_count(#[trigger] vs.drop_last()[w]@) == max_rep(
                vs.drop_last(),
            );
        assert(vs.drop_last()[w0]@ == vs[w0]@);
        if rep_count(vs.last()@) >= max_rep(vs.drop_last()) {
            assert(rep_count(vs[vs.len() - 1]@) == max_rep(vs));
        } else {
            assert(rep_count(vs[w0]@) == max_rep(vs));
        }
        assert forall|w: int| 0 <= w < vs.len() implies rep_count(#[trigger] vs[w]@) <= max_rep(
            vs,
        ) by {
            if w < vs.len() - 1 {
                assert(vs.drop_last()[w]@ == vs[w]@);
            }
        }
    }
}

} // verus!

verus! {

// ---------------------------------------------------------------------------
// Codes and their numeric values
// ---------------------------------------------------------------------------

/// A decimal digit character.
pub open spec fn is_digit(c: char) -> bool {
    '0' <= c && c <= '9'
}

/// A well-formed code: at least one digit followed by one final activate
/// character.
pub open spec fn valid_code(s: Seq<char>) -> bool {
    s.len() >= 2 && s.last() == 'A' && forall|i: int| 0 <= i < s.len() - 1 ==> is_digit(
        #[trigger] s[i],
    )
}

/// Numeric value of a digit string.
pub open spec fn digits_value(d: Seq<char>) -> nat
    decreases d.len(),
{
    if d.len() == 0 {
        0
    } else {
        10 * digits_value(d.drop_last()) + (d.last() as int - '0' as int) as nat
    }
}

/// Numeric value of a code: the integer formed by its digits, the final
/// activate character excluded.
pub open spec fn code_value(s: Seq<char>) -> nat {
    digits_value(s.drop_last())
}

/// The value of a digit-string prefix never exceeds the whole value.
pub proof fn lemma_digits_value_prefix_le(d: Seq<char>, j: int)
    requires
        0 <= j <= d.len(),
        forall|i: int| 0 <= i < d.len() ==> is_digit(#[trigger] d[i]),
    ensures
        digits_value(d.take(j)) <= digits_value(d),
    decreases d.len() - j,
{
    if j < d.len() {
        lemma_digits_value_prefix_le(d, j + 1);
        assert(d.take(j + 1).drop_last() =~= d.take(j));
        assert(d.take(j + 1).last() == d[j]);
    } else {
        assert(d.take(j) =~= d);
    }
}

/// Checks whether a string is a well-formed code.
pub fn check_code(code: &str) -> (r: bool)
    ensures
        r == valid_code(code@),
{
    let n: usize = code.unicode_len();
    if n < 2 {
        return false;
    }
    if code.get_char(n - 1) != 'A' {
        return false;
    }
    let mut i: usize = 0;
    while i < n - 1
        invariant
            n == code@.len(),
            2 <= n,
            i <= n - 1,
            code@.last() == 'A',
            forall|x: int| 0 <= x < i ==> is_digit(#[trigger] code@[x]),
        decreases n - i,
    {
        let c = code.get_char(i);
        if !('0' <= c && c <= '9') {
            return false;
        }
        i = i + 1;
    }
    true
}

/// Parses the numeric value of a well-formed code.
pub fn parse_code_value(code: &str) -> (r: u128)
    requires
        valid_code(code@),
        code_value(code@) <= u128::MAX,
    ensures
        r == code_value(code@),
{
    let n: usize = code.unicode_len();
    let ghost d = code@.drop_last();
    let mut value: u128 = 0;
    let mut i: usize = 0;
    proof {
        assert(d.take(0) =~= Seq::<char>::empty());
        assert forall|x: int| 0 <= x < d.len() implies is_digit(#[trigger] d[x]) by {
            assert(d[x] == code@[x]);
        }
    }
    while i < n - 1
        invariant
            n == code@.len(),
            2 <= n,
            d == code@.drop_last(),
            d.len() == n - 1,
            forall|x: int| 0 <= x < d.len() ==> is_digit(#[trigger] d[x]),
            digits_value(d) <= u128::MAX,
            i <= n - 1,
            value == digits_value(d.take(i as int)),
            forall|x: int| 0 <= x < d.len() ==> d[x] == code@[x],
        decreases n - i,
    {
        let c = code.get_char(i);
        proof {
            assert(code@[i as int] == d[i as int]);
            assert(d.take(i + 1).drop_last() =~= d.take(i as int));
            assert(d.take(i + 1).last() == d[i as int]);
            lemma_digits_value_prefix_le(d, i + 1);
            assert(digits_value(d.take(i + 1)) == 10 * digits_value(d.take(i as int)) + (
            d[i as int] as int - '0' as int));
        }
        let digit: u128 = (c as u32 - '0' as u32) as u128;
        value = value * 10 + digit;
        i = i + 1;
    }
    proof {
        assert(d.take(n - 1 as int) =~= d);
    }
    value
}

} // verus!

verus! {

// ---------------------------------------------------------------------------
// The solver
// ---------------------------------------------------------------------------

/// Failure of the solver: a code holds a character that is not a
/// numeric-keypad button in the required digits-then-activate shape.
#[derive(Clone, Copy, Debug, PartialEq, Eq, Structural)]
pub enum SolveError {
    InvalidCodeSymbol,
}

/// `m` is the minimal top-level press count over all candidate command
/// sequences of `code`, expanded through the chain.
pub open spec fn is_best_len(code: Seq<char>, d1: nat, m: nat) -> bool {
    (exists|s: Seq<char>| #[trigger] is_code_expansion(s, 'A', code) && expand_cost(s, 'A', d1)
        == m) && (forall|s: Seq<char>| #[trigger] is_code_expansion(s, 'A', code) ==> expand_cost(
        s,
        'A',
        d1,
    ) >= m)
}

/// The minimal top-level press count of a code (arbitrary if none exists).
pub open spec fn best_len(code: Seq<char>, d1: nat) -> nat {
    choose|m: nat| is_best_len(code, d1, m)
}

/// The minimal press count is unique, so the witnessed minimum computed by
/// the solver is exactly [`best_len`].
pub proof fn lemma_best_len_is(code: Seq<char>, d1: nat, m: nat)
    requires
        is_best_len(code, d1, m),
    ensures
        best_len(code, d1) == m,
{
    assert(exists|mm: nat| is_best_len(code, d1, mm));
    let m2 = best_len(code, d1);
    assert(is_best_len(code, d1, m2));
    let s1 = choose|s: Seq<char>|
        #[trigger] is_code_expansion(s, 'A', code) && expand_cost(s, 'A', d1) == m;
    let s2 = choose|s: Seq<char>|
        #[trigger] is_code_expansion(s, 'A', code) && expand_cost(s, 'A', d1) == m2;
    assert(expand_cost(s1, 'A', d1) >= m2);
    assert(expand_cost(s2, 'A', d1) >= m);
}

/// The solver's aggregate: the sum over the codes of `numeric value of the
/// code * its minimal press count`.
pub open spec fn solve_total(codes: Seq<Seq<char>>, d1: nat) -> nat
    decreases codes.len(),
{
    if codes.len() == 0 {
        0
    } else {
        solve_total(codes.drop_last(), d1) + code_value(codes.last()) * best_len(codes.last(), d1)
    }
}

pub proof fn lemma_solve_total_step(codes: Seq<Seq<char>>, d1: nat, i: int)
    requires
        0 <= i < codes.len(),
    ensures
        solve_total(codes.take(i + 1), d1) == solve_total(codes.take(i), d1) + code_value(
            codes[i],
        ) * best_len(codes[i], d1),
{
    assert(codes.take(i + 1).drop_last() =~= codes.take(i));
    assert(codes.take(i + 1).last() == codes[i]);
}

pub proof fn lemma_solve_total_prefix(codes: Seq<Seq<char>>, d1: nat, j: int)
    requires
        0 <= j <= codes.len(),
    ensures
        solve_total(codes.take(j), d1) <= solve_total(codes, d1),
    decreases codes.len() - j,
{
    if j < codes.len() {
        lemma_solve_total_step(codes, d1, j);
        lemma_solve_total_prefix(codes, d1, j + 1);
    } else {
        assert(codes.take(j) =~= codes);
    }
}

/// Computes the aggregate for a list of codes typed through a chain of
/// `num_robots` directional pads: the sum of `numeric value * minimal
/// press count`, the minimum ranging over every tied-shortest candidate.
/// Returns an error exactly when some code is malformed; a well-formed
/// code can always be synthesized, because the enumeration of minimal
/// gap-avoiding sequences is never empty.
pub fn solve(codes: &Vec<String>, num_robots: usize) -> (r: Result<u128, SolveError>)
    requires
        1 <= num_robots <= MAX_ROBOTS,
        solve_total(codes@.map_values(|c: String| c@), (num_robots - 1) as nat) <= u128::MAX,
    ensures
        r is Ok <==> (forall|i: int| 0 <= i < codes@.len() ==> valid_code(#[trigger] codes@[i]@)),
        r is Ok ==> r->Ok_0 == solve_total(
            codes@.map_values(|c: String| c@),
            (num_robots - 1) as nat,
        ),
        r is Err ==> r->Err_0 == SolveError::InvalidCodeSymbol,
{
    let ghost cseqs = codes@.map_values(|c: String| c@);
    let ghost d1: nat = (num_robots - 1) as nat;
    let n: usize = codes.len();
    let mut cache = CostCache::new();
    let mut total: u128 = 0;
    let mut i: usize = 0;
    proof {
        assert(cseqs.take(0) =~= Seq::<Seq<char>>::empty());
    }
    while i < n
        invariant
            1 <= num_robots <= MAX_ROBOTS,
            d1 == num_robots - 1,
            n == codes@.len(),
            cseqs == codes@.map_values(|c: String| c@),
            cseqs.len() == n,
            solve_total(cseqs, d1) <= u128::MAX,
            i <= n,
            cache.wf(),
            forall|j: int| 0 <= j < i ==> valid_code(#[trigger] cseqs[j]),
            total == solve_total(cseqs.take(i as int), d1),
        decreases n - i,
    {
        proof {
            assert(cseqs[i as int] == codes@[i as int]@);
        }
        let code: &String = &codes[i];
        if !check_code(code.as_str()) {
            return Err(SolveError::InvalidCodeSymbol);
        }
        let ghost cseq = code@;
        proof {
            assert forall|x: int| 0 <= x < cseq.len() implies is_num_button(
                #[trigger] cseq[x],
            ) by {
                if x < cseq.len() - 1 {
                    assert(is_digit(cseq[x]));
                }
            }
        }
        let mut pad = NumericPad::new();
        let all_seqs = pad.process_code(code.as_str());
        proof {
            assert(button_of_cell(num_pos('A')) == 'A');
            assert(in_list(all_seqs@, all_seqs@[0]@));
            assert(is_code_expansion(all_seqs@[0]@, 'A', cseq));
            lemma_expansion_dir_chars(all_seqs@[0]@, 'A', cseq, cseq.len() as int);
        }
        let m: usize = all_seqs.len();
        let mut min_len: u128 = get_seq_len(&all_seqs[0], num_robots, &mut cache);
        let mut j: usize = 1;
        while j < m
            invariant
                1 <= num_robots <= MAX_ROBOTS,
                d1 == num_robots - 1,
                m == all_seqs@.len(),
                1 <= j <= m,
                cache.wf(),
                forall|s: Seq<char>| #[trigger] in_list(all_seqs@, s) <==> is_code_expansion(
                    s,
                    'A',
                    cseq,
                ),
                exists|s: Seq<char>|
                    #[trigger] is_code_expansion(s, 'A', cseq) && expand_cost(s, 'A', d1)
                        == min_len,
                forall|x: int|
                    0 <= x < j ==> expand_cost(#[trigger] all_seqs@[x]@, 'A', d1) >= min_len,
            decreases m - j,
        {
            proof {
                assert(in_list(all_seqs@, all_seqs@[j as int]@));
                assert(is_code_expansion(all_seqs@[j as int]@, 'A', cseq));
                lemma_expansion_dir_chars(all_seqs@[j as int]@, 'A', cseq, cseq.len() as int);
            }
            let v = get_seq_len(&all_seqs[j], num_robots, &mut cache);
            if v < min_len {
                min_len = v;
            }
            j = j + 1;
        }
        proof {
            assert forall|s: Seq<char>| #[trigger] is_code_expansion(s, 'A', cseq) implies
                expand_cost(s, 'A', d1) >= min_len by {
                assert(in_list(all_seqs@, s));
                let x = choose|x: int| 0 <= x < all_seqs@.len() && all_seqs@[x]@ == s;
                assert(expand_cost(all_seqs@[x]@, 'A', d1) >= min_len);
            }
            assert(is_best_len(cseq, d1, min_len as nat));
            lemma_best_len_is(cseq, d1, min_len as nat);
            let sw = choose|s: Seq<char>|
                #[trigger] is_code_expansion(s, 'A', cseq) && expand_cost(s, 'A', d1) == min_len;
            lemma_expansion_dir_chars(sw, 'A', cseq, cseq.len() as int);
            lemma_expand_cost_bounds(sw, 'A', d1);
            assert(min_len >= 1);
            lemma_solve_total_step(cseqs, d1, i as int);
            lemma_solve_total_prefix(cseqs, d1, i + 1);
            assert(code_value(cseq) * best_len(cseq, d1) <= solve_total(cseqs, d1));
            assert(code_value(cseq) <= code_value(cseq) * best_len(cseq, d1))
                by (nonlinear_arith)
                requires
                    best_len(cseq, d1) >= 1,
            {}
        }
        let value: u128 = parse_code_value(code.as_str());
        let term: u128 = value * min_len;
        total = total + term;
        i = i + 1;
    }
    proof {
        assert(cseqs.take(n as int) =~= cseqs);
        assert forall|j: int| 0 <= j < codes@.len() implies valid_code(#[trigger] codes@[j]@) by {
            assert(cseqs[j] == codes@[j]@);
        }
    }
    Ok(total)
}

} // verus!

verus! {

// ---------------------------------------------------------------------------
// Input parsing and entry points
// ---------------------------------------------------------------------------

/// The text reassembled from parsed lines, one trailing newline each.
pub open spec fn joined_lines(ls: Seq<Seq<char>>) -> Seq<char>
    decreases ls.len(),
{
    if ls.len() == 0 {
        Seq::empty()
    } else {
        joined_lines(ls.drop_last()) + ls.last() + seq!['\n']
    }
}

/// Splits the input text into its newline-separated lines.  No returned
/// line contains a newline, and re-joining the lines (with one trailing
/// newline each) restores the input, up to one newline added at its end
/// when it lacked one.
pub fn parse_inputs(input: &str) -> (r: Vec<String>)
    ensures
        forall|j: int, x: int|
            0 <= j < r@.len() && 0 <= x < r@[j]@.len() ==> #[trigger] r@[j]@[x] != '\n',
        joined_lines(r@.map_values(|l: String| l@)) == input@ + (if input@.len() > 0
            && input@.last() != '\n' {
            seq!['\n']
        } else {
            Seq::<char>::empty()
        }),
        input@.len() == 0 ==> r@.len() == 0,
{
    let n: usize = input.unicode_len();
    let mut out: Vec<String> = Vec::new();
    let mut start: usize = 0;
    let mut i: usize = 0;
    proof {
        assert(out@.map_values(|l: String| l@) =~= Seq::<Seq<char>>::empty());
        assert(input@.take(0) =~= Seq::<char>::empty());
    }
    while i < n
        invariant
            n == input@.len(),
            start <= i <= n,
            start == 0 || input@[start - 1] == '\n',
            forall|x: int| start <= x < i ==> input@[x] != '\n',
            forall|j: int, x: int|
                0 <= j < out@.len() && 0 <= x < out@[j]@.len() ==> #[trigger] out@[j]@[x] != '\n',
            joined_lines(out@.map_values(|l: String| l@)) == input@.take(start as int),
        decreases n - i,
    {
        if input.get_char(i) == '\n' {
            let ghost lines_pre = out@.map_values(|l: String| l@);
            let line: &str = input.substring_char(start, i);
            let owned: String = line.to_owned();
            out.push(owned);
            proof {
                let lines_now = out@.map_values(|l: String| l@);
                assert(lines_now.drop_last() =~= lines_pre);
                assert(lines_now.last() =~= input@.subrange(start as int, i as int));
                assert(joined_lines(lines_now) =~= input@.take(i + 1));
            }
            start = i + 1;
        }
        i = i + 1;
    }
    if start < n {
        let ghost lines_pre = out@.map_values(|l: String| l@);
        let line: &str = input.substring_char(start, n);
        let owned: String = line.to_owned();
        out.push(owned);
        proof {
            let lines_now = out@.map_values(|l: String| l@);
            assert(lines_now.drop_last() =~= lines_pre);
            assert(lines_now.last() =~= input@.subrange(start as int, n as int));
            assert(input@.take(start as int) + input@.subrange(start as int, n as int) =~= input@);
            assert(input@.last() != '\n');
            assert(joined_lines(lines_now) =~= input@ + seq!['\n']);
        }
    } else {
        proof {
            assert(input@.take(n as int) =~= input@);
            if input@.len() > 0 {
                assert(input@.last() == '\n');
            }
        }
    }
    out
}

/// Aggregate press counts for a chain of two directional-pad controllers.
pub fn part1(input: &Vec<String>) -> (r: Result<u128, SolveError>)
    requires
        solve_total(input@.map_values(|c: String| c@), 1nat) <= u128::MAX,
    ensures
        r is Ok <==> (forall|i: int| 0 <= i < input@.len() ==> valid_code(#[trigger] input@[i]@)),
        r is Ok ==> r->Ok_0 == solve_total(input@.map_values(|c: String| c@), 1nat),
        r is Err ==> r->Err_0 == SolveError::InvalidCodeSymbol,
{
    solve(input, 2)
}

/// Aggregate press counts for the full chain of twenty-five controllers.
pub fn part2(input: &Vec<String>) -> (r: Result<u128, SolveError>)
    requires
        solve_total(input@.map_values(|c: String| c@), 24nat) <= u128::MAX,
    ensures
        r is Ok <==> (forall|i: int| 0 <= i < input@.len() ==> valid_code(#[trigger] input@[i]@)),
        r is Ok ==> r->Ok_0 == solve_total(input@.map_values(|c: String| c@), 24nat),
        r is Err ==> r->Err_0 == SolveError::InvalidCodeSymbol,
{
    solve(input, 25)
}

} // verus!

verus! {

/// A tied-shortest activate-terminated sequence is one chunk: it ends
/// with the activate press and holds no other activate press.
pub proof fn lemma_min_seq_chars(
    from: (int, int),
    to: (int, int),
    gap: (int, int),
    rows: int,
    cols: int,
    s: Seq<char>,
)
    requires
        is_min_seq(from, to, gap, rows, cols, s),
    ensures
        s.len() >= 1,
        s.last() == 'A',
        forall|x: int| 0 <= x < s.len() - 1 ==> #[trigger] s[x] != 'A',
{
    lemma_min_walk_dir_chars(from, to, gap, rows, cols, s.drop_last());
    assert forall|x: int| 0 <= x < s.len() - 1 implies #[trigger] s[x] != 'A' by {
        assert(s.drop_last()[x] == s[x]);
    }
}

/// A candidate for at least one typed character ends with the activate
/// press of its last chunk.
pub proof fn lemma_expansion_last_a(s: Seq<char>, prev: char, code: Seq<char>, i: int)
    requires
        1 <= i,
        is_code_expansion_upto(s, prev, code, i),
    ensures
        s.len() >= 1,
        s.last() == 'A',
{
    lemma_expansion_dir_chars(s, prev, code, i);
    let k = lemma_upto_elim(s, prev, code, i);
    lemma_min_seq_chars(
        num_pos(code_prev(prev, code, i - 1)),
        num_pos(code[i - 1]),
        num_gap(),
        4,
        3,
        s.skip(k),
    );
    assert(s.skip(k).last() == s[s.len() - 1]);
}

/// A sequence cannot be cut at two places so that both heads expand the
/// same first characters and both tails are single chunks: the cut is
/// pinned by the second-to-last activate press.
pub proof fn lemma_expansion_split_unique(
    s: Seq<char>,
    prev: char,
    code: Seq<char>,
    i: int,
    k1: int,
    k2: int,
    from: (int, int),
    to: (int, int),
)
    requires
        0 <= i,
        0 <= k1 <= s.len(),
        0 <= k2 <= s.len(),
        is_code_expansion_upto(s.take(k1), prev, code, i),
        is_code_expansion_upto(s.take(k2), prev, code, i),
        is_min_seq(from, to, num_gap(), 4, 3, s.skip(k1)),
        is_min_seq(from, to, num_gap(), 4, 3, s.skip(k2)),
    ensures
        k1 == k2,
{
    if k1 != k2 {
        let klo = if k1 < k2 {
            k1
        } else {
            k2
        };
        let khi = if k1 < k2 {
            k2
        } else {
            k1
        };
        if i == 0 {
            assert(s.take(khi).len() == 0);
        } else {
            lemma_expansion_last_a(s.take(khi), prev, code, i);
            assert(s.take(khi).last() == s[khi - 1]);
            lemma_min_seq_chars(from, to, num_gap(), 4, 3, s.skip(khi));
            assert(khi < s.len());
            lemma_min_seq_chars(from, to, num_gap(), 4, 3, s.skip(klo));
            assert(s.skip(klo)[khi - 1 - klo] == s[khi - 1]);
            assert(khi - 1 - klo < s.skip(klo).len() - 1);
        }
    }
}

} // verus!

verus! {

/// Chains the one-step cost growth over any depth gap.
pub proof fn lemma_expand_monotone_in_depth(s: Seq<char>, prev: char, da: nat, db: nat)
    requires
        dir_seq_ok(s),
        is_dir_button(prev),
        da <= db,
    ensures
        expand_cost(s, prev, da) <= expand_cost(s, prev, db),
    decreases db,
{
    if da < db {
        lemma_expand_step_monotone(s, prev, (db - 1) as nat);
        lemma_expand_monotone_in_depth(s, prev, da, (db - 1) as nat);
    }
}

/// Every code over numeric-pad buttons has at least one candidate
/// command sequence, because every transition has a tied-shortest walk.
pub proof fn lemma_expansion_exists(prev: char, code: Seq<char>, i: int)
    requires
        0 <= i <= code.len(),
        is_num_button(prev),
        code_chars_ok(code),
    ensures
        exists|s: Seq<char>| #[trigger] is_code_expansion_upto(s, prev, code, i),
    decreases i,
{
    if i == 0 {
        assert(is_code_expansion_upto(Seq::<char>::empty(), prev, code, 0));
    } else {
        lemma_expansion_exists(prev, code, i - 1);
        let s0 = choose|s: Seq<char>| #[trigger] is_code_expansion_upto(s, prev, code, i - 1);
        let from = num_pos(code_prev(prev, code, i - 1));
        let to = num_pos(code[i - 1]);
        assert(is_num_button(code_prev(prev, code, i - 1)));
        assert(num_cell_ok(from));
        assert(num_cell_ok(to));
        lemma_min_walk_exists(from, to, num_gap(), 4, 3);
        let w = choose|w: Seq<char>| is_min_walk(from, to, num_gap(), 4, 3, w);
        let piece = w.push('A');
        assert(piece.drop_last() =~= w);
        assert(is_min_seq(from, to, num_gap(), 4, 3, piece));
        let s1 = s0 + piece;
        assert(s1.take(s0.len() as int) =~= s0);
        assert(s1.skip(s0.len() as int) =~= piece);
        lemma_upto_intro(s1, prev, code, i, s0.len() as int);
        assert(is_code_expansion_upto(s1, prev, code, i));
    }
}

/// A non-empty set of candidate costs has a least element, so the
/// minimal press count of a code is well defined.
pub proof fn lemma_best_len_exists(code: Seq<char>, d1: nat, m: nat)
    requires
        exists|s: Seq<char>|
            #[trigger] is_code_expansion(s, 'A', code) && expand_cost(s, 'A', d1) == m,
    ensures
        exists|mm: nat| is_best_len(code, d1, mm),
    decreases m,
{
    if forall|s: Seq<char>| #[trigger] is_code_expansion(s, 'A', code) ==> expand_cost(s, 'A', d1)
        >= m {
        assert(is_best_len(code, d1, m));
    } else {
        let s2 = choose|s: Seq<char>|
            #[trigger] is_code_expansion(s, 'A', code) && expand_cost(s, 'A', d1) < m;
        lemma_best_len_exists(code, d1, expand_cost(s2, 'A', d1));
    }
}

/// A deeper controller chain never lowers a code's minimal press count.
pub proof fn lemma_best_len_monotone(code: Seq<char>, da: nat, db: nat)
    requires
        da <= db,
        code_chars_ok(code),
    ensures
        best_len(code, da) <= best_len(code, db),
{
    lemma_expansion_exists('A', code, code.len() as int);
    let s_any = choose|s: Seq<char>|
        #[trigger] is_code_expansion_upto(s, 'A', code, code.len() as int);
    assert(is_code_expansion(s_any, 'A', code));
    lemma_best_len_exists(code, da, expand_cost(s_any, 'A', da));
    lemma_best_len_exists(code, db, expand_cost(s_any, 'A', db));
    let ma = best_len(code, da);
    let mb = best_len(code, db);
    assert(is_best_len(code, da, ma));
    assert(is_best_len(code, db, mb));
    let sb = choose|s: Seq<char>|
        #[trigger] is_code_expansion(s, 'A', code) && expand_cost(s, 'A', db) == mb;
    lemma_expansion_dir_chars(sb, 'A', code, code.len() as int);
    lemma_expand_monotone_in_depth(sb, 'A', da, db);
    assert(expand_cost(sb, 'A', da) >= ma);
}

/// A deeper controller chain never lowers the aggregate of the solver:
/// pressing through more indirection layers costs at least as much.
pub proof fn lemma_solve_total_monotone(codes: Seq<Seq<char>>, da: nat, db: nat)
    requires
        da <= db,
        forall|i: int| 0 <= i < codes.len() ==> valid_code(#[trigger] codes[i]),
    ensures
        solve_total(codes, da) <= solve_total(codes, db),
    decreases codes.len(),
{
    if codes.len() > 0 {
        assert forall|i: int| 0 <= i < codes.drop_last().len() implies valid_code(
            #[trigger] codes.drop_last()[i],
        ) by {
            assert(codes.drop_last()[i] == codes[i]);
        }
        lemma_solve_total_monotone(codes.drop_last(), da, db);
        let last = codes.last();
        assert(valid_code(last));
        assert forall|x: int| 0 <= x < last.len() implies is_num_button(#[trigger] last[x]) by {
            if x < last.len() - 1 {
                assert(is_digit(last[x]));
            }
        }
        lemma_best_len_monotone(last, da, db);
        assert(code_value(last) * best_len(last, da) <= code_value(last) * best_len(last, db))
            by (nonlinear_arith)
            requires
                best_len(last, da) <= best_len(last, db),
                code_value(last) >= 0,
        {}
    }
}

} // verus!
