//! The patrolling guard: position, facing, and elementary moves.

use vstd::prelude::*;

verus! {

/// A guard on the grid: a cell and a unit facing `(row step, col step)`.
#[derive(Clone, Copy, Debug)]
pub struct Guard {
    pub pos: (usize, usize),
    pub dir: (isize, isize),
}

/// The four unit facings the guard can have.
pub open spec fn valid_dir(d: (isize, isize)) -> bool {
    d == (0isize, -1isize) || d == (1isize, 0isize) || d == (0isize, 1isize) || d == (
        -1isize,
        0isize,
    )
}

/// The facing after a right turn.
pub open spec fn turned_right(d: (isize, isize)) -> (isize, isize) {
    if d == (0isize, -1isize) {
        (-1isize, 0isize)
    } else if d == (1isize, 0isize) {
        (0isize, -1isize)
    } else if d == (0isize, 1isize) {
        (1isize, 0isize)
    } else {
        (0isize, 1isize)
    }
}

/// One coordinate stepped by a unit offset, with the wrap-around of a
/// cast through signed arithmetic: stepping below zero lands just past
/// the top of the unsigned range, which any bounds check then rejects.
pub open spec fn stepped(p: usize, d: isize) -> int {
    if p + d >= 0 {
        p + d
    } else {
        p + d + usize::MAX + 1
    }
}

/// One coordinate moved by a unit offset with wrap-around below zero.
fn step_coord(p: usize, d: isize) -> (r: usize)
    requires
        -1 <= d <= 1,
        p < isize::MAX,
    ensures
        r == stepped(p, d),
{
    if d == 1 {
        p + 1
    } else if d == 0 {
        p
    } else {
        if p >= 1 {
            p - 1
        } else {
            usize::MAX
        }
    }
}

impl Guard {
    /// Turns the guard a quarter turn to the right.
    pub fn turn_right(&mut self)
        requires
            valid_dir(old(self).dir),
        ensures
            final(self).dir == turned_right(old(self).dir),
            final(self).pos == old(self).pos,
            valid_dir(final(self).dir),
    {
        if self.dir.0 == 0 && self.dir.1 == -1 {
            self.dir = (-1, 0);
        } else if self.dir.0 == 1 && self.dir.1 == 0 {
            self.dir = (0, -1);
        } else if self.dir.0 == 0 && self.dir.1 == 1 {
            self.dir = (1, 0);
        } else {
            self.dir = (0, 1);
        }
    }

    /// Steps the guard one cell along its facing.
    pub fn make_move(&mut self)
        requires
            valid_dir(old(self).dir),
            old(self).pos.0 < isize::MAX,
            old(self).pos.1 < isize::MAX,
        ensures
            final(self).pos.0 == stepped(old(self).pos.0, old(self).dir.0),
            final(self).pos.1 == stepped(old(self).pos.1, old(self).dir.1),
            final(self).dir == old(self).dir,
    {
        self.pos.0 = step_coord(self.pos.0, self.dir.0);
        self.pos.1 = step_coord(self.pos.1, self.dir.1);
    }

    /// The cell one step ahead of the guard.
    pub fn next_pos(&self) -> (r: (usize, usize))
        requires
            valid_dir(self.dir),
            self.pos.0 < isize::MAX,
            self.pos.1 < isize::MAX,
        ensures
            r.0 == stepped(self.pos.0, self.dir.0),
            r.1 == stepped(self.pos.1, self.dir.1),
    {
        (step_coord(self.pos.0, self.dir.0), step_coord(self.pos.1, self.dir.1))
    }
}

} // verus!
