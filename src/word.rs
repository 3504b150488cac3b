//! A word laid on the grid: its text, direction and first cell.
use vstd::prelude::*;
use crate::direction::{dc, dr, Direction};

verus! {

/// `x` moved `i` steps along a unit step `k`.
pub open spec fn step(x: int, k: int, i: int) -> int {
    if k < 0 {
        x - i
    } else if k > 0 {
        x + i
    } else {
        x
    }
}

/// `x` moved `i` steps along `k`, which the caller knows to stay in range.
pub fn step_exec(x: usize, k: i32, i: usize) -> (r: usize)
    requires
        -1 <= k <= 1,
        0 <= step(x as int, k as int, i as int) <= usize::MAX,
    ensures
        r == step(x as int, k as int, i as int),
{
    if k < 0 {
        x - i
    } else if k > 0 {
        x + i
    } else {
        x
    }
}

/// `x` moved `i` steps along `k`, if that stays in `0..bound`.
pub fn step_within(x: usize, k: i32, i: usize, bound: usize) -> (r: Option<usize>)
    requires
        -1 <= k <= 1,
        x < bound,
    ensures
        r == if 0 <= step(x as int, k as int, i as int) < bound {
            Some(step(x as int, k as int, i as int) as usize)
        } else {
            None::<usize>
        },
{
    if k < 0 {
        if i <= x {
            Some(x - i)
        } else {
            None
        }
    } else if k > 0 {
        if i < bound - x {
            Some(x + i)
        } else {
            None
        }
    } else {
        Some(x)
    }
}

/// A placement: `word` written from `coords` (row, column) along `direction`.
pub struct Word {
    pub direction: Direction,
    pub length: usize,
    pub coords: (usize, usize),
    pub word: String,
}

impl Word {
    /// The cell of the `i`-th character, as (row, column).
    pub open spec fn cell(&self, i: int) -> (int, int) {
        (
            step(self.coords.0 as int, dr(self.direction), i),
            step(self.coords.1 as int, dc(self.direction), i),
        )
    }

    pub fn new(value: String, direction: Direction, coords: (usize, usize)) -> (r: Word)
        ensures
            r.word@ == value@,
            r.direction == direction,
            r.coords == coords,
            r.length == value@.len(),
    {
        let length = value.as_str().unicode_len();
        Word { coords, direction, length, word: value }
    }

    /// A copy of this placement.
    pub fn duplicate(&self) -> (r: Word)
        ensures
            r == *self,
    {
        Word {
            direction: self.direction,
            length: self.length,
            coords: self.coords,
            word: self.word.clone(),
        }
    }
}

/// Along a direction other than the centre, distinct indices give distinct cells.
pub proof fn lemma_cells_distinct(w: Word, i: int, j: int)
    requires
        w.direction != Direction::Center,
        i != j,
    ensures
        w.cell(i) != w.cell(j),
{
}

} // verus!
