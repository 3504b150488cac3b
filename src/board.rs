//! The grid: a character plane and a contribution plane that records which
//! placement first wrote each letter, so that placements unwind in LIFO order.
use vstd::prelude::*;
use crate::direction::{dc, dr, direction_at, Direction};
use crate::text::{chars_of, string_of};
use crate::trie::WILDCARD;
use crate::word::{step, step_exec, step_within, Word};
use crate::solution::{taken, Solution};
use crate::{PuzzleError, MIN_DIM};

verus! {

/// An unfilled cell; it reads as a wildcard in a ray.
pub const UNKNOWN: char = WILDCARD;

/// A cell reserved for a letter of the hidden phrase; words never cross it.
pub const SOLUTION_MARK: char = '*';

/// A cell holding a placed letter.
pub open spec fn is_letter(c: char) -> bool {
    c != UNKNOWN && c != SOLUTION_MARK
}

/// Number of unknown cells in a row.
pub open spec fn unknowns_in(s: Seq<char>) -> nat
    decreases s.len(),
{
    if s.len() == 0 {
        0
    } else {
        unknowns_in(s.drop_last()) + if s.last() == UNKNOWN {
            1nat
        } else {
            0nat
        }
    }
}

/// Number of unknown cells in a grid.
pub open spec fn unknowns(g: Seq<Seq<char>>) -> nat
    decreases g.len(),
{
    if g.len() == 0 {
        0
    } else {
        unknowns(g.drop_last()) + unknowns_in(g.last())
    }
}

proof fn lemma_unknowns_in_update(s: Seq<char>, i: int, x: char)
    requires
        0 <= i < s.len(),
    ensures
        unknowns_in(s.update(i, x)) + (if s[i] == UNKNOWN {
            1int
        } else {
            0int
        }) == unknowns_in(s) + (if x == UNKNOWN {
            1int
        } else {
            0int
        }),
    decreases s.len(),
{
    if i == s.len() - 1 {
        assert(s.update(i, x).drop_last() =~= s.drop_last());
    } else {
        lemma_unknowns_in_update(s.drop_last(), i, x);
        assert(s.update(i, x).drop_last() =~= s.drop_last().update(i, x));
    }
}

proof fn lemma_unknowns_update(g: Seq<Seq<char>>, r: int, row: Seq<char>)
    requires
        0 <= r < g.len(),
    ensures
        unknowns(g.update(r, row)) + unknowns_in(g[r]) == unknowns(g) + unknowns_in(row),
    decreases g.len(),
{
    if r == g.len() - 1 {
        assert(g.update(r, row).drop_last() =~= g.drop_last());
    } else {
        lemma_unknowns_update(g.drop_last(), r, row);
        assert(g.update(r, row).drop_last() =~= g.drop_last().update(r, row));
    }
}

/// The grid of a puzzle.
pub struct Board {
    pub cols: usize,
    pub rows: usize,
    /// The character plane, row by row.
    pub board: Vec<Vec<char>>,
    /// For each letter, the epoch of the placement that first wrote it.
    pub contributions: Vec<Vec<Option<usize>>>,
    /// The epoch of the next placement.
    pub tracker: usize,
}

impl Board {
    pub open spec fn grid(&self) -> Seq<Seq<char>> {
        self.board@.map_values(|r: Vec<char>| r@)
    }

    pub open spec fn cell(&self, p: (int, int)) -> char {
        self.board@[p.0]@[p.1]
    }

    pub open spec fn epoch_of(&self, p: (int, int)) -> Option<usize> {
        self.contributions@[p.0]@[p.1]
    }

    pub open spec fn in_grid(&self, p: (int, int)) -> bool {
        0 <= p.0 < self.rows && 0 <= p.1 < self.cols
    }

    /// Both planes have the board's shape.
    pub open spec fn dims_ok(&self) -> bool {
        &&& self.rows >= MIN_DIM
        &&& self.cols >= MIN_DIM
        &&& self.rows * self.cols <= usize::MAX
        &&& self.board@.len() == self.rows
        &&& self.contributions@.len() == self.rows
        &&& forall|r: int|
            0 <= r < self.rows ==> (#[trigger] self.board@[r])@.len() == self.cols
                && self.contributions@[r]@.len() == self.cols
    }

    /// Exactly the letters have a contribution, and it is an earlier epoch.
    pub open spec fn wf(&self) -> bool {
        &&& self.dims_ok()
        &&& forall|p: (int, int)|
            #![trigger self.epoch_of(p)]
            #![trigger self.cell(p)]
            self.in_grid(p) ==> match self.epoch_of(p) {
                Some(k) => k < self.tracker && is_letter(self.cell(p)),
                None => !is_letter(self.cell(p)),
            }
    }

    /// `w` runs inside the grid, crosses no solution cell, and agrees with
    /// every letter it meets.
    pub open spec fn admissible(&self, w: &Word) -> bool {
        &&& w.direction != Direction::Center
        &&& forall|i: int|
            #![trigger w.word@[i]]
            0 <= i < w.word@.len() ==> {
                &&& self.in_grid(w.cell(i))
                &&& is_letter(w.word@[i])
                &&& self.cell(w.cell(i)) == UNKNOWN || self.cell(w.cell(i)) == w.word@[i]
            }
    }

    /// `p` is not a cell of `w`.
    pub open spec fn off_word(w: &Word, p: (int, int)) -> bool {
        forall|i: int| 0 <= i < w.word@.len() ==> w.cell(i) != p
    }

    /// Same shape and epoch counter relation aside, the planes agree off `w`.
    pub open spec fn same_off_word(&self, before: &Board, w: &Word) -> bool {
        forall|p: (int, int)|
            #![trigger self.cell(p)]
            #![trigger self.epoch_of(p)]
            self.in_grid(p) && Board::off_word(w, p) ==> self.cell(p) == before.cell(p)
                && self.epoch_of(p) == before.epoch_of(p)
    }

    /// `self` is `before` with `w` written on it at epoch `before.tracker`.
    pub open spec fn placed(&self, before: &Board, w: &Word) -> bool {
        &&& self.rows == before.rows
        &&& self.cols == before.cols
        &&& self.tracker == before.tracker + 1
        &&& forall|i: int|
            #![trigger w.cell(i)]
            0 <= i < w.word@.len() ==> self.cell(w.cell(i)) == w.word@[i] && self.epoch_of(w.cell(i))
                == match before.epoch_of(w.cell(i)) {
                Some(k) => Some(k),
                None => Some(before.tracker),
            }
        &&& self.same_off_word(before, w)
    }

    /// `self` is `before` with the cells of `w` written at the latest epoch
    /// reset to unknown.
    pub open spec fn unplaced(&self, before: &Board, w: &Word) -> bool {
        &&& self.rows == before.rows
        &&& self.cols == before.cols
        &&& self.tracker == before.tracker - 1
        &&& forall|i: int|
            #![trigger w.cell(i)]
            0 <= i < w.word@.len() ==> if before.epoch_of(w.cell(i)) == Some(self.tracker) {
                self.cell(w.cell(i)) == UNKNOWN && self.epoch_of(w.cell(i)) == None::<usize>
            } else {
                self.cell(w.cell(i)) == before.cell(w.cell(i)) && self.epoch_of(w.cell(i))
                    == before.epoch_of(w.cell(i))
            }
        &&& self.same_off_word(before, w)
    }

    /// Every cell written at the latest epoch lies on `w`.
    pub open spec fn latest_is(&self, w: &Word) -> bool {
        forall|p: (int, int)|
            #![trigger self.epoch_of(p)]
            self.in_grid(p) && self.epoch_of(p) == Some((self.tracker - 1) as usize) ==> !Board::off_word(w, p)
    }

    /// No unknown cell is left.
    pub open spec fn complete(&self) -> bool {
        forall|p: (int, int)| #![trigger self.cell(p)] self.in_grid(p) ==> self.cell(p) != UNKNOWN
    }

    /// A `rows` x `cols` grid of unknown cells.
    #[verifier::spinoff_prover]
    pub fn new(rows: usize, cols: usize) -> (r: Result<Board, PuzzleError>)
        requires
            rows * cols <= usize::MAX,
        ensures
            (rows < MIN_DIM || cols < MIN_DIM) <==> r == Err::<Board, PuzzleError>(
                PuzzleError::BoardTooSmall,
            ),
            r is Ok <==> (rows >= MIN_DIM && cols >= MIN_DIM),
            r matches Ok(b) ==> {
                &&& b.wf()
                &&& b.rows == rows && b.cols == cols
                &&& b.tracker == 0
                &&& forall|p: (int, int)| #[trigger] b.in_grid(p) ==> b.cell(p) == UNKNOWN
            },
    {
        if cols < MIN_DIM || rows < MIN_DIM {
            return Err(PuzzleError::BoardTooSmall);
        }
        let mut board: Vec<Vec<char>> = Vec::new();
        let mut contributions: Vec<Vec<Option<usize>>> = Vec::new();
        let mut r: usize = 0;
        while r < rows
            invariant
                r <= rows,
                board@.len() == r,
                contributions@.len() == r,
                forall|i: int, j: int|
                    0 <= i < r && 0 <= j < cols ==> board@[i]@[j] == UNKNOWN
                        && contributions@[i]@[j] == None::<usize>,
                forall|i: int|
                    0 <= i < r ==> (#[trigger] board@[i])@.len() == cols
                        && contributions@[i]@.len() == cols,
            decreases rows - r,
        {
            let mut row: Vec<char> = Vec::new();
            let mut crow: Vec<Option<usize>> = Vec::new();
            let mut c: usize = 0;
            while c < cols
                invariant
                    c <= cols,
                    row@.len() == c,
                    crow@.len() == c,
                    forall|j: int| 0 <= j < c ==> row@[j] == UNKNOWN && crow@[j] == None::<usize>,
                decreases cols - c,
            {
                row.push(UNKNOWN);
                crow.push(None);
                c = c + 1;
            }
            board.push(row);
            contributions.push(crow);
            r = r + 1;
        }
        let b = Board { rows, cols, board, contributions, tracker: 0 };
        assert forall|p: (int, int)| #[trigger] b.in_grid(p) implies b.cell(p) == UNKNOWN
            && b.epoch_of(p) == None::<usize> by {
            assert(b.board@[p.0]@[p.1] == UNKNOWN);
        }
        assert(b.dims_ok());
        assert(b.wf());
        Ok(b)
    }

    /// Whether no unknown cell is left.
    pub fn is_board_populated(&self) -> (r: bool)
        requires
            self.dims_ok(),
        ensures
            r == self.complete(),
    {
        let mut row: usize = 0;
        while row < self.rows
            invariant
                self.dims_ok(),
                row <= self.rows,
                forall|p: (int, int)|
                    #![trigger self.cell(p)]
                    self.in_grid(p) && p.0 < row ==> self.cell(p) != UNKNOWN,
            decreases self.rows - row,
        {
            let mut col: usize = 0;
            while col < self.cols
                invariant
                    self.dims_ok(),
                    row < self.rows,
                    col <= self.cols,
                    forall|p: (int, int)|
                        #![trigger self.cell(p)]
                        self.in_grid(p) && (p.0 < row || (p.0 == row && p.1 < col)) ==> self.cell(p)
                            != UNKNOWN,
                decreases self.cols - col,
            {
                if self.board[row][col] == UNKNOWN {
                    assert(self.cell((row as int, col as int)) == UNKNOWN);
                    assert(self.in_grid((row as int, col as int)));
                    return false;
                }
                col = col + 1;
            }
            row = row + 1;
        }
        true
    }

    /// Writes one cell of both planes.
    fn set_cell(&mut self, r: usize, c: usize, ch: char, k: Option<usize>)
        requires
            old(self).dims_ok(),
            r < old(self).rows,
            c < old(self).cols,
        ensures
            final(self).dims_ok(),
            final(self).rows == old(self).rows,
            final(self).cols == old(self).cols,
            final(self).tracker == old(self).tracker,
            final(self).cell((r as int, c as int)) == ch,
            final(self).epoch_of((r as int, c as int)) == k,
            forall|p: (int, int)|
                #![trigger final(self).cell(p)]
                #![trigger final(self).epoch_of(p)]
                p != (r as int, c as int) && final(self).in_grid(p) ==> final(self).cell(p)
                    == old(self).cell(p) && final(self).epoch_of(p) == old(self).epoch_of(p),
            unknowns(final(self).grid()) + (if old(self).cell((r as int, c as int)) == UNKNOWN {
                1int
            } else {
                0int
            }) == unknowns(old(self).grid()) + (if ch == UNKNOWN {
                1int
            } else {
                0int
            }),
    {
        let ghost g0 = self.grid();
        let ghost row0 = self.board@[r as int]@;
        self.board[r].set(c, ch);
        self.contributions[r].set(c, k);
        proof {
            lemma_unknowns_in_update(row0, c as int, ch);
            lemma_unknowns_update(g0, r as int, row0.update(c as int, ch));
            assert(self.grid() =~= g0.update(r as int, row0.update(c as int, ch)));
            assert forall|i: int| 0 <= i < self.rows implies (#[trigger] self.board@[i])@.len()
                == self.cols && self.contributions@[i]@.len() == self.cols by {
                if i != r {
                    assert(self.board@[i] == old(self).board@[i]);
                    assert(self.contributions@[i] == old(self).contributions@[i]);
                }
            }
        }
    }

    /// The longer side of the grid: no ray is longer.
    pub open spec fn limit(&self) -> int {
        if self.rows >= self.cols {
            self.rows as int
        } else {
            self.cols as int
        }
    }

    /// The `k`-th cell from `(r, c)` along `d`.
    pub open spec fn ray_cell(r: int, c: int, d: Direction, k: int) -> (int, int) {
        (step(r, dr(d), k), step(c, dc(d), k))
    }

    /// The characters from the `k`-th cell from `(r, c)` along `d` on, up to
    /// the grid's edge or the first solution cell.
    pub open spec fn ray_from(&self, r: int, c: int, d: Direction, k: int) -> Seq<char>
        decreases self.limit() - k,
    {
        let p = Board::ray_cell(r, c, d, k);
        if 0 <= k < self.limit() && self.in_grid(p) && self.cell(p) != SOLUTION_MARK {
            seq![self.cell(p)] + self.ray_from(r, c, d, k + 1)
        } else {
            Seq::empty()
        }
    }

    /// The ray from `(r, c)` along `d`; empty for the centre.
    pub open spec fn ray(&self, r: int, c: int, d: Direction) -> Seq<char> {
        if d == Direction::Center {
            Seq::empty()
        } else {
            self.ray_from(r, c, d, 0)
        }
    }

    /// The ray from `(r, c)` along `d` if it holds an unknown cell, else empty.
    pub open spec fn query(&self, r: int, c: int, d: Direction) -> Seq<char> {
        if self.ray(r, c, d).contains(UNKNOWN) {
            self.ray(r, c, d)
        } else {
            Seq::empty()
        }
    }

    /// The ray from `(row, col)` along `direction`, if it holds an unknown cell.
    #[verifier::spinoff_prover]
    pub fn get_current_sequence(&self, row: usize, col: usize, direction: Direction) -> (r: Option<
        String,
    >)
        requires
            self.dims_ok(),
            row < self.rows,
            col < self.cols,
        ensures
            r matches Some(s) ==> s@ == self.ray(row as int, col as int, direction) && s@.contains(
                UNKNOWN,
            ),
            r is None ==> self.query(row as int, col as int, direction) == Seq::<char>::empty(),
    {
        if direction == Direction::Center {
            return None;
        }
        let limit = if self.rows >= self.cols {
            self.rows
        } else {
            self.cols
        };
        let dr = direction.getRow();
        let dc = direction.getCol();
        let mut seq: Vec<char> = Vec::new();
        let mut k: usize = 0;
        while k < limit
            invariant
                self.dims_ok(),
                row < self.rows,
                col < self.cols,
                limit == self.limit(),
                dr == crate::direction::dr(direction),
                dc == crate::direction::dc(direction),
                k <= limit,
                self.ray_from(row as int, col as int, direction, 0) == seq@ + self.ray_from(
                    row as int,
                    col as int,
                    direction,
                    k as int,
                ),
            ensures
                self.ray_from(row as int, col as int, direction, 0) == seq@,
            decreases limit - k,
        {
            let ghost rest = self.ray_from(row as int, col as int, direction, k as int + 1);
            let pr = step_within(row, dr, k, self.rows);
            let pc = step_within(col, dc, k, self.cols);
            match (pr, pc) {
                (Some(r), Some(c)) => {
                    let ch = self.board[r][c];
                    if ch == SOLUTION_MARK {
                        assert(self.ray_from(row as int, col as int, direction, k as int)
                            =~= Seq::<char>::empty());
                        assert(seq@ + Seq::<char>::empty() =~= seq@);
                        break ;
                    }
                    seq.push(ch);
                    assert(self.ray_from(row as int, col as int, direction, k as int) == seq![ch]
                        + rest);
                    assert(self.ray_from(row as int, col as int, direction, 0) =~= seq@ + rest);
                },
                _ => {
                    assert(self.ray_from(row as int, col as int, direction, k as int)
                        =~= Seq::<char>::empty());
                    assert(seq@ + Seq::<char>::empty() =~= seq@);
                    break ;
                },
            }
            k = k + 1;
        }
        proof {
            if k == limit {
                assert(self.ray_from(row as int, col as int, direction, k as int)
                    =~= Seq::<char>::empty());
                assert(seq@ + Seq::<char>::empty() =~= seq@);
            }
        }
        let mut has_unknown = false;
        let mut i: usize = 0;
        while i < seq.len()
            invariant
                i <= seq@.len(),
                has_unknown <==> exists|j: int| 0 <= j < i && seq@[j] == UNKNOWN,
            decreases seq@.len() - i,
        {
            if seq[i] == UNKNOWN {
                has_unknown = true;
            }
            i = i + 1;
        }
        if !has_unknown {
            return None;
        }
        Some(string_of(&seq))
    }

    /// For a cell that is not a solution cell, the query along each of the
    /// nine directions, in ordinal order; `None` for a solution cell.
    pub fn get_sequences_from_position(&self, row: usize, col: usize) -> (r: Option<Vec<String>>)
        requires
            self.dims_ok(),
            row < self.rows,
            col < self.cols,
        ensures
            r is None <==> self.cell((row as int, col as int)) == SOLUTION_MARK,
            r matches Some(v) ==> v@.len() == 9 && forall|i: int|
                0 <= i < 9 ==> (#[trigger] v@[i])@ == self.query(
                    row as int,
                    col as int,
                    direction_at(i),
                ),
    {
        if self.board[row][col] == SOLUTION_MARK {
            return None;
        }
        let all = Direction::DIRECTION_MATRIX();
        let mut sequences: Vec<String> = Vec::new();
        let mut i: usize = 0;
        while i < 9
            invariant
                self.dims_ok(),
                row < self.rows,
                col < self.cols,
                i <= 9,
                forall|j: int| 0 <= j < 9 ==> #[trigger] all@[j] == direction_at(j),
                sequences@.len() == i,
                forall|j: int|
                    0 <= j < i ==> (#[trigger] sequences@[j])@ == self.query(
                        row as int,
                        col as int,
                        direction_at(j),
                    ),
            decreases 9 - i,
        {
            let d = all[i];
            match self.get_current_sequence(row, col, d) {
                Some(s) => sequences.push(s),
                None => sequences.push(String::new()),
            }
            i = i + 1;
        }
        Some(sequences)
    }

    /// Whether `word` may be written: see `admissible`.
    #[verifier::spinoff_prover]
    pub fn is_admissible(&self, word: &Word) -> (r: bool)
        requires
            self.dims_ok(),
        ensures
            r == self.admissible(word),
    {
        if word.direction == Direction::Center {
            return false;
        }
        let chars = chars_of(word.word.as_str());
        let dr = word.direction.getRow();
        let dc = word.direction.getCol();
        let mut i: usize = 0;
        while i < chars.len()
            invariant
                self.dims_ok(),
                word.direction != Direction::Center,
                chars@ == word.word@,
                dr == crate::direction::dr(word.direction),
                dc == crate::direction::dc(word.direction),
                i <= chars@.len(),
                forall|j: int|
                    #![trigger word.cell(j)]
                    0 <= j < i ==> {
                        &&& self.in_grid(word.cell(j))
                        &&& is_letter(word.word@[j])
                        &&& self.cell(word.cell(j)) == UNKNOWN || self.cell(word.cell(j))
                            == word.word@[j]
                    },
            decreases chars@.len() - i,
        {
            let ch = chars[i];
            assert(word.word@[i as int] == ch);
            if word.coords.0 >= self.rows || word.coords.1 >= self.cols {
                assert(!self.in_grid(word.cell(0)));
                assert(word.word@[0] == chars@[0]);
                return false;
            }
            let pr = step_within(word.coords.0, dr, i, self.rows);
            let pc = step_within(word.coords.1, dc, i, self.cols);
            match (pr, pc) {
                (Some(r), Some(c)) => {
                    let cur = self.board[r][c];
                    assert(cur == self.cell(word.cell(i as int)));
                    if ch == UNKNOWN || ch == SOLUTION_MARK || (cur != UNKNOWN && cur != ch) {
                        return false;
                    }
                },
                _ => {
                    return false;
                },
            }
            i = i + 1;
        }
        assert forall|j: int|
            #![trigger word.word@[j]]
            0 <= j < word.word@.len() implies {
                &&& self.in_grid(word.cell(j))
                &&& is_letter(word.word@[j])
                &&& self.cell(word.cell(j)) == UNKNOWN || self.cell(word.cell(j)) == word.word@[j]
            } by {
            assert(i == word.word@.len());
            assert(j < i);
        }
        true
    }

    /// Marks the phrase's chosen cells as solution cells; every other cell
    /// is kept.
    #[verifier::spinoff_prover]
    pub fn put_solution_on_board(&mut self, solution: &Solution)
        requires
            old(self).wf(),
            solution.wf(),
            solution.rows == old(self).rows,
            solution.cols == old(self).cols,
        ensures
            final(self).wf(),
            final(self).rows == old(self).rows,
            final(self).cols == old(self).cols,
            final(self).tracker == old(self).tracker,
            unknowns(final(self).grid()) <= unknowns(old(self).grid()),
            forall|p: (int, int)|
                #![trigger final(self).cell(p)]
                #![trigger final(self).epoch_of(p)]
                final(self).in_grid(p) ==> if taken(solution.locations@, p.0 * old(self).cols + p.1) {
                    final(self).cell(p) == SOLUTION_MARK && final(self).epoch_of(p) == None::<usize>
                } else {
                    final(self).cell(p) == old(self).cell(p) && final(self).epoch_of(p) == old(
                        self,
                    ).epoch_of(p)
                },
    {
        let cols = self.cols;
        let mut j: usize = 0;
        while j < solution.locations.len()
            invariant
                self.wf(),
                old(self).wf(),
                solution.wf(),
                solution.rows == self.rows,
                solution.cols == self.cols,
                cols == self.cols,
                self.rows == old(self).rows,
                self.cols == old(self).cols,
                self.tracker == old(self).tracker,
                unknowns(self.grid()) <= unknowns(old(self).grid()),
                j <= solution.locations@.len(),
                forall|p: (int, int)|
                    #![trigger self.cell(p)]
                    #![trigger self.epoch_of(p)]
                    self.in_grid(p) ==> if taken(
                        solution.locations@.subrange(0, j as int),
                        p.0 * cols + p.1,
                    ) {
                        self.cell(p) == SOLUTION_MARK && self.epoch_of(p) == None::<usize>
                    } else {
                        self.cell(p) == old(self).cell(p) && self.epoch_of(p) == old(self).epoch_of(p)
                    },
            decreases solution.locations@.len() - j,
        {
            let q = solution.locations[j].0;
            let ghost prefix = solution.locations@.subrange(0, j as int);
            let ghost next = solution.locations@.subrange(0, j + 1);
            proof {
                vstd::arithmetic::div_mod::lemma_fundamental_div_mod(q as int, cols as int);
                assert(q / cols < self.rows) by (nonlinear_arith)
                    requires
                        q < self.rows * cols,
                        cols > 0,
                        q == cols * (q / cols) + q % cols,
                        0 <= q % cols,
                ;
            }
            let r = q / cols;
            let c = q % cols;
            self.set_cell(r, c, SOLUTION_MARK, None);
            proof {
                assert forall|p: (int, int)|
                    #![trigger self.cell(p)]
                    #![trigger self.epoch_of(p)]
                    self.in_grid(p) implies if taken(next, p.0 * cols + p.1) {
                    self.cell(p) == SOLUTION_MARK && self.epoch_of(p) == None::<usize>
                } else {
                    self.cell(p) == old(self).cell(p) && self.epoch_of(p) == old(self).epoch_of(p)
                } by {
                    let x = p.0 * cols + p.1;
                    if p == (r as int, c as int) {
                        assert(x == q) by (nonlinear_arith)
                            requires
                                p.0 == q / cols,
                                p.1 == q % cols,
                                q == cols * (q / cols) + q % cols,
                                x == p.0 * cols + p.1,
                        ;
                        assert(next[j as int].0 == q);
                    } else {
                        if x == q {
                            vstd::arithmetic::div_mod::lemma_fundamental_div_mod_converse(
                                q as int,
                                cols as int,
                                p.0,
                                p.1,
                            );
                        }
                        if taken(next, x) {
                            let k = choose|k: int| 0 <= k < next.len() && next[k].0 == x;
                            assert(k < j);
                            assert(prefix[k] == next[k]);
                        }
                        if taken(prefix, x) {
                            let k = choose|k: int| 0 <= k < prefix.len() && prefix[k].0 == x;
                            assert(next[k] == prefix[k]);
                        }
                    }
                }
            }
            j = j + 1;
        }
        assert(solution.locations@.subrange(0, j as int) =~= solution.locations@);
    }

    /// Writes `word` at epoch `tracker`, which then advances; letters already
    /// there keep their earlier epoch.
    #[verifier::spinoff_prover]
    pub fn put_word_on_board(&mut self, word: &Word)
        requires
            old(self).wf(),
            old(self).admissible(word),
            old(self).tracker < usize::MAX,
        ensures
            final(self).wf(),
            final(self).placed(old(self), word),
            forall|p: (int, int)|
                #![trigger final(self).cell(p)]
                final(self).in_grid(p) && old(self).cell(p) != UNKNOWN ==> final(self).cell(p)
                    == old(self).cell(p),
            unknowns(final(self).grid()) <= unknowns(old(self).grid()),
            (exists|i: int|
                0 <= i < word.word@.len() && old(self).cell(#[trigger] word.cell(i)) == UNKNOWN)
                ==> unknowns(final(self).grid()) < unknowns(old(self).grid()),
    {
        let chars = chars_of(word.word.as_str());
        let t = self.tracker;
        self.tracker = t + 1;
        assert forall|p: (int, int)|
            #![trigger self.epoch_of(p)]
            #![trigger self.cell(p)]
            self.in_grid(p) implies match self.epoch_of(p) {
            Some(k) => k < self.tracker && is_letter(self.cell(p)),
            None => !is_letter(self.cell(p)),
        } by {
            assert(old(self).in_grid(p));
            assert(self.cell(p) == old(self).cell(p));
            assert(self.epoch_of(p) == old(self).epoch_of(p));
        }
        assert(self.dims_ok());
        assert(self.wf());
        let n = chars.len();
        let mut i: usize = 0;
        while i < n
            invariant
                self.wf(),
                old(self).wf(),
                old(self).admissible(word),
                self.rows == old(self).rows,
                self.cols == old(self).cols,
                t == old(self).tracker,
                self.tracker == t + 1,
                chars@ == word.word@,
                n == chars@.len(),
                i <= n,
                forall|j: int|
                    #![trigger word.cell(j)]
                    0 <= j < i ==> self.cell(word.cell(j)) == word.word@[j] && self.epoch_of(
                        word.cell(j),
                    ) == match old(self).epoch_of(word.cell(j)) {
                        Some(k) => Some(k),
                        None => Some(t),
                    },
                forall|p: (int, int)|
                    #![trigger self.cell(p)]
                    #![trigger self.epoch_of(p)]
                    self.in_grid(p) && (forall|j: int| 0 <= j < i ==> word.cell(j) != p)
                        ==> self.cell(p) == old(self).cell(p) && self.epoch_of(p) == old(self).epoch_of(
                        p,
                    ),
                unknowns(self.grid()) <= unknowns(old(self).grid()),
                (exists|j: int| 0 <= j < i && old(self).cell(#[trigger] word.cell(j)) == UNKNOWN)
                    ==> unknowns(self.grid()) < unknowns(old(self).grid()),
            decreases n - i,
        {
            let ghost p = word.cell(i as int);
            assert(0 <= i < word.word@.len());
            assert(word.word@[i as int] == chars@[i as int]);
            assert(old(self).in_grid(p) && is_letter(word.word@[i as int]));
            assert forall|j: int| 0 <= j < i implies word.cell(j) != p by {
                crate::word::lemma_cells_distinct(*word, j, i as int);
            }
            assert(self.cell(p) == old(self).cell(p));
            let r = step_exec(word.coords.0, word.direction.getRow(), i);
            let c = step_exec(word.coords.1, word.direction.getCol(), i);
            let k = match self.contributions[r][c] {
                Some(k) => Some(k),
                None => Some(t),
            };
            self.set_cell(r, c, chars[i], k);
            assert forall|j: int|
                #![trigger word.cell(j)]
                0 <= j < i + 1 implies self.cell(word.cell(j)) == word.word@[j] && self.epoch_of(
                word.cell(j),
            ) == match old(self).epoch_of(word.cell(j)) {
                Some(k) => Some(k),
                None => Some(t),
            } by {
                if j < i {
                    crate::word::lemma_cells_distinct(*word, j, i as int);
                }
            }
            i = i + 1;
        }
        assert forall|p: (int, int)|
            #![trigger self.cell(p)]
            self.in_grid(p) && old(self).cell(p) != UNKNOWN implies self.cell(p) == old(self).cell(
            p,
        ) by {
            if !Board::off_word(word, p) {
                let j = choose|j: int| 0 <= j < word.word@.len() && word.cell(j) == p;
                assert(word.cell(j) == p);
            }
        }
    }

    /// Undoes the latest placement, `word`: the cells it first wrote go back
    /// to unknown, every other cell is kept.
    #[verifier::spinoff_prover]
    pub fn remove_word_from_board(&mut self, word: &Word)
        requires
            old(self).wf(),
            old(self).tracker > 0,
            old(self).latest_is(word),
            word.direction != Direction::Center,
            forall|i: int| 0 <= i < word.word@.len() ==> old(self).in_grid(#[trigger] word.cell(i)),
        ensures
            final(self).wf(),
            final(self).unplaced(old(self), word),
    {
        let n = word.word.as_str().unicode_len();
        self.tracker = self.tracker - 1;
        let t = self.tracker;
        let mut i: usize = 0;
        while i < n
            invariant
                self.dims_ok(),
                old(self).wf(),
                old(self).latest_is(word),
                word.direction != Direction::Center,
                forall|j: int| 0 <= j < n ==> old(self).in_grid(#[trigger] word.cell(j)),
                self.rows == old(self).rows,
                self.cols == old(self).cols,
                t == old(self).tracker - 1,
                self.tracker == t,
                n == word.word@.len(),
                i <= n,
                forall|j: int|
                    #![trigger word.cell(j)]
                    0 <= j < i ==> if old(self).epoch_of(word.cell(j)) == Some(t) {
                        self.cell(word.cell(j)) == UNKNOWN && self.epoch_of(word.cell(j)) == None::<
                            usize,
                        >
                    } else {
                        self.cell(word.cell(j)) == old(self).cell(word.cell(j)) && self.epoch_of(
                            word.cell(j),
                        ) == old(self).epoch_of(word.cell(j))
                    },
                forall|p: (int, int)|
                    #![trigger self.cell(p)]
                    #![trigger self.epoch_of(p)]
                    self.in_grid(p) && (forall|j: int| 0 <= j < i ==> word.cell(j) != p)
                        ==> self.cell(p) == old(self).cell(p) && self.epoch_of(p) == old(self).epoch_of(
                        p,
                    ),
            decreases n - i,
        {
            let ghost p = word.cell(i as int);
            assert(old(self).in_grid(p));
            assert forall|j: int| 0 <= j < i implies word.cell(j) != p by {
                crate::word::lemma_cells_distinct(*word, j, i as int);
            }
            let r = step_exec(word.coords.0, word.direction.getRow(), i);
            let c = step_exec(word.coords.1, word.direction.getCol(), i);
            if self.contributions[r][c] == Some(t) {
                self.set_cell(r, c, UNKNOWN, None);
            }
            assert forall|j: int|
                #![trigger word.cell(j)]
                0 <= j < i + 1 implies if old(self).epoch_of(word.cell(j)) == Some(t) {
                self.cell(word.cell(j)) == UNKNOWN && self.epoch_of(word.cell(j)) == None::<usize>
            } else {
                self.cell(word.cell(j)) == old(self).cell(word.cell(j)) && self.epoch_of(
                    word.cell(j),
                ) == old(self).epoch_of(word.cell(j))
            } by {
                if j < i {
                    crate::word::lemma_cells_distinct(*word, j, i as int);
                }
            }
            i = i + 1;
        }
        assert forall|p: (int, int)|
            #![trigger self.epoch_of(p)]
            #![trigger self.cell(p)]
            self.in_grid(p) implies match self.epoch_of(p) {
            Some(k) => k < self.tracker && is_letter(self.cell(p)),
            None => !is_letter(self.cell(p)),
        } by {
            if !Board::off_word(word, p) {
                let j = choose|j: int| 0 <= j < word.word@.len() && word.cell(j) == p;
                assert(word.cell(j) == p);
            }
        }
    }
}

/// Placing a word and then removing it gives back both planes and the epoch
/// counter as they were.
pub proof fn law_place_unplace(before: Board, mid: Board, after: Board, w: Word)
    requires
        before.wf(),
        before.admissible(&w),
        mid.placed(&before, &w),
        after.unplaced(&mid, &w),
    ensures
        after.tracker == before.tracker,
        forall|p: (int, int)|
            #![trigger after.cell(p)]
            #![trigger after.epoch_of(p)]
            before.in_grid(p) ==> after.cell(p) == before.cell(p) && after.epoch_of(p)
                == before.epoch_of(p),
{
    assert forall|p: (int, int)|
        #![trigger after.cell(p)]
        #![trigger after.epoch_of(p)]
        before.in_grid(p) implies after.cell(p) == before.cell(p) && after.epoch_of(p)
            == before.epoch_of(p) by {
        if !Board::off_word(&w, p) {
            let j = choose|j: int| 0 <= j < w.word@.len() && w.cell(j) == p;
            assert(w.cell(j) == p);
            assert(before.cell(p) == before.cell(w.cell(j)));
            assert(is_letter(w.word@[j]));
        }
    }
}

/// Removing the latest placement leaves every cell whose epoch is not the
/// latest one as it was.
pub proof fn law_unplace_keeps_other_epochs(before: Board, after: Board, w: Word)
    requires
        after.unplaced(&before, &w),
    ensures
        forall|p: (int, int)|
            #![trigger after.cell(p)]
            #![trigger after.epoch_of(p)]
            before.in_grid(p) && before.epoch_of(p) != Some((before.tracker - 1) as usize)
                ==> after.cell(p) == before.cell(p) && after.epoch_of(p) == before.epoch_of(p),
{
    assert forall|p: (int, int)|
        #![trigger after.cell(p)]
        #![trigger after.epoch_of(p)]
        before.in_grid(p) && before.epoch_of(p) != Some((before.tracker - 1) as usize)
            implies after.cell(p) == before.cell(p) && after.epoch_of(p) == before.epoch_of(p) by {
        if !Board::off_word(&w, p) {
            let j = choose|j: int| 0 <= j < w.word@.len() && w.cell(j) == p;
            assert(w.cell(j) == p);
        }
    }
}

/// Each character of a ray is the grid's character at the matching cell.
pub proof fn lemma_ray_cell(b: &Board, r: int, c: int, d: Direction, k: int, j: int)
    requires
        0 <= k,
        0 <= j < b.ray_from(r, c, d, k).len(),
    ensures
        b.in_grid(Board::ray_cell(r, c, d, k + j)),
        b.ray_from(r, c, d, k)[j] == b.cell(Board::ray_cell(r, c, d, k + j)),
    decreases j,
{
    let p = Board::ray_cell(r, c, d, k);
    assert(0 <= k < b.limit() && b.in_grid(p) && b.cell(p) != SOLUTION_MARK);
    if j > 0 {
        lemma_ray_cell(b, r, c, d, k + 1, j - 1);
        assert(b.ray_from(r, c, d, k)[j] == b.ray_from(r, c, d, k + 1)[j - 1]);
        assert(k + 1 + (j - 1) == k + j);
    }
}

proof fn lemma_unknowns_in_le(s: Seq<char>)
    ensures
        unknowns_in(s) <= s.len(),
    decreases s.len(),
{
    if s.len() > 0 {
        lemma_unknowns_in_le(s.drop_last());
    }
}

proof fn lemma_unknowns_le(g: Seq<Seq<char>>, w: int)
    requires
        0 <= w,
        forall|r: int| 0 <= r < g.len() ==> (#[trigger] g[r]).len() == w,
    ensures
        unknowns(g) <= g.len() * w,
    decreases g.len(),
{
    if g.len() > 0 {
        lemma_unknowns_le(g.drop_last(), w);
        lemma_unknowns_in_le(g.last());
        assert((g.len() - 1) * w + w == g.len() * w) by (nonlinear_arith);
    }
}

/// A grid has no more unknown cells than cells.
pub proof fn lemma_unknowns_bound(b: &Board)
    requires
        b.dims_ok(),
    ensures
        unknowns(b.grid()) <= b.rows * b.cols,
{
    assert forall|r: int| 0 <= r < b.grid().len() implies (#[trigger] b.grid()[r]).len() == b.cols by {
        assert(b.grid()[r] == b.board@[r]@);
    }
    lemma_unknowns_le(b.grid(), b.cols as int);
}

/// Two boards of one shape with the same characters have the same grid.
pub proof fn lemma_same_cells_same_grid(b1: &Board, b2: &Board)
    requires
        b1.dims_ok(),
        b2.dims_ok(),
        b1.rows == b2.rows,
        b1.cols == b2.cols,
        forall|p: (int, int)| #[trigger] b1.in_grid(p) ==> b1.cell(p) == b2.cell(p),
    ensures
        b1.grid() == b2.grid(),
{
    assert forall|r: int| 0 <= r < b1.rows implies #[trigger] b1.grid()[r] == b2.grid()[r] by {
        assert forall|c: int| 0 <= c < b1.cols implies b1.board@[r]@[c] == b2.board@[r]@[c] by {
            assert(b1.in_grid((r, c)));
        }
        assert(b1.board@[r]@ =~= b2.board@[r]@);
    }
    assert(b1.grid() =~= b2.grid());
}

proof fn lemma_unknowns_in_pos(s: Seq<char>, i: int)
    requires
        0 <= i < s.len(),
        s[i] == UNKNOWN,
    ensures
        unknowns_in(s) >= 1,
    decreases s.len(),
{
    if i < s.len() - 1 {
        lemma_unknowns_in_pos(s.drop_last(), i);
    }
}

proof fn lemma_unknowns_pos(g: Seq<Seq<char>>, r: int, c: int)
    requires
        0 <= r < g.len(),
        0 <= c < g[r].len(),
        g[r][c] == UNKNOWN,
    ensures
        unknowns(g) >= 1,
    decreases g.len(),
{
    if r < g.len() - 1 {
        lemma_unknowns_pos(g.drop_last(), r, c);
    } else {
        lemma_unknowns_in_pos(g[r], c);
    }
}

/// A grid with an unknown cell counts at least one.
pub proof fn lemma_unknown_cell_counts(b: &Board, p: (int, int))
    requires
        b.dims_ok(),
        b.in_grid(p),
        b.cell(p) == UNKNOWN,
    ensures
        unknowns(b.grid()) >= 1,
{
    assert(b.grid()[p.0] == b.board@[p.0]@);
    lemma_unknowns_pos(b.grid(), p.0, p.1);
}

} // verus!
