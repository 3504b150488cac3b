//! The hidden phrase: its normalized letters and the cells chosen for them.
use vstd::prelude::*;
use crate::direction::{dc, dr, direction_at, Direction};
use crate::random::shuffle;
use crate::text::string_of;
use crate::word::step;
use crate::{PuzzleError, MIN_LEN};

verus! {

/// What std's `str::to_lowercase` gives for a string.
pub uninterp spec fn lower_of(s: Seq<char>) -> Seq<char>;

/// What std's `char::is_alphabetic` says of a character.
pub uninterp spec fn alphabetic(c: char) -> bool;

/// Relies on std's `str::to_lowercase`: the result is a function of the
/// characters alone.
#[verifier::external_body]
pub(crate) fn lowercase_chars(s: &str) -> (r: Vec<char>)
    ensures
        r@ == lower_of(s@),
{
    s.to_lowercase().chars().collect()
}

/// Relies on std's `char::is_alphabetic`: Unicode's Alphabetic property.
#[verifier::external_body]
fn is_alphabetic(c: char) -> (r: bool)
    ensures
        r == alphabetic(c),
{
    c.is_alphabetic()
}

/// The letters of a phrase: lowercased, with everything but letters dropped.
pub open spec fn normalize(s: Seq<char>) -> Seq<char> {
    lower_of(s).filter(|c: char| alphabetic(c))
}

/// Cell `q` (a row-major index) is among the chosen ones.
pub open spec fn taken(locs: Seq<(usize, char)>, q: int) -> bool {
    exists|j: int| 0 <= j < locs.len() && locs[j].0 == q
}

/// The `MIN_LEN - 1` cells after `(r, c)` along `d` are inside the grid and
/// not chosen.
pub open spec fn free_run(
    locs: Seq<(usize, char)>,
    rows: int,
    cols: int,
    r: int,
    c: int,
    d: Direction,
) -> bool {
    forall|k: int|
        #![trigger step(r, dr(d), k)]
        1 <= k < MIN_LEN ==> {
            &&& 0 <= step(r, dr(d), k) < rows
            &&& 0 <= step(c, dc(d), k) < cols
            &&& !taken(locs, step(r, dr(d), k) * cols + step(c, dc(d), k))
        }
}

/// Cell `p` has a free run in some compass direction.
pub open spec fn spaced(locs: Seq<(usize, char)>, rows: int, cols: int, p: int) -> bool {
    exists|d: Direction| d != Direction::Center && #[trigger] free_run(locs, rows, cols, p / cols, p % cols, d)
}

/// Every chosen cell is spaced.
pub open spec fn all_spaced(locs: Seq<(usize, char)>, rows: int, cols: int) -> bool {
    forall|j: int| 0 <= j < locs.len() ==> #[trigger] spaced(locs, rows, cols, locs[j].0 as int)
}

/// The first index of cluster `k`, when `n` cells are shared among `l` letters.
pub open spec fn cluster_lo(n: int, l: int, k: int) -> int {
    let size = n / l;
    let rem = n % l;
    if k + rem < l {
        k * size
    } else {
        k * size + (k + rem - l + 1) - 1
    }
}

/// One past the last index of cluster `k`.
pub open spec fn cluster_hi(n: int, l: int, k: int) -> int {
    let size = n / l;
    let rem = n % l;
    if k + rem < l {
        (k + 1) * size
    } else {
        (k + 1) * size + (k + rem - l + 1)
    }
}

/// The phrase and where its letters go.
pub struct Solution {
    pub rows: usize,
    pub cols: usize,
    /// The chosen cells, as (row-major index, letter), in the phrase's order.
    pub locations: Vec<(usize, char)>,
    /// The normalized phrase.
    pub processed: Vec<char>,
}

impl Solution {
    /// Sizes fit, the phrase fits, and the chosen cells spell a prefix of it
    /// inside the grid.
    pub open spec fn wf(&self) -> bool {
        &&& self.rows * self.cols <= usize::MAX
        &&& 0 < self.processed@.len() <= (self.rows * self.cols) / 2
        &&& self.locations@.len() <= self.processed@.len()
        &&& forall|j: int|
            0 <= j < self.locations@.len() ==> (#[trigger] self.locations@[j]).0 < self.rows
                * self.cols && self.locations@[j].1 == self.processed@[j]
        &&& forall|i: int, j: int|
            0 <= i < j < self.locations@.len() ==> (#[trigger] self.locations@[i]).0 != (
            #[trigger] self.locations@[j]).0
    }

    /// Cell `p` may take the next letter: it is not chosen yet, and with it
    /// chosen every chosen cell is spaced.
    pub open spec fn accepts(&self, p: int) -> bool {
        !taken(self.locations@, p) && all_spaced(
            self.locations@.push((p as usize, self.processed@[self.locations@.len() as int])),
            self.rows as int,
            self.cols as int,
        )
    }

    /// The letters of `lowered` that std deems alphabetic, in order.
    pub fn keep_letters(lowered: &Vec<char>) -> (r: Vec<char>)
        ensures
            r@ == lowered@.filter(|c: char| alphabetic(c)),
    {
        let mut r: Vec<char> = Vec::new();
        let mut i: usize = 0;
        while i < lowered.len()
            invariant
                i <= lowered@.len(),
                r@ == lowered@.subrange(0, i as int).filter(|c: char| alphabetic(c)),
            decreases lowered@.len() - i,
        {
            let c = lowered[i];
            proof {
                let s = lowered@.subrange(0, i + 1);
                assert(s.drop_last() =~= lowered@.subrange(0, i as int));
                assert(s.last() == c);
                reveal(Seq::filter);
            }
            if is_alphabetic(c) {
                r.push(c);
            }
            i = i + 1;
        }
        assert(lowered@.subrange(0, lowered@.len() as int) =~= lowered@);
        r
    }

    /// A phrase whose normalized letters are `processed`, on a `rows` x `cols`
    /// grid, with no cell chosen yet.
    pub fn from_processed(processed: Vec<char>, rows: usize, cols: usize) -> (r: Result<
        Solution,
        PuzzleError,
    >)
        requires
            rows * cols <= usize::MAX,
        ensures
            processed@.len() == 0 <==> r == Err::<Solution, PuzzleError>(PuzzleError::EmptySolution),
            (processed@.len() > 0 && processed@.len() > (rows * cols) / 2) <==> r == Err::<
                Solution,
                PuzzleError,
            >(PuzzleError::SolutionTooLong),
            r is Ok <==> (processed@.len() > 0 && processed@.len() <= (rows * cols) / 2),
            r matches Ok(s) ==> {
                &&& s.wf()
                &&& s.processed@ == processed@
                &&& s.rows == rows
                &&& s.cols == cols
                &&& s.locations@.len() == 0
            },
    {
        let max_length = (rows * cols) / 2;
        if processed.len() == 0 {
            return Err(PuzzleError::EmptySolution);
        }
        if processed.len() > max_length {
            return Err(PuzzleError::SolutionTooLong);
        }
        Ok(Solution { rows, cols, locations: Vec::new(), processed })
    }

    /// The phrase `input`, lowercased and reduced to its letters, on a
    /// `rows` x `cols` grid.
    pub fn new(input: &str, rows: usize, cols: usize) -> (r: Result<Solution, PuzzleError>)
        requires
            rows * cols <= usize::MAX,
        ensures
            normalize(input@).len() == 0 <==> r == Err::<Solution, PuzzleError>(
                PuzzleError::EmptySolution,
            ),
            (normalize(input@).len() > 0 && normalize(input@).len() > (rows * cols) / 2) <==> r
                == Err::<Solution, PuzzleError>(PuzzleError::SolutionTooLong),
            r is Ok <==> (normalize(input@).len() > 0 && normalize(input@).len() <= (rows * cols)
                / 2),
            r matches Ok(s) ==> {
                &&& s.wf()
                &&& s.processed@ == normalize(input@)
                &&& s.rows == rows
                &&& s.cols == cols
                &&& s.locations@.len() == 0
            },
    {
        let lowered = lowercase_chars(input);
        let processed = Solution::keep_letters(&lowered);
        Solution::from_processed(processed, rows, cols)
    }

    /// The normalized phrase.
    pub fn processed(&self) -> (r: String)
        ensures
            r@ == self.processed@,
    {
        string_of(&self.processed)
    }

    /// Whether cell `q` is among the chosen ones.
    fn is_taken(&self, q: usize) -> (r: bool)
        ensures
            r == taken(self.locations@, q as int),
    {
        let mut j: usize = 0;
        while j < self.locations.len()
            invariant
                j <= self.locations@.len(),
                forall|i: int| 0 <= i < j ==> self.locations@[i].0 != q,
            decreases self.locations@.len() - j,
        {
            if self.locations[j].0 == q {
                return true;
            }
            j = j + 1;
        }
        false
    }

    /// Whether the `MIN_LEN - 1` cells after `(row, col)` along `direction`
    /// are inside the grid and not chosen; never for the centre.
    fn is_valid_in_line(&self, direction: Direction, row: usize, col: usize) -> (r: bool)
        requires
            self.wf(),
            row < self.rows,
            col < self.cols,
        ensures
            r == (direction != Direction::Center && free_run(
                self.locations@,
                self.rows as int,
                self.cols as int,
                row as int,
                col as int,
                direction,
            )),
    {
        if direction == Direction::Center {
            return false;
        }
        let dr = direction.getRow();
        let dc = direction.getCol();
        let mut k: usize = 1;
        while k < MIN_LEN
            invariant
                self.wf(),
                row < self.rows,
                col < self.cols,
                dr == crate::direction::dr(direction),
                dc == crate::direction::dc(direction),
                1 <= k <= MIN_LEN,
                forall|i: int|
                    #![trigger step(row as int, dr as int, i)]
                    1 <= i < k ==> {
                        &&& 0 <= step(row as int, dr as int, i) < self.rows
                        &&& 0 <= step(col as int, dc as int, i) < self.cols
                        &&& !taken(
                            self.locations@,
                            step(row as int, dr as int, i) * self.cols + step(col as int, dc as int, i),
                        )
                    },
            decreases MIN_LEN - k,
        {
            let pr = crate::word::step_within(row, dr, k, self.rows);
            let pc = crate::word::step_within(col, dc, k, self.cols);
            match (pr, pc) {
                (Some(r), Some(c)) => {
                    assert(r * self.cols + c < self.rows * self.cols) by (nonlinear_arith)
                        requires
                            r < self.rows,
                            c < self.cols,
                    ;
                    if self.is_taken(r * self.cols + c) {
                        return false;
                    }
                },
                _ => {
                    return false;
                },
            }
            k = k + 1;
        }
        true
    }

    /// Whether `(row, col)` has a free run in some compass direction.
    fn is_valid_placement(&self, row: usize, col: usize) -> (r: bool)
        requires
            self.wf(),
            row < self.rows,
            col < self.cols,
        ensures
            r == exists|d: Direction|
                d != Direction::Center && #[trigger] free_run(
                    self.locations@,
                    self.rows as int,
                    self.cols as int,
                    row as int,
                    col as int,
                    d,
                ),
    {
        let all = Direction::DIRECTION_MATRIX();
        let mut i: usize = 0;
        while i < 9
            invariant
                self.wf(),
                row < self.rows,
                col < self.cols,
                i <= 9,
                forall|j: int| 0 <= j < 9 ==> #[trigger] all@[j] == direction_at(j),
                forall|j: int|
                    0 <= j < i ==> !(direction_at(j) != Direction::Center && #[trigger] free_run(
                        self.locations@,
                        self.rows as int,
                        self.cols as int,
                        row as int,
                        col as int,
                        direction_at(j),
                    )),
            decreases 9 - i,
        {
            if self.is_valid_in_line(all[i], row, col) {
                return true;
            }
            i = i + 1;
        }
        assert forall|d: Direction|
            d != Direction::Center implies !#[trigger] free_run(
            self.locations@,
            self.rows as int,
            self.cols as int,
            row as int,
            col as int,
            d,
        ) by {
            crate::direction::lemma_ordinal_round_trip(d);
            assert(direction_at(crate::direction::ordinal(d)) == d);
        }
        false
    }

    /// Whether every chosen cell is still spaced.
    fn revalidate_solution(&self) -> (r: bool)
        requires
            self.wf(),
            self.rows > 0,
            self.cols > 0,
        ensures
            r == all_spaced(self.locations@, self.rows as int, self.cols as int),
    {
        let mut j: usize = 0;
        while j < self.locations.len()
            invariant
                self.wf(),
                self.rows > 0,
                self.cols > 0,
                j <= self.locations@.len(),
                forall|i: int|
                    0 <= i < j ==> #[trigger] spaced(
                        self.locations@,
                        self.rows as int,
                        self.cols as int,
                        self.locations@[i].0 as int,
                    ),
            decreases self.locations@.len() - j,
        {
            let p = self.locations[j].0;
            proof {
                vstd::arithmetic::div_mod::lemma_fundamental_div_mod(p as int, self.cols as int);
                assert(p / self.cols < self.rows) by (nonlinear_arith)
                    requires
                        p < self.rows * self.cols,
                        self.cols > 0,
                        p == self.cols * (p / self.cols) + p % self.cols,
                        0 <= p % self.cols,
                ;
            }
            if !self.is_valid_placement(p / self.cols, p % self.cols) {
                assert(((p / self.cols) as int) == (p as int) / (self.cols as int));
                assert(((p % self.cols) as int) == (p as int) % (self.cols as int));
                assert(!spaced(self.locations@, self.rows as int, self.cols as int, p as int));
                assert(!spaced(
                    self.locations@,
                    self.rows as int,
                    self.cols as int,
                    self.locations@[j as int].0 as int,
                ));
                return false;
            }
            j = j + 1;
        }
        true
    }

    /// The next letter goes to the first cell of `order` that keeps every
    /// chosen cell spaced; nothing changes if there is none.
    pub fn place_in_order(&mut self, order: &Vec<usize>) -> (r: bool)
        requires
            old(self).wf(),
            old(self).locations@.len() < old(self).processed@.len(),
            forall|j: int| 0 <= j < order@.len() ==> order@[j] < old(self).rows * old(self).cols,
        ensures
            final(self).wf(),
            final(self).rows == old(self).rows,
            final(self).cols == old(self).cols,
            final(self).processed@ == old(self).processed@,
            r == exists|j: int|
                0 <= j < order@.len() && #[trigger] old(self).accepts(order@[j] as int),
            r ==> exists|j: int|
                0 <= j < order@.len() && #[trigger] old(self).accepts(order@[j] as int) && (forall|
                    i: int,
                | 0 <= i < j ==> !old(self).accepts(order@[i] as int)) && final(self).locations@
                    == old(self).locations@.push(
                    (order@[j], old(self).processed@[old(self).locations@.len() as int]),
                ),
            !r ==> final(self).locations@ == old(self).locations@,
    {
        let ch = self.processed[self.locations.len()];
        let mut i: usize = 0;
        while i < order.len()
            invariant
                self.wf(),
                self.rows == old(self).rows,
                self.cols == old(self).cols,
                self.processed@ == old(self).processed@,
                self.locations@ == old(self).locations@,
                ch == old(self).processed@[old(self).locations@.len() as int],
                old(self).locations@.len() < old(self).processed@.len(),
                forall|j: int| 0 <= j < order@.len() ==> order@[j] < old(self).rows * old(self).cols,
                i <= order@.len(),
                forall|j: int| 0 <= j < i ==> !#[trigger] old(self).accepts(order@[j] as int),
            decreases order@.len() - i,
        {
            let p = order[i];
            proof {
                vstd::arithmetic::div_mod::lemma_fundamental_div_mod(p as int, self.cols as int);
                assert(p / self.cols < self.rows) by (nonlinear_arith)
                    requires
                        p < self.rows * self.cols,
                        self.cols > 0,
                        p == self.cols * (p / self.cols) + p % self.cols,
                        0 <= p % self.cols,
                ;
            }
            let ghost pushed = self.locations@.push((p, ch));
            if !self.is_taken(p) && self.is_valid_placement(p / self.cols, p % self.cols) {
                self.locations.push((p, ch));
                proof {
                    assert forall|a: int, b: int|
                        0 <= a < b < self.locations@.len() implies (#[trigger] self.locations@[a]).0
                            != (#[trigger] self.locations@[b]).0 by {
                        if b == old(self).locations@.len() {
                            if self.locations@[a].0 == p {
                                assert(old(self).locations@[a] == self.locations@[a]);
                            }
                        } else {
                            assert(old(self).locations@[a] == self.locations@[a]);
                            assert(old(self).locations@[b] == self.locations@[b]);
                        }
                    }
                }
                if !self.revalidate_solution() {
                    self.locations.pop();
                    assert(self.locations@ =~= old(self).locations@);
                } else {
                    assert(old(self).accepts(p as int));
                    return true;
                }
            } else {
                proof {
                    if old(self).accepts(p as int) && !taken(old(self).locations@, p as int) {
                        let n = old(self).locations@.len() as int;
                        assert(pushed[n].0 == p);
                        assert(spaced(pushed, self.rows as int, self.cols as int, p as int));
                        let d = choose|d: Direction|
                            d != Direction::Center && #[trigger] free_run(
                                pushed,
                                self.rows as int,
                                self.cols as int,
                                (p as int) / (self.cols as int),
                                (p as int) % (self.cols as int),
                                d,
                            );
                        lemma_free_run_fewer(
                            old(self).locations@,
                            (p, ch),
                            self.rows as int,
                            self.cols as int,
                            (p as int) / (self.cols as int),
                            (p as int) % (self.cols as int),
                            d,
                        );
                    }
                }
            }
            i = i + 1;
        }
        false
    }

    /// The next letter goes to some cell of `cluster`: the cells are tried in
    /// random order, as `place_in_order` does.
    pub fn place_in_cluster(&mut self, cluster: Vec<usize>) -> (r: bool)
        requires
            old(self).wf(),
            old(self).locations@.len() < old(self).processed@.len(),
            forall|j: int|
                0 <= j < cluster@.len() ==> cluster@[j] < old(self).rows * old(self).cols,
        ensures
            final(self).wf(),
            final(self).rows == old(self).rows,
            final(self).cols == old(self).cols,
            final(self).processed@ == old(self).processed@,
            r ==> exists|p: usize|
                cluster@.contains(p) && #[trigger] old(self).accepts(p as int)
                    && final(self).locations@ == old(self).locations@.push(
                    (p, old(self).processed@[old(self).locations@.len() as int]),
                ),
            !r ==> final(self).locations@ == old(self).locations@,
            !r ==> forall|p: usize| #[trigger] cluster@.contains(p) ==> !old(self).accepts(p as int),
    {
        let mut order = cluster;
        let ghost before = order@;
        shuffle(&mut order);
        proof {
            before.to_multiset_ensures();
            order@.to_multiset_ensures();
            assert forall|x: usize| order@.contains(x) <==> before.contains(x) by {
                assert(before.to_multiset().count(x) == order@.to_multiset().count(x));
            }
            assert forall|j: int| 0 <= j < order@.len() implies order@[j] < self.rows * self.cols by {
                assert(order@.contains(order@[j]));
                assert(before.contains(order@[j]));
                let k = choose|k: int| 0 <= k < before.len() && before[k] == order@[j];
                assert(cluster@[k] < self.rows * self.cols);
            }
        }
        let r = self.place_in_order(&order);
        proof {
            if r {
                let j = choose|j: int|
                    0 <= j < order@.len() && #[trigger] old(self).accepts(order@[j] as int) && (
                    forall|i: int| 0 <= i < j ==> !old(self).accepts(order@[i] as int))
                        && self.locations@ == old(self).locations@.push(
                        (order@[j], old(self).processed@[old(self).locations@.len() as int]),
                    );
                assert(order@.contains(order@[j]));
            } else {
                assert forall|p: usize| #[trigger] before.contains(p) implies !old(self).accepts(
                    p as int,
                ) by {
                    assert(order@.contains(p));
                    let j = choose|j: int| 0 <= j < order@.len() && order@[j] == p;
                    assert(!old(self).accepts(order@[j] as int));
                }
            }
        }
        r
    }

    /// Splits the row-major cells into one run per letter (the last
    /// `N mod L` runs one longer) and places each letter in its own run.
    /// On success every letter has a cell and every chosen cell is spaced.
    pub fn calculate_constraints(&mut self) -> (r: bool)
        requires
            old(self).wf(),
            old(self).locations@.len() == 0,
        ensures
            final(self).wf(),
            final(self).rows == old(self).rows,
            final(self).cols == old(self).cols,
            final(self).processed@ == old(self).processed@,
            r ==> final(self).locations@.len() == final(self).processed@.len(),
            r ==> all_spaced(final(self).locations@, final(self).rows as int, final(self).cols as int),
            r ==> forall|k: int|
                0 <= k < final(self).locations@.len() ==> cluster_lo(
                    final(self).rows * final(self).cols,
                    final(self).processed@.len() as int,
                    k,
                ) <= (#[trigger] final(self).locations@[k]).0 && final(self).locations@[k].0
                    < cluster_hi(
                    final(self).rows * final(self).cols,
                    final(self).processed@.len() as int,
                    k,
                ),
            !r ==> final(self).locations@.len() < final(self).processed@.len(),
            !r ==> all_spaced(final(self).locations@, final(self).rows as int, final(self).cols as int),
            !r ==> forall|k: int|
                0 <= k < final(self).locations@.len() ==> cluster_lo(
                    final(self).rows * final(self).cols,
                    final(self).processed@.len() as int,
                    k,
                ) <= (#[trigger] final(self).locations@[k]).0 && final(self).locations@[k].0
                    < cluster_hi(
                    final(self).rows * final(self).cols,
                    final(self).processed@.len() as int,
                    k,
                ),
            !r ==> forall|p: int|
                cluster_lo(
                    final(self).rows * final(self).cols,
                    final(self).processed@.len() as int,
                    final(self).locations@.len() as int,
                ) <= p < cluster_hi(
                    final(self).rows * final(self).cols,
                    final(self).processed@.len() as int,
                    final(self).locations@.len() as int,
                ) ==> !#[trigger] final(self).accepts(p),
            r ==> forall|i: int, j: int|
                0 <= i < j < final(self).locations@.len()
                    ==> (#[trigger] final(self).locations@[i]).0
                    < (#[trigger] final(self).locations@[j]).0,
    {
        let n = self.rows * self.cols;
        let l = self.processed.len();
        let size = n / l;
        let rem = n % l;
        let mut k: usize = 0;
        while k < l
            invariant
                self.wf(),
                self.rows == old(self).rows,
                self.cols == old(self).cols,
                self.processed@ == old(self).processed@,
                n == self.rows * self.cols,
                l == self.processed@.len(),
                l > 0,
                size == n / l,
                rem == n % l,
                k <= l,
                self.locations@.len() == k,
                all_spaced(self.locations@, self.rows as int, self.cols as int),
                forall|j: int|
                    0 <= j < k ==> cluster_lo(n as int, l as int, j) <= (
                    #[trigger] self.locations@[j]).0 && self.locations@[j].0 < cluster_hi(
                        n as int,
                        l as int,
                        j,
                    ),
            decreases l - k,
        {
            proof {
                lemma_cluster_bounds(n as int, l as int, k as int);
            }
            let (lo, hi) = if k + rem < l {
                (k * size, (k + 1) * size)
            } else {
                let shift = k + rem + 1 - l;
                (k * size + shift - 1, (k + 1) * size + shift)
            };
            let mut cluster: Vec<usize> = Vec::new();
            let mut q = lo;
            while q < hi
                invariant
                    lo <= q <= hi,
                    hi <= n,
                    cluster@.len() == q - lo,
                    forall|i: int| 0 <= i < cluster@.len() ==> #[trigger] cluster@[i] == lo + i,
                decreases hi - q,
            {
                cluster.push(q);
                q = q + 1;
            }
            let ghost prev = self.locations@;
            let ghost before = *self;
            let ghost cells = cluster@;
            if !self.place_in_cluster(cluster) {
                proof {
                    assert(self.locations@ == prev);
                    assert forall|p: int|
                        cluster_lo(n as int, l as int, k as int) <= p < cluster_hi(
                            n as int,
                            l as int,
                            k as int,
                        ) implies !#[trigger] self.accepts(p) by {
                        assert(cells[p - lo] == p);
                        assert(cells.contains(p as usize));
                        assert(!before.accepts(p as usize as int));
                    }
                }
                return false;
            }
            proof {
                let p = choose|p: usize|
                    cells.contains(p) && #[trigger] before.accepts(p as int) && self.locations@
                        == prev.push((p, before.processed@[prev.len() as int]));
                assert(self.locations@[k as int].0 == p);
                let i = choose|i: int| 0 <= i < cells.len() && cells[i] == p;
                assert(cells[i] == lo + i);
                assert(forall|j: int| 0 <= j < k ==> self.locations@[j] == prev[j]);
            }
            k = k + 1;
        }
        proof {
            assert forall|i: int, j: int|
                0 <= i < j < self.locations@.len() implies (#[trigger] self.locations@[i]).0 < (
            #[trigger] self.locations@[j]).0 by {
                lemma_cluster_order(n as int, l as int, i, j);
            }
        }
        true
    }
}

/// A run free of the cells in `locs` plus one more is free of those in `locs`.
proof fn lemma_free_run_fewer(
    locs: Seq<(usize, char)>,
    x: (usize, char),
    rows: int,
    cols: int,
    r: int,
    c: int,
    d: Direction,
)
    requires
        free_run(locs.push(x), rows, cols, r, c, d),
    ensures
        free_run(locs, rows, cols, r, c, d),
{
    assert forall|k: int| #![trigger step(r, dr(d), k)] 1 <= k < MIN_LEN implies {
        &&& 0 <= step(r, dr(d), k) < rows
        &&& 0 <= step(c, dc(d), k) < cols
        &&& !taken(locs, step(r, dr(d), k) * cols + step(c, dc(d), k))
    } by {
        let q = step(r, dr(d), k) * cols + step(c, dc(d), k);
        if taken(locs, q) {
            let j = choose|j: int| 0 <= j < locs.len() && locs[j].0 == q;
            assert(locs.push(x)[j] == locs[j]);
        }
    }
}

/// Each run lies inside the grid, and its bounds fit in the products that
/// compute them.
proof fn lemma_cluster_bounds(n: int, l: int, k: int)
    requires
        0 < l,
        0 <= k < l,
        0 <= n,
    ensures
        0 <= k * (n / l) <= (k + 1) * (n / l) <= n,
        0 <= cluster_lo(n, l, k) <= cluster_hi(n, l, k) <= n,
{
    let size = n / l;
    let rem = n % l;
    vstd::arithmetic::div_mod::lemma_fundamental_div_mod(n, l);
    assert(0 <= k * size <= (k + 1) * size <= l * size) by (nonlinear_arith)
        requires
            0 <= k < l,
            size >= 0,
    ;
    if k + rem >= l {
        assert((k + 1) * size + (k + rem - l + 1) <= n) by (nonlinear_arith)
            requires
                k + 1 <= l,
                n == l * size + rem,
                size >= 0,
                (k + 1) * size <= l * size,
        ;
    }
}

/// Runs come in index order: each ends where a later one may start at the
/// earliest.
proof fn lemma_cluster_order(n: int, l: int, i: int, j: int)
    requires
        0 < l,
        0 <= i < j < l,
        0 <= n,
    ensures
        cluster_hi(n, l, i) <= cluster_lo(n, l, j),
{
    let size = n / l;
    let rem = n % l;
    vstd::arithmetic::div_mod::lemma_fundamental_div_mod(n, l);
    assert((i + 1) * size <= j * size) by (nonlinear_arith)
        requires
            i + 1 <= j,
            size >= 0,
    ;
}

/// With nothing chosen yet, a single letter fits in the first cell of a
/// grid at least three cells wide: its run goes east.
pub proof fn lemma_single_letter_fits(s: Solution)
    requires
        s.wf(),
        s.locations@.len() == 0,
        s.processed@.len() == 1,
        s.cols >= 3,
        s.rows >= 1,
    ensures
        s.accepts(0),
{
    let pushed = s.locations@.push((0usize, s.processed@[0]));
    vstd::arithmetic::div_mod::lemma_fundamental_div_mod_converse(0, s.cols as int, 0, 0);
    assert forall|k: int| #![trigger step(0, dr(Direction::East), k)] 1 <= k < MIN_LEN implies {
        &&& 0 <= step(0, dr(Direction::East), k) < s.rows
        &&& 0 <= step(0, dc(Direction::East), k) < s.cols
        &&& !taken(pushed, step(0, dr(Direction::East), k) * s.cols + step(0, dc(Direction::East), k))
    } by {
        assert(step(0, dr(Direction::East), k) * s.cols == 0);
        if taken(pushed, k) {
            let j = choose|j: int| 0 <= j < pushed.len() && pushed[j].0 == k;
            assert(j == 0);
        }
    }
    assert(free_run(pushed, s.rows as int, s.cols as int, 0, 0, Direction::East));
    assert(spaced(pushed, s.rows as int, s.cols as int, pushed[0].0 as int));
    assert(!taken(s.locations@, 0));
}

} // verus!
