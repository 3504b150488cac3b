//! A solving session: builds the dictionary, grid and phrase layout, then
//! fills the grid by backtracking over lowest-entropy candidates.
use vstd::prelude::*;
use vstd::hash_map::StringHashMap;
use crate::board::{is_letter, unknowns, Board, SOLUTION_MARK, UNKNOWN};
use crate::direction::{direction_at, Direction};
use crate::solution::{all_spaced, normalize, taken, Solution};
use crate::trie::{search_result, views, Trie};
use crate::wfc::{cache_ok, contains_text, is_candidate, keys_of, min_entropy, pooled, WFC};
use crate::word::{step_exec, step_within, Word};
use crate::{PuzzleError, MIN_DIM, MIN_LEN};

verus! {

/// Where a session stands.
#[allow(non_camel_case_types)]
#[derive(Clone, Copy, Debug, PartialEq, Eq, Structural)]
pub enum LoopState {
    INITIALIZED,
    PLAYING,
    FINISHED,
    FAILED,
}

/// The texts of a list of placements.
pub open spec fn texts(h: Seq<Word>) -> Seq<Seq<char>> {
    h.map_values(|w: Word| w.word@)
}

/// Each character of `w` stands in its cell of `b`.
pub open spec fn spells(b: Board, w: Word) -> bool {
    forall|i: int|
        #![trigger w.cell(i)]
        0 <= i < w.word@.len() ==> b.in_grid(w.cell(i)) && b.cell(w.cell(i)) == w.word@[i]
}

/// Every placed word is admissible on `b` and spelled there, and no text is
/// placed twice.
pub open spec fn history_ok(b: Board, h: Seq<Word>) -> bool {
    &&& forall|k: int| 0 <= k < h.len() ==> b.admissible(&#[trigger] h[k]) && spells(b, h[k])
    &&& texts(h).no_duplicates()
}

/// Every letter of `b` lies on a placed word.
pub open spec fn covered(b: Board, h: Seq<Word>) -> bool {
    forall|p: (int, int)|
        #![trigger b.cell(p)]
        b.in_grid(p) && is_letter(b.cell(p)) ==> exists|k: int, i: int|
            0 <= k < h.len() && 0 <= i < h[k].word@.len() && #[trigger] h[k].cell(i) == p
}

/// The solution cells of `b` are exactly the chosen cells of `s`.
pub open spec fn marks_ok(b: Board, s: Solution) -> bool {
    forall|p: (int, int)|
        #![trigger b.cell(p)]
        b.in_grid(p) ==> (b.cell(p) == SOLUTION_MARK <==> taken(s.locations@, p.0 * b.cols + p.1))
}

/// The queries of cell `(r, c)`, in ordinal order.
pub open spec fn seqs_at(b: Board, r: int, c: int) -> Seq<Seq<char>> {
    Seq::new(9, |i: int| b.query(r, c, direction_at(i)))
}

/// `w` is a candidate of its own cell on `b`, given the words in `used`.
pub open spec fn fresh_candidate(
    b: Board,
    dict: Set<Seq<char>>,
    used: Seq<Seq<char>>,
    w: Word,
) -> bool {
    &&& b.in_grid((w.coords.0 as int, w.coords.1 as int))
    &&& is_candidate(
        dict,
        seqs_at(b, w.coords.0 as int, w.coords.1 as int),
        used,
        w.coords.0 as int,
        w.coords.1 as int,
        w,
    )
}

/// `ws` lists every candidate of cell `(r, c)` on `b` once, keyed by text
/// and direction, and nothing else.
pub open spec fn lists_candidates(
    b: Board,
    dict: Set<Seq<char>>,
    used: Seq<Seq<char>>,
    r: int,
    c: int,
    ws: Seq<Word>,
) -> bool {
    &&& keys_of(ws).no_duplicates()
    &&& forall|k: int|
        0 <= k < ws.len() ==> (#[trigger] ws[k]).coords.0 == r && ws[k].coords.1 == c
            && fresh_candidate(b, dict, used, ws[k])
    &&& forall|d: Direction, x: Seq<char>|
        seqs_at(b, r, c)[crate::direction::ordinal(d)].len() >= MIN_LEN && search_result(
            dict,
            seqs_at(b, r, c)[crate::direction::ordinal(d)],
        ).contains(x) && !used.contains(x) ==> #[trigger] keys_of(ws).contains((x, d))
}

/// A slot that held a list keeps it; an empty one now lists the
/// candidates of its cell.
pub open spec fn slot_filled(
    b: Board,
    dict: Set<Seq<char>>,
    used: Seq<Seq<char>>,
    p: (int, int),
    before: Option<Vec<Word>>,
    after: Option<Vec<Word>>,
) -> bool {
    match before {
        Some(_) => after == before,
        None => after is Some && lists_candidates(b, dict, used, p.0, p.1, after->0@),
    }
}

/// Row-major indices of distinct cells differ.
proof fn lemma_index_injective(cols: int, p: (int, int), q: (int, int))
    requires
        0 <= p.1 < cols,
        0 <= q.1 < cols,
        p.0 * cols + p.1 == q.0 * cols + q.1,
    ensures
        p == q,
{
    let x = p.0 * cols + p.1;
    vstd::arithmetic::div_mod::lemma_fundamental_div_mod_converse(x, cols, p.0, p.1);
    vstd::arithmetic::div_mod::lemma_fundamental_div_mod_converse(x, cols, q.0, q.1);
}

/// Some cell of `w` is unknown on `b`.
pub open spec fn covers_unknown(b: Board, w: Word) -> bool {
    exists|k: int|
        0 <= k < w.word@.len() && b.in_grid(#[trigger] w.cell(k)) && b.cell(w.cell(k)) == UNKNOWN
}

/// The set of dictionary words a list yields: those of `MIN_LEN` or more
/// characters.
pub open spec fn dictionary_words(ds: Seq<String>) -> Set<Seq<char>> {
    Set::new(|w: Seq<char>| w.len() >= MIN_LEN && exists|i: int| 0 <= i < ds.len() && ds[i]@ == w)
}

/// A candidate's query holds an unknown cell, and the candidate covers it.
pub proof fn lemma_candidate_covers_unknown(
    b: Board,
    dict: Set<Seq<char>>,
    used: Seq<Seq<char>>,
    w: Word,
)
    requires
        b.dims_ok(),
        fresh_candidate(b, dict, used, w),
    ensures
        covers_unknown(b, w),
        w.direction != Direction::Center,
{
    let r = w.coords.0 as int;
    let c = w.coords.1 as int;
    let d = w.direction;
    crate::direction::lemma_ordinal_round_trip(d);
    let q = seqs_at(b, r, c)[crate::direction::ordinal(d)];
    assert(q == b.query(r, c, d));
    assert(q.len() >= MIN_LEN);
    assert(search_result(dict, q).contains(w.word@));
    assert(crate::trie::matches(w.word@, q));
    assert(b.ray(r, c, d).contains(UNKNOWN));
    let k = choose|k: int| 0 <= k < b.ray(r, c, d).len() && b.ray(r, c, d)[k] == UNKNOWN;
    assert(d != Direction::Center);
    crate::board::lemma_ray_cell(&b, r, c, d, 0, k);
    assert(w.cell(k) == Board::ray_cell(r, c, d, 0 + k));
}

/// Same shape, epoch counter, characters and epochs.
pub open spec fn same_planes(b1: Board, b2: Board) -> bool {
    &&& b1.rows == b2.rows
    &&& b1.cols == b2.cols
    &&& b1.tracker == b2.tracker
    &&& forall|p: (int, int)|
        #![trigger b1.cell(p)]
        #![trigger b1.epoch_of(p)]
        b1.in_grid(p) ==> b1.cell(p) == b2.cell(p) && b1.epoch_of(p) == b2.epoch_of(p)
}

/// Boards with the same planes agree on everything the session's invariant
/// says of a board.
proof fn lemma_same_planes(b1: Board, b2: Board, h: Seq<Word>, s: Solution)
    requires
        b1.dims_ok(),
        b2.dims_ok(),
        same_planes(b1, b2),
    ensures
        b1.wf() == b2.wf(),
        b1.grid() == b2.grid(),
        history_ok(b1, h) == history_ok(b2, h),
        marks_ok(b1, s) == marks_ok(b2, s),
        b1.complete() == b2.complete(),
        covered(b1, h) == covered(b2, h),
{
    if covered(b2, h) {
        assert forall|p: (int, int)| #![trigger b1.cell(p)] b1.in_grid(p) && is_letter(b1.cell(p))
            implies exists|k: int, i: int|
            0 <= k < h.len() && 0 <= i < h[k].word@.len() && #[trigger] h[k].cell(i) == p by {
            assert(b2.in_grid(p));
            assert(b2.cell(p) == b1.cell(p));
        }
    }
    if covered(b1, h) {
        assert forall|p: (int, int)| #![trigger b2.cell(p)] b2.in_grid(p) && is_letter(b2.cell(p))
            implies exists|k: int, i: int|
            0 <= k < h.len() && 0 <= i < h[k].word@.len() && #[trigger] h[k].cell(i) == p by {
            assert(b1.in_grid(p));
            assert(b2.cell(p) == b1.cell(p));
        }
    }
    assert forall|p: (int, int)| #[trigger] b1.in_grid(p) implies b1.cell(p) == b2.cell(p) by {}
    crate::board::lemma_same_cells_same_grid(&b1, &b2);
    if b2.wf() {
        assert forall|p: (int, int)| #![trigger b1.epoch_of(p)] #![trigger b1.cell(p)]
            b1.in_grid(p) implies match b1.epoch_of(p) {
            Some(k) => k < b1.tracker && is_letter(b1.cell(p)),
            None => !is_letter(b1.cell(p)),
        } by {
            assert(b2.in_grid(p));
        }
    }
    if b1.wf() {
        assert forall|p: (int, int)| #![trigger b2.epoch_of(p)] #![trigger b2.cell(p)]
            b2.in_grid(p) implies match b2.epoch_of(p) {
            Some(k) => k < b2.tracker && is_letter(b2.cell(p)),
            None => !is_letter(b2.cell(p)),
        } by {
            assert(b1.in_grid(p));
            assert(b1.cell(p) == b2.cell(p));
        }
    }
    if history_ok(b2, h) {
        assert forall|k: int| 0 <= k < h.len() implies b1.admissible(&#[trigger] h[k]) && spells(
            b1,
            h[k],
        ) by {
            assert(b2.admissible(&h[k]) && spells(b2, h[k]));
            assert forall|i: int| #![trigger h[k].word@[i]] 0 <= i < h[k].word@.len() implies b1.cell(
                h[k].cell(i),
            ) == b2.cell(h[k].cell(i)) by {
                assert(b1.in_grid(h[k].cell(i)));
            }
            assert forall|i: int| #![trigger h[k].cell(i)] 0 <= i < h[k].word@.len() implies b1.in_grid(h[k].cell(i)) && b1.cell(
                h[k].cell(i),
            ) == h[k].word@[i] by {
                assert(b2.in_grid(h[k].cell(i)));
            }
        }
    }
    if history_ok(b1, h) {
        assert forall|k: int| 0 <= k < h.len() implies b2.admissible(&#[trigger] h[k]) && spells(
            b2,
            h[k],
        ) by {
            assert(b1.admissible(&h[k]) && spells(b1, h[k]));
            assert forall|i: int| #![trigger h[k].word@[i]] 0 <= i < h[k].word@.len() implies b1.cell(
                h[k].cell(i),
            ) == b2.cell(h[k].cell(i)) by {
                assert(b1.in_grid(h[k].cell(i)));
            }
            assert forall|i: int| #![trigger h[k].cell(i)] 0 <= i < h[k].word@.len() implies b2.in_grid(h[k].cell(i)) && b2.cell(
                h[k].cell(i),
            ) == h[k].word@[i] by {
                assert(b1.in_grid(h[k].cell(i)));
            }
        }
    }
    if marks_ok(b2, s) {
        assert forall|p: (int, int)| #![trigger b1.cell(p)] b1.in_grid(p) implies (b1.cell(p)
            == SOLUTION_MARK <==> taken(s.locations@, p.0 * b1.cols + p.1)) by {
            assert(b2.in_grid(p));
        }
    }
    if marks_ok(b1, s) {
        assert forall|p: (int, int)| #![trigger b2.cell(p)] b2.in_grid(p) implies (b2.cell(p)
            == SOLUTION_MARK <==> taken(s.locations@, p.0 * b2.cols + p.1)) by {
            assert(b1.in_grid(p));
            assert(b1.cell(p) == b2.cell(p));
        }
    }
    if b2.complete() {
        assert forall|p: (int, int)| #![trigger b1.cell(p)] b1.in_grid(p) implies b1.cell(p) != UNKNOWN by {
            assert(b2.in_grid(p));
        }
    }
    if b1.complete() {
        assert forall|p: (int, int)| #![trigger b2.cell(p)] b2.in_grid(p) implies b2.cell(p) != UNKNOWN by {
            assert(b1.in_grid(p));
            assert(b1.cell(p) == b2.cell(p));
        }
    }
}

/// Writing an admissible, unused word keeps every earlier word spelled and
/// admissible, adds the new one, and keeps the solution cells.
proof fn lemma_place_keeps(before: Board, after: Board, w: Word, h: Seq<Word>, s: Solution)
    requires
        before.wf(),
        after.dims_ok(),
        before.admissible(&w),
        after.placed(&before, &w),
        forall|p: (int, int)|
            #![trigger after.cell(p)]
            after.in_grid(p) && before.cell(p) != UNKNOWN ==> after.cell(p) == before.cell(p),
        history_ok(before, h),
        marks_ok(before, s),
        !texts(h).contains(w.word@),
        covered(before, h),
    ensures
        history_ok(after, h.push(w)),
        marks_ok(after, s),
        covered(after, h.push(w)),
{
    assert forall|p: (int, int)| #![trigger after.cell(p)] after.in_grid(p) && is_letter(after.cell(p))
        implies exists|k: int, i: int|
        0 <= k < h.push(w).len() && 0 <= i < h.push(w)[k].word@.len() && #[trigger] h.push(w)[k].cell(
            i,
        ) == p by {
        assert(before.in_grid(p));
        if !Board::off_word(&w, p) {
            let i = choose|i: int| 0 <= i < w.word@.len() && w.cell(i) == p;
            assert(h.push(w)[h.len() as int] == w);
            assert(h.push(w)[h.len() as int].cell(i) == p);
        } else {
            assert(after.cell(p) == before.cell(p));
            let (k, i) = choose|k: int, i: int|
                0 <= k < h.len() && 0 <= i < h[k].word@.len() && #[trigger] h[k].cell(i) == p;
            assert(h.push(w)[k] == h[k]);
            assert(h.push(w)[k].cell(i) == p);
        }
    }
    let h2 = h.push(w);
    assert forall|k: int| 0 <= k < h2.len() implies after.admissible(&#[trigger] h2[k]) && spells(
        after,
        h2[k],
    ) by {
        if k < h.len() {
            assert(h2[k] == h[k]);
            assert(before.admissible(&h[k]) && spells(before, h[k]));
            assert forall|i: int| #![trigger h[k].cell(i)] 0 <= i < h[k].word@.len() implies after.in_grid(h[k].cell(i))
                && after.cell(h[k].cell(i)) == h[k].word@[i] by {
                assert(is_letter(h[k].word@[i]));
            }
            assert forall|i: int| #![trigger h[k].word@[i]] 0 <= i < h[k].word@.len() implies after.cell(h[k].cell(i))
                == h[k].word@[i] by {
                assert(before.in_grid(h[k].cell(i)));
            }
        } else {
            assert(h2[k] == w);
            assert forall|i: int| #![trigger w.word@[i]] 0 <= i < w.word@.len() implies after.cell(w.cell(i))
                == w.word@[i] by {
                assert(after.cell(w.cell(i)) == w.word@[i]);
            }
        }
    }
    assert(texts(h2) =~= texts(h).push(w.word@));
    assert forall|p: (int, int)| #![trigger after.cell(p)] after.in_grid(p) implies (after.cell(p)
        == SOLUTION_MARK <==> taken(s.locations@, p.0 * after.cols + p.1)) by {
        assert(before.in_grid(p));
        if !Board::off_word(&w, p) {
            let i = choose|i: int| 0 <= i < w.word@.len() && w.cell(i) == p;
            assert(after.cell(w.cell(i)) == w.word@[i]);
            assert(is_letter(w.word@[i]));
        }
    }
}

/// Removal from either of two boards with the same planes has the same effect.
proof fn lemma_unplaced_transfer(fin: Board, mid: Board, post: Board, w: Word)
    requires
        same_planes(mid, post),
        forall|i: int| 0 <= i < w.word@.len() ==> mid.in_grid(#[trigger] w.cell(i)),
        fin.unplaced(&mid, &w),
    ensures
        fin.unplaced(&post, &w),
{
    assert forall|i: int| #![trigger w.cell(i)] 0 <= i < w.word@.len() implies post.epoch_of(w.cell(i))
        == mid.epoch_of(w.cell(i)) && post.cell(w.cell(i)) == mid.cell(w.cell(i)) by {
        assert(mid.in_grid(w.cell(i)));
    }
    assert forall|p: (int, int)|
        #![trigger fin.cell(p)]
        #![trigger fin.epoch_of(p)]
        fin.in_grid(p) && Board::off_word(&w, p) implies fin.cell(p) == post.cell(p)
            && fin.epoch_of(p) == post.epoch_of(p) by {
        assert(mid.in_grid(p));
    }
}

/// The cells from the `i`-th cell of `w` along `d` up to the `k`-th one all
/// lie inside the grid off solution cells, with `k` under the longer side.
pub open spec fn open_run(b: Board, w: Word, i: int, d: Direction, k: int) -> bool {
    &&& 0 <= k < b.limit()
    &&& forall|j: int|
        #![trigger Board::ray_cell(w.cell(i).0, w.cell(i).1, d, j)]
        0 <= j <= k ==> b.in_grid(Board::ray_cell(w.cell(i).0, w.cell(i).1, d, j)) && b.cell(
            Board::ray_cell(w.cell(i).0, w.cell(i).1, d, j),
        ) != SOLUTION_MARK
}

/// Cell `p` lies on a ray from a cell of `w`, in any direction, before the
/// grid's edge or the first solution cell.
pub open spec fn swept(b: Board, w: Word, p: (int, int)) -> bool {
    exists|i: int, d: Direction, k: int|
        0 <= i < w.word@.len() && open_run(b, w, i, d, k) && #[trigger] Board::ray_cell(
            w.cell(i).0,
            w.cell(i).1,
            d,
            k,
        ) == p
}

/// The row-major index of a cell inside the grid is a valid index.
proof fn lemma_index_in_grid(rows: int, cols: int, p: (int, int))
    requires
        0 <= p.0 < rows,
        0 <= p.1 < cols,
    ensures
        0 <= p.0 * cols + p.1 < rows * cols,
{
    assert(0 <= p.0 * cols + p.1 < rows * cols) by (nonlinear_arith)
        requires
            0 <= p.0 < rows,
            0 <= p.1 < cols,
    ;
}

/// One solving session.
pub struct Controller {
    pub rows: usize,
    pub cols: usize,
    pub board: Board,
    pub solution: Solution,
    pub dictionary: Trie,
    /// The placed words, oldest first.
    pub history: Vec<Word>,
    /// Candidates per cell, by row-major index; `None` once invalidated.
    pub states: Vec<Option<Vec<Word>>>,
    /// Dictionary lookups by pattern.
    pub sequence_cache: StringHashMap<Vec<String>>,
    pub state: LoopState,
}

impl Controller {
    /// The parts agree on the grid's shape; the board's letters are exactly
    /// what the placed words spell; the solution cells are the chosen ones.
    pub open spec fn wf(&self) -> bool {
        &&& self.board.wf()
        &&& self.rows == self.board.rows
        &&& self.cols == self.board.cols
        &&& self.solution.rows == self.rows
        &&& self.solution.cols == self.cols
        &&& self.solution.wf()
        &&& self.dictionary.wf()
        &&& cache_ok(self.dictionary@, self.sequence_cache@)
        &&& self.states@.len() == self.rows * self.cols
        &&& history_ok(self.board, self.history@)
        &&& covered(self.board, self.history@)
        &&& forall|k: int|
            0 <= k < self.history@.len() ==> self.dictionary@.contains(
                (#[trigger] self.history@[k]).word@,
            )
        &&& marks_ok(self.board, self.solution)
        &&& self.board.tracker == self.history@.len()
        &&& self.board.tracker + unknowns(self.board.grid()) <= self.rows * self.cols
    }

    /// Every cached candidate list is up to date for the board and history.
    pub open spec fn states_fresh(&self) -> bool {
        forall|i: int, k: int|
            0 <= i < self.states@.len() && self.states@[i] is Some && 0 <= k
                < self.states@[i]->0@.len() ==> fresh_candidate(
                self.board,
                self.dictionary@,
                texts(self.history@),
                #[trigger] self.states@[i]->0@[k],
            )
    }

    /// The texts of the placed words.
    fn used_words(&self) -> (r: Vec<String>)
        ensures
            views(r@) == texts(self.history@),
    {
        let mut r: Vec<String> = Vec::new();
        let mut i: usize = 0;
        while i < self.history.len()
            invariant
                i <= self.history@.len(),
                r@.len() == i,
                views(r@) == texts(self.history@.subrange(0, i as int)),
            decreases self.history@.len() - i,
        {
            let ghost before = r@;
            r.push(self.history[i].word.clone());
            assert forall|j: int| 0 <= j < i + 1 implies views(r@)[j] == texts(
                self.history@.subrange(0, i + 1),
            )[j] by {
                if j < i {
                    assert(r@[j] == before[j]);
                    assert(views(before)[j] == texts(self.history@.subrange(0, i as int))[j]);
                }
            }
            assert(views(r@) =~= texts(self.history@.subrange(0, i + 1)));
            i = i + 1;
        }
        assert(self.history@.subrange(0, i as int) =~= self.history@);
        r
    }

    /// Drops every cached candidate list.
    fn invalidate_all_states(&mut self)
        requires
            old(self).wf(),
        ensures
            final(self).wf(),
            final(self).states_fresh(),
            forall|i: int| 0 <= i < final(self).states@.len() ==> final(self).states@[i] is None,
            final(self).board == old(self).board,
            final(self).history == old(self).history,
            final(self).solution == old(self).solution,
            final(self).dictionary == old(self).dictionary,
            final(self).sequence_cache == old(self).sequence_cache,
            final(self).state == old(self).state,
            final(self).rows == old(self).rows,
            final(self).cols == old(self).cols,
    {
        let n = self.states.len();
        let mut i: usize = 0;
        while i < n
            invariant
                n == self.states@.len(),
                i <= n,
                forall|j: int| 0 <= j < i ==> self.states@[j] is None,
                self.board == old(self).board,
                self.history == old(self).history,
                self.solution == old(self).solution,
                self.dictionary == old(self).dictionary,
                self.sequence_cache == old(self).sequence_cache,
                self.state == old(self).state,
                self.rows == old(self).rows,
                self.cols == old(self).cols,
            decreases n - i,
        {
            self.states.set(i, None);
            i = i + 1;
        }
    }

    /// Drops the cached candidate lists of the cells whose rays may run
    /// through a cell of `word`: from each of its cells, in each direction,
    /// up to the grid's edge or the first solution cell. The others are kept.
    #[verifier::spinoff_prover]
    #[verifier::rlimit(50)]
    pub fn invalidate_required_states(&mut self, word: &Word)
        requires
            old(self).wf(),
            forall|i: int| 0 <= i < word.word@.len() ==> old(self).board.in_grid(#[trigger] word.cell(i)),
        ensures
            final(self).wf(),
            final(self).states@.len() == old(self).states@.len(),
            forall|p: (int, int)|
                #![trigger swept(old(self).board, *word, p)]
                old(self).board.in_grid(p) ==> if swept(old(self).board, *word, p) {
                    final(self).states@[p.0 * old(self).cols + p.1] is None
                } else {
                    final(self).states@[p.0 * old(self).cols + p.1] == old(self).states@[p.0
                        * old(self).cols + p.1]
                },
            final(self).board == old(self).board,
            final(self).history == old(self).history,
            final(self).solution == old(self).solution,
            final(self).dictionary == old(self).dictionary,
            final(self).sequence_cache == old(self).sequence_cache,
            final(self).state == old(self).state,
            final(self).rows == old(self).rows,
            final(self).cols == old(self).cols,
    {
        let ghost b = self.board;
        let ghost w = *word;
        let ghost s0 = self.states@;
        let rows = self.rows;
        let cols = self.cols;
        let limit = if rows >= cols {
            rows
        } else {
            cols
        };
        let all = Direction::DIRECTION_MATRIX();
        let n = word.word.as_str().unicode_len();
        let mut i: usize = 0;
        while i < n
            invariant
                self.wf(),
                self.board == b,
                self.history == old(self).history,
                self.solution == old(self).solution,
                self.dictionary == old(self).dictionary,
                self.sequence_cache == old(self).sequence_cache,
                self.state == old(self).state,
                self.rows == old(self).rows,
                self.cols == old(self).cols,
                b == old(self).board,
                w == *word,
                s0 == old(self).states@,
                rows == b.rows,
                cols == b.cols,
                s0.len() == rows * cols,
                limit == b.limit(),
                n == w.word@.len(),
                i <= n,
                forall|j: int| 0 <= j < 9 ==> #[trigger] all@[j] == direction_at(j),
                forall|j: int| 0 <= j < n ==> b.in_grid(#[trigger] w.cell(j)),
                self.states@.len() == s0.len(),
                forall|q: int|
                    0 <= q < s0.len() ==> #[trigger] self.states@[q] == s0[q] || (
                    self.states@[q] is None && swept(b, w, (q / cols as int, q % cols as int))),
                forall|ii: int, d: Direction, k: int|
                    0 <= ii < i && open_run(b, w, ii, d, k) ==> self.states@[#[trigger] Board::ray_cell(
                        w.cell(ii).0,
                        w.cell(ii).1,
                        d,
                        k,
                    ).0 * cols + Board::ray_cell(w.cell(ii).0, w.cell(ii).1, d, k).1] is None,
            decreases n - i,
        {
            assert(b.in_grid(w.cell(i as int)));
            let sr = step_exec(word.coords.0, word.direction.getRow(), i);
            let sc = step_exec(word.coords.1, word.direction.getCol(), i);
            let mut di: usize = 0;
            while di < 9
                invariant
                    self.wf(),
                    self.board == b,
                    self.history == old(self).history,
                    self.solution == old(self).solution,
                    self.dictionary == old(self).dictionary,
                    self.sequence_cache == old(self).sequence_cache,
                    self.state == old(self).state,
                    self.rows == old(self).rows,
                    self.cols == old(self).cols,
                    w == *word,
                    rows == b.rows,
                    cols == b.cols,
                    s0.len() == rows * cols,
                    limit == b.limit(),
                    n == w.word@.len(),
                    i < n,
                    (sr as int, sc as int) == w.cell(i as int),
                    b.in_grid(w.cell(i as int)),
                    di <= 9,
                    forall|j: int| 0 <= j < 9 ==> #[trigger] all@[j] == direction_at(j),
                    self.states@.len() == s0.len(),
                    forall|q: int|
                        0 <= q < s0.len() ==> #[trigger] self.states@[q] == s0[q] || (
                        self.states@[q] is None && swept(b, w, (q / cols as int, q % cols as int))),
                    forall|ii: int, d: Direction, k: int|
                        (0 <= ii < i || (ii == i && crate::direction::ordinal(d) < di)) && open_run(
                            b,
                            w,
                            ii,
                            d,
                            k,
                        ) ==> self.states@[#[trigger] Board::ray_cell(
                            w.cell(ii).0,
                            w.cell(ii).1,
                            d,
                            k,
                        ).0 * cols + Board::ray_cell(w.cell(ii).0, w.cell(ii).1, d, k).1] is None,
                decreases 9 - di,
            {
                let d = all[di];
                proof {
                    crate::direction::lemma_ordinal_round_trip(d);
                    assert(crate::direction::ordinal(direction_at(di as int)) == di);
                }
                let dr = d.getRow();
                let dc = d.getCol();
                let mut k: usize = 0;
                let mut open = true;
                while open && k < limit
                    invariant
                        self.wf(),
                        self.board == b,
                        self.history == old(self).history,
                        self.solution == old(self).solution,
                        self.dictionary == old(self).dictionary,
                        self.sequence_cache == old(self).sequence_cache,
                        self.state == old(self).state,
                        self.rows == old(self).rows,
                        self.cols == old(self).cols,
                        rows == b.rows,
                        cols == b.cols,
                        s0.len() == rows * cols,
                        limit == b.limit(),
                        i < n,
                        n == w.word@.len(),
                        (sr as int, sc as int) == w.cell(i as int),
                        b.in_grid(w.cell(i as int)),
                        d == direction_at(di as int),
                        crate::direction::ordinal(d) == di,
                        dr == crate::direction::dr(d),
                        dc == crate::direction::dc(d),
                        k <= limit,
                        self.states@.len() == s0.len(),
                        forall|j: int|
                            #![trigger Board::ray_cell(sr as int, sc as int, d, j)]
                            0 <= j < k ==> b.in_grid(Board::ray_cell(sr as int, sc as int, d, j))
                                && b.cell(Board::ray_cell(sr as int, sc as int, d, j))
                                != SOLUTION_MARK,
                        !open ==> k < limit && !(b.in_grid(
                            Board::ray_cell(sr as int, sc as int, d, k as int),
                        ) && b.cell(Board::ray_cell(sr as int, sc as int, d, k as int))
                            != SOLUTION_MARK),
                        forall|q: int|
                            0 <= q < s0.len() ==> #[trigger] self.states@[q] == s0[q] || (
                            self.states@[q] is None && swept(
                                b,
                                w,
                                (q / cols as int, q % cols as int),
                            )),
                        forall|ii: int, dd: Direction, kk: int|
                            (0 <= ii < i || (ii == i && crate::direction::ordinal(dd) < di))
                                && open_run(b, w, ii, dd, kk) ==> self.states@[
                            #[trigger] Board::ray_cell(w.cell(ii).0, w.cell(ii).1, dd, kk).0 * cols
                                + Board::ray_cell(w.cell(ii).0, w.cell(ii).1, dd, kk).1] is None,
                        forall|kk: int|
                            0 <= kk < k ==> self.states@[#[trigger] Board::ray_cell(
                                sr as int,
                                sc as int,
                                d,
                                kk,
                            ).0 * cols + Board::ray_cell(sr as int, sc as int, d, kk).1] is None,
                    decreases limit - k, (if open { 1int } else { 0int }),
                {
                    let pr = step_within(sr, dr, k, rows);
                    let pc = step_within(sc, dc, k, cols);
                    match (pr, pc) {
                        (Some(r), Some(c)) => {
                            assert(b.in_grid(Board::ray_cell(sr as int, sc as int, d, k as int)));
                            if self.board.board[r][c] == SOLUTION_MARK {
                                assert(b.cell(Board::ray_cell(sr as int, sc as int, d, k as int))
                                    == SOLUTION_MARK);
                                open = false;
                            } else {
                                let ghost q0 = (r as int, c as int);
                                proof {
                                    lemma_index_in_grid(rows as int, cols as int, q0);
                                }
                                let idx = r * cols + c;
                                let ghost prev = self.states@;
                                self.states.set(idx, None);
                                proof {
                                    assert(open_run(b, w, i as int, d, k as int));
                                    assert(Board::ray_cell(sr as int, sc as int, d, k as int) == q0);
                                    assert(swept(b, w, q0));
                                    vstd::arithmetic::div_mod::lemma_fundamental_div_mod_converse(
                                        idx as int,
                                        cols as int,
                                        r as int,
                                        c as int,
                                    );
                                    assert forall|q: int|
                                        0 <= q < s0.len() implies #[trigger] self.states@[q] == s0[q]
                                            || (self.states@[q] is None && swept(
                                            b,
                                            w,
                                            (q / cols as int, q % cols as int),
                                        )) by {
                                        if q != idx {
                                            assert(self.states@[q] == prev[q]);
                                        }
                                    }
                                    assert forall|ii: int, dd: Direction, kk: int|
                                        (0 <= ii < i || (ii == i && crate::direction::ordinal(dd)
                                            < di)) && open_run(b, w, ii, dd, kk) implies self.states@[
                                        #[trigger] Board::ray_cell(w.cell(ii).0, w.cell(ii).1, dd, kk).0
                                            * cols + Board::ray_cell(
                                            w.cell(ii).0,
                                            w.cell(ii).1,
                                            dd,
                                            kk,
                                        ).1] is None by {
                                        let x = Board::ray_cell(w.cell(ii).0, w.cell(ii).1, dd, kk);
                                        assert(b.in_grid(x));
                                        lemma_index_in_grid(rows as int, cols as int, x);
                                        if x.0 * cols + x.1 != idx {
                                            assert(self.states@[x.0 * cols + x.1] == prev[x.0 * cols
                                                + x.1]);
                                        }
                                    }
                                    assert forall|kk: int|
                                        0 <= kk < k + 1 implies self.states@[#[trigger] Board::ray_cell(
                                        sr as int,
                                        sc as int,
                                        d,
                                        kk,
                                    ).0 * cols + Board::ray_cell(sr as int, sc as int, d, kk).1]
                                        is None by {
                                        let x = Board::ray_cell(sr as int, sc as int, d, kk);
                                        if kk < k {
                                            assert(b.in_grid(x));
                                            lemma_index_in_grid(rows as int, cols as int, x);
                                            if x.0 * cols + x.1 != idx {
                                                assert(self.states@[x.0 * cols + x.1] == prev[x.0
                                                    * cols + x.1]);
                                            }
                                        }
                                    }
                                }
                                k = k + 1;
                            }
                        },
                        _ => {
                            assert(!b.in_grid(Board::ray_cell(sr as int, sc as int, d, k as int)));
                            open = false;
                        },
                    }
                }
                proof {
                    assert forall|ii: int, dd: Direction, kk: int|
                        (0 <= ii < i || (ii == i && crate::direction::ordinal(dd) < di + 1))
                            && open_run(b, w, ii, dd, kk) implies self.states@[
                        #[trigger] Board::ray_cell(w.cell(ii).0, w.cell(ii).1, dd, kk).0 * cols
                            + Board::ray_cell(w.cell(ii).0, w.cell(ii).1, dd, kk).1] is None by {
                        if ii == i && crate::direction::ordinal(dd) == di {
                            crate::direction::lemma_ordinal_round_trip(dd);
                            assert(dd == d);
                            if kk >= k {
                                assert(b.in_grid(Board::ray_cell(sr as int, sc as int, d, k as int)));
                            }
                            assert(Board::ray_cell(sr as int, sc as int, d, kk) == Board::ray_cell(
                                w.cell(ii).0,
                                w.cell(ii).1,
                                dd,
                                kk,
                            ));
                        }
                    }
                }
                di = di + 1;
            }
            proof {
                assert forall|ii: int, d: Direction, k: int|
                    0 <= ii < i + 1 && open_run(b, w, ii, d, k) implies self.states@[
                    #[trigger] Board::ray_cell(w.cell(ii).0, w.cell(ii).1, d, k).0 * cols
                        + Board::ray_cell(w.cell(ii).0, w.cell(ii).1, d, k).1] is None by {
                    crate::direction::lemma_ordinal_round_trip(d);
                }
            }
            i = i + 1;
        }
        proof {
            assert forall|p: (int, int)|
                #![trigger swept(b, w, p)]
                b.in_grid(p) implies if swept(b, w, p) {
                self.states@[p.0 * cols + p.1] is None
            } else {
                self.states@[p.0 * cols + p.1] == s0[p.0 * cols + p.1]
            } by {
                lemma_index_in_grid(rows as int, cols as int, p);
                let q = p.0 * cols + p.1;
                vstd::arithmetic::div_mod::lemma_fundamental_div_mod_converse(
                    q,
                    cols as int,
                    p.0,
                    p.1,
                );
                assert((q / cols as int, q % cols as int) == p);
                assert(self.states@[q] == s0[q] || (self.states@[q] is None && swept(
                    b,
                    w,
                    (q / cols as int, q % cols as int),
                )));
                if swept(b, w, p) {
                    let (ii, d, k) = choose|ii: int, d: Direction, k: int|
                        0 <= ii < w.word@.len() && open_run(b, w, ii, d, k)
                            && #[trigger] Board::ray_cell(w.cell(ii).0, w.cell(ii).1, d, k) == p;
                    assert(self.states@[Board::ray_cell(w.cell(ii).0, w.cell(ii).1, d, k).0 * cols
                        + Board::ray_cell(w.cell(ii).0, w.cell(ii).1, d, k).1] is None);
                }
            }
        }
    }

    /// Fills every missing candidate list from the current board and history.
    #[verifier::spinoff_prover]
    fn calculate_possible_states(&mut self)
        requires
            old(self).wf(),
            old(self).states_fresh(),
        ensures
            final(self).wf(),
            final(self).states_fresh(),
            forall|i: int| 0 <= i < final(self).states@.len() ==> final(self).states@[i] is Some,
            forall|p: (int, int)|
                old(self).board.in_grid(p) ==> slot_filled(
                    old(self).board,
                    old(self).dictionary@,
                    texts(old(self).history@),
                    p,
                    old(self).states@[p.0 * old(self).cols + p.1],
                    #[trigger] final(self).states@[p.0 * old(self).cols + p.1],
                ),
            final(self).board == old(self).board,
            final(self).history == old(self).history,
            final(self).solution == old(self).solution,
            final(self).dictionary == old(self).dictionary,
            final(self).state == old(self).state,
            final(self).rows == old(self).rows,
            final(self).cols == old(self).cols,
    {
        let ghost s0 = self.states@;
        let used = self.used_words();
        let rows = self.rows;
        let cols = self.cols;
        let mut row: usize = 0;
        while row < rows
            invariant
                self.wf(),
                self.states_fresh(),
                views(used@) == texts(self.history@),
                rows == self.rows,
                cols == self.cols,
                row <= rows,
                forall|i: int| 0 <= i < row * cols ==> self.states@[i] is Some,
                s0 == old(self).states@,
                forall|p: (int, int)|
                    self.board.in_grid(p) ==> if p.0 < row {
                        slot_filled(
                            self.board,
                            self.dictionary@,
                            texts(self.history@),
                            p,
                            s0[p.0 * cols + p.1],
                            #[trigger] self.states@[p.0 * cols + p.1],
                        )
                    } else {
                        self.states@[p.0 * cols + p.1] == s0[p.0 * cols + p.1]
                    },
                self.board == old(self).board,
                self.history == old(self).history,
                self.solution == old(self).solution,
                self.dictionary == old(self).dictionary,
                self.state == old(self).state,
                self.rows == old(self).rows,
                self.cols == old(self).cols,
            decreases rows - row,
        {
            let mut col: usize = 0;
            while col < cols
                invariant
                    self.wf(),
                    self.states_fresh(),
                    views(used@) == texts(self.history@),
                    rows == self.rows,
                    cols == self.cols,
                    row < rows,
                    col <= cols,
                    forall|i: int| 0 <= i < row * cols + col ==> self.states@[i] is Some,
                    s0 == old(self).states@,
                    forall|p: (int, int)|
                        self.board.in_grid(p) ==> if p.0 < row || (p.0 == row && p.1 < col) {
                            slot_filled(
                                self.board,
                                self.dictionary@,
                                texts(self.history@),
                                p,
                                s0[p.0 * cols + p.1],
                                #[trigger] self.states@[p.0 * cols + p.1],
                            )
                        } else {
                            self.states@[p.0 * cols + p.1] == s0[p.0 * cols + p.1]
                        },
                    self.board == old(self).board,
                    self.history == old(self).history,
                    self.solution == old(self).solution,
                    self.dictionary == old(self).dictionary,
                    self.state == old(self).state,
                    self.rows == old(self).rows,
                    self.cols == old(self).cols,
                decreases cols - col,
            {
                assert(row * cols + col < rows * cols) by (nonlinear_arith)
                    requires
                        row < rows,
                        col < cols,
                ;
                let idx = row * cols + col;
                if self.states[idx].is_none() {
                    let ghost here = (row as int, col as int);
                    let words = match self.board.get_sequences_from_position(row, col) {
                        None => {
                            let ws: Vec<Word> = Vec::new();
                            proof {
                                assert forall|d: Direction|
                                    seqs_at(self.board, row as int, col as int)[crate::direction::ordinal(
                                        d,
                                    )].len() == 0 by {
                                    crate::direction::lemma_ordinal_round_trip(d);
                                    assert(Board::ray_cell(row as int, col as int, d, 0) == here);
                                    assert(self.board.ray_from(row as int, col as int, d, 0).len()
                                        == 0);
                                }
                                assert(keys_of(ws@) =~= Seq::<(Seq<char>, Direction)>::empty());
                                assert(lists_candidates(
                                    self.board,
                                    self.dictionary@,
                                    texts(self.history@),
                                    row as int,
                                    col as int,
                                    ws@,
                                ));
                            }
                            ws
                        },
                        Some(seqs) => {
                            proof {
                                assert(views(seqs@) =~= seqs_at(
                                    self.board,
                                    row as int,
                                    col as int,
                                ));
                            }
                            let ws = WFC::calculate_entropy_for_acell(
                                row,
                                col,
                                &seqs,
                                &self.dictionary,
                                &used,
                                &mut self.sequence_cache,
                            );
                            proof {
                                assert forall|k: int| 0 <= k < ws@.len() implies fresh_candidate(
                                    self.board,
                                    self.dictionary@,
                                    texts(self.history@),
                                    #[trigger] ws@[k],
                                ) by {
                                    assert(is_candidate(
                                        self.dictionary@,
                                        views(seqs@),
                                        views(used@),
                                        row as int,
                                        col as int,
                                        ws@[k],
                                    ));
                                    assert(self.board.in_grid((row as int, col as int)));
                                }
                                assert forall|k: int| 0 <= k < ws@.len() implies (#[trigger] ws@[k]).coords.0
                                    == row as int && ws@[k].coords.1 == col as int by {
                                    assert(is_candidate(
                                        self.dictionary@,
                                        views(seqs@),
                                        views(used@),
                                        row as int,
                                        col as int,
                                        ws@[k],
                                    ));
                                }
                                assert forall|d: Direction, x: Seq<char>|
                                    seqs_at(self.board, row as int, col as int)[crate::direction::ordinal(
                                        d,
                                    )].len() >= MIN_LEN && search_result(
                                        self.dictionary@,
                                        seqs_at(self.board, row as int, col as int)[crate::direction::ordinal(
                                            d,
                                        )],
                                    ).contains(x) && !texts(self.history@).contains(x) implies #[trigger] keys_of(
                                    ws@,
                                ).contains((x, d)) by {
                                    assert(views(seqs@)[crate::direction::ordinal(d)] == seqs_at(
                                        self.board,
                                        row as int,
                                        col as int,
                                    )[crate::direction::ordinal(d)]);
                                }
                                assert(lists_candidates(
                                    self.board,
                                    self.dictionary@,
                                    texts(self.history@),
                                    row as int,
                                    col as int,
                                    ws@,
                                ));
                            }
                            ws
                        },
                    };
                    assert(lists_candidates(
                        self.board,
                        self.dictionary@,
                        texts(self.history@),
                        row as int,
                        col as int,
                        words@,
                    ));
                    assert(forall|k: int| 0 <= k < words@.len() ==> fresh_candidate(
                        self.board,
                        self.dictionary@,
                        texts(self.history@),
                        #[trigger] words@[k],
                    ));
                    let ghost prev = self.states@;
                    self.states.set(idx, Some(words));
                    proof {
                        assert forall|i: int, k: int|
                            0 <= i < self.states@.len() && self.states@[i] is Some && 0 <= k
                                < self.states@[i]->0@.len() implies fresh_candidate(
                            self.board,
                            self.dictionary@,
                            texts(self.history@),
                            #[trigger] self.states@[i]->0@[k],
                        ) by {
                            if i != idx {
                                assert(self.states@[i] == prev[i]);
                            } else {
                                assert(self.states@[i]->0@ == words@);
                            }
                        }
                        assert(prev[idx as int] is None);
                        assert forall|p: (int, int)|
                            self.board.in_grid(p) implies if p.0 < row || (p.0 == row && p.1 < col
                                + 1) {
                            slot_filled(
                                self.board,
                                self.dictionary@,
                                texts(self.history@),
                                p,
                                s0[p.0 * cols + p.1],
                                #[trigger] self.states@[p.0 * cols + p.1],
                            )
                        } else {
                            self.states@[p.0 * cols + p.1] == s0[p.0 * cols + p.1]
                        } by {
                            lemma_index_in_grid(rows as int, cols as int, p);
                            if p.0 * cols + p.1 == idx {
                                lemma_index_injective(cols as int, p, here);
                            } else {
                                assert(self.states@[p.0 * cols + p.1] == prev[p.0 * cols + p.1]);
                                if p.0 == row && p.1 == col {
                                    assert(p.0 * cols + p.1 == idx);
                                }
                            }
                        }
                    }
                } else {
                    proof {
                        assert forall|p: (int, int)|
                            self.board.in_grid(p) implies if p.0 < row || (p.0 == row && p.1 < col
                                + 1) {
                            slot_filled(
                                self.board,
                                self.dictionary@,
                                texts(self.history@),
                                p,
                                s0[p.0 * cols + p.1],
                                #[trigger] self.states@[p.0 * cols + p.1],
                            )
                        } else {
                            self.states@[p.0 * cols + p.1] == s0[p.0 * cols + p.1]
                        } by {
                            if p.0 == row && p.1 == col {
                                assert(p.0 * cols + p.1 == idx);
                            }
                        }
                    }
                }
                proof {
                    assert forall|i: int| 0 <= i < row * cols + col + 1 implies self.states@[i] is Some by {
                    }
                }
                col = col + 1;
            }
            proof {
                assert((row + 1) * cols == row * cols + cols) by (nonlinear_arith);
            }
            row = row + 1;
        }
    }

    /// Fills the grid: recomputes the candidates, takes those of the
    /// lowest-entropy cells in random order, and for each unused admissible
    /// one places it and recurses, undoing it on failure. On success the grid
    /// is complete; on failure board and history are as they were.
    #[verifier::spinoff_prover]
    #[verifier::rlimit(50)]
    fn backtrack(&mut self) -> (r: bool)
        requires
            old(self).wf(),
        ensures
            final(self).wf(),
            final(self).rows == old(self).rows,
            final(self).cols == old(self).cols,
            final(self).solution == old(self).solution,
            final(self).dictionary == old(self).dictionary,
            final(self).state == old(self).state,
            r ==> final(self).board.complete(),
            old(self).board.complete() ==> r,
            !r ==> same_planes(final(self).board, old(self).board),
            !r ==> final(self).history@ == old(self).history@,
        decreases unknowns(old(self).board.grid()),
    {
        if self.board.is_board_populated() {
            return true;
        }
        self.invalidate_all_states();
        self.calculate_possible_states();
        let words = WFC::find_random_lowest_entropy_words(&self.states);
        let used = self.used_words();
        let ghost b0 = self.board;
        let ghost h0 = self.history@;
        let ghost dict = self.dictionary@;
        proof {
            assert forall|k: int| 0 <= k < words@.len() implies fresh_candidate(
                b0,
                dict,
                texts(h0),
                #[trigger] words@[k],
            ) by {
                let w = words@[k];
                let m = min_entropy(self.states@);
                words@.to_multiset_ensures();
                pooled(self.states@, m).to_multiset_ensures();
                assert(words@.contains(w));
                assert(words@.to_multiset().count(w) > 0);
                assert(pooled(self.states@, m).contains(w));
                crate::wfc::lemma_pooled_from_entry(self.states@, m, w);
                let i = choose|i: int|
                    0 <= i < self.states@.len() && self.states@[i] is Some && (
                    #[trigger] self.states@[i])->0@.contains(w);
                let kk = choose|kk: int|
                    0 <= kk < self.states@[i]->0@.len() && self.states@[i]->0@[kk] == w;
                assert(fresh_candidate(
                    self.board,
                    self.dictionary@,
                    texts(self.history@),
                    self.states@[i]->0@[kk],
                ));
            }
        }
        let mut i: usize = 0;
        while i < words.len()
            invariant
                self.wf(),
                b0.wf(),
                !b0.complete(),
                same_planes(self.board, b0),
                self.board.grid() == b0.grid(),
                b0 == old(self).board,
                self.history@ == h0,
                h0 == old(self).history@,
                dict == self.dictionary@,
                views(used@) == texts(h0),
                self.rows == old(self).rows,
                self.cols == old(self).cols,
                self.solution == old(self).solution,
                self.dictionary == old(self).dictionary,
                self.state == old(self).state,
                i <= words@.len(),
                forall|k: int|
                    0 <= k < words@.len() ==> fresh_candidate(
                        b0,
                        dict,
                        texts(h0),
                        #[trigger] words@[k],
                    ),
            decreases words@.len() - i,
        {
            let w = &words[i];
            if contains_text(&used, &w.word) {
                i = i + 1;
                continue;
            }
            if !self.board.is_admissible(w) {
                i = i + 1;
                continue;
            }
            proof {
                lemma_candidate_covers_unknown(b0, dict, texts(h0), *w);
                let k = choose|k: int|
                    0 <= k < w.word@.len() && b0.in_grid(#[trigger] w.cell(k)) && b0.cell(w.cell(k))
                        == UNKNOWN;
                assert(self.board.cell(w.cell(k)) == UNKNOWN);
                crate::board::lemma_unknown_cell_counts(&self.board, w.cell(k));
            }
            let ghost before = self.board;
            self.board.put_word_on_board(w);
            self.history.push(w.duplicate());
            let ghost post = self.board;
            proof {
                let k = choose|k: int|
                    0 <= k < w.word@.len() && b0.in_grid(#[trigger] w.cell(k)) && b0.cell(w.cell(k))
                        == UNKNOWN;
                assert(before.cell(w.cell(k)) == UNKNOWN);
                lemma_place_keeps(before, self.board, *w, h0, self.solution);
                assert(self.history@ == h0.push(*w));
                assert forall|p: (int, int)| #![trigger post.epoch_of(p)]
                    post.in_grid(p) && post.epoch_of(p) == Some((post.tracker - 1) as usize)
                    implies !Board::off_word(w, p) by {
                    if Board::off_word(w, p) {
                        assert(before.in_grid(p));
                    }
                }
                assert(post.latest_is(w));
            }
            if self.board.is_board_populated() {
                return true;
            }
            if self.backtrack() {
                return true;
            }
            self.history.pop();
            assert(self.history@ =~= h0);
            proof {
                assert(same_planes(self.board, post));
                assert forall|p: (int, int)| #![trigger self.board.epoch_of(p)]
                    self.board.in_grid(p) && self.board.epoch_of(p) == Some((self.board.tracker - 1) as usize)
                    implies !Board::off_word(w, p) by {
                    assert(post.in_grid(p));
                }
                assert forall|j: int| 0 <= j < w.word@.len() implies self.board.in_grid(#[trigger] w.cell(j)) by {
                    assert(before.in_grid(w.cell(j)));
                    assert(w.word@[j] == w.word@[j]);
                }
            }
            let ghost mid = self.board;
            self.board.remove_word_from_board(w);
            proof {
                lemma_unplaced_transfer(self.board, mid, post, *w);
                crate::board::law_place_unplace(before, post, self.board, *w);
                assert(same_planes(self.board, before));
                lemma_same_planes(self.board, b0, h0, self.solution);
            }
            i = i + 1;
        }
        false
    }

    /// Lays out the phrase's letters and marks their cells on the board.
    fn prepare_solution(&mut self) -> (r: bool)
        requires
            old(self).wf(),
            old(self).solution.locations@.len() == 0,
            old(self).history@.len() == 0,
            forall|p: (int, int)| #[trigger] old(self).board.in_grid(p) ==> old(self).board.cell(p) == UNKNOWN,
        ensures
            r ==> final(self).wf(),
            r ==> final(self).solution.locations@.len() == final(self).solution.processed@.len(),
            r ==> all_spaced(final(self).solution.locations@, final(self).rows as int, final(self).cols as int),
            old(self).solution.processed@.len() == 1 ==> r,
            final(self).solution.processed@ == old(self).solution.processed@,
            final(self).dictionary == old(self).dictionary,
            final(self).history == old(self).history,
            final(self).states == old(self).states,
            final(self).sequence_cache == old(self).sequence_cache,
            final(self).state == old(self).state,
            final(self).rows == old(self).rows,
            final(self).cols == old(self).cols,
    {
        let ghost s0 = self.solution;
        let state = self.solution.calculate_constraints();
        if !state {
            proof {
                if s0.processed@.len() == 1 {
                    crate::solution::lemma_single_letter_fits(s0);
                    let n = self.rows * self.cols;
                    assert(crate::solution::cluster_lo(n as int, 1, 0) == 0);
                    assert(crate::solution::cluster_hi(n as int, 1, 0) == n);
                    assert(self.solution.locations@ =~= s0.locations@);
                    assert(!self.solution.accepts(0));
                }
            }
            return false;
        }
        let ghost before = self.board;
        self.board.put_solution_on_board(&self.solution);
        proof {
            assert forall|p: (int, int)| #![trigger self.board.cell(p)] self.board.in_grid(p) implies (
            self.board.cell(p) == SOLUTION_MARK <==> taken(
                self.solution.locations@,
                p.0 * self.board.cols + p.1,
            )) by {
                assert(before.in_grid(p));
            }
            assert forall|k: int| 0 <= k < self.history@.len() implies self.board.admissible(
                &#[trigger] self.history@[k],
            ) && spells(self.board, self.history@[k]) by {}
        }
        state
    }

    /// A session for `solution` on a `rows` x `cols` grid with the words of
    /// `dictionary` that have at least `MIN_LEN` characters; the phrase's
    /// letters are laid out and marked, nothing else is placed yet.
    pub fn new(solution: &str, rows: usize, cols: usize, dictionary: Vec<String>) -> (r: Result<
        Controller,
        PuzzleError,
    >)
        requires
            rows * cols <= usize::MAX,
        ensures
            (rows < MIN_DIM || cols < MIN_DIM) <==> r == Err::<Controller, PuzzleError>(
                PuzzleError::BoardTooSmall,
            ),
            (rows >= MIN_DIM && cols >= MIN_DIM && normalize(solution@).len() == 0) <==> r == Err::<
                Controller,
                PuzzleError,
            >(PuzzleError::EmptySolution),
            (rows >= MIN_DIM && cols >= MIN_DIM && normalize(solution@).len() > 0 && normalize(
                solution@,
            ).len() > (rows * cols) / 2) <==> r == Err::<Controller, PuzzleError>(
                PuzzleError::SolutionTooLong,
            ),
            (rows >= MIN_DIM && cols >= MIN_DIM && normalize(solution@).len() == 1) ==> r is Ok,
            r is Err ==> r == Err::<Controller, PuzzleError>(PuzzleError::BoardTooSmall) || r
                == Err::<Controller, PuzzleError>(PuzzleError::EmptySolution) || r == Err::<
                Controller,
                PuzzleError,
            >(PuzzleError::SolutionTooLong) || r == Err::<Controller, PuzzleError>(
                PuzzleError::SolutionInfeasible,
            ),
            r matches Ok(c) ==> {
                &&& c.wf()
                &&& c.rows == rows
                &&& c.cols == cols
                &&& c.dictionary@ == dictionary_words(dictionary@)
                &&& c.solution.processed@ == normalize(solution@)
                &&& c.solution.locations@.len() == c.solution.processed@.len()
                &&& all_spaced(c.solution.locations@, rows as int, cols as int)
                &&& c.history@.len() == 0
                &&& c.state == LoopState::INITIALIZED
                &&& forall|i: int| 0 <= i < c.states@.len() ==> c.states@[i] is None
                &&& c.sequence_cache@ == Map::<Seq<char>, Vec<String>>::empty()
            },
    {
        let mut trie = Trie::new();
        let mut i: usize = 0;
        while i < dictionary.len()
            invariant
                trie.wf(),
                i <= dictionary@.len(),
                trie@ == Set::new(
                    |w: Seq<char>|
                        w.len() >= MIN_LEN && exists|j: int| 0 <= j < i && dictionary@[j]@ == w,
                ),
            decreases dictionary@.len() - i,
        {
            let ghost before = trie@;
            let word = dictionary[i].as_str();
            if word.unicode_len() >= MIN_LEN {
                let _ = trie.insert(word);
            }
            assert(trie@ =~= Set::new(
                |w: Seq<char>|
                    w.len() >= MIN_LEN && exists|j: int| 0 <= j < i + 1 && dictionary@[j]@ == w,
            )) by {
                assert forall|w: Seq<char>|
                    (w.len() >= MIN_LEN && exists|j: int| 0 <= j < i + 1 && dictionary@[j]@ == w)
                        implies #[trigger] trie@.contains(w) by {
                    let j = choose|j: int| 0 <= j < i + 1 && dictionary@[j]@ == w;
                    if j < i {
                        assert(before.contains(w));
                    }
                }
            }
            i = i + 1;
        }
        assert(trie@ =~= dictionary_words(dictionary@));
        let board = match Board::new(rows, cols) {
            Ok(b) => b,
            Err(e) => {
                return Err(e);
            },
        };
        assert(rows * cols >= 16) by (nonlinear_arith)
            requires
                rows >= MIN_DIM,
                cols >= MIN_DIM,
        ;
        let solution = match Solution::new(solution, rows, cols) {
            Ok(s) => s,
            Err(e) => {
                return Err(e);
            },
        };
        let n = rows * cols;
        let mut states: Vec<Option<Vec<Word>>> = Vec::new();
        let mut k: usize = 0;
        while k < n
            invariant
                k <= n,
                states@.len() == k,
                forall|i: int| 0 <= i < k ==> states@[i] is None,
            decreases n - k,
        {
            states.push(None);
            k = k + 1;
        }
        proof {
            crate::board::lemma_unknowns_bound(&board);
        }
        let mut controller = Controller {
            rows,
            cols,
            board,
            solution,
            dictionary: trie,
            history: Vec::new(),
            states,
            sequence_cache: StringHashMap::new(),
            state: LoopState::INITIALIZED,
        };
        proof {
            assert(texts(controller.history@) =~= Seq::<Seq<char>>::empty());
            assert forall|p: (int, int)| #![trigger controller.board.cell(p)]
                controller.board.in_grid(p) implies (controller.board.cell(p) == SOLUTION_MARK
                <==> taken(controller.solution.locations@, p.0 * controller.board.cols + p.1)) by {
                assert(controller.board.cell(p) == UNKNOWN);
            }
        }
        if !controller.prepare_solution() {
            return Err(PuzzleError::SolutionInfeasible);
        }
        Ok(controller)
    }

    /// Runs the filler. On success the grid is complete and the session
    /// FINISHED; otherwise it is FAILED with board and history unchanged.
    pub fn perform_action(&mut self) -> (r: Result<(), PuzzleError>)
        requires
            old(self).wf(),
        ensures
            final(self).wf(),
            final(self).solution == old(self).solution,
            r is Ok ==> final(self).board.complete() && final(self).state == LoopState::FINISHED,
            old(self).board.complete() ==> r is Ok,
            r is Err ==> r == Err::<(), PuzzleError>(PuzzleError::FillInfeasible),
            r is Err ==> final(self).state == LoopState::FAILED,
            r is Err ==> same_planes(final(self).board, old(self).board),
            r is Err ==> final(self).history@ == old(self).history@,
    {
        self.state = LoopState::PLAYING;
        if self.backtrack() {
            self.state = LoopState::FINISHED;
            Ok(())
        } else {
            self.state = LoopState::FAILED;
            Err(PuzzleError::FillInfeasible)
        }
    }
}

/// When the filler succeeds, every cell is a letter or a solution cell, the
/// solution cells are exactly the phrase's chosen cells, every placed word
/// is a dictionary word, admissible on the final grid and spelled there
/// without crossing a solution cell, every letter lies on a placed word, and
/// no word is placed twice.
pub proof fn law_filled_grid(c: Controller)
    requires
        c.wf(),
        c.board.complete(),
    ensures
        forall|p: (int, int)|
            #![trigger c.board.cell(p)]
            c.board.in_grid(p) ==> (is_letter(c.board.cell(p)) || c.board.cell(p) == SOLUTION_MARK),
        forall|p: (int, int)|
            #![trigger c.board.cell(p)]
            c.board.in_grid(p) ==> (c.board.cell(p) == SOLUTION_MARK <==> taken(
                c.solution.locations@,
                p.0 * c.cols + p.1,
            )),
        forall|k: int|
            0 <= k < c.history@.len() ==> c.board.admissible(&#[trigger] c.history@[k]) && spells(
                c.board,
                c.history@[k],
            ),
        forall|k: int, i: int|
            0 <= k < c.history@.len() && 0 <= i < c.history@[k].word@.len() ==> c.board.cell(
                #[trigger] c.history@[k].cell(i),
            ) != SOLUTION_MARK,
        texts(c.history@).no_duplicates(),
        covered(c.board, c.history@),
        forall|k: int|
            0 <= k < c.history@.len() ==> c.dictionary@.contains((#[trigger] c.history@[k]).word@),
{
    assert forall|k: int, i: int|
        0 <= k < c.history@.len() && 0 <= i < c.history@[k].word@.len() implies c.board.cell(
        #[trigger] c.history@[k].cell(i),
    ) != SOLUTION_MARK by {
        assert(c.board.admissible(&c.history@[k]));
        assert(is_letter(c.history@[k].word@[i]));
    }
}

} // verus!
