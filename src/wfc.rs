//! Candidate placements per cell, and the choice of the cells with the fewest.
use vstd::prelude::*;
use vstd::hash_map::StringHashMap;
use crate::direction::{direction_at, ordinal, Direction};
use crate::random::shuffle;
use crate::trie::{lists_exactly, search_result, views, Trie};
use crate::word::Word;
use crate::MIN_LEN;

verus! {

/// Every cached pattern maps to exactly the dictionary words that fit it.
pub open spec fn cache_ok(dict: Set<Seq<char>>, cache: Map<Seq<char>, Vec<String>>) -> bool {
    forall|k: Seq<char>|
        #[trigger] cache.contains_key(k) ==> lists_exactly(views(cache[k]@), search_result(dict, k))
}

/// `w` starts at `(row, col)`, and its text is an unused dictionary word
/// that fits the query `seqs` holds for its direction, a query of at least
/// `MIN_LEN` characters.
pub open spec fn is_candidate(
    dict: Set<Seq<char>>,
    seqs: Seq<Seq<char>>,
    used: Seq<Seq<char>>,
    row: int,
    col: int,
    w: Word,
) -> bool {
    &&& w.coords.0 == row
    &&& w.coords.1 == col
    &&& w.length == w.word@.len()
    &&& seqs[ordinal(w.direction)].len() >= MIN_LEN
    &&& search_result(dict, seqs[ordinal(w.direction)]).contains(w.word@)
    &&& !used.contains(w.word@)
}

/// The (text, direction) pairs of a list of placements.
pub open spec fn keys_of(ws: Seq<Word>) -> Seq<(Seq<char>, Direction)> {
    ws.map_values(|w: Word| (w.word@, w.direction))
}

/// Number of candidates a cache entry holds; none when absent.
pub open spec fn entropy(e: Option<Vec<Word>>) -> nat {
    match e {
        Some(ws) => ws@.len(),
        None => 0,
    }
}

/// The least non-zero entropy, or 0 when every entry has none.
pub open spec fn min_entropy(states: Seq<Option<Vec<Word>>>) -> nat
    decreases states.len(),
{
    if states.len() == 0 {
        0
    } else {
        let a = min_entropy(states.drop_last());
        let e = entropy(states.last());
        if e == 0 {
            a
        } else if a == 0 || e < a {
            e
        } else {
            a
        }
    }
}

/// The candidates of the entries with exactly `m` of them, entry by entry.
pub open spec fn pooled(states: Seq<Option<Vec<Word>>>, m: nat) -> Seq<Word>
    decreases states.len(),
{
    if states.len() == 0 {
        Seq::empty()
    } else if entropy(states.last()) == m && states.last() is Some {
        pooled(states.drop_last(), m) + states.last()->0@
    } else {
        pooled(states.drop_last(), m)
    }
}

/// Whether `s` is one of `used`.
pub(crate) fn contains_text(used: &Vec<String>, s: &String) -> (r: bool)
    ensures
        r == views(used@).contains(s@),
{
    let mut i: usize = 0;
    while i < used.len()
        invariant
            i <= used@.len(),
            forall|j: int| 0 <= j < i ==> used@[j]@ != s@,
        decreases used@.len() - i,
    {
        if used[i] == *s {
            assert(views(used@)[i as int] == s@);
            return true;
        }
        i = i + 1;
    }
    assert forall|j: int| 0 <= j < views(used@).len() implies views(used@)[j] != s@ by {
        assert(views(used@)[j] == used@[j]@);
    }
    false
}

/// Lowest-entropy selection over the candidates of each cell.
pub struct WFC {}

impl WFC {
    /// The candidates at `(row, col)`, given the queries of its nine
    /// directions in ordinal order: one placement per unused dictionary word
    /// that fits a query of at least `MIN_LEN` characters, for each such
    /// query. Lookups go through `sequence_cache`, which keeps its meaning.
    pub fn calculate_entropy_for_acell(
        row: usize,
        col: usize,
        directional_sequences: &Vec<String>,
        dictionary: &Trie,
        used: &Vec<String>,
        sequence_cache: &mut StringHashMap<Vec<String>>,
    ) -> (r: Vec<Word>)
        requires
            dictionary.wf(),
            directional_sequences@.len() == 9,
            cache_ok(dictionary@, old(sequence_cache)@),
        ensures
            cache_ok(dictionary@, final(sequence_cache)@),
            forall|k: Seq<char>|
                #[trigger] old(sequence_cache)@.contains_key(k)
                    ==> final(sequence_cache)@.contains_key(k)
                    && final(sequence_cache)@[k] == old(sequence_cache)@[k],
            forall|i: int|
                0 <= i < 9 && (#[trigger] views(directional_sequences@)[i]).len() >= MIN_LEN
                    ==> final(sequence_cache)@.contains_key(views(directional_sequences@)[i]),
            forall|i: int|
                0 <= i < r@.len() ==> #[trigger] is_candidate(
                    dictionary@,
                    views(directional_sequences@),
                    views(used@),
                    row as int,
                    col as int,
                    r@[i],
                ),
            forall|d: Direction, x: Seq<char>|
                views(directional_sequences@)[ordinal(d)].len() >= MIN_LEN && search_result(
                    dictionary@,
                    views(directional_sequences@)[ordinal(d)],
                ).contains(x) && !views(used@).contains(x) ==> #[trigger] keys_of(r@).contains(
                    (x, d),
                ),
            keys_of(r@).no_duplicates(),
    {
        let ghost seqs = views(directional_sequences@);
        let ghost dict = dictionary@;
        let all = Direction::DIRECTION_MATRIX();
        let mut words: Vec<Word> = Vec::new();
        let mut i: usize = 0;
        while i < 9
            invariant
                dictionary.wf(),
                dict == dictionary@,
                seqs == views(directional_sequences@),
                directional_sequences@.len() == 9,
                forall|j: int| 0 <= j < 9 ==> #[trigger] all@[j] == direction_at(j),
                i <= 9,
                cache_ok(dict, sequence_cache@),
                forall|k: Seq<char>|
                    #[trigger] old(sequence_cache)@.contains_key(k) ==> sequence_cache@.contains_key(
                        k,
                    ) && sequence_cache@[k] == old(sequence_cache)@[k],
                forall|j: int|
                    0 <= j < i && (#[trigger] seqs[j]).len() >= MIN_LEN ==> sequence_cache@.contains_key(
                        seqs[j],
                    ),
                forall|k: int|
                    0 <= k < words@.len() ==> #[trigger] is_candidate(
                        dict,
                        seqs,
                        views(used@),
                        row as int,
                        col as int,
                        words@[k],
                    ),
                forall|k: int| 0 <= k < words@.len() ==> ordinal((#[trigger] words@[k]).direction) < i,
                forall|d: Direction, x: Seq<char>|
                    ordinal(d) < i && seqs[ordinal(d)].len() >= MIN_LEN && search_result(
                        dict,
                        seqs[ordinal(d)],
                    ).contains(x) && !views(used@).contains(x) ==> #[trigger] keys_of(
                        words@,
                    ).contains((x, d)),
                keys_of(words@).no_duplicates(),
            decreases 9 - i,
        {
            let d = all[i];
            proof {
                crate::direction::lemma_ordinal_round_trip(d);
                assert(ordinal(direction_at(i as int)) == i) by {
                    reveal_with_fuel(direction_at, 1);
                }
            }
            let seq = &directional_sequences[i];
            assert(seqs[i as int] == seq@);
            if seq.as_str().unicode_len() >= MIN_LEN {
                if !sequence_cache.contains_key(seq.as_str()) {
                    let found = dictionary.search(seq.as_str());
                    sequence_cache.insert(seq.clone(), found);
                }
                assert(sequence_cache@.contains_key(seq@));
                match sequence_cache.get(seq.as_str()) {
                    Some(found) => {
                        assert(lists_exactly(views(found@), search_result(dict, seq@)));
                        let ghost start = words@;
                        let mut j: usize = 0;
                        while j < found.len()
                            invariant
                                lists_exactly(views(found@), search_result(dict, seq@)),
                                seq@ == seqs[i as int],
                                seq@.len() >= MIN_LEN,
                                d == direction_at(i as int),
                                ordinal(d) == i,
                                i < 9,
                                j <= found@.len(),
                                start.len() <= words@.len(),
                                forall|k: int| 0 <= k < start.len() ==> words@[k] == start[k],
                                forall|k: int|
                                    0 <= k < start.len() ==> ordinal(
                                        (#[trigger] start[k]).direction,
                                    ) < i,
                                forall|k: int|
                                    start.len() <= k < words@.len() ==> (#[trigger] words@[k]).direction
                                        == d && exists|m: int|
                                        0 <= m < j && words@[k].word@ == views(found@)[m],
                                forall|k: int|
                                    0 <= k < words@.len() ==> #[trigger] is_candidate(
                                        dict,
                                        seqs,
                                        views(used@),
                                        row as int,
                                        col as int,
                                        words@[k],
                                    ),
                                forall|m: int|
                                    0 <= m < j && !views(used@).contains(views(found@)[m])
                                        ==> #[trigger] keys_of(words@).contains(
                                        (views(found@)[m], d),
                                    ),
                                keys_of(start).no_duplicates(),
                                keys_of(words@).no_duplicates(),
                            decreases found@.len() - j,
                        {
                            let text = &found[j];
                            assert(views(found@)[j as int] == text@);
                            if !contains_text(used, text) {
                                assert(views(found@).contains(text@));
                                let w = Word::new(text.clone(), d, (row, col));
                                let ghost before = words@;
                                words.push(w);
                                proof {
                                    assert(keys_of(words@) =~= keys_of(before).push((text@, d)));
                                    assert forall|k: int| 0 <= k < before.len() implies keys_of(
                                        before,
                                    )[k] != (text@, d) by {
                                        if k >= start.len() {
                                            let m = choose|m: int|
                                                0 <= m < j && before[k].word@ == views(found@)[m];
                                            assert(views(found@)[m] != views(found@)[j as int]);
                                        } else {
                                            assert(ordinal(start[k].direction) < i);
                                        }
                                    }
                                    assert forall|m: int|
                                        0 <= m < j + 1 && !views(used@).contains(views(found@)[m])
                                            implies #[trigger] keys_of(words@).contains(
                                        (views(found@)[m], d),
                                    ) by {
                                        if m < j {
                                            assert(keys_of(before).contains((views(found@)[m], d)));
                                            let k = choose|k: int|
                                                0 <= k < keys_of(before).len() && keys_of(before)[k]
                                                    == (views(found@)[m], d);
                                            assert(words@[k] == before[k]);
                                            assert(keys_of(words@)[k] == keys_of(before)[k]);
                                        } else {
                                            assert(keys_of(words@)[before.len() as int] == (
                                            text@, d));
                                        }
                                    }
                                    assert forall|k: int|
                                        start.len() <= k < words@.len() implies (
                                    #[trigger] words@[k]).direction == d && exists|m: int|
                                        0 <= m < j + 1 && words@[k].word@ == views(found@)[m] by {
                                        if k < before.len() {
                                            assert(words@[k] == before[k]);
                                        } else {
                                            assert(words@[k].word@ == views(found@)[j as int]);
                                        }
                                    }
                                }
                            } else {
                                proof {
                                    assert forall|m: int|
                                        0 <= m < j + 1 && !views(used@).contains(views(found@)[m])
                                            implies #[trigger] keys_of(words@).contains(
                                        (views(found@)[m], d),
                                    ) by {}
                                    assert forall|k: int|
                                        start.len() <= k < words@.len() implies (
                                    #[trigger] words@[k]).direction == d && exists|m: int|
                                        0 <= m < j + 1 && words@[k].word@ == views(found@)[m] by {
                                        let m = choose|m: int|
                                            0 <= m < j && words@[k].word@ == views(found@)[m];
                                    }
                                }
                            }
                            j = j + 1;
                        }
                        proof {
                            assert forall|k: int|
                                0 <= k < words@.len() implies ordinal(
                                (#[trigger] words@[k]).direction,
                            ) < i + 1 by {
                                if k < start.len() {
                                    assert(words@[k] == start[k]);
                                }
                            }
                            assert forall|dd: Direction, x: Seq<char>|
                                ordinal(dd) < i + 1 && seqs[ordinal(dd)].len() >= MIN_LEN
                                    && search_result(dict, seqs[ordinal(dd)]).contains(x)
                                    && !views(used@).contains(x) implies #[trigger] keys_of(
                                words@,
                            ).contains((x, dd)) by {
                                crate::direction::lemma_ordinal_round_trip(dd);
                                if ordinal(dd) < i {
                                    assert(keys_of(start).contains((x, dd)));
                                    let k = choose|k: int|
                                        0 <= k < keys_of(start).len() && keys_of(start)[k] == (
                                        x, dd);
                                    assert(keys_of(words@)[k] == keys_of(start)[k]);
                                } else {
                                    assert(dd == d);
                                    assert(views(found@).contains(x));
                                    let m = choose|m: int|
                                        0 <= m < views(found@).len() && views(found@)[m] == x;
                                    assert(keys_of(words@).contains((views(found@)[m], d)));
                                }
                            }
                        }
                    },
                    None => {},
                }
            } else {
                proof {
                    assert forall|dd: Direction, x: Seq<char>|
                        ordinal(dd) < i + 1 && seqs[ordinal(dd)].len() >= MIN_LEN && search_result(
                            dict,
                            seqs[ordinal(dd)],
                        ).contains(x) && !views(used@).contains(x) implies #[trigger] keys_of(
                        words@,
                    ).contains((x, dd)) by {
                        crate::direction::lemma_ordinal_round_trip(dd);
                        if ordinal(dd) == i {
                            assert(dd == d);
                        }
                    }
                }
            }
            i = i + 1;
        }
        proof {
            assert forall|d: Direction, x: Seq<char>|
                seqs[ordinal(d)].len() >= MIN_LEN && search_result(dict, seqs[ordinal(d)]).contains(x)
                    && !views(used@).contains(x) implies #[trigger] keys_of(words@).contains(
                (x, d),
            ) by {
                crate::direction::lemma_ordinal_round_trip(d);
            }
        }
        words
    }

    /// The least non-zero number of candidates over the cache entries, or 0
    /// when no entry has any.
    pub fn find_lowest_entropy(states: &Vec<Option<Vec<Word>>>) -> (r: usize)
        ensures
            r == min_entropy(states@),
    {
        let mut m: usize = 0;
        let mut i: usize = 0;
        while i < states.len()
            invariant
                i <= states@.len(),
                m == min_entropy(states@.subrange(0, i as int)),
            decreases states@.len() - i,
        {
            let e: usize = match &states[i] {
                Some(ws) => ws.len(),
                None => 0,
            };
            proof {
                let s = states@.subrange(0, i + 1);
                assert(s.drop_last() =~= states@.subrange(0, i as int));
                assert(s.last() == states@[i as int]);
            }
            if e != 0 && (m == 0 || e < m) {
                m = e;
            }
            i = i + 1;
        }
        assert(states@.subrange(0, states@.len() as int) =~= states@);
        m
    }

    /// The candidates of the entries that hold exactly `m`, entry by entry.
    pub fn lowest_entropy_words(states: &Vec<Option<Vec<Word>>>, m: usize) -> (r: Vec<Word>)
        ensures
            r@ == pooled(states@, m as nat),
    {
        let mut r: Vec<Word> = Vec::new();
        let mut i: usize = 0;
        while i < states.len()
            invariant
                i <= states@.len(),
                r@ == pooled(states@.subrange(0, i as int), m as nat),
            decreases states@.len() - i,
        {
            proof {
                let s = states@.subrange(0, i + 1);
                assert(s.drop_last() =~= states@.subrange(0, i as int));
                assert(s.last() == states@[i as int]);
            }
            match &states[i] {
                Some(ws) => {
                    if ws.len() == m {
                        let ghost before = r@;
                        let mut j: usize = 0;
                        while j < ws.len()
                            invariant
                                j <= ws@.len(),
                                r@ == before + ws@.subrange(0, j as int),
                            decreases ws@.len() - j,
                        {
                            r.push(ws[j].duplicate());
                            assert(r@ =~= before + ws@.subrange(0, j + 1));
                            j = j + 1;
                        }
                        assert(ws@.subrange(0, ws@.len() as int) =~= ws@);
                    }
                },
                None => {},
            }
            i = i + 1;
        }
        assert(states@.subrange(0, states@.len() as int) =~= states@);
        r
    }

    /// The candidates of the lowest-entropy entries, in random order; none
    /// when no entry has a candidate.
    pub fn find_random_lowest_entropy_words(states: &Vec<Option<Vec<Word>>>) -> (r: Vec<Word>)
        ensures
            r@.to_multiset() == pooled(states@, min_entropy(states@)).to_multiset(),
            min_entropy(states@) == 0 ==> r@.len() == 0,
    {
        let m = WFC::find_lowest_entropy(states);
        if m == 0 {
            let r: Vec<Word> = Vec::new();
            proof {
                lemma_pooled_zero(states@);
            }
            return r;
        }
        let mut r = WFC::lowest_entropy_words(states, m);
        shuffle(&mut r);
        r
    }
}

/// With no entry of positive entropy to pick, nothing is pooled.
proof fn lemma_pooled_zero(states: Seq<Option<Vec<Word>>>)
    requires
        min_entropy(states) == 0,
    ensures
        pooled(states, 0) =~= Seq::<Word>::empty(),
    decreases states.len(),
{
    if states.len() > 0 {
        lemma_pooled_zero(states.drop_last());
        if entropy(states.last()) == 0 && states.last() is Some {
            assert(states.last()->0@ =~= Seq::<Word>::empty());
        }
    }
}

/// Whatever is pooled comes from some entry.
pub proof fn lemma_pooled_from_entry(states: Seq<Option<Vec<Word>>>, m: nat, w: Word)
    requires
        pooled(states, m).contains(w),
    ensures
        exists|i: int|
            0 <= i < states.len() && states[i] is Some && (#[trigger] states[i])->0@.contains(w),
    decreases states.len(),
{
    let rest = pooled(states.drop_last(), m);
    if rest.contains(w) {
        lemma_pooled_from_entry(states.drop_last(), m, w);
        let i = choose|i: int|
            0 <= i < states.drop_last().len() && states.drop_last()[i] is Some && (
            #[trigger] states.drop_last()[i])->0@.contains(w);
        assert(states[i] == states.drop_last()[i]);
    } else {
        let n = states.len() - 1;
        let k = choose|k: int| 0 <= k < pooled(states, m).len() && pooled(states, m)[k] == w;
        assert(states.last() is Some);
        assert(states.last()->0@[k - rest.len()] == w);
        assert(states[n] == states.last());
    }
}

} // verus!
