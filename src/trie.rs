//! A prefix tree over dictionary words, with wildcard lookup.
use vstd::prelude::*;
use crate::text::{chars_of, string_of};
use crate::{PuzzleError, MIN_LEN};

verus! {

/// The character that matches any single character in a pattern.
pub const WILDCARD: char = '?';

/// `w` fits `p`: same length, and equal wherever `p` is not a wildcard.
pub open spec fn matches(w: Seq<char>, p: Seq<char>) -> bool {
    &&& w.len() == p.len()
    &&& forall|i: int| 0 <= i < p.len() ==> (p[i] == WILDCARD || #[trigger] w[i] == p[i])
}

/// The views of a list of strings.
pub open spec fn views(r: Seq<String>) -> Seq<Seq<char>> {
    r.map_values(|x: String| x@)
}

/// `r` lists the members of `s`, each once.
pub open spec fn lists_exactly(r: Seq<Seq<char>>, s: Set<Seq<char>>) -> bool {
    &&& r.no_duplicates()
    &&& forall|x: Seq<char>| #[trigger] r.contains(x) <==> s.contains(x)
}

/// A node of the tree: its children, keyed by character, and whether the
/// path to it spells a word.
pub struct TrieNode {
    keys: Vec<char>,
    nodes: Vec<TrieNode>,
    eow: bool,
}

/// The dictionary: a tree whose root-to-terminal paths spell its words.
pub struct Trie {
    root: TrieNode,
}

impl TrieNode {
    /// Children are paired with distinct keys, at every level.
    pub closed spec fn wf(&self) -> bool
        decreases self,
    {
        &&& self.keys@.len() == self.nodes@.len()
        &&& self.keys@.no_duplicates()
        &&& forall|j: int| 0 <= j < self.nodes@.len() ==> (#[trigger] self.nodes@[j]).wf()
    }

    /// `t` is spelled from this node down to a terminal.
    pub closed spec fn holds(&self, t: Seq<char>) -> bool
        decreases t.len(),
    {
        if t.len() == 0 {
            self.eow
        } else {
            exists|j: int|
                0 <= j < self.keys@.len() && j < self.nodes@.len() && self.keys@[j] == t[0]
                    && (#[trigger] self.nodes@[j]).holds(t.drop_first())
        }
    }

    fn new() -> (r: TrieNode)
        ensures
            r.wf(),
            forall|t: Seq<char>| !r.holds(t),
    {
        let r = TrieNode { keys: Vec::new(), nodes: Vec::new(), eow: false };
        assert forall|t: Seq<char>| !r.holds(t) by {
            reveal_with_fuel(TrieNode::holds, 2);
        }
        r
    }

    /// Adds `w[i..]` below this node.
    fn insert_from(&mut self, w: &Vec<char>, i: usize)
        requires
            old(self).wf(),
            i <= w@.len(),
        ensures
            final(self).wf(),
            forall|t: Seq<char>|
                #[trigger] final(self).holds(t) <==> (old(self).holds(t) || t == w@.subrange(
                    i as int,
                    w@.len() as int,
                )),
        decreases w@.len() - i,
    {
        if i == w.len() {
            self.eow = true;
            assert forall|t: Seq<char>|
                #[trigger] self.holds(t) <==> (old(self).holds(t) || t == w@.subrange(
                    i as int,
                    w@.len() as int,
                )) by {
                if t.len() == 0 {
                    assert(t =~= w@.subrange(i as int, w@.len() as int));
                }
            }
            return;
        }
        let c = w[i];
        let mut j: usize = 0;
        while j < self.keys.len()
            invariant
                j <= self.keys@.len(),
                forall|k: int| 0 <= k < j ==> self.keys@[k] != c,
            ensures
                j <= self.keys@.len(),
                j < self.keys@.len() ==> self.keys@[j as int] == c,
                forall|k: int| 0 <= k < j ==> self.keys@[k] != c,
            decreases self.keys@.len() - j,
        {
            if self.keys[j] == c {
                break;
            }
            j = j + 1;
        }
        if j == self.keys.len() {
            self.keys.push(c);
            self.nodes.push(TrieNode::new());
            assert(self.keys@.no_duplicates());
        }
        assert(self.keys@[j as int] == c);
        assert(self.nodes@[j as int].wf());
        let ghost before = *self;
        self.nodes[j].insert_from(w, i + 1);
        let ghost suffix = w@.subrange(i as int, w@.len() as int);
        assert(suffix.drop_first() =~= w@.subrange(i + 1, w@.len() as int));
        assert forall|t: Seq<char>|
            #[trigger] self.holds(t) <==> (old(self).holds(t) || t == suffix) by {
            if t.len() > 0 {
                if self.holds(t) {
                    let k = choose|k: int|
                        0 <= k < self.keys@.len() && k < self.nodes@.len() && self.keys@[k] == t[0]
                            && (#[trigger] self.nodes@[k]).holds(t.drop_first());
                    if k != j {
                        assert(old(self).nodes@[k] == self.nodes@[k]);
                    } else if t.drop_first() != suffix.drop_first() {
                        assert(before.nodes@[k].holds(t.drop_first()));
                        if k < old(self).nodes@.len() {
                            assert(old(self).nodes@[k] == before.nodes@[k]);
                            assert(old(self).nodes@[k].holds(t.drop_first()));
                        } else {
                            assert(!before.nodes@[k].holds(t.drop_first()));
                        }
                    } else {
                        assert(t[0] == suffix[0]);
                        assert forall|x: int| 0 <= x < t.len() implies t[x] == suffix[x] by {
                            if x > 0 {
                                assert(t[x] == t.drop_first()[x - 1]);
                                assert(suffix[x] == suffix.drop_first()[x - 1]);
                            }
                        }
                        assert(t =~= suffix);
                    }
                }
                if old(self).holds(t) {
                    let k = choose|k: int|
                        0 <= k < old(self).keys@.len() && k < old(self).nodes@.len()
                            && old(self).keys@[k] == t[0] && (#[trigger] old(
                            self,
                        ).nodes@[k]).holds(t.drop_first());
                    assert(before.nodes@[k] == old(self).nodes@[k]);
                    if k != j {
                        assert(self.nodes@[k] == old(self).nodes@[k]);
                    }
                    assert(self.nodes@[k].holds(t.drop_first()));
                }
                if t == suffix {
                    assert(self.nodes@[j as int].holds(t.drop_first()));
                }
            } else {
                assert(t != suffix);
            }
        }
    }

    /// The words of length `|p|` that fit `p`, start with `path`, and go on
    /// with a suffix spelled below this node.
    pub closed spec fn below(&self, path: Seq<char>, p: Seq<char>) -> Set<Seq<char>> {
        Set::new(
            |x: Seq<char>|
                x.len() == p.len() && path.len() <= p.len() && x.subrange(0, path.len() as int)
                    == path && self.holds(x.subrange(path.len() as int, x.len() as int))
                    && matches(x, p),
        )
    }

    proof fn lemma_below_step(&self, path: Seq<char>, p: Seq<char>, x: Seq<char>)
        requires
            self.wf(),
            path.len() < p.len(),
        ensures
            self.below(path, p).contains(x) <==> exists|j: int|
                0 <= j < self.nodes@.len() && (#[trigger] self.nodes@[j]).below(
                    path.push(self.keys@[j]),
                    p,
                ).contains(x),
    {
        let idx = path.len() as int;
        if x.len() == p.len() && x.subrange(0, idx) == path {
            let t = x.subrange(idx, x.len() as int);
            assert(t.drop_first() =~= x.subrange(idx + 1, x.len() as int));
            assert(x.subrange(0, idx + 1) =~= path.push(x[idx]));
            if self.below(path, p).contains(x) {
                let j = choose|j: int|
                    0 <= j < self.keys@.len() && j < self.nodes@.len() && self.keys@[j] == t[0]
                        && (#[trigger] self.nodes@[j]).holds(t.drop_first());
                assert(self.nodes@[j].below(path.push(self.keys@[j]), p).contains(x));
            }
            if exists|j: int|
                0 <= j < self.nodes@.len() && (#[trigger] self.nodes@[j]).below(
                    path.push(self.keys@[j]),
                    p,
                ).contains(x) {
                let j = choose|j: int|
                    0 <= j < self.nodes@.len() && (#[trigger] self.nodes@[j]).below(
                        path.push(self.keys@[j]),
                        p,
                    ).contains(x);
                assert(x.subrange(0, idx + 1)[idx] == self.keys@[j]);
                assert(self.holds(t));
            }
        } else {
            assert forall|j: int| 0 <= j < self.nodes@.len() implies !(
            #[trigger] self.nodes@[j]).below(path.push(self.keys@[j]), p).contains(x) by {
                if x.len() == p.len() && x.subrange(0, idx + 1) == path.push(self.keys@[j]) {
                    assert(x.subrange(0, idx) =~= path.push(self.keys@[j]).subrange(0, idx));
                    assert(path.push(self.keys@[j]).subrange(0, idx) =~= path);
                }
            }
        }
    }

    /// Appends to `items` the words of `below(path, p)`.
    fn dfs_pattern_search(&self, p: &Vec<char>, path: &mut Vec<char>, items: &mut Vec<String>)
        requires
            self.wf(),
            old(path)@.len() <= p@.len(),
            forall|i: int|
                0 <= i < old(path)@.len() ==> p@[i] == WILDCARD || #[trigger] old(path)@[i]
                    == p@[i],
            views(old(items)@).no_duplicates(),
            forall|x: Seq<char>|
                #[trigger] views(old(items)@).contains(x) ==> !self.below(old(path)@, p@).contains(
                    x,
                ),
        ensures
            final(path)@ == old(path)@,
            views(final(items)@).no_duplicates(),
            forall|x: Seq<char>| #[trigger]
                views(final(items)@).contains(x) <==> (views(old(items)@).contains(x)
                    || self.below(old(path)@, p@).contains(x)),
        decreases p@.len() - old(path)@.len(),
    {
        let ghost path0 = path@;
        let ghost items0 = views(items@);
        let idx = path.len();
        if idx == p.len() {
            if self.eow {
                assert forall|x: Seq<char>|
                    self.below(path0, p@).contains(x) <==> x == path0 by {
                    if x == path0 {
                        assert(x.subrange(0, idx as int) =~= x);
                        assert(x.subrange(idx as int, x.len() as int) =~= Seq::<char>::empty());
                        assert(matches(x, p@));
                    }
                    if self.below(path0, p@).contains(x) {
                        assert(x =~= x.subrange(0, idx as int));
                    }
                }
                assert(self.below(path0, p@).contains(path0));
                assert(!items0.contains(path0));
                let w = string_of(path);
                items.push(w);
                assert(views(items@) =~= items0.push(path0));
                assert(views(items@).no_duplicates());
                assert forall|x: Seq<char>| #[trigger]
                    views(items@).contains(x) <==> (items0.contains(x) || x == path0) by {
                    if x == path0 {
                        assert(views(items@)[items0.len() as int] == x);
                    }
                    if items0.contains(x) {
                        let k = choose|k: int| 0 <= k < items0.len() && items0[k] == x;
                        assert(views(items@)[k] == x);
                    }
                }
            } else {
                assert forall|x: Seq<char>| !self.below(path0, p@).contains(x) by {
                    if x.len() == p@.len() {
                        assert(x.subrange(idx as int, x.len() as int) =~= Seq::<char>::empty());
                    }
                }
            }
            return;
        }
        let c = p[idx];
        if c == WILDCARD {
            let mut j: usize = 0;
            while j < self.nodes.len()
                invariant
                    self.wf(),
                    path@ == path0,
                    path0 == old(path)@,
                    idx == path0.len(),
                    idx < p@.len(),
                    p@[idx as int] == WILDCARD,
                    j <= self.nodes@.len(),
                    forall|i: int|
                        0 <= i < path0.len() ==> p@[i] == WILDCARD || #[trigger] path0[i] == p@[i],
                    views(items@).no_duplicates(),
                    forall|x: Seq<char>|
                        #[trigger] items0.contains(x) ==> !self.below(path0, p@).contains(x),
                    forall|x: Seq<char>| #[trigger]
                        views(items@).contains(x) <==> (items0.contains(x) || exists|k: int|
                            0 <= k < j && (#[trigger] self.nodes@[k]).below(
                                path0.push(self.keys@[k]),
                                p@,
                            ).contains(x)),
                decreases self.nodes@.len() - j,
            {
                let ghost before = views(items@);
                let key = self.keys[j];
                path.push(key);
                assert(path@.len() == idx + 1);
                assert forall|x: Seq<char>| #[trigger]
                    before.contains(x) implies !self.nodes@[j as int].below(path@, p@).contains(x) by {
                    if self.nodes@[j as int].below(path@, p@).contains(x) {
                        self.lemma_below_step(path0, p@, x);
                        if !items0.contains(x) {
                            let k = choose|k: int|
                                0 <= k < j && (#[trigger] self.nodes@[k]).below(
                                    path0.push(self.keys@[k]),
                                    p@,
                                ).contains(x);
                            assert(x.subrange(0, idx + 1)[idx as int] == self.keys@[k]);
                            assert(x.subrange(0, idx + 1)[idx as int] == self.keys@[j as int]);
                        }
                    }
                }
                self.nodes[j].dfs_pattern_search(p, path, items);
                path.pop();
                assert(path@ =~= path0);
                assert forall|x: Seq<char>| #[trigger]
                    views(items@).contains(x) <==> (items0.contains(x) || exists|k: int|
                        0 <= k < j + 1 && (#[trigger] self.nodes@[k]).below(
                            path0.push(self.keys@[k]),
                            p@,
                        ).contains(x)) by {
                    if self.nodes@[j as int].below(path0.push(self.keys@[j as int]), p@).contains(x) {
                        assert(0 <= j < j + 1);
                    }
                }
                j = j + 1;
            }
            assert forall|x: Seq<char>| #[trigger]
                views(items@).contains(x) <==> (items0.contains(x) || self.below(path0, p@).contains(x)) by {
                self.lemma_below_step(path0, p@, x);
            }
        } else {
            let mut j: usize = 0;
            while j < self.keys.len()
                invariant
                    j <= self.keys@.len(),
                    forall|k: int| 0 <= k < j ==> self.keys@[k] != c,
                ensures
                    j <= self.keys@.len(),
                    j < self.keys@.len() ==> self.keys@[j as int] == c,
                    forall|k: int| 0 <= k < j ==> self.keys@[k] != c,
                decreases self.keys@.len() - j,
            {
                if self.keys[j] == c {
                    break;
                }
                j = j + 1;
            }
            assert forall|x: Seq<char>, k: int|
                0 <= k < self.nodes@.len() && k != j implies !#[trigger] self.nodes@[k].below(
                path0.push(self.keys@[k]),
                p@,
            ).contains(x) by {
                if self.nodes@[k].below(path0.push(self.keys@[k]), p@).contains(x) {
                    assert(x.subrange(0, idx + 1)[idx as int] == self.keys@[k]);
                    if k < j {
                    } else {
                        assert(self.keys@[j as int] == c);
                        assert(self.keys@.no_duplicates());
                    }
                }
            }
            if j < self.keys.len() {
                path.push(c);
                assert forall|x: Seq<char>| #[trigger]
                    items0.contains(x) implies !self.nodes@[j as int].below(path@, p@).contains(x) by {
                    self.lemma_below_step(path0, p@, x);
                }
                self.nodes[j].dfs_pattern_search(p, path, items);
                path.pop();
                assert(path@ =~= path0);
                assert forall|x: Seq<char>| #[trigger]
                    views(items@).contains(x) <==> (items0.contains(x) || self.below(path0, p@).contains(x)) by {
                    self.lemma_below_step(path0, p@, x);
                }
            } else {
                assert forall|x: Seq<char>| !self.below(path0, p@).contains(x) by {
                    self.lemma_below_step(path0, p@, x);
                }
            }
        }
    }
}

impl View for Trie {
    type V = Set<Seq<char>>;

    /// The words in the dictionary.
    closed spec fn view(&self) -> Set<Seq<char>> {
        Set::new(|t: Seq<char>| self.root.holds(t))
    }
}

/// The dictionary words that fit pattern `p`.
pub open spec fn search_result(words: Set<Seq<char>>, p: Seq<char>) -> Set<Seq<char>> {
    words.filter(|w: Seq<char>| matches(w, p))
}

impl Trie {
    /// Every node pairs its children with distinct keys.
    pub closed spec fn wf(&self) -> bool {
        self.root.wf()
    }

    /// An empty dictionary.
    pub fn new() -> (r: Trie)
        ensures
            r.wf(),
            r@ == Set::<Seq<char>>::empty(),
    {
        let r = Trie { root: TrieNode::new() };
        assert(r@ =~= Set::<Seq<char>>::empty());
        r
    }

    /// Adds `word`, which must have at least `MIN_LEN` characters.
    pub fn insert(&mut self, word: &str) -> (r: Result<(), PuzzleError>)
        requires
            old(self).wf(),
        ensures
            final(self).wf(),
            word@.len() < MIN_LEN ==> r == Err::<(), PuzzleError>(PuzzleError::TooShort)
                && final(self)@ == old(self)@,
            word@.len() >= MIN_LEN ==> r is Ok && final(self)@ == old(self)@.insert(word@),
    {
        let w = chars_of(word);
        if w.len() < MIN_LEN {
            return Err(PuzzleError::TooShort);
        }
        self.root.insert_from(&w, 0);
        assert(w@.subrange(0, w@.len() as int) =~= w@);
        assert(self@ =~= old(self)@.insert(word@));
        Ok(())
    }

    /// The dictionary words that fit `sequence`, where `?` matches any
    /// character; each listed once, in no particular order.
    pub fn search(&self, sequence: &str) -> (r: Vec<String>)
        requires
            self.wf(),
        ensures
            lists_exactly(views(r@), search_result(self@, sequence@)),
    {
        let p = chars_of(sequence);
        let mut path: Vec<char> = Vec::new();
        let mut items: Vec<String> = Vec::new();
        assert(views(items@) =~= Seq::<Seq<char>>::empty());
        self.root.dfs_pattern_search(&p, &mut path, &mut items);
        assert forall|x: Seq<char>|
            #[trigger] views(items@).contains(x) <==> search_result(self@, sequence@).contains(x) by {
            assert(x.subrange(0, 0) =~= Seq::<char>::empty());
            assert(x.subrange(0, x.len() as int) =~= x);
        }
        items
    }
}

/// After one word is added to an empty dictionary, a search for that word
/// finds exactly that word.
pub proof fn law_insert_then_search(w: Seq<char>, r: Seq<Seq<char>>)
    requires
        lists_exactly(r, search_result(Set::<Seq<char>>::empty().insert(w), w)),
    ensures
        r.len() == 1,
        r[0] == w,
{
    let s = search_result(Set::<Seq<char>>::empty().insert(w), w);
    assert(s.contains(w));
    assert(r.contains(w));
    if r.len() >= 2 {
        assert(r.contains(r[0]));
        assert(r.contains(r[1]));
    }
}

/// A search lists every dictionary word of the pattern's length that agrees
/// with it at each non-wildcard position, and nothing else.
pub proof fn law_search_sound_and_complete(
    inserted: Set<Seq<char>>,
    dictionary: Set<Seq<char>>,
    p: Seq<char>,
    r: Seq<Seq<char>>,
)
    requires
        inserted.subset_of(dictionary),
        lists_exactly(r, search_result(dictionary, p)),
    ensures
        forall|w: Seq<char>|
            inserted.contains(w) && w.len() == p.len() && (forall|i: int|
                0 <= i < p.len() && p[i] != WILDCARD ==> w[i] == p[i]) ==> #[trigger] r.contains(w),
        forall|x: Seq<char>|
            #[trigger] r.contains(x) ==> x.len() == p.len() && forall|i: int|
                0 <= i < p.len() && p[i] != WILDCARD ==> x[i] == p[i],
{
    assert forall|w: Seq<char>|
        inserted.contains(w) && w.len() == p.len() && (forall|i: int|
            0 <= i < p.len() && p[i] != WILDCARD ==> w[i] == p[i]) implies #[trigger] r.contains(w) by {
        assert(matches(w, p));
        assert(search_result(dictionary, p).contains(w));
    }
    assert forall|x: Seq<char>| #[trigger] r.contains(x) implies x.len() == p.len() && forall|i: int|
        0 <= i < p.len() && p[i] != WILDCARD ==> x[i] == p[i] by {
        assert(search_result(dictionary, p).contains(x));
        assert(matches(x, p));
    }
}

} // verus!
