//! The frequency table: a mapping from lowercase words to occurrence counts,
//! viewed as a `Map<Seq<char>, u64>`.

use vstd::prelude::*;
use crate::letters::{is_lower, is_lower_word};

verus! {

/// A word-frequency table. Keys are words of lowercase ASCII letters, each
/// held once; the value is the word's occurrence count.
pub struct FrequencyTable {
    entries: Vec<(String, u64)>,
}

impl FrequencyTable {
    #[verifier::type_invariant]
    closed spec fn wf(&self) -> bool {
        &&& forall|i: int, j: int|
            0 <= i < j < self.entries@.len() ==> self.entries@[i].0@ != self.entries@[j].0@
        &&& forall|i: int|
            0 <= i < self.entries@.len() ==> is_lower_word(#[trigger] self.entries@[i].0@)
    }

    /// The mapping this table holds: each stored word to its count.
    pub closed spec fn view(&self) -> Map<Seq<char>, u64> {
        Map::new(
            |w: Seq<char>|
                exists|i: int| 0 <= i < self.entries@.len() && #[trigger] self.entries@[i].0@ == w,
            |w: Seq<char>|
                self.entries@[choose|i: int|
                    0 <= i < self.entries@.len() && #[trigger] self.entries@[i].0@ == w].1,
        )
    }

    proof fn lemma_view_at(&self, k: int)
        requires
            self.wf(),
            0 <= k < self.entries@.len(),
        ensures
            self@.dom().contains(self.entries@[k].0@),
            self@[self.entries@[k].0@] == self.entries@[k].1,
    {
        let w = self.entries@[k].0@;
        assert(self@.dom().contains(w));
        let i = choose|i: int| 0 <= i < self.entries@.len() && #[trigger] self.entries@[i].0@ == w;
        if i != k {
            if i < k {
                assert(self.entries@[i].0@ != self.entries@[k].0@);
            } else {
                assert(self.entries@[k].0@ != self.entries@[i].0@);
            }
        }
    }

    proof fn lemma_view_lookup(&self, x: Seq<char>)
        requires
            self.wf(),
            self@.dom().contains(x),
        ensures
            exists|k: int|
                0 <= k < self.entries@.len() && #[trigger] self.entries@[k].0@ == x
                    && self.entries@[k].1 == self@[x],
    {
        let i = choose|i: int| 0 <= i < self.entries@.len() && #[trigger] self.entries@[i].0@ == x;
        self.lemma_view_at(i);
    }

    /// An empty table.
    pub fn new() -> (t: Self)
        ensures
            t@ == Map::<Seq<char>, u64>::empty(),
    {
        let t = FrequencyTable { entries: Vec::new() };
        proof {
            assert(t@ =~= Map::<Seq<char>, u64>::empty());
        }
        t
    }

    fn find(&self, word: &String) -> (r: Option<usize>)
        ensures
            r matches Some(j) ==> j < self.entries@.len() && self.entries@[j as int].0@ == word@,
            r is None ==> forall|k: int|
                0 <= k < self.entries@.len() ==> #[trigger] self.entries@[k].0@ != word@,
    {
        let mut j: usize = 0;
        while j < self.entries.len()
            invariant
                j <= self.entries@.len(),
                forall|k: int| 0 <= k < j ==> #[trigger] self.entries@[k].0@ != word@,
            decreases self.entries@.len() - j,
        {
            if self.entries[j].0 == *word {
                return Some(j);
            }
            j = j + 1;
        }
        None
    }

    /// Whether `word` is in the vocabulary this table holds.
    pub fn contains_key(&self, word: &String) -> (b: bool)
        ensures
            b == self@.dom().contains(word@),
    {
        proof {
            use_type_invariant(self);
        }
        let r = self.find(word);
        proof {
            if r is Some {
                self.lemma_view_at(r.unwrap() as int);
            }
        }
        r.is_some()
    }

    /// The count stored for `word`, or `None` when `word` is not a key.
    pub fn get(&self, word: &String) -> (r: Option<u64>)
        ensures
            r == if self@.dom().contains(word@) {
                Some(self@[word@])
            } else {
                None::<u64>
            },
    {
        proof {
            use_type_invariant(self);
        }
        match self.find(word) {
            Some(j) => {
                proof {
                    self.lemma_view_at(j as int);
                }
                Some(self.entries[j].1)
            },
            None => None,
        }
    }

    /// Puts `word` in the table with the given count. Succeeds if and only if
    /// `word` is all lowercase letters and not yet a key; a failed call
    /// leaves the table as it was.
    pub fn insert(&mut self, word: String, count: u64) -> (ok: bool)
        ensures
            ok == (is_lower_word(word@) && !old(self)@.dom().contains(word@)),
            ok ==> final(self)@ == old(self)@.insert(word@, count),
            !ok ==> final(self)@ == old(self)@,
    {
        proof {
            use_type_invariant(&*self);
        }
        if !is_lower_string(&word) {
            return false;
        }
        if self.contains_key(&word) {
            return false;
        }
        let ghost oldv = self@;
        let ghost olde = self.entries@;
        let ghost wv = word@;
        let mut es: Vec<(String, u64)> = Vec::new();
        std::mem::swap(&mut es, &mut self.entries);
        es.push((word, count));
        self.entries = es;
        proof {
            self.lemma_push_view(olde, oldv, wv, count);
        }
        true
    }

    proof fn lemma_push_view(&self, olde: Seq<(String, u64)>, oldv: Map<Seq<char>, u64>, wv: Seq<char>, count: u64)
        requires
            self.wf(),
            self.entries@.len() == olde.len() + 1,
            forall|k: int| 0 <= k < olde.len() ==> self.entries@[k] == olde[k],
            self.entries@.last().0@ == wv,
            self.entries@.last().1 == count,
            oldv == Map::<Seq<char>, u64>::new(
                |w: Seq<char>| exists|i: int| 0 <= i < olde.len() && #[trigger] olde[i].0@ == w,
                |w: Seq<char>| olde[choose|i: int| 0 <= i < olde.len() && #[trigger] olde[i].0@ == w].1,
            ),
        ensures
            self@ == oldv.insert(wv, count),
    {
        let n = olde.len() as int;
        assert forall|x: Seq<char>| #[trigger]
            self@.dom().contains(x) <==> oldv.insert(wv, count).dom().contains(x) by {
            if self@.dom().contains(x) {
                let i = choose|i: int|
                    0 <= i < self.entries@.len() && #[trigger] self.entries@[i].0@ == x;
                if i < n {
                    assert(olde[i].0@ == x);
                    assert(oldv.dom().contains(x));
                }
            }
            if x != wv && oldv.dom().contains(x) {
                let i = choose|i: int| 0 <= i < olde.len() && #[trigger] olde[i].0@ == x;
                assert(self.entries@[i].0@ == x);
                assert(self@.dom().contains(x));
            }
            if x == wv {
                assert(self.entries@[n].0@ == x);
                assert(self@.dom().contains(x));
            }
        }
        assert forall|x: Seq<char>| #[trigger] self@.dom().contains(x) implies self@[x]
            == oldv.insert(wv, count)[x] by {
            self.lemma_view_lookup(x);
            let k = choose|k: int|
                0 <= k < self.entries@.len() && #[trigger] self.entries@[k].0@ == x
                    && self.entries@[k].1 == self@[x];
            if x == wv {
                if k < n {
                    assert(self.entries@[k].0@ != self.entries@[n].0@);
                }
                assert(self@[x] == count);
            } else {
                assert(k < n);
                assert(olde[k].0@ == x);
                let i = choose|i: int| 0 <= i < olde.len() && #[trigger] olde[i].0@ == x;
                if i != k {
                    if i < k {
                        assert(self.entries@[i].0@ != self.entries@[k].0@);
                    } else {
                        assert(self.entries@[k].0@ != self.entries@[i].0@);
                    }
                }
                assert(oldv[x] == olde[k].1);
            }
        }
        assert(self@ =~= oldv.insert(wv, count));
    }

    /// Adds one occurrence of `word`: inserts it with count 1 when new, and
    /// raises its count by one when already present.
    pub fn increment(&mut self, word: String)
        requires
            is_lower_word(word@),
            old(self)@.dom().contains(word@) ==> old(self)@[word@] < u64::MAX,
        ensures
            final(self)@ == if old(self)@.dom().contains(word@) {
                old(self)@.insert(word@, (old(self)@[word@] + 1) as u64)
            } else {
                old(self)@.insert(word@, 1u64)
            },
    {
        proof {
            use_type_invariant(&*self);
        }
        let ghost oldv = self@;
        let ghost olde = self.entries@;
        let ghost wv = word@;
        match self.find(&word) {
            Some(j) => {
                proof {
                    self.lemma_view_at(j as int);
                }
                let c = self.entries[j].1;
                let mut es: Vec<(String, u64)> = Vec::new();
                std::mem::swap(&mut es, &mut self.entries);
                es[j].1 = c + 1;
                self.entries = es;
                proof {
                    self.lemma_update_view(olde, oldv, j as int, (c + 1) as u64);
                }
            },
            None => {
                let mut es: Vec<(String, u64)> = Vec::new();
                std::mem::swap(&mut es, &mut self.entries);
                es.push((word, 1));
                self.entries = es;
                proof {
                    self.lemma_push_view(olde, oldv, wv, 1u64);
                }
            },
        }
    }

    proof fn lemma_update_view(&self, olde: Seq<(String, u64)>, oldv: Map<Seq<char>, u64>, j: int, count: u64)
        requires
            self.wf(),
            0 <= j < olde.len(),
            self.entries@.len() == olde.len(),
            forall|k: int| 0 <= k < olde.len() && k != j ==> self.entries@[k] == olde[k],
            self.entries@[j].0@ == olde[j].0@,
            self.entries@[j].1 == count,
            oldv == Map::<Seq<char>, u64>::new(
                |w: Seq<char>| exists|i: int| 0 <= i < olde.len() && #[trigger] olde[i].0@ == w,
                |w: Seq<char>| olde[choose|i: int| 0 <= i < olde.len() && #[trigger] olde[i].0@ == w].1,
            ),
        ensures
            self@ == oldv.insert(olde[j].0@, count),
    {
        let wv = olde[j].0@;
        assert forall|x: Seq<char>| #[trigger]
            self@.dom().contains(x) <==> oldv.insert(wv, count).dom().contains(x) by {
            if self@.dom().contains(x) {
                let i = choose|i: int|
                    0 <= i < self.entries@.len() && #[trigger] self.entries@[i].0@ == x;
                assert(olde[i].0@ == x);
                assert(oldv.dom().contains(x));
            }
            if oldv.dom().contains(x) {
                let i = choose|i: int| 0 <= i < olde.len() && #[trigger] olde[i].0@ == x;
                assert(self.entries@[i].0@ == x);
                assert(self@.dom().contains(x));
            }
        }
        assert forall|x: Seq<char>| #[trigger] self@.dom().contains(x) implies self@[x]
            == oldv.insert(wv, count)[x] by {
            self.lemma_view_lookup(x);
            let k = choose|k: int|
                0 <= k < self.entries@.len() && #[trigger] self.entries@[k].0@ == x
                    && self.entries@[k].1 == self@[x];
            if x == wv {
                if k != j {
                    if k < j {
                        assert(self.entries@[k].0@ != self.entries@[j].0@);
                    } else {
                        assert(self.entries@[j].0@ != self.entries@[k].0@);
                    }
                }
                assert(self@[x] == count);
            } else {
                assert(k != j);
                assert(olde[k].0@ == x);
                let i = choose|i: int| 0 <= i < olde.len() && #[trigger] olde[i].0@ == x;
                if i != k {
                    if i < k {
                        assert(self.entries@[i].0@ != self.entries@[k].0@);
                    } else {
                        assert(self.entries@[k].0@ != self.entries@[i].0@);
                    }
                }
                assert(oldv[x] == olde[k].1);
            }
        }
        assert(self@ =~= oldv.insert(wv, count));
    }

    /// All key-count pairs of the table, each key once, in the table's own
    /// order.
    pub fn pairs(&self) -> (r: Vec<(String, u64)>)
        ensures
            forall|i: int|
                0 <= i < r@.len() ==> self@.dom().contains(#[trigger] r@[i].0@) && self@[r@[i].0@]
                    == r@[i].1,
            forall|x: Seq<char>| #[trigger]
                self@.dom().contains(x) ==> exists|i: int| 0 <= i < r@.len() && r@[i].0@ == x,
            forall|i: int, j: int| 0 <= i < j < r@.len() ==> r@[i].0@ != r@[j].0@,
    {
        proof {
            use_type_invariant(self);
        }
        let mut r: Vec<(String, u64)> = Vec::new();
        let mut j: usize = 0;
        while j < self.entries.len()
            invariant
                self.wf(),
                j <= self.entries@.len(),
                r@.len() == j,
                forall|k: int| 0 <= k < j ==> #[trigger] r@[k] == self.entries@[k],
            decreases self.entries@.len() - j,
        {
            let w = self.entries[j].0.clone();
            let c = self.entries[j].1;
            r.push((w, c));
            j = j + 1;
        }
        proof {
            assert forall|i: int|
                0 <= i < r@.len() implies self@.dom().contains(#[trigger] r@[i].0@) && self@[r@[i].0@]
                == r@[i].1 by {
                self.lemma_view_at(i);
            }
            assert forall|x: Seq<char>| #[trigger] self@.dom().contains(x) implies exists|i: int|
                0 <= i < r@.len() && r@[i].0@ == x by {
                self.lemma_view_lookup(x);
                let k = choose|k: int|
                    0 <= k < self.entries@.len() && #[trigger] self.entries@[k].0@ == x
                        && self.entries@[k].1 == self@[x];
                assert(r@[k].0@ == x);
            }
        }
        r
    }

    /// Rebuilds a table from key-count pairs. Succeeds if and only if every
    /// key is all lowercase letters and no key repeats; the table then maps
    /// exactly the given keys to the given counts.
    pub fn from_pairs(pairs: &Vec<(String, u64)>) -> (r: Option<FrequencyTable>)
        ensures
            r matches Some(t) ==> {
                &&& forall|i: int|
                    0 <= i < pairs@.len() ==> t@.dom().contains(#[trigger] pairs@[i].0@)
                        && t@[pairs@[i].0@] == pairs@[i].1
                &&& forall|x: Seq<char>| #[trigger]
                    t@.dom().contains(x) ==> exists|i: int| 0 <= i < pairs@.len() && pairs@[i].0@
                        == x
            },
            (r is Some) <==> ((forall|i: int|
                0 <= i < pairs@.len() ==> is_lower_word(#[trigger] pairs@[i].0@)) && (forall|
                i: int,
                j: int,
            |
                0 <= i < j < pairs@.len() ==> pairs@[i].0@ != pairs@[j].0@)),
    {
        let mut t = FrequencyTable::new();
        let mut j: usize = 0;
        while j < pairs.len()
            invariant
                j <= pairs@.len(),
                forall|i: int| 0 <= i < j ==> is_lower_word(#[trigger] pairs@[i].0@),
                forall|i: int, k: int| 0 <= i < k < j ==> pairs@[i].0@ != pairs@[k].0@,
                forall|i: int|
                    0 <= i < j ==> t@.dom().contains(#[trigger] pairs@[i].0@) && t@[pairs@[i].0@]
                        == pairs@[i].1,
                forall|x: Seq<char>| #[trigger]
                    t@.dom().contains(x) ==> exists|i: int| 0 <= i < j && pairs@[i].0@ == x,
            decreases pairs@.len() - j,
        {
            let w = pairs[j].0.clone();
            let c = pairs[j].1;
            let ok = t.insert(w, c);
            if !ok {
                return None;
            }
            j = j + 1;
        }
        Some(t)
    }
}

/// Whether every character of `word` is a lowercase ASCII letter.
pub fn is_lower_string(word: &String) -> (b: bool)
    ensures
        b == is_lower_word(word@),
{
    let s = word.as_str();
    let len = s.unicode_len();
    let mut i: usize = 0;
    while i < len
        invariant
            len == word@.len(),
            s@ == word@,
            i <= len,
            forall|k: int| 0 <= k < i ==> is_lower(#[trigger] word@[k]),
        decreases len - i,
    {
        let c = s.get_char(i);
        let u = c as u32;
        if !(97 <= u && u <= 122) {
            return false;
        }
        i = i + 1;
    }
    true
}

/// The frequency count stored for `word`, which must be in the vocabulary.
pub fn probability(words: &FrequencyTable, word: &String) -> (p: u64)
    requires
        words@.dom().contains(word@),
    ensures
        p == words@[word@],
{
    match words.get(word) {
        Some(c) => c,
        None => 0,
    }
}

} // verus!
