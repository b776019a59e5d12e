//! The corrector: exact match, then known one-edit candidates, then known
//! two-edit candidates, then fallback; within a tier the candidate with the
//! highest frequency wins.

use vstd::prelude::*;
use crate::edits::{cand_set, one_edit_words, one_edits, two_edit_words, two_edits};
use crate::table::{probability, FrequencyTable};

verus! {

/// The outcome of one correction request: the proposed word, the edit
/// distance tier it was found at (0 exact, 1 one edit and also the fallback
/// tier, 2 two edits), and whether the proposed word is in the vocabulary.
#[derive(Clone, Debug)]
pub struct CorrectionResult {
    pub correct_word: String,
    pub edits: u64,
    pub found: bool,
}

/// The one-edit neighbours of `w` that are in the vocabulary `t`.
pub open spec fn known_one(w: Seq<char>, t: Map<Seq<char>, u64>) -> Set<Seq<char>> {
    one_edits(w).intersect(t.dom())
}

/// The two-edit neighbours of `w` that are in the vocabulary `t`.
pub open spec fn known_two(w: Seq<char>, t: Map<Seq<char>, u64>) -> Set<Seq<char>> {
    two_edits(w).intersect(t.dom())
}

/// What a correction of `w` against the vocabulary `t` must return: the
/// word itself at tier 0 when known; otherwise a known one-edit neighbour of
/// maximal frequency at tier 1 when one exists; otherwise a known two-edit
/// neighbour of maximal frequency at tier 2 when one exists; otherwise `w`
/// itself, not found, at tier 1.
pub open spec fn correct_spec(
    w: Seq<char>,
    t: Map<Seq<char>, u64>,
    cw: Seq<char>,
    edits: u64,
    found: bool,
) -> bool {
    &&& t.dom().contains(w) ==> (found && edits == 0 && cw == w)
    &&& (!t.dom().contains(w) && (exists|c: Seq<char>| known_one(w, t).contains(c))) ==> {
        &&& found
        &&& edits == 1
        &&& known_one(w, t).contains(cw)
        &&& forall|c: Seq<char>| #[trigger] known_one(w, t).contains(c) ==> t[c] <= t[cw]
    }
    &&& (!t.dom().contains(w) && !(exists|c: Seq<char>| known_one(w, t).contains(c)) && (exists|
        c: Seq<char>,
    |
        known_two(w, t).contains(c))) ==> {
        &&& found
        &&& edits == 2
        &&& known_two(w, t).contains(cw)
        &&& forall|c: Seq<char>| #[trigger] known_two(w, t).contains(c) ==> t[c] <= t[cw]
    }
    &&& (!t.dom().contains(w) && !(exists|c: Seq<char>| known_one(w, t).contains(c)) && !(exists|
        c: Seq<char>,
    |
        known_two(w, t).contains(c))) ==> (!found && edits == 1 && cw == w)
}

/// The candidates among `alts` that are in the vocabulary: the intersection
/// of the candidate set with the table's keys.
pub fn known_alts(alts: &Vec<String>, words: &FrequencyTable) -> (r: Vec<String>)
    ensures
        cand_set(r@) == cand_set(alts@).intersect(words@.dom()),
        forall|i: int| 0 <= i < r@.len() ==> words@.dom().contains(#[trigger] r@[i]@),
{
    let mut r: Vec<String> = Vec::new();
    let mut j: usize = 0;
    while j < alts.len()
        invariant
            j <= alts@.len(),
            forall|i: int| 0 <= i < r@.len() ==> words@.dom().contains(#[trigger] r@[i]@),
            forall|x: Seq<char>| #[trigger]
                cand_set(r@).contains(x) <==> (exists|k: int|
                    0 <= k < j && alts@[k]@ == x && words@.dom().contains(x)),
        decreases alts@.len() - j,
    {
        if words.contains_key(&alts[j]) {
            let ghost r0 = r@;
            r.push(alts[j].clone());
            proof {
                assert(r@.drop_last() =~= r0);
                crate::edits::lemma_cand_set_snoc(r@);
                assert(r@.last()@ == alts@[j as int]@);
            }
        }
        j = j + 1;
    }
    proof {
        assert forall|x: Seq<char>| #[trigger]
            cand_set(r@).contains(x) <==> cand_set(alts@).intersect(words@.dom()).contains(x) by {
            if cand_set(alts@).contains(x) && words@.dom().contains(x) {
                let k = choose|k: int| 0 <= k < alts@.len() && #[trigger] alts@[k]@ == x;
                assert(cand_set(r@).contains(x));
            }
            if cand_set(r@).contains(x) {
                let k = choose|k: int|
                    0 <= k < alts@.len() && #[trigger] alts@[k]@ == x && words@.dom().contains(x);
                assert(cand_set(alts@).contains(x));
            }
        }
        assert(cand_set(r@) =~= cand_set(alts@).intersect(words@.dom()));
    }
    r
}

/// A candidate of maximal frequency among a non-empty vector of known
/// candidates. Ties go to the earliest candidate; the contract promises only
/// that no candidate scores higher.
fn best_candidate(cands: &Vec<String>, words: &FrequencyTable) -> (r: String)
    requires
        cands@.len() > 0,
        forall|i: int| 0 <= i < cands@.len() ==> words@.dom().contains(#[trigger] cands@[i]@),
    ensures
        cand_set(cands@).contains(r@),
        words@.dom().contains(r@),
        forall|x: Seq<char>| #[trigger] cand_set(cands@).contains(x) ==> words@[x] <= words@[r@],
{
    let mut best = cands[0].clone();
    let mut best_p = probability(words, &cands[0]);
    proof {
        assert(cands@[0]@ == best@);
        assert(cand_set(cands@).contains(best@));
    }
    let mut j: usize = 1;
    while j < cands.len()
        invariant
            1 <= j <= cands@.len(),
            forall|i: int| 0 <= i < cands@.len() ==> words@.dom().contains(#[trigger] cands@[i]@),
            cand_set(cands@).contains(best@),
            words@.dom().contains(best@),
            best_p == words@[best@],
            forall|k: int| 0 <= k < j ==> words@[#[trigger] cands@[k]@] <= best_p,
        decreases cands@.len() - j,
    {
        let p = probability(words, &cands[j]);
        if p > best_p {
            best = cands[j].clone();
            best_p = p;
            proof {
                assert(cands@[j as int]@ == best@);
                assert(cand_set(cands@).contains(best@));
            }
        }
        j = j + 1;
    }
    proof {
        assert forall|x: Seq<char>| #[trigger] cand_set(cands@).contains(x) implies words@[x]
            <= words@[best@] by {
            let k = choose|k: int| 0 <= k < cands@.len() && #[trigger] cands@[k]@ == x;
            assert(words@[cands@[k]@] <= best_p);
        }
    }
    best
}

/// Corrects `word` against the vocabulary `words`: the word itself when
/// known; otherwise the highest-frequency known word at one edit, then at two
/// edits; otherwise the word itself, marked not found.
pub fn correct_word(word: &String, words: &FrequencyTable) -> (r: CorrectionResult)
    ensures
        correct_spec(word@, words@, r.correct_word@, r.edits, r.found),
{
    if words.contains_key(word) {
        return CorrectionResult { correct_word: word.clone(), edits: 0, found: true };
    }
    let one = known_alts(&one_edit_words(word), words);
    if one.len() > 0 {
        let w = best_candidate(&one, words);
        proof {
            assert(cand_set(one@).contains(one@[0]@));
        }
        return CorrectionResult { correct_word: w, edits: 1, found: true };
    }
    proof {
        assert forall|c: Seq<char>| !(#[trigger] known_one(word@, words@).contains(c)) by {
            if cand_set(one@).contains(c) {
                let i = choose|i: int| 0 <= i < one@.len() && #[trigger] one@[i]@ == c;
            }
        }
    }
    let two = known_alts(&two_edit_words(word), words);
    if two.len() > 0 {
        let w = best_candidate(&two, words);
        proof {
            assert(cand_set(two@).contains(two@[0]@));
        }
        return CorrectionResult { correct_word: w, edits: 2, found: true };
    }
    proof {
        assert forall|c: Seq<char>| !(#[trigger] known_two(word@, words@).contains(c)) by {
            if cand_set(two@).contains(c) {
                let i = choose|i: int| 0 <= i < two@.len() && #[trigger] two@[i]@ == c;
            }
        }
    }
    CorrectionResult { correct_word: word.clone(), edits: 1, found: false }
}

/// Law: a vocabulary word corrects to itself, found, at tier 0.
pub proof fn lemma_exact_match(w: Seq<char>, t: Map<Seq<char>, u64>, cw: Seq<char>, edits: u64, found: bool)
    requires
        t.dom().contains(w),
        correct_spec(w, t, cw, edits, found),
    ensures
        found,
        edits == 0,
        cw == w,
{
}

} // verus!
