//! The edit generator: all strings reachable from a word by one elementary
//! edit (deletion, adjacent transposition, substitution, insertion over the
//! 26-letter alphabet), and its composition with itself for two edits.

use vstd::prelude::*;
use crate::letters::{is_lower, letter};

verus! {

/// `w` with the character at position `i` removed.
pub open spec fn del_at(w: Seq<char>, i: int) -> Seq<char>
    recommends
        0 <= i < w.len(),
{
    w.subrange(0, i) + w.subrange(i + 1, w.len() as int)
}

/// `w` with the adjacent characters at positions `i` and `i + 1` swapped.
pub open spec fn swap_at(w: Seq<char>, i: int) -> Seq<char>
    recommends
        0 <= i,
        i + 1 < w.len(),
{
    w.subrange(0, i) + seq![w[i + 1], w[i]] + w.subrange(i + 2, w.len() as int)
}

/// `w` with the character at position `i` replaced by `c`.
pub open spec fn sub_at(w: Seq<char>, i: int, c: char) -> Seq<char>
    recommends
        0 <= i < w.len(),
{
    w.subrange(0, i) + seq![c] + w.subrange(i + 1, w.len() as int)
}

/// `w` with `c` inserted before position `i`.
pub open spec fn ins_at(w: Seq<char>, i: int, c: char) -> Seq<char>
    recommends
        0 <= i <= w.len(),
{
    w.subrange(0, i) + seq![c] + w.subrange(i, w.len() as int)
}

/// The set of all strings reachable from `w` by exactly one elementary edit:
/// a deletion at any position, an adjacent transposition at any position, a
/// substitution of any lowercase letter at any position (the no-op
/// substitution included), or an insertion of any lowercase letter at any of
/// the `len + 1` insertion points.
pub open spec fn one_edits(w: Seq<char>) -> Set<Seq<char>> {
    Set::new(
        |s: Seq<char>|
            {
                ||| (exists|i: int| 0 <= i < w.len() && s == del_at(w, i))
                ||| (exists|i: int| 0 <= i && i + 1 < w.len() && s == swap_at(w, i))
                ||| (exists|i: int, c: char| 0 <= i < w.len() && is_lower(c) && s == sub_at(w, i, c))
                ||| (exists|i: int, c: char| 0 <= i <= w.len() && is_lower(c) && s == ins_at(w, i, c))
            },
    )
}

/// The set of all strings reached by applying the one-edit generator to every
/// member of the one-edit set of `w`: two elementary edits in composition.
pub open spec fn two_edits(w: Seq<char>) -> Set<Seq<char>> {
    Set::new(
        |s: Seq<char>|
            exists|e: Seq<char>| #[trigger] one_edits(w).contains(e) && one_edits(e).contains(s),
    )
}

/// The set of words that a vector of candidate strings holds, ignoring order
/// and duplicates.
pub open spec fn cand_set(s: Seq<String>) -> Set<Seq<char>> {
    Set::new(|w: Seq<char>| exists|i: int| 0 <= i < s.len() && s[i]@ == w)
}

/// How many candidate strings the one-edit generator emits for a word of
/// length `l`: one per deletion, transposition, substitution and insertion
/// point, duplicates counted.
pub open spec fn one_edit_count(l: int) -> int {
    if l == 0 {
        26
    } else {
        54 * l + 25
    }
}

/// Appending one candidate string to a vector adds exactly that word to the
/// set of words the vector holds.
pub proof fn lemma_cand_set_snoc(t: Seq<String>)
    requires
        t.len() > 0,
    ensures
        forall|w: Seq<char>| #[trigger]
            cand_set(t).contains(w) <==> (cand_set(t.drop_last()).contains(w) || t.last()@ == w),
{
    let s = t.drop_last();
    assert forall|w: Seq<char>| #[trigger]
        cand_set(t).contains(w) <==> (cand_set(s).contains(w) || t.last()@ == w) by {
        if cand_set(t).contains(w) {
            let i = choose|i: int| 0 <= i < t.len() && t[i]@ == w;
            if i < t.len() - 1 {
                assert(s[i]@ == w);
                assert(cand_set(s).contains(w));
            }
        }
        if cand_set(s).contains(w) {
            let i = choose|i: int| 0 <= i < s.len() && s[i]@ == w;
            assert(t[i]@ == w);
            assert(cand_set(t).contains(w));
        }
        if t.last()@ == w {
            assert(t[t.len() - 1]@ == w);
            assert(cand_set(t).contains(w));
        }
    }
}

/// Law: deleting any single character of `w` yields a member of the one-edit
/// set of `w`.
pub proof fn lemma_one_edits_delete(w: Seq<char>, i: int)
    requires
        0 <= i < w.len(),
    ensures
        one_edits(w).contains(del_at(w, i)),
{
}

/// Law: transposing any adjacent pair of characters of `w` yields a member of
/// the one-edit set of `w`.
pub proof fn lemma_one_edits_transpose(w: Seq<char>, i: int)
    requires
        0 <= i,
        i + 1 < w.len(),
    ensures
        one_edits(w).contains(swap_at(w, i)),
{
}

/// Law: substituting any lowercase letter at any position of `w` yields a
/// member of the one-edit set of `w`.
pub proof fn lemma_one_edits_substitute(w: Seq<char>, i: int, c: char)
    requires
        0 <= i < w.len(),
        is_lower(c),
    ensures
        one_edits(w).contains(sub_at(w, i, c)),
{
}

/// Law: inserting any lowercase letter at any insertion point of `w` yields a
/// member of the one-edit set of `w`.
pub proof fn lemma_one_edits_insert(w: Seq<char>, i: int, c: char)
    requires
        0 <= i <= w.len(),
        is_lower(c),
    ensures
        one_edits(w).contains(ins_at(w, i, c)),
{
}

/// Law: the two-edit set contains every one-edit expansion of every member of
/// the one-edit set, by construction as a composition.
pub proof fn lemma_two_edits_compose(w: Seq<char>, e: Seq<char>, s: Seq<char>)
    requires
        one_edits(w).contains(e),
        one_edits(e).contains(s),
    ensures
        two_edits(w).contains(s),
{
}

/// The concatenation of two string slices.
fn build2(a: &str, b: &str) -> (r: String)
    ensures
        r@ == a@ + b@,
{
    let mut s = a.to_owned();
    s.append(b);
    s
}

/// The concatenation of three string slices.
fn build3(a: &str, b: &str, c: &str) -> (r: String)
    ensures
        r@ == a@ + b@ + c@,
{
    let mut s = a.to_owned();
    s.append(b);
    s.append(c);
    s
}

/// The concatenation of four string slices.
fn build4(a: &str, b: &str, c: &str, d: &str) -> (r: String)
    ensures
        r@ == a@ + b@ + c@ + d@,
{
    let mut s = a.to_owned();
    s.append(b);
    s.append(c);
    s.append(d);
    s
}

/// All strings formed from `word` by exactly one elementary edit, duplicates
/// included: the returned vector holds exactly the one-edit set of `word`,
/// and its length is the generator's emission count, which for a word of
/// length `L >= 1` stays within the budget of `L` deletions, `L - 1`
/// transpositions, `26 L` substitutions and `26 (L + 1)` insertions.
pub fn one_edit_words(word: &String) -> (r: Vec<String>)
    ensures
        cand_set(r@) == one_edits(word@),
        r@.len() == one_edit_count(word@.len() as int),
        word@.len() >= 1 ==> r@.len() <= 26 * (word@.len() as int) + (word@.len() as int) + (
        word@.len() as int - 1) + 26 * (word@.len() as int + 1),
{
    let ghost w = word@;
    let s = word.as_str();
    let len = s.unicode_len();
    let mut r: Vec<String> = Vec::new();
    // deletions
    let mut i: usize = 0;
    while i < len
        invariant
            len == w.len(),
            word@ == w,
            s@ == w,
            i <= len,
            r@.len() == i,
            forall|k: int| 0 <= k < r@.len() ==> one_edits(w).contains(#[trigger] r@[k]@),
            forall|k: int| 0 <= k < i ==> cand_set(r@).contains(#[trigger] del_at(w, k)),
        decreases len - i,
    {
        let cand = build2(s.substring_char(0, i), s.substring_char(i + 1, len));
        proof {
            assert(cand@ =~= del_at(w, i as int));
            lemma_one_edits_delete(w, i as int);
        }
        let ghost r0 = r@;
        r.push(cand);
        proof {
            assert(r@.drop_last() =~= r0);
            lemma_cand_set_snoc(r@);
        }
        i = i + 1;
    }
    // transpositions
    let ghost base1 = r@.len();
    let mut i: usize = 0;
    while i + 1 < len
        invariant
            len == w.len(),
            word@ == w,
            s@ == w,
            base1 == w.len(),
            len >= 1 ==> i + 1 <= len,
            len == 0 ==> i == 0,
            r@.len() == base1 + i,
            forall|k: int| 0 <= k < r@.len() ==> one_edits(w).contains(#[trigger] r@[k]@),
            forall|k: int| 0 <= k < w.len() ==> cand_set(r@).contains(#[trigger] del_at(w, k)),
            forall|k: int| 0 <= k < i ==> cand_set(r@).contains(#[trigger] swap_at(w, k)),
        decreases len - i,
    {
        let cand = build4(
            s.substring_char(0, i),
            s.substring_char(i + 1, i + 2),
            s.substring_char(i, i + 1),
            s.substring_char(i + 2, len),
        );
        proof {
            assert(cand@ =~= swap_at(w, i as int));
            lemma_one_edits_transpose(w, i as int);
        }
        let ghost r0 = r@;
        r.push(cand);
        proof {
            assert(r@.drop_last() =~= r0);
            lemma_cand_set_snoc(r@);
        }
        i = i + 1;
    }
    // substitutions
    let ghost base2 = r@.len();
    let mut i: usize = 0;
    while i < len
        invariant
            len == w.len(),
            word@ == w,
            s@ == w,
            base2 == w.len() + (if w.len() >= 1 { w.len() - 1 } else { 0int }),
            i <= len,
            r@.len() == base2 + 26 * i,
            forall|k: int| 0 <= k < r@.len() ==> one_edits(w).contains(#[trigger] r@[k]@),
            forall|k: int| 0 <= k < w.len() ==> cand_set(r@).contains(#[trigger] del_at(w, k)),
            forall|k: int| 0 <= k && k + 1 < w.len() ==> cand_set(r@).contains(#[trigger] swap_at(w, k)),
            forall|k: int, c: char|
                0 <= k < i && is_lower(c) ==> cand_set(r@).contains(#[trigger] sub_at(w, k, c)),
        decreases len - i,
    {
        let mut j: u8 = 0;
        while j < 26
            invariant
                len == w.len(),
                word@ == w,
                s@ == w,
                i < len,
                j <= 26,
                r@.len() == base2 + 26 * i + j,
                forall|k: int| 0 <= k < r@.len() ==> one_edits(w).contains(#[trigger] r@[k]@),
                forall|k: int| 0 <= k < w.len() ==> cand_set(r@).contains(#[trigger] del_at(w, k)),
                forall|k: int|
                    0 <= k && k + 1 < w.len() ==> cand_set(r@).contains(#[trigger] swap_at(w, k)),
                forall|k: int, c: char|
                    0 <= k < i && is_lower(c) ==> cand_set(r@).contains(#[trigger] sub_at(w, k, c)),
                forall|c: char|
                    is_lower(c) && (c as u32) < 97 + j ==> cand_set(r@).contains(
                        #[trigger] sub_at(w, i as int, c),
                    ),
            decreases 26 - j,
        {
            let (c, cs) = letter(j);
            let cand = build3(s.substring_char(0, i), cs, s.substring_char(i + 1, len));
            proof {
                assert(cand@ =~= sub_at(w, i as int, c));
                lemma_one_edits_substitute(w, i as int, c);
            }
            let ghost r0 = r@;
            r.push(cand);
            proof {
                assert(r@.drop_last() =~= r0);
                lemma_cand_set_snoc(r@);
                assert forall|d: char| is_lower(d) && (d as u32) < 97 + j + 1 implies cand_set(
                    r@,
                ).contains(sub_at(w, i as int, d)) by {
                    if d as u32 == 97 + j {
                        vstd::utf8::char_u32_cast(d, d as u32);
                        vstd::utf8::char_u32_cast(c, c as u32);
                        assert(d == c);
                    }
                }
            }
            j = j + 1;
        }
        i = i + 1;
    }
    // insertions before each existing position
    let ghost base3 = r@.len();
    let mut i: usize = 0;
    while i < len
        invariant
            len == w.len(),
            word@ == w,
            s@ == w,
            base3 == base2 + 26 * w.len(),
            base2 == w.len() + (if w.len() >= 1 { w.len() - 1 } else { 0int }),
            i <= len,
            r@.len() == base3 + 26 * i,
            forall|k: int| 0 <= k < r@.len() ==> one_edits(w).contains(#[trigger] r@[k]@),
            forall|k: int| 0 <= k < w.len() ==> cand_set(r@).contains(#[trigger] del_at(w, k)),
            forall|k: int| 0 <= k && k + 1 < w.len() ==> cand_set(r@).contains(#[trigger] swap_at(w, k)),
            forall|k: int, c: char|
                0 <= k < w.len() && is_lower(c) ==> cand_set(r@).contains(
                    #[trigger] sub_at(w, k, c),
                ),
            forall|k: int, c: char|
                0 <= k < i && is_lower(c) ==> cand_set(r@).contains(#[trigger] ins_at(w, k, c)),
        decreases len - i,
    {
        let mut j: u8 = 0;
        while j < 26
            invariant
                len == w.len(),
                word@ == w,
                s@ == w,
                i < len,
                j <= 26,
                r@.len() == base3 + 26 * i + j,
                forall|k: int| 0 <= k < r@.len() ==> one_edits(w).contains(#[trigger] r@[k]@),
                forall|k: int| 0 <= k < w.len() ==> cand_set(r@).contains(#[trigger] del_at(w, k)),
                forall|k: int|
                    0 <= k && k + 1 < w.len() ==> cand_set(r@).contains(#[trigger] swap_at(w, k)),
                forall|k: int, c: char|
                    0 <= k < w.len() && is_lower(c) ==> cand_set(r@).contains(
                        #[trigger] sub_at(w, k, c),
                    ),
                forall|k: int, c: char|
                    0 <= k < i && is_lower(c) ==> cand_set(r@).contains(#[trigger] ins_at(w, k, c)),
                forall|c: char|
                    is_lower(c) && (c as u32) < 97 + j ==> cand_set(r@).contains(
                        #[trigger] ins_at(w, i as int, c),
                    ),
            decreases 26 - j,
        {
            let (c, cs) = letter(j);
            let cand = build3(s.substring_char(0, i), cs, s.substring_char(i, len));
            proof {
                assert(cand@ =~= ins_at(w, i as int, c));
                lemma_one_edits_insert(w, i as int, c);
            }
            let ghost r0 = r@;
            r.push(cand);
            proof {
                assert(r@.drop_last() =~= r0);
                lemma_cand_set_snoc(r@);
                assert forall|d: char| is_lower(d) && (d as u32) < 97 + j + 1 implies cand_set(
                    r@,
                ).contains(ins_at(w, i as int, d)) by {
                    if d as u32 == 97 + j {
                        vstd::utf8::char_u32_cast(d, d as u32);
                        vstd::utf8::char_u32_cast(c, c as u32);
                        assert(d == c);
                    }
                }
            }
            j = j + 1;
        }
        i = i + 1;
    }
    // insertions at the very end of the word
    let ghost base4 = r@.len();
    let mut j: u8 = 0;
    while j < 26
        invariant
            len == w.len(),
            word@ == w,
            s@ == w,
            base4 == base3 + 26 * w.len(),
            base3 == base2 + 26 * w.len(),
            base2 == w.len() + (if w.len() >= 1 { w.len() - 1 } else { 0int }),
            j <= 26,
            r@.len() == base4 + j,
            forall|k: int| 0 <= k < r@.len() ==> one_edits(w).contains(#[trigger] r@[k]@),
            forall|k: int| 0 <= k < w.len() ==> cand_set(r@).contains(#[trigger] del_at(w, k)),
            forall|k: int| 0 <= k && k + 1 < w.len() ==> cand_set(r@).contains(#[trigger] swap_at(w, k)),
            forall|k: int, c: char|
                0 <= k < w.len() && is_lower(c) ==> cand_set(r@).contains(
                    #[trigger] sub_at(w, k, c),
                ),
            forall|k: int, c: char|
                0 <= k < w.len() && is_lower(c) ==> cand_set(r@).contains(
                    #[trigger] ins_at(w, k, c),
                ),
            forall|c: char|
                is_lower(c) && (c as u32) < 97 + j ==> cand_set(r@).contains(
                    #[trigger] ins_at(w, w.len() as int, c),
                ),
        decreases 26 - j,
    {
        let (c, cs) = letter(j);
        let cand = build2(s.substring_char(0, len), cs);
        proof {
            assert(cand@ =~= ins_at(w, w.len() as int, c));
            lemma_one_edits_insert(w, w.len() as int, c);
        }
        let ghost r0 = r@;
        r.push(cand);
        proof {
            assert(r@.drop_last() =~= r0);
            lemma_cand_set_snoc(r@);
            assert forall|d: char| is_lower(d) && (d as u32) < 97 + j + 1 implies cand_set(
                r@,
            ).contains(ins_at(w, w.len() as int, d)) by {
                if d as u32 == 97 + j {
                    vstd::utf8::char_u32_cast(d, d as u32);
                    vstd::utf8::char_u32_cast(c, c as u32);
                    assert(d == c);
                }
            }
        }
        j = j + 1;
    }
    proof {
        assert forall|v: Seq<char>| one_edits(w).contains(v) implies cand_set(r@).contains(v) by {
            if exists|k: int| 0 <= k < w.len() && v == del_at(w, k) {
                let k = choose|k: int| 0 <= k < w.len() && v == del_at(w, k);
                assert(cand_set(r@).contains(del_at(w, k)));
            } else if exists|k: int| 0 <= k && k + 1 < w.len() && v == swap_at(w, k) {
                let k = choose|k: int| 0 <= k && k + 1 < w.len() && v == swap_at(w, k);
                assert(cand_set(r@).contains(swap_at(w, k)));
            } else if exists|k: int, c: char|
                0 <= k < w.len() && is_lower(c) && v == sub_at(w, k, c) {
                let (k, c) = choose|k: int, c: char|
                    0 <= k < w.len() && is_lower(c) && v == sub_at(w, k, c);
                assert(cand_set(r@).contains(sub_at(w, k, c)));
            } else {
                let (k, c) = choose|k: int, c: char|
                    0 <= k <= w.len() && is_lower(c) && v == ins_at(w, k, c);
                if k < w.len() {
                    assert(cand_set(r@).contains(ins_at(w, k, c)));
                } else {
                    assert(cand_set(r@).contains(ins_at(w, w.len() as int, c)));
                }
            }
        }
        assert(cand_set(r@) =~= one_edits(w));
    }
    r
}

/// All strings reachable from `word` by two elementary edits in composition:
/// the one-edit generator applied to every result of a first one-edit pass.
pub fn two_edit_words(word: &String) -> (r: Vec<String>)
    ensures
        cand_set(r@) == two_edits(word@),
{
    let firsts = one_edit_words(word);
    let mut r: Vec<String> = Vec::new();
    let mut a: usize = 0;
    while a < firsts.len()
        invariant
            cand_set(firsts@) == one_edits(word@),
            a <= firsts@.len(),
            forall|v: Seq<char>| #[trigger]
                cand_set(r@).contains(v) <==> exists|k: int|
                    0 <= k < a && one_edits(#[trigger] firsts@[k]@).contains(v),
        decreases firsts@.len() - a,
    {
        let seconds = one_edit_words(&firsts[a]);
        let mut b: usize = 0;
        while b < seconds.len()
            invariant
                cand_set(seconds@) == one_edits(firsts@[a as int]@),
                a < firsts@.len(),
                b <= seconds@.len(),
                forall|v: Seq<char>| #[trigger]
                    cand_set(r@).contains(v) <==> ((exists|k: int|
                        0 <= k < a && one_edits(#[trigger] firsts@[k]@).contains(v)) || (exists|
                        m: int,
                    |
                        0 <= m < b && seconds@[m]@ == v)),
            decreases seconds@.len() - b,
        {
            let cand = seconds[b].clone();
            let ghost r0 = r@;
            r.push(cand);
            proof {
                assert(r@.drop_last() =~= r0);
                lemma_cand_set_snoc(r@);
                assert(seconds@[b as int]@ == r@.last()@);
            }
            b = b + 1;
        }
        proof {
            assert forall|v: Seq<char>| #[trigger]
                cand_set(r@).contains(v) <==> exists|k: int|
                    0 <= k < a + 1 && one_edits(#[trigger] firsts@[k]@).contains(v) by {
                if cand_set(r@).contains(v) {
                    if exists|m: int| 0 <= m < seconds@.len() && seconds@[m]@ == v {
                        assert(cand_set(seconds@).contains(v));
                        assert(one_edits(firsts@[a as int]@).contains(v));
                    }
                }
                if exists|k: int| 0 <= k < a + 1 && one_edits(#[trigger] firsts@[k]@).contains(v) {
                    let k = choose|k: int|
                        0 <= k < a + 1 && one_edits(#[trigger] firsts@[k]@).contains(v);
                    if k == a {
                        assert(cand_set(seconds@).contains(v));
                        let m = choose|m: int|
                            0 <= m < seconds@.len() && #[trigger] seconds@[m]@ == v;
                        assert(cand_set(r@).contains(v));
                    }
                }
            }
        }
        a = a + 1;
    }
    proof {
        assert forall|v: Seq<char>| cand_set(r@).contains(v) implies two_edits(word@).contains(
            v,
        ) by {
            let k = choose|k: int|
                0 <= k < firsts@.len() && one_edits(#[trigger] firsts@[k]@).contains(v);
            assert(cand_set(firsts@).contains(firsts@[k]@));
            assert(one_edits(word@).contains(firsts@[k]@));
            lemma_two_edits_compose(word@, firsts@[k]@, v);
        }
        assert forall|v: Seq<char>| two_edits(word@).contains(v) implies cand_set(r@).contains(
            v,
        ) by {
            let e = choose|e: Seq<char>| #[trigger]
                one_edits(word@).contains(e) && one_edits(e).contains(v);
            assert(cand_set(firsts@).contains(e));
            let k = choose|k: int| 0 <= k < firsts@.len() && firsts@[k]@ == e;
            assert(one_edits(firsts@[k]@).contains(v));
        }
        assert(cand_set(r@) =~= two_edits(word@));
    }
    r
}

} // verus!
