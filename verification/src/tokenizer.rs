//! The tokenizer: extracts maximal runs of letters and underscores from raw
//! text, normalizes each run by dropping underscores and lowercasing, and
//! counts occurrences into a frequency table.

use vstd::prelude::*;
use crate::letters::{is_letter, is_lower_word, lower_char};
use crate::table::FrequencyTable;

verus! {

/// A character that extends a token run: an ASCII letter or an underscore.
pub open spec fn is_token_char(c: char) -> bool {
    is_letter(c) || c == '_'
}

/// The normalized tokens of the text `s`, given a run in progress: `cur` is
/// the normalized content of the run so far and `in_tok` says whether a run
/// is open. A token character extends the run (underscores are dropped,
/// letters are lowercased); any other character closes it.
pub open spec fn scan(s: Seq<char>, cur: Seq<char>, in_tok: bool) -> Seq<Seq<char>>
    decreases s.len(),
{
    if s.len() == 0 {
        if in_tok {
            seq![cur]
        } else {
            seq![]
        }
    } else if is_token_char(s[0]) {
        scan(
            s.drop_first(),
            if s[0] == '_' {
                cur
            } else {
                cur.push(lower_char(s[0]))
            },
            true,
        )
    } else {
        (if in_tok {
            seq![cur]
        } else {
            seq![]
        }) + scan(s.drop_first(), seq![], false)
    }
}

/// The sequence of normalized tokens of the text `s`, in order of
/// appearance.
pub open spec fn tokens_of(s: Seq<char>) -> Seq<Seq<char>> {
    scan(s, seq![], false)
}

/// How many times the word `w` occurs among the tokens `toks`.
pub open spec fn count_in(toks: Seq<Seq<char>>, w: Seq<char>) -> nat
    decreases toks.len(),
{
    if toks.len() == 0 {
        0
    } else {
        count_in(toks.drop_last(), w) + (if toks.last() == w {
            1nat
        } else {
            0nat
        })
    }
}

/// A word occurs at most as often as there are tokens.
pub proof fn lemma_count_le_len(toks: Seq<Seq<char>>, w: Seq<char>)
    ensures
        count_in(toks, w) <= toks.len(),
    decreases toks.len(),
{
    if toks.len() > 0 {
        lemma_count_le_len(toks.drop_last(), w);
    }
}

/// Appending one token raises its own count by one and no other.
pub proof fn lemma_count_snoc(toks: Seq<Seq<char>>, t: Seq<char>)
    ensures
        forall|x: Seq<char>| #[trigger]
            count_in(toks.push(t), x) == count_in(toks, x) + (if x == t {
                1nat
            } else {
                0nat
            }),
{
    assert forall|x: Seq<char>| #[trigger]
        count_in(toks.push(t), x) == count_in(toks, x) + (if x == t {
            1nat
        } else {
            0nat
        }) by {
        assert(toks.push(t).drop_last() =~= toks);
        assert(toks.push(t).last() == t);
    }
}

/// Builds the frequency table of a text: every normalized token of the text
/// becomes a key whose count is the token's number of occurrences, and the
/// total number of tokens (repeats included) is returned beside the table.
pub fn get_words(file: String) -> (r: (FrequencyTable, usize))
    ensures
        r.1 == tokens_of(file@).len(),
        forall|x: Seq<char>| #[trigger]
            r.0@.dom().contains(x) <==> count_in(tokens_of(file@), x) > 0,
        forall|x: Seq<char>| #[trigger] r.0@.dom().contains(x) ==> r.0@[x] == count_in(
            tokens_of(file@),
            x,
        ),
        forall|x: Seq<char>| #[trigger] r.0@.dom().contains(x) ==> is_lower_word(x),
{
    let s = file.as_str();
    let len = s.unicode_len();
    let mut table = FrequencyTable::new();
    let mut n: usize = 0;
    let mut cur = String::new();
    let mut in_tok = false;
    let ghost mut toks: Seq<Seq<char>> = seq![];
    let mut i: usize = 0;
    proof {
        assert(file@.skip(0) =~= file@);
    }
    while i < len
        invariant
            len == file@.len(),
            s@ == file@,
            i <= len,
            tokens_of(file@) == toks + scan(file@.skip(i as int), cur@, in_tok),
            !in_tok ==> cur@ == Seq::<char>::empty(),
            is_lower_word(cur@),
            n == toks.len(),
            toks.len() + (if in_tok {
                1int
            } else {
                0int
            }) <= i,
            forall|x: Seq<char>| #[trigger] table@.dom().contains(x) <==> count_in(toks, x) > 0,
            forall|x: Seq<char>| #[trigger] table@.dom().contains(x) ==> table@[x] == count_in(
                toks,
                x,
            ),
            forall|x: Seq<char>| #[trigger] table@.dom().contains(x) ==> is_lower_word(x),
        decreases len - i,
    {
        let ghost pre_skip = file@.skip(i as int);
        let ghost cur0 = cur@;
        let ghost toks0 = toks;
        let c = s.get_char(i);
        let u = c as u32;
        proof {
            assert(pre_skip[0] == file@[i as int]);
            assert(pre_skip.drop_first() =~= file@.skip(i as int + 1));
        }
        if (97 <= u && u <= 122) || (65 <= u && u <= 90) || c == '_' {
            if c != '_' {
                let cs = crate::letters::lower_letter_str(c);
                cur.append(cs);
                proof {
                    assert(cur@ =~= cur0.push(lower_char(c)));
                    assert forall|k: int| 0 <= k < cur@.len() implies crate::letters::is_lower(
                        #[trigger] cur@[k],
                    ) by {
                        if k < cur0.len() {
                            assert(crate::letters::is_lower(cur0[k]));
                        }
                    }
                }
            }
            in_tok = true;
            proof {
                assert(scan(pre_skip, cur0, in_tok) == scan(file@.skip(i as int + 1), cur@, true));
            }
        } else {
            if in_tok {
                let w = cur;
                cur = String::new();
                let ghost wv = w@;
                proof {
                    lemma_count_le_len(toks, wv);
                }
                table.increment(w);
                n = n + 1;
                proof {
                    toks = toks.push(wv);
                    lemma_count_snoc(toks0, wv);
                    assert(toks =~= toks0 + seq![wv]);
                    assert((toks0 + seq![wv]) + scan(file@.skip(i as int + 1), seq![], false)
                        =~= toks0 + (seq![wv] + scan(file@.skip(i as int + 1), seq![], false)));
                    assert(seq![wv] + scan(file@.skip(i as int + 1), seq![], false) =~= (if true {
                        seq![wv]
                    } else {
                        seq![]
                    }) + scan(pre_skip.drop_first(), seq![], false));
                }
                in_tok = false;
            } else {
                proof {
                    assert((if false {
                        seq![cur0]
                    } else {
                        seq![]
                    }) + scan(pre_skip.drop_first(), seq![], false) =~= scan(
                        file@.skip(i as int + 1),
                        seq![],
                        false,
                    ));
                }
            }
        }
        i = i + 1;
    }
    proof {
        assert(file@.skip(len as int) =~= Seq::<char>::empty());
    }
    if in_tok {
        let w = cur;
        let ghost wv = w@;
        let ghost toks0 = toks;
        proof {
            lemma_count_le_len(toks, wv);
        }
        table.increment(w);
        n = n + 1;
        proof {
            toks = toks.push(wv);
            lemma_count_snoc(toks0, wv);
            assert(toks0 + scan(Seq::<char>::empty(), wv, true) =~= toks);
        }
    } else {
        proof {
            assert(toks + scan(Seq::<char>::empty(), cur@, false) =~= toks);
        }
    }
    proof {
        assert(tokens_of(file@) == toks);
    }
    (table, n)
}

} // verus!
