use speller::edits::{one_edit_words, two_edit_words};
use speller::tokenizer::get_words;

fn contains(v: &Vec<String>, w: &str) -> bool {
    v.iter().any(|s| s == w)
}

#[test]
fn one_edit_contains_every_deletion() {
    let v = one_edit_words(&"the".to_string());
    assert!(contains(&v, "he"));
    assert!(contains(&v, "te"));
    assert!(contains(&v, "th"));
}

#[test]
fn one_edit_contains_every_transposition() {
    let v = one_edit_words(&"the".to_string());
    assert!(contains(&v, "hte"));
    assert!(contains(&v, "teh"));
}

#[test]
fn one_edit_contains_every_substitution() {
    let v = one_edit_words(&"the".to_string());
    assert!(contains(&v, "xhe"));
    assert!(contains(&v, "tze"));
    assert!(contains(&v, "thq"));
    // the no-op substitution regenerates the word itself
    assert!(contains(&v, "the"));
}

#[test]
fn one_edit_contains_every_insertion() {
    let v = one_edit_words(&"the".to_string());
    assert!(contains(&v, "qthe"));
    assert!(contains(&v, "tqhe"));
    assert!(contains(&v, "thqe"));
    assert!(contains(&v, "theq"));
}

#[test]
fn one_edit_count_stays_within_the_budget() {
    // for length L: L deletions, L-1 transpositions, 26 L substitutions,
    // 26 (L + 1) insertions
    let l: usize = 4;
    let v = one_edit_words(&"word".to_string());
    assert_eq!(v.len(), l + (l - 1) + 26 * l + 26 * (l + 1));
    assert!(v.len() <= 26 * l + l + (l - 1) + 26 * (l + 1));
}

#[test]
fn one_edit_of_the_empty_word_is_all_single_letters() {
    let v = one_edit_words(&"".to_string());
    assert_eq!(v.len(), 26);
    assert!(contains(&v, "a"));
    assert!(contains(&v, "z"));
}

#[test]
fn two_edit_contains_one_edit_expansions() {
    // "ab" -> "b" (deletion) -> "bz" (insertion)
    // "ab" -> "ba" (transposition) -> "bda" (insertion)
    let v = two_edit_words(&"ab".to_string());
    assert!(contains(&v, "bz"));
    assert!(contains(&v, "bda"));
    let firsts = one_edit_words(&"ab".to_string());
    for t in firsts.iter().take(5) {
        for u in one_edit_words(t).iter().take(5) {
            assert!(contains(&v, u));
        }
    }
}

#[test]
fn tokenizing_merges_underscored_runs() {
    let (table, n) = get_words("The cat_cat sat.".to_string());
    assert_eq!(n, 3);
    assert_eq!(table.get(&"the".to_string()), Some(1));
    assert_eq!(table.get(&"catcat".to_string()), Some(1));
    assert_eq!(table.get(&"sat".to_string()), Some(1));
    assert_eq!(table.get(&"cat".to_string()), None);
    assert_eq!(table.pairs().len(), 3);
}

#[test]
fn tokenizing_counts_repeats() {
    let (table, n) = get_words("a b a B A!".to_string());
    assert_eq!(n, 5);
    assert_eq!(table.get(&"a".to_string()), Some(3));
    assert_eq!(table.get(&"b".to_string()), Some(2));
}

#[test]
fn tokenizing_empty_text_yields_nothing() {
    let (table, n) = get_words("".to_string());
    assert_eq!(n, 0);
    assert!(table.pairs().is_empty());
    let (table2, n2) = get_words("123 ,.!? 456".to_string());
    assert_eq!(n2, 0);
    assert!(table2.pairs().is_empty());
}
