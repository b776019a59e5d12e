use speller::corrector::{correct_word, known_alts};
use speller::table::{probability, FrequencyTable};

fn table_from(pairs: &[(&str, u64)]) -> FrequencyTable {
    let mut t = FrequencyTable::new();
    for (w, c) in pairs {
        let ok = t.insert((*w).to_string(), *c);
        assert!(ok);
    }
    t
}

#[test]
fn vocabulary_word_corrects_to_itself() {
    let t = table_from(&[("the", 100), ("cat", 50), ("sat", 3)]);
    for w in ["the", "cat", "sat"] {
        let r = correct_word(&w.to_string(), &t);
        assert!(r.found);
        assert_eq!(r.edits, 0);
        assert_eq!(r.correct_word, w);
    }
}

#[test]
fn transposition_is_found_at_one_edit() {
    let t = table_from(&[("the", 100)]);
    let r = correct_word(&"teh".to_string(), &t);
    assert_eq!(r.correct_word, "the");
    assert_eq!(r.edits, 1);
    assert!(r.found);
}

#[test]
fn highest_frequency_candidate_wins() {
    let t = table_from(&[("cat", 50), ("bat", 10), ("cot", 5)]);
    let r = correct_word(&"cbt".to_string(), &t);
    assert_eq!(r.correct_word, "cat");
    assert_eq!(r.edits, 1);
    assert!(r.found);
}

#[test]
fn empty_table_falls_back_to_the_input() {
    let t = FrequencyTable::new();
    let r = correct_word(&"anything".to_string(), &t);
    assert_eq!(r.correct_word, "anything");
    assert_eq!(r.edits, 1);
    assert!(!r.found);
}

#[test]
fn exact_match_short_circuits() {
    let t = table_from(&[("hello", 1)]);
    let r = correct_word(&"hello".to_string(), &t);
    assert_eq!(r.edits, 0);
    assert!(r.found);
    assert_eq!(r.correct_word, "hello");
}

#[test]
fn two_edit_tier_is_reached() {
    // "cbtx" -> delete 'x' -> "cbt" -> substitute 'a' -> "cat"
    let t = table_from(&[("cat", 5)]);
    let r = correct_word(&"cbtx".to_string(), &t);
    assert_eq!(r.correct_word, "cat");
    assert_eq!(r.edits, 2);
    assert!(r.found);
}

#[test]
fn known_alts_keeps_exactly_the_vocabulary_words() {
    let t = table_from(&[("cat", 50), ("bat", 10)]);
    let alts = vec![
        "cat".to_string(),
        "cbt".to_string(),
        "bat".to_string(),
        "xyz".to_string(),
    ];
    let known = known_alts(&alts, &t);
    assert!(known.iter().any(|w| w == "cat"));
    assert!(known.iter().any(|w| w == "bat"));
    assert!(!known.iter().any(|w| w == "cbt"));
    assert!(!known.iter().any(|w| w == "xyz"));
}

#[test]
fn probability_returns_the_stored_count() {
    let t = table_from(&[("cat", 50), ("bat", 10)]);
    assert_eq!(probability(&t, &"cat".to_string()), 50);
    assert_eq!(probability(&t, &"bat".to_string()), 10);
}

#[test]
fn table_rejects_bad_keys_and_duplicates() {
    let mut t = FrequencyTable::new();
    assert!(t.insert("cat".to_string(), 1));
    assert!(!t.insert("cat".to_string(), 2));
    assert!(!t.insert("Cat".to_string(), 1));
    assert!(!t.insert("c_t".to_string(), 1));
    assert_eq!(t.get(&"cat".to_string()), Some(1));
    assert_eq!(t.get(&"dog".to_string()), None);
}

#[test]
fn pairs_round_trip_through_from_pairs() {
    let t = table_from(&[("the", 100), ("cat", 50)]);
    let pairs = t.pairs();
    let t2 = FrequencyTable::from_pairs(&pairs).unwrap();
    assert_eq!(t2.get(&"the".to_string()), Some(100));
    assert_eq!(t2.get(&"cat".to_string()), Some(50));
    assert_eq!(t2.get(&"dog".to_string()), None);
}

#[test]
fn from_pairs_rejects_duplicates_and_bad_keys() {
    let dup = vec![("cat".to_string(), 1u64), ("cat".to_string(), 2u64)];
    assert!(FrequencyTable::from_pairs(&dup).is_none());
    let upper = vec![("Cat".to_string(), 1u64)];
    assert!(FrequencyTable::from_pairs(&upper).is_none());
    let good = vec![("cat".to_string(), 1u64), ("dog".to_string(), 2u64)];
    assert!(FrequencyTable::from_pairs(&good).is_some());
}
