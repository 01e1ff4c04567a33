//! Tests for the group assignment and the word-legality filter.

use letterbox::puzzle::Puzzle;

fn w(s: &str) -> Vec<char> {
    s.chars().collect()
}

#[test]
fn groups_of_twelve_letters_side_three() {
    let p = Puzzle::new(w("abcdefghijkl"), 3).unwrap();
    assert_eq!(p.group_of('a'), Some(0));
    assert_eq!(p.group_of('b'), Some(0));
    assert_eq!(p.group_of('c'), Some(0));
    assert_eq!(p.group_of('d'), Some(1));
    assert_eq!(p.group_of('f'), Some(1));
    assert_eq!(p.group_of('g'), Some(2));
    assert_eq!(p.group_of('i'), Some(2));
    assert_eq!(p.group_of('j'), Some(3));
    assert_eq!(p.group_of('l'), Some(3));
    assert_eq!(p.group_of('z'), None);
}

#[test]
fn bad_is_illegal_bead_is_legal() {
    let p = Puzzle::new(w("abcdefghijkl"), 3).unwrap();
    // 'b' and 'a' are adjacent and both in group 0.
    assert!(!p.is_legal_word(&w("bad")));
    // b(0), e(1), a(0), d(1): all adjacent pairs differ.
    assert!(p.is_legal_word(&w("bead")));
}

#[test]
fn word_with_unmapped_letter_is_illegal() {
    let p = Puzzle::new(w("abcdef"), 3).unwrap();
    assert!(!p.is_legal_word(&w("fax")));
    assert!(!p.is_legal_word(&w("")));
}

#[test]
fn single_letter_word_is_legal_when_mapped() {
    let p = Puzzle::new(w("abcd"), 2).unwrap();
    assert!(p.is_legal_word(&w("a")));
    assert!(!p.is_legal_word(&w("x")));
}

#[test]
fn boundary_rejects_bad_inputs() {
    assert!(Puzzle::new(w(""), 1).is_none());
    assert!(Puzzle::new(w("abcd"), 0).is_none());
    assert!(Puzzle::new(w("abc"), 2).is_none());
    assert!(Puzzle::new(w("aabb"), 2).is_none());
    assert!(Puzzle::new(w("abcd"), 2).is_some());
}

#[test]
fn legal_words_keeps_exactly_the_legal_words_in_order() {
    let p = Puzzle::new(w("abcdefghijkl"), 3).unwrap();
    let dict = vec![w("bad"), w("bead"), w("fad"), w("xyz"), w("cc")];
    let legal = p.legal_words(&dict);
    // "bad" has b,a adjacent in group 0; "xyz" has unmapped letters;
    // "cc" repeats group 0.  "bead" and "fad" alternate groups 0 and 1.
    assert_eq!(legal, vec![w("bead"), w("fad")]);
}

#[test]
fn legal_words_of_empty_dictionary_is_empty() {
    let p = Puzzle::new(w("ab"), 1).unwrap();
    let dict: Vec<Vec<char>> = Vec::new();
    let legal = p.legal_words(&dict);
    assert!(legal.is_empty());
}
