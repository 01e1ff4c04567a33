//! Tests for the chain solver: bounded search, iterative deepening,
//! coverage, chaining, minimality and determinism.

use letterbox::puzzle::Puzzle;
use letterbox::solver::{solve_puzzle, solve_recursive};
use std::collections::BTreeSet;

fn w(s: &str) -> Vec<char> {
    s.chars().collect()
}

fn dict(words: &[&str]) -> Vec<Vec<char>> {
    words.iter().map(|s| w(s)).collect()
}

fn legal_for(letters: &str, side: usize, words: &[&str]) -> Vec<Vec<char>> {
    let p = Puzzle::new(w(letters), side).unwrap();
    p.legal_words(&dict(words))
}

#[test]
fn empty_remaining_letters_succeeds_with_empty_chain() {
    // Remaining letters can only be empty at an empty chain when the
    // letter set itself is empty, which the boundary rejects.
    let legal = dict(&["ab"]);
    let mut chain: Vec<Vec<char>> = Vec::new();
    let remaining: Vec<char> = Vec::new();
    assert!(solve_recursive(&mut chain, &remaining, 3, &legal));
    assert!(chain.is_empty());
}

#[test]
fn boundary_rejects_empty_letter_set() {
    assert!(Puzzle::new(w(""), 1).is_none());
}

#[test]
fn bound_one_fails_before_bound_two_succeeds() {
    // No single word covers all of a, b, c, d.
    let legal = legal_for("abcd", 1, &["cab", "bd"]);
    assert_eq!(legal.len(), 2);

    let mut chain: Vec<Vec<char>> = Vec::new();
    assert!(!solve_recursive(&mut chain, &w("abcd"), 1, &legal));
    assert!(chain.is_empty());

    let got = solve_puzzle(&legal, &w("abcd"), 5).unwrap();
    assert_eq!(got, dict(&["cab", "bd"]));
}

#[test]
fn single_word_solution_is_found_at_bound_one() {
    let legal = legal_for("ab", 1, &["ab", "ba"]);
    let got = solve_puzzle(&legal, &w("ab"), 5).unwrap();
    assert_eq!(got.len(), 1);
    // Both words solve the puzzle alone; the dictionary's first is kept.
    assert_eq!(got, dict(&["ab"]));
}

#[test]
fn chain_covers_every_letter_exactly() {
    let letters = "abcd";
    let legal = legal_for(letters, 1, &["cab", "bd"]);
    let got = solve_puzzle(&legal, &w(letters), 5).unwrap();
    let used: BTreeSet<char> = got.iter().flat_map(|word| word.iter().copied()).collect();
    let all: BTreeSet<char> = letters.chars().collect();
    assert_eq!(used, all);
}

#[test]
fn chain_links_end_to_start() {
    let legal = legal_for("abcd", 1, &["cab", "bd"]);
    let got = solve_puzzle(&legal, &w("abcd"), 5).unwrap();
    assert!(got.len() > 1);
    for i in 1..got.len() {
        assert_eq!(got[i][0], *got[i - 1].last().unwrap());
    }
}

#[test]
fn ranking_prefers_words_covering_more_remaining_letters() {
    // "bcde" leaves the fewest letters uncovered, so it is tried first,
    // but no word can follow it; the search backtracks to "abc" and
    // completes with "cde".
    let legal = legal_for("abcde", 1, &["ab", "abc", "bcde", "cde"]);
    let got = solve_puzzle(&legal, &w("abcde"), 5).unwrap();
    assert_eq!(got, dict(&["abc", "cde"]));
}

#[test]
fn unsolvable_puzzle_reports_no_solution_within_bound() {
    // Nothing covers 'b'.
    let legal = legal_for("ab", 1, &["a"]);
    assert!(solve_puzzle(&legal, &w("ab"), 6).is_none());
}

#[test]
fn empty_legal_word_set_has_no_solution() {
    let legal: Vec<Vec<char>> = Vec::new();
    assert!(solve_puzzle(&legal, &w("ab"), 4).is_none());
}

#[test]
fn repeated_runs_return_the_identical_chain() {
    let legal = legal_for("abcde", 1, &["ab", "abc", "bcde", "cde"]);
    let first = solve_puzzle(&legal, &w("abcde"), 8);
    let second = solve_puzzle(&legal, &w("abcde"), 8);
    assert!(first.is_some());
    assert_eq!(first, second);

    // An unsolvable puzzle is reported identically as well.
    let sparse = legal_for("abcdefghijkl", 3, &["bead", "lick"]);
    let third = solve_puzzle(&sparse, &w("abcdefghijkl"), 6);
    let fourth = solve_puzzle(&sparse, &w("abcdefghijkl"), 6);
    assert!(third.is_none());
    assert_eq!(third, fourth);
}

#[test]
fn returned_chain_is_no_longer_than_any_other_solution() {
    // "dcba" alone solves the puzzle, so the minimal chain has one word
    // even though longer solutions exist.
    let legal = legal_for("abcd", 1, &["ab", "bc", "cd", "dcba"]);
    let got = solve_puzzle(&legal, &w("abcd"), 5).unwrap();
    assert_eq!(got.len(), 1);
    assert_eq!(got, dict(&["dcba"]));
}
