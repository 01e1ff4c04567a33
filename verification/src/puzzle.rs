//! Letter groups and the word-legality filter.
//!
//! The puzzle's letters are split into contiguous blocks of `side` letters;
//! a letter's group id is its position divided by the side length.  A word
//! is legal when every one of its letters is a puzzle letter and no two
//! adjacent letters share a group id.

use vstd::prelude::*;

verus! {

/// Position of `ch` in `letters`; meaningful when `letters` has no
/// duplicates and contains `ch`.
pub open spec fn letter_index(letters: Seq<char>, ch: char) -> int {
    letters.index_of(ch)
}

/// Group id of `ch`: its position in `letters` divided by the side length.
pub open spec fn group_id(letters: Seq<char>, side: int, ch: char) -> int {
    letter_index(letters, ch) / side
}

/// A word is legal when it is non-empty, every letter is one of the
/// puzzle's letters, and no two adjacent letters fall in the same group.
pub open spec fn word_legal(letters: Seq<char>, side: int, w: Seq<char>) -> bool {
    &&& w.len() >= 1
    &&& forall|i: int| 0 <= i < w.len() ==> letters.contains(#[trigger] w[i])
    &&& forall|i: int|
        1 <= i < w.len() ==> group_id(letters, side, w[i - 1]) != group_id(
            letters,
            side,
            #[trigger] w[i],
        )
}

/// The legality predicate as a function value, for use with `Seq::filter`.
pub open spec fn legal_pred(letters: Seq<char>, side: int) -> spec_fn(Seq<char>) -> bool {
    |w: Seq<char>| word_legal(letters, side, w)
}

/// The sequence of views of a list of words.
pub open spec fn word_views(ws: Seq<Vec<char>>) -> Seq<Seq<char>> {
    ws.map_values(|w: Vec<char>| w@)
}

/// A valid puzzle input: at least one letter, no repeated letters, and a
/// positive side length that evenly divides the letter count.
pub open spec fn puzzle_input_ok(letters: Seq<char>, side: int) -> bool {
    &&& side >= 1
    &&& letters.len() >= 1
    &&& letters.no_duplicates()
    &&& letters.len() as int % side == 0
}

/// The ordered set of puzzle letters together with the side length that
/// determines the group assignment.
pub struct Puzzle {
    pub letters: Vec<char>,
    pub side: usize,
}

impl Puzzle {
    /// Well-formedness: the invariant established by [`Puzzle::new`].
    pub open spec fn wf(self) -> bool {
        puzzle_input_ok(self.letters@, self.side as int)
    }

    /// Validates the puzzle input, rejecting empty letter lists, repeated
    /// letters, a zero side length, and a letter count that the side
    /// length does not divide.
    pub fn new(letters: Vec<char>, side: usize) -> (r: Option<Puzzle>)
        ensures
            r is Some <==> puzzle_input_ok(letters@, side as int),
            r matches Some(p) ==> p.letters@ == letters@ && p.side == side,
    {
        if side == 0 {
            return None;
        }
        if letters.len() == 0 {
            return None;
        }
        if letters.len() % side != 0 {
            return None;
        }
        if has_duplicate(&letters) {
            return None;
        }
        Some(Puzzle { letters, side })
    }

    /// Group id of `ch`, or `None` when `ch` is not a puzzle letter.
    pub fn group_of(&self, ch: char) -> (r: Option<usize>)
        requires
            self.wf(),
        ensures
            r is Some <==> self.letters@.contains(ch),
            r matches Some(g) ==> g as int == group_id(self.letters@, self.side as int, ch),
    {
        let n = self.letters.len();
        let mut i: usize = 0;
        while i < n
            invariant
                i <= n,
                n == self.letters@.len(),
                self.wf(),
                forall|j: int| 0 <= j < i ==> self.letters@[j] != ch,
            decreases n - i,
        {
            if self.letters[i] == ch {
                proof {
                    assert(self.letters@[i as int] == ch);
                    let j = self.letters@.index_of(ch);
                    assert(0 <= j < self.letters@.len() && self.letters@[j] == ch);
                    assert(j == i as int);
                }
                return Some(i / self.side);
            }
            i = i + 1;
        }
        proof {
            assert(forall|j: int|
                0 <= j < self.letters@.len() ==> self.letters@[j] != ch);
        }
        None
    }

    /// Decides whether `w` is a legal word for this puzzle.
    pub fn is_legal_word(&self, w: &Vec<char>) -> (r: bool)
        requires
            self.wf(),
        ensures
            r == word_legal(self.letters@, self.side as int, w@),
    {
        if w.len() == 0 {
            return false;
        }
        let mut prev: usize = match self.group_of(w[0]) {
            Some(g) => g,
            None => {
                return false;
            },
        };
        let mut i: usize = 1;
        while i < w.len()
            invariant
                1 <= i <= w@.len(),
                self.wf(),
                forall|j: int| 0 <= j < i ==> self.letters@.contains(#[trigger] w@[j]),
                forall|j: int|
                    1 <= j < i ==> group_id(self.letters@, self.side as int, w@[j - 1])
                        != group_id(self.letters@, self.side as int, #[trigger] w@[j]),
                prev as int == group_id(self.letters@, self.side as int, w@[i - 1]),
            decreases w@.len() - i,
        {
            match self.group_of(w[i]) {
                Some(g) => {
                    if g == prev {
                        return false;
                    }
                    prev = g;
                },
                None => {
                    return false;
                },
            }
            i = i + 1;
        }
        true
    }

    /// Filters a dictionary down to its legal words, keeping their order.
    pub fn legal_words(&self, dict: &Vec<Vec<char>>) -> (r: Vec<Vec<char>>)
        requires
            self.wf(),
        ensures
            word_views(r@) == word_views(dict@).filter(
                legal_pred(self.letters@, self.side as int),
            ),
    {
        let ghost pred = legal_pred(self.letters@, self.side as int);
        let mut r: Vec<Vec<char>> = Vec::new();
        let mut i: usize = 0;
        while i < dict.len()
            invariant
                i <= dict@.len(),
                self.wf(),
                pred == legal_pred(self.letters@, self.side as int),
                word_views(r@) == word_views(dict@).take(i as int).filter(pred),
            decreases dict@.len() - i,
        {
            let ghost dv = word_views(dict@);
            proof {
                assert(dv.take(i as int + 1) =~= dv.take(i as int).push(dv[i as int]));
                dv.take(i as int).lemma_filter_push(dv[i as int], pred);
            }
            if self.is_legal_word(&dict[i]) {
                let w = dict[i].clone();
                proof {
                    assert(w@ =~= dict@[i as int]@);
                    assert(word_views(r@.push(w)) =~= word_views(r@).push(w@));
                }
                r.push(w);
            }
            i = i + 1;
        }
        proof {
            assert(word_views(dict@).take(dict@.len() as int) =~= word_views(dict@));
        }
        r
    }
}

/// Decides whether `letters` contains a repeated letter.
fn has_duplicate(letters: &Vec<char>) -> (r: bool)
    ensures
        r == !letters@.no_duplicates(),
{
    let n = letters.len();
    let mut i: usize = 0;
    while i < n
        invariant
            i <= n,
            n == letters@.len(),
            forall|p: int, q: int| 0 <= p < i && p < q < n ==> letters@[p] != letters@[q],
        decreases n - i,
    {
        let mut j: usize = i + 1;
        while j < n
            invariant
                i < j <= n,
                n == letters@.len(),
                forall|q: int| i < q < j ==> letters@[i as int] != letters@[q],
            decreases n - j,
        {
            if letters[i] == letters[j] {
                return true;
            }
            j = j + 1;
        }
        i = i + 1;
    }
    false
}

/// No word accepted by the legality filter has two adjacent letters that
/// share a group id.
pub proof fn lemma_legal_word_groups_differ(letters: Seq<char>, side: int, w: Seq<char>)
    requires
        word_legal(letters, side, w),
    ensures
        forall|i: int|
            1 <= i < w.len() ==> group_id(letters, side, w[i - 1]) != group_id(
                letters,
                side,
                #[trigger] w[i],
            ),
{
}

/// Every letter of a legal word is one of the puzzle's letters.
pub proof fn lemma_legal_word_letters(letters: Seq<char>, side: int, w: Seq<char>)
    requires
        word_legal(letters, side, w),
    ensures
        w.to_set().subset_of(letters.to_set()),
{
    assert forall|ch: char| w.to_set().contains(ch) implies letters.to_set().contains(ch) by {
        assert(w.contains(ch));
        let i = choose|i: int| 0 <= i < w.len() && w[i] == ch;
        assert(letters.contains(w[i]));
    }
}

} // verus!
