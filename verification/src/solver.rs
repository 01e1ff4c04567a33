//! The chain solver: iterative-deepening backtracking search for the
//! shortest chain of legal words that covers every puzzle letter.

use vstd::prelude::*;
use crate::puzzle::word_views;
use crate::puzzle::word_legal;

verus! {

/// Does `w` satisfy the chaining rule after a chain whose last letter is
/// `last`?  With no previous word there is no constraint.
pub open spec fn starts_ok(w: Seq<char>, last: Option<char>) -> bool {
    match last {
        None => true,
        Some(ch) => w.len() >= 1 && w[0] == ch,
    }
}

/// The last letter of the last word of a chain, if any.
pub open spec fn last_of(c: Seq<Seq<char>>) -> Option<char> {
    if c.len() == 0 {
        None
    } else {
        Some(c.last().last())
    }
}

/// The set of letters used by the words of a chain.
pub open spec fn chain_set(c: Seq<Seq<char>>) -> Set<char>
    decreases c.len(),
{
    if c.len() == 0 {
        Set::empty()
    } else {
        c[0].to_set().union(chain_set(c.skip(1)))
    }
}

/// Every word of the chain is drawn from `legal`.
pub open spec fn in_legal(c: Seq<Seq<char>>, legal: Seq<Seq<char>>) -> bool {
    forall|i: int| 0 <= i < c.len() ==> legal.contains(#[trigger] c[i])
}

/// The end-to-start chaining rule: the first word may have to continue a
/// previous chain ending in `last`, and every later word starts with the
/// final letter of the word before it.
pub open spec fn chain_ok(c: Seq<Seq<char>>, last: Option<char>) -> bool {
    &&& c.len() > 0 ==> starts_ok(c[0], last)
    &&& forall|i: int| 1 <= i < c.len() ==> starts_ok(#[trigger] c[i], Some(c[i - 1].last()))
}

/// `c` completes a partial chain ending in `last`: it uses at most `k`
/// words from `legal`, respects the chaining rule, and covers every
/// letter still remaining.
pub open spec fn suffix_solves(
    c: Seq<Seq<char>>,
    legal: Seq<Seq<char>>,
    remaining: Set<char>,
    last: Option<char>,
    k: int,
) -> bool {
    &&& c.len() <= k
    &&& in_legal(c, legal)
    &&& chain_ok(c, last)
    &&& remaining.subset_of(chain_set(c))
}

/// A complete solution: a chain of legal words, linked end-to-start, that
/// covers every letter of `letters`.
pub open spec fn valid_chain(c: Seq<Seq<char>>, legal: Seq<Seq<char>>, letters: Set<char>) -> bool {
    &&& in_legal(c, legal)
    &&& chain_ok(c, None)
    &&& letters.subset_of(chain_set(c))
}

/// The view of a candidate list: each entry is a ranking score paired
/// with the word it scores.
pub open spec fn cand_views(s: Seq<(usize, Vec<char>)>) -> Seq<(int, Seq<char>)> {
    s.map_values(|p: (usize, Vec<char>)| (p.0 as int, p.1@))
}

/// The chaining-rule test as a function value, for use with `Seq::filter`.
pub open spec fn starts_pred(last: Option<char>) -> spec_fn(Seq<char>) -> bool {
    |w: Seq<char>| starts_ok(w, last)
}

/// Pairs a word with its ranking score, for use with `Seq::map_values`.
pub open spec fn entry_fn(rem: Seq<char>) -> spec_fn(Seq<char>) -> (int, Seq<char>) {
    |w: Seq<char>| (spec_score(w, rem), w)
}

/// The unranked candidate pool: the legal words that satisfy the
/// chaining rule after `last`, in dictionary order, each scored against
/// the remaining letters.
pub open spec fn spec_gather(legal: Seq<Seq<char>>, rem: Seq<char>, last: Option<char>) -> Seq<
    (int, Seq<char>),
> {
    legal.filter(starts_pred(last)).map_values(entry_fn(rem))
}

/// Stable insertion of a scored candidate: it goes in front of the first
/// entry with a strictly larger score, so equal scores keep their order.
pub open spec fn spec_insert(acc: Seq<(int, Seq<char>)>, x: (int, Seq<char>)) -> Seq<
    (int, Seq<char>),
>
    decreases acc.len(),
{
    if acc.len() == 0 {
        seq![x]
    } else if acc[0].0 <= x.0 {
        seq![acc[0]] + spec_insert(acc.skip(1), x)
    } else {
        seq![x] + acc
    }
}

/// Stable insertion sort by score, inserting the entries of `s` in turn.
pub open spec fn spec_sort_from(
    acc: Seq<(int, Seq<char>)>,
    s: Seq<(int, Seq<char>)>,
) -> Seq<(int, Seq<char>)>
    decreases s.len(),
{
    if s.len() == 0 {
        acc
    } else {
        spec_sort_from(spec_insert(acc, s[0]), s.skip(1))
    }
}

/// The ranked candidate list: the candidate pool in ascending score
/// order, scores tied by dictionary order.
pub open spec fn spec_ranked(legal: Seq<Seq<char>>, rem: Seq<char>, last: Option<char>) -> Seq<
    (int, Seq<char>),
> {
    spec_sort_from(Seq::empty(), spec_gather(legal, rem, last))
}

/// `spec_insert` puts the new entry exactly at the first position whose
/// score exceeds the new entry's.
proof fn lemma_spec_insert_at(acc: Seq<(int, Seq<char>)>, x: (int, Seq<char>), p: int)
    requires
        0 <= p <= acc.len(),
        forall|j: int| 0 <= j < p ==> (#[trigger] acc[j]).0 <= x.0,
        p < acc.len() ==> acc[p].0 > x.0,
    ensures
        spec_insert(acc, x) == acc.insert(p, x),
    decreases acc.len(),
{
    if acc.len() == 0 {
        assert(spec_insert(acc, x) =~= acc.insert(0, x));
    } else if p == 0 {
        assert(acc[0].0 > x.0);
        assert(spec_insert(acc, x) =~= acc.insert(0, x));
    } else {
        assert(acc[0].0 <= x.0);
        assert forall|j: int| 0 <= j < p - 1 implies (#[trigger] acc.skip(1)[j]).0 <= x.0 by {
            assert(acc.skip(1)[j] == acc[j + 1]);
        }
        assert(p - 1 < acc.skip(1).len() ==> acc.skip(1)[p - 1].0 > x.0);
        lemma_spec_insert_at(acc.skip(1), x, p - 1);
        assert(seq![acc[0]] + acc.skip(1).insert(p - 1, x) =~= acc.insert(p, x));
    }
}

/// The search result, as a function of the puzzle alone: `spec_try`
/// works through a ranked candidate list, `spec_search` ranks and tries.
/// [`solve_recursive`] returns exactly this chain, which is what makes
/// the solver deterministic.
pub open spec fn spec_try(
    legal: Seq<Seq<char>>,
    rem: Seq<char>,
    cands: Seq<(int, Seq<char>)>,
    k: nat,
) -> Option<Seq<Seq<char>>>
    decreases k, 0nat, cands.len(),
{
    if cands.len() == 0 {
        None
    } else if k == 0 {
        None
    } else {
        let w = cands[0].1;
        match spec_search(legal, rem.filter(not_in(w)), Some(w.last()), (k - 1) as nat) {
            Some(rest) => Some(seq![w] + rest),
            None => spec_try(legal, rem, cands.skip(1), k),
        }
    }
}

/// The chain the bounded search returns for a remaining-letter list, a
/// chaining constraint and a bound, or `None` when it fails.
pub open spec fn spec_search(
    legal: Seq<Seq<char>>,
    rem: Seq<char>,
    last: Option<char>,
    k: nat,
) -> Option<Seq<Seq<char>>>
    decreases k, 1nat, 0nat,
{
    if rem.len() == 0 {
        Some(Seq::empty())
    } else if k == 0 {
        None
    } else {
        spec_try(legal, rem, spec_ranked(legal, rem, last), k)
    }
}

/// The chain iterative deepening returns: the result of the first bound
/// in `bound..=max` at which the search succeeds.
pub open spec fn spec_deepen(
    legal: Seq<Seq<char>>,
    letters: Seq<char>,
    bound: nat,
    max: nat,
) -> Option<Seq<Seq<char>>>
    decreases max + 1 - bound,
{
    if bound > max {
        None
    } else {
        match spec_search(legal, letters, None, bound) {
            Some(c) => Some(c),
            None => spec_deepen(legal, letters, bound + 1, max),
        }
    }
}

/// The whole solver's result as a function of the legal word set, the
/// letters and the cutoff: what [`solve_puzzle`] returns.
pub open spec fn spec_solve(legal: Seq<Seq<char>>, letters: Seq<char>, max: nat) -> Option<
    Seq<Seq<char>>,
> {
    spec_deepen(legal, letters, 1, max)
}

/// Prepending a word that respects the chaining rule to a completion of
/// the rest of the puzzle completes the whole puzzle.
proof fn lemma_suffix_extend(
    w: Seq<char>,
    rest: Seq<Seq<char>>,
    legal: Seq<Seq<char>>,
    rem: Set<char>,
    last: Option<char>,
    k: int,
)
    requires
        legal.contains(w),
        w.len() >= 1,
        starts_ok(w, last),
        suffix_solves(rest, legal, rem.difference(w.to_set()), Some(w.last()), k - 1),
    ensures
        suffix_solves(seq![w] + rest, legal, rem, last, k),
{
    let c = seq![w] + rest;
    assert(c[0] == w);
    assert(c.skip(1) =~= rest);
    assert forall|i: int| 0 <= i < c.len() implies legal.contains(#[trigger] c[i]) by {
        if i >= 1 {
            assert(c[i] == rest[i - 1]);
        }
    }
    assert forall|i: int| 1 <= i < c.len() implies starts_ok(#[trigger] c[i], Some(c[i - 1].last())) by {
        if i == 1 {
            assert(rest.len() >= 1);
            assert(c[1] == rest[0]);
        } else {
            assert(c[i] == rest[i - 1] && c[i - 1] == rest[i - 2]);
            assert(starts_ok(rest[i - 1], Some(rest[i - 2].last())));
        }
    }
    assert(chain_set(c) == w.to_set().union(chain_set(rest)));
    assert forall|x: char| rem.contains(x) implies chain_set(c).contains(x) by {
        if !w.to_set().contains(x) {
            assert(rem.difference(w.to_set()).contains(x));
        }
    }
}

/// Splitting off the first word of a chain that completes the puzzle
/// leaves a chain that completes what that word does not cover.
proof fn lemma_suffix_split(
    c: Seq<Seq<char>>,
    legal: Seq<Seq<char>>,
    rem: Set<char>,
    last: Option<char>,
    k: int,
)
    requires
        suffix_solves(c, legal, rem, last, k),
        c.len() >= 1,
    ensures
        legal.contains(c[0]),
        starts_ok(c[0], last),
        suffix_solves(c.skip(1), legal, rem.difference(c[0].to_set()), Some(c[0].last()), k - 1),
{
    let rest = c.skip(1);
    assert forall|i: int| 0 <= i < rest.len() implies legal.contains(#[trigger] rest[i]) by {
        assert(rest[i] == c[i + 1]);
    }
    assert(rest.len() > 0 ==> starts_ok(rest[0], Some(c[0].last()))) by {
        if rest.len() > 0 {
            assert(rest[0] == c[1]);
            assert(starts_ok(c[1], Some(c[0].last())));
        }
    }
    assert forall|i: int| 1 <= i < rest.len() implies starts_ok(
        #[trigger] rest[i],
        Some(rest[i - 1].last()),
    ) by {
        assert(rest[i] == c[i + 1] && rest[i - 1] == c[i]);
        assert(starts_ok(c[i + 1], Some(c[i].last())));
    }
    assert(chain_set(c) == c[0].to_set().union(chain_set(rest)));
    assert forall|x: char| rem.difference(c[0].to_set()).contains(x) implies chain_set(
        rest,
    ).contains(x) by {
        assert(chain_set(c).contains(x));
    }
}

/// An empty chain uses no letters.
proof fn lemma_chain_set_empty(c: Seq<Seq<char>>)
    requires
        c.len() == 0,
    ensures
        chain_set(c) == Set::<char>::empty(),
{
}

/// The letters that remain after covering those of `w`, as a predicate
/// for `Seq::filter`.
pub open spec fn not_in(w: Seq<char>) -> spec_fn(char) -> bool {
    |c: char| !w.contains(c)
}

/// Relates the filtered sequence of uncovered letters to the set
/// difference it represents.
proof fn lemma_filter_not_in_set(rem: Seq<char>, w: Seq<char>)
    ensures
        rem.filter(not_in(w)).to_set() == rem.to_set().difference(w.to_set()),
{
    broadcast use vstd::seq_lib::group_filter_ensures;

    let f = rem.filter(not_in(w));
    assert forall|x: char| f.to_set().contains(x) implies rem.to_set().difference(
        w.to_set(),
    ).contains(x) by {
        assert(f.contains(x));
        let i = choose|i: int| 0 <= i < f.len() && f[i] == x;
        assert(not_in(w)(f[i]));
        rem.lemma_filter_contains_rev(not_in(w), x);
    }
    assert forall|x: char| rem.to_set().difference(w.to_set()).contains(x) implies f.to_set()
        .contains(x) by {
        assert(rem.contains(x));
        let i = choose|i: int| 0 <= i < rem.len() && rem[i] == x;
        assert(not_in(w)(rem[i]));
        assert(f.contains(rem[i]));
    }
    assert(f.to_set() =~= rem.to_set().difference(w.to_set()));
}

/// Decides whether `w` contains the letter `ch`.
fn contains_char(w: &Vec<char>, ch: char) -> (r: bool)
    ensures
        r == w@.contains(ch),
{
    let mut i: usize = 0;
    while i < w.len()
        invariant
            i <= w@.len(),
            forall|j: int| 0 <= j < i ==> w@[j] != ch,
        decreases w@.len() - i,
    {
        if w[i] == ch {
            proof {
                assert(w@[i as int] == ch);
            }
            return true;
        }
        i = i + 1;
    }
    false
}

/// The letters of `remaining` not covered by `word`: the new remaining
/// set after choosing `word`.
fn remove_covered(remaining: &Vec<char>, word: &Vec<char>) -> (out: Vec<char>)
    ensures
        out@ == remaining@.filter(not_in(word@)),
        out@.to_set() == remaining@.to_set().difference(word@.to_set()),
{
    let ghost pred = not_in(word@);
    let mut out: Vec<char> = Vec::new();
    let mut i: usize = 0;
    while i < remaining.len()
        invariant
            i <= remaining@.len(),
            pred == not_in(word@),
            out@ == remaining@.take(i as int).filter(pred),
        decreases remaining@.len() - i,
    {
        proof {
            assert(remaining@.take(i as int + 1) =~= remaining@.take(i as int).push(
                remaining@[i as int],
            ));
            remaining@.take(i as int).lemma_filter_push(remaining@[i as int], pred);
        }
        if !contains_char(word, remaining[i]) {
            out.push(remaining[i]);
        }
        i = i + 1;
    }
    proof {
        assert(remaining@.take(remaining@.len() as int) =~= remaining@);
        lemma_filter_not_in_set(remaining@, word@);
    }
    out
}

/// The ranking score of a candidate: how many of the remaining letters
/// it would leave uncovered.  Lower is better.
pub open spec fn spec_score(w: Seq<char>, remaining: Seq<char>) -> int {
    remaining.filter(not_in(w)).len() as int
}

/// Computes the ranking score of `word` against the remaining letters.
fn score_of(word: &Vec<char>, remaining: &Vec<char>) -> (s: usize)
    ensures
        s as int == spec_score(word@, remaining@),
{
    let uncovered = remove_covered(remaining, word);
    uncovered.len()
}

/// Sorts candidates into ascending score order.  The sort is stable, so
/// candidates with equal scores keep the dictionary's order; it returns
/// exactly the elements it was given.
fn sort_by_score(input: Vec<(usize, Vec<char>)>) -> (out: Vec<(usize, Vec<char>)>)
    ensures
        out@.to_multiset() == input@.to_multiset(),
        forall|a: int, b: int|
            0 <= a < b < out@.len() ==> (#[trigger] out@[a]).0 <= (#[trigger] out@[b]).0,
        cand_views(out@) == spec_sort_from(Seq::empty(), cand_views(input@)),
{
    let ghost orig = input@;
    let mut rest = input;
    let mut out: Vec<(usize, Vec<char>)> = Vec::new();
    proof {
        broadcast use vstd::multiset::group_multiset_axioms;

        out@.to_multiset_ensures();
        assert forall|e: (usize, Vec<char>)| out@.to_multiset().count(e) == 0 by {
            assert(!out@.contains(e));
        }
        assert(out@.to_multiset().add(rest@.to_multiset()) =~= orig.to_multiset());
        assert(cand_views(out@) =~= Seq::<(int, Seq<char>)>::empty());
    }
    while rest.len() > 0
        invariant
            out@.to_multiset().add(rest@.to_multiset()) == orig.to_multiset(),
            forall|a: int, b: int|
                0 <= a < b < out@.len() ==> (#[trigger] out@[a]).0 <= (#[trigger] out@[b]).0,
            spec_sort_from(cand_views(out@), cand_views(rest@)) == spec_sort_from(
                Seq::empty(),
                cand_views(orig),
            ),
        decreases rest@.len(),
    {
        let ghost rest0 = rest@;
        let ghost out0 = out@;
        let x = rest.remove(0);
        let mut pos: usize = 0;
        while pos < out.len() && out[pos].0 <= x.0
            invariant
                pos <= out@.len(),
                out@ == out0,
                forall|j: int| 0 <= j < pos ==> (#[trigger] out@[j]).0 <= x.0,
            decreases out@.len() - pos,
        {
            pos = pos + 1;
        }
        proof {
            broadcast use vstd::multiset::group_multiset_axioms;

            rest0.to_multiset_ensures();
            assert(rest0.contains(rest0[0]));
            assert(rest0.to_multiset().count(x) > 0);
            assert(rest@ == rest0.remove(0));
            assert(rest0.remove(0).to_multiset() == rest0.to_multiset().remove(rest0[0]));
            vstd::seq_lib::to_multiset_insert(out0, pos as int, x);
            assert(out0.insert(pos as int, x).to_multiset().add(rest@.to_multiset())
                =~= orig.to_multiset());
            out0.insert_ensures(pos as int, x);
        }
        out.insert(pos, x);
        proof {
            assert forall|a: int, b: int| 0 <= a < b < out@.len() implies (#[trigger] out@[a]).0
                <= (#[trigger] out@[b]).0 by {
                let p = pos as int;
                if a < p && b < p {
                    assert(out@[a] == out0[a] && out@[b] == out0[b]);
                } else if a < p && b == p {
                    assert(out@[a] == out0[a]);
                } else if a < p && b > p {
                    assert(out@[a] == out0[a] && out@[b] == out0[b - 1]);
                } else if a == p && b > p {
                    assert(out@[b] == out0[b - 1]);
                    assert(out0[p].0 > x.0);
                    assert(out0[b - 1].0 >= out0[p].0);
                } else {
                    assert(a > p);
                    assert(out@[a] == out0[a - 1] && out@[b] == out0[b - 1]);
                }
            }
            let xv = (x.0 as int, x.1@);
            assert(cand_views(rest0)[0] == xv);
            assert(cand_views(rest0).skip(1) =~= cand_views(rest@));
            assert forall|j: int| 0 <= j < pos implies (#[trigger] cand_views(out0)[j]).0
                <= xv.0 by {
                assert(cand_views(out0)[j].0 == out0[j].0 as int);
                assert(out0[j].0 <= x.0);
            }
            lemma_spec_insert_at(cand_views(out0), xv, pos as int);
            cand_views(out0).insert_ensures(pos as int, xv);
            out0.insert_ensures(pos as int, x);
            assert(cand_views(out@) =~= cand_views(out0).insert(pos as int, xv));
            assert(spec_sort_from(cand_views(out@), cand_views(rest@)) == spec_sort_from(
                cand_views(out0),
                cand_views(rest0),
            ));
        }
    }
    proof {
        broadcast use vstd::multiset::group_multiset_axioms;

        rest@.to_multiset_ensures();
        assert forall|e: (usize, Vec<char>)| rest@.to_multiset().count(e) == 0 by {
            assert(!rest@.contains(e));
        }
        assert(out@.to_multiset() =~= orig.to_multiset());
        assert(cand_views(rest@) =~= Seq::<(int, Seq<char>)>::empty());
    }
    out
}

/// The candidate pool for one search step, in the order the search tries
/// it: the legal words that satisfy the chaining rule after `last`, each
/// paired with its ranking score, in ascending score order.
fn ranked_candidates(legal_words: &Vec<Vec<char>>, remaining: &Vec<char>, last: Option<char>) -> (cands: Vec<(usize, Vec<char>)>)
    requires
        forall|i: int| 0 <= i < legal_words@.len() ==> (#[trigger] legal_words@[i])@.len() >= 1,
    ensures
        forall|j: int|
            0 <= j < cands@.len() ==> word_views(legal_words@).contains((#[trigger] cands@[j]).1@)
                && starts_ok(cands@[j].1@, last),
        forall|i: int|
            0 <= i < legal_words@.len() && starts_ok((#[trigger] legal_words@[i])@, last)
                ==> exists|j: int| 0 <= j < cands@.len() && cands@[j].1@ == legal_words@[i]@,
        forall|a: int, b: int|
            0 <= a < b < cands@.len() ==> (#[trigger] cands@[a]).0 <= (#[trigger] cands@[b]).0,
        cand_views(cands@) == spec_ranked(word_views(legal_words@), remaining@, last),
{
    let ghost lv = word_views(legal_words@);
    let mut gathered: Vec<(usize, Vec<char>)> = Vec::new();
    proof {
        assert(lv.take(0) =~= Seq::<Seq<char>>::empty());
        assert(Seq::<Seq<char>>::empty().filter(starts_pred(last)) =~= Seq::<Seq<char>>::empty());
        assert(cand_views(gathered@) =~= spec_gather(lv.take(0), remaining@, last));
    }
    let mut i: usize = 0;
    while i < legal_words.len()
        invariant
            i <= legal_words@.len(),
            lv == word_views(legal_words@),
            cand_views(gathered@) == spec_gather(lv.take(i as int), remaining@, last),
            forall|i2: int|
                0 <= i2 < legal_words@.len() ==> (#[trigger] legal_words@[i2])@.len() >= 1,
            forall|j: int|
                0 <= j < gathered@.len() ==> word_views(legal_words@).contains(
                    (#[trigger] gathered@[j]).1@,
                ) && starts_ok(gathered@[j].1@, last),
            forall|i2: int|
                0 <= i2 < i && starts_ok((#[trigger] legal_words@[i2])@, last) ==> exists|j: int|
                    0 <= j < gathered@.len() && gathered@[j].1@ == legal_words@[i2]@,
        decreases legal_words@.len() - i,
    {
        let w = &legal_words[i];
        let matches_last: bool = match last {
            None => true,
            Some(ch) => w[0] == ch,
        };
        let ghost gathered0 = gathered@;
        proof {
            assert(lv.take(i as int + 1) =~= lv.take(i as int).push(lv[i as int]));
            lv.take(i as int).lemma_filter_push(lv[i as int], starts_pred(last));
            assert(matches_last == starts_pred(last)(lv[i as int]));
        }
        if matches_last {
            let sc = score_of(w, remaining);
            let wc = w.clone();
            proof {
                assert(wc@ =~= legal_words@[i as int]@);
            }
            gathered.push((sc, wc));
            proof {
                let n = gathered0.len();
                assert(gathered@[n as int] == (sc, wc));
                assert(word_views(legal_words@)[i as int] == legal_words@[i as int]@);
                assert(word_views(legal_words@).contains(wc@));
                assert((sc as int, wc@) == entry_fn(remaining@)(lv[i as int]));
                assert(cand_views(gathered@) =~= spec_gather(
                    lv.take(i as int),
                    remaining@,
                    last,
                ).push(entry_fn(remaining@)(lv[i as int])));
                assert(spec_gather(lv.take(i as int + 1), remaining@, last) =~= spec_gather(
                    lv.take(i as int),
                    remaining@,
                    last,
                ).push(entry_fn(remaining@)(lv[i as int])));
                assert forall|i2: int|
                    0 <= i2 < i + 1 && starts_ok((#[trigger] legal_words@[i2])@, last)
                        implies exists|j: int|
                        0 <= j < gathered@.len() && gathered@[j].1@ == legal_words@[i2]@ by {
                    if i2 < i {
                        let j = choose|j: int|
                            0 <= j < gathered0.len() && gathered0[j].1@ == legal_words@[i2]@;
                        assert(gathered@[j] == gathered0[j]);
                    } else {
                        assert(gathered@[n as int].1@ == legal_words@[i2]@);
                    }
                }
            }
        } else {
            proof {
                assert(!starts_ok(legal_words@[i as int]@, last));
                assert(spec_gather(lv.take(i as int + 1), remaining@, last) == spec_gather(
                    lv.take(i as int),
                    remaining@,
                    last,
                ));
            }
        }
        i = i + 1;
    }
    let ghost gat = gathered@;
    let cands = sort_by_score(gathered);
    proof {
        assert(lv.take(legal_words@.len() as int) =~= lv);
        assert(cand_views(cands@) == spec_ranked(lv, remaining@, last));
        cands@.to_multiset_ensures();
        gat.to_multiset_ensures();
        assert forall|j: int|
            0 <= j < cands@.len() implies word_views(legal_words@).contains(
            (#[trigger] cands@[j]).1@,
        ) && starts_ok(cands@[j].1@, last) by {
            assert(cands@.contains(cands@[j]));
            assert(cands@.to_multiset().count(cands@[j]) > 0);
            assert(gat.contains(cands@[j]));
            let j0 = choose|j0: int| 0 <= j0 < gat.len() && gat[j0] == cands@[j];
            assert(word_views(legal_words@).contains(gat[j0].1@));
        }
        assert forall|i2: int|
            0 <= i2 < legal_words@.len() && starts_ok((#[trigger] legal_words@[i2])@, last)
                implies exists|j: int|
                0 <= j < cands@.len() && cands@[j].1@ == legal_words@[i2]@ by {
            let j0 = choose|j0: int| 0 <= j0 < gat.len() && gat[j0].1@ == legal_words@[i2]@;
            assert(gat.contains(gat[j0]));
            assert(gat.to_multiset().count(gat[j0]) > 0);
            assert(cands@.contains(gat[j0]));
            let j = choose|j: int| 0 <= j < cands@.len() && cands@[j] == gat[j0];
            assert(cands@[j].1@ == legal_words@[i2]@);
        }
    }
    cands
}

/// Bounded backtracking search.  Tries to extend the partial chain in
/// `words` with at most `max_words - words.len()` further legal words so
/// that every remaining letter is covered and the chaining rule holds.
///
/// Returns `true` exactly when such a completion exists: on success the
/// completion has been appended to `words`; on failure `words` is
/// unchanged and *no* completion within the bound exists.  The appended
/// completion is exactly the chain [`spec_search`] picks, so the search
/// is deterministic.
pub fn solve_recursive(
    words: &mut Vec<Vec<char>>,
    remaining_letters: &Vec<char>,
    max_words: usize,
    legal_words: &Vec<Vec<char>>,
) -> (r: bool)
    requires
        old(words)@.len() <= max_words,
        forall|i: int| 0 <= i < legal_words@.len() ==> (#[trigger] legal_words@[i])@.len() >= 1,
        forall|i: int| 0 <= i < old(words)@.len() ==> (#[trigger] old(words)@[i])@.len() >= 1,
    ensures
        final(words)@.len() >= old(words)@.len(),
        forall|i: int| 0 <= i < old(words)@.len() ==> final(words)@[i] == old(words)@[i],
        forall|i: int| 0 <= i < final(words)@.len() ==> (#[trigger] final(words)@[i])@.len() >= 1,
        !r ==> final(words)@ == old(words)@,
        r ==> final(words)@.len() <= max_words,
        r ==> suffix_solves(
            word_views(final(words)@).skip(old(words)@.len() as int),
            word_views(legal_words@),
            remaining_letters@.to_set(),
            last_of(word_views(old(words)@)),
            max_words - old(words)@.len(),
        ),
        !r ==> forall|c: Seq<Seq<char>>|
            !(#[trigger] suffix_solves(
                c,
                word_views(legal_words@),
                remaining_letters@.to_set(),
                last_of(word_views(old(words)@)),
                max_words - old(words)@.len(),
            )),
        spec_search(
            word_views(legal_words@),
            remaining_letters@,
            last_of(word_views(old(words)@)),
            (max_words - old(words)@.len()) as nat,
        ) == (if r {
            Some(word_views(final(words)@).skip(old(words)@.len() as int))
        } else {
            None::<Seq<Seq<char>>>
        }),
    decreases max_words - words@.len(),
{
    let ghost legal_v = word_views(legal_words@);
    let ghost rem_set = remaining_letters@.to_set();
    let ghost orig = words@;
    let ghost last0 = last_of(word_views(orig));
    let ghost k = max_words - orig.len();
    let ghost kn = k as nat;

    if remaining_letters.len() == 0 {
        proof {
            let empty = word_views(words@).skip(orig.len() as int);
            assert(empty =~= Seq::<Seq<char>>::empty());
            lemma_chain_set_empty(empty);
            assert forall|x: char| rem_set.contains(x) implies chain_set(empty).contains(x) by {
                assert(remaining_letters@.contains(x));
                let i = choose|i: int|
                    0 <= i < remaining_letters@.len() && remaining_letters@[i] == x;
                assert(false);
            }
            assert(spec_search(legal_v, remaining_letters@, last0, kn) == Some(
                Seq::<Seq<char>>::empty(),
            ));
        }
        return true;
    }
    if words.len() == max_words {
        proof {
            assert(remaining_letters@.contains(remaining_letters@[0]));
            assert(rem_set.contains(remaining_letters@[0]));
            assert forall|c: Seq<Seq<char>>| !suffix_solves(c, legal_v, rem_set, last0, k) by {
                if suffix_solves(c, legal_v, rem_set, last0, k) {
                    assert(c.len() <= 0);
                    lemma_chain_set_empty(c);
                    assert(chain_set(c).contains(remaining_letters@[0]));
                }
            }
            assert(kn == 0);
            assert(spec_search(legal_v, remaining_letters@, last0, kn) == None::<Seq<Seq<char>>>);
        }
        return false;
    }

    let last: Option<char> = if words.len() == 0 {
        None
    } else {
        let wl = words.len();
        let lastw = &words[wl - 1];
        Some(lastw[lastw.len() - 1])
    };
    proof {
        if orig.len() > 0 {
            assert(word_views(orig).last() == orig.last()@);
        }
        assert(last == last0);
    }

    let cands = ranked_candidates(legal_words, remaining_letters, last);
    proof {
        assert(cand_views(cands@).skip(0) =~= cand_views(cands@));
        assert(spec_search(legal_v, remaining_letters@, last0, kn) == spec_try(
            legal_v,
            remaining_letters@,
            cand_views(cands@).skip(0),
            kn,
        ));
    }

    let mut i: usize = 0;
    while i < cands.len()
        invariant
            orig == old(words)@,
            words@ == orig,
            i <= cands@.len(),
            orig.len() < max_words,
            rem_set == remaining_letters@.to_set(),
            legal_v == word_views(legal_words@),
            last0 == last_of(word_views(orig)),
            k == max_words - orig.len(),
            k >= 1,
            kn == k as nat,
            remaining_letters@.len() > 0,
            spec_search(legal_v, remaining_letters@, last0, kn) == spec_try(
                legal_v,
                remaining_letters@,
                cand_views(cands@).skip(i as int),
                kn,
            ),
            forall|j: int| 0 <= j < legal_words@.len() ==> (#[trigger] legal_words@[j])@.len() >= 1,
            forall|j: int| 0 <= j < orig.len() ==> (#[trigger] orig[j])@.len() >= 1,
            forall|j: int|
                0 <= j < cands@.len() ==> legal_v.contains((#[trigger] cands@[j]).1@) && starts_ok(
                    cands@[j].1@,
                    last0,
                ),
            forall|c: Seq<Seq<char>>|
                #[trigger] suffix_solves(c, legal_v, rem_set, last0, k) && c.len() >= 1
                    ==> exists|j: int| i <= j < cands@.len() && c[0] == cands@[j].1@,
        decreases cands@.len() - i,
    {
        let choice = cands[i].1.clone();
        proof {
            assert(choice@ =~= cands@[i as int].1@);
        }
        let ghost ch_v = choice@;
        let new_remaining = remove_covered(remaining_letters, &choice);
        proof {
            assert(legal_v.contains(ch_v));
            let li = choose|li: int| 0 <= li < legal_v.len() && legal_v[li] == ch_v;
            assert(legal_words@[li]@.len() >= 1);
        }
        words.push(choice);
        proof {
            assert(word_views(words@) =~= word_views(orig).push(ch_v));
            assert(word_views(words@).last() == ch_v);
            assert(last_of(word_views(words@)) == Some(ch_v.last()));
            assert(new_remaining@.to_set() == rem_set.difference(ch_v.to_set()));
            assert forall|idx: int| 0 <= idx < words@.len() implies (#[trigger] words@[idx])@.len()
                >= 1 by {
                if idx < orig.len() {
                    assert(words@[idx] == orig[idx]);
                } else {
                    assert(words@[idx]@ == ch_v);
                }
            }
        }
        let recurse_ok = solve_recursive(words, &new_remaining, max_words, legal_words);
        if recurse_ok {
            proof {
                let sub = word_views(words@).skip(orig.len() as int + 1);
                assert(suffix_solves(
                    sub,
                    legal_v,
                    rem_set.difference(ch_v.to_set()),
                    Some(ch_v.last()),
                    k - 1,
                ));
                lemma_suffix_extend(ch_v, sub, legal_v, rem_set, last0, k);
                assert(word_views(words@)[orig.len() as int] == ch_v);
                assert(word_views(words@).skip(orig.len() as int) =~= seq![ch_v] + sub);
                assert(new_remaining@ == remaining_letters@.filter(not_in(ch_v)));
                assert(spec_search(legal_v, new_remaining@, Some(ch_v.last()), (kn - 1) as nat)
                    == Some(sub));
                assert(cand_views(cands@).skip(i as int)[0].1 == ch_v);
                assert(spec_try(legal_v, remaining_letters@, cand_views(cands@).skip(i as int), kn)
                    == Some(seq![ch_v] + sub));
                assert(spec_search(legal_v, remaining_letters@, last0, kn) == Some(
                    word_views(words@).skip(orig.len() as int),
                ));
            }
            return true;
        }
        words.pop();
        proof {
            assert(words@ =~= orig);
            assert forall|c: Seq<Seq<char>>|
                #[trigger] suffix_solves(c, legal_v, rem_set, last0, k) && c.len() >= 1
                    implies exists|j: int| i + 1 <= j < cands@.len() && c[0] == cands@[j].1@ by {
                let j = choose|j: int| i <= j < cands@.len() && c[0] == cands@[j].1@;
                if j == i {
                    lemma_suffix_split(c, legal_v, rem_set, last0, k);
                    assert(suffix_solves(
                        c.skip(1),
                        legal_v,
                        rem_set.difference(ch_v.to_set()),
                        Some(ch_v.last()),
                        k - 1,
                    ));
                    assert(false);
                } else {
                    assert(i + 1 <= j < cands@.len() && c[0] == cands@[j].1@);
                }
            }
            assert(new_remaining@ == remaining_letters@.filter(not_in(ch_v)));
            assert(spec_search(legal_v, new_remaining@, Some(ch_v.last()), (kn - 1) as nat)
                == None::<Seq<Seq<char>>>);
            assert(cand_views(cands@).skip(i as int)[0].1 == ch_v);
            assert(cand_views(cands@).skip(i as int).skip(1) =~= cand_views(cands@).skip(
                i as int + 1,
            ));
            assert(spec_try(legal_v, remaining_letters@, cand_views(cands@).skip(i as int), kn)
                == spec_try(
                legal_v,
                remaining_letters@,
                cand_views(cands@).skip(i as int + 1),
                kn,
            ));
        }
        i = i + 1;
    }
    proof {
        assert forall|c: Seq<Seq<char>>| !suffix_solves(c, legal_v, rem_set, last0, k) by {
            if suffix_solves(c, legal_v, rem_set, last0, k) {
                if c.len() == 0 {
                    lemma_chain_set_empty(c);
                    assert(rem_set.contains(remaining_letters@[0]));
                    assert(chain_set(c).contains(remaining_letters@[0]));
                } else {
                    let j = choose|j: int| i <= j < cands@.len() && c[0] == cands@[j].1@;
                    assert(false);
                }
            }
        }
        assert(cand_views(cands@).skip(i as int) =~= Seq::<(int, Seq<char>)>::empty());
        assert(spec_try(legal_v, remaining_letters@, cand_views(cands@).skip(i as int), kn)
            == None::<Seq<Seq<char>>>);
        assert(spec_search(legal_v, remaining_letters@, last0, kn) == None::<Seq<Seq<char>>>);
    }
    false
}

/// Iterative deepening: tries bounds 1, 2, ... up to `max_bound` and
/// returns the first chain found, which therefore has the minimum
/// possible number of words.  Returns `None` exactly when no chain of at
/// most `max_bound` legal words covers the letters; `max_bound` is the
/// caller's cutoff against unsolvable puzzles.  The result equals
/// [`spec_solve`] of the inputs, so identical inputs give the identical
/// chain.
pub fn solve_puzzle(legal_words: &Vec<Vec<char>>, letters: &Vec<char>, max_bound: usize) -> (r:
    Option<Vec<Vec<char>>>)
    requires
        letters@.len() >= 1,
        forall|i: int| 0 <= i < legal_words@.len() ==> (#[trigger] legal_words@[i])@.len() >= 1,
    ensures
        r matches Some(chain) ==> {
            &&& valid_chain(word_views(chain@), word_views(legal_words@), letters@.to_set())
            &&& 1 <= chain@.len() <= max_bound
            &&& forall|c: Seq<Seq<char>>|
                valid_chain(c, word_views(legal_words@), letters@.to_set()) ==> c.len()
                    >= chain@.len()
        },
        r is None ==> forall|c: Seq<Seq<char>>|
            valid_chain(c, word_views(legal_words@), letters@.to_set()) ==> c.len() > max_bound,
        spec_solve(word_views(legal_words@), letters@, max_bound as nat) == (match r {
            Some(chain) => Some(word_views(chain@)),
            None => None::<Seq<Seq<char>>>,
        }),
{
    let ghost legal_v = word_views(legal_words@);
    let ghost lset = letters@.to_set();
    proof {
        assert(lset.contains(letters@[0]));
        assert forall|c: Seq<Seq<char>>| valid_chain(c, legal_v, lset) implies c.len() > 0 by {
            if c.len() == 0 {
                lemma_chain_set_empty(c);
                assert(chain_set(c).contains(letters@[0]));
            }
        }
    }
    let mut bound: usize = 0;
    while bound < max_bound
        invariant
            bound <= max_bound,
            legal_v == word_views(legal_words@),
            lset == letters@.to_set(),
            letters@.len() >= 1,
            forall|i: int| 0 <= i < legal_words@.len() ==> (#[trigger] legal_words@[i])@.len() >= 1,
            forall|c: Seq<Seq<char>>|
                #[trigger] valid_chain(c, legal_v, lset) ==> c.len() > bound,
            spec_deepen(legal_v, letters@, (bound + 1) as nat, max_bound as nat) == spec_solve(
                legal_v,
                letters@,
                max_bound as nat,
            ),
        decreases max_bound - bound,
    {
        bound = bound + 1;
        let mut chain: Vec<Vec<char>> = Vec::new();
        let remaining = letters.clone();
        let ghost chain0 = chain@;
        proof {
            assert(remaining@ =~= letters@);
            assert(word_views(chain0) =~= Seq::<Seq<char>>::empty());
            assert(last_of(word_views(chain0)) == None::<char>);
        }
        if solve_recursive(&mut chain, &remaining, bound, legal_words) {
            proof {
                assert(word_views(chain@).skip(chain0.len() as int) =~= word_views(chain@));
                assert(suffix_solves(
                    word_views(chain@),
                    legal_v,
                    lset,
                    None,
                    bound - chain0.len(),
                ));
                assert(valid_chain(word_views(chain@), legal_v, lset));
                assert(word_views(chain@).len() == chain@.len());
                assert(spec_search(legal_v, letters@, None, bound as nat) == Some(
                    word_views(chain@),
                ));
                assert(spec_deepen(legal_v, letters@, bound as nat, max_bound as nat) == Some(
                    word_views(chain@),
                ));
            }
            return Some(chain);
        }
        proof {
            assert forall|c: Seq<Seq<char>>| #[trigger] valid_chain(c, legal_v, lset)
                implies c.len() > bound by {
                if c.len() <= bound {
                    assert(suffix_solves(
                        c,
                        legal_v,
                        remaining@.to_set(),
                        last_of(word_views(chain0)),
                        bound - chain0.len(),
                    ));
                    assert(false);
                }
            }
            assert(spec_search(legal_v, letters@, None, bound as nat) == None::<Seq<Seq<char>>>);
            assert(spec_deepen(legal_v, letters@, bound as nat, max_bound as nat) == spec_deepen(
                legal_v,
                letters@,
                (bound + 1) as nat,
                max_bound as nat,
            ));
        }
    }
    proof {
        assert(spec_deepen(legal_v, letters@, (bound + 1) as nat, max_bound as nat)
            == None::<Seq<Seq<char>>>);
    }
    None
}

/// Coverage is exact: a chain drawn from the legality filter's output
/// that covers every puzzle letter uses the puzzle's letters and no
/// others, so the union of its words' letters equals the full letter set.
pub proof fn lemma_coverage_exact(
    c: Seq<Seq<char>>,
    legal: Seq<Seq<char>>,
    letters: Seq<char>,
    side: int,
)
    requires
        forall|i: int| 0 <= i < legal.len() ==> word_legal(letters, side, #[trigger] legal[i]),
        valid_chain(c, legal, letters.to_set()),
    ensures
        chain_set(c) == letters.to_set(),
{
    lemma_chain_set_in_letters(c, legal, letters, side);
    assert(chain_set(c) =~= letters.to_set());
}

/// The letters used by a chain of legal words all belong to the puzzle.
proof fn lemma_chain_set_in_letters(
    c: Seq<Seq<char>>,
    legal: Seq<Seq<char>>,
    letters: Seq<char>,
    side: int,
)
    requires
        forall|i: int| 0 <= i < legal.len() ==> word_legal(letters, side, #[trigger] legal[i]),
        in_legal(c, legal),
    ensures
        chain_set(c).subset_of(letters.to_set()),
    decreases c.len(),
{
    if c.len() > 0 {
        assert(legal.contains(c[0]));
        let li = choose|li: int| 0 <= li < legal.len() && legal[li] == c[0];
        crate::puzzle::lemma_legal_word_letters(letters, side, c[0]);
        assert forall|i: int| 0 <= i < c.skip(1).len() implies legal.contains(
            #[trigger] c.skip(1)[i],
        ) by {
            assert(c.skip(1)[i] == c[i + 1]);
        }
        lemma_chain_set_in_letters(c.skip(1), legal, letters, side);
    }
}

/// Chaining invariant: in any solution chain of more than one word, each
/// word's first letter equals the previous word's last letter.
pub proof fn lemma_chain_links(c: Seq<Seq<char>>, legal: Seq<Seq<char>>, letters: Set<char>)
    requires
        valid_chain(c, legal, letters),
    ensures
        forall|i: int| 1 <= i < c.len() ==> (#[trigger] c[i])[0] == c[i - 1].last(),
{
    assert forall|i: int| 1 <= i < c.len() implies (#[trigger] c[i])[0] == c[i - 1].last() by {
        assert(starts_ok(c[i], Some(c[i - 1].last())));
    }
}

/// Determinism: [`solve_puzzle`] ensures its result equals
/// [`spec_solve`], a function of the legal word set, the letter list and
/// the cutoff alone, so repeated runs on identical inputs return the
/// identical chain.
pub proof fn lemma_deterministic(
    r1: Option<Seq<Seq<char>>>,
    r2: Option<Seq<Seq<char>>>,
    legal: Seq<Seq<char>>,
    letters: Seq<char>,
    max: nat,
)
    requires
        r1 == spec_solve(legal, letters, max),
        r2 == spec_solve(legal, letters, max),
    ensures
        r1 == r2,
{
}

/// Any two chains that are both valid and both of minimum length — as
/// every chain returned by [`solve_puzzle`] is — have the same length:
/// the word count of a solution is determined by the puzzle alone.
pub proof fn lemma_minimal_solutions_same_length(
    c1: Seq<Seq<char>>,
    c2: Seq<Seq<char>>,
    legal: Seq<Seq<char>>,
    letters: Set<char>,
)
    requires
        valid_chain(c1, legal, letters),
        valid_chain(c2, legal, letters),
        forall|c: Seq<Seq<char>>| valid_chain(c, legal, letters) ==> c.len() >= c1.len(),
        forall|c: Seq<Seq<char>>| valid_chain(c, legal, letters) ==> c.len() >= c2.len(),
    ensures
        c1.len() == c2.len(),
{
}

/// The empty chain is a solution exactly for the empty letter set, which
/// the boundary rejects before the solver runs.
pub proof fn lemma_empty_chain(legal: Seq<Seq<char>>, letters: Set<char>)
    ensures
        valid_chain(Seq::<Seq<char>>::empty(), legal, letters) <==> letters == Set::<char>::empty(),
{
    lemma_chain_set_empty(Seq::<Seq<char>>::empty());
    if valid_chain(Seq::<Seq<char>>::empty(), legal, letters) {
        assert(letters =~= Set::<char>::empty());
    }
    if letters == Set::<char>::empty() {
        assert(letters.subset_of(chain_set(Seq::<Seq<char>>::empty())));
    }
}

} // verus!
