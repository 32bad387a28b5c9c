//! Properties that hold across the solver's operations.
use vstd::prelude::*;
use crate::freq::{letter_sum, Frequencies};
use crate::guesser::{
    after_guess, candidates, fits, info_scores, info_value, knowledge_wf, lemma_candidates_in_dict,
    lemma_fitting_contains, likely_scores, pick, pool_value, ranked_words, table_value, unknown_value,
    Colours, Knowledge,
};
use crate::ranking::{is_top_ranking, TOP_N};
use crate::words::WORD_LEN;

verus! {

/// Every candidate has five letters and meets all the constraints at once.
pub proof fn lemma_candidates_fit(k: Knowledge)
    requires
        knowledge_wf(k),
    ensures
        forall|t: int|
            0 <= t < candidates(k).len() ==> (#[trigger] candidates(k)[t]).len() == WORD_LEN && fits(
                candidates(k)[t],
                k,
            ),
{
    lemma_candidates_in_dict(k);
    assert forall|t: int| 0 <= t < candidates(k).len() implies (#[trigger] candidates(k)[t]).len()
        == WORD_LEN && fits(candidates(k)[t], k) by {
        let w = candidates(k)[t];
        lemma_fitting_contains(k.dict, k, w);
        let d = choose|d: int| 0 <= d < k.dict.len() && k.dict[d] == w;
    }
}

/// The candidate set is fixed by the solver's knowledge: asking for it again
/// with no guess in between gives the same words.
pub proof fn lemma_options_repeatable(k: Knowledge, r1: Seq<Seq<char>>, r2: Seq<Seq<char>>)
    requires
        r1 == candidates(k),
        r2 == candidates(k),
    ensures
        r1 == r2,
{
}

/// A score is fixed by the word, the frequency table and the knowledge: scoring
/// the same word again gives the same number.
pub proof fn lemma_scores_repeatable(
    k: Knowledge,
    w: Seq<char>,
    f: Frequencies,
    s1: nat,
    s2: nat,
    i1: nat,
    i2: nat,
)
    requires
        s1 == letter_sum(w, table_value(f)),
        s2 == letter_sum(w, table_value(f)),
        i1 == letter_sum(w, unknown_value(k, f)),
        i2 == letter_sum(w, unknown_value(k, f)),
    ensures
        s1 == s2,
        i1 == i2,
{
}

/// Feedback only narrows: every candidate after a guess was a candidate
/// before it.
pub proof fn lemma_guess_narrows(k: Knowledge, w: Seq<char>, fb: Seq<Colours>, x: Seq<char>)
    requires
        w.len() == WORD_LEN,
        fb.len() == WORD_LEN,
        candidates(after_guess(k, w, fb)).contains(x),
    ensures
        candidates(k).contains(x),
{
    let k2 = after_guess(k, w, fb);
    lemma_fitting_contains(k2.dict, k2, x);
    assert forall|c: char| k.must_contain.contains(c) implies x.contains(c) by {
        assert(k2.must_contain.contains(c));
    }
    assert forall|c: char| k.must_not_contain.contains(c) implies !x.contains(c) by {
        assert(k2.must_not_contain.contains(c));
    }
    assert forall|p: (usize, char)| k.exact.contains(p) implies p.0 < x.len() && x[p.0 as int] == p.1 by {
        assert(k2.exact.contains(p));
    }
    assert forall|p: (usize, char)| k.not_exact.contains(p) implies p.0 < x.len() && x[p.0 as int] != p.1 by {
        assert(k2.not_exact.contains(p));
    }
    lemma_fitting_contains(k.dict, k, x);
}

/// The most-likely suggestions are at most ten, in order of non-increasing
/// score.
pub proof fn lemma_most_likely_order(k: Knowledge, r: Seq<Seq<char>>)
    requires
        ranked_words(candidates(k), likely_scores(k), r),
    ensures
        r.len() <= TOP_N,
        forall|i: int, j: int|
            0 <= i < j < r.len() ==> letter_sum(r[i], pool_value(candidates(k))) >= letter_sum(
                r[j],
                pool_value(candidates(k)),
            ),
{
    let idx = choose|idx: Seq<usize>|
        is_top_ranking(likely_scores(k), idx) && r == pick(candidates(k), idx);
    assert forall|i: int, j: int| 0 <= i < j < r.len() implies letter_sum(
        r[i],
        pool_value(candidates(k)),
    ) >= letter_sum(r[j], pool_value(candidates(k))) by {
        assert(likely_scores(k)[idx[i] as int] >= likely_scores(k)[idx[j] as int]);
    }
}

/// The most-informative suggestions are at most ten, in order of
/// non-increasing score.
pub proof fn lemma_most_info_order(k: Knowledge, r: Seq<Seq<char>>)
    requires
        ranked_words(k.dict, info_scores(k), r),
    ensures
        r.len() <= TOP_N,
        forall|i: int, j: int|
            0 <= i < j < r.len() ==> letter_sum(r[i], info_value(k)) >= letter_sum(r[j], info_value(k)),
{
    let idx = choose|idx: Seq<usize>| is_top_ranking(info_scores(k), idx) && r == pick(k.dict, idx);
    assert forall|i: int, j: int| 0 <= i < j < r.len() implies letter_sum(r[i], info_value(k))
        >= letter_sum(r[j], info_value(k)) by {
        assert(info_scores(k)[idx[i] as int] >= info_scores(k)[idx[j] as int]);
    }
}

/// After all-Grey feedback on a guess, no candidate holds any letter of it.
pub proof fn lemma_all_grey_excludes(k: Knowledge, w: Seq<char>, fb: Seq<Colours>)
    requires
        w.len() == WORD_LEN,
        fb.len() == WORD_LEN,
        forall|i: int| 0 <= i < WORD_LEN ==> fb[i] == Colours::Grey,
    ensures
        forall|x: Seq<char>, i: int|
            #![trigger candidates(after_guess(k, w, fb)).contains(x), w[i]]
            candidates(after_guess(k, w, fb)).contains(x) && 0 <= i < WORD_LEN ==> !x.contains(w[i]),
{
    let k2 = after_guess(k, w, fb);
    assert forall|x: Seq<char>, i: int|
        #![trigger candidates(k2).contains(x), w[i]]
        candidates(k2).contains(x) && 0 <= i < WORD_LEN implies !x.contains(w[i]) by {
        lemma_fitting_contains(k2.dict, k2, x);
        assert(k2.must_not_contain.contains(w[i]));
    }
}

/// After all-Green feedback on a guess, the guess is the only word left in the
/// candidate set, and it is there when it is a dictionary word that met the
/// earlier constraints.
pub proof fn lemma_all_green_solves(k: Knowledge, w: Seq<char>, fb: Seq<Colours>)
    requires
        knowledge_wf(k),
        w.len() == WORD_LEN,
        fb.len() == WORD_LEN,
        forall|i: int| 0 <= i < WORD_LEN ==> fb[i] == Colours::Green,
    ensures
        forall|x: Seq<char>| #[trigger] candidates(after_guess(k, w, fb)).contains(x) ==> x == w,
        k.dict.contains(w) && fits(w, k) ==> candidates(after_guess(k, w, fb)).contains(w),
{
    let k2 = after_guess(k, w, fb);
    assert forall|x: Seq<char>| #[trigger] candidates(k2).contains(x) implies x == w by {
        lemma_fitting_contains(k2.dict, k2, x);
        let d = choose|d: int| 0 <= d < k2.dict.len() && k2.dict[d] == x;
        assert forall|i: int| 0 <= i < WORD_LEN implies x[i] == w[i] by {
            assert(k2.exact.contains((i as usize, w[i])));
        }
        assert(x =~= w);
    }
    if k.dict.contains(w) && fits(w, k) {
        assert forall|c: char| k2.must_contain.contains(c) implies w.contains(c) by {
            if !k.must_contain.contains(c) {
                let i = choose|i: int| 0 <= i < w.len() && fb[i] != Colours::Grey && w[i] == c;
            }
        }
        assert forall|c: char| k2.must_not_contain.contains(c) implies !w.contains(c) by {
            if !k.must_not_contain.contains(c) {
                let i = choose|i: int| 0 <= i < w.len() && fb[i] == Colours::Grey && w[i] == c;
            }
        }
        assert(fits(w, k2));
        lemma_fitting_contains(k2.dict, k2, w);
    }
}

} // verus!
