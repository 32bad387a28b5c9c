//! The solver: the constraints learned from feedback, the candidate filter, and
//! the two rankings of suggested guesses.
use vstd::prelude::*;
use crate::freq::{
    doc_freq, letter_sum, lemma_doc_freq_bound, lemma_letter_sum_bound, lemma_letter_sum_prefix,
    Frequencies,
};
use crate::ranking::{is_top_ranking, score_values, top_ranked};
use crate::words::{chars_of, has_letter, is_retained, occurs_before, retained, WORD_LEN};

verus! {

/// The feedback on one letter of a guess.
#[derive(Clone, Copy, Debug, PartialEq, Eq, Structural)]
pub enum Colours {
    /// The letter is at this position of the answer.
    Green,
    /// The letter is not in the answer.
    Grey,
    /// The letter is in the answer, at another position.
    Amber,
}

/// What a solver knows: its dictionary and the constraints gathered so far.
pub ghost struct Knowledge {
    pub dict: Seq<Seq<char>>,
    pub must_contain: Set<char>,
    pub must_not_contain: Set<char>,
    pub exact: Set<(usize, char)>,
    pub not_exact: Set<(usize, char)>,
}

/// `w` meets every constraint of `k`. A positional constraint beyond the end of
/// `w` fails.
pub open spec fn fits(w: Seq<char>, k: Knowledge) -> bool {
    &&& forall|c: char| k.must_contain.contains(c) ==> w.contains(c)
    &&& forall|c: char| k.must_not_contain.contains(c) ==> !w.contains(c)
    &&& forall|p: (usize, char)|
        k.exact.contains(p) ==> p.0 < w.len() && w[p.0 as int] == p.1
    &&& forall|p: (usize, char)|
        k.not_exact.contains(p) ==> p.0 < w.len() && w[p.0 as int] != p.1
}

/// The words of `ws` that meet the constraints of `k`, in order.
pub open spec fn fitting(ws: Seq<Seq<char>>, k: Knowledge) -> Seq<Seq<char>> {
    ws.filter(|w: Seq<char>| fits(w, k))
}

/// The candidate set: the dictionary words consistent with all feedback.
pub open spec fn candidates(k: Knowledge) -> Seq<Seq<char>> {
    fitting(k.dict, k)
}

/// The dictionary entries that are kept, in order.
pub open spec fn kept_words(ws: Seq<Seq<char>>) -> Seq<Seq<char>> {
    ws.filter(|w: Seq<char>| retained(w))
}

/// The characters of each string.
pub open spec fn strings(v: Seq<String>) -> Seq<Seq<char>> {
    v.map_values(|s: String| s@)
}

/// The characters of each string slice.
pub open spec fn texts(v: Seq<&str>) -> Seq<Seq<char>> {
    v.map_values(|s: &str| s@)
}

/// Letters of `w` whose feedback among the first `n` positions is not Grey.
pub open spec fn present_letters(w: Seq<char>, fb: Seq<Colours>, n: int) -> Set<char> {
    Set::new(|c: char| exists|i: int| 0 <= i < n && fb[i] != Colours::Grey && w[i] == c)
}

/// Letters of `w` whose feedback among the first `n` positions is Grey.
pub open spec fn absent_letters(w: Seq<char>, fb: Seq<Colours>, n: int) -> Set<char> {
    Set::new(|c: char| exists|i: int| 0 <= i < n && fb[i] == Colours::Grey && w[i] == c)
}

/// The (position, letter) pairs of `w` among the first `n` positions whose
/// feedback is `colour`.
pub open spec fn placed(w: Seq<char>, fb: Seq<Colours>, colour: Colours, n: int) -> Set<(usize, char)> {
    Set::new(|p: (usize, char)| p.0 < n && fb[p.0 as int] == colour && w[p.0 as int] == p.1)
}

/// The knowledge after feedback `fb` on the guess `w`.
pub open spec fn after_guess(k: Knowledge, w: Seq<char>, fb: Seq<Colours>) -> Knowledge {
    Knowledge {
        dict: k.dict,
        must_contain: k.must_contain.union(present_letters(w, fb, w.len() as int)),
        must_not_contain: k.must_not_contain.union(absent_letters(w, fb, w.len() as int)),
        exact: k.exact.union(placed(w, fb, Colours::Green, w.len() as int)),
        not_exact: k.not_exact.union(placed(w, fb, Colours::Amber, w.len() as int)),
    }
}

/// Every dictionary word has five letters, and a sum of five counts over the
/// dictionary fits in a `usize`.
pub open spec fn knowledge_wf(k: Knowledge) -> bool {
    &&& forall|i: int| 0 <= i < k.dict.len() ==> (#[trigger] k.dict[i]).len() == WORD_LEN
    &&& k.dict.len() * WORD_LEN <= usize::MAX
}

/// The value of a letter under a frequency table.
pub open spec fn table_value(f: Frequencies) -> spec_fn(char) -> nat {
    |c: char| f.count(c)
}

/// The value of a letter under a frequency table, where letters already known
/// to be in or out of the answer are worth nothing.
pub open spec fn unknown_value(k: Knowledge, f: Frequencies) -> spec_fn(char) -> nat {
    |c: char|
        if k.must_contain.contains(c) || k.must_not_contain.contains(c) {
            0
        } else {
            f.count(c)
        }
}

/// The document frequency of each letter over `pool`.
pub open spec fn pool_value(pool: Seq<Seq<char>>) -> spec_fn(char) -> nat {
    |c: char| doc_freq(pool, c)
}

/// The most-likely score of each candidate: its distinct letters, each worth the
/// number of candidates that hold it.
pub open spec fn likely_scores(k: Knowledge) -> Seq<nat> {
    candidates(k).map_values(|w: Seq<char>| letter_sum(w, pool_value(candidates(k))))
}

/// The value of a letter for the most-informative score.
pub open spec fn info_value(k: Knowledge) -> spec_fn(char) -> nat {
    |c: char|
        if k.must_contain.contains(c) || k.must_not_contain.contains(c) {
            0
        } else {
            doc_freq(k.dict, c)
        }
}

/// The most-informative score of each dictionary word: its distinct letters of
/// unknown status, each worth the number of dictionary words that hold it.
pub open spec fn info_scores(k: Knowledge) -> Seq<nat> {
    k.dict.map_values(|w: Seq<char>| letter_sum(w, info_value(k)))
}

/// The words of `pool` at the positions `idx`.
pub open spec fn pick(pool: Seq<Seq<char>>, idx: Seq<usize>) -> Seq<Seq<char>> {
    idx.map_values(|i: usize| pool[i as int])
}

/// `r` lists the words of `pool` at the positions of a top ranking of `scores`.
pub open spec fn ranked_words(pool: Seq<Seq<char>>, scores: Seq<nat>, r: Seq<Seq<char>>) -> bool {
    exists|idx: Seq<usize>| is_top_ranking(scores, idx) && r == pick(pool, idx)
}

/// A word is among the words of `ws` that fit `k` exactly when it is in `ws`
/// and fits `k`.
pub proof fn lemma_fitting_contains(ws: Seq<Seq<char>>, k: Knowledge, w: Seq<char>)
    ensures
        fitting(ws, k).contains(w) == (ws.contains(w) && fits(w, k)),
    decreases ws.len(),
{
    reveal(Seq::filter);
    if ws.len() > 0 {
        let p = ws.drop_last();
        lemma_fitting_contains(p, k, w);
        vstd::seq_lib::lemma_seq_contains_after_push(p, ws.last(), w);
        assert(p.push(ws.last()) =~= ws);
        if fits(ws.last(), k) {
            vstd::seq_lib::lemma_seq_contains_after_push(fitting(p, k), ws.last(), w);
        }
    }
}

/// The candidates are dictionary words, no more of them than the dictionary
/// holds.
pub proof fn lemma_candidates_in_dict(k: Knowledge)
    ensures
        candidates(k).len() <= k.dict.len(),
        forall|t: int| 0 <= t < candidates(k).len() ==> k.dict.contains(#[trigger] candidates(k)[t]),
{
    k.dict.lemma_filter_len(|w: Seq<char>| fits(w, k));
    assert forall|t: int| 0 <= t < candidates(k).len() implies k.dict.contains(#[trigger] candidates(k)[t]) by {
        lemma_fitting_contains(k.dict, k, candidates(k)[t]);
    }
}


/// Each step of a guess adds the marks of one more position.
proof fn lemma_marks_step(w: Seq<char>, fb: Seq<Colours>, i: int)
    requires
        0 <= i,
    ensures
        forall|c: char|
            #[trigger] present_letters(w, fb, i + 1).contains(c) == (present_letters(w, fb, i).contains(c)
                || (fb[i] != Colours::Grey && w[i] == c)),
        forall|c: char|
            #[trigger] absent_letters(w, fb, i + 1).contains(c) == (absent_letters(w, fb, i).contains(c)
                || (fb[i] == Colours::Grey && w[i] == c)),
        forall|p: (usize, char), colour: Colours|
            #[trigger] placed(w, fb, colour, i + 1).contains(p) == (placed(w, fb, colour, i).contains(p)
                || (p.0 == i && fb[i] == colour && w[i] == p.1)),
{
    assert forall|c: char|
        #[trigger] present_letters(w, fb, i + 1).contains(c) == (present_letters(w, fb, i).contains(c)
            || (fb[i] != Colours::Grey && w[i] == c)) by {
        if present_letters(w, fb, i + 1).contains(c) {
            let j = choose|j: int| 0 <= j < i + 1 && fb[j] != Colours::Grey && w[j] == c;
            if j < i {
                assert(present_letters(w, fb, i).contains(c));
            }
        }
        if present_letters(w, fb, i).contains(c) {
            let j = choose|j: int| 0 <= j < i && fb[j] != Colours::Grey && w[j] == c;
            assert(present_letters(w, fb, i + 1).contains(c));
        }
        if fb[i] != Colours::Grey && w[i] == c {
            assert(present_letters(w, fb, i + 1).contains(c));
        }
    }
    assert forall|c: char|
        #[trigger] absent_letters(w, fb, i + 1).contains(c) == (absent_letters(w, fb, i).contains(c)
            || (fb[i] == Colours::Grey && w[i] == c)) by {
        if absent_letters(w, fb, i + 1).contains(c) {
            let j = choose|j: int| 0 <= j < i + 1 && fb[j] == Colours::Grey && w[j] == c;
            if j < i {
                assert(absent_letters(w, fb, i).contains(c));
            }
        }
        if absent_letters(w, fb, i).contains(c) {
            let j = choose|j: int| 0 <= j < i && fb[j] == Colours::Grey && w[j] == c;
            assert(absent_letters(w, fb, i + 1).contains(c));
        }
        if fb[i] == Colours::Grey && w[i] == c {
            assert(absent_letters(w, fb, i + 1).contains(c));
        }
    }
}

/// A word-guessing solver.
pub struct Guesser {
    dict: Vec<String>,
    must_contain: Vec<char>,
    must_not_contain: Vec<char>,
    exact: Vec<(usize, char)>,
    not_exact: Vec<(usize, char)>,
}

impl View for Guesser {
    type V = Knowledge;

    closed spec fn view(&self) -> Knowledge {
        Knowledge {
            dict: strings(self.dict@),
            must_contain: self.must_contain@.to_set(),
            must_not_contain: self.must_not_contain@.to_set(),
            exact: self.exact@.to_set(),
            not_exact: self.not_exact@.to_set(),
        }
    }
}

impl Guesser {
    /// The dictionary is well formed (see `knowledge_wf`).
    pub open spec fn wf(&self) -> bool {
        knowledge_wf(self@)
    }

    /// A solver over the entries of `dict` that have five characters and are in
    /// lowercase, in their order, with no constraints yet.
    pub fn new(dict: Vec<String>) -> (r: Guesser)
        requires
            dict@.len() * WORD_LEN <= usize::MAX,
        ensures
            r.wf(),
            r@.dict == kept_words(strings(dict@)),
            r@.must_contain == Set::<char>::empty(),
            r@.must_not_contain == Set::<char>::empty(),
            r@.exact == Set::<(usize, char)>::empty(),
            r@.not_exact == Set::<(usize, char)>::empty(),
    {
        let mut kept: Vec<String> = Vec::new();
        let mut i: usize = 0;
        while i < dict.len()
            invariant
                i <= dict@.len(),
                kept@.len() <= i,
                strings(kept@) == kept_words(strings(dict@).take(i as int)),
                forall|t: int| 0 <= t < kept@.len() ==> (#[trigger] kept@[t])@.len() == WORD_LEN,
            decreases dict@.len() - i,
        {
            let ghost s = strings(dict@).take(i + 1);
            assert(s.drop_last() =~= strings(dict@).take(i as int));
            assert(s.last() == dict@[i as int]@);
            proof {
                reveal(Seq::filter);
            }
            if is_retained(&dict[i]) {
                let w = dict[i].clone();
                kept.push(w);
                assert(strings(kept@) =~= kept_words(strings(dict@).take(i as int)).push(w@));
            }
            i = i + 1;
        }
        assert(strings(dict@).take(dict@.len() as int) =~= strings(dict@));
        let r = Guesser {
            dict: kept,
            must_contain: Vec::new(),
            must_not_contain: Vec::new(),
            exact: Vec::new(),
            not_exact: Vec::new(),
        };
        assert(r@.must_contain =~= Set::<char>::empty());
        assert(r@.must_not_contain =~= Set::<char>::empty());
        assert(r@.exact =~= Set::<(usize, char)>::empty());
        assert(r@.not_exact =~= Set::<(usize, char)>::empty());
        assert(r@.dict.len() * WORD_LEN <= dict@.len() * WORD_LEN) by (nonlinear_arith)
            requires
                r@.dict.len() <= dict@.len(),
        ;
        r
    }

    /// Whether the word with letters `w` meets every constraint.
    fn word_fits(&self, w: &Vec<char>) -> (r: bool)
        ensures
            r == fits(w@, self@),
    {
        let mut j: usize = 0;
        while j < self.must_contain.len()
            invariant
                j <= self.must_contain@.len(),
                forall|t: int| 0 <= t < j ==> w@.contains(#[trigger] self.must_contain@[t]),
            decreases self.must_contain@.len() - j,
        {
            if !has_letter(w, self.must_contain[j]) {
                assert(self@.must_contain.contains(self.must_contain@[j as int]));
                return false;
            }
            j = j + 1;
        }
        assert forall|c: char| self@.must_contain.contains(c) implies w@.contains(c) by {
            let t = choose|t: int| 0 <= t < self.must_contain@.len() && self.must_contain@[t] == c;
        }
        let mut j: usize = 0;
        while j < self.must_not_contain.len()
            invariant
                j <= self.must_not_contain@.len(),
                forall|t: int| 0 <= t < j ==> !w@.contains(#[trigger] self.must_not_contain@[t]),
            decreases self.must_not_contain@.len() - j,
        {
            if has_letter(w, self.must_not_contain[j]) {
                assert(self@.must_not_contain.contains(self.must_not_contain@[j as int]));
                return false;
            }
            j = j + 1;
        }
        assert forall|c: char| self@.must_not_contain.contains(c) implies !w@.contains(c) by {
            let t = choose|t: int|
                0 <= t < self.must_not_contain@.len() && self.must_not_contain@[t] == c;
        }
        let mut j: usize = 0;
        while j < self.exact.len()
            invariant
                j <= self.exact@.len(),
                forall|t: int|
                    0 <= t < j ==> (#[trigger] self.exact@[t]).0 < w@.len() && w@[self.exact@[t].0 as int]
                        == self.exact@[t].1,
            decreases self.exact@.len() - j,
        {
            let (i, c) = self.exact[j];
            if i >= w.len() || w[i] != c {
                assert(self@.exact.contains(self.exact@[j as int]));
                return false;
            }
            j = j + 1;
        }
        assert forall|p: (usize, char)| self@.exact.contains(p) implies p.0 < w@.len() && w@[p.0 as int]
            == p.1 by {
            let t = choose|t: int| 0 <= t < self.exact@.len() && self.exact@[t] == p;
        }
        let mut j: usize = 0;
        while j < self.not_exact.len()
            invariant
                j <= self.not_exact@.len(),
                forall|t: int|
                    0 <= t < j ==> (#[trigger] self.not_exact@[t]).0 < w@.len() && w@[self.not_exact@[t].0 as int]
                        != self.not_exact@[t].1,
            decreases self.not_exact@.len() - j,
        {
            let (i, c) = self.not_exact[j];
            if i >= w.len() || w[i] == c {
                assert(self@.not_exact.contains(self.not_exact@[j as int]));
                return false;
            }
            j = j + 1;
        }
        assert forall|p: (usize, char)| self@.not_exact.contains(p) implies p.0 < w@.len() && w@[p.0 as int]
            != p.1 by {
            let t = choose|t: int| 0 <= t < self.not_exact@.len() && self.not_exact@[t] == p;
        }
        true
    }

    /// How many candidates hold each letter.
    pub fn get_frequencies(&self) -> (r: Frequencies)
        ensures
            r.wf(),
            forall|c: char| #[trigger] r.count(c) == doc_freq(candidates(self@), c),
    {
        let options = self.get_options();
        let ghost pool = texts(options@);
        let mut f = Frequencies::new();
        let mut i: usize = 0;
        while i < options.len()
            invariant
                pool == texts(options@),
                i <= pool.len(),
                f.wf(),
                forall|c: char| #[trigger] f.count(c) == doc_freq(pool.take(i as int), c),
            decreases pool.len() - i,
        {
            assert forall|c: char| f.count(c) < usize::MAX by {
                lemma_doc_freq_bound(pool.take(i as int), c);
            }
            f.count_word(options[i]);
            assert(pool.take(i + 1).drop_last() =~= pool.take(i as int));
            assert(pool.take(i + 1).last() == options@[i as int]@);
            i = i + 1;
        }
        assert(pool.take(pool.len() as int) =~= pool);
        f
    }

    /// How many dictionary words hold each letter.
    pub fn get_dict_frequencies(&self) -> (r: Frequencies)
        ensures
            r.wf(),
            forall|c: char| #[trigger] r.count(c) == doc_freq(self@.dict, c),
    {
        let ghost pool = self@.dict;
        let mut f = Frequencies::new();
        let mut i: usize = 0;
        while i < self.dict.len()
            invariant
                pool == self@.dict,
                i <= pool.len(),
                f.wf(),
                forall|c: char| #[trigger] f.count(c) == doc_freq(pool.take(i as int), c),
            decreases pool.len() - i,
        {
            assert forall|c: char| f.count(c) < usize::MAX by {
                lemma_doc_freq_bound(pool.take(i as int), c);
            }
            f.count_word(self.dict[i].as_str());
            assert(pool.take(i + 1).drop_last() =~= pool.take(i as int));
            assert(pool.take(i + 1).last() == self.dict@[i as int]@);
            i = i + 1;
        }
        assert(pool.take(pool.len() as int) =~= pool);
        f
    }

    /// The most-likely score of `word`: the sum of the counts of its distinct
    /// letters.
    pub fn word_score(&self, word: &str, frequencies: &Frequencies) -> (r: usize)
        requires
            frequencies.wf(),
            letter_sum(word@, table_value(*frequencies)) <= usize::MAX,
        ensures
            r == letter_sum(word@, table_value(*frequencies)),
    {
        let ghost value = table_value(*frequencies);
        let cs = chars_of(word);
        let mut sum: usize = 0;
        let mut j: usize = 0;
        while j < cs.len()
            invariant
                cs@ == word@,
                j <= cs@.len(),
                frequencies.wf(),
                value == table_value(*frequencies),
                letter_sum(word@, value) <= usize::MAX,
                sum == letter_sum(cs@.take(j as int), value),
            decreases cs@.len() - j,
        {
            assert(cs@.take(j + 1).drop_last() =~= cs@.take(j as int));
            assert(cs@.take(j + 1).last() == cs@[j as int]);
            proof {
                lemma_letter_sum_prefix(cs@, value, j + 1);
            }
            if !occurs_before(&cs, j) {
                sum = sum + frequencies.get(cs[j]);
            }
            j = j + 1;
        }
        assert(cs@.take(cs@.len() as int) =~= cs@);
        sum
    }

    /// The most-informative score of `word`: the sum of the counts of its
    /// distinct letters that are not yet known to be in or out of the answer.
    pub fn word_info_score(&self, word: &str, frequencies: &Frequencies) -> (r: usize)
        requires
            frequencies.wf(),
            letter_sum(word@, unknown_value(self@, *frequencies)) <= usize::MAX,
        ensures
            r == letter_sum(word@, unknown_value(self@, *frequencies)),
    {
        let ghost value = unknown_value(self@, *frequencies);
        let cs = chars_of(word);
        let mut sum: usize = 0;
        let mut j: usize = 0;
        while j < cs.len()
            invariant
                cs@ == word@,
                j <= cs@.len(),
                frequencies.wf(),
                value == unknown_value(self@, *frequencies),
                letter_sum(word@, value) <= usize::MAX,
                sum == letter_sum(cs@.take(j as int), value),
            decreases cs@.len() - j,
        {
            assert(cs@.take(j + 1).drop_last() =~= cs@.take(j as int));
            assert(cs@.take(j + 1).last() == cs@[j as int]);
            proof {
                lemma_letter_sum_prefix(cs@, value, j + 1);
            }
            let c = cs[j];
            if !occurs_before(&cs, j) && !has_letter(&self.must_contain, c) && !has_letter(
                &self.must_not_contain,
                c,
            ) {
                sum = sum + frequencies.get(c);
            }
            j = j + 1;
        }
        assert(cs@.take(cs@.len() as int) =~= cs@);
        sum
    }

    /// Up to ten candidates, best most-likely score first: the top of the
    /// candidate set ranked by the sum, over each word's distinct letters, of the
    /// number of candidates holding the letter.
    pub fn get_most_likley(&self) -> (r: Vec<&str>)
        requires
            self.wf(),
        ensures
            ranked_words(candidates(self@), likely_scores(self@), texts(r@)),
    {
        let frequencies = self.get_frequencies();
        let options = self.get_options();
        let ghost pool = candidates(self@);
        let ghost value = table_value(frequencies);
        proof {
            lemma_candidates_in_dict(self@);
            assert(value =~= pool_value(pool));
        }
        let mut scores: Vec<usize> = Vec::new();
        let mut i: usize = 0;
        while i < options.len()
            invariant
                self.wf(),
                pool == candidates(self@),
                texts(options@) == pool,
                pool.len() <= self@.dict.len(),
                forall|t: int| 0 <= t < pool.len() ==> self@.dict.contains(#[trigger] pool[t]),
                frequencies.wf(),
                value == table_value(frequencies),
                value == pool_value(pool),
                i <= options@.len(),
                scores@.len() == i,
                forall|t: int| 0 <= t < i ==> scores@[t] as nat == letter_sum(pool[t], value),
            decreases options@.len() - i,
        {
            let ghost w = pool[i as int];
            proof {
                assert(options@[i as int]@ == w);
                assert(self@.dict.contains(w));
                let d = choose|d: int| 0 <= d < self@.dict.len() && self@.dict[d] == w;
                assert(w.len() == WORD_LEN);
                assert forall|c: char| w.contains(c) implies #[trigger] value(c) <= pool.len() by {
                    lemma_doc_freq_bound(pool, c);
                }
                lemma_letter_sum_bound(w, value, pool.len());
                assert(w.len() * pool.len() <= WORD_LEN * self@.dict.len()) by (nonlinear_arith)
                    requires
                        w.len() == WORD_LEN,
                        pool.len() <= self@.dict.len(),
                ;
            }
            let s = self.word_score(options[i], &frequencies);
            scores.push(s);
            i = i + 1;
        }
        assert(score_values(scores@) =~= likely_scores(self@));
        let top = top_ranked(&scores);
        let mut r: Vec<&str> = Vec::new();
        let mut k: usize = 0;
        while k < top.len()
            invariant
                texts(options@) == pool,
                is_top_ranking(likely_scores(self@), top@),
                pool.len() == likely_scores(self@).len(),
                k <= top@.len(),
                texts(r@) == pick(pool, top@.take(k as int)),
            decreases top@.len() - k,
        {
            let ghost before = texts(r@);
            r.push(options[top[k]]);
            assert(texts(r@) =~= before.push(pool[top@[k as int] as int]));
            assert(pick(pool, top@.take(k + 1)) =~= pick(pool, top@.take(k as int)).push(
                pool[top@[k as int] as int],
            ));
            k = k + 1;
        }
        assert(top@.take(top@.len() as int) =~= top@);
        r
    }

    /// Up to ten dictionary words, best most-informative score first: the top
    /// of the whole dictionary ranked by the sum, over each word's distinct
    /// letters not yet known to be in or out of the answer, of the number of
    /// dictionary words holding the letter.
    pub fn get_most_info(&self) -> (r: Vec<&str>)
        requires
            self.wf(),
        ensures
            ranked_words(self@.dict, info_scores(self@), texts(r@)),
    {
        let frequencies = self.get_dict_frequencies();
        let ghost pool = self@.dict;
        let ghost value = unknown_value(self@, frequencies);
        proof {
            assert(value =~= info_value(self@));
        }
        let mut scores: Vec<usize> = Vec::new();
        let mut i: usize = 0;
        while i < self.dict.len()
            invariant
                self.wf(),
                pool == self@.dict,
                frequencies.wf(),
                value == unknown_value(self@, frequencies),
                value == info_value(self@),
                i <= pool.len(),
                scores@.len() == i,
                forall|t: int| 0 <= t < i ==> scores@[t] as nat == letter_sum(pool[t], value),
            decreases pool.len() - i,
        {
            let ghost w = pool[i as int];
            proof {
                assert(self.dict@[i as int]@ == w);
                assert(w.len() == WORD_LEN);
                assert forall|c: char| w.contains(c) implies #[trigger] value(c) <= pool.len() by {
                    lemma_doc_freq_bound(pool, c);
                }
                lemma_letter_sum_bound(w, value, pool.len());
                assert(w.len() * pool.len() <= WORD_LEN * pool.len()) by (nonlinear_arith)
                    requires
                        w.len() == WORD_LEN,
                ;
            }
            let s = self.word_info_score(self.dict[i].as_str(), &frequencies);
            scores.push(s);
            i = i + 1;
        }
        assert(score_values(scores@) =~= info_scores(self@));
        let top = top_ranked(&scores);
        let mut r: Vec<&str> = Vec::new();
        let mut k: usize = 0;
        while k < top.len()
            invariant
                pool == self@.dict,
                is_top_ranking(info_scores(self@), top@),
                pool.len() == info_scores(self@).len(),
                k <= top@.len(),
                texts(r@) == pick(pool, top@.take(k as int)),
            decreases top@.len() - k,
        {
            let ghost before = texts(r@);
            r.push(self.dict[top[k]].as_str());
            assert(texts(r@) =~= before.push(pool[top@[k as int] as int]));
            assert(pick(pool, top@.take(k + 1)) =~= pick(pool, top@.take(k as int)).push(
                pool[top@[k as int] as int],
            ));
            k = k + 1;
        }
        assert(top@.take(top@.len() as int) =~= top@);
        r
    }

    /// Records the feedback `answers` on the guess `word`: a letter whose
    /// feedback is not Grey must be in the answer, a Grey one must not; a Green
    /// letter is at its position, an Amber one is not.
    pub fn guess(&mut self, word: String, answers: [Colours; 5])
        requires
            old(self).wf(),
            word@.len() == WORD_LEN,
        ensures
            final(self).wf(),
            final(self)@ == after_guess(old(self)@, word@, answers@),
    {
        let cs = chars_of(word.as_str());
        let ghost fb = answers@;
        let mut i: usize = 0;
        while i < WORD_LEN
            invariant
                cs@ == word@,
                cs@.len() == WORD_LEN,
                fb == answers@,
                fb.len() == WORD_LEN,
                i <= WORD_LEN,
                self.dict == old(self).dict,
                forall|c: char|
                    #[trigger] self.must_contain@.contains(c) == (old(self).must_contain@.contains(c)
                        || present_letters(cs@, fb, i as int).contains(c)),
                forall|c: char|
                    #[trigger] self.must_not_contain@.contains(c) == (old(self).must_not_contain@.contains(c)
                        || absent_letters(cs@, fb, i as int).contains(c)),
                forall|p: (usize, char)|
                    #[trigger] self.exact@.contains(p) == (old(self).exact@.contains(p)
                        || placed(cs@, fb, Colours::Green, i as int).contains(p)),
                forall|p: (usize, char)|
                    #[trigger] self.not_exact@.contains(p) == (old(self).not_exact@.contains(p)
                        || placed(cs@, fb, Colours::Amber, i as int).contains(p)),
            decreases WORD_LEN - i,
        {
            proof {
                lemma_marks_step(cs@, fb, i as int);
            }
            let c = cs[i];
            let f = answers[i];
            let ghost mc0 = self.must_contain@;
            let ghost ex0 = self.exact@;
            let ghost mn0 = self.must_not_contain@;
            let ghost ne0 = self.not_exact@;
            if f != Colours::Grey {
                if !has_letter(&self.must_contain, c) {
                    self.must_contain.push(c);
                }
            }
            match f {
                Colours::Grey => {
                    if !has_letter(&self.must_not_contain, c) {
                        self.must_not_contain.push(c);
                    }
                },
                Colours::Green => {
                    self.exact.push((i, c));
                },
                Colours::Amber => {
                    self.not_exact.push((i, c));
                },
            }
            assert forall|d: char|
                #[trigger] self.must_contain@.contains(d) == (old(self).must_contain@.contains(d)
                    || present_letters(cs@, fb, i + 1).contains(d)) by {
                if self.must_contain@ != mc0 {
                    vstd::seq_lib::lemma_seq_contains_after_push(mc0, c, d);
                }
            }
            assert forall|d: char|
                #[trigger] self.must_not_contain@.contains(d) == (old(self).must_not_contain@.contains(d)
                    || absent_letters(cs@, fb, i + 1).contains(d)) by {
                if self.must_not_contain@ != mn0 {
                    vstd::seq_lib::lemma_seq_contains_after_push(mn0, c, d);
                }
            }
            assert forall|p: (usize, char)|
                #[trigger] self.exact@.contains(p) == (old(self).exact@.contains(p)
                    || placed(cs@, fb, Colours::Green, i + 1).contains(p)) by {
                if f == Colours::Green {
                    vstd::seq_lib::lemma_seq_contains_after_push(ex0, (i, c), p);
                }
            }
            assert forall|p: (usize, char)|
                #[trigger] self.not_exact@.contains(p) == (old(self).not_exact@.contains(p)
                    || placed(cs@, fb, Colours::Amber, i + 1).contains(p)) by {
                if f == Colours::Amber {
                    vstd::seq_lib::lemma_seq_contains_after_push(ne0, (i, c), p);
                }
            }
            i = i + 1;
        }
        let ghost k = after_guess(old(self)@, word@, answers@);
        assert(self@.must_contain =~= k.must_contain);
        assert(self@.must_not_contain =~= k.must_not_contain);
        assert(self@.exact =~= k.exact);
        assert(self@.not_exact =~= k.not_exact);
    }

    /// The candidate set: the dictionary words that meet every constraint, in
    /// dictionary order.
    pub fn get_options(&self) -> (r: Vec<&str>)
        ensures
            texts(r@) == candidates(self@),
    {
        let mut r: Vec<&str> = Vec::new();
        let mut i: usize = 0;
        while i < self.dict.len()
            invariant
                i <= self.dict@.len(),
                texts(r@) == fitting(strings(self.dict@).take(i as int), self@),
            decreases self.dict@.len() - i,
        {
            let ghost s = strings(self.dict@).take(i + 1);
            assert(s.drop_last() =~= strings(self.dict@).take(i as int));
            assert(s.last() == self.dict@[i as int]@);
            proof {
                reveal(Seq::filter);
            }
            let w = self.dict[i].as_str();
            let cs = chars_of(w);
            if self.word_fits(&cs) {
                let ghost before = texts(r@);
                r.push(w);
                assert(texts(r@) =~= before.push(w@));
            }
            i = i + 1;
        }
        assert(strings(self.dict@).take(self.dict@.len() as int) =~= strings(self.dict@));
        r
    }
}

} // verus!
