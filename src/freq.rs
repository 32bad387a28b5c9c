//! Letter frequency tables and the letter sums that the scores are made of.
use vstd::prelude::*;
use crate::words::{chars_of, has_letter};

verus! {

/// The number of words of `pool` that hold the letter `c` at least once.
pub open spec fn doc_freq(pool: Seq<Seq<char>>, c: char) -> nat
    decreases pool.len(),
{
    if pool.len() == 0 {
        0
    } else {
        doc_freq(pool.drop_last(), c) + if pool.last().contains(c) {
            1nat
        } else {
            0nat
        }
    }
}

/// The sum of `value` over the distinct letters of `w`: each letter counts once,
/// at its first occurrence.
pub open spec fn letter_sum(w: Seq<char>, value: spec_fn(char) -> nat) -> nat
    decreases w.len(),
{
    if w.len() == 0 {
        0
    } else {
        letter_sum(w.drop_last(), value) + if w.drop_last().contains(w.last()) {
            0nat
        } else {
            value(w.last())
        }
    }
}

/// A letter is in no more words than the pool holds.
pub proof fn lemma_doc_freq_bound(pool: Seq<Seq<char>>, c: char)
    ensures
        doc_freq(pool, c) <= pool.len(),
    decreases pool.len(),
{
    if pool.len() > 0 {
        lemma_doc_freq_bound(pool.drop_last(), c);
    }
}

/// A sum over the letters of `w` is at most `w.len()` times a bound of `value`.
pub proof fn lemma_letter_sum_bound(w: Seq<char>, value: spec_fn(char) -> nat, bound: nat)
    requires
        forall|c: char| w.contains(c) ==> #[trigger] value(c) <= bound,
    ensures
        letter_sum(w, value) <= w.len() * bound,
    decreases w.len(),
{
    if w.len() > 0 {
        let p = w.drop_last();
        assert forall|c: char| p.contains(c) implies #[trigger] value(c) <= bound by {
            let k = choose|k: int| 0 <= k < p.len() && p[k] == c;
            assert(w[k] == c);
        }
        lemma_letter_sum_bound(p, value, bound);
        assert(w.contains(w.last())) by {
            assert(w[w.len() - 1] == w.last());
        }
        assert(letter_sum(w, value) <= p.len() * bound + bound);
        assert(p.len() * bound + bound == w.len() * bound) by (nonlinear_arith)
            requires
                p.len() + 1 == w.len(),
        ;
    }
}

/// A sum over a prefix of `w` is at most the sum over `w`.
pub proof fn lemma_letter_sum_prefix(w: Seq<char>, value: spec_fn(char) -> nat, j: int)
    requires
        0 <= j <= w.len(),
    ensures
        letter_sum(w.take(j), value) <= letter_sum(w, value),
    decreases w.len(),
{
    if j < w.len() {
        assert(w.drop_last().take(j) =~= w.take(j));
        lemma_letter_sum_prefix(w.drop_last(), value, j);
    } else {
        assert(w.take(j) =~= w);
    }
}

/// A table from letters to counts.
pub struct Frequencies {
    entries: Vec<(char, usize)>,
    counts: Ghost<Map<char, nat>>,
}

impl View for Frequencies {
    type V = Map<char, nat>;

    closed spec fn view(&self) -> Map<char, nat> {
        self.counts@
    }
}

impl Frequencies {
    /// Each letter has one entry, and the entries agree with the view.
    pub closed spec fn wf(&self) -> bool {
        &&& forall|i: int, j: int|
            0 <= i < j < self.entries@.len() ==> self.entries@[i].0 != self.entries@[j].0
        &&& forall|i: int|
            0 <= i < self.entries@.len() ==> self.counts@.contains_key(#[trigger] self.entries@[i].0)
                && self.counts@[self.entries@[i].0] == self.entries@[i].1
        &&& forall|c: char|
            self.counts@.contains_key(c) ==> exists|i: int|
                0 <= i < self.entries@.len() && #[trigger] self.entries@[i].0 == c
    }

    /// The count of `c`: zero where the table has no entry for it.
    pub open spec fn count(&self, c: char) -> nat {
        if self@.contains_key(c) {
            self@[c]
        } else {
            0
        }
    }

    /// The table in which every letter counts zero.
    pub fn new() -> (r: Frequencies)
        ensures
            r.wf(),
            forall|c: char| r.count(c) == 0,
    {
        Frequencies { entries: Vec::new(), counts: Ghost(Map::empty()) }
    }

    fn find(&self, c: char) -> (r: Option<usize>)
        requires
            self.wf(),
        ensures
            match r {
                Some(i) => i < self.entries@.len() && self.entries@[i as int].0 == c,
                None => !self@.contains_key(c),
            },
    {
        let mut i: usize = 0;
        while i < self.entries.len()
            invariant
                self.wf(),
                i <= self.entries@.len(),
                forall|k: int| 0 <= k < i ==> self.entries@[k].0 != c,
            decreases self.entries@.len() - i,
        {
            if self.entries[i].0 == c {
                return Some(i);
            }
            i = i + 1;
        }
        None
    }

    /// The count of `c`.
    pub fn get(&self, c: char) -> (r: usize)
        requires
            self.wf(),
        ensures
            r == self.count(c),
    {
        match self.find(c) {
            Some(i) => self.entries[i].1,
            None => 0,
        }
    }

    /// Adds one to the count of `c`.
    pub fn bump(&mut self, c: char)
        requires
            old(self).wf(),
            old(self).count(c) < usize::MAX,
        ensures
            final(self).wf(),
            forall|d: char|
                #[trigger] final(self).count(d) == old(self).count(d) + if d == c {
                    1nat
                } else {
                    0nat
                },
    {
        match self.find(c) {
            Some(i) => {
                let v = self.entries[i].1;
                self.entries.set(i, (c, v + 1));
                self.counts = Ghost(self.counts@.insert(c, (v + 1) as nat));
                assert forall|d: char| self.counts@.contains_key(d) implies exists|j: int|
                    0 <= j < self.entries@.len() && #[trigger] self.entries@[j].0 == d by {
                    if d != c {
                        let j = choose|j: int|
                            0 <= j < old(self).entries@.len() && #[trigger] old(self).entries@[j].0 == d;
                        assert(self.entries@[j].0 == d);
                    } else {
                        assert(self.entries@[i as int].0 == d);
                    }
                }
            },
            None => {
                self.entries.push((c, 1));
                self.counts = Ghost(self.counts@.insert(c, 1));
                let ghost n: int = self.entries@.len() - 1;
                assert forall|d: char| self.counts@.contains_key(d) implies exists|j: int|
                    0 <= j < self.entries@.len() && #[trigger] self.entries@[j].0 == d by {
                    if d != c {
                        let j = choose|j: int|
                            0 <= j < old(self).entries@.len() && #[trigger] old(self).entries@[j].0 == d;
                        assert(self.entries@[j].0 == d);
                    } else {
                        assert(self.entries@[n].0 == d);
                    }
                }
            },
        }
    }

    /// Counts once each distinct letter of `w`.
    pub fn count_word(&mut self, w: &str)
        requires
            old(self).wf(),
            forall|c: char| old(self).count(c) < usize::MAX,
        ensures
            final(self).wf(),
            forall|d: char|
                #[trigger] final(self).count(d) == old(self).count(d) + if w@.contains(d) {
                    1nat
                } else {
                    0nat
                },
    {
        let cs = chars_of(w);
        let mut seen: Vec<char> = Vec::new();
        let mut j: usize = 0;
        while j < cs.len()
            invariant
                cs@ == w@,
                j <= cs@.len(),
                self.wf(),
                forall|d: char| #[trigger] seen@.contains(d) == cs@.take(j as int).contains(d),
                forall|c: char| old(self).count(c) < usize::MAX,
                forall|d: char|
                    #[trigger] self.count(d) == old(self).count(d) + if cs@.take(j as int).contains(d) {
                        1nat
                    } else {
                        0nat
                    },
            decreases cs@.len() - j,
        {
            let c = cs[j];
            let ghost t = cs@.take(j as int);
            let ghost t1 = cs@.take(j + 1);
            assert(t1 =~= t.push(c));
            let ghost s0 = seen@;
            assert forall|d: char| #[trigger] t1.contains(d) == (t.contains(d) || d == c) by {
                if t1.contains(d) && d != c {
                    let k = choose|k: int| 0 <= k < t1.len() && t1[k] == d;
                    assert(t[k] == d);
                }
                if t.contains(d) {
                    let k = choose|k: int| 0 <= k < t.len() && t[k] == d;
                    assert(t1[k] == d);
                }
                if d == c {
                    assert(t1[j as int] == d);
                }
            }
            if !has_letter(&seen, c) {
                self.bump(c);
                seen.push(c);
            }
            assert forall|d: char| #[trigger] seen@.contains(d) == t1.contains(d) by {
                if seen@.len() > s0.len() {
                    assert(seen@ == s0.push(c));
                    if seen@.contains(d) && d != c {
                        let k = choose|k: int| 0 <= k < seen@.len() && seen@[k] == d;
                        assert(s0[k] == d);
                    }
                    if s0.contains(d) {
                        let k = choose|k: int| 0 <= k < s0.len() && s0[k] == d;
                        assert(seen@[k] == d);
                    }
                    if d == c {
                        assert(seen@[s0.len() as int] == d);
                    }
                }
            }
            j = j + 1;
        }
        assert(cs@.take(cs@.len() as int) =~= cs@);
    }
}

} // verus!
