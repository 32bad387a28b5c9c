//! Words of the game: which dictionary entries are kept, and their letters.
use vstd::prelude::*;
use vstd::string::StrSliceExecFns;

verus! {

/// Every word of the game has this many letters.
pub const WORD_LEN: usize = 5;

/// What `str::to_lowercase` returns for a string with these characters.
pub uninterp spec fn lower_of(s: Seq<char>) -> Seq<char>;

/// Relies on `str::to_lowercase`: the lowercase form of a string depends on its
/// characters alone.
#[verifier::external_body]
fn lowercase(s: &str) -> (r: String)
    ensures
        r@ == lower_of(s@),
{
    s.to_lowercase()
}

/// A dictionary entry is kept when it has five characters and equals its
/// lowercase form `lowered` (which rules out proper nouns).
pub open spec fn is_game_word(w: Seq<char>, lowered: Seq<char>) -> bool {
    w.len() == WORD_LEN && w == lowered
}

/// An entry of the raw dictionary that the solver keeps.
pub open spec fn retained(w: Seq<char>) -> bool {
    is_game_word(w, lower_of(w))
}

/// Decides whether `word`, whose lowercase form is `lowered`, is a game word.
pub fn keeps_word(word: &String, lowered: &String) -> (r: bool)
    ensures
        r == is_game_word(word@, lowered@),
{
    word.as_str().unicode_len() == WORD_LEN && *word == *lowered
}

/// Decides whether a raw dictionary entry is kept.
pub fn is_retained(word: &String) -> (r: bool)
    ensures
        r == retained(word@),
{
    let lowered = lowercase(word.as_str());
    keeps_word(word, &lowered)
}

/// The characters of `s`, in order.
pub fn chars_of(s: &str) -> (r: Vec<char>)
    ensures
        r@ == s@,
{
    let n = s.unicode_len();
    let mut r: Vec<char> = Vec::new();
    let mut i: usize = 0;
    while i < n
        invariant
            n == s@.len(),
            i <= n,
            r@ == s@.take(i as int),
        decreases n - i,
    {
        r.push(s.get_char(i));
        i = i + 1;
        assert(r@ =~= s@.take(i as int));
    }
    assert(r@ =~= s@);
    r
}

/// Whether `w` holds the letter `c`.
pub fn has_letter(w: &Vec<char>, c: char) -> (r: bool)
    ensures
        r == w@.contains(c),
{
    let mut i: usize = 0;
    while i < w.len()
        invariant
            i <= w@.len(),
            forall|k: int| 0 <= k < i ==> w@[k] != c,
        decreases w@.len() - i,
    {
        if w[i] == c {
            return true;
        }
        i = i + 1;
    }
    false
}

/// Whether the letter at position `j` of `w` also occurs before it.
pub fn occurs_before(w: &Vec<char>, j: usize) -> (r: bool)
    requires
        j < w@.len(),
    ensures
        r == w@.take(j as int).contains(w@[j as int]),
{
    let c = w[j];
    let mut i: usize = 0;
    while i < j
        invariant
            j < w@.len(),
            c == w@[j as int],
            i <= j,
            forall|k: int| 0 <= k < i ==> w@[k] != c,
        decreases j - i,
    {
        if w[i] == c {
            assert(w@.take(j as int)[i as int] == c);
            return true;
        }
        i = i + 1;
    }
    false
}

} // verus!
