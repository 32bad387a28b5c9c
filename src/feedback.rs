//! Reading a feedback code: one symbol per letter of the guess.
use vstd::prelude::*;
use crate::guesser::Colours;
use crate::words::{chars_of, WORD_LEN};

verus! {

/// Why a feedback code was refused.
#[derive(Clone, Copy, Debug, PartialEq, Eq, Structural)]
pub enum MalformedFeedback {
    /// The code does not have five symbols.
    WrongLength,
    /// The first symbol that is none of `G`, `X` and `A`.
    InvalidChar(char),
}

/// The colour that a symbol stands for: `G` Green, `X` Grey, `A` Amber.
pub open spec fn symbol_colour(c: char) -> Option<Colours> {
    if c == 'G' {
        Some(Colours::Green)
    } else if c == 'X' {
        Some(Colours::Grey)
    } else if c == 'A' {
        Some(Colours::Amber)
    } else {
        None
    }
}

/// The colour that the symbol `c` stands for, if any.
pub fn colour_of(c: char) -> (r: Option<Colours>)
    ensures
        r == symbol_colour(c),
{
    if c == 'G' {
        Some(Colours::Green)
    } else if c == 'X' {
        Some(Colours::Grey)
    } else if c == 'A' {
        Some(Colours::Amber)
    } else {
        None
    }
}

/// Reads a five-symbol feedback code. A code of another length is
/// `WrongLength`; otherwise the first symbol outside `G`, `X`, `A` is
/// `InvalidChar`.
pub fn parse_feedback(code: &str) -> (r: Result<[Colours; 5], MalformedFeedback>)
    ensures
        match r {
            Ok(a) => code@.len() == WORD_LEN && forall|i: int|
                0 <= i < WORD_LEN ==> symbol_colour(#[trigger] code@[i]) == Some(a@[i]),
            Err(MalformedFeedback::WrongLength) => code@.len() != WORD_LEN,
            Err(MalformedFeedback::InvalidChar(c)) => code@.len() == WORD_LEN && exists|i: int|
                0 <= i < WORD_LEN && code@[i] == c && symbol_colour(c) is None && forall|j: int|
                    0 <= j < i ==> symbol_colour(#[trigger] code@[j]) is Some,
        },
{
    let cs = chars_of(code);
    if cs.len() != WORD_LEN {
        return Err(MalformedFeedback::WrongLength);
    }
    let mut i: usize = 0;
    while i < WORD_LEN
        invariant
            cs@ == code@,
            cs@.len() == WORD_LEN,
            i <= WORD_LEN,
            forall|j: int| 0 <= j < i ==> symbol_colour(#[trigger] cs@[j]) is Some,
        decreases WORD_LEN - i,
    {
        if colour_of(cs[i]).is_none() {
            return Err(MalformedFeedback::InvalidChar(cs[i]));
        }
        i = i + 1;
    }
    match (colour_of(cs[0]), colour_of(cs[1]), colour_of(cs[2]), colour_of(cs[3]), colour_of(cs[4])) {
        (Some(a), Some(b), Some(c), Some(d), Some(e)) => {
            let r = [a, b, c, d, e];
            assert(r@ =~= seq![a, b, c, d, e]);
            Ok(r)
        },
        _ => Err(MalformedFeedback::WrongLength),
    }
}

/// Whether every letter of a guess was Green: the guess is the answer.
pub fn all_green(answers: &[Colours; 5]) -> (r: bool)
    ensures
        r == forall|i: int| 0 <= i < WORD_LEN ==> answers@[i] == Colours::Green,
{
    let mut i: usize = 0;
    while i < WORD_LEN
        invariant
            i <= WORD_LEN,
            answers@.len() == WORD_LEN,
            forall|j: int| 0 <= j < i ==> answers@[j] == Colours::Green,
        decreases WORD_LEN - i,
    {
        if answers[i] != Colours::Green {
            return false;
        }
        i = i + 1;
    }
    true
}

} // verus!
