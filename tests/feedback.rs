use wordle_solver::feedback::{all_green, colour_of, parse_feedback, MalformedFeedback};
use wordle_solver::guesser::Colours::{Amber, Green, Grey};

#[test]
fn parses_each_symbol() {
    assert_eq!(parse_feedback("GXAXG"), Ok([Green, Grey, Amber, Grey, Green]));
    assert_eq!(colour_of('A'), Some(Amber));
    assert_eq!(colour_of('g'), None);
}

#[test]
fn wrong_length_is_refused() {
    assert_eq!(parse_feedback("GXAX"), Err(MalformedFeedback::WrongLength));
    assert_eq!(parse_feedback("GXAXGG"), Err(MalformedFeedback::WrongLength));
    assert_eq!(parse_feedback(""), Err(MalformedFeedback::WrongLength));
}

#[test]
fn first_invalid_symbol_is_reported() {
    assert_eq!(parse_feedback("GXqXz"), Err(MalformedFeedback::InvalidChar('q')));
    assert_eq!(parse_feedback("gxaxg"), Err(MalformedFeedback::InvalidChar('g')));
}

#[test]
fn all_green_detects_solution() {
    assert!(all_green(&[Green, Green, Green, Green, Green]));
    assert!(!all_green(&[Green, Green, Amber, Green, Green]));
}
