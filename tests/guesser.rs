use wordle_solver::guesser::{Colours, Guesser};

use Colours::{Amber, Green, Grey};

fn words(list: &[&str]) -> Vec<String> {
    list.iter().map(|s| s.to_string()).collect()
}

fn four() -> Guesser {
    Guesser::new(words(&["apple", "angle", "ankle", "apply"]))
}

#[test]
fn new_keeps_five_letter_lowercase_words() {
    let g = Guesser::new(words(&["apple", "Apple", "toolong", "abc", "angle", "ANGLE", "cr4ne"]));
    assert_eq!(g.get_options(), vec!["apple", "angle", "cr4ne"]);
}

#[test]
fn new_counts_characters_not_bytes() {
    let g = Guesser::new(words(&["caf\u{e9}s", "abcd\u{e9}"]));
    assert_eq!(g.get_options(), vec!["caf\u{e9}s", "abcd\u{e9}"]);
}

#[test]
fn empty_dictionary_gives_empty_rankings() {
    let g = Guesser::new(Vec::new());
    assert!(g.get_options().is_empty());
    assert!(g.get_most_likley().is_empty());
    assert!(g.get_most_info().is_empty());
}

#[test]
fn no_feedback_keeps_every_word() {
    let g = four();
    assert_eq!(g.get_options(), vec!["apple", "angle", "ankle", "apply"]);
}

#[test]
fn repeated_letter_with_grey_empties_candidates() {
    // "apple" marks 'p' Green at position 1 and Grey at position 2: the letter
    // must be both present and absent, so no word is left.
    let mut g = four();
    g.guess("apple".to_string(), [Green, Green, Grey, Grey, Grey]);
    assert!(g.get_options().is_empty());
}

#[test]
fn feedback_against_apply_leaves_apply() {
    let mut g = four();
    g.guess("apple".to_string(), [Green, Green, Green, Green, Grey]);
    assert_eq!(g.get_options(), vec!["apply"]);
}

#[test]
fn amber_excludes_position_but_requires_letter() {
    let mut g = Guesser::new(words(&["lemon", "melon", "plumb", "bread"]));
    g.guess("lxxxx".to_string(), [Amber, Grey, Grey, Grey, Grey]);
    assert_eq!(g.get_options(), vec!["melon", "plumb"]);
}

#[test]
fn all_grey_removes_guess_letters() {
    let mut g = Guesser::new(words(&["crane", "moist", "bulky", "champ"]));
    g.guess("crane".to_string(), [Grey, Grey, Grey, Grey, Grey]);
    let options = g.get_options();
    assert_eq!(options, vec!["moist", "bulky"]);
    for w in options {
        for c in "crane".chars() {
            assert!(!w.contains(c));
        }
    }
}

#[test]
fn all_green_leaves_only_the_guess() {
    let mut g = four();
    g.guess("ankle".to_string(), [Green, Green, Green, Green, Green]);
    assert_eq!(g.get_options(), vec!["ankle"]);
}

#[test]
fn guess_only_narrows() {
    let mut g = Guesser::new(words(&["crane", "moist", "bulky", "champ", "train"]));
    let before: Vec<String> = g.get_options().iter().map(|s| s.to_string()).collect();
    g.guess("brace".to_string(), [Grey, Green, Green, Amber, Green]);
    let after = g.get_options();
    assert_eq!(after, vec!["crane"]);
    for w in after {
        assert!(before.iter().any(|b| b == w));
    }
}

#[test]
fn options_twice_agree() {
    let mut g = four();
    g.guess("axxxx".to_string(), [Green, Grey, Grey, Grey, Grey]);
    assert_eq!(g.get_options(), g.get_options());
}

#[test]
fn frequencies_count_words_not_occurrences() {
    let g = four();
    let f = g.get_frequencies();
    assert_eq!(f.get('a'), 4);
    assert_eq!(f.get('p'), 2);
    assert_eq!(f.get('l'), 4);
    assert_eq!(f.get('e'), 3);
    assert_eq!(f.get('z'), 0);
}

#[test]
fn frequencies_follow_candidates_dict_frequencies_do_not() {
    let mut g = four();
    g.guess("axxxx".to_string(), [Green, Grey, Grey, Grey, Grey]);
    g.guess("xnxxx".to_string(), [Grey, Green, Grey, Grey, Grey]);
    let f = g.get_frequencies();
    assert_eq!(f.get('a'), 2);
    assert_eq!(f.get('p'), 0);
    let d = g.get_dict_frequencies();
    assert_eq!(d.get('a'), 4);
    assert_eq!(d.get('p'), 2);
}

#[test]
fn word_score_sums_distinct_letters() {
    let g = four();
    let f = g.get_frequencies();
    assert_eq!(g.word_score("apple", &f), 13);
    assert_eq!(g.word_score("angle", &f), 14);
    assert_eq!(g.word_score("apply", &f), 11);
}

#[test]
fn word_score_is_repeatable() {
    let g = four();
    let f = g.get_frequencies();
    assert_eq!(g.word_score("ankle", &f), g.word_score("ankle", &f));
    assert_eq!(g.word_info_score("ankle", &f), g.word_info_score("ankle", &f));
}

#[test]
fn info_score_skips_known_letters() {
    let mut g = four();
    g.guess("apple".to_string(), [Green, Grey, Grey, Grey, Grey]);
    let d = g.get_dict_frequencies();
    assert_eq!(g.word_info_score("apple", &d), 0);
    assert_eq!(g.word_info_score("angle", &d), 3);
    assert_eq!(g.word_info_score("apply", &d), 1);
}

#[test]
fn most_likely_ranks_by_score() {
    let g = four();
    let r = g.get_most_likley();
    assert_eq!(r.len(), 4);
    let mut top: Vec<&str> = r[..2].to_vec();
    top.sort();
    assert_eq!(top, vec!["angle", "ankle"]);
    assert_eq!(r[2], "apple");
    assert_eq!(r[3], "apply");
}

#[test]
fn most_info_ranks_unknown_letters() {
    let mut g = four();
    g.guess("apple".to_string(), [Green, Grey, Grey, Grey, Grey]);
    let r = g.get_most_info();
    assert_eq!(r.len(), 4);
    let mut top: Vec<&str> = r[..2].to_vec();
    top.sort();
    assert_eq!(top, vec!["angle", "ankle"]);
    assert_eq!(r[2], "apply");
    assert_eq!(r[3], "apple");
}

#[test]
fn rankings_hold_at_most_ten_in_order() {
    let list = [
        "abcde", "fghij", "klmno", "pqrst", "uvwxy", "abfgk", "lmpqu", "zzzzz", "aaaaa", "bbbbb",
        "abcdf", "eeeee",
    ];
    let g = Guesser::new(words(&list));
    let f = g.get_frequencies();
    let d = g.get_dict_frequencies();
    let likely = g.get_most_likley();
    let info = g.get_most_info();
    assert_eq!(likely.len(), 10);
    assert_eq!(info.len(), 10);
    for pair in likely.windows(2) {
        assert!(g.word_score(pair[0], &f) >= g.word_score(pair[1], &f));
    }
    for pair in info.windows(2) {
        assert!(g.word_info_score(pair[0], &d) >= g.word_info_score(pair[1], &d));
    }
    assert!(!likely.contains(&"zzzzz"));
    assert!(!likely.contains(&"eeeee"));
}

#[test]
fn most_likely_empty_when_constraints_conflict() {
    let mut g = four();
    g.guess("zzzzz".to_string(), [Green, Grey, Grey, Grey, Grey]);
    assert!(g.get_options().is_empty());
    assert!(g.get_most_likley().is_empty());
    assert_eq!(g.get_most_info().len(), 4);
}
