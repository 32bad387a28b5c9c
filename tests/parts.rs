use wordle_solver::freq::Frequencies;
use wordle_solver::ranking::top_ranked;
use wordle_solver::words::{chars_of, has_letter, is_retained, keeps_word, occurs_before};

#[test]
fn retained_needs_lowercase_form() {
    assert!(is_retained(&"apple".to_string()));
    assert!(!is_retained(&"Apple".to_string()));
    assert!(!is_retained(&"APPLE".to_string()));
    assert!(!is_retained(&"apples".to_string()));
    assert!(!is_retained(&"appl".to_string()));
}

#[test]
fn keeps_word_compares_with_lowered() {
    assert!(keeps_word(&"crane".to_string(), &"crane".to_string()));
    assert!(!keeps_word(&"Crane".to_string(), &"crane".to_string()));
    assert!(!keeps_word(&"cranes".to_string(), &"cranes".to_string()));
}

#[test]
fn letters_of_words() {
    let cs = chars_of("caf\u{e9}s");
    assert_eq!(cs, vec!['c', 'a', 'f', '\u{e9}', 's']);
    assert!(has_letter(&cs, 'f'));
    assert!(!has_letter(&cs, 'e'));
    let p = chars_of("apple");
    assert!(!occurs_before(&p, 1));
    assert!(occurs_before(&p, 2));
}

#[test]
fn table_counts() {
    let mut f = Frequencies::new();
    assert_eq!(f.get('q'), 0);
    f.bump('q');
    f.bump('q');
    f.count_word("apple");
    assert_eq!(f.get('q'), 2);
    assert_eq!(f.get('p'), 1);
    assert_eq!(f.get('a'), 1);
    assert_eq!(f.get('z'), 0);
}

#[test]
fn top_ranked_orders_best_first() {
    let r = top_ranked(&vec![3, 5, 5, 1]);
    assert_eq!(r.len(), 4);
    let mut top = r[..2].to_vec();
    top.sort();
    assert_eq!(top, vec![1, 2]);
    assert_eq!(r[2], 0);
    assert_eq!(r[3], 3);
}

#[test]
fn top_ranked_keeps_ten() {
    let scores: Vec<usize> = vec![7, 1, 9, 4, 12, 0, 8, 3, 6, 5, 11, 2];
    let r = top_ranked(&scores);
    assert_eq!(r.len(), 10);
    assert!(!r.contains(&5));
    assert!(!r.contains(&1));
    assert_eq!(r[0], 4);
    assert_eq!(r[1], 10);
    for pair in r.windows(2) {
        assert!(scores[pair[0]] >= scores[pair[1]]);
    }
}

#[test]
fn top_ranked_of_nothing() {
    assert!(top_ranked(&Vec::new()).is_empty());
}
