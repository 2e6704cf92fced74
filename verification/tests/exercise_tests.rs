use std::collections::HashMap;
use vocrab::exercise::{
    convert_commands, exercise_order, worst_words, InputAction, Outcome, Session, WORST_COUNT,
};
use vocrab::word::Word;

fn word(a: &str, success: i64, failed: i64) -> Word {
    Word { lang_a: a.to_string(), lang_b: a.to_uppercase(), success, failed }
}

fn rate(w: &Word) -> f64 {
    if w.success == 0 {
        0.0
    } else {
        w.success as f64 / (w.success + w.failed) as f64
    }
}

fn table(counts: &[(i64, i64)]) -> HashMap<usize, Word> {
    let mut m = HashMap::new();
    for (i, (s, f)) in counts.iter().enumerate() {
        m.insert(i, word(&format!("w{}", i), *s, *f));
    }
    m
}

#[test]
fn least_known_words_come_first() {
    // rates: 1/2, 0, 3/4, 1/3, 1
    let m = table(&[(1, 1), (0, 3), (3, 1), (1, 2), (2, 0)]);
    let order = exercise_order(&m);
    assert_eq!(order, vec![1, 3, 0, 2, 4]);
}

#[test]
fn order_lists_every_id_once() {
    let m = table(&[(1, 1), (1, 1), (0, 0), (5, 5), (2, 2), (0, 1)]);
    let order = exercise_order(&m);
    let mut sorted = order.clone();
    sorted.sort();
    assert_eq!(sorted, vec![0, 1, 2, 3, 4, 5]);
    for pair in order.windows(2) {
        assert!(rate(&m[&pair[0]]) <= rate(&m[&pair[1]]));
    }
}

#[test]
fn order_of_empty_table_is_empty() {
    let m: HashMap<usize, Word> = HashMap::new();
    assert!(exercise_order(&m).is_empty());
}

#[test]
fn worst_words_are_the_ten_least_known() {
    // word i has rate i/12 (i successes out of 12 answers)
    let counts: Vec<(i64, i64)> = (0..12).map(|i| (i, 12 - i)).rev().collect();
    let m = table(&counts);
    let worst = worst_words(&m);
    assert_eq!(worst.len(), WORST_COUNT);
    // table index j holds 11 - j successes
    let expected: Vec<usize> = (2..12).rev().collect();
    assert_eq!(worst, expected);
}

#[test]
fn worst_words_of_a_small_unit_lists_all() {
    let m = table(&[(3, 0), (0, 3), (1, 1)]);
    assert_eq!(worst_words(&m), vec![1, 2, 0]);
}

#[test]
fn convert_commands_reads_each_command() {
    assert_eq!(convert_commands(":q"), InputAction::Stop);
    assert_eq!(convert_commands(":q!"), InputAction::ForceQuit);
    assert_eq!(convert_commands(":fq"), InputAction::ForceQuit);
    assert_eq!(convert_commands(":qa"), InputAction::QuitAll);
    assert_eq!(convert_commands(":qa!"), InputAction::ForceQuitAll);
    assert_eq!(convert_commands(""), InputAction::GoOn);
    assert_eq!(convert_commands("q"), InputAction::GoOn);
    assert_eq!(convert_commands(":q "), InputAction::GoOn);
}

#[test]
fn session_asks_every_word_once_and_records_answers() {
    let m = table(&[(1, 0), (0, 1), (1, 1)]);
    let mut s = Session::new(m);
    assert_eq!(s.order, vec![1, 2, 0]);
    assert_eq!(s.current(), Some(1));
    assert_eq!(s.record(true, InputAction::GoOn), Outcome::Next);
    assert_eq!(s.current(), Some(2));
    assert_eq!(s.record(false, InputAction::GoOn), Outcome::Next);
    assert_eq!(s.current(), Some(0));
    assert_eq!(s.record(true, InputAction::GoOn), Outcome::EndUnit);
    assert_eq!(s.current(), None);
    assert_eq!(s.position, 3);
    assert_eq!((s.n_correct, s.n_wrong), (2, 1));
    assert_eq!((s.words[&1].success, s.words[&1].failed), (1, 1));
    assert_eq!((s.words[&2].success, s.words[&2].failed), (1, 2));
    assert_eq!((s.words[&0].success, s.words[&0].failed), (2, 0));
}

#[test]
fn session_commands_end_the_unit() {
    let cases = [
        (InputAction::Stop, Outcome::EndUnit),
        (InputAction::ForceQuit, Outcome::AbandonUnit),
        (InputAction::QuitAll, Outcome::QuitSaving),
        (InputAction::ForceQuitAll, Outcome::QuitWithoutSaving),
    ];
    for (action, outcome) in cases {
        let mut s = Session::new(table(&[(0, 0), (1, 0)]));
        assert_eq!(s.record(false, action), outcome);
        assert_eq!(s.position, 1);
        assert_eq!(s.words[&0].failed, 1);
        assert_eq!(s.words[&1].failed, 0);
    }
}
