use vocrab::word::Word;

fn word(a: &str, b: &str, success: i64, failed: i64) -> Word {
    Word { lang_a: a.to_string(), lang_b: b.to_string(), success, failed }
}

#[test]
fn update_sucr_counts_a_right_answer() {
    let mut w = word("red", "rot", 2, 3);
    w.update_sucr(true);
    assert_eq!(w.success, 3);
    assert_eq!(w.failed, 3);
    assert_eq!(w.lang_a, "red");
    assert_eq!(w.lang_b, "rot");
}

#[test]
fn update_sucr_counts_a_wrong_answer() {
    let mut w = word("red", "rot", 2, 3);
    w.update_sucr(false);
    assert_eq!(w.success, 2);
    assert_eq!(w.failed, 4);
}

#[test]
fn rate_of_a_new_word_is_lowest() {
    let new = word("a", "b", 0, 0);
    let failed_once = word("a", "b", 0, 1);
    let right_once = word("a", "b", 1, 0);
    assert!(new.rate_at_most(&failed_once));
    assert!(failed_once.rate_at_most(&new));
    assert!(new.rate_at_most(&right_once));
    assert!(!right_once.rate_at_most(&new));
}

#[test]
fn rate_compares_fractions_exactly() {
    // 1/2 == 2/4, 1/3 < 1/2, 2/3 > 1/2
    let half = word("a", "b", 1, 1);
    let half2 = word("a", "b", 2, 2);
    let third = word("a", "b", 1, 2);
    let two_thirds = word("a", "b", 2, 1);
    assert!(half.rate_at_most(&half2) && half2.rate_at_most(&half));
    assert!(third.rate_at_most(&half) && !half.rate_at_most(&third));
    assert!(half.rate_at_most(&two_thirds) && !two_thirds.rate_at_most(&half));
}

#[test]
fn rate_compares_large_counters_without_overflow() {
    let big = word("a", "b", i64::MAX, i64::MAX - 1);
    let small = word("a", "b", i64::MAX - 1, i64::MAX);
    assert!(small.rate_at_most(&big));
    assert!(!big.rate_at_most(&small));
}

#[test]
fn right_answer_never_lowers_the_rate() {
    for s in 0..5i64 {
        for f in 0..5i64 {
            let before = word("a", "b", s, f);
            let mut after = word("a", "b", s, f);
            after.update_sucr(true);
            assert!(before.rate_at_most(&after));
            let mut worse = word("a", "b", s, f);
            worse.update_sucr(false);
            assert!(worse.rate_at_most(&before));
        }
    }
}
