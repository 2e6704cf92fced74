use vocrab::startpage::{parse_selection, vocab_units, Selection};

#[test]
fn units_are_the_cbor_files() {
    let names = vec![
        "colors.cbor".to_string(),
        "".to_string(),
        "notes.txt".to_string(),
        "animals.cbor".to_string(),
        ".cbor".to_string(),
        "cbor".to_string(),
    ];
    assert_eq!(
        vocab_units(names),
        vec!["colors.cbor".to_string(), "animals.cbor".to_string(), ".cbor".to_string()]
    );
}

#[test]
fn selection_of_a_unit() {
    assert_eq!(parse_selection("2\n", 3), Selection::Unit { index: 2, ab: true });
    assert_eq!(parse_selection(" 0 ", 3), Selection::Unit { index: 0, ab: true });
    assert_eq!(parse_selection("+1", 3), Selection::Unit { index: 1, ab: true });
}

#[test]
fn selection_with_r_reverses_the_question_order() {
    assert_eq!(parse_selection("1r\n", 3), Selection::Unit { index: 1, ab: false });
    assert_eq!(parse_selection("r1r", 3), Selection::Unit { index: 1, ab: false });
    assert_eq!(parse_selection("r1", 3), Selection::Unit { index: 1, ab: true });
}

#[test]
fn selection_out_of_range_or_invalid() {
    assert_eq!(parse_selection("3", 3), Selection::OutOfRange);
    assert_eq!(parse_selection("0", 0), Selection::OutOfRange);
    assert_eq!(parse_selection("1r2", 3), Selection::OutOfRange);
    assert_eq!(parse_selection("x", 3), Selection::Invalid);
    assert_eq!(parse_selection("", 3), Selection::Invalid);
    assert_eq!(parse_selection("-1", 3), Selection::Invalid);
    assert_eq!(parse_selection("r", 3), Selection::Invalid);
}

#[test]
fn selection_to_quit() {
    assert_eq!(parse_selection(":qa\n", 3), Selection::QuitAll);
    assert_eq!(parse_selection(":qa!", 3), Selection::QuitAll);
    assert_eq!(parse_selection(":q", 3), Selection::Invalid);
}
