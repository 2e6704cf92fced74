use vocrab::files::{
    csv_to_words, parse_csv_line, tmp_file_name, tmp_name_from_draws, CsvError, CHARSET,
};

#[test]
fn csv_line_splits_into_two_trimmed_fields() {
    assert_eq!(
        parse_csv_line("  red , rot \n"),
        Ok(("red".to_string(), "rot".to_string()))
    );
    assert_eq!(parse_csv_line("blue,blau"), Ok(("blue".to_string(), "blau".to_string())));
    assert_eq!(parse_csv_line(","), Ok((String::new(), String::new())));
}

#[test]
fn csv_line_with_other_piece_counts_is_an_error() {
    assert_eq!(parse_csv_line("a,b,c"), Err(2));
    assert_eq!(parse_csv_line("abc"), Err(0));
    assert_eq!(parse_csv_line(""), Err(0));
    assert_eq!(parse_csv_line(" ,, "), Err(2));
}

#[test]
fn csv_lines_become_new_words_keyed_by_line() {
    let lines = vec![
        Some("red,rot".to_string()),
        None,
        Some(" yellow , gelb ".to_string()),
    ];
    let words = csv_to_words(&lines).unwrap();
    assert_eq!(words.len(), 2);
    assert_eq!(words[&0].lang_a, "red");
    assert_eq!(words[&0].lang_b, "rot");
    assert_eq!(words[&2].lang_a, "yellow");
    assert_eq!(words[&2].lang_b, "gelb");
    assert_eq!((words[&2].success, words[&2].failed), (0, 0));
    assert!(!words.contains_key(&1));
}

#[test]
fn csv_error_names_the_first_bad_line() {
    let lines = vec![
        Some("red,rot".to_string()),
        Some("blue;blau".to_string()),
        Some("a,b,c".to_string()),
    ];
    assert_eq!(csv_to_words(&lines).err(), Some(CsvError { line: 1, commas: 0 }));
}

#[test]
fn tmp_name_from_draws_picks_the_drawn_characters() {
    let draws: Vec<usize> = vec![0, 1, 25, 26, 51, 52, 60, 0, 0, 0, 0, 0, 0, 0, 0, 2];
    assert_eq!(tmp_name_from_draws(&draws), "tmp_ABZaz19AAAAAAAAC.cbor");
}

#[test]
fn tmp_file_name_has_the_documented_shape() {
    let name = tmp_file_name();
    assert_eq!(name.len(), 25);
    assert!(name.starts_with("tmp_"));
    assert!(name.ends_with(".cbor"));
    assert!(name[4..20].chars().all(|c| CHARSET.contains(c)));
}

#[test]
fn tmp_file_names_are_random() {
    let names: Vec<String> = (0..5).map(|_| tmp_file_name()).collect();
    assert!(names.iter().any(|n| n != &names[0]));
}
