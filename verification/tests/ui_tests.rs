use vocrab::ui::{
    calc_spacing, left_pad, line_count, stats_line, top_pad, Question, GREEN, RED,
};
use vocrab::word::Word;

/// The spacing as computed with the terminal's width as a float.
fn float_spacing(len: usize, width: f32) -> usize {
    let mut spacing = (width / 2. - (len as f32 / 2.)) as usize;
    if len + spacing >= width as usize {
        spacing = 0
    }
    spacing
}

#[test]
fn calc_spacing_centres() {
    assert_eq!(calc_spacing(4, 20), 8);
    assert_eq!(calc_spacing(3, 10), 3);
    assert_eq!(calc_spacing(20, 20), 0);
    assert_eq!(calc_spacing(19, 20), 0);
    assert_eq!(calc_spacing(25, 20), 0);
    assert_eq!(calc_spacing(0, 0), 0);
}

#[test]
fn calc_spacing_agrees_with_float_layout() {
    for width in [0u16, 1, 2, 3, 10, 79, 80, 200] {
        for len in 0..300usize {
            assert_eq!(calc_spacing(len, width), float_spacing(len, width as f32));
        }
    }
}

#[test]
fn line_count_rounds_up() {
    assert_eq!(line_count(10, 3), 4);
    assert_eq!(line_count(9, 3), 3);
    assert_eq!(line_count(0, 3), 0);
    assert_eq!(line_count(0, 0), 0);
    assert_eq!(line_count(5, 0), usize::MAX);
    for width in [0u16, 1, 7, 80] {
        for len in 0..200usize {
            assert_eq!(line_count(len, width), (len as f32 / width as f32).ceil() as usize);
        }
    }
}

#[test]
fn pads() {
    assert_eq!(top_pad("x", 2, 10), "\n\nx");
    assert_eq!(left_pad("x", 3, 10), "   x");
    assert_eq!(left_pad("", 0, 10), "");
}

fn word() -> Word {
    Word { lang_a: "red".to_string(), lang_b: "rot".to_string(), success: 0, failed: 0 }
}

fn question(w: &Word, ab: bool) -> Question<'_> {
    Question {
        word: w,
        user_answer: String::new(),
        answer_correct: false,
        ab,
        term_width: 30,
        term_height: 20,
        left_spacing_word: 0,
        left_spacing_answer: 0,
        border_size: 0,
        left_spacing_border: 0,
        lines_filled: 2,
    }
}

#[test]
fn display_stats_for_a_word() {
    let w = word();
    let mut q = question(&w, true);
    q.get_display_stats();
    assert_eq!(q.left_spacing_word, 13);
    assert_eq!(q.left_spacing_answer, 13);
    assert_eq!(q.border_size, 10);
    assert_eq!(q.left_spacing_border, 10);
    let long = Word { lang_a: "a".repeat(40), lang_b: "b".to_string(), success: 0, failed: 0 };
    let mut q = question(&long, true);
    q.get_display_stats();
    assert_eq!(q.border_size, 30);
    assert_eq!(q.left_spacing_word, 0);
}

#[test]
fn display_stats_measure_the_stored_pair_either_way() {
    let w = Word {
        lang_a: "red".to_string(),
        lang_b: "Erdbeeren".to_string(),
        success: 0,
        failed: 0,
    };
    for ab in [true, false] {
        let mut q = question(&w, ab);
        q.get_display_stats();
        assert_eq!(q.left_spacing_word, 13);
        assert_eq!(q.left_spacing_answer, 10);
        assert_eq!(q.border_size, 10);
        assert_eq!(q.left_spacing_border, 10);
    }
}

#[test]
fn ask_screen_and_answer() {
    let w = word();
    let mut q = question(&w, true);
    q.get_display_stats();
    let screen = q.ask_screen();
    assert_eq!(screen.top, "\n".repeat(9));
    assert_eq!(screen.question, format!("{}red", " ".repeat(13)));
    assert_eq!(screen.border, format!("{}{}", " ".repeat(10), "=".repeat(10)));
    assert_eq!(screen.answer_pad, " ".repeat(13));
    assert_eq!(q.lines_filled, 2);
    q.ask("  rot \n");
    assert_eq!(q.user_answer, "rot");
    assert_eq!(q.lines_filled, 3);
}

#[test]
fn check_of_a_right_answer() {
    let w = word();
    let mut q = question(&w, true);
    q.get_display_stats();
    q.ask("rot\n");
    let screen = q.check();
    assert!(q.answer_correct);
    assert_eq!(screen.question, format!("{}red", " ".repeat(13)));
    assert_eq!(screen.answer, "\u{1b}[38;5;65mrot\u{1b}[0m");
    assert_eq!(
        screen.border,
        format!("{}\u{1b}[38;5;65m{}\u{1b}[0m", " ".repeat(10), "|".repeat(10))
    );
    assert_eq!(q.lines_filled, 3);
    assert_eq!(screen.top, "\n".repeat(8));
}

#[test]
fn check_of_a_wrong_answer_shows_the_expected_one() {
    let w = word();
    let mut q = question(&w, false);
    q.get_display_stats();
    q.ask("rad");
    let screen = q.check();
    assert!(!q.answer_correct);
    assert_eq!(screen.question, format!("{}rot = red", " ".repeat(10)));
    assert_eq!(screen.answer, "\u{1b}[38;5;9mrad\u{1b}[0m");
    assert!(screen.border.ends_with(&format!("\u{1b}[38;5;9m{}\u{1b}[0m", "x".repeat(10))));
}

#[test]
fn next_action_prompt() {
    let w = word();
    let mut q = question(&w, true);
    q.lines_filled = 3;
    let screen = q.next_action_screen();
    assert_eq!(screen.question, format!("{}Next action ", " ".repeat(9)));
    assert_eq!(screen.pad, " ".repeat(14));
    assert_eq!(q.lines_filled, 6);
}

#[test]
fn stats_line_layout() {
    let (line, lines) = stats_line("colors.cbor", 2, 5, 1, 0, 80);
    let text = format!(
        "Word 2 of 5 colors.cbor \u{2705}\u{1b}[38;5;{}m1\u{1b}[0m \u{274c}\u{1b}[38;5;{}m0\u{1b}[0m",
        GREEN, RED
    );
    let shown = text.len() - 26;
    assert_eq!(shown, 34);
    assert_eq!(lines, 1);
    assert_eq!(line, format!("{}{}", " ".repeat((80 - shown) / 2), text));
}

#[test]
fn border_width_agrees_with_float_layout() {
    let w = Word { lang_a: "abcde".to_string(), lang_b: "x".to_string(), success: 0, failed: 0 };
    for width in 1u16..400 {
        let mut q = question(&w, true);
        q.term_width = width;
        q.get_display_stats();
        let mut border = (width as f32 / 3.) as usize;
        if border <= 5 {
            border = 5
        }
        if border >= width as usize {
            border = width as usize
        }
        assert_eq!(q.border_size, border);
        assert_eq!(q.left_spacing_border, calc_spacing(border, width));
    }
}
