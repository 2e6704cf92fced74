use vstd::prelude::*;

use crate::text::{
    byte_len, decimal, decimal_string, lemma_ascii_byte_len, push_char, str_eq, trim, trimmed,
};
use crate::word::Word;

verus! {

/// The 256-colour code in which right answers are shown.
pub const GREEN: u8 = 65;

/// The 256-colour code in which wrong answers are shown.
pub const RED: u8 = 9;

/// The number of bytes that the layout of the statistics line takes off the
/// line's length for each of its two coloured counts.
pub const SINGLE_COLOR_ANSI_COMP: usize = 13;

/// The left margin that centres a text of `len` columns on a line of `width`
/// columns; 0 where the text does not fit with room to spare.
pub open spec fn spacing(len: nat, width: nat) -> nat {
    let s: nat = if len <= width {
        ((width - len) / 2) as nat
    } else {
        0
    };
    if len + s >= width {
        0
    } else {
        s
    }
}

/// The left margin that centres a text of `in_word_len` columns on a line of
/// `term_width` columns (also used with lines and the terminal's height).
pub fn calc_spacing(in_word_len: usize, term_width: u16) -> (r: usize)
    ensures
        r == spacing(in_word_len as nat, term_width as nat),
        r == 0 || in_word_len + r < term_width,
        2 * r <= term_width,
{
    let w = term_width as usize;
    let s: usize = if in_word_len <= w {
        (w - in_word_len) / 2
    } else {
        0
    };
    if in_word_len + s >= w {
        0
    } else {
        s
    }
}

/// `n` copies of `c`.
pub open spec fn repeat(c: char, n: nat) -> Seq<char> {
    Seq::new(n, |i: int| c)
}

/// A string of `n` copies of `c`.
fn repeat_char(c: char, n: usize) -> (s: String)
    ensures
        s@ == repeat(c, n as nat),
{
    let mut s = String::new();
    for i in 0..n
        invariant
            s@ == repeat(c, i as nat),
    {
        push_char(&mut s, c);
        assert(s@ =~= repeat(c, (i + 1) as nat));
    }
    s
}

/// `word` below `spacing` empty lines.
pub fn top_pad(word: &str, spacing: usize, term_height: u16) -> (padded: String)
    ensures
        padded@ == repeat('\n', spacing as nat) + word@,
{
    let mut padded = repeat_char('\n', spacing);
    padded.append(word);
    padded
}

/// `word` behind `spacing` blanks.
pub fn left_pad(word: &str, spacing: usize, term_width: u16) -> (padded: String)
    ensures
        padded@ == repeat(' ', spacing as nat) + word@,
{
    let mut padded = repeat_char(' ', spacing);
    padded.append(word);
    padded
}

/// How many terminal lines a text of `len` bytes takes on lines of `width`
/// columns: the quotient rounded up; on a terminal of no width, none for an
/// empty text and the largest `usize` for any other.
pub open spec fn lines_needed(len: nat, width: nat) -> nat {
    if width == 0 {
        if len == 0 {
            0
        } else {
            usize::MAX as nat
        }
    } else if len % width == 0 {
        len / width
    } else {
        len / width + 1
    }
}

/// How many terminal lines a text of `len` bytes takes on lines of `width` columns.
pub fn line_count(len: usize, width: u16) -> (r: usize)
    ensures
        r == lines_needed(len as nat, width as nat),
        width > 0 ==> r <= len,
{
    if width == 0 {
        if len == 0 {
            0
        } else {
            usize::MAX
        }
    } else {
        let w = width as usize;
        if len % w == 0 {
            len / w
        } else {
            assert(len / w < len) by (nonlinear_arith)
                requires
                    w >= 1,
                    len % w != 0,
            {
                assert(len == w * (len / w) + len % w);
            }
            len / w + 1
        }
    }
}

/// What `Color::Fixed(color).paint(text)` of nu_ansi_term writes: the code
/// that selects colour `color` of the 256-colour palette, the text, and the
/// code that resets all styles.
pub open spec fn painted(color: u8, text: Seq<char>) -> Seq<char> {
    "\u{1b}[38;5;"@ + decimal(color as nat) + "m"@ + text + "\u{1b}[0m"@
}

/// nu_ansi_term's `Color::Fixed(color).paint(text).to_string()`: the text
/// between the codes that select the colour and reset it (`painted`).
#[verifier::external_body]
fn paint_fixed(color: u8, text: &str) -> (r: String)
    ensures
        r@ == painted(color, text@),
{
    nu_ansi_term::Color::Fixed(color).paint(text).to_string()
}

/// The statistics line of a unit: `Word {n_words} of {n_total_words}
/// {unit_desc} ✅{correct} ❌{wrong}`, the two counts in green and red.
pub open spec fn stats_text(
    unit_desc: Seq<char>,
    n_words: nat,
    n_total_words: nat,
    correct: nat,
    wrong: nat,
) -> Seq<char> {
    "Word "@ + decimal(n_words) + " of "@ + decimal(n_total_words) + " "@ + unit_desc
        + " \u{2705}"@ + painted(GREEN, decimal(correct)) + " \u{274c}"@ + painted(
        RED,
        decimal(wrong),
    )
}

/// The width for which the statistics line is laid out: its length in bytes
/// less `SINGLE_COLOR_ANSI_COMP` for each coloured count. This is an estimate
/// of the columns it takes, not their exact number: the colour codes take 27
/// bytes in all (14 around the green count, 13 around the red one), and each
/// of the two marks takes 3 bytes for 2 columns, so a line whose description
/// is ASCII takes 3 columns fewer than the estimate.
pub open spec fn stats_width_estimate(stats: Seq<char>) -> nat {
    (byte_len(stats) - 2 * SINGLE_COLOR_ANSI_COMP) as nat
}

/// A decimal representation has at least one digit.
proof fn lemma_decimal_len(n: nat)
    ensures
        decimal(n).len() >= 1,
    decreases n,
{
}

/// Lays out the statistics line of a unit: the line, centred, and how many
/// terminal lines it takes.
pub fn stats_line(
    unit_desc: &str,
    n_words: usize,
    n_total_words: usize,
    correct: usize,
    wrong: usize,
    term_width: u16,
) -> (r: (String, usize))
    requires
        vstd::utf8::encode_utf8(
            stats_text(
                unit_desc@,
                n_words as nat,
                n_total_words as nat,
                correct as nat,
                wrong as nat,
            ),
        ).len() <= usize::MAX,
    ensures
        ({
            let text = stats_text(
                unit_desc@,
                n_words as nat,
                n_total_words as nat,
                correct as nat,
                wrong as nat,
            );
            let shown = stats_width_estimate(text);
            &&& r.0@ == repeat(' ', spacing(shown, term_width as nat)) + text
            &&& r.1 == lines_needed(shown, term_width as nat)
            &&& shown >= 1
        }),
        term_width > 0 ==> r.1 >= 1,
{
    proof {
        reveal_strlit("Word ");
        reveal_strlit(" of ");
        reveal_strlit(" ");
        reveal_strlit(" \u{2705}");
        reveal_strlit(" \u{274c}");
    }
    let mut stat = "Word ".to_owned();
    stat.append(decimal_string(n_words).as_str());
    stat.append(" of ");
    stat.append(decimal_string(n_total_words).as_str());
    stat.append(" ");
    stat.append(unit_desc);
    stat.append(" \u{2705}");
    stat.append(paint_fixed(GREEN, decimal_string(correct).as_str()).as_str());
    stat.append(" \u{274c}");
    stat.append(paint_fixed(RED, decimal_string(wrong).as_str()).as_str());
    let ghost text = stats_text(
        unit_desc@,
        n_words as nat,
        n_total_words as nat,
        correct as nat,
        wrong as nat,
    );
    proof {
        assert(stat@ =~= text);
        reveal_strlit("\u{1b}[38;5;");
        reveal_strlit("m");
        reveal_strlit("\u{1b}[0m");
        lemma_decimal_len(correct as nat);
        lemma_decimal_len(wrong as nat);
        lemma_decimal_len(GREEN as nat);
        lemma_decimal_len(RED as nat);
        crate::text::lemma_encode_utf8_len(text);
        assert(text.len() > 2 * SINGLE_COLOR_ANSI_COMP);
    }
    let shown = stat.as_str().len() - 2 * SINGLE_COLOR_ANSI_COMP;
    let lines = line_count(shown, term_width);
    proof {
        if term_width > 0 {
            let w = term_width as nat;
            if shown as nat % w == 0 {
                assert(shown as nat / w >= 1) by (nonlinear_arith)
                    requires
                        w >= 1,
                        shown >= 1,
                        shown as nat % w == 0,
                {
                    assert(shown as nat == w * (shown as nat / w) + shown as nat % w);
                }
            }
        }
    }
    let line = left_pad(stat.as_str(), calc_spacing(shown, term_width), term_width);
    (line, lines)
}

/// The width of the border under a question: a third of the terminal's width,
/// at least as wide as the shown word, and no wider than the terminal.
pub open spec fn border_width(word_len: nat, width: nat) -> nat {
    let third = width / 3;
    let b = if third <= word_len {
        word_len
    } else {
        third
    };
    if b >= width {
        width
    } else {
        b
    }
}

/// The lines printed to ask a word.
#[derive(Debug)]
pub struct AskScreen {
    /// Empty lines above the question.
    pub top: String,
    /// The asked word, centred.
    pub question: String,
    /// The border under it.
    pub border: String,
    /// The margin before the answer is typed.
    pub answer_pad: String,
}

/// The lines printed after a word was answered.
#[derive(Debug)]
pub struct CheckScreen {
    /// Empty lines above the question.
    pub top: String,
    /// The asked word, followed by ` = ` and the expected answer where the
    /// answer was wrong, centred.
    pub question: String,
    /// The border in green or red.
    pub border: String,
    /// The margin before the answer.
    pub answer_pad: String,
    /// The given answer in green or red.
    pub answer: String,
}

/// The lines printed to ask for the next action.
#[derive(Debug)]
pub struct NextActionScreen {
    /// The centred prompt (printed after an empty line).
    pub question: String,
    /// The margin before the action is typed.
    pub pad: String,
}

/// One word being asked, with the layout of the screen.
#[derive(Debug)]
pub struct Question<'b> {
    pub word: &'b Word,
    pub user_answer: String,
    pub answer_correct: bool,
    /// Whether `lang_a` is shown and `lang_b` expected (else the other way round).
    pub ab: bool,
    pub term_width: u16,
    pub term_height: u16,
    pub left_spacing_word: usize,
    pub left_spacing_answer: usize,
    pub border_size: usize,
    pub left_spacing_border: usize,
    /// How many lines of the screen are taken.
    pub lines_filled: usize,
}

impl<'b> Question<'b> {
    /// The word that is shown.
    pub open spec fn shown_text(&self) -> Seq<char> {
        if self.ab {
            self.word.lang_a@
        } else {
            self.word.lang_b@
        }
    }

    /// The answer that is expected.
    pub open spec fn expected_text(&self) -> Seq<char> {
        if self.ab {
            self.word.lang_b@
        } else {
            self.word.lang_a@
        }
    }

    /// The centred line that asks the word.
    pub open spec fn ask_line(&self) -> Seq<char> {
        repeat(' ', self.left_spacing_word as nat) + self.shown_text()
    }

    /// The two halves of the pair: the word asked is `lang_a` and the answer
    /// expected `lang_b` when `ab` holds, the other way round otherwise. The
    /// question line is the asked word behind the word's margin, the line shown
    /// after a right answer is the asked word alone and after a wrong one the
    /// asked word, ` = ` and the expected one; an answer is right exactly when
    /// it is the expected word, so one that differs from it, the empty one
    /// included, is wrong.
    pub proof fn lemma_question_halves(&self)
        ensures
            ({
                let asked = if self.ab {
                    self.word.lang_a@
                } else {
                    self.word.lang_b@
                };
                let expected = if self.ab {
                    self.word.lang_b@
                } else {
                    self.word.lang_a@
                };
                &&& self.shown_text() == asked
                &&& self.expected_text() == expected
                &&& self.ask_line() == repeat(' ', self.left_spacing_word as nat) + asked
                &&& self.checked_text(true) == asked
                &&& self.checked_text(false) == asked + " = "@ + expected
                &&& self.is_correct() <==> self.user_answer@ == expected
                &&& self.user_answer@ != expected ==> !self.is_correct()
            }),
    {
    }

    /// Computes the margins and the border's width for the terminal's width.
    /// They are measured on the pair as it is stored, whichever way round it is
    /// asked: the word's margin and the border (at least as wide as it) on
    /// `lang_a`, the answer's margin on `lang_b`.
    pub fn get_display_stats(&mut self)
        requires
            old(self).term_width > 0,
        ensures
            ({
                let w = old(self).term_width as nat;
                let a = byte_len(old(self).word.lang_a@) as nat;
                let b = byte_len(old(self).word.lang_b@) as nat;
                let border = border_width(a, w);
                *final(self) == Question {
                    left_spacing_word: spacing(a, w) as usize,
                    left_spacing_answer: spacing(b, w) as usize,
                    border_size: border as usize,
                    left_spacing_border: spacing(border, w) as usize,
                    ..*old(self)
                }
            }),
    {
        let w = self.term_width;
        let la = self.word.lang_a.as_str().len();
        let lb = self.word.lang_b.as_str().len();
        self.left_spacing_word = calc_spacing(la, w);
        self.left_spacing_answer = calc_spacing(lb, w);
        self.border_size = (w / 3) as usize;
        if self.border_size <= la {
            self.border_size = la;
        }
        if self.border_size >= w as usize {
            self.border_size = w as usize;
        }
        self.left_spacing_border = calc_spacing(self.border_size, w);
    }

    /// Lays out the screen that asks the word.
    pub fn ask_screen(&mut self) -> (screen: AskScreen)
        requires
            1 + lines_needed(byte_len(old(self).ask_line()) as nat, old(self).term_width as nat)
                <= usize::MAX,
        ensures
            screen.top@ == repeat('\n', spacing(1, old(self).term_height as nat)),
            screen.question@ == old(self).ask_line(),
            screen.question@ == repeat(' ', old(self).left_spacing_word as nat) + if old(self).ab {
                old(self).word.lang_a@
            } else {
                old(self).word.lang_b@
            },
            screen.border@ == repeat(' ', old(self).left_spacing_border as nat) + repeat(
                '=',
                old(self).border_size as nat,
            ),
            screen.answer_pad@ == repeat(' ', old(self).left_spacing_answer as nat),
            *final(self) == (Question {
                lines_filled: (1 + lines_needed(
                    byte_len(old(self).ask_line()) as nat,
                    old(self).term_width as nat,
                )) as usize,
                ..*old(self)
            }),
    {
        proof {
            reveal_strlit("");
        }
        self.lines_filled = 1;
        let border = repeat_char('=', self.border_size);
        let quest = if self.ab {
            self.word.lang_a.as_str()
        } else {
            self.word.lang_b.as_str()
        };
        let question = left_pad(quest, self.left_spacing_word, self.term_width);
        let top = top_pad("", calc_spacing(self.lines_filled, self.term_height), self.term_height);
        let border = left_pad(border.as_str(), self.left_spacing_border, self.term_width);
        let answer_pad = left_pad("", self.left_spacing_answer, self.term_width);
        assert(top@ =~= repeat('\n', spacing(1, self.term_height as nat)));
        assert(answer_pad@ =~= repeat(' ', self.left_spacing_answer as nat));
        self.lines_filled = self.lines_filled + line_count(question.as_str().len(), self.term_width);
        AskScreen { top, question, border, answer_pad }
    }

    /// The question as shown after the answer: the shown word, followed by
    /// ` = ` and the expected answer where `correct` is false.
    pub open spec fn checked_text(&self, correct: bool) -> Seq<char> {
        if correct {
            self.shown_text()
        } else {
            self.shown_text() + " = "@ + self.expected_text()
        }
    }

    /// The centred line with the question as shown after the answer.
    pub open spec fn check_line(&self, correct: bool) -> Seq<char> {
        let t = self.checked_text(correct);
        repeat(' ', spacing(byte_len(t) as nat, self.term_width as nat)) + t
    }

    /// Whether the given answer is the expected one.
    pub open spec fn is_correct(&self) -> bool {
        self.expected_text() == self.user_answer@
    }

    /// Decides whether the answer is right and lays out the screen that shows
    /// it: in green with a border of `|` where it is, in red with a border of
    /// `x` and the expected answer where it is not.
    pub fn check(&mut self) -> (screen: CheckScreen)
        requires
            1 + lines_needed(
                byte_len(old(self).check_line(old(self).is_correct())) as nat,
                old(self).term_width as nat,
            ) + lines_needed(byte_len(old(self).user_answer@) as nat, old(self).term_width as nat)
                <= usize::MAX,
        ensures
            ({
                let correct = old(self).is_correct();
                let color = if correct {
                    GREEN
                } else {
                    RED
                };
                let mark = if correct {
                    '|'
                } else {
                    'x'
                };
                let w = old(self).term_width as nat;
                let lines = 1 + lines_needed(byte_len(old(self).check_line(correct)) as nat, w)
                    + lines_needed(byte_len(old(self).user_answer@) as nat, w);
                &&& *final(self) == Question {
                    answer_correct: correct,
                    lines_filled: lines as usize,
                    ..*old(self)
                }
                &&& screen.top@ == repeat('\n', spacing(lines, old(self).term_height as nat))
                &&& screen.question@ == old(self).check_line(correct)
                &&& screen.border@ == repeat(' ', old(self).left_spacing_border as nat) + painted(
                    color,
                    repeat(mark, old(self).border_size as nat),
                )
                &&& screen.answer_pad@ == repeat(' ', old(self).left_spacing_answer as nat)
                &&& screen.answer@ == painted(color, old(self).user_answer@)
            }),
            final(self).answer_correct == (old(self).user_answer@ == if old(self).ab {
                old(self).word.lang_b@
            } else {
                old(self).word.lang_a@
            }),
    {
        proof {
            reveal_strlit("");
            reveal_strlit(" = ");
        }
        self.lines_filled = 1;
        let (quest, expected) = if self.ab {
            (self.word.lang_a.as_str(), self.word.lang_b.as_str())
        } else {
            (self.word.lang_b.as_str(), self.word.lang_a.as_str())
        };
        self.answer_correct = str_eq(expected, self.user_answer.as_str());
        let color = if self.answer_correct {
            GREEN
        } else {
            RED
        };
        let mark = if self.answer_correct {
            repeat_char('|', self.border_size)
        } else {
            repeat_char('x', self.border_size)
        };
        let border = paint_fixed(color, mark.as_str());
        let answer = paint_fixed(color, self.user_answer.as_str());
        let mut quest_string = quest.to_owned();
        if !self.answer_correct {
            quest_string.append(" = ");
            quest_string.append(expected);
        }
        let question = left_pad(
            quest_string.as_str(),
            calc_spacing(quest_string.as_str().len(), self.term_width),
            self.term_width,
        );
        self.lines_filled = self.lines_filled + line_count(question.as_str().len(), self.term_width);
        self.lines_filled = self.lines_filled + line_count(
            self.user_answer.as_str().len(),
            self.term_width,
        );
        let top = top_pad("", calc_spacing(self.lines_filled, self.term_height), self.term_height);
        let border = left_pad(border.as_str(), self.left_spacing_border, self.term_width);
        let answer_pad = left_pad("", self.left_spacing_answer, self.term_width);
        assert(top@ =~= repeat('\n', spacing(self.lines_filled as nat, self.term_height as nat)));
        assert(answer_pad@ =~= repeat(' ', self.left_spacing_answer as nat));
        CheckScreen { top, question, border, answer_pad, answer }
    }

    /// The centred line that asks for the next action.
    pub open spec fn next_action_line(&self) -> Seq<char> {
        repeat(' ', spacing(12, self.term_width as nat)) + "Next action "@
    }

    /// Lays out the prompt for the next action (`:q` and the like, or just enter).
    pub fn next_action_screen(&mut self) -> (screen: NextActionScreen)
        requires
            old(self).lines_filled + lines_needed(
                byte_len(old(self).next_action_line()) as nat,
                old(self).term_width as nat,
            ) + 2 <= usize::MAX,
        ensures
            screen.question@ == old(self).next_action_line(),
            screen.pad@ == repeat(' ', spacing(1, old(self).term_width as nat)),
            *final(self) == (Question {
                lines_filled: (old(self).lines_filled + lines_needed(
                    byte_len(old(self).next_action_line()) as nat,
                    old(self).term_width as nat,
                ) + 2) as usize,
                ..*old(self)
            }),
    {
        proof {
            reveal_strlit("");
            reveal_strlit("Next action ");
            lemma_ascii_byte_len("Next action "@);
        }
        let question = left_pad(
            "Next action ",
            calc_spacing("Next action ".len(), self.term_width),
            self.term_width,
        );
        let pad = left_pad("", calc_spacing(1, self.term_width), self.term_width);
        assert(pad@ =~= repeat(' ', spacing(1, self.term_width as nat)));
        self.lines_filled = self.lines_filled + line_count(question.as_str().len(), self.term_width)
            + 1;
        self.lines_filled = self.lines_filled + 1;
        NextActionScreen { question, pad }
    }

    /// Takes the line that the learner typed in answer to the screen of
    /// `ask_screen`: the answer is what was typed, trimmed.
    pub fn ask(&mut self, input: &str)
        requires
            old(self).lines_filled + lines_needed(
                byte_len(trimmed(old(self).user_answer@ + input@)) as nat,
                old(self).term_width as nat,
            ) <= usize::MAX,
        ensures
            ({
                let given = trimmed(old(self).user_answer@ + input@);
                let w = old(self).term_width as nat;
                &&& final(self).user_answer@ == given
                &&& *final(self) == Question {
                    user_answer: final(self).user_answer,
                    left_spacing_answer: spacing(byte_len(given) as nat, w) as usize,
                    lines_filled: (old(self).lines_filled + lines_needed(byte_len(given) as nat, w))
                        as usize,
                    ..*old(self)
                }
            }),
    {
        self.user_answer.append(input);
        let given = trim(self.user_answer.as_str()).to_owned();
        self.user_answer = given;
        let len = self.user_answer.as_str().len();
        self.left_spacing_answer = calc_spacing(len, self.term_width);
        self.lines_filled = self.lines_filled + line_count(len, self.term_width);
    }
}

} // verus!
