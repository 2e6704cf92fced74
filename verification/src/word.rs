use vstd::prelude::*;

verus! {

/// A vocabulary pair together with how often it was answered right and wrong.
///
/// The success rate is not stored: it is `success / (success + failed)`,
/// and 0 for a word that was never asked.
#[derive(Debug, Clone)]
pub struct Word {
    pub lang_a: String,
    pub lang_b: String,
    pub success: i64,
    pub failed: i64,
}

/// The word after one more answer: a right one counts as a success, a wrong one
/// as a failure.
pub open spec fn answered(w: Word, correct: bool) -> Word {
    if correct {
        Word { success: (w.success + 1) as i64, ..w }
    } else {
        Word { failed: (w.failed + 1) as i64, ..w }
    }
}

impl Word {
    /// Both counters are non-negative.
    pub open spec fn wf(&self) -> bool {
        self.success >= 0 && self.failed >= 0
    }

    /// Numerator of the success rate.
    pub open spec fn rate_num(&self) -> int {
        self.success as int
    }

    /// Denominator of the success rate (1 for a word that was never asked).
    pub open spec fn rate_den(&self) -> int {
        if self.success + self.failed == 0 {
            1
        } else {
            self.success + self.failed
        }
    }

    /// The success rate of `self` is at most that of `other`.
    pub open spec fn rate_le(&self, other: &Word) -> bool {
        self.rate_num() * other.rate_den() <= other.rate_num() * self.rate_den()
    }

    /// Whether the success rate of `self` is at most that of `other`.
    pub fn rate_at_most(&self, other: &Word) -> (r: bool)
        requires
            self.wf(),
            other.wf(),
        ensures
            r == self.rate_le(other),
    {
        let sn = self.success as i128;
        let on = other.success as i128;
        let sd: i128 = if self.success as i128 + self.failed as i128 == 0 {
            1
        } else {
            self.success as i128 + self.failed as i128
        };
        let od: i128 = if other.success as i128 + other.failed as i128 == 0 {
            1
        } else {
            other.success as i128 + other.failed as i128
        };
        assert(0 <= sn <= i64::MAX && 0 < od <= 2 * i64::MAX + 1);
        assert(0 <= sn * od <= i64::MAX * (2 * i64::MAX + 1)) by (nonlinear_arith)
            requires
                0 <= sn <= i64::MAX,
                0 < od <= 2 * i64::MAX + 1,
        ;
        assert(0 <= on * sd <= i64::MAX * (2 * i64::MAX + 1)) by (nonlinear_arith)
            requires
                0 <= on <= i64::MAX,
                0 < sd <= 2 * i64::MAX + 1,
        ;
        sn * od <= on * sd
    }

    /// Records one answer: a right one counts as a success, a wrong one as a failure.
    pub fn update_sucr(&mut self, correct: bool)
        requires
            correct ==> old(self).success < i64::MAX,
            !correct ==> old(self).failed < i64::MAX,
        ensures
            *final(self) == answered(*old(self), correct),
            final(self).lang_a == old(self).lang_a,
            final(self).lang_b == old(self).lang_b,
            final(self).success == old(self).success + if correct {
                1int
            } else {
                0int
            },
            final(self).failed == old(self).failed + if correct {
                0int
            } else {
                1int
            },
    {
        if correct {
            self.success = self.success + 1;
        } else {
            self.failed = self.failed + 1;
        }
    }
}

/// Each answer is counted exactly once: a right one adds one success, a wrong
/// one adds one failure, and nothing else of the word changes.
pub proof fn lemma_answer_counted_once(w: Word, correct: bool)
    requires
        correct ==> w.success < i64::MAX,
        !correct ==> w.failed < i64::MAX,
    ensures
        answered(w, correct).lang_a == w.lang_a,
        answered(w, correct).lang_b == w.lang_b,
        correct ==> answered(w, correct).success == w.success + 1 && answered(w, correct).failed
            == w.failed,
        !correct ==> answered(w, correct).failed == w.failed + 1 && answered(w, correct).success
            == w.success,
{
}

/// The success rate of a word lies between 0 and 1.
pub proof fn lemma_rate_in_unit_interval(w: Word)
    requires
        w.wf(),
    ensures
        0 <= w.rate_num() <= w.rate_den(),
        w.rate_den() > 0,
{
}

/// A word that was never answered right (a new word among them) is known
/// least: its success rate is at most that of any word.
pub proof fn lemma_never_right_is_least_known(w: Word, other: Word)
    requires
        w.wf(),
        other.wf(),
        w.success == 0,
    ensures
        w.rate_le(&other),
{
    assert(other.rate_num() * w.rate_den() >= 0) by (nonlinear_arith)
        requires
            other.rate_num() >= 0,
            w.rate_den() > 0,
    ;
    assert(w.rate_num() == 0);
    assert(w.rate_num() * other.rate_den() == 0);
}

/// Comparing success rates is a total preorder.
pub proof fn lemma_rate_le_total_preorder(a: Word, b: Word, c: Word)
    requires
        a.wf(),
        b.wf(),
        c.wf(),
    ensures
        a.rate_le(&a),
        a.rate_le(&b) || b.rate_le(&a),
        a.rate_le(&b) && b.rate_le(&c) ==> a.rate_le(&c),
{
    let (an, ad, bn, bd, cn, cd) = (
        a.rate_num(),
        a.rate_den(),
        b.rate_num(),
        b.rate_den(),
        c.rate_num(),
        c.rate_den(),
    );
    assert(an * bd <= bn * ad || bn * ad <= an * bd) by (nonlinear_arith);
    assert(an * bd <= bn * ad && bn * cd <= cn * bd ==> an * cd <= cn * ad) by (nonlinear_arith)
        requires
            ad > 0,
            bd > 0,
            cd > 0,
    ;
}

/// A right answer never lowers the success rate of a word, a wrong one never raises it.
pub proof fn lemma_update_moves_rate(old_word: Word, correct: bool)
    requires
        old_word.wf(),
        correct ==> old_word.success < i64::MAX,
        !correct ==> old_word.failed < i64::MAX,
    ensures
        ({
            let new_word = answered(old_word, correct);
            &&& new_word.wf()
            &&& correct ==> old_word.rate_le(&new_word)
            &&& !correct ==> new_word.rate_le(&old_word)
        }),
{
    let new_word = answered(old_word, correct);
    let s = old_word.success as int;
    let f = old_word.failed as int;
    if correct {
        assert(new_word.rate_num() == s + 1);
        assert(new_word.rate_den() == s + 1 + f);
        if s + f == 0 {
            assert(old_word.rate_num() == 0);
        } else {
            assert(old_word.rate_den() == s + f);
            assert(s * (s + 1 + f) <= (s + 1) * (s + f)) by (nonlinear_arith)
                requires
                    s >= 0,
                    f >= 0,
            ;
        }
    } else {
        if s + f == 0 {
        } else {
            assert(s * (s + f) <= s * (s + f + 1)) by (nonlinear_arith)
                requires
                    s >= 0,
                    f >= 0,
            ;
        }
    }
}

} // verus!
