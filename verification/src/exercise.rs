use std::collections::HashMap;
use vstd::prelude::*;
use vstd::std_specs::iter::IteratorSpec;

use crate::text::str_eq;
use crate::word::{answered, lemma_rate_le_total_preorder, lemma_update_moves_rate, Word};

verus! {

broadcast use vstd::std_specs::hash::group_hash_axioms;

/// Every word of the table has non-negative counters.
pub open spec fn table_wf(m: Map<usize, Word>) -> bool {
    forall|k: usize| #[trigger] m.contains_key(k) ==> m[k].wf()
}

/// `ids` lists every id of the table exactly once.
pub open spec fn lists_all_ids(m: Map<usize, Word>, ids: Seq<usize>) -> bool {
    &&& ids.no_duplicates()
    &&& ids.to_set() == m.dom()
}

/// Along `ids` the success rates never decrease: the least known words come first.
pub open spec fn least_known_first(m: Map<usize, Word>, ids: Seq<usize>) -> bool {
    forall|i: int, j: int|
        0 <= i < j < ids.len() ==> #[trigger] m[ids[i]].rate_le(&#[trigger] m[ids[j]])
}

/// The ids of a table, in the order in which the table hands them out.
fn table_ids(words: &HashMap<usize, Word>) -> (ids: Vec<usize>)
    ensures
        lists_all_ids(words@, ids@),
{
    let ghost all = vstd::std_specs::hash::spec_keys_iter(words).remaining().unref();
    let mut ids: Vec<usize> = Vec::new();
    for k in it: words.keys()
        invariant
            it.seq().unref() == all,
            ids@ == all.take(it.index()),
    {
        ids.push(*k);
    }
    assert(ids@ == all);
    ids
}

/// The ids of the table ordered so that the words with the lowest success
/// rate are asked first.
pub fn exercise_order(words: &HashMap<usize, Word>) -> (order: Vec<usize>)
    requires
        table_wf(words@),
    ensures
        lists_all_ids(words@, order@),
        least_known_first(words@, order@),
{
    let ids = table_ids(words);
    let ghost m = words@;
    let n = ids.len();
    let mut order: Vec<usize> = Vec::new();
    for k in 0..n
        invariant
            n == ids.len(),
            m == words@,
            lists_all_ids(m, ids@),
            table_wf(m),
            order@.no_duplicates(),
            order@.to_set() == ids@.take(k as int).to_set(),
            least_known_first(m, order@),
    {
        let id = ids[k];
        assert(ids@.to_set().contains(id));
        let w = words.get(&id).unwrap();
        proof {
            assert forall|x: usize| order@.contains(x) implies m.contains_key(x) by {
                assert(order@.to_set().contains(x));
                let t0 = ids@.take(k as int);
                assert(t0.to_set().contains(x));
                let j = choose|j: int| 0 <= j < t0.len() && t0[j] == x;
                assert(ids@[j] == x);
                assert(ids@.to_set().contains(x));
            }
        }
        let mut p: usize = 0;
        while p < order.len()
            invariant
                0 <= p <= order.len(),
                m == words@,
                table_wf(m),
                m.contains_key(id),
                *w == m[id],
                forall|x: usize| order@.contains(x) ==> m.contains_key(x),
                forall|i: int| 0 <= i < p ==> #[trigger] m[order@[i]].rate_le(&m[id]),
            ensures
                0 <= p <= order.len(),
                forall|i: int| 0 <= i < p ==> #[trigger] m[order@[i]].rate_le(&m[id]),
                p < order.len() ==> !m[order@[p as int]].rate_le(&m[id]),
            decreases order.len() - p,
        {
            assert(order@.contains(order@[p as int]));
            let other = words.get(&order[p]).unwrap();
            if !other.rate_at_most(w) {
                break;
            }
            p = p + 1;
        }
        let ghost s = order@;
        proof {
            assert(forall|x: usize| s.contains(x) ==> m.contains_key(x));
            assert(!s.contains(id)) by {
                if s.contains(id) {
                    assert(s.to_set().contains(id));
                    assert(ids@.take(k as int).to_set().contains(id));
                    let j = choose|j: int| 0 <= j < k && ids@.take(k as int)[j] == id;
                    assert(ids@[j] == ids@[k as int]);
                }
            }
        }
        order.insert(p, id);
        proof {
            let s2 = order@;
            assert(s2 == s.insert(p as int, id));
            assert forall|i: int, j: int| 0 <= i < j < s2.len() implies #[trigger] m[s2[i]].rate_le(
                &#[trigger] m[s2[j]],
            ) by {
                assert(s.contains(s[i]) || i >= p);
                if j < p {
                    assert(s2[i] == s[i] && s2[j] == s[j]);
                } else if i < p && j == p {
                    assert(s2[i] == s[i]);
                } else if i < p {
                    assert(s2[i] == s[i] && s2[j] == s[j - 1]);
                    assert(m[s[i]].rate_le(&m[s[j - 1]]));
                } else if i == p {
                    assert(s2[j] == s[j - 1]);
                    assert(s.contains(s[p as int]));
                    assert(s.contains(s[j - 1]));
                    lemma_rate_le_total_preorder(m[id], m[s[p as int]], m[s[j - 1]]);
                    if j - 1 > p {
                        assert(m[s[p as int]].rate_le(&m[s[j - 1]]));
                    }
                } else {
                    assert(s2[i] == s[i - 1] && s2[j] == s[j - 1]);
                    assert(m[s[i - 1]].rate_le(&m[s[j - 1]]));
                }
            }
            assert forall|a: int, b: int| 0 <= a < b < s2.len() implies s2[a] != s2[b] by {
                if b < p {
                } else if a < p && b == p {
                    assert(s.contains(s[a]));
                } else if a < p {
                } else if a == p {
                    assert(s.contains(s[b - 1]));
                } else {
                }
            }
            let t = ids@.take(k + 1);
            let t0 = ids@.take(k as int);
            assert(t == t0.push(id));
            assert forall|x: usize| s.contains(x) <==> t0.contains(x) by {
                assert(s.to_set().contains(x) == s.contains(x));
                assert(t0.to_set().contains(x) == t0.contains(x));
            }
            assert forall|x: usize| s2.contains(x) <==> t.contains(x) by {
                if s2.contains(x) {
                    let i = choose|i: int| 0 <= i < s2.len() && s2[i] == x;
                    if i == p {
                        assert(t[k as int] == x);
                    } else {
                        if i < p {
                            assert(s[i] == x);
                        } else {
                            assert(s[i - 1] == x);
                        }
                        assert(t0.contains(x));
                        let j = choose|j: int| 0 <= j < t0.len() && t0[j] == x;
                        assert(t[j] == x);
                    }
                }
                if t.contains(x) {
                    let i = choose|i: int| 0 <= i < t.len() && t[i] == x;
                    if i < k {
                        assert(t0[i] == x);
                        assert(s.contains(x));
                        let j = choose|j: int| 0 <= j < s.len() && s[j] == x;
                        if j < p {
                            assert(s2[j] == x);
                        } else {
                            assert(s2[j + 1] == x);
                        }
                    } else {
                        assert(s2[p as int] == x);
                    }
                }
            }
            assert(s2.to_set() =~= ids@.take(k + 1).to_set());
        }
    }
    assert(ids@.take(n as int) == ids@);
    order
}

/// How many of the least known words are shown at the end of a unit.
pub const WORST_COUNT: usize = 10;

/// The (at most) ten words with the lowest success rates, least known first.
pub fn worst_words(words: &HashMap<usize, Word>) -> (worst: Vec<usize>)
    requires
        table_wf(words@),
    ensures
        worst@.len() == if words@.dom().len() < WORST_COUNT {
            words@.dom().len()
        } else {
            WORST_COUNT as nat
        },
        worst@.no_duplicates(),
        forall|i: int| 0 <= i < worst@.len() ==> words@.contains_key(#[trigger] worst@[i]),
        least_known_first(words@, worst@),
        forall|i: int, k: usize|
            0 <= i < worst@.len() && words@.contains_key(k) && !worst@.contains(k) ==> #[trigger] words@[worst@[i]].rate_le(
                &#[trigger] words@[k],
            ),
{
    let order = exercise_order(words);
    proof {
        order@.unique_seq_to_set();
    }
    let count = if order.len() < WORST_COUNT {
        order.len()
    } else {
        WORST_COUNT
    };
    let mut worst: Vec<usize> = Vec::new();
    for i in 0..count
        invariant
            count <= order.len(),
            worst@ == order@.take(i as int),
    {
        worst.push(order[i]);
    }
    proof {
        let m = words@;
        assert(worst@ == order@.take(count as int));
        assert forall|i: int| 0 <= i < worst@.len() implies m.contains_key(#[trigger] worst@[i]) by {
            assert(order@.to_set().contains(order@[i]));
        }
        assert forall|i: int, k: usize|
            0 <= i < worst@.len() && m.contains_key(k) && !worst@.contains(k) implies #[trigger] m[worst@[i]].rate_le(
            &#[trigger] m[k],
        ) by {
            assert(order@.to_set().contains(k));
            let j = choose|j: int| 0 <= j < order@.len() && order@[j] == k;
            if j < count {
                assert(worst@[j] == k);
            }
            assert(m[order@[i]].rate_le(&m[order@[j]]));
        }
    }
    worst
}

/// What the learner asked for after answering a word.
#[derive(Clone, Copy, Debug, PartialEq, Eq, Structural)]
pub enum InputAction {
    /// Go on with the next word.
    GoOn,
    /// `:q`: end the unit and save the progress.
    Stop,
    /// `:q!` (or `:fq`): end the unit without saving.
    ForceQuit,
    /// `:qa`: save the progress and leave the program.
    QuitAll,
    /// `:qa!`: leave the program without saving.
    ForceQuitAll,
}

/// The action that a (trimmed) command line stands for.
pub open spec fn command_action(inp: Seq<char>) -> InputAction {
    if inp == ":q"@ {
        InputAction::Stop
    } else if inp == ":q!"@ || inp == ":fq"@ {
        InputAction::ForceQuit
    } else if inp == ":qa"@ {
        InputAction::QuitAll
    } else if inp == ":qa!"@ {
        InputAction::ForceQuitAll
    } else {
        InputAction::GoOn
    }
}

/// Each action comes from exactly these command lines, whatever else is
/// typed: `:q` stops the unit, `:q!` and `:fq` leave it without saving, `:qa`
/// and `:qa!` leave the program saving and not saving, and every other line
/// goes on with the next word.
pub proof fn lemma_command_lines(s: Seq<char>)
    ensures
        command_action(s) == InputAction::Stop <==> s == ":q"@,
        command_action(s) == InputAction::ForceQuit <==> (s == ":q!"@ || s == ":fq"@),
        command_action(s) == InputAction::QuitAll <==> s == ":qa"@,
        command_action(s) == InputAction::ForceQuitAll <==> s == ":qa!"@,
        command_action(s) == InputAction::GoOn <==> !(s == ":q"@ || s == ":q!"@ || s == ":fq"@
            || s == ":qa"@ || s == ":qa!"@),
{
    reveal_strlit(":q");
    reveal_strlit(":q!");
    reveal_strlit(":fq");
    reveal_strlit(":qa");
    reveal_strlit(":qa!");
    assert(":q"@ != ":q!"@ && ":q"@ != ":fq"@ && ":q"@ != ":qa"@ && ":q"@ != ":qa!"@) by {
        assert(":q"@.len() == 2 && ":q!"@.len() == 3 && ":qa"@.len() == 3);
        assert(":fq"@[1] != ":q"@[1]);
    }
    assert(":q!"@ != ":qa"@ && ":q!"@ != ":qa!"@ && ":fq"@ != ":qa"@ && ":fq"@ != ":qa!"@
        && ":qa"@ != ":qa!"@) by {
        assert(":q!"@[2] != ":qa"@[2]);
        assert(":fq"@[1] != ":qa"@[1]);
        assert(":qa!"@.len() == 4);
    }
}

/// Reads a (trimmed) command line: `:q`, `:q!`, `:fq`, `:qa` and `:qa!` are
/// commands, anything else goes on with the next word.
pub fn convert_commands(inp: &str) -> (action: InputAction)
    ensures
        action == command_action(inp@),
{
    if str_eq(inp, ":q") {
        InputAction::Stop
    } else if str_eq(inp, ":q!") || str_eq(inp, ":fq") {
        InputAction::ForceQuit
    } else if str_eq(inp, ":qa") {
        InputAction::QuitAll
    } else if str_eq(inp, ":qa!") {
        InputAction::ForceQuitAll
    } else {
        InputAction::GoOn
    }
}

/// What the program does after a word was answered.
#[derive(Clone, Copy, Debug, PartialEq, Eq, Structural)]
pub enum Outcome {
    /// Ask the next word.
    Next,
    /// The unit is over: show the final statistics and save the progress.
    EndUnit,
    /// Leave the unit without saving.
    AbandonUnit,
    /// Save the progress and leave the program.
    QuitSaving,
    /// Leave the program without saving.
    QuitWithoutSaving,
}

/// The outcome of an answer followed by `action`; `done` tells whether every
/// word of the unit has now been asked.
pub open spec fn outcome_of(action: InputAction, done: bool) -> Outcome {
    match action {
        InputAction::GoOn => if done {
            Outcome::EndUnit
        } else {
            Outcome::Next
        },
        InputAction::Stop => Outcome::EndUnit,
        InputAction::ForceQuit => Outcome::AbandonUnit,
        InputAction::QuitAll => Outcome::QuitSaving,
        InputAction::ForceQuitAll => Outcome::QuitWithoutSaving,
    }
}

/// Only going on depends on whether the unit is done: stopping always ends
/// the unit and saves it, a forced quit always leaves it without saving, and
/// the two ways of leaving the program save or do not save, at any position.
/// Going on asks the next word, or ends and saves the unit after its last one.
pub proof fn lemma_outcome_per_action(done: bool)
    ensures
        outcome_of(InputAction::Stop, done) == Outcome::EndUnit,
        outcome_of(InputAction::ForceQuit, done) == Outcome::AbandonUnit,
        outcome_of(InputAction::QuitAll, done) == Outcome::QuitSaving,
        outcome_of(InputAction::ForceQuitAll, done) == Outcome::QuitWithoutSaving,
        outcome_of(InputAction::GoOn, true) == Outcome::EndUnit,
        outcome_of(InputAction::GoOn, false) == Outcome::Next,
        outcome_of(InputAction::Stop, done) == outcome_of(InputAction::Stop, !done),
        outcome_of(InputAction::ForceQuit, done) == outcome_of(InputAction::ForceQuit, !done),
{
}

/// The table after the first `answers.len()` words of `ids` were answered,
/// the k-th of them right where `answers[k]` holds.
pub open spec fn progress(m: Map<usize, Word>, ids: Seq<usize>, answers: Seq<bool>) -> Map<
    usize,
    Word,
>
    decreases answers.len(),
{
    if answers.len() == 0 {
        m
    } else {
        let k = answers.len() - 1;
        let before = progress(m, ids, answers.drop_last());
        before.insert(ids[k], answered(before[ids[k]], answers.last()))
    }
}

/// The progress of a pass: each of the words asked so far has had its
/// counters advanced by exactly its one answer, and every other word is as it
/// was when the pass began.
pub proof fn lemma_progress_pointwise(m: Map<usize, Word>, ids: Seq<usize>, answers: Seq<bool>)
    requires
        ids.no_duplicates(),
        answers.len() <= ids.len(),
        forall|i: int| 0 <= i < ids.len() ==> m.contains_key(#[trigger] ids[i]),
    ensures
        progress(m, ids, answers).dom() == m.dom(),
        forall|k: int|
            0 <= k < answers.len() ==> #[trigger] progress(m, ids, answers)[ids[k]] == answered(
                m[ids[k]],
                answers[k],
            ),
        forall|id: usize|
            m.contains_key(id) && !ids.take(answers.len() as int).contains(id) ==> #[trigger] progress(
                m,
                ids,
                answers,
            )[id] == m[id],
    decreases answers.len(),
{
    if answers.len() > 0 {
        let k = answers.len() - 1;
        let prev = answers.drop_last();
        lemma_progress_pointwise(m, ids, prev);
        let before = progress(m, ids, prev);
        assert(!ids.take(k).contains(ids[k])) by {
            if ids.take(k).contains(ids[k]) {
                let j = choose|j: int| 0 <= j < k && ids.take(k)[j] == ids[k];
                assert(ids[j] == ids[k]);
            }
        }
        assert(before[ids[k]] == m[ids[k]]);
        assert(progress(m, ids, answers).dom() =~= m.dom());
        assert forall|id: usize|
            m.contains_key(id) && !ids.take(answers.len() as int).contains(id) implies #[trigger] progress(
            m,
            ids,
            answers,
        )[id] == m[id] by {
            assert(ids.take(answers.len() as int)[k] == ids[k]);
            assert(id != ids[k]);
            if ids.take(k).contains(id) {
                let j = choose|j: int| 0 <= j < k && ids.take(k)[j] == id;
                assert(ids.take(answers.len() as int)[j] == id);
            }
        }
        assert forall|i: int| 0 <= i < answers.len() implies #[trigger] progress(
            m,
            ids,
            answers,
        )[ids[i]] == answered(m[ids[i]], answers[i]) by {
            if i < k {
                assert(ids[i] != ids[k]);
                assert(prev[i] == answers[i]);
            }
        }
    }
}

/// How many of the answers were right.
pub open spec fn count_right(answers: Seq<bool>) -> nat
    decreases answers.len(),
{
    if answers.len() == 0 {
        0
    } else {
        count_right(answers.drop_last()) + if answers.last() {
            1nat
        } else {
            0nat
        }
    }
}

/// The state of one pass through a unit.
pub struct Session {
    /// The words of the unit, by id.
    pub words: HashMap<usize, Word>,
    /// The order in which the words are asked.
    pub order: Vec<usize>,
    /// How many words were answered so far.
    pub position: usize,
    /// How many of them were right.
    pub n_correct: usize,
    /// How many of them were wrong.
    pub n_wrong: usize,
    /// The words as they were when the pass began.
    pub initial: Ghost<Map<usize, Word>>,
    /// The answers given so far, in order: whether each was right.
    pub answers: Ghost<Seq<bool>>,
}

impl Session {
    /// A finished pass: every word of the unit was asked exactly once, and its
    /// counters were advanced by exactly that one answer; the unit holds the
    /// same words as when the pass began.
    pub proof fn lemma_completed_pass(&self)
        requires
            self.wf(),
            self.position == self.order@.len(),
        ensures
            self.words@.dom() == self.initial@.dom(),
            forall|id: usize| #[trigger]
                self.initial@.contains_key(id) ==> exists|k: int|
                    0 <= k < self.order@.len() && self.order@[k] == id && self.words@[id]
                        == answered(self.initial@[id], self.answers@[k]),
    {
        let m = self.initial@;
        let ids = self.order@;
        assert forall|i: int| 0 <= i < ids.len() implies m.contains_key(#[trigger] ids[i]) by {
            assert(ids.to_set().contains(ids[i]));
        }
        lemma_progress_pointwise(m, ids, self.answers@);
        assert forall|id: usize| #[trigger] m.contains_key(id) implies exists|k: int|
            0 <= k < ids.len() && ids[k] == id && self.words@[id] == answered(
                m[id],
                self.answers@[k],
            ) by {
            assert(ids.to_set().contains(id));
            let k = choose|k: int| 0 <= k < ids.len() && ids[k] == id;
            assert(progress(m, ids, self.answers@)[ids[k]] == answered(m[ids[k]], self.answers@[k]));
        }
    }

    /// The session's invariant.
    pub open spec fn wf(&self) -> bool {
        &&& table_wf(self.words@)
        &&& lists_all_ids(self.words@, self.order@)
        &&& self.initial@.dom() == self.words@.dom()
        &&& least_known_first(self.initial@, self.order@)
        &&& self.position <= self.order@.len()
        &&& self.n_correct + self.n_wrong == self.position
        &&& self.answers@.len() == self.position
        &&& self.n_correct == count_right(self.answers@)
        &&& self.words@ == progress(self.initial@, self.order@, self.answers@)
    }

    /// Starts a pass through the unit: every word is asked once, least known first.
    pub fn new(words: HashMap<usize, Word>) -> (s: Session)
        requires
            table_wf(words@),
        ensures
            s.wf(),
            s.words@ == words@,
            s.initial@ == words@,
            least_known_first(words@, s.order@),
            s.position == 0,
            s.n_correct == 0,
            s.n_wrong == 0,
    {
        let order = exercise_order(&words);
        Session {
            initial: Ghost(words@),
            answers: Ghost(Seq::empty()),
            words,
            order,
            position: 0,
            n_correct: 0,
            n_wrong: 0,
        }
    }

    /// The id of the word to ask next, if any is left.
    pub fn current(&self) -> (id: Option<usize>)
        requires
            self.wf(),
        ensures
            self.position < self.order@.len() ==> id == Some(self.order@[self.position as int]),
            self.position == self.order@.len() ==> id is None,
            id matches Some(i) ==> self.words@.contains_key(i),
    {
        if self.position < self.order.len() {
            let i = self.order[self.position];
            proof {
                assert(self.order@.to_set().contains(i));
            }
            Some(i)
        } else {
            None
        }
    }

    /// Records the answer to the current word and what the learner asked for next.
    pub fn record(&mut self, correct: bool, action: InputAction) -> (out: Outcome)
        requires
            old(self).wf(),
            old(self).position < old(self).order@.len(),
            correct ==> old(self).words@[old(self).order@[old(self).position as int]].success
                < i64::MAX,
            !correct ==> old(self).words@[old(self).order@[old(self).position as int]].failed
                < i64::MAX,
        ensures
            final(self).wf(),
            final(self).order@ == old(self).order@,
            final(self).initial@ == old(self).initial@,
            final(self).answers@ == old(self).answers@.push(correct),
            final(self).position == old(self).position + 1,
            final(self).n_correct == old(self).n_correct + if correct {
                1int
            } else {
                0int
            },
            final(self).n_wrong == old(self).n_wrong + if correct {
                0int
            } else {
                1int
            },
            ({
                let id = old(self).order@[old(self).position as int];
                final(self).words@ == old(self).words@.insert(
                    id,
                    answered(old(self).words@[id], correct),
                )
            }),
            out == outcome_of(action, final(self).position == final(self).order@.len()),
            action == InputAction::GoOn ==> out == if final(self).position
                == final(self).order@.len() {
                Outcome::EndUnit
            } else {
                Outcome::Next
            },
            action == InputAction::Stop ==> out == Outcome::EndUnit,
            action == InputAction::ForceQuit ==> out == Outcome::AbandonUnit,
            action == InputAction::QuitAll ==> out == Outcome::QuitSaving,
            action == InputAction::ForceQuitAll ==> out == Outcome::QuitWithoutSaving,
    {
        let id = self.order[self.position];
        let n = self.order.len();
        let ghost m = self.words@;
        proof {
            assert(self.order@.to_set().contains(id));
            lemma_update_moves_rate(m[id], correct);
        }
        let mut w = self.words.remove(&id).unwrap();
        w.update_sucr(correct);
        self.words.insert(id, w);
        proof {
            assert(m.remove(id).insert(id, answered(m[id], correct)) =~= m.insert(
                id,
                answered(m[id], correct),
            ));
            assert(self.words@.dom() =~= m.dom());
        }
        self.position = self.position + 1;
        proof {
            let a = self.answers@.push(correct);
            assert(a.drop_last() =~= self.answers@);
            self.answers = Ghost(a);
        }
        if correct {
            self.n_correct = self.n_correct + 1;
        } else {
            self.n_wrong = self.n_wrong + 1;
        }
        let done = self.position == n;
        match action {
            InputAction::GoOn => if done {
                Outcome::EndUnit
            } else {
                Outcome::Next
            },
            InputAction::Stop => Outcome::EndUnit,
            InputAction::ForceQuit => Outcome::AbandonUnit,
            InputAction::QuitAll => Outcome::QuitSaving,
            InputAction::ForceQuitAll => Outcome::QuitWithoutSaving,
        }
    }
}

} // verus!
