//! The quiz-session engine: a bank of questions for one topic, randomized
//! non-repeating selection of unasked questions, answer scoring, and the
//! division-guarded percentage score.

use vstd::prelude::*;
use vstd::string::*;
use vstd::arithmetic::mul::lemma_mul_inequality;
use vstd::arithmetic::div_mod::{lemma_div_is_ordered, lemma_div_multiples_vanish};
use crate::choice::Choice;
use crate::rng::random_index;
use crate::num::spec_render_u64;

verus! {

/// One multiple-choice question. `asked` is the only mutable field: it
/// moves from `false` to `true` when the question is presented, and the
/// engine never selects a question whose flag is already set.
#[derive(Debug)]
pub struct Quiz {
    pub id: u64,
    pub name: String,
    pub description: String,
    pub answer: Choice,
    pub choices: Vec<String>,
    pub asked: bool,
}

/// The mathematical value of a `Quiz`.
#[verifier::ext_equal]
pub struct QuizV {
    pub id: u64,
    pub name: Seq<char>,
    pub description: Seq<char>,
    pub answer: Choice,
    pub choices: Seq<Seq<char>>,
    pub asked: bool,
}

impl View for Quiz {
    type V = QuizV;

    open spec fn view(&self) -> QuizV {
        QuizV {
            id: self.id,
            name: self.name@,
            description: self.description@,
            answer: self.answer,
            choices: self.choices.deep_view(),
            asked: self.asked,
        }
    }
}

/// The same question with its asked flag set.
pub open spec fn with_asked(q: QuizV) -> QuizV {
    QuizV { asked: true, ..q }
}

/// How many questions of the bank are still unasked.
pub open spec fn count_unasked(s: Seq<QuizV>) -> int
    decreases s.len(),
{
    if s.len() == 0 {
        0
    } else {
        count_unasked(s.drop_last()) + if !s.last().asked {
            1int
        } else {
            0
        }
    }
}

pub proof fn lemma_count_unasked_bounds(s: Seq<QuizV>)
    ensures
        0 <= count_unasked(s) <= s.len(),
    decreases s.len(),
{
    if s.len() > 0 {
        lemma_count_unasked_bounds(s.drop_last());
    }
}

/// No question is unasked exactly when every asked flag is set.
pub proof fn lemma_count_unasked_zero(s: Seq<QuizV>)
    ensures
        (count_unasked(s) == 0) <==> (forall|i: int| 0 <= i < s.len() ==> (#[trigger] s[i]).asked),
    decreases s.len(),
{
    if s.len() > 0 {
        lemma_count_unasked_zero(s.drop_last());
        lemma_count_unasked_bounds(s.drop_last());
        assert(forall|i: int| 0 <= i < s.len() - 1 ==> s.drop_last()[i] == s[i]);
        if count_unasked(s) == 0 {
            assert(forall|i: int|
                0 <= i < s.len() ==> (#[trigger] s[i]).asked) by {
                assert(forall|i: int|
                    0 <= i < s.len() - 1 ==> (#[trigger] s[i]) == s.drop_last()[i]);
            }
        }
    }
}

/// Marking one unasked question asked lowers the unasked count by one.
pub proof fn lemma_count_unasked_update(s: Seq<QuizV>, i: int)
    requires
        0 <= i < s.len(),
        !s[i].asked,
    ensures
        count_unasked(s.update(i, with_asked(s[i]))) == count_unasked(s) - 1,
    decreases s.len(),
{
    let t = s.update(i, with_asked(s[i]));
    if i == s.len() - 1 {
        assert(t.drop_last() =~= s.drop_last());
        assert(t.last() == with_asked(s[i]));
    } else {
        assert(t.drop_last() =~= s.drop_last().update(i, with_asked(s.drop_last()[i])));
        lemma_count_unasked_update(s.drop_last(), i);
        assert(t.last() == s.last());
    }
}

/// Taking one more question changes the count by its flag.
proof fn lemma_count_unasked_take(s: Seq<QuizV>, j: int)
    requires
        0 <= j < s.len(),
    ensures
        count_unasked(s.take(j + 1)) == count_unasked(s.take(j)) + if !s[j].asked {
            1int
        } else {
            0
        },
{
    assert(s.take(j + 1).drop_last() =~= s.take(j));
    assert(s.take(j + 1).last() == s[j]);
}

/// The position of the question with this id, if any.
pub open spec fn spec_index_of_id(s: Seq<QuizV>, id: u64) -> Option<int>
    decreases s.len(),
{
    if s.len() == 0 {
        None
    } else if s[0].id == id {
        Some(0int)
    } else {
        match spec_index_of_id(s.skip(1), id) {
            Some(k) => Some(k + 1),
            None => None,
        }
    }
}

proof fn lemma_index_of_id_found(s: Seq<QuizV>, id: u64, i: int)
    requires
        0 <= i < s.len(),
        s[i].id == id,
        forall|k: int| 0 <= k < i ==> (#[trigger] s[k]).id != id,
    ensures
        spec_index_of_id(s, id) == Some(i),
    decreases i,
{
    if i > 0 {
        assert(forall|k: int|
            0 <= k < i - 1 ==> (#[trigger] s.skip(1)[k]).id != id) by {
            assert(forall|k: int| 0 <= k < i - 1 ==> s.skip(1)[k] == s[k + 1]);
        }
        lemma_index_of_id_found(s.skip(1), id, i - 1);
    }
}

proof fn lemma_index_of_id_none(s: Seq<QuizV>, id: u64)
    requires
        forall|k: int| 0 <= k < s.len() ==> (#[trigger] s[k]).id != id,
    ensures
        spec_index_of_id(s, id) is None,
    decreases s.len(),
{
    if s.len() > 0 {
        assert(forall|k: int|
            0 <= k < s.len() - 1 ==> (#[trigger] s.skip(1)[k]).id != id) by {
            assert(forall|k: int| 0 <= k < s.len() - 1 ==> s.skip(1)[k] == s[k + 1]);
        }
        lemma_index_of_id_none(s.skip(1), id);
    }
}

/// Inserting a question: replaces the one with the same id, else appends,
/// as a map keyed by id would.
pub open spec fn spec_upsert(list: Seq<QuizV>, q: QuizV) -> Seq<QuizV> {
    match spec_index_of_id(list, q.id) {
        Some(k) => list.update(k, q),
        None => list.push(q),
    }
}

/// The letter written before the choice at this position.
pub open spec fn spec_letter(k: int) -> Seq<char> {
    if 0 <= k < 26 {
        "ABCDEFGHIJKLMNOPQRSTUVWXYZ"@.subrange(k, k + 1)
    } else {
        Seq::<char>::empty()
    }
}

/// The lettered choice lines from position `k` on, one per line.
pub open spec fn spec_choice_lines(choices: Seq<Seq<char>>, k: int) -> Seq<char>
    decreases choices.len() - k,
{
    if k < 0 || k >= choices.len() {
        Seq::<char>::empty()
    } else {
        spec_letter(k) + seq!['.', ' '] + choices[k] + seq!['\n'] + spec_choice_lines(
            choices,
            k + 1,
        )
    }
}

/// The rendered prompt of one question: its category name, the 1-based
/// ordinal and the question text, then the lettered choices in order.
pub open spec fn spec_render_question(q: QuizV, ordinal: u64) -> Seq<char> {
    q.name + seq!['\n'] + spec_render_u64(ordinal as int) + seq!['.', ' '] + q.description + seq![
        '\n'
    ] + spec_choice_lines(q.choices, 0)
}

/// The mathematical value of a `Quizzes` bank.
#[verifier::ext_equal]
pub struct QuizzesV {
    pub list: Seq<QuizV>,
    pub correct: u64,
    pub questions_asked: u64,
}

/// One topic's question bank together with the session counters.
#[derive(Debug)]
pub struct Quizzes {
    list: Vec<Quiz>,
    /// Questions answered correctly this session.
    pub correct: u64,
    /// Questions presented this session.
    pub questions_asked: u64,
}

impl View for Quizzes {
    type V = QuizzesV;

    closed spec fn view(&self) -> QuizzesV {
        QuizzesV {
            list: Seq::new(self.list@.len(), |i: int| self.list@[i]@),
            correct: self.correct,
            questions_asked: self.questions_asked,
        }
    }
}

impl Quizzes {
    /// Question ids are unique and no more answers were correct than
    /// questions were asked.
    pub open spec fn wf(self) -> bool {
        &&& forall|i: int, j: int|
            0 <= i < j < self@.list.len() ==> (#[trigger] self@.list[i]).id != (
            #[trigger] self@.list[j]).id
        &&& self@.correct <= self@.questions_asked
    }

    pub fn new() -> (r: Self)
        ensures
            r@.list == Seq::<QuizV>::empty(),
            r@.correct == 0,
            r@.questions_asked == 0,
            r.wf(),
    {
        let r = Quizzes { list: Vec::new(), correct: 0, questions_asked: 0 };
        proof {
            assert(r@.list =~= Seq::<QuizV>::empty());
        }
        r
    }

    pub fn len(&self) -> (r: usize)
        ensures
            r == self@.list.len(),
    {
        self.list.len()
    }

    /// Adds a question, unasked; a question with the same id is replaced,
    /// as the bank is keyed by id.
    pub fn add(&mut self, id: u64, name: &str, description: &str, answer: Choice, choices: Vec<
        String,
    >)
        requires
            old(self).wf(),
        ensures
            final(self).wf(),
            final(self)@.correct == old(self)@.correct,
            final(self)@.questions_asked == old(self)@.questions_asked,
            final(self)@.list == spec_upsert(
                old(self)@.list,
                QuizV {
                    id,
                    name: name@,
                    description: description@,
                    answer,
                    choices: choices.deep_view(),
                    asked: false,
                },
            ),
    {
        let ghost q = QuizV {
            id,
            name: name@,
            description: description@,
            answer,
            choices: choices.deep_view(),
            asked: false,
        };
        let quiz = Quiz {
            id,
            name: String::from_str(name),
            description: String::from_str(description),
            answer,
            choices,
            asked: false,
        };
        proof {
            assert(quiz@ =~~= q);
        }
        match self.index_of_id(id) {
            Some(i) => {
                let _ = self.list.remove(i);
                self.list.insert(i, quiz);
                proof {
                    assert(self@.list =~~= old(self)@.list.update(i as int, q));
                    assert(forall|m: int|
                        0 <= m < self@.list.len() ==> (#[trigger] self@.list[m]).id == old(
                        self,
                        )@.list[m].id);
                }
            },
            None => {
                self.list.push(quiz);
                proof {
                    assert(self@.list =~~= old(self)@.list.push(q));
                    assert(forall|m: int|
                        0 <= m < old(self)@.list.len() ==> (#[trigger] self@.list[m]).id == old(
                        self,
                        )@.list[m].id);
                    assert(self@.list[old(self)@.list.len() as int].id == id);
                }
            },
        }
    }

    /// The position of the question with this id, if any.
    fn index_of_id(&self, id: u64) -> (r: Option<usize>)
        ensures
            r matches Some(i) ==> i < self@.list.len() && self@.list[i as int].id == id,
            r is None ==> forall|k: int|
                0 <= k < self@.list.len() ==> (#[trigger] self@.list[k]).id != id,
            spec_index_of_id(self@.list, id) == match r {
                Some(i) => Some(i as int),
                None => None,
            },
    {
        let mut i: usize = 0;
        while i < self.list.len()
            invariant
                i <= self@.list.len(),
                self@.list.len() == self.list@.len(),
                forall|k: int| 0 <= k < i ==> (#[trigger] self@.list[k]).id != id,
            decreases self@.list.len() - i,
        {
            if self.list[i].id == id {
                proof {
                    lemma_index_of_id_found(self@.list, id, i as int);
                }
                return Some(i);
            }
            i = i + 1;
        }
        proof {
            lemma_index_of_id_none(self@.list, id);
        }
        None
    }

    /// Gathers the unasked questions and picks one uniformly at random;
    /// `None` exactly when every question has been asked — the session
    /// is then exhausted.
    pub fn select_unasked(&self) -> (r: Option<usize>)
        ensures
            r matches Some(i) ==> i < self@.list.len() && !self@.list[i as int].asked,
            r is None <==> count_unasked(self@.list) == 0,
            r is None <==> (forall|k: int|
                0 <= k < self@.list.len() ==> (#[trigger] self@.list[k]).asked),
    {
        proof {
            lemma_count_unasked_zero(self@.list);
        }
        let mut idxs: Vec<usize> = Vec::new();
        let mut j: usize = 0;
        proof {
            assert(self@.list.take(0) =~= Seq::<QuizV>::empty());
        }
        while j < self.list.len()
            invariant
                j <= self@.list.len(),
                self@.list.len() == self.list@.len(),
                forall|k: int|
                    0 <= k < idxs@.len() ==> (#[trigger] idxs@[k]) < j && !self@.list[idxs@[k] as int].asked,
                idxs@.len() == count_unasked(self@.list.take(j as int)),
            decreases self@.list.len() - j,
        {
            proof {
                lemma_count_unasked_take(self@.list, j as int);
            }
            if !self.list[j].asked {
                idxs.push(j);
            }
            j = j + 1;
        }
        proof {
            assert(self@.list.take(self@.list.len() as int) =~= self@.list);
        }
        if idxs.len() == 0 {
            None
        } else {
            let r = random_index(idxs.len());
            Some(idxs[r])
        }
    }

    /// Scores one presented question: the correct-count grows exactly when
    /// the answer matches, and the question is marked asked either way.
    pub fn record_answer(&mut self, i: usize, answered: Choice)
        requires
            old(self).wf(),
            i < old(self)@.list.len(),
            !old(self)@.list[i as int].asked,
            old(self)@.questions_asked < u64::MAX,
        ensures
            final(self).wf(),
            final(self)@.list == old(self)@.list.update(
                i as int,
                with_asked(old(self)@.list[i as int]),
            ),
            final(self)@.questions_asked == old(self)@.questions_asked + 1,
            final(self)@.correct == old(self)@.correct + (
            if answered == old(self)@.list[i as int].answer {
                1int
            } else {
                0
            }),
            count_unasked(final(self)@.list) == count_unasked(old(self)@.list) - 1,
    {
        let mut q = self.list.remove(i);
        if answered == q.answer {
            self.correct = self.correct + 1;
        }
        q.asked = true;
        self.list.insert(i, q);
        self.questions_asked = self.questions_asked + 1;
        proof {
            assert(self@.list =~~= old(self)@.list.update(
                i as int,
                with_asked(old(self)@.list[i as int]),
            ));
            lemma_count_unasked_update(old(self)@.list, i as int);
        }
    }

    /// Runs one session against a scripted answer source: up to `budget`
    /// rounds, stopping early when the bank is exhausted. Presents exactly
    /// `min(budget, unasked)` distinct questions, never re-presenting one.
    pub fn ask(&mut self, budget: usize, answers: &Vec<Choice>)
        requires
            old(self).wf(),
            answers@.len() >= budget,
            old(self)@.questions_asked + budget <= u64::MAX,
        ensures
            final(self).wf(),
            final(self)@.list.len() == old(self)@.list.len(),
            forall|k: int|
                0 <= k < old(self)@.list.len() ==> ((#[trigger] final(self)@.list[k])
                    == old(self)@.list[k] || final(self)@.list[k] == with_asked(
                    old(self)@.list[k],
                )),
            forall|k: int|
                0 <= k < old(self)@.list.len() ==> ((#[trigger] old(self)@.list[k]).asked
                    ==> final(self)@.list[k].asked),
            final(self)@.questions_asked - old(self)@.questions_asked == vstd::math::min(
                budget as int,
                count_unasked(old(self)@.list),
            ),
            count_unasked(final(self)@.list) == count_unasked(old(self)@.list) - vstd::math::min(
                budget as int,
                count_unasked(old(self)@.list),
            ),
            final(self)@.correct - old(self)@.correct <= final(self)@.questions_asked - old(
                self,
            )@.questions_asked,
    {
        let mut r: usize = 0;
        let mut done = false;
        while r < budget && !done
            invariant
                self.wf(),
                r <= budget,
                answers@.len() >= budget,
                old(self)@.questions_asked + budget <= u64::MAX,
                self@.list.len() == old(self)@.list.len(),
                forall|k: int|
                    0 <= k < old(self)@.list.len() ==> ((#[trigger] self@.list[k])
                        == old(self)@.list[k] || self@.list[k] == with_asked(old(self)@.list[k])),
                self@.questions_asked == old(self)@.questions_asked + r,
                count_unasked(self@.list) == count_unasked(old(self)@.list) - r,
                self@.correct - old(self)@.correct <= r,
                done ==> count_unasked(self@.list) == 0,
            decreases budget - r + (if done {
                0int
            } else {
                1
            }),
        {
            match self.select_unasked() {
                Some(i) => {
                    let ghost prev = self@.list;
                    self.record_answer(i, answers[r]);
                    proof {
                        assert(forall|k: int|
                            0 <= k < old(self)@.list.len() ==> ((#[trigger] self@.list[k])
                                == old(self)@.list[k] || self@.list[k] == with_asked(
                                old(self)@.list[k],
                            ))) by {
                            assert(forall|k: int|
                                0 <= k < prev.len() && k != i ==> (#[trigger] self@.list[k])
                                    == prev[k]);
                            assert(self@.list[i as int] == with_asked(prev[i as int]));
                            assert(forall|q: QuizV| with_asked(with_asked(q)) =~~= with_asked(q));
                        }
                    }
                    r = r + 1;
                },
                None => {
                    done = true;
                },
            }
        }
        proof {
            lemma_count_unasked_bounds(self@.list);
            let c0 = count_unasked(old(self)@.list);
            if done {
                assert(c0 == r);
                assert(vstd::math::min(budget as int, c0) == c0);
            } else {
                assert(r == budget);
                assert(count_unasked(self@.list) == c0 - budget);
                assert(c0 >= budget);
                assert(vstd::math::min(budget as int, c0) == budget);
            }
            assert(forall|k: int|
                0 <= k < old(self)@.list.len() ==> ((#[trigger] old(self)@.list[k]).asked
                    ==> self@.list[k].asked));
        }
    }

    /// Whether the question at this position has been presented already.
    pub fn is_asked(&self, i: usize) -> (r: bool)
        requires
            i < self@.list.len(),
        ensures
            r == self@.list[i as int].asked,
    {
        self.list[i].asked
    }

    /// Renders one question as its prompt text: the category name, then
    /// the 1-based ordinal and the question text, then each choice on its
    /// own lettered line. Positions past the alphabet get no letter.
    pub fn render_question(&self, i: usize, ordinal: u64) -> (r: String)
        requires
            i < self@.list.len(),
        ensures
            r@ == spec_render_question(self@.list[i as int], ordinal),
    {
        let ghost qv = self@.list[i as int];
        let q = &self.list[i];
        let mut r = String::from_str(q.name.as_str());
        r.append("\n");
        let ord = crate::num::render_u64(ordinal);
        r.append(ord.as_str());
        r.append(". ");
        r.append(q.description.as_str());
        r.append("\n");
        let alpha = "ABCDEFGHIJKLMNOPQRSTUVWXYZ";
        proof {
            reveal_strlit("\n");
            reveal_strlit(". ");
            reveal_strlit("ABCDEFGHIJKLMNOPQRSTUVWXYZ");
            assert(alpha.is_ascii());
            assert(alpha@.len() == 26);
            assert(spec_render_question(qv, ordinal) =~= r@ + spec_choice_lines(qv.choices, 0));
        }
        let mut k: usize = 0;
        while k < q.choices.len()
            invariant
                k <= q.choices@.len(),
                q@ == qv,
                qv.choices.len() == q.choices@.len(),
                alpha.is_ascii(),
                alpha@.len() == 26,
                alpha@ == "ABCDEFGHIJKLMNOPQRSTUVWXYZ"@,
                spec_render_question(qv, ordinal) == r@ + spec_choice_lines(
                    qv.choices,
                    k as int,
                ),
            decreases q.choices@.len() - k,
        {
            if k < 26 {
                let letter = alpha.substring_ascii(k, k + 1);
                r.append(letter);
            }
            r.append(". ");
            r.append(q.choices[k].as_str());
            r.append("\n");
            proof {
                reveal_strlit(". ");
                reveal_strlit("\n");
                assert(spec_render_question(qv, ordinal) =~= r@ + spec_choice_lines(
                    qv.choices,
                    k as int + 1,
                ));
            }
            k = k + 1;
        }
        proof {
            assert(spec_choice_lines(qv.choices, qv.choices.len() as int)
                == Seq::<char>::empty());
            assert(r@ =~= spec_render_question(qv, ordinal));
        }
        r
    }

    /// The percentage score in hundredths of a percent. When no question
    /// was asked the score is the documented sentinel zero: the division
    /// is guarded and never executes.
    pub fn score_centi(&self) -> (r: u64)
        requires
            self.wf(),
        ensures
            self@.questions_asked == 0 ==> r == 0,
            self@.questions_asked > 0 ==> r as int == (self@.correct as int * 10000) / (
            self@.questions_asked as int),
            r <= 10000,
    {
        if self.questions_asked == 0 {
            return 0;
        }
        let v = (self.correct as u128) * 10000 / (self.questions_asked as u128);
        proof {
            let c = self@.correct as int;
            let q = self@.questions_asked as int;
            lemma_mul_inequality(c, q, 10000);
            lemma_div_is_ordered(c * 10000, q * 10000, q);
            lemma_div_multiples_vanish(10000, q);
            assert((c * 10000) / q <= 10000);
            assert((c as u128 * 10000) as int == c * 10000);
        }
        v as u64
    }
}

} // verus!
