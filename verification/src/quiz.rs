//! The exam itself: dataset validation, answer keys, grading, exam assembly
//! and the review of answered questions.

use std::collections::HashSet;

use vstd::prelude::*;

use rand::rngs::ThreadRng;

use crate::chance::{random_u32, shuffle, thread_rng};
use crate::clock::now;
use crate::models::{
    AiAnswerContext, AiRequestContext, Answer, AnswerOptionPayload, ExamQuestionPayload, ExamRecord, MemorySummary,
    Question, ReviewItem, StartExamResponse, SubmittedAnswer, Timestamp,
};
use crate::order::{is_stable_newest_first, lemma_stable_keeps_items, sort_newest_first, stamp_lt};
use crate::text::{
    decimal_text, hex_text, int_text, owned, push_decimal, push_hex, push_int, push_str, trim_text, trimmed,
    upper_text, uppercased,
};

verus! {

broadcast use vstd::std_specs::hash::group_hash_axioms;

/// Questions in one exam.
pub const EXAM_QUESTION_COUNT: usize = 33;

/// Correct answers needed to pass.
pub const PASSING_SCORE: usize = 17;

/// General questions in one exam.
pub const GENERAL_QUESTION_COUNT: usize = 30;

/// Berlin-specific questions in one exam.
pub const BERLIN_QUESTION_COUNT: usize = 3;

/// The highest id of a general question.
pub const GENERAL_QUESTION_MAX_ID: u32 = 300;

/// The first id of a Berlin-specific question.
pub const BERLIN_QUESTION_START_ID: u32 = 301;

/// The last id of a Berlin-specific question.
pub const BERLIN_QUESTION_END_ID: u32 = 310;

/// Frequently missed general questions that may be placed in one exam.
pub const PRIORITY_GENERAL_LIMIT: usize = 12;

/// Frequently missed Berlin-specific questions that may be placed in one exam.
pub const PRIORITY_BERLIN_LIMIT: usize = BERLIN_QUESTION_COUNT;

/// Answers each question has.
pub const ANSWERS_PER_QUESTION: usize = 4;

/// Whether a question id belongs to the general part of the test.
pub open spec fn general_id(question_id: u32) -> bool {
    question_id <= GENERAL_QUESTION_MAX_ID
}

/// Whether a question id belongs to the Berlin-specific part of the test.
pub open spec fn berlin_id(question_id: u32) -> bool {
    BERLIN_QUESTION_START_ID <= question_id <= BERLIN_QUESTION_END_ID
}

pub fn is_general_question(question_id: u32) -> (r: bool)
    ensures
        r == general_id(question_id),
{
    question_id <= GENERAL_QUESTION_MAX_ID
}

pub fn is_berlin_question(question_id: u32) -> (r: bool)
    ensures
        r == berlin_id(question_id),
{
    BERLIN_QUESTION_START_ID <= question_id && question_id <= BERLIN_QUESTION_END_ID
}

// ---------------------------------------------------------------------------
// Answer keys
// ---------------------------------------------------------------------------

/// The key of the answer at `index`: A, B, C, D, and "?" beyond.
pub open spec fn key_text(index: int) -> Seq<char> {
    if index == 0 {
        seq!['A']
    } else if index == 1 {
        seq!['B']
    } else if index == 2 {
        seq!['C']
    } else if index == 3 {
        seq!['D']
    } else {
        seq!['?']
    }
}

/// The answer index a normalized key names.
pub open spec fn key_index(key: Seq<char>) -> Option<usize> {
    if key == seq!['A'] {
        Some(0usize)
    } else if key == seq!['B'] {
        Some(1usize)
    } else if key == seq!['C'] {
        Some(2usize)
    } else if key == seq!['D'] {
        Some(3usize)
    } else {
        None
    }
}

/// The answer index a key as typed names: it is trimmed and upper-cased
/// first.
pub open spec fn typed_key_index(key: Seq<char>) -> Option<usize> {
    key_index(upper_text(trim_text(key)))
}

pub fn answer_key(index: usize) -> (r: String)
    ensures
        r@ == key_text(index as int),
{
    let mut r = String::new();
    let c = if index == 0 {
        'A'
    } else if index == 1 {
        'B'
    } else if index == 2 {
        'C'
    } else if index == 3 {
        'D'
    } else {
        '?'
    };
    crate::text::push_char(&mut r, c);
    assert(r@ =~= key_text(index as int));
    r
}

/// The answer index named by an already trimmed and upper-cased key.
pub fn key_position(key: &str) -> (r: Option<usize>)
    ensures
        r == key_index(key@),
{
    let cs = crate::text::chars_of(key);
    if cs.len() != 1 {
        return None;
    }
    assert(cs@ =~= seq![cs@[0]]);
    if cs[0] == 'A' {
        Some(0)
    } else if cs[0] == 'B' {
        Some(1)
    } else if cs[0] == 'C' {
        Some(2)
    } else if cs[0] == 'D' {
        Some(3)
    } else {
        None
    }
}

/// The answer index named by a key as typed (surrounding white space and
/// letter case do not matter).
pub fn answer_index(key: &str) -> (r: Option<usize>)
    ensures
        r == typed_key_index(key@),
        forall|i: int| 0 <= i < ANSWERS_PER_QUESTION && key@ == #[trigger] key_text(i) ==> r == Some(i as usize),
{
    let t = trimmed(key);
    let normalized = uppercased(t);
    proof {
        assert forall|i: int| 0 <= i < ANSWERS_PER_QUESTION && key@ == #[trigger] key_text(i) implies key_index(
            normalized@,
        ) == Some(i as usize) by {
            assert(key@.len() == 1);
            assert(t@ == key@);
            assert(normalized@ == key@);
            crate::laws::law_answer_keys_read_back(i);
        }
    }
    key_position(normalized.as_str())
}

/// `index` is the first answer marked correct.
pub open spec fn first_correct(answers: Seq<Answer>, index: int) -> bool {
    &&& 0 <= index < answers.len()
    &&& answers[index].correct
    &&& forall|j: int| 0 <= j < index ==> !(#[trigger] answers[j]).correct
}

/// Some answer is marked correct.
pub open spec fn has_correct_answer(q: Question) -> bool {
    exists|i: int| 0 <= i < q.answers@.len() && (#[trigger] q.answers@[i]).correct
}

/// The first answer marked correct, and its key.
pub fn correct_answer(question: &Question) -> (r: (usize, String))
    requires
        has_correct_answer(*question),
    ensures
        first_correct(question.answers@, r.0 as int),
        r.1@ == key_text(r.0 as int),
{
    let mut i: usize = 0;
    while i < question.answers.len()
        invariant
            i <= question.answers.len(),
            forall|j: int| 0 <= j < i ==> !(#[trigger] question.answers@[j]).correct,
        decreases question.answers.len() - i,
    {
        if question.answers[i].correct {
            return (i, answer_key(i));
        }
        i = i + 1;
    }
    proof {
        let k = choose|k: int| 0 <= k < question.answers@.len() && (#[trigger] question.answers@[k]).correct;
        assert(!question.answers@[k].correct);
    }
    (0, answer_key(0))
}

// ---------------------------------------------------------------------------
// Dataset validation
// ---------------------------------------------------------------------------

/// Why a dataset cannot be used.
#[derive(Clone, Copy, Debug, PartialEq, Eq)]
pub enum DatasetError {
    /// Fewer questions than one exam needs.
    TooFewQuestions,
    /// Two questions share this id.
    DuplicateId(u32),
    /// This question does not have exactly four answers.
    WrongAnswerCount(u32),
    /// This question does not have exactly one correct answer.
    WrongCorrectCount(u32),
    /// Fewer general questions than one exam needs.
    TooFewGeneral,
    /// Fewer Berlin-specific questions than one exam needs.
    TooFewBerlin,
}

/// The number of answers marked correct.
pub open spec fn correct_count(answers: Seq<Answer>) -> nat {
    answers.filter(|a: Answer| a.correct).len()
}

/// The number of questions whose id satisfies `pred`.
pub open spec fn id_count(questions: Seq<Question>, pred: spec_fn(u32) -> bool) -> nat {
    questions.filter(|q: Question| pred(q.id)).len()
}

/// What is wrong with the question at `i`, given the ones before it.
pub open spec fn question_problem(questions: Seq<Question>, i: int) -> Option<DatasetError> {
    let q = questions[i];
    if exists|j: int| 0 <= j < i && questions[j].id == q.id {
        Some(DatasetError::DuplicateId(q.id))
    } else if q.answers@.len() != ANSWERS_PER_QUESTION {
        Some(DatasetError::WrongAnswerCount(q.id))
    } else if correct_count(q.answers@) != 1 {
        Some(DatasetError::WrongCorrectCount(q.id))
    } else {
        None
    }
}

/// The first problem among the first `n` questions.
pub open spec fn first_problem(questions: Seq<Question>, n: int) -> Option<DatasetError>
    decreases n,
{
    if n <= 0 {
        None
    } else {
        match first_problem(questions, n - 1) {
            Some(e) => Some(e),
            None => question_problem(questions, n - 1),
        }
    }
}

/// The verdict on a dataset: enough questions, then each question in order
/// (unique id, four answers, one correct), then enough general and
/// Berlin-specific questions.
pub open spec fn dataset_verdict(questions: Seq<Question>) -> Result<(), DatasetError> {
    if questions.len() < EXAM_QUESTION_COUNT {
        Err(DatasetError::TooFewQuestions)
    } else if first_problem(questions, questions.len() as int) is Some {
        Err(first_problem(questions, questions.len() as int)->0)
    } else if id_count(questions, |id: u32| general_id(id)) < GENERAL_QUESTION_COUNT {
        Err(DatasetError::TooFewGeneral)
    } else if id_count(questions, |id: u32| berlin_id(id)) < BERLIN_QUESTION_COUNT {
        Err(DatasetError::TooFewBerlin)
    } else {
        Ok(())
    }
}

fn count_correct(answers: &Vec<Answer>) -> (n: usize)
    ensures
        n == correct_count(answers@),
{
    let ghost pred = |a: Answer| a.correct;
    let mut n: usize = 0;
    let mut i: usize = 0;
    while i < answers.len()
        invariant
            i <= answers.len(),
            pred == (|a: Answer| a.correct),
            n == answers@.take(i as int).filter(pred).len(),
            n <= i,
        decreases answers.len() - i,
    {
        proof {
            answers@.take(i as int).lemma_filter_push(answers@[i as int], pred);
            assert(answers@.take(i + 1) =~= answers@.take(i as int).push(answers@[i as int]));
        }
        if answers[i].correct {
            n = n + 1;
        }
        i = i + 1;
    }
    assert(answers@.take(i as int) =~= answers@);
    n
}

fn count_general(questions: &[Question]) -> (n: usize)
    ensures
        n == id_count(questions@, |id: u32| general_id(id)),
{
    let ghost pred = |q: Question| (|id: u32| general_id(id))(q.id);
    let mut n: usize = 0;
    let mut i: usize = 0;
    while i < questions.len()
        invariant
            i <= questions.len(),
            pred == (|q: Question| (|id: u32| general_id(id))(q.id)),
            n == questions@.take(i as int).filter(pred).len(),
            n <= i,
        decreases questions.len() - i,
    {
        proof {
            questions@.take(i as int).lemma_filter_push(questions@[i as int], pred);
            assert(questions@.take(i + 1) =~= questions@.take(i as int).push(questions@[i as int]));
        }
        if is_general_question(questions[i].id) {
            n = n + 1;
        }
        i = i + 1;
    }
    assert(questions@.take(i as int) =~= questions@);
    n
}

fn count_berlin(questions: &[Question]) -> (n: usize)
    ensures
        n == id_count(questions@, |id: u32| berlin_id(id)),
{
    let ghost pred = |q: Question| (|id: u32| berlin_id(id))(q.id);
    let mut n: usize = 0;
    let mut i: usize = 0;
    while i < questions.len()
        invariant
            i <= questions.len(),
            pred == (|q: Question| (|id: u32| berlin_id(id))(q.id)),
            n == questions@.take(i as int).filter(pred).len(),
            n <= i,
        decreases questions.len() - i,
    {
        proof {
            questions@.take(i as int).lemma_filter_push(questions@[i as int], pred);
            assert(questions@.take(i + 1) =~= questions@.take(i as int).push(questions@[i as int]));
        }
        if is_berlin_question(questions[i].id) {
            n = n + 1;
        }
        i = i + 1;
    }
    assert(questions@.take(i as int) =~= questions@);
    n
}

/// Checks that a dataset can be used: at least 33 questions; ids unique;
/// exactly four answers and exactly one correct answer per question; at
/// least 30 general and 3 Berlin-specific questions. The first problem found
/// is reported.
pub fn validate_questions(questions: &[Question]) -> (r: Result<(), DatasetError>)
    ensures
        r == dataset_verdict(questions@),
{
    if questions.len() < EXAM_QUESTION_COUNT {
        return Err(DatasetError::TooFewQuestions);
    }
    let mut seen: HashSet<u32> = HashSet::new();
    let mut i: usize = 0;
    while i < questions.len()
        invariant
            i <= questions.len(),
            questions@.len() >= EXAM_QUESTION_COUNT,
            first_problem(questions@, i as int) is None,
            forall|id: u32| #[trigger] seen@.contains(id) <==> exists|j: int| 0 <= j < i && questions@[j].id == id,
        decreases questions.len() - i,
    {
        let question = &questions[i];
        let fresh = seen.insert(question.id);
        if !fresh {
            assert(question_problem(questions@, i as int) == Some(DatasetError::DuplicateId(question.id)));
            assert(first_problem(questions@, i as int + 1) == Some(DatasetError::DuplicateId(question.id)));
            proof {
                lemma_first_problem_stops(questions@, i as int + 1, questions@.len() as int);
            }
            assert(first_problem(questions@, questions@.len() as int) == Some(DatasetError::DuplicateId(question.id)));
            return Err(DatasetError::DuplicateId(question.id));
        }
        if question.answers.len() != ANSWERS_PER_QUESTION {
            assert(!(exists|j: int| 0 <= j < i && questions@[j].id == question.id));
            assert(question_problem(questions@, i as int) == Some(DatasetError::WrongAnswerCount(question.id)));
            proof {
                lemma_first_problem_stops(questions@, i as int + 1, questions@.len() as int);
            }
            return Err(DatasetError::WrongAnswerCount(question.id));
        }
        if count_correct(&question.answers) != 1 {
            proof {
                lemma_first_problem_stops(questions@, i as int + 1, questions@.len() as int);
            }
            return Err(DatasetError::WrongCorrectCount(question.id));
        }
        proof {
            assert forall|id: u32| #[trigger] seen@.contains(id) <==> exists|j: int| 0 <= j < i + 1
                && questions@[j].id == id by {
                if exists|j: int| 0 <= j < i + 1 && questions@[j].id == id {
                    let j = choose|j: int| 0 <= j < i + 1 && questions@[j].id == id;
                    if j < i {
                        assert(exists|j: int| 0 <= j < i && questions@[j].id == id);
                    }
                }
                if exists|j: int| 0 <= j < i && questions@[j].id == id {
                    let j = choose|j: int| 0 <= j < i && questions@[j].id == id;
                    assert(0 <= j < i + 1);
                }
            }
        }
        i = i + 1;
    }
    if count_general(questions) < GENERAL_QUESTION_COUNT {
        return Err(DatasetError::TooFewGeneral);
    }
    if count_berlin(questions) < BERLIN_QUESTION_COUNT {
        return Err(DatasetError::TooFewBerlin);
    }
    Ok(())
}

/// Once a problem is found among the first `n` questions, it stays the first.
proof fn lemma_first_problem_stops(questions: Seq<Question>, n: int, m: int)
    requires
        0 < n <= m,
        first_problem(questions, n) is Some,
    ensures
        first_problem(questions, m) == first_problem(questions, n),
    decreases m - n,
{
    if m > n {
        lemma_first_problem_stops(questions, n, m - 1);
    }
}

impl DatasetError {
    /// The message shown for the problem.
    pub fn message(&self) -> (r: String)
        ensures
            r@ == dataset_error_text(*self),
    {
        let mut r = String::new();
        match self {
            DatasetError::TooFewQuestions => {
                push_str(&mut r, "dataset must contain at least ");
                push_decimal(&mut r, EXAM_QUESTION_COUNT as u128);
                push_str(&mut r, " questions");
            },
            DatasetError::DuplicateId(id) => {
                push_str(&mut r, "duplicate question id ");
                push_decimal(&mut r, *id as u128);
            },
            DatasetError::WrongAnswerCount(id) => {
                push_str(&mut r, "question ");
                push_decimal(&mut r, *id as u128);
                push_str(&mut r, " must have exactly 4 answers");
            },
            DatasetError::WrongCorrectCount(id) => {
                push_str(&mut r, "question ");
                push_decimal(&mut r, *id as u128);
                push_str(&mut r, " must have exactly 1 correct answer");
            },
            DatasetError::TooFewGeneral => {
                push_str(&mut r, "dataset must contain at least ");
                push_decimal(&mut r, GENERAL_QUESTION_COUNT as u128);
                push_str(&mut r, " general questions");
            },
            DatasetError::TooFewBerlin => {
                push_str(&mut r, "dataset must contain at least ");
                push_decimal(&mut r, BERLIN_QUESTION_COUNT as u128);
                push_str(&mut r, " Berlin-specific questions");
            },
        }
        r
    }
}

/// The message for a dataset problem.
pub open spec fn dataset_error_text(e: DatasetError) -> Seq<char> {
    match e {
        DatasetError::TooFewQuestions => "dataset must contain at least "@ + decimal_text(
            EXAM_QUESTION_COUNT as nat,
        ) + " questions"@,
        DatasetError::DuplicateId(id) => "duplicate question id "@ + decimal_text(id as nat),
        DatasetError::WrongAnswerCount(id) => "question "@ + decimal_text(id as nat) + " must have exactly 4 answers"@,
        DatasetError::WrongCorrectCount(id) => "question "@ + decimal_text(id as nat)
            + " must have exactly 1 correct answer"@,
        DatasetError::TooFewGeneral => "dataset must contain at least "@ + decimal_text(
            GENERAL_QUESTION_COUNT as nat,
        ) + " general questions"@,
        DatasetError::TooFewBerlin => "dataset must contain at least "@ + decimal_text(
            BERLIN_QUESTION_COUNT as nat,
        ) + " Berlin-specific questions"@,
    }
}

// ---------------------------------------------------------------------------
// Questions as shown
// ---------------------------------------------------------------------------

/// `options` show `answers` in order, keyed A, B, C, D.
pub open spec fn shows_answers(options: Seq<AnswerOptionPayload>, answers: Seq<Answer>) -> bool {
    &&& options.len() == answers.len()
    &&& forall|i: int|
        0 <= i < options.len() ==> (#[trigger] options[i]).key@ == key_text(i) && options[i].text_original@
            == answers[i].answer_text_original@ && options[i].text_translation@
            == answers[i].answer_text_translation@
}

/// The question as the exam screen shows it: without correctness flags.
pub fn to_exam_payload(question: Question) -> (r: ExamQuestionPayload)
    ensures
        r.id == question.id,
        r.text_original@ == question.text_original@,
        r.text_translation@ == question.text_translation@,
        shows_answers(r.answers@, question.answers@),
{
    let ghost all = question.answers@;
    let mut rest = question.answers;
    let mut options: Vec<AnswerOptionPayload> = Vec::new();
    let mut i: usize = 0;
    assert(all.len() == rest.len());
    while rest.len() > 0
        invariant
            all.len() == i + rest.len(),
            all.len() <= usize::MAX,
            rest@ == all.skip(i as int),
            options@.len() == i,
            forall|k: int|
                0 <= k < i ==> (#[trigger] options@[k]).key@ == key_text(k) && options@[k].text_original@
                    == all[k].answer_text_original@ && options@[k].text_translation@
                    == all[k].answer_text_translation@,
        decreases rest.len(),
    {
        let answer = rest.remove(0);
        assert(answer == all[i as int]);
        options.push(
            AnswerOptionPayload {
                key: answer_key(i),
                text_original: answer.answer_text_original,
                text_translation: answer.answer_text_translation,
            },
        );
        assert(rest@ =~= all.skip(i + 1));
        i = i + 1;
    }
    ExamQuestionPayload {
        id: question.id,
        text_original: question.text_original,
        text_translation: question.text_translation,
        answers: options,
    }
}

/// The index of the first answer marked correct.
pub open spec fn first_correct_index(answers: Seq<Answer>) -> int {
    choose|k: int| first_correct(answers, k)
}

pub proof fn lemma_first_correct_index(answers: Seq<Answer>, k: int)
    requires
        first_correct(answers, k),
    ensures
        first_correct_index(answers) == k,
{
    let c = first_correct_index(answers);
    assert(first_correct(answers, c));
    if c < k {
        assert(!answers[c].correct);
    }
    if k < c {
        assert(!answers[k].correct);
    }
}

/// The translation the tutor is given for an answer: the dataset's, or the
/// German text when the dataset has none.
pub open spec fn tutor_translation(a: Answer) -> Seq<char> {
    if trim_text(a.answer_text_translation@).len() == 0 {
        a.answer_text_original@
    } else {
        a.answer_text_translation@
    }
}

/// What the tutor is given about a question: texts, keyed answers, the
/// correct key, and the learner's answer and memory summary if any.
pub fn build_ai_context(
    question: &Question,
    selected_key: Option<String>,
    is_correct: Option<bool>,
    memory_summary: MemorySummary,
) -> (r: AiRequestContext)
    requires
        has_correct_answer(*question),
    ensures
        r.question_id == question.id,
        r.question_text_original@ == question.text_original@,
        r.question_text_translation@ == question.text_translation@,
        r.answers@.len() == question.answers@.len(),
        forall|i: int|
            0 <= i < r.answers@.len() ==> (#[trigger] r.answers@[i]).key@ == key_text(i)
                && r.answers@[i].answer_text_original@ == question.answers@[i].answer_text_original@
                && r.answers@[i].answer_text_translation@ == tutor_translation(question.answers@[i]),
        r.correct_key@ == key_text(first_correct_index(question.answers@)),
        r.selected_key == selected_key,
        r.is_correct == is_correct,
        r.memory_summary == memory_summary,
{
    let (index, correct_key) = correct_answer(question);
    proof {
        lemma_first_correct_index(question.answers@, index as int);
    }
    let mut answers: Vec<AiAnswerContext> = Vec::new();
    let mut i: usize = 0;
    while i < question.answers.len()
        invariant
            i <= question.answers.len(),
            answers@.len() == i,
            forall|k: int|
                0 <= k < i ==> (#[trigger] answers@[k]).key@ == key_text(k) && answers@[k].answer_text_original@
                    == question.answers@[k].answer_text_original@ && answers@[k].answer_text_translation@
                    == tutor_translation(question.answers@[k]),
        decreases question.answers.len() - i,
    {
        let answer = &question.answers[i];
        let translation = if trimmed(answer.answer_text_translation.as_str()).is_empty() {
            answer.answer_text_original.clone()
        } else {
            answer.answer_text_translation.clone()
        };
        answers.push(
            AiAnswerContext {
                key: answer_key(i),
                answer_text_original: answer.answer_text_original.clone(),
                answer_text_translation: translation,
            },
        );
        i = i + 1;
    }
    AiRequestContext {
        question_id: question.id,
        question_text_original: question.text_original.clone(),
        question_text_translation: question.text_translation.clone(),
        answers,
        correct_key,
        selected_key,
        is_correct,
        memory_summary,
    }
}

// ---------------------------------------------------------------------------
// Submissions
// ---------------------------------------------------------------------------

/// `k` is the first submission for question `question_id`.
pub open spec fn first_for_question(subs: Seq<SubmittedAnswer>, question_id: u32, k: int) -> bool {
    &&& 0 <= k < subs.len()
    &&& subs[k].question_id == question_id
    &&& forall|j: int| 0 <= j < k ==> (#[trigger] subs[j]).question_id != question_id
}

/// The submissions after recording `s`: it replaces the first submission for
/// the same question, or is appended when there is none.
pub open spec fn upserted(subs: Seq<SubmittedAnswer>, s: SubmittedAnswer) -> Seq<SubmittedAnswer> {
    if exists|k: int| 0 <= k < subs.len() && subs[k].question_id == s.question_id {
        subs.update(choose|k: int| first_for_question(subs, s.question_id, k), s)
    } else {
        subs.push(s)
    }
}

proof fn lemma_first_for_question(subs: Seq<SubmittedAnswer>, q: u32, k: int)
    requires
        first_for_question(subs, q, k),
    ensures
        (choose|c: int| first_for_question(subs, q, c)) == k,
{
    let c = choose|c: int| first_for_question(subs, q, c);
    assert(first_for_question(subs, q, c));
    if c < k {
        assert(subs[c].question_id != q);
    }
    if k < c {
        assert(subs[k].question_id != q);
    }
}

/// Records an answer in the exam: it replaces an earlier answer to the same
/// question or is added; once every question of the exam has an answer, the
/// exam is marked completed now.
pub fn upsert_submission(record: &mut ExamRecord, submission: SubmittedAnswer)
    ensures
        final(record).submissions@ == upserted(old(record).submissions@, submission),
        final(record).submissions@.len() == old(record).question_ids@.len() ==> final(record).completed_at is Some
            && (final(record).completed_at->0).secs >= 0,
        final(record).submissions@.len() != old(record).question_ids@.len() ==> final(record).completed_at == old(
            record,
        ).completed_at,
        final(record).exam_id == old(record).exam_id,
        final(record).profile_id == old(record).profile_id,
        final(record).question_ids == old(record).question_ids,
        final(record).started_at == old(record).started_at,
{
    let ghost subs = record.submissions@;
    let mut i: usize = 0;
    while i < record.submissions.len() && record.submissions[i].question_id != submission.question_id
        invariant
            i <= record.submissions.len(),
            subs == record.submissions@,
            forall|j: int| 0 <= j < i ==> (#[trigger] subs[j]).question_id != submission.question_id,
        decreases record.submissions.len() - i,
    {
        i = i + 1;
    }
    if i < record.submissions.len() {
        proof {
            lemma_first_for_question(subs, submission.question_id, i as int);
        }
        record.submissions.set(i, submission);
    } else {
        record.submissions.push(submission);
    }
    if record.submissions.len() == record.question_ids.len() {
        record.completed_at = Some(now());
    }
}

// ---------------------------------------------------------------------------
// Review
// ---------------------------------------------------------------------------

/// The answer a typed key points at for review: its index, or the first
/// answer when the key names none.
pub open spec fn answer_slot(key: Seq<char>) -> int {
    match typed_key_index(key) {
        Some(i) => i as int,
        None => 0,
    }
}

/// The feedback text kept from the tutor's reply (empty without a reply).
pub open spec fn feedback_text_of(s: SubmittedAnswer) -> Seq<char> {
    match s.feedback {
        Some(f) => f.feedback_text@,
        None => Seq::empty(),
    }
}

/// The memory trick kept from the tutor's reply (empty without a reply).
pub open spec fn memory_trick_of(s: SubmittedAnswer) -> Seq<char> {
    match s.feedback {
        Some(f) => f.memory_trick@,
        None => Seq::empty(),
    }
}

/// `item` shows the submission `s` to question `q`.
#[verifier::opaque]
pub open spec fn describes(item: ReviewItem, q: Question, s: SubmittedAnswer) -> bool {
    &&& item.question_id == q.id
    &&& item.text_original@ == q.text_original@
    &&& item.text_translation@ == q.text_translation@
    &&& item.selected_key@ == s.selected_key@
    &&& item.selected_answer_text_original@ == q.answers@[answer_slot(s.selected_key@)].answer_text_original@
    &&& item.correct_key@ == s.correct_key@
    &&& item.correct_answer_text_original@ == q.answers@[answer_slot(s.correct_key@)].answer_text_original@
    &&& item.is_correct == s.is_correct
    &&& item.feedback_text@ == feedback_text_of(s)
    &&& item.memory_trick@ == memory_trick_of(s)
    &&& item.ai_error == s.ai_error
    &&& item.submitted_at == s.submitted_at
    &&& shows_answers(item.answers@, q.answers@)
}

/// The review of `s` can show the answers at its two keys: the question it
/// answers, if there is one, has an answer at the position of the selected
/// key and at that of the correct key (a key that names no answer counts as
/// A).
pub open spec fn fits_review(questions: Seq<Question>, s: SubmittedAnswer) -> bool {
    has_question(questions, s.question_id) ==> {
        let q = question_for(questions, s.question_id);
        &&& answer_slot(s.selected_key@) < q.answers@.len()
        &&& answer_slot(s.correct_key@) < q.answers@.len()
    }
}

fn clone_option_string(o: &Option<String>) -> (r: Option<String>)
    ensures
        r == *o,
{
    match o {
        Some(s) => Some(s.clone()),
        None => None,
    }
}

fn answer_options(answers: &Vec<Answer>) -> (r: Vec<AnswerOptionPayload>)
    ensures
        shows_answers(r@, answers@),
{
    let mut options: Vec<AnswerOptionPayload> = Vec::new();
    let mut i: usize = 0;
    while i < answers.len()
        invariant
            i <= answers.len(),
            options@.len() == i,
            forall|k: int|
                0 <= k < i ==> (#[trigger] options@[k]).key@ == key_text(k) && options@[k].text_original@
                    == answers@[k].answer_text_original@ && options@[k].text_translation@
                    == answers@[k].answer_text_translation@,
        decreases answers.len() - i,
    {
        options.push(
            AnswerOptionPayload {
                key: answer_key(i),
                text_original: answers[i].answer_text_original.clone(),
                text_translation: answers[i].answer_text_translation.clone(),
            },
        );
        i = i + 1;
    }
    options
}

fn review_slot(key: &str) -> (r: usize)
    ensures
        r as int == answer_slot(key@),
        r < ANSWERS_PER_QUESTION,
{
    match answer_index(key) {
        Some(i) => i,
        None => 0,
    }
}

/// The review entry for a submission to a question.
fn build_review_item(question: &Question, submission: &SubmittedAnswer) -> (r: ReviewItem)
    requires
        answer_slot(submission.selected_key@) < question.answers@.len(),
        answer_slot(submission.correct_key@) < question.answers@.len(),
    ensures
        describes(r, *question, *submission),
        r.question_id == question.id,
        r.submitted_at == submission.submitted_at,
{
    reveal(describes);
    let selected_index = review_slot(submission.selected_key.as_str());
    let correct_index = review_slot(submission.correct_key.as_str());
    let feedback_text = match &submission.feedback {
        Some(feedback) => feedback.feedback_text.clone(),
        None => String::new(),
    };
    let memory_trick = match &submission.feedback {
        Some(feedback) => feedback.memory_trick.clone(),
        None => String::new(),
    };
    ReviewItem {
        question_id: question.id,
        text_original: question.text_original.clone(),
        text_translation: question.text_translation.clone(),
        selected_key: submission.selected_key.clone(),
        selected_answer_text_original: question.answers[selected_index].answer_text_original.clone(),
        correct_key: submission.correct_key.clone(),
        correct_answer_text_original: question.answers[correct_index].answer_text_original.clone(),
        is_correct: submission.is_correct,
        feedback_text,
        memory_trick,
        ai_error: clone_option_string(&submission.ai_error),
        submitted_at: submission.submitted_at,
        answers: answer_options(&question.answers),
    }
}

/// Some question has this id.
pub open spec fn has_question(questions: Seq<Question>, id: u32) -> bool {
    exists|k: int| 0 <= k < questions.len() && questions[k].id == id
}

/// `k` is the last question with this id (the one a lookup by id finds).
pub open spec fn last_with_id(questions: Seq<Question>, id: u32, k: int) -> bool {
    &&& 0 <= k < questions.len()
    &&& questions[k].id == id
    &&& forall|j: int| k < j < questions.len() ==> (#[trigger] questions[j]).id != id
}

/// The question a lookup by id finds: the last one with that id.
pub open spec fn question_for(questions: Seq<Question>, id: u32) -> Question {
    questions[choose|k: int| last_with_id(questions, id, k)]
}

proof fn lemma_last_with_id(questions: Seq<Question>, id: u32, k: int)
    requires
        last_with_id(questions, id, k),
    ensures
        question_for(questions, id) == questions[k],
{
    let c = choose|c: int| last_with_id(questions, id, c);
    assert(last_with_id(questions, id, c));
    if c < k {
        assert(questions[k].id != id);
    }
    if k < c {
        assert(questions[c].id != id);
    }
}

/// The position of the last question with this id.
fn find_question(questions: &[Question], id: u32) -> (r: Option<usize>)
    ensures
        match r {
            Some(k) => last_with_id(questions@, id, k as int),
            None => !has_question(questions@, id),
        },
{
    let mut i: usize = questions.len();
    while i > 0
        invariant
            i <= questions.len(),
            forall|j: int| i <= j < questions.len() ==> (#[trigger] questions@[j]).id != id,
        decreases i,
    {
        if questions[i - 1].id == id {
            return Some(i - 1);
        }
        i = i - 1;
    }
    None
}

/// Review items keyed by question id (for the descending order by id).
pub open spec fn id_entries(items: Seq<ReviewItem>) -> Seq<((i64, u32), ReviewItem)> {
    items.map_values(|it: ReviewItem| ((it.question_id as i64, 0u32), it))
}

/// Review items keyed by the time they were answered.
pub open spec fn time_entries(items: Seq<ReviewItem>) -> Seq<((i64, u32), ReviewItem)> {
    items.map_values(|it: ReviewItem| (it.submitted_at.stamp(), it))
}

fn drop_keys<T>(v: Vec<((i64, u32), T)>) -> (r: Vec<T>)
    ensures
        r@ == v@.map_values(|p: ((i64, u32), T)| p.1),
{
    let ghost all = v@;
    let mut rest = v;
    let mut r: Vec<T> = Vec::new();
    let ghost mut i: int = 0;
    assert(all.len() == rest.len());
    while rest.len() > 0
        invariant
            all.len() == i + rest.len(),
            0 <= i,
            rest@ == all.skip(i),
            r@ == all.take(i).map_values(|p: ((i64, u32), T)| p.1),
        decreases rest.len(),
    {
        let (_key, x) = rest.remove(0);
        r.push(x);
        proof {
            assert(r@ =~= all.take(i + 1).map_values(|p: ((i64, u32), T)| p.1));
            assert(rest@ =~= all.skip(i + 1));
            i = i + 1;
        }
    }
    assert(all.take(i) =~= all);
    r
}

/// Orders review items by question id, highest first, keeping the order of
/// items with the same id.
fn sort_by_question_desc(items: Vec<ReviewItem>) -> (r: Vec<ReviewItem>)
    ensures
        is_stable_newest_first(id_entries(items@), id_entries(r@)),
{
    let ghost all = items@;
    let mut rest = items;
    let mut keyed: Vec<((i64, u32), ReviewItem)> = Vec::new();
    let ghost mut i: int = 0;
    assert(all.len() == rest.len());
    while rest.len() > 0
        invariant
            all.len() == i + rest.len(),
            0 <= i,
            rest@ == all.skip(i),
            keyed@ == id_entries(all).take(i),
        decreases rest.len(),
    {
        let x = rest.remove(0);
        let key = (x.question_id as i64, 0u32);
        keyed.push((key, x));
        proof {
            assert(keyed@ =~= id_entries(all).take(i + 1));
            assert(rest@ =~= all.skip(i + 1));
            i = i + 1;
        }
    }
    assert(id_entries(all).take(i) =~= id_entries(all));
    let sorted = sort_newest_first(keyed);
    let ghost sv = sorted@;
    let r = drop_keys(sorted);
    proof {
        lemma_stable_keeps_items(id_entries(all), sv);
        assert(id_entries(r@) =~= sv) by {
            assert forall|k: int| 0 <= k < sv.len() implies id_entries(r@)[k] == sv[k] by {
                assert(sv.contains(sv[k]));
                assert(id_entries(all).contains(sv[k]));
                let a = choose|a: int| 0 <= a < id_entries(all).len() && id_entries(all)[a] == sv[k];
            }
        }
    }
    r
}

/// Orders review items by answer time, newest first, keeping the order of
/// items answered at the same time.
fn sort_by_time_desc(items: Vec<ReviewItem>) -> (r: Vec<ReviewItem>)
    ensures
        is_stable_newest_first(time_entries(items@), time_entries(r@)),
{
    let ghost all = items@;
    let mut rest = items;
    let mut keyed: Vec<((i64, u32), ReviewItem)> = Vec::new();
    let ghost mut i: int = 0;
    assert(all.len() == rest.len());
    while rest.len() > 0
        invariant
            all.len() == i + rest.len(),
            0 <= i,
            rest@ == all.skip(i),
            keyed@ == time_entries(all).take(i),
        decreases rest.len(),
    {
        let x = rest.remove(0);
        let key = (x.submitted_at.secs, x.submitted_at.nanos);
        keyed.push((key, x));
        proof {
            assert(keyed@ =~= time_entries(all).take(i + 1));
            assert(rest@ =~= all.skip(i + 1));
            i = i + 1;
        }
    }
    assert(time_entries(all).take(i) =~= time_entries(all));
    let sorted = sort_newest_first(keyed);
    let ghost sv = sorted@;
    let r = drop_keys(sorted);
    proof {
        lemma_stable_keeps_items(time_entries(all), sv);
        assert(time_entries(r@) =~= sv) by {
            assert forall|k: int| 0 <= k < sv.len() implies time_entries(r@)[k] == sv[k] by {
                assert(sv.contains(sv[k]));
                assert(time_entries(all).contains(sv[k]));
                let a = choose|a: int| 0 <= a < time_entries(all).len() && time_entries(all)[a] == sv[k];
            }
        }
    }
    r
}

/// The submissions of a record that have a question in the dataset and the
/// given correctness, in order.
pub open spec fn reviewable(subs: Seq<SubmittedAnswer>, questions: Seq<Question>, is_correct: bool) -> Seq<
    SubmittedAnswer,
> {
    subs.filter(reviewable_pred(questions, is_correct))
}

/// A submission is reviewable: its question is in the dataset and its
/// correctness is `is_correct`.
pub open spec fn reviewable_pred(questions: Seq<Question>, is_correct: bool) -> spec_fn(SubmittedAnswer) -> bool {
    |s: SubmittedAnswer| has_question(questions, s.question_id) && s.is_correct == is_correct
}

/// `items` show `subs` one by one.
pub open spec fn describes_all(items: Seq<ReviewItem>, subs: Seq<SubmittedAnswer>, questions: Seq<Question>) -> bool {
    &&& items.len() == subs.len()
    &&& forall|i: int| 0 <= i < items.len() ==> describes(#[trigger] items[i], question_for(questions, subs[i].question_id), subs[i])
}

/// The review of one exam: its correct and its incorrect answers (those to
/// questions of the dataset), each ordered by question id, highest first.
pub fn review_items_split(record: &ExamRecord, questions: &[Question]) -> (r: (Vec<ReviewItem>, Vec<ReviewItem>))
    requires
        forall|k: int| 0 <= k < record.submissions@.len() ==> fits_review(questions@, #[trigger] record.submissions@[k]),
    ensures
        exists|e: Seq<ReviewItem>|
            describes_all(e, reviewable(record.submissions@, questions@, true), questions@)
                && is_stable_newest_first(id_entries(e), id_entries(r.0@)),
        exists|e: Seq<ReviewItem>|
            describes_all(e, reviewable(record.submissions@, questions@, false), questions@)
                && is_stable_newest_first(id_entries(e), id_entries(r.1@)),
{
    let ghost subs = record.submissions@;
    let ghost pc = reviewable_pred(questions@, true);
    let ghost pi = reviewable_pred(questions@, false);
    let mut correct: Vec<ReviewItem> = Vec::new();
    let mut incorrect: Vec<ReviewItem> = Vec::new();
    let mut i: usize = 0;
    while i < record.submissions.len()
        invariant
            i <= record.submissions.len(),
            subs == record.submissions@,
            forall|k: int| 0 <= k < subs.len() ==> fits_review(questions@, #[trigger] subs[k]),
            pc == reviewable_pred(questions@, true),
            pi == reviewable_pred(questions@, false),
            describes_all(correct@, subs.take(i as int).filter(pc), questions@),
            describes_all(incorrect@, subs.take(i as int).filter(pi), questions@),
        decreases record.submissions.len() - i,
    {
        let submission = &record.submissions[i];
        proof {
            subs.take(i as int).lemma_filter_push(subs[i as int], pc);
            subs.take(i as int).lemma_filter_push(subs[i as int], pi);
            assert(subs.take(i + 1) =~= subs.take(i as int).push(subs[i as int]));
        }
        match find_question(questions, submission.question_id) {
            Some(k) => {
                proof {
                    lemma_last_with_id(questions@, submission.question_id, k as int);
                    assert(fits_review(questions@, subs[i as int]));
                }
                let item = build_review_item(&questions[k], submission);
                if submission.is_correct {
                    correct.push(item);
                } else {
                    incorrect.push(item);
                }
            },
            None => {},
        }
        i = i + 1;
    }
    assert(subs.take(i as int) =~= subs);
    let ghost ec = correct@;
    let ghost ei = incorrect@;
    let sorted_correct = sort_by_question_desc(correct);
    let sorted_incorrect = sort_by_question_desc(incorrect);
    assert(describes_all(ec, reviewable(record.submissions@, questions@, true), questions@)
        && is_stable_newest_first(id_entries(ec), id_entries(sorted_correct@)));
    assert(describes_all(ei, reviewable(record.submissions@, questions@, false), questions@)
        && is_stable_newest_first(id_entries(ei), id_entries(sorted_incorrect@)));
    (sorted_correct, sorted_incorrect)
}

/// (record `r`, submission `k`) is a submission of `records`.
pub open spec fn valid_pos(records: Seq<ExamRecord>, r: int, k: int) -> bool {
    0 <= r < records.len() && 0 <= k < records[r].submissions@.len()
}

/// The submission at (record `r`, submission `k`).
pub open spec fn sub_at(records: Seq<ExamRecord>, r: int, k: int) -> SubmittedAnswer {
    records[r].submissions@[k]
}

/// Position (r1, k1) comes before (r2, k2): records in order, then their
/// submissions in order.
pub open spec fn pos_before(r1: int, k1: int, r2: int, k2: int) -> bool {
    r1 < r2 || (r1 == r2 && k1 < k2)
}

/// Among the submissions with correctness `is_correct` to the same question,
/// the one at (r, k) was answered latest, and every earlier-placed one was
/// answered strictly before it (ties go to the first placed).
pub open spec fn is_latest(records: Seq<ExamRecord>, is_correct: bool, r: int, k: int) -> bool {
    &&& valid_pos(records, r, k)
    &&& sub_at(records, r, k).is_correct == is_correct
    &&& forall|r2: int, k2: int|
        valid_pos(records, r2, k2) && #[trigger] sub_at(records, r2, k2).is_correct == is_correct
            && sub_at(records, r2, k2).question_id == sub_at(records, r, k).question_id ==> !stamp_lt(
            sub_at(records, r, k).submitted_at.stamp(),
            sub_at(records, r2, k2).submitted_at.stamp(),
        ) && (pos_before(r2, k2, r, k) ==> stamp_lt(
            sub_at(records, r2, k2).submitted_at.stamp(),
            sub_at(records, r, k).submitted_at.stamp(),
        ))
}

/// `item` shows the submission at (r, k), which is the latest with correctness
/// `is_correct` to its question, a question of the dataset.
pub open spec fn shows_latest(
    records: Seq<ExamRecord>,
    questions: Seq<Question>,
    is_correct: bool,
    item: ReviewItem,
    r: int,
    k: int,
) -> bool {
    &&& is_latest(records, is_correct, r, k)
    &&& has_question(questions, sub_at(records, r, k).question_id)
    &&& describes(item, question_for(questions, sub_at(records, r, k).question_id), sub_at(records, r, k))
}

/// `item` shows the latest submission, with correctness `is_correct`, to a
/// question of the dataset.
pub open spec fn shows_some_latest(records: Seq<ExamRecord>, questions: Seq<Question>, is_correct: bool, item: ReviewItem) -> bool {
    exists|r: int, k: int| shows_latest(records, questions, is_correct, item, r, k)
}

/// `e` shows, once per question, the latest submission with correctness
/// `is_correct` to every question of the dataset that has one.
pub open spec fn latest_review(e: Seq<ReviewItem>, records: Seq<ExamRecord>, questions: Seq<Question>, is_correct: bool) -> bool {
    &&& forall|i: int, j: int| 0 <= i < j < e.len() ==> (#[trigger] e[i]).question_id != (#[trigger] e[j]).question_id
    &&& forall|i: int|
        #![trigger e[i]]
        0 <= i < e.len() ==> shows_some_latest(records, questions, is_correct, e[i])
    &&& forall|r: int, k: int|
        is_latest(records, is_correct, r, k) && has_question(questions, #[trigger] sub_at(records, r, k).question_id)
            ==> exists|i: int| 0 <= i < e.len() && e[i].question_id == sub_at(records, r, k).question_id
}

/// The submissions before position (r, k) have been gathered into `latest`:
/// one entry per question, the latest one so far.
pub open spec fn latest_so_far(records: Seq<ExamRecord>, is_correct: bool, latest: Seq<(usize, usize)>, r: int, k: int) -> bool {
    &&& forall|i: int| 0 <= i < latest.len() ==> {
        let (a, b) = #[trigger] latest[i];
        &&& valid_pos(records, a as int, b as int)
        &&& pos_before(a as int, b as int, r, k)
        &&& sub_at(records, a as int, b as int).is_correct == is_correct
    }
    &&& forall|i: int, j: int|
        0 <= i < j < latest.len() ==> sub_at(records, (#[trigger] latest[i]).0 as int, latest[i].1 as int).question_id
            != sub_at(records, (#[trigger] latest[j]).0 as int, latest[j].1 as int).question_id
    &&& forall|i: int, r2: int, k2: int|
        0 <= i < latest.len() && valid_pos(records, r2, k2) && pos_before(r2, k2, r, k)
            && #[trigger] sub_at(records, r2, k2).is_correct == is_correct && sub_at(records, r2, k2).question_id
            == sub_at(records, (#[trigger] latest[i]).0 as int, latest[i].1 as int).question_id ==> !stamp_lt(
            sub_at(records, latest[i].0 as int, latest[i].1 as int).submitted_at.stamp(),
            sub_at(records, r2, k2).submitted_at.stamp(),
        ) && (pos_before(r2, k2, latest[i].0 as int, latest[i].1 as int) ==> stamp_lt(
            sub_at(records, r2, k2).submitted_at.stamp(),
            sub_at(records, latest[i].0 as int, latest[i].1 as int).submitted_at.stamp(),
        ))
    &&& forall|r2: int, k2: int|
        valid_pos(records, r2, k2) && pos_before(r2, k2, r, k) && #[trigger] sub_at(records, r2, k2).is_correct
            == is_correct ==> exists|i: int|
            0 <= i < latest.len() && sub_at(records, latest[i].0 as int, latest[i].1 as int).question_id
                == sub_at(records, r2, k2).question_id
}

fn stamp_before(a: &Timestamp, b: &Timestamp) -> (r: bool)
    ensures
        r == stamp_lt(a.stamp(), b.stamp()),
{
    a.secs < b.secs || (a.secs == b.secs && a.nanos < b.nanos)
}

/// Takes the submission at (r, k) into account.
#[verifier::rlimit(60)]
#[verifier::spinoff_prover]
fn note_submission(latest: &mut Vec<(usize, usize)>, records: &[ExamRecord], is_correct: bool, r: usize, k: usize)
    requires
        valid_pos(records@, r as int, k as int),
        latest_so_far(records@, is_correct, old(latest)@, r as int, k as int),
    ensures
        latest_so_far(records@, is_correct, final(latest)@, r as int, k + 1),
{
    let ghost rs = records@;
    let s = &records[r].submissions[k];
    assert(*s == sub_at(rs, r as int, k as int));
    if s.is_correct != is_correct {
        assert forall|r2: int, k2: int|
            valid_pos(rs, r2, k2) && pos_before(r2, k2, r as int, k + 1) && #[trigger] sub_at(rs, r2, k2).is_correct
                == is_correct implies exists|i: int|
            0 <= i < latest@.len() && sub_at(rs, latest@[i].0 as int, latest@[i].1 as int).question_id
                == sub_at(rs, r2, k2).question_id by {
            assert(pos_before(r2, k2, r as int, k as int));
        }
        return;
    }
    let mut j: usize = 0;
    while j < latest.len()
        && records[latest[j].0].submissions[latest[j].1].question_id != s.question_id
        invariant
            j <= latest.len(),
            rs == records@,
            *s == sub_at(rs, r as int, k as int),
            latest_so_far(rs, is_correct, latest@, r as int, k as int),
            forall|i: int| 0 <= i < j ==> sub_at(rs, (#[trigger] latest@[i]).0 as int, latest@[i].1 as int).question_id
                != s.question_id,
        decreases latest.len() - j,
    {
        assert(valid_pos(rs, latest@[j as int].0 as int, latest@[j as int].1 as int));
        j = j + 1;
    }
    let ghost old_latest = latest@;
    if j < latest.len() {
        let (a, b) = latest[j];
        assert(valid_pos(rs, a as int, b as int));
        if stamp_before(&records[a].submissions[b].submitted_at, &s.submitted_at) {
            latest.set(j, (r, k));
            proof {
                let n = latest@;
                assert forall|i: int, r2: int, k2: int|
                    0 <= i < n.len() && valid_pos(rs, r2, k2) && pos_before(r2, k2, r as int, k + 1)
                        && #[trigger] sub_at(rs, r2, k2).is_correct == is_correct && sub_at(rs, r2, k2).question_id
                        == sub_at(rs, (#[trigger] n[i]).0 as int, n[i].1 as int).question_id implies !stamp_lt(
                    sub_at(rs, n[i].0 as int, n[i].1 as int).submitted_at.stamp(),
                    sub_at(rs, r2, k2).submitted_at.stamp(),
                ) && (pos_before(r2, k2, n[i].0 as int, n[i].1 as int) ==> stamp_lt(
                    sub_at(rs, r2, k2).submitted_at.stamp(),
                    sub_at(rs, n[i].0 as int, n[i].1 as int).submitted_at.stamp(),
                )) by {
                    if i == j {
                        if r2 != r || k2 != k {
                            assert(pos_before(r2, k2, r as int, k as int));
                            assert(old_latest[i] == (a, b));
                        }
                    } else {
                        assert(n[i] == old_latest[i]);
                        if r2 == r && k2 == k {
                            if i < j {
                                assert(sub_at(rs, old_latest[i].0 as int, old_latest[i].1 as int).question_id
                                    != s.question_id);
                            } else {
                                assert(sub_at(rs, old_latest[j as int].0 as int, old_latest[j as int].1 as int).question_id
                                    == s.question_id);
                            }
                        } else {
                            assert(pos_before(r2, k2, r as int, k as int));
                        }
                    }
                }
                assert forall|i: int, i2: int|
                    0 <= i < i2 < n.len() implies sub_at(rs, (#[trigger] n[i]).0 as int, n[i].1 as int).question_id
                    != sub_at(rs, (#[trigger] n[i2]).0 as int, n[i2].1 as int).question_id by {
                    if i == j {
                        assert(n[i2] == old_latest[i2]);
                    } else if i2 == j {
                        assert(n[i] == old_latest[i]);
                    } else {
                        assert(n[i] == old_latest[i]);
                        assert(n[i2] == old_latest[i2]);
                    }
                }
                assert forall|r2: int, k2: int|
                    valid_pos(rs, r2, k2) && pos_before(r2, k2, r as int, k + 1) && #[trigger] sub_at(rs, r2, k2).is_correct
                        == is_correct implies exists|i: int|
                    0 <= i < n.len() && sub_at(rs, n[i].0 as int, n[i].1 as int).question_id
                        == sub_at(rs, r2, k2).question_id by {
                    if r2 == r && k2 == k {
                        assert(n[j as int] == (r, k));
                    } else {
                        assert(pos_before(r2, k2, r as int, k as int));
                        let i = choose|i: int|
                            0 <= i < old_latest.len() && sub_at(rs, old_latest[i].0 as int, old_latest[i].1 as int).question_id
                                == sub_at(rs, r2, k2).question_id;
                        if i == j {
                            assert(n[j as int] == (r, k));
                        } else {
                            assert(n[i] == old_latest[i]);
                        }
                    }
                }
                assert forall|i: int| 0 <= i < n.len() implies {
                    let (a2, b2) = #[trigger] n[i];
                    &&& valid_pos(rs, a2 as int, b2 as int)
                    &&& pos_before(a2 as int, b2 as int, r as int, k + 1)
                    &&& sub_at(rs, a2 as int, b2 as int).is_correct == is_correct
                } by {
                    if i != j {
                        assert(n[i] == old_latest[i]);
                    }
                }
            }
        } else {
            proof {
                let n = latest@;
                assert forall|i: int, r2: int, k2: int|
                    0 <= i < n.len() && valid_pos(rs, r2, k2) && pos_before(r2, k2, r as int, k + 1)
                        && #[trigger] sub_at(rs, r2, k2).is_correct == is_correct && sub_at(rs, r2, k2).question_id
                        == sub_at(rs, (#[trigger] n[i]).0 as int, n[i].1 as int).question_id implies !stamp_lt(
                    sub_at(rs, n[i].0 as int, n[i].1 as int).submitted_at.stamp(),
                    sub_at(rs, r2, k2).submitted_at.stamp(),
                ) && (pos_before(r2, k2, n[i].0 as int, n[i].1 as int) ==> stamp_lt(
                    sub_at(rs, r2, k2).submitted_at.stamp(),
                    sub_at(rs, n[i].0 as int, n[i].1 as int).submitted_at.stamp(),
                )) by {
                    if r2 == r && k2 == k {
                        if i != j {
                            if i < j {
                                assert(sub_at(rs, n[i].0 as int, n[i].1 as int).question_id != s.question_id);
                            } else {
                                assert(sub_at(rs, n[j as int].0 as int, n[j as int].1 as int).question_id
                                    == s.question_id);
                            }
                        }
                    } else {
                        assert(pos_before(r2, k2, r as int, k as int));
                    }
                }
                assert forall|r2: int, k2: int|
                    valid_pos(rs, r2, k2) && pos_before(r2, k2, r as int, k + 1) && #[trigger] sub_at(rs, r2, k2).is_correct
                        == is_correct implies exists|i: int|
                    0 <= i < n.len() && sub_at(rs, n[i].0 as int, n[i].1 as int).question_id
                        == sub_at(rs, r2, k2).question_id by {
                    if r2 == r && k2 == k {
                        assert(sub_at(rs, n[j as int].0 as int, n[j as int].1 as int).question_id == s.question_id);
                    } else {
                        assert(pos_before(r2, k2, r as int, k as int));
                    }
                }
            }
        }
    } else {
        latest.push((r, k));
        proof {
            let n = latest@;
            assert forall|i: int, r2: int, k2: int|
                0 <= i < n.len() && valid_pos(rs, r2, k2) && pos_before(r2, k2, r as int, k + 1)
                    && #[trigger] sub_at(rs, r2, k2).is_correct == is_correct && sub_at(rs, r2, k2).question_id
                    == sub_at(rs, (#[trigger] n[i]).0 as int, n[i].1 as int).question_id implies !stamp_lt(
                sub_at(rs, n[i].0 as int, n[i].1 as int).submitted_at.stamp(),
                sub_at(rs, r2, k2).submitted_at.stamp(),
            ) && (pos_before(r2, k2, n[i].0 as int, n[i].1 as int) ==> stamp_lt(
                sub_at(rs, r2, k2).submitted_at.stamp(),
                sub_at(rs, n[i].0 as int, n[i].1 as int).submitted_at.stamp(),
            )) by {
                if i == old_latest.len() {
                    if r2 != r || k2 != k {
                        assert(pos_before(r2, k2, r as int, k as int));
                        let i0 = choose|i0: int|
                            0 <= i0 < old_latest.len() && sub_at(rs, old_latest[i0].0 as int, old_latest[i0].1 as int).question_id
                                == sub_at(rs, r2, k2).question_id;
                        assert(sub_at(rs, old_latest[i0].0 as int, old_latest[i0].1 as int).question_id != s.question_id);
                    }
                } else {
                    assert(n[i] == old_latest[i]);
                    if r2 == r && k2 == k {
                        assert(sub_at(rs, old_latest[i].0 as int, old_latest[i].1 as int).question_id != s.question_id);
                    } else {
                        assert(pos_before(r2, k2, r as int, k as int));
                    }
                }
            }
            assert forall|i: int, i2: int|
                0 <= i < i2 < n.len() implies sub_at(rs, (#[trigger] n[i]).0 as int, n[i].1 as int).question_id
                != sub_at(rs, (#[trigger] n[i2]).0 as int, n[i2].1 as int).question_id by {
                assert(n[i] == old_latest[i]);
                if i2 < old_latest.len() {
                    assert(n[i2] == old_latest[i2]);
                }
            }
            assert forall|r2: int, k2: int|
                valid_pos(rs, r2, k2) && pos_before(r2, k2, r as int, k + 1) && #[trigger] sub_at(rs, r2, k2).is_correct
                    == is_correct implies exists|i: int|
                0 <= i < n.len() && sub_at(rs, n[i].0 as int, n[i].1 as int).question_id
                    == sub_at(rs, r2, k2).question_id by {
                if r2 == r && k2 == k {
                    assert(n[old_latest.len() as int] == (r, k));
                } else {
                    assert(pos_before(r2, k2, r as int, k as int));
                    let i = choose|i: int|
                        0 <= i < old_latest.len() && sub_at(rs, old_latest[i].0 as int, old_latest[i].1 as int).question_id
                            == sub_at(rs, r2, k2).question_id;
                    assert(n[i] == old_latest[i]);
                }
            }
            assert forall|i: int| 0 <= i < n.len() implies {
                let (a2, b2) = #[trigger] n[i];
                &&& valid_pos(rs, a2 as int, b2 as int)
                &&& pos_before(a2 as int, b2 as int, r as int, k + 1)
                &&& sub_at(rs, a2 as int, b2 as int).is_correct == is_correct
            } by {
                if i < old_latest.len() {
                    assert(n[i] == old_latest[i]);
                }
            }
        }
    }
}

/// The review across exams: for every question of the dataset, its latest
/// answer with the given correctness, newest first.
#[verifier::rlimit(60)]
#[verifier::spinoff_prover]
pub fn review_items_for_records(records: &[ExamRecord], questions: &[Question], is_correct: bool) -> (r: Vec<
    ReviewItem,
>)
    requires
        forall|r: int, k: int| #[trigger]
            is_latest(records@, is_correct, r, k) ==> fits_review(questions@, sub_at(records@, r, k)),
    ensures
        exists|e: Seq<ReviewItem>|
            latest_review(e, records@, questions@, is_correct) && is_stable_newest_first(
                time_entries(e),
                time_entries(r@),
            ),
{
    let ghost rs = records@;
    let mut latest: Vec<(usize, usize)> = Vec::new();
    let mut ri: usize = 0;
    while ri < records.len()
        invariant
            ri <= records.len(),
            rs == records@,
            latest_so_far(rs, is_correct, latest@, ri as int, 0),
        decreases records.len() - ri,
    {
        let mut ki: usize = 0;
        proof {
            lemma_latest_so_far_moves(rs, is_correct, latest@, ri as int, 0, ri as int, 0);
        }
        while ki < records[ri].submissions.len()
            invariant
                ri < records.len(),
                ki <= records@[ri as int].submissions@.len(),
                rs == records@,
                latest_so_far(rs, is_correct, latest@, ri as int, ki as int),
            decreases records[ri as int].submissions@.len() - ki,
        {
            note_submission(&mut latest, records, is_correct, ri, ki);
            ki = ki + 1;
        }
        proof {
            lemma_latest_so_far_moves(rs, is_correct, latest@, ri as int, ki as int, ri + 1, 0);
        }
        ri = ri + 1;
    }
    let ghost entries = latest@;
    proof {
        lemma_all_latest(rs, is_correct, entries);
        assert forall|t: int| 0 <= t < entries.len() implies fits_review(questions@, #[trigger] picked_subs(rs, entries)[t]) by {
            assert(is_latest(rs, is_correct, entries[t].0 as int, entries[t].1 as int));
        }
    }
    let (items, Ghost(sources)) = review_entries(records, questions, &latest);
    let ghost e = items@;
    let ghost picked = picked_subs(rs, entries);
    proof {
        lemma_review_from_latest(rs, questions@, is_correct, entries, e, sources);
    }
    let sorted = sort_by_time_desc(items);
    sorted
}

/// Items cover the first `i + 1` picked submissions once the item for the
/// `i`-th (if its question exists) has been added.
proof fn lemma_cover_step(
    old_items: Seq<ReviewItem>,
    items: Seq<ReviewItem>,
    picked: Seq<SubmittedAnswer>,
    questions: Seq<Question>,
    i: int,
)
    requires
        0 <= i < picked.len(),
        forall|t: int|
            0 <= t < i && has_question(questions, #[trigger] picked[t].question_id) ==> exists|u: int|
                0 <= u < old_items.len() && old_items[u].question_id == picked[t].question_id,
        items == old_items || (items.len() == old_items.len() + 1 && items.take(old_items.len() as int) == old_items
            && items.last().question_id == picked[i].question_id),
        items == old_items ==> !has_question(questions, picked[i].question_id),
    ensures
        forall|t: int|
            0 <= t < i + 1 && has_question(questions, #[trigger] picked[t].question_id) ==> exists|u: int|
                0 <= u < items.len() && items[u].question_id == picked[t].question_id,
{
    assert forall|t: int|
        0 <= t < i + 1 && has_question(questions, #[trigger] picked[t].question_id) implies exists|u: int|
        0 <= u < items.len() && items[u].question_id == picked[t].question_id by {
        if t < i {
            let u = choose|u: int| 0 <= u < old_items.len() && old_items[u].question_id == picked[t].question_id;
            assert(items[u] == items.take(old_items.len() as int)[u]);
        } else {
            assert(items[items.len() - 1].question_id == picked[t].question_id);
        }
    }
}

/// The gathered items form the review of the latest answers.
proof fn lemma_review_from_latest(
    rs: Seq<ExamRecord>,
    questions: Seq<Question>,
    is_correct: bool,
    entries: Seq<(usize, usize)>,
    e: Seq<ReviewItem>,
    sources: Seq<int>,
)
    requires
        latest_so_far(rs, is_correct, entries, rs.len() as int, 0),
        forall|i: int| 0 <= i < entries.len() ==> is_latest(rs, is_correct, (#[trigger] entries[i]).0 as int, entries[i].1 as int),
        entries_reviewed(rs, questions, entries, e, sources),
    ensures
        latest_review(e, rs, questions, is_correct),
{
    let picked = picked_subs(rs, entries);
    lemma_review_distinct(rs, is_correct, entries, e, sources);
    lemma_review_describes(rs, questions, is_correct, entries, e, sources);
    lemma_review_covers(rs, questions, is_correct, entries, e);
}

proof fn lemma_review_distinct(
    rs: Seq<ExamRecord>,
    is_correct: bool,
    entries: Seq<(usize, usize)>,
    e: Seq<ReviewItem>,
    sources: Seq<int>,
)
    requires
        latest_so_far(rs, is_correct, entries, rs.len() as int, 0),
        sources.len() == e.len(),
        forall|t: int, u: int| 0 <= t < u < sources.len() ==> sources[t] < sources[u],
        forall|t: int| 0 <= t < sources.len() ==> 0 <= #[trigger] sources[t] < entries.len(),
        forall|t: int| 0 <= t < e.len() ==> (#[trigger] e[t]).question_id == picked_subs(rs, entries)[sources[t]].question_id,
    ensures
        forall|t: int, u: int| 0 <= t < u < e.len() ==> (#[trigger] e[t]).question_id != (#[trigger] e[u]).question_id,
{
    let picked = picked_subs(rs, entries);
    assert forall|t: int, u: int| 0 <= t < u < e.len() implies (#[trigger] e[t]).question_id
        != (#[trigger] e[u]).question_id by {
        let st = sources[t];
        let su = sources[u];
        assert(picked[st] == sub_at(rs, entries[st].0 as int, entries[st].1 as int));
        assert(picked[su] == sub_at(rs, entries[su].0 as int, entries[su].1 as int));
        assert(sub_at(rs, (entries[st]).0 as int, entries[st].1 as int).question_id != sub_at(
            rs,
            (entries[su]).0 as int,
            entries[su].1 as int,
        ).question_id);
    }
}

proof fn lemma_review_describes(
    rs: Seq<ExamRecord>,
    questions: Seq<Question>,
    is_correct: bool,
    entries: Seq<(usize, usize)>,
    e: Seq<ReviewItem>,
    sources: Seq<int>,
)
    requires
        forall|i: int| 0 <= i < entries.len() ==> is_latest(rs, is_correct, (#[trigger] entries[i]).0 as int, entries[i].1 as int),
        entries_reviewed(rs, questions, entries, e, sources),
    ensures
        forall|t: int|
            #![trigger e[t]]
            0 <= t < e.len() ==> shows_some_latest(rs, questions, is_correct, e[t]),
{
    let picked = picked_subs(rs, entries);
    assert forall|t: int| #![trigger e[t]] 0 <= t < e.len() implies shows_some_latest(rs, questions, is_correct, e[t]) by {
        let st = sources[t];
        let a = entries[st].0 as int;
        let b = entries[st].1 as int;
        assert(picked[st] == sub_at(rs, a, b));
        assert(is_latest(rs, is_correct, entries[st].0 as int, entries[st].1 as int));
        assert(describes(e[t], question_for(questions, picked[sources[t]].question_id), picked[sources[t]]));
        assert(has_question(questions, picked[sources[t]].question_id));
        assert(is_latest(rs, is_correct, a, b));
        assert(has_question(questions, sub_at(rs, a, b).question_id));
        assert(describes(e[t], question_for(questions, sub_at(rs, a, b).question_id), sub_at(rs, a, b)));
        assert(shows_latest(rs, questions, is_correct, e[t], a, b));
    }
}

proof fn lemma_review_covers(
    rs: Seq<ExamRecord>,
    questions: Seq<Question>,
    is_correct: bool,
    entries: Seq<(usize, usize)>,
    e: Seq<ReviewItem>,
)
    requires
        latest_so_far(rs, is_correct, entries, rs.len() as int, 0),
        forall|t: int|
            0 <= t < entries.len() && has_question(questions, #[trigger] picked_subs(rs, entries)[t].question_id)
                ==> exists|u: int| 0 <= u < e.len() && e[u].question_id == picked_subs(rs, entries)[t].question_id,
    ensures
        forall|r: int, k: int|
            is_latest(rs, is_correct, r, k) && has_question(questions, #[trigger] sub_at(rs, r, k).question_id)
                ==> exists|u: int| 0 <= u < e.len() && e[u].question_id == sub_at(rs, r, k).question_id,
{
    let picked = picked_subs(rs, entries);
    assert forall|r: int, k: int|
        is_latest(rs, is_correct, r, k) && has_question(questions, #[trigger] sub_at(rs, r, k).question_id)
            implies exists|u: int| 0 <= u < e.len() && e[u].question_id == sub_at(rs, r, k).question_id by {
        assert(pos_before(r, k, rs.len() as int, 0));
        assert(sub_at(rs, r, k).is_correct == is_correct);
        let t = choose|t: int|
            0 <= t < entries.len() && sub_at(rs, entries[t].0 as int, entries[t].1 as int).question_id
                == sub_at(rs, r, k).question_id;
        assert(picked[t] == sub_at(rs, entries[t].0 as int, entries[t].1 as int));
        assert(has_question(questions, picked[t].question_id));
    }
}

/// Once every submission is gathered, each entry is the latest of its question.
proof fn lemma_all_latest(rs: Seq<ExamRecord>, is_correct: bool, entries: Seq<(usize, usize)>)
    requires
        latest_so_far(rs, is_correct, entries, rs.len() as int, 0),
    ensures
        forall|i: int| 0 <= i < entries.len() ==> is_latest(rs, is_correct, (#[trigger] entries[i]).0 as int, entries[i].1 as int),
{
    assert forall|i: int| 0 <= i < entries.len() implies is_latest(
        rs,
        is_correct,
        (#[trigger] entries[i]).0 as int,
        entries[i].1 as int,
    ) by {
        let (a, b) = entries[i];
        assert forall|r2: int, k2: int|
            valid_pos(rs, r2, k2) && #[trigger] sub_at(rs, r2, k2).is_correct == is_correct && sub_at(
                rs,
                r2,
                k2,
            ).question_id == sub_at(rs, a as int, b as int).question_id implies !stamp_lt(
            sub_at(rs, a as int, b as int).submitted_at.stamp(),
            sub_at(rs, r2, k2).submitted_at.stamp(),
        ) && (pos_before(r2, k2, a as int, b as int) ==> stamp_lt(
            sub_at(rs, r2, k2).submitted_at.stamp(),
            sub_at(rs, a as int, b as int).submitted_at.stamp(),
        )) by {
            assert(pos_before(r2, k2, rs.len() as int, 0));
        }
    }
}

/// The submissions at the gathered positions.
pub open spec fn picked_subs(records: Seq<ExamRecord>, latest: Seq<(usize, usize)>) -> Seq<SubmittedAnswer> {
    latest.map_values(|p: (usize, usize)| sub_at(records, p.0 as int, p.1 as int))
}

/// `e` holds, in order, the review items of the picked submissions whose
/// question is in the dataset; `sources` tells which submission each shows.
pub open spec fn entries_reviewed(
    rs: Seq<ExamRecord>,
    questions: Seq<Question>,
    entries: Seq<(usize, usize)>,
    e: Seq<ReviewItem>,
    sources: Seq<int>,
) -> bool {
    &&& sources.len() == e.len()
    &&& forall|t: int, u: int| 0 <= t < u < sources.len() ==> sources[t] < sources[u]
    &&& forall|t: int| 0 <= t < sources.len() ==> 0 <= #[trigger] sources[t] < entries.len()
    &&& forall|t: int|
        0 <= t < e.len() ==> has_question(questions, picked_subs(rs, entries)[sources[t]].question_id) && describes(
            #[trigger] e[t],
            question_for(questions, picked_subs(rs, entries)[sources[t]].question_id),
            picked_subs(rs, entries)[sources[t]],
        ) && e[t].question_id == picked_subs(rs, entries)[sources[t]].question_id
    &&& forall|t: int|
        0 <= t < entries.len() && has_question(questions, #[trigger] picked_subs(rs, entries)[t].question_id)
            ==> exists|u: int| 0 <= u < e.len() && e[u].question_id == picked_subs(rs, entries)[t].question_id
}

/// The review items of the gathered entries whose question is in the
/// dataset, in entry order; `sources` tells which entry each item shows.
fn review_entries(records: &[ExamRecord], questions: &[Question], latest: &Vec<(usize, usize)>) -> (r: (
    Vec<ReviewItem>,
    Ghost<Seq<int>>,
))
    requires
        forall|t: int| 0 <= t < latest@.len() ==> valid_pos(records@, (#[trigger] latest@[t]).0 as int, latest@[t].1 as int),
        forall|t: int| 0 <= t < latest@.len() ==> fits_review(questions@, #[trigger] picked_subs(records@, latest@)[t]),
    ensures
        entries_reviewed(records@, questions@, latest@, r.0@, r.1@),
{
    let ghost picked = picked_subs(records@, latest@);
    let mut items: Vec<ReviewItem> = Vec::new();
    let ghost mut sources: Seq<int> = Seq::empty();
    let mut i: usize = 0;
    while i < latest.len()
        invariant
            i <= latest.len(),
            picked == picked_subs(records@, latest@),
            forall|t: int| 0 <= t < latest@.len() ==> fits_review(questions@, #[trigger] picked[t]),
            forall|t: int| 0 <= t < latest@.len() ==> valid_pos(records@, (#[trigger] latest@[t]).0 as int, latest@[t].1 as int),
            sources.len() == items@.len(),
            forall|t: int, u: int| 0 <= t < u < sources.len() ==> sources[t] < sources[u],
            forall|t: int| 0 <= t < sources.len() ==> 0 <= #[trigger] sources[t] < i,
            forall|t: int|
                0 <= t < items@.len() ==> has_question(questions@, picked[sources[t]].question_id) && describes(
                    #[trigger] items@[t],
                    question_for(questions@, picked[sources[t]].question_id),
                    picked[sources[t]],
                ) && items@[t].question_id == picked[sources[t]].question_id,
            forall|t: int|
                0 <= t < i && has_question(questions@, #[trigger] picked[t].question_id) ==> exists|u: int|
                    0 <= u < items@.len() && items@[u].question_id == picked[t].question_id,
        decreases latest.len() - i,
    {
        let (a, b) = latest[i];
        assert(valid_pos(records@, a as int, b as int));
        let submission = &records[a].submissions[b];
        assert(*submission == picked[i as int]);
        let ghost old_items = items@;
        match find_question(questions, submission.question_id) {
            Some(k) => {
                proof {
                    lemma_last_with_id(questions@, submission.question_id, k as int);
                    assert(fits_review(questions@, picked[i as int]));
                }
                let item = build_review_item(&questions[k], submission);
                items.push(item);
                proof {
                    sources = sources.push(i as int);
                    assert(items@[items@.len() - 1].question_id == picked[i as int].question_id);
                    assert(items@.take(old_items.len() as int) =~= old_items);
                }
            },
            None => {},
        }
        proof {
            lemma_cover_step(old_items, items@, picked, questions@, i as int);
        }
        i = i + 1;
    }
    (items, Ghost(sources))
}

/// The gathered entries stay valid when the position moves to an equivalent
/// one: the end of a record is the start of the next.
proof fn lemma_latest_so_far_moves(
    records: Seq<ExamRecord>,
    is_correct: bool,
    latest: Seq<(usize, usize)>,
    r: int,
    k: int,
    r1: int,
    k1: int,
)
    requires
        latest_so_far(records, is_correct, latest, r, k),
        0 <= r < records.len() ==> k <= records[r].submissions@.len(),
        (r1 == r && k1 == k) || (r1 == r + 1 && k1 == 0 && 0 <= r < records.len() && k
            == records[r].submissions@.len()),
    ensures
        latest_so_far(records, is_correct, latest, r1, k1),
{
    assert forall|a: int, b: int| valid_pos(records, a, b) implies (pos_before(a, b, r, k) <==> pos_before(
        a,
        b,
        r1,
        k1,
    )) by {}
}

/// The review of one exam's answers with the given correctness (its latest
/// answer per question), newest first.
pub fn review_items(record: &ExamRecord, questions: &[Question], is_correct: bool) -> (r: Vec<ReviewItem>)
    requires
        forall|r: int, k: int| #[trigger]
            is_latest(seq![*record], is_correct, r, k) ==> fits_review(questions@, sub_at(seq![*record], r, k)),
    ensures
        exists|e: Seq<ReviewItem>|
            latest_review(e, seq![*record], questions@, is_correct) && is_stable_newest_first(
                time_entries(e),
                time_entries(r@),
            ),
{
    review_items_for_records(one_record(record), questions, is_correct)
}

/// A one-element slice holding `record` (std `slice::from_ref`, which does
/// not copy). Claimed: the slice's only element is `record`.
#[verifier::external_body]
fn one_record(record: &ExamRecord) -> (s: &[ExamRecord])
    ensures
        s@ == seq![*record],
{
    std::slice::from_ref(record)
}

// ---------------------------------------------------------------------------
// Exam assembly
// ---------------------------------------------------------------------------

/// The parts of the test questions are drawn from.
#[derive(Clone, Copy, Debug, PartialEq, Eq)]
pub enum QuestionPool {
    General,
    Berlin,
}

/// The question id belongs to the pool.
pub open spec fn in_pool(pool: QuestionPool, id: u32) -> bool {
    match pool {
        QuestionPool::General => general_id(id),
        QuestionPool::Berlin => berlin_id(id),
    }
}

fn pool_contains(pool: QuestionPool, id: u32) -> (r: bool)
    ensures
        r == in_pool(pool, id),
{
    match pool {
        QuestionPool::General => is_general_question(id),
        QuestionPool::Berlin => is_berlin_question(id),
    }
}

/// The question at position `p` may be asked: it is in the pool and not held
/// back.
pub open spec fn eligible(questions: Seq<Question>, excluded: Set<u32>, pool: QuestionPool, p: int) -> bool {
    0 <= p < questions.len() && in_pool(pool, questions[p].id) && !excluded.contains(questions[p].id)
}

/// The question at position `p` may be asked and is one to prioritize.
pub open spec fn prioritized_at(
    questions: Seq<Question>,
    prioritized: Seq<u32>,
    excluded: Set<u32>,
    pool: QuestionPool,
    p: int,
) -> bool {
    eligible(questions, excluded, pool, p) && prioritized.contains(questions[p].id)
}

/// The positions `0..n` that satisfy `pred`, in order.
pub open spec fn positions_where(n: int, pred: spec_fn(int) -> bool) -> Seq<usize> {
    Seq::new(n as nat, |i: int| i as usize).filter(|p: usize| pred(p as int))
}

/// The smaller of two numbers.
pub open spec fn min_of(a: int, b: int) -> int {
    if a <= b {
        a
    } else {
        b
    }
}

/// The question at `p` has the id of one of the first `k` selected.
pub open spec fn id_among(questions: Seq<Question>, sel: Seq<usize>, k: int, p: int) -> bool {
    exists|j: int| 0 <= j < k && questions[sel[j] as int].id == questions[p].id
}

/// Positions of prioritized questions that may be asked.
pub open spec fn prioritized_pred(
    questions: Seq<Question>,
    prioritized: Seq<u32>,
    excluded: Set<u32>,
    pool: QuestionPool,
) -> spec_fn(int) -> bool {
    |p: int| prioritized_at(questions, prioritized, excluded, pool, p)
}

/// Positions of questions that may be asked and whose id is not among the
/// first `k` selected.
pub open spec fn remaining_pred(
    questions: Seq<Question>,
    excluded: Set<u32>,
    pool: QuestionPool,
    sel: Seq<usize>,
    k: int,
) -> spec_fn(int) -> bool {
    |p: int| eligible(questions, excluded, pool, p) && !id_among(questions, sel, k, p)
}

/// How many prioritized questions a selection starts with: as many as may
/// be asked, at most `limit` and `target`.
pub open spec fn priority_count(
    questions: Seq<Question>,
    prioritized: Seq<u32>,
    excluded: Set<u32>,
    pool: QuestionPool,
    target: int,
    limit: int,
) -> int {
    min_of(
        min_of(limit, target),
        positions_where(questions.len() as int, prioritized_pred(questions, prioritized, excluded, pool)).len() as int,
    )
}

/// `sel` is a selection from a pool: distinct eligible positions; first up
/// to `limit` (and `target`) prioritized questions, as many as there are;
/// then other eligible questions with ids not already selected, until
/// `target` questions are selected or none are left.
pub open spec fn is_selection(
    questions: Seq<Question>,
    prioritized: Seq<u32>,
    excluded: Set<u32>,
    pool: QuestionPool,
    target: int,
    limit: int,
    sel: Seq<usize>,
) -> bool {
    let k = priority_count(questions, prioritized, excluded, pool, target, limit);
    &&& sel.no_duplicates()
    &&& forall|i: int| 0 <= i < sel.len() ==> eligible(questions, excluded, pool, #[trigger] sel[i] as int)
    &&& 0 <= k <= sel.len()
    &&& forall|i: int| 0 <= i < k ==> prioritized_at(questions, prioritized, excluded, pool, #[trigger] sel[i] as int)
    &&& forall|i: int| k <= i < sel.len() ==> !id_among(questions, sel, k, #[trigger] sel[i] as int)
    &&& sel.len() == k + min_of(
        target - k,
        positions_where(
            questions.len() as int,
            remaining_pred(questions, excluded, pool, sel, k),
        ).len() as int,
    )
}

pub proof fn lemma_permutation(a: Seq<usize>, b: Seq<usize>)
    requires
        a.to_multiset() == b.to_multiset(),
    ensures
        a.len() == b.len(),
        forall|x: usize| a.contains(x) <==> b.contains(x),
        a.no_duplicates() ==> b.no_duplicates(),
{
    a.to_multiset_ensures();
    b.to_multiset_ensures();
    assert forall|x: usize| a.contains(x) <==> b.contains(x) by {
        a.to_multiset_ensures();
        b.to_multiset_ensures();
        assert(a.contains(x) <==> a.to_multiset().count(x) > 0);
        assert(b.contains(x) <==> b.to_multiset().count(x) > 0);
    }
    if a.no_duplicates() {
        a.lemma_multiset_has_no_duplicates();
        b.lemma_multiset_has_no_duplicates_conv();
    }
}

/// The positions `0..questions.len()` satisfying `pred`, listed by a scan.
pub proof fn lemma_positions_push(n: int, pred: spec_fn(int) -> bool)
    requires
        0 <= n <= usize::MAX,
    ensures
        positions_where(n + 1, pred) == if pred(n) {
            positions_where(n, pred).push(n as usize)
        } else {
            positions_where(n, pred)
        },
{
    let f = |p: usize| pred(p as int);
    let s = Seq::new(n as nat, |i: int| i as usize);
    let s1 = Seq::new((n + 1) as nat, |i: int| i as usize);
    assert(s1 =~= s.push(n as usize));
    s.lemma_filter_push(n as usize, f);
}

/// Positions listed by `positions_where` are in range, satisfy `pred`, and
/// are strictly increasing.
pub proof fn lemma_positions_facts(n: int, pred: spec_fn(int) -> bool)
    requires
        0 <= n <= usize::MAX,
    ensures
        forall|i: int| 0 <= i < positions_where(n, pred).len() ==> {
            let p = #[trigger] positions_where(n, pred)[i];
            0 <= p < n && pred(p as int)
        },
        positions_where(n, pred).no_duplicates(),
        forall|p: int| 0 <= p < n && #[trigger] pred(p) ==> positions_where(n, pred).contains(p as usize),
    decreases n,
{
    if n > 0 {
        lemma_positions_facts(n - 1, pred);
        lemma_positions_push(n - 1, pred);
        let prev = positions_where(n - 1, pred);
        if pred(n - 1) {
            assert(positions_where(n, pred) == prev.push((n - 1) as usize));
            assert forall|p: int| 0 <= p < n && #[trigger] pred(p) implies positions_where(n, pred).contains(p as usize) by {
                if p < n - 1 {
                    let i = choose|i: int| 0 <= i < prev.len() && prev[i] == p as usize;
                    assert(positions_where(n, pred)[i] == p as usize);
                } else {
                    assert(positions_where(n, pred)[prev.len() as int] == p as usize);
                }
            }
        }
    } else {
        assert(positions_where(0, pred) =~= Seq::<usize>::empty());
    }
}

/// Lists the positions of the questions satisfying the scan's test.
fn prioritized_positions(
    questions: &[Question],
    prioritized: &[u32],
    excluded: &HashSet<u32>,
    pool: QuestionPool,
) -> (r: Vec<usize>)
    ensures
        r@ == positions_where(
            questions@.len() as int,
            prioritized_pred(questions@, prioritized@, excluded@, pool),
        ),
{
    let ghost pred = prioritized_pred(questions@, prioritized@, excluded@, pool);
    let mut r: Vec<usize> = Vec::new();
    let mut i: usize = 0;
    assert(positions_where(0, pred) =~= Seq::<usize>::empty());
    while i < questions.len()
        invariant
            i <= questions.len(),
            pred == prioritized_pred(questions@, prioritized@, excluded@, pool),
            r@ == positions_where(i as int, pred),
        decreases questions.len() - i,
    {
        proof {
            lemma_positions_push(i as int, pred);
        }
        let id = questions[i].id;
        if pool_contains(pool, id) && slice_contains(prioritized, id) && !excluded.contains(&id) {
            r.push(i);
        }
        i = i + 1;
    }
    r
}

fn slice_contains(v: &[u32], x: u32) -> (r: bool)
    ensures
        r == v@.contains(x),
{
    let mut i: usize = 0;
    while i < v.len()
        invariant
            i <= v.len(),
            forall|j: int| 0 <= j < i ==> v@[j] != x,
        decreases v.len() - i,
    {
        if v[i] == x {
            return true;
        }
        i = i + 1;
    }
    false
}

/// Draws questions from a pool: up to `priority_limit` randomly chosen
/// prioritized questions first, then randomly chosen other eligible
/// questions until `target_count` are drawn. The result lists positions in
/// `questions`.
fn select_questions_from_pool(
    questions: &[Question],
    prioritized_question_ids: &[u32],
    excluded_question_ids: &HashSet<u32>,
    target_count: usize,
    priority_limit: usize,
    pool: QuestionPool,
    rng: &mut ThreadRng,
) -> (r: Vec<usize>)
    ensures
        is_selection(
            questions@,
            prioritized_question_ids@,
            excluded_question_ids@,
            pool,
            target_count as int,
            priority_limit as int,
            r@,
        ),
{
    let ghost qs = questions@;
    let ghost ex = excluded_question_ids@;
    let ghost pr = prioritized_question_ids@;
    let ghost ppred = prioritized_pred(qs, pr, ex, pool);
    let question_count = questions.len();
    assert(qs.len() == question_count);
    let mut prioritized_pool = prioritized_positions(questions, prioritized_question_ids, excluded_question_ids, pool);
    let ghost unshuffled = prioritized_pool@;
    proof {
        lemma_positions_facts(qs.len() as int, ppred);
    }
    shuffle(&mut prioritized_pool, rng);
    proof {
        lemma_permutation(unshuffled, prioritized_pool@);
    }
    let take = if priority_limit < target_count { priority_limit } else { target_count };
    let mut selected: Vec<usize> = Vec::new();
    let mut i: usize = 0;
    while i < prioritized_pool.len() && i < take
        invariant
            i <= prioritized_pool.len(),
            i <= take,
            selected@ == prioritized_pool@.take(i as int),
        decreases prioritized_pool.len() - i,
    {
        selected.push(prioritized_pool[i]);
        i = i + 1;
        assert(selected@ =~= prioritized_pool@.take(i as int));
    }
    let k = selected.len();
    let ghost kk = k as int;
    let ghost first = selected@;
    proof {
        assert(kk == min_of(min_of(priority_limit as int, target_count as int), unshuffled.len() as int));
        assert forall|a: int| 0 <= a < kk implies prioritized_at(qs, pr, ex, pool, #[trigger] first[a] as int) by {
            assert(prioritized_pool@.contains(first[a]));
            assert(unshuffled.contains(first[a]));
            let j = choose|j: int| 0 <= j < unshuffled.len() && unshuffled[j] == first[a];
        }
    }
    // the ids already selected
    let mut selected_ids: HashSet<u32> = HashSet::new();
    let mut j: usize = 0;
    while j < selected.len()
        invariant
            j <= selected.len(),
            selected@ == first,
            forall|a: int| 0 <= a < kk ==> prioritized_at(qs, pr, ex, pool, #[trigger] first[a] as int),
            kk == first.len(),
            qs == questions@,
            forall|id: u32| #[trigger] selected_ids@.contains(id) <==> exists|a: int| 0 <= a < j && qs[first[a] as int].id == id,
        decreases selected.len() - j,
    {
        let p = selected[j];
        assert(prioritized_at(qs, pr, ex, pool, first[j as int] as int));
        selected_ids.insert(questions[p].id);
        proof {
            assert forall|id: u32| #[trigger] selected_ids@.contains(id) <==> exists|a: int| 0 <= a < j + 1
                && qs[first[a] as int].id == id by {
                if exists|a: int| 0 <= a < j + 1 && qs[first[a] as int].id == id {
                    let a = choose|a: int| 0 <= a < j + 1 && qs[first[a] as int].id == id;
                    if a < j {
                        assert(exists|a: int| 0 <= a < j && qs[first[a] as int].id == id);
                    }
                }
                if exists|a: int| 0 <= a < j && qs[first[a] as int].id == id {
                    let a = choose|a: int| 0 <= a < j && qs[first[a] as int].id == id;
                    assert(0 <= a < j + 1);
                }
            }
        }
        j = j + 1;
    }
    // the other eligible questions
    let ghost rpred = remaining_pred(qs, ex, pool, first, kk);
    let mut remaining: Vec<usize> = Vec::new();
    let mut i: usize = 0;
    assert(positions_where(0, rpred) =~= Seq::<usize>::empty());
    while i < questions.len()
        invariant
            i <= questions.len(),
            qs == questions@,
            ex == excluded_question_ids@,
            kk == first.len(),
            rpred == remaining_pred(qs, ex, pool, first, kk),
            forall|id: u32| #[trigger] selected_ids@.contains(id) <==> exists|a: int| 0 <= a < kk && qs[first[a] as int].id == id,
            remaining@ == positions_where(i as int, rpred),
        decreases questions.len() - i,
    {
        proof {
            lemma_positions_push(i as int, rpred);
            assert(selected_ids@.contains(qs[i as int].id) <==> id_among(qs, first, kk, i as int));
        }
        let id = questions[i].id;
        if pool_contains(pool, id) && !selected_ids.contains(&id) && !excluded_question_ids.contains(&id) {
            remaining.push(i);
        }
        i = i + 1;
    }
    let ghost rest_unshuffled = remaining@;
    proof {
        lemma_positions_facts(qs.len() as int, rpred);
    }
    shuffle(&mut remaining, rng);
    proof {
        lemma_permutation(rest_unshuffled, remaining@);
    }
    let want = target_count - k;
    let mut t: usize = 0;
    while t < remaining.len() && t < want
        invariant
            t <= remaining.len(),
            t <= want,
            want == target_count - kk,
            kk == first.len(),
            selected@ == first + remaining@.take(t as int),
        decreases remaining.len() - t,
    {
        selected.push(remaining[t]);
        t = t + 1;
        assert(selected@ =~= first + remaining@.take(t as int));
    }
    proof {
        let sel = selected@;
        let rest = remaining@.take(t as int);
        assert(sel.len() == kk + t);
        assert forall|a: int| 0 <= a < kk implies sel[a] == first[a] by {}
        assert forall|a: int| kk <= a < sel.len() implies sel[a] == rest[a - kk] by {}
        // ids among the first k of `sel` are those of `first`
        assert forall|p: int| id_among(qs, sel, kk, p) <==> id_among(qs, first, kk, p) by {
            if id_among(qs, sel, kk, p) {
                let a = choose|a: int| 0 <= a < kk && qs[sel[a] as int].id == qs[p].id;
                assert(qs[first[a] as int].id == qs[p].id);
            }
            if id_among(qs, first, kk, p) {
                let a = choose|a: int| 0 <= a < kk && qs[first[a] as int].id == qs[p].id;
                assert(qs[sel[a] as int].id == qs[p].id);
            }
        }
        let rpred2 = remaining_pred(qs, ex, pool, sel, kk);
        assert(rpred2 =~= rpred);
        assert forall|a: int| 0 <= a < sel.len() implies eligible(qs, ex, pool, #[trigger] sel[a] as int) by {
            if a < kk {
                assert(prioritized_at(qs, pr, ex, pool, first[a] as int));
            } else {
                assert(remaining@.contains(rest[a - kk]));
                assert(rest_unshuffled.contains(rest[a - kk]));
                let b = choose|b: int| 0 <= b < rest_unshuffled.len() && rest_unshuffled[b] == rest[a - kk];
            }
        }
        assert forall|a: int| kk <= a < sel.len() implies !id_among(qs, sel, kk, #[trigger] sel[a] as int) by {
            assert(remaining@.contains(rest[a - kk]));
            assert(rest_unshuffled.contains(rest[a - kk]));
            let b = choose|b: int| 0 <= b < rest_unshuffled.len() && rest_unshuffled[b] == rest[a - kk];
        }
        assert(sel.no_duplicates()) by {
            assert forall|a: int, b: int| 0 <= a < sel.len() && 0 <= b < sel.len() && a != b implies sel[a]
                != sel[b] by {
                if a < kk && b < kk {
                    assert(prioritized_pool@[a] == first[a]);
                    assert(prioritized_pool@[b] == first[b]);
                } else if a >= kk && b >= kk {
                    assert(remaining@[a - kk] == sel[a]);
                    assert(remaining@[b - kk] == sel[b]);
                } else {
                    let (x, y) = if a < kk { (a, b) } else { (b, a) };
                    // sel[y] is not among the ids of the first k, sel[x] is
                    assert(!id_among(qs, sel, kk, sel[y] as int));
                    if sel[x] == sel[y] {
                        assert(qs[sel[x] as int].id == qs[sel[y] as int].id);
                    }
                }
            }
        }
    }
    selected
}

/// The payload shows the question: same id and texts, answers keyed in
/// order, without correctness flags.
pub open spec fn payload_shows(p: ExamQuestionPayload, q: Question) -> bool {
    &&& p.id == q.id
    &&& p.text_original@ == q.text_original@
    &&& p.text_translation@ == q.text_translation@
    &&& shows_answers(p.answers@, q.answers@)
}

/// The exam screen's form of a question, read from a borrowed question.
fn exam_payload_of(question: &Question) -> (r: ExamQuestionPayload)
    ensures
        payload_shows(r, *question),
{
    ExamQuestionPayload {
        id: question.id,
        text_original: question.text_original.clone(),
        text_translation: question.text_translation.clone(),
        answers: answer_options(&question.answers),
    }
}

/// Milliseconds since the Unix epoch of a point in time.
pub open spec fn stamp_millis(t: Timestamp) -> int {
    t.secs * 1000 + t.nanos / 1_000_000
}

/// The id of an exam started at `millis` with the random `suffix`:
/// `exam-<millis>-<suffix as 8 hex digits>`.
pub open spec fn exam_id_text(millis: int, suffix: u32) -> Seq<char> {
    "exam-"@ + int_text(millis) + "-"@ + hex_text(suffix as nat, 8)
}

/// The exam id is one that `create_exam` can produce.
pub open spec fn is_exam_id(id: Seq<char>) -> bool {
    exists|t: Timestamp, suffix: u32| t.secs >= 0 && t.nanos < 1_000_000_000 && id == #[trigger] exam_id_text(stamp_millis(t), suffix)
}

/// The positions form an exam: a selection of general questions and one of
/// Berlin-specific questions, mixed in some order.
pub open spec fn exam_drawn(
    questions: Seq<Question>,
    prioritized: Seq<u32>,
    excluded: Set<u32>,
    positions: Seq<usize>,
) -> bool {
    exists|general: Seq<usize>, berlin: Seq<usize>|
        #![trigger is_selection(questions, prioritized, excluded, QuestionPool::General, GENERAL_QUESTION_COUNT as int, PRIORITY_GENERAL_LIMIT as int, general), is_selection(questions, prioritized, excluded, QuestionPool::Berlin, BERLIN_QUESTION_COUNT as int, PRIORITY_BERLIN_LIMIT as int, berlin)]
        is_selection(questions, prioritized, excluded, QuestionPool::General, GENERAL_QUESTION_COUNT as int, PRIORITY_GENERAL_LIMIT as int, general)
        && is_selection(questions, prioritized, excluded, QuestionPool::Berlin, BERLIN_QUESTION_COUNT as int, PRIORITY_BERLIN_LIMIT as int, berlin)
        && positions.to_multiset() == (general + berlin).to_multiset()
}

/// The new exam record and the response that starts it agree with the
/// questions at `positions`.
pub open spec fn exam_matches(
    profile_id: Seq<char>,
    questions: Seq<Question>,
    dataset_correct_answers: usize,
    positions: Seq<usize>,
    record: ExamRecord,
    response: StartExamResponse,
) -> bool {
    &&& forall|i: int| 0 <= i < positions.len() ==> (#[trigger] positions[i]) < questions.len()
    &&& record.profile_id@ == profile_id
    &&& is_exam_id(record.exam_id@)
    &&& record.question_ids@.len() == positions.len()
    &&& forall|i: int| 0 <= i < positions.len() ==> #[trigger] record.question_ids@[i] == questions[positions[i] as int].id
    &&& record.submissions@.len() == 0
    &&& record.completed_at.is_none()
    &&& record.started_at.secs >= 0
    &&& record.started_at.nanos < 1_000_000_000
    &&& response.exam_id@ == record.exam_id@
    &&& response.profile_id@ == profile_id
    &&& response.total_questions == EXAM_QUESTION_COUNT
    &&& response.passing_score == PASSING_SCORE
    &&& response.dataset_correct_answers == dataset_correct_answers
    &&& response.total_dataset_questions == questions.len()
    &&& response.questions@.len() == positions.len()
    &&& forall|i: int| 0 <= i < positions.len() ==> payload_shows(#[trigger] response.questions@[i], questions[positions[i] as int])
}

/// Builds the exam id from the start time and a random suffix.
fn exam_id_from(t: &Timestamp, suffix: u32) -> (r: String)
    requires
        t.secs >= 0,
        t.nanos < 1_000_000_000,
    ensures
        r@ == exam_id_text(stamp_millis(*t), suffix),
{
    let millis: i128 = (t.secs as i128) * 1000 + ((t.nanos / 1_000_000) as i128);
    let mut r = owned("exam-");
    push_int(&mut r, millis);
    push_str(&mut r, "-");
    push_hex(&mut r, suffix, 8);
    r
}

/// Starts an exam: draws up to 30 general and 3 Berlin-specific questions
/// (frequently missed ones first, never held-back ones), mixes them, and
/// returns the stored record with the response for the exam screen.
pub fn create_exam(
    profile_id: String,
    questions: &[Question],
    prioritized_question_ids: &[u32],
    excluded_question_ids: &HashSet<u32>,
    dataset_correct_answers: usize,
) -> (r: (ExamRecord, StartExamResponse))
    ensures
        exists|positions: Seq<usize>|
            #![trigger exam_drawn(questions@, prioritized_question_ids@, excluded_question_ids@, positions)]
            exam_drawn(questions@, prioritized_question_ids@, excluded_question_ids@, positions)
            && exam_matches(profile_id@, questions@, dataset_correct_answers, positions, r.0, r.1),
{
    let mut rng = thread_rng();
    let general = select_questions_from_pool(
        questions,
        prioritized_question_ids,
        excluded_question_ids,
        GENERAL_QUESTION_COUNT,
        PRIORITY_GENERAL_LIMIT,
        QuestionPool::General,
        &mut rng,
    );
    let berlin = select_questions_from_pool(
        questions,
        prioritized_question_ids,
        excluded_question_ids,
        BERLIN_QUESTION_COUNT,
        PRIORITY_BERLIN_LIMIT,
        QuestionPool::Berlin,
        &mut rng,
    );
    let mut positions: Vec<usize> = Vec::new();
    let mut i: usize = 0;
    while i < general.len()
        invariant
            i <= general.len(),
            positions@ == general@.take(i as int),
        decreases general.len() - i,
    {
        positions.push(general[i]);
        i = i + 1;
        assert(positions@ =~= general@.take(i as int));
    }
    let mut j: usize = 0;
    while j < berlin.len()
        invariant
            j <= berlin.len(),
            positions@ == general@ + berlin@.take(j as int),
        decreases berlin.len() - j,
    {
        positions.push(berlin[j]);
        j = j + 1;
        assert(positions@ =~= general@ + berlin@.take(j as int));
    }
    assert(positions@ =~= general@ + berlin@);
    let ghost joined = positions@;
    shuffle(&mut positions, &mut rng);
    proof {
        lemma_permutation(joined, positions@);
        assert(exam_drawn(questions@, prioritized_question_ids@, excluded_question_ids@, positions@));
        assert forall|a: int| 0 <= a < positions@.len() implies (#[trigger] positions@[a]) < questions@.len() by {
            assert(joined.contains(positions@[a]));
            let b = choose|b: int| 0 <= b < joined.len() && joined[b] == positions@[a];
            if b < general@.len() {
                assert(general@[b] == joined[b]);
            } else {
                assert(berlin@[b - general@.len()] == joined[b]);
            }
        }
    }
    let started = now();
    let suffix = random_u32(&mut rng);
    let exam_id = exam_id_from(&started, suffix);
    let started_at = now();
    let mut question_ids: Vec<u32> = Vec::new();
    let mut payloads: Vec<ExamQuestionPayload> = Vec::new();
    let mut k: usize = 0;
    while k < positions.len()
        invariant
            k <= positions.len(),
            forall|a: int| 0 <= a < positions@.len() ==> (#[trigger] positions@[a]) < questions@.len(),
            question_ids@.len() == k,
            payloads@.len() == k,
            forall|a: int| 0 <= a < k ==> #[trigger] question_ids@[a] == questions@[positions@[a] as int].id,
            forall|a: int| 0 <= a < k ==> payload_shows(#[trigger] payloads@[a], questions@[positions@[a] as int]),
        decreases positions.len() - k,
    {
        let p = positions[k];
        assert(positions@[k as int] < questions@.len());
        question_ids.push(questions[p].id);
        payloads.push(exam_payload_of(&questions[p]));
        k = k + 1;
    }
    let record = ExamRecord {
        exam_id: exam_id.clone(),
        profile_id: profile_id.clone(),
        question_ids,
        submissions: Vec::new(),
        started_at,
        completed_at: None,
    };
    let response = StartExamResponse {
        exam_id,
        profile_id,
        total_questions: EXAM_QUESTION_COUNT,
        passing_score: PASSING_SCORE,
        dataset_correct_answers,
        total_dataset_questions: questions.len(),
        questions: payloads,
    };
    proof {
        assert(is_exam_id(record.exam_id@)) by {
            assert(record.exam_id@ == exam_id_text(stamp_millis(started), suffix));
        }
        assert(exam_matches(profile_id@, questions@, dataset_correct_answers, positions@, record, response));
    }
    (record, response)
}

} // verus!
