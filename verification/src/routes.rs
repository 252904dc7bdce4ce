//! The decisions the web service makes for each request: which profile a
//! request belongs to, who may see an exam, what an answer is worth, and what
//! each response holds. Reading and writing files, the tutor's replies and
//! the HTTP plumbing stay with the caller.

use vstd::prelude::*;

use crate::chance::{random_u32, thread_rng};
use crate::clock::now;
use crate::memory::{
    advance_question_cooldowns, advanced, cooldown_question_ids, dataset_correct_answers, off_cooldown, on_cooldown,
    prioritized_question_ids, record_completed_session, session_entries, RECENT_SESSION_LIMIT,
};
use crate::models::{
    AiHintResponse, ExamRecord, ExamResultResponse, LearnerMemory, ProfileReviewResponse, Question, RecentSession,
    ReviewResponse, StartExamResponse, SubmitAnswerResponse, SubmittedAnswer,
};
use crate::order::{id_ranking, is_stable_newest_first, prefix, sorted_by, sorted_distinct, sorted_texts, text_order, views_of};
use crate::quiz::{
    answer_index, correct_answer, create_exam, describes_all, exam_drawn, exam_matches, first_correct,
    has_correct_answer, id_entries, key_text, latest_review, review_items, review_items_for_records,
    review_items_split, reviewable, time_entries, typed_key_index, upserted, upsert_submission, fits_review, is_latest, sub_at,
    PASSING_SCORE,
};
use crate::text::{chars_of, hex_text, int_text, is_ascii_alnum, is_ascii_alnum_char, owned, push_char, push_hex, push_int, push_str, str_eq};

verus! {

// ---------------------------------------------------------------------------
// Errors
// ---------------------------------------------------------------------------

/// The kind of a refused request, as an HTTP status.
#[derive(Clone, Copy, Debug, PartialEq, Eq)]
pub enum ApiStatus {
    BadRequest,
    Forbidden,
    NotFound,
    Internal,
}

/// The HTTP status code of each kind.
pub open spec fn status_code(s: ApiStatus) -> u16 {
    match s {
        ApiStatus::BadRequest => 400,
        ApiStatus::Forbidden => 403,
        ApiStatus::NotFound => 404,
        ApiStatus::Internal => 500,
    }
}

impl ApiStatus {
    pub fn code(&self) -> (r: u16)
        ensures
            r == status_code(*self),
    {
        match self {
            ApiStatus::BadRequest => 400,
            ApiStatus::Forbidden => 403,
            ApiStatus::NotFound => 404,
            ApiStatus::Internal => 500,
        }
    }
}

/// A refused request: its status and the message sent back as
/// `{"error": message}`.
#[derive(Debug)]
pub struct ApiError {
    pub status: ApiStatus,
    pub message: String,
}

impl ApiError {
    /// A failure of the service itself (storage), with the failure's text.
    pub fn internal(message: String) -> (e: ApiError)
        ensures
            e.status == ApiStatus::Internal,
            e.message@ == message@,
    {
        ApiError { status: ApiStatus::Internal, message }
    }

    pub fn bad_request(message: &str) -> (e: ApiError)
        ensures
            e.status == ApiStatus::BadRequest,
            e.message@ == message@,
    {
        ApiError { status: ApiStatus::BadRequest, message: owned(message) }
    }

    pub fn forbidden(message: &str) -> (e: ApiError)
        ensures
            e.status == ApiStatus::Forbidden,
            e.message@ == message@,
    {
        ApiError { status: ApiStatus::Forbidden, message: owned(message) }
    }

    pub fn not_found(message: &str) -> (e: ApiError)
        ensures
            e.status == ApiStatus::NotFound,
            e.message@ == message@,
    {
        ApiError { status: ApiStatus::NotFound, message: owned(message) }
    }
}

/// The error is of the given kind with the given message.
pub open spec fn is_error(e: ApiError, status: ApiStatus, message: Seq<char>) -> bool {
    e.status == status && e.message@ == message
}

// ---------------------------------------------------------------------------
// Profile ids
// ---------------------------------------------------------------------------

/// The longest profile id kept.
pub const PROFILE_ID_MAX_CHARS: usize = 64;

/// Characters a profile id may hold: ASCII letters, digits, `-` and `_`.
pub open spec fn is_profile_char(c: char) -> bool {
    is_ascii_alnum_char(c) || c == '-' || c == '_'
}

/// The profile id made of a requested one: its allowed characters, in
/// order, at most 64 of them.
pub open spec fn sanitized(s: Seq<char>) -> Seq<char> {
    prefix(s.filter(|c: char| is_profile_char(c)), PROFILE_ID_MAX_CHARS as int)
}

proof fn lemma_sanitized_step(s: Seq<char>, c: char)
    ensures
        sanitized(s.push(c)) == if is_profile_char(c) && s.filter(|c: char| is_profile_char(c)).len()
            < PROFILE_ID_MAX_CHARS {
            sanitized(s).push(c)
        } else {
            sanitized(s)
        },
{
    let f = |c: char| is_profile_char(c);
    s.lemma_filter_push(c, f);
    let kept = s.filter(f);
    if is_profile_char(c) {
        if kept.len() < PROFILE_ID_MAX_CHARS {
            assert(sanitized(s) == kept);
            assert(sanitized(s.push(c)) == kept.push(c));
        } else {
            assert(kept.push(c).take(PROFILE_ID_MAX_CHARS as int) =~= kept.take(PROFILE_ID_MAX_CHARS as int));
        }
    }
}

/// Keeps the allowed characters of a requested profile id (ASCII letters,
/// digits, `-`, `_`), the first 64 of them.
pub fn sanitize_profile_id(input: &str) -> (r: String)
    ensures
        r@ == sanitized(input@),
{
    let chars = chars_of(input);
    let mut r = String::new();
    let mut kept: usize = 0;
    let mut i: usize = 0;
    assert(input@.take(0) =~= Seq::<char>::empty());
    assert(Seq::<char>::empty().filter(|c: char| is_profile_char(c)) =~= Seq::<char>::empty());
    while i < chars.len()
        invariant
            i <= chars.len(),
            chars@ == input@,
            r@ == sanitized(input@.take(i as int)),
            kept as int == min_len(input@.take(i as int).filter(|c: char| is_profile_char(c)).len() as int),
        decreases chars.len() - i,
    {
        let c = chars[i];
        proof {
            assert(input@.take(i + 1) =~= input@.take(i as int).push(c));
            lemma_sanitized_step(input@.take(i as int), c);
            input@.take(i as int).lemma_filter_push(c, |c: char| is_profile_char(c));
        }
        if (is_ascii_alnum(c) || c == '-' || c == '_') && kept < PROFILE_ID_MAX_CHARS {
            push_char(&mut r, c);
            kept = kept + 1;
        }
        i = i + 1;
    }
    assert(input@.take(chars.len() as int) =~= input@);
    r
}

/// A count capped at the longest profile id.
pub open spec fn min_len(n: int) -> int {
    if n < PROFILE_ID_MAX_CHARS {
        n
    } else {
        PROFILE_ID_MAX_CHARS as int
    }
}

/// Milliseconds since the Unix epoch of a clock reading.
pub open spec fn reading_millis(secs: i64, nanos: u32) -> int {
    secs * 1000 + nanos / 1_000_000
}

/// A generated profile id: `profile-<millis>-<suffix as 8 hex digits>`.
pub open spec fn profile_id_text(millis: int, suffix: u32) -> Seq<char> {
    "profile-"@ + int_text(millis) + "-"@ + hex_text(suffix as nat, 8)
}

/// The id is one `generate_profile_id` can produce: made at a time after the
/// Unix epoch, with some random suffix.
pub open spec fn is_generated_profile_id(id: Seq<char>) -> bool {
    exists|secs: i64, nanos: u32, suffix: u32|
        secs >= 0 && nanos < 1_000_000_000 && id == #[trigger] profile_id_text(reading_millis(secs, nanos), suffix)
}

/// A fresh profile id from the current time and a random number.
pub fn generate_profile_id() -> (r: String)
    ensures
        is_generated_profile_id(r@),
{
    let t = now();
    let mut rng = thread_rng();
    let suffix = random_u32(&mut rng);
    let millis: i128 = (t.secs as i128) * 1000 + ((t.nanos / 1_000_000) as i128);
    let mut r = owned("profile-");
    push_int(&mut r, millis);
    push_str(&mut r, "-");
    push_hex(&mut r, suffix, 8);
    assert(r@ == profile_id_text(reading_millis(t.secs, t.nanos), suffix));
    r
}

/// The profile a request names, or a fresh one: the requested id sanitized,
/// unless that leaves nothing.
pub fn resolve_profile_id(requested: Option<&str>) -> (r: String)
    ensures
        match requested {
            Some(v) => sanitized(v@).len() > 0 ==> r@ == sanitized(v@),
            None => true,
        },
        (requested is None || sanitized(requested->0@).len() == 0) ==> is_generated_profile_id(r@),
{
    if let Some(v) = requested {
        let s = sanitize_profile_id(v);
        if !s.as_str().is_empty() {
            return s;
        }
    }
    generate_profile_id()
}

/// The profile a viewer names, sanitized, or the empty id when none is named.
pub fn viewer_profile_id(requested: Option<&str>) -> (r: String)
    ensures
        r@ == match requested {
            Some(v) => sanitized(v@),
            None => Seq::<char>::empty(),
        },
{
    match requested {
        Some(v) => sanitize_profile_id(v),
        None => String::new(),
    }
}

/// The profile a review of all exams is for; one must be named, and must
/// keep some character after sanitizing.
pub fn require_profile_id(requested: Option<&str>) -> (r: Result<String, ApiError>)
    ensures
        match r {
            Ok(id) => requested is Some && id@ == sanitized(requested->0@) && id@.len() > 0,
            Err(e) => (requested is None || sanitized(requested->0@).len() == 0) && is_error(
                e,
                ApiStatus::BadRequest,
                "profile_id is required"@,
            ),
        },
        (requested is Some && sanitized(requested->0@).len() > 0) ==> r is Ok,
{
    if let Some(v) = requested {
        let s = sanitize_profile_id(v);
        if !s.as_str().is_empty() {
            return Ok(s);
        }
    }
    Err(ApiError::bad_request("profile_id is required"))
}

// ---------------------------------------------------------------------------
// Access checks
// ---------------------------------------------------------------------------

/// `k` is the first question with this id (the one a search finds).
pub open spec fn first_with_id(questions: Seq<Question>, id: u32, k: int) -> bool {
    &&& 0 <= k < questions.len()
    &&& questions[k].id == id
    &&& forall|j: int| 0 <= j < k ==> (#[trigger] questions[j]).id != id
}

/// Some question has this id.
pub open spec fn has_id(questions: Seq<Question>, id: u32) -> bool {
    exists|k: int| 0 <= k < questions.len() && #[trigger] questions[k].id == id
}

/// The position of the first question with this id.
fn position_of_question(questions: &[Question], question_id: u32) -> (r: Option<usize>)
    ensures
        match r {
            Some(k) => first_with_id(questions@, question_id, k as int),
            None => !has_id(questions@, question_id),
        },
{
    let mut i: usize = 0;
    while i < questions.len()
        invariant
            i <= questions.len(),
            forall|j: int| 0 <= j < i ==> (#[trigger] questions@[j]).id != question_id,
        decreases questions.len() - i,
    {
        if questions[i].id == question_id {
            return Some(i);
        }
        i = i + 1;
    }
    None
}

/// The first question with this id, or "question not found".
pub fn question_by_id(questions: &[Question], question_id: u32) -> (r: Result<&Question, ApiError>)
    ensures
        match r {
            Ok(q) => exists|k: int| #[trigger] first_with_id(questions@, question_id, k) && *q == questions@[k],
            Err(e) => !has_id(questions@, question_id) && is_error(e, ApiStatus::NotFound, "question not found"@),
        },
        has_id(questions@, question_id) ==> r is Ok,
{
    match position_of_question(questions, question_id) {
        Some(k) => Ok(&questions[k]),
        None => Err(ApiError::not_found("question not found")),
    }
}

/// Only the profile that started an exam may use it.
pub fn ensure_exam_access(record: &ExamRecord, profile_id: &str) -> (r: Result<(), ApiError>)
    ensures
        r is Ok <==> record.profile_id@ == profile_id@,
        r matches Err(e) ==> is_error(e, ApiStatus::Forbidden, "profile id does not match exam"@),
{
    if str_eq(record.profile_id.as_str(), profile_id) {
        Ok(())
    } else {
        Err(ApiError::forbidden("profile id does not match exam"))
    }
}

fn contains_id(ids: &Vec<u32>, id: u32) -> (r: bool)
    ensures
        r == ids@.contains(id),
{
    let mut i: usize = 0;
    while i < ids.len()
        invariant
            i <= ids.len(),
            forall|j: int| 0 <= j < i ==> ids@[j] != id,
        decreases ids.len() - i,
    {
        if ids[i] == id {
            return true;
        }
        i = i + 1;
    }
    false
}

/// Only questions of the exam may be asked about or answered.
pub fn ensure_question_in_exam(record: &ExamRecord, question_id: u32) -> (r: Result<(), ApiError>)
    ensures
        r is Ok <==> record.question_ids@.contains(question_id),
        r matches Err(e) ==> is_error(e, ApiStatus::BadRequest, "question is not part of this exam"@),
{
    if contains_id(&record.question_ids, question_id) {
        Ok(())
    } else {
        Err(ApiError::bad_request("question is not part of this exam"))
    }
}

/// Why a question of an exam may not be looked at, if it may not: the
/// profile does not own the exam, or the question is not in it, or no
/// question has that id.
pub open spec fn question_refusal(
    record: ExamRecord,
    profile_id: Seq<char>,
    question_id: u32,
    questions: Seq<Question>,
) -> Option<(ApiStatus, Seq<char>)> {
    if record.profile_id@ != profile_id {
        Some((ApiStatus::Forbidden, "profile id does not match exam"@))
    } else if !record.question_ids@.contains(question_id) {
        Some((ApiStatus::BadRequest, "question is not part of this exam"@))
    } else if !has_id(questions, question_id) {
        Some((ApiStatus::NotFound, "question not found"@))
    } else {
        None
    }
}

/// The checks before a hint or a translation: the exam is the profile's,
/// the question is in it and exists. Gives the question's position.
pub fn locate_question(record: &ExamRecord, profile_id: &str, question_id: u32, questions: &[Question]) -> (r: Result<
    usize,
    ApiError,
>)
    ensures
        r is Err <==> question_refusal(*record, profile_id@, question_id, questions@) is Some,
        match r {
            Ok(k) => first_with_id(questions@, question_id, k as int),
            Err(e) => question_refusal(*record, profile_id@, question_id, questions@) == Some((e.status, e.message@)),
        },
{
    ensure_exam_access(record, profile_id)?;
    ensure_question_in_exam(record, question_id)?;
    match position_of_question(questions, question_id) {
        Some(k) => Ok(k),
        None => Err(ApiError::not_found("question not found")),
    }
}

/// What an answer is worth, as decided before anything is stored.
#[derive(Debug)]
pub struct AnswerCheck {
    /// Position of the answered question in the dataset.
    pub question_index: usize,
    pub selected_index: usize,
    pub correct_index: usize,
    pub correct_key: String,
    pub is_correct: bool,
}

/// Why an answer is refused, if it is: as for a hint, and besides a
/// selected key that is not A, B, C or D (checked before the question is
/// looked up).
pub open spec fn answer_refusal(
    record: ExamRecord,
    profile_id: Seq<char>,
    question_id: u32,
    selected_key: Seq<char>,
    questions: Seq<Question>,
) -> Option<(ApiStatus, Seq<char>)> {
    if record.profile_id@ != profile_id {
        Some((ApiStatus::Forbidden, "profile id does not match exam"@))
    } else if !record.question_ids@.contains(question_id) {
        Some((ApiStatus::BadRequest, "question is not part of this exam"@))
    } else if typed_key_index(selected_key) is None {
        Some((ApiStatus::BadRequest, "selected_key must be A, B, C, or D"@))
    } else if !has_id(questions, question_id) {
        Some((ApiStatus::NotFound, "question not found"@))
    } else {
        None
    }
}

/// Grades an answer: checks the request as `answer_refusal` says, then
/// compares the selected answer with the question's first correct one.
pub fn check_answer(
    record: &ExamRecord,
    profile_id: &str,
    question_id: u32,
    selected_key: &str,
    questions: &[Question],
) -> (r: Result<AnswerCheck, ApiError>)
    requires
        answer_refusal(*record, profile_id@, question_id, selected_key@, questions@) is None ==> forall|k: int|
            #[trigger] first_with_id(questions@, question_id, k) ==> has_correct_answer(questions@[k]),
    ensures
        r is Err <==> answer_refusal(*record, profile_id@, question_id, selected_key@, questions@) is Some,
        match r {
            Ok(c) => {
                &&& first_with_id(questions@, question_id, c.question_index as int)
                &&& typed_key_index(selected_key@) == Some(c.selected_index)
                &&& first_correct(questions@[c.question_index as int].answers@, c.correct_index as int)
                &&& c.correct_key@ == key_text(c.correct_index as int)
                &&& c.is_correct == (c.selected_index == c.correct_index)
            },
            Err(e) => answer_refusal(*record, profile_id@, question_id, selected_key@, questions@) == Some(
                (e.status, e.message@),
            ),
        },
{
    ensure_exam_access(record, profile_id)?;
    ensure_question_in_exam(record, question_id)?;
    let selected_index = match answer_index(selected_key) {
        Some(i) => i,
        None => {
            return Err(ApiError::bad_request("selected_key must be A, B, C, or D"));
        },
    };
    let question_index = match position_of_question(questions, question_id) {
        Some(k) => k,
        None => {
            return Err(ApiError::not_found("question not found"));
        },
    };
    assert(first_with_id(questions@, question_id, question_index as int));
    let (correct_index, correct_key) = correct_answer(&questions[question_index]);
    Ok(AnswerCheck {
        question_index,
        selected_index,
        correct_index,
        correct_key,
        is_correct: selected_index == correct_index,
    })
}

/// The answer as stored in the exam, stamped with the current time.
pub fn new_submission(
    question_id: u32,
    selected_key: String,
    correct_key: String,
    is_correct: bool,
    feedback: Option<AiHintResponse>,
    ai_error: Option<String>,
) -> (r: SubmittedAnswer)
    ensures
        r.question_id == question_id,
        r.selected_key == selected_key,
        r.correct_key == correct_key,
        r.is_correct == is_correct,
        r.feedback == feedback,
        r.ai_error == ai_error,
        r.submitted_at.secs >= 0,
        r.submitted_at.nanos < 1_000_000_000,
{
    SubmittedAnswer { question_id, selected_key, correct_key, is_correct, feedback, ai_error, submitted_at: now() }
}

/// The number of correct answers.
pub open spec fn correct_submissions(subs: Seq<SubmittedAnswer>) -> nat {
    subs.filter(|s: SubmittedAnswer| s.is_correct).len()
}

/// Counts the correct answers of an exam.
pub fn score_of(submissions: &Vec<SubmittedAnswer>) -> (n: usize)
    ensures
        n == correct_submissions(submissions@),
{
    let ghost f = |s: SubmittedAnswer| s.is_correct;
    let mut n: usize = 0;
    let mut i: usize = 0;
    assert(submissions@.take(0) =~= Seq::<SubmittedAnswer>::empty());
    assert(Seq::<SubmittedAnswer>::empty().filter(f) =~= Seq::<SubmittedAnswer>::empty());
    while i < submissions.len()
        invariant
            i <= submissions.len(),
            f == (|s: SubmittedAnswer| s.is_correct),
            n == submissions@.take(i as int).filter(f).len(),
            n <= i,
        decreases submissions.len() - i,
    {
        proof {
            assert(submissions@.take(i + 1) =~= submissions@.take(i as int).push(submissions@[i as int]));
            submissions@.take(i as int).lemma_filter_push(submissions@[i as int], f);
        }
        if submissions[i].is_correct {
            n = n + 1;
        }
        i = i + 1;
    }
    assert(submissions@.take(submissions.len() as int) =~= submissions@);
    n
}

/// The session a just-completed exam leaves in the learner's memory.
pub open spec fn session_of(record: ExamRecord) -> RecentSession {
    RecentSession {
        exam_id: record.exam_id,
        score: correct_submissions(record.submissions@) as usize,
        total_questions: record.question_ids@.len() as usize,
        completed_at: record.completed_at->0,
    }
}

/// Stores an answer in its exam; when that completes the exam, the exam is
/// remembered as a finished session of the learner.
pub fn finish_submission(record: &mut ExamRecord, memory: &mut LearnerMemory, submission: SubmittedAnswer)
    ensures
        final(record).submissions@ == upserted(old(record).submissions@, submission),
        final(record).submissions@.len() == old(record).question_ids@.len() ==> final(record).completed_at is Some,
        final(record).submissions@.len() != old(record).question_ids@.len() ==> final(record).completed_at == old(
            record,
        ).completed_at,
        final(record).exam_id == old(record).exam_id,
        final(record).profile_id == old(record).profile_id,
        final(record).question_ids == old(record).question_ids,
        final(record).started_at == old(record).started_at,
        old(record).completed_at is None && final(record).completed_at is Some ==> {
            &&& exists|sorted: Seq<RecentSession>|
                is_stable_newest_first(
                    session_entries(old(memory).recent_sessions@.push(session_of(*final(record)))),
                    session_entries(sorted),
                ) && final(memory).recent_sessions@ == prefix(sorted, RECENT_SESSION_LIMIT as int)
            &&& final(memory).profile_id == old(memory).profile_id
            &&& final(memory).correctly_answered_question_ids == old(memory).correctly_answered_question_ids
            &&& final(memory).frequently_wrong_question_ids == old(memory).frequently_wrong_question_ids
            &&& final(memory).concept_confusions == old(memory).concept_confusions
            &&& final(memory).vocabulary_weaknesses == old(memory).vocabulary_weaknesses
            &&& final(memory).recovery_streaks == old(memory).recovery_streaks
            &&& final(memory).question_cooldowns == old(memory).question_cooldowns
        },
        !(old(record).completed_at is None && final(record).completed_at is Some) ==> *final(memory) == *old(memory),
{
    let was_complete = record.completed_at.is_some();
    upsert_submission(record, submission);
    if !was_complete {
        if let Some(completed_at) = record.completed_at {
            let session = RecentSession {
                exam_id: record.exam_id.clone(),
                score: score_of(&record.submissions),
                total_questions: record.question_ids.len(),
                completed_at,
            };
            assert(session == session_of(*record));
            record_completed_session(memory, session);
        }
    }
}

/// The reply to an answer.
pub fn answer_response(
    record: &ExamRecord,
    question: &Question,
    check: &AnswerCheck,
    question_id: u32,
    selected_key: String,
    feedback: Option<AiHintResponse>,
    feedback_source: Option<String>,
    ai_error: Option<String>,
    dataset_correct_answers: usize,
    total_dataset_questions: usize,
) -> (r: SubmitAnswerResponse)
    requires
        check.correct_index < question.answers@.len(),
    ensures
        r.exam_id == record.exam_id,
        r.question_id == question_id,
        r.selected_key == selected_key,
        r.correct_key == check.correct_key,
        r.is_correct == check.is_correct,
        r.correct_answer_text_original == question.answers@[check.correct_index as int].answer_text_original,
        r.feedback == feedback,
        r.feedback_source == feedback_source,
        r.ai_error == ai_error,
        r.score == correct_submissions(record.submissions@),
        r.answered_count == record.submissions@.len(),
        r.total_questions == record.question_ids@.len(),
        r.dataset_correct_answers == dataset_correct_answers,
        r.total_dataset_questions == total_dataset_questions,
        r.is_exam_complete == record.completed_at is Some,
{
    SubmitAnswerResponse {
        exam_id: record.exam_id.clone(),
        question_id,
        selected_key,
        correct_key: check.correct_key.clone(),
        is_correct: check.is_correct,
        correct_answer_text_original: question.answers[check.correct_index].answer_text_original.clone(),
        feedback,
        feedback_source,
        ai_error,
        score: score_of(&record.submissions),
        answered_count: record.submissions.len(),
        total_questions: record.question_ids.len(),
        dataset_correct_answers,
        total_dataset_questions,
        is_exam_complete: record.completed_at.is_some(),
    }
}

// ---------------------------------------------------------------------------
// Results and reviews
// ---------------------------------------------------------------------------

/// An exam is passed with at least 17 correct answers.
pub open spec fn passes(score: int) -> bool {
    score >= PASSING_SCORE
}

/// The result of an exam: score, pass or fail, and the incorrectly answered
/// questions for review.
pub fn exam_result(
    record: &ExamRecord,
    questions: &[Question],
    dataset_correct_answers: usize,
    total_dataset_questions: usize,
) -> (r: ExamResultResponse)
    requires
        forall|r: int, k: int| #[trigger]
            is_latest(seq![*record], false, r, k) ==> fits_review(questions@, sub_at(seq![*record], r, k)),
    ensures
        r.exam_id == record.exam_id,
        r.profile_id == record.profile_id,
        r.score == correct_submissions(record.submissions@),
        r.total_questions == record.question_ids@.len(),
        r.passing_score == PASSING_SCORE,
        r.passed == passes(r.score as int),
        r.answered_count == record.submissions@.len(),
        r.dataset_correct_answers == dataset_correct_answers,
        r.total_dataset_questions == total_dataset_questions,
        exists|e: Seq<crate::models::ReviewItem>|
            latest_review(e, seq![*record], questions@, false) && is_stable_newest_first(
                time_entries(e),
                time_entries(r.incorrect_questions@),
            ),
{
    let score = score_of(&record.submissions);
    ExamResultResponse {
        exam_id: record.exam_id.clone(),
        profile_id: record.profile_id.clone(),
        score,
        total_questions: record.question_ids.len(),
        passing_score: PASSING_SCORE,
        passed: score >= PASSING_SCORE,
        answered_count: record.submissions.len(),
        dataset_correct_answers,
        total_dataset_questions,
        incorrect_questions: review_items(record, questions, false),
    }
}

/// The review of one exam: its correctly and its incorrectly answered
/// questions.
pub fn exam_review(record: &ExamRecord, questions: &[Question]) -> (r: ReviewResponse)
    requires
        forall|k: int| 0 <= k < record.submissions@.len() ==> fits_review(questions@, #[trigger] record.submissions@[k]),
    ensures
        r.exam_id == record.exam_id,
        r.profile_id == record.profile_id,
        exists|e: Seq<crate::models::ReviewItem>|
            describes_all(e, reviewable(record.submissions@, questions@, true), questions@)
                && is_stable_newest_first(id_entries(e), id_entries(r.correct_questions@)),
        exists|e: Seq<crate::models::ReviewItem>|
            describes_all(e, reviewable(record.submissions@, questions@, false), questions@)
                && is_stable_newest_first(id_entries(e), id_entries(r.incorrect_questions@)),
{
    let (correct_questions, incorrect_questions) = review_items_split(record, questions);
    ReviewResponse {
        exam_id: record.exam_id.clone(),
        profile_id: record.profile_id.clone(),
        correct_questions,
        incorrect_questions,
    }
}

/// The review across all exams of a profile: for each question, its latest
/// answer, split into correct and incorrect.
pub fn profile_review(profile_id: String, records: &[ExamRecord], questions: &[Question]) -> (r: ProfileReviewResponse)
    requires
        forall|r: int, k: int| #[trigger]
            is_latest(records@, true, r, k) ==> fits_review(questions@, sub_at(records@, r, k)),
        forall|r: int, k: int| #[trigger]
            is_latest(records@, false, r, k) ==> fits_review(questions@, sub_at(records@, r, k)),
    ensures
        r.profile_id == profile_id,
        exists|e: Seq<crate::models::ReviewItem>|
            latest_review(e, records@, questions@, true) && is_stable_newest_first(
                time_entries(e),
                time_entries(r.correct_questions@),
            ),
        exists|e: Seq<crate::models::ReviewItem>|
            latest_review(e, records@, questions@, false) && is_stable_newest_first(
                time_entries(e),
                time_entries(r.incorrect_questions@),
            ),
{
    ProfileReviewResponse {
        profile_id,
        correct_questions: review_items_for_records(records, questions, true),
        incorrect_questions: review_items_for_records(records, questions, false),
    }
}

// ---------------------------------------------------------------------------
// Starting an exam
// ---------------------------------------------------------------------------

/// The questions to draw first: the learner's most often missed ones, at
/// most `limit`, leaving out those held back.
pub open spec fn priority_order(memory: LearnerMemory, limit: int) -> Seq<u32> {
    prefix(id_ranking(memory.frequently_wrong_question_ids@), limit).filter(off_cooldown(memory.question_cooldowns@))
}

/// The questions held back from exams.
pub open spec fn held_back(cooldowns: Map<u32, u32>) -> Set<u32> {
    Set::new(|q: u32| on_cooldown(cooldowns, q))
}

/// Starts an exam for a learner: the learner's most missed questions that
/// are not held back are drawn first, held-back questions are left out,
/// and every hold-back then counts down by one exam.
pub fn begin_exam(profile_id: String, memory: &mut LearnerMemory, questions: &[Question]) -> (r: (
    ExamRecord,
    StartExamResponse,
))
    ensures
        exists|positions: Seq<usize>|
            #![trigger exam_drawn(questions@, priority_order(*old(memory), questions@.len() as int), held_back(old(memory).question_cooldowns@), positions)]
            exam_drawn(
                questions@,
                priority_order(*old(memory), questions@.len() as int),
                held_back(old(memory).question_cooldowns@),
                positions,
            ) && exam_matches(
                profile_id@,
                questions@,
                old(memory).correctly_answered_question_ids@.len() as usize,
                positions,
                r.0,
                r.1,
            ),
        final(memory).question_cooldowns@ == advanced(old(memory).question_cooldowns@),
        final(memory).profile_id == old(memory).profile_id,
        final(memory).correctly_answered_question_ids == old(memory).correctly_answered_question_ids,
        final(memory).frequently_wrong_question_ids == old(memory).frequently_wrong_question_ids,
        final(memory).concept_confusions == old(memory).concept_confusions,
        final(memory).vocabulary_weaknesses == old(memory).vocabulary_weaknesses,
        final(memory).recovery_streaks == old(memory).recovery_streaks,
        final(memory).recent_sessions == old(memory).recent_sessions,
{
    let prioritized = prioritized_question_ids(memory, questions.len());
    let excluded = cooldown_question_ids(memory);
    let correct_so_far = dataset_correct_answers(memory);
    let ghost pid = profile_id@;
    let r = create_exam(profile_id, questions, prioritized.as_slice(), &excluded, correct_so_far);
    proof {
        let order = priority_order(*old(memory), questions@.len() as int);
        let held = held_back(old(memory).question_cooldowns@);
        assert(prioritized@ == order);
        assert(excluded@ =~= held);
        let positions = choose|positions: Seq<usize>|
            exam_drawn(questions@, prioritized@, excluded@, positions) && exam_matches(
                pid,
                questions@,
                correct_so_far,
                positions,
                r.0,
                r.1,
            );
        assert(exam_drawn(questions@, order, held, positions));
    }
    advance_question_cooldowns(memory);
    r
}

// ---------------------------------------------------------------------------
// Stored exams
// ---------------------------------------------------------------------------

/// A file name whose extension is `json`, as `Path::extension` reads it: the
/// text after the last dot, where that dot is not the name's first
/// character.
pub open spec fn has_json_extension(name: Seq<char>) -> bool {
    name.len() > 5 && name.subrange(name.len() - 5, name.len() as int) == ".json"@
}

pub fn is_json_file(name: &str) -> (r: bool)
    ensures
        r == has_json_extension(name@),
{
    let chars = chars_of(name);
    let n = chars.len();
    if n <= 5 {
        return false;
    }
    let suffix = chars[n - 5] == '.' && chars[n - 4] == 'j' && chars[n - 3] == 's' && chars[n - 2] == 'o' && chars[n
        - 1] == 'n';
    proof {
        reveal_strlit(".json");
        let tail = name@.subrange(n - 5, n as int);
        if suffix {
            assert(tail =~= ".json"@);
        } else {
            if tail == ".json"@ {
                assert(tail[0] == '.' && tail[1] == 'j' && tail[2] == 's' && tail[3] == 'o' && tail[4] == 'n');
            }
        }
    }
    suffix
}

/// The stored exams that belong to a profile, in the order given.
pub fn exams_of_profile(records: Vec<ExamRecord>, profile_id: &str) -> (r: Vec<ExamRecord>)
    ensures
        r@ == records@.filter(|x: ExamRecord| x.profile_id@ == profile_id@),
{
    let ghost f = |x: ExamRecord| x.profile_id@ == profile_id@;
    let ghost all = records@;
    let mut rest = records;
    let mut r: Vec<ExamRecord> = Vec::new();
    let mut i: usize = 0;
    assert(all.take(0) =~= Seq::<ExamRecord>::empty());
    assert(Seq::<ExamRecord>::empty().filter(f) =~= Seq::<ExamRecord>::empty());
    assert(all.len() == rest.len());
    while rest.len() > 0
        invariant
            all.len() == i + rest.len(),
            all.len() <= usize::MAX,
            rest@ == all.skip(i as int),
            f == (|x: ExamRecord| x.profile_id@ == profile_id@),
            r@ == all.take(i as int).filter(f),
        decreases rest.len(),
    {
        let x = rest.remove(0);
        proof {
            assert(x == all[i as int]);
            assert(all.take(i + 1) =~= all.take(i as int).push(x));
            all.take(i as int).lemma_filter_push(x, f);
        }
        if str_eq(x.profile_id.as_str(), profile_id) {
            r.push(x);
        }
        i = i + 1;
        assert(rest@ =~= all.skip(i as int));
    }
    assert(all.take(i as int) =~= all);
    r
}

/// The profile ids of some exams.
pub open spec fn profile_ids(records: Seq<ExamRecord>) -> Seq<Seq<char>> {
    records.map_values(|r: ExamRecord| r.profile_id@)
}

/// The profiles that have stored exams, each once, in ascending order.
pub fn profiles_of(records: &Vec<ExamRecord>) -> (r: Vec<String>)
    ensures
        views_of(r@) == sorted_texts(profile_ids(records@).to_set()),
        sorted_by(views_of(r@), text_order()),
{
    let mut ids: Vec<String> = Vec::new();
    let mut i: usize = 0;
    while i < records.len()
        invariant
            i <= records.len(),
            views_of(ids@) == profile_ids(records@.take(i as int)),
        decreases records.len() - i,
    {
        let ghost before = views_of(ids@);
        ids.push(records[i].profile_id.clone());
        proof {
            assert(profile_ids(records@.take(i + 1)) =~= profile_ids(records@.take(i as int)).push(records@[i as int].profile_id@));
            assert(views_of(ids@) =~= before.push(records@[i as int].profile_id@));
        }
        i = i + 1;
    }
    assert(records@.take(records.len() as int) =~= records@);
    sorted_distinct(ids)
}

} // verus!
