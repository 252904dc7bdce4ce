//! The data of the exam: the question dataset, exam records, learner memory,
//! and the request and response bodies of the service.

use std::collections::HashMap;

use vstd::prelude::*;

use crate::counts::TextCounts;

verus! {

/// A point in time: whole seconds since the Unix epoch and the nanoseconds
/// past that second.
#[derive(Clone, Copy, Debug, PartialEq, Eq)]
pub struct Timestamp {
    pub secs: i64,
    pub nanos: u32,
}

impl Timestamp {
    /// The stamp as a (seconds, nanoseconds) pair, ordered lexicographically.
    pub open spec fn stamp(self) -> (i64, u32) {
        (self.secs, self.nanos)
    }
}

/// A question of the dataset.
#[derive(Clone, Debug)]
pub struct Question {
    pub id: u32,
    pub text_original: String,
    pub text_translation: String,
    pub answers: Vec<Answer>,
}

/// An answer option of a question.
#[derive(Clone, Debug)]
pub struct Answer {
    pub answer_text_original: String,
    pub answer_text_translation: String,
    pub correct: bool,
}

#[derive(Clone, Debug)]
pub struct ProfileInitRequest {
    pub profile_id: Option<String>,
}

#[derive(Clone, Debug)]
pub struct ProfileInitResponse {
    pub profile_id: String,
    pub memory_summary: MemorySummary,
}

#[derive(Clone, Debug)]
pub struct AiStatusResponse {
    pub enabled: bool,
    pub model: Option<String>,
    pub status: String,
}

/// What the tutor is told about a learner's weak spots.
#[derive(Clone, Debug)]
pub struct MemorySummary {
    pub frequent_wrong_questions: Vec<u32>,
    pub concept_confusions: Vec<String>,
    pub vocabulary_weaknesses: Vec<String>,
}

#[derive(Clone, Debug)]
pub struct StartExamResponse {
    pub exam_id: String,
    pub profile_id: String,
    pub total_questions: usize,
    pub passing_score: usize,
    pub dataset_correct_answers: usize,
    pub total_dataset_questions: usize,
    pub questions: Vec<ExamQuestionPayload>,
}

/// A question as the exam screen shows it (no correctness flags).
#[derive(Clone, Debug)]
pub struct ExamQuestionPayload {
    pub id: u32,
    pub text_original: String,
    pub text_translation: String,
    pub answers: Vec<AnswerOptionPayload>,
}

#[derive(Clone, Debug)]
pub struct AnswerOptionPayload {
    pub key: String,
    pub text_original: String,
    pub text_translation: String,
}

#[derive(Clone, Debug)]
pub struct HintRequest {
    pub exam_id: String,
    pub question_id: u32,
    pub profile_id: String,
}

#[derive(Clone, Debug)]
pub struct TranslationRequest {
    pub exam_id: String,
    pub question_id: u32,
    pub profile_id: String,
}

#[derive(Clone, Debug)]
pub struct TranslationResponse {
    pub question_id: u32,
    pub generated_answers: Vec<GeneratedAnswerTranslation>,
    pub source: Option<String>,
    pub ai_error: Option<String>,
}

#[derive(Clone, Debug)]
pub struct GeneratedAnswerTranslation {
    pub key: String,
    pub text: String,
}

#[derive(Clone, Debug)]
pub struct SubmitAnswerRequest {
    pub exam_id: String,
    pub question_id: u32,
    pub selected_key: String,
    pub profile_id: String,
}

#[derive(Clone, Debug)]
pub struct HintResponse {
    pub question_id: u32,
    pub hint: Option<AiHintResponse>,
    pub source: Option<String>,
    pub ai_error: Option<String>,
}

#[derive(Clone, Debug)]
pub struct SubmitAnswerResponse {
    pub exam_id: String,
    pub question_id: u32,
    pub selected_key: String,
    pub correct_key: String,
    pub is_correct: bool,
    pub correct_answer_text_original: String,
    pub feedback: Option<AiHintResponse>,
    pub feedback_source: Option<String>,
    pub ai_error: Option<String>,
    pub score: usize,
    pub answered_count: usize,
    pub total_questions: usize,
    pub dataset_correct_answers: usize,
    pub total_dataset_questions: usize,
    pub is_exam_complete: bool,
}

#[derive(Clone, Debug)]
pub struct ExamResultResponse {
    pub exam_id: String,
    pub profile_id: String,
    pub score: usize,
    pub total_questions: usize,
    pub passing_score: usize,
    pub passed: bool,
    pub answered_count: usize,
    pub dataset_correct_answers: usize,
    pub total_dataset_questions: usize,
    pub incorrect_questions: Vec<ReviewItem>,
}

#[derive(Clone, Debug)]
pub struct ReviewResponse {
    pub exam_id: String,
    pub profile_id: String,
    pub correct_questions: Vec<ReviewItem>,
    pub incorrect_questions: Vec<ReviewItem>,
}

#[derive(Clone, Debug)]
pub struct ProfileReviewResponse {
    pub profile_id: String,
    pub correct_questions: Vec<ReviewItem>,
    pub incorrect_questions: Vec<ReviewItem>,
}

/// One answered question, as the review screens show it.
#[derive(Clone, Debug)]
pub struct ReviewItem {
    pub question_id: u32,
    pub text_original: String,
    pub text_translation: String,
    pub selected_key: String,
    pub selected_answer_text_original: String,
    pub correct_key: String,
    pub correct_answer_text_original: String,
    pub is_correct: bool,
    pub feedback_text: String,
    pub memory_trick: String,
    pub ai_error: Option<String>,
    pub submitted_at: Timestamp,
    pub answers: Vec<AnswerOptionPayload>,
}

/// A stored exam: its questions and the answers given so far.
#[derive(Clone, Debug)]
pub struct ExamRecord {
    pub exam_id: String,
    pub profile_id: String,
    pub question_ids: Vec<u32>,
    pub submissions: Vec<SubmittedAnswer>,
    pub started_at: Timestamp,
    pub completed_at: Option<Timestamp>,
}

/// An answer given during an exam.
#[derive(Clone, Debug)]
pub struct SubmittedAnswer {
    pub question_id: u32,
    pub selected_key: String,
    pub correct_key: String,
    pub is_correct: bool,
    pub feedback: Option<AiHintResponse>,
    pub ai_error: Option<String>,
    pub submitted_at: Timestamp,
}

/// What is remembered about a learner across exams.
#[derive(Debug)]
pub struct LearnerMemory {
    pub profile_id: String,
    pub correctly_answered_question_ids: Vec<u32>,
    pub frequently_wrong_question_ids: HashMap<u32, u32>,
    pub concept_confusions: TextCounts,
    pub vocabulary_weaknesses: TextCounts,
    pub recovery_streaks: HashMap<u32, u32>,
    pub question_cooldowns: HashMap<u32, u32>,
    pub recent_sessions: Vec<RecentSession>,
}

impl LearnerMemory {
    /// A memory with nothing recorded yet.
    pub fn empty(profile_id: String) -> (m: Self)
        ensures
            m.profile_id@ == profile_id@,
            m.correctly_answered_question_ids@ == Seq::<u32>::empty(),
            m.frequently_wrong_question_ids@ == Map::<u32, u32>::empty(),
            m.concept_confusions@ == Map::<Seq<char>, u32>::empty(),
            m.vocabulary_weaknesses@ == Map::<Seq<char>, u32>::empty(),
            m.recovery_streaks@ == Map::<u32, u32>::empty(),
            m.question_cooldowns@ == Map::<u32, u32>::empty(),
            m.recent_sessions@ == Seq::<RecentSession>::empty(),
    {
        LearnerMemory {
            profile_id,
            correctly_answered_question_ids: Vec::new(),
            frequently_wrong_question_ids: HashMap::new(),
            concept_confusions: TextCounts::new(),
            vocabulary_weaknesses: TextCounts::new(),
            recovery_streaks: HashMap::new(),
            question_cooldowns: HashMap::new(),
            recent_sessions: Vec::new(),
        }
    }
}

/// A finished exam, as remembered for a learner.
#[derive(Clone, Debug)]
pub struct RecentSession {
    pub exam_id: String,
    pub score: usize,
    pub total_questions: usize,
    pub completed_at: Timestamp,
}

/// The tutor's hint and feedback for a question.
#[derive(Clone, Debug)]
pub struct AiHintResponse {
    pub emoji_question: String,
    pub emoji_options: Vec<EmojiOption>,
    pub hint_title: String,
    pub hint_text: String,
    pub feedback_text: String,
    pub memory_trick: String,
}

#[derive(Clone, Debug)]
pub struct EmojiOption {
    pub key: String,
    pub text: String,
}

/// What the tutor is given about a question.
#[derive(Clone, Debug)]
pub struct AiRequestContext {
    pub question_id: u32,
    pub question_text_original: String,
    pub question_text_translation: String,
    pub answers: Vec<AiAnswerContext>,
    pub correct_key: String,
    pub selected_key: Option<String>,
    pub is_correct: Option<bool>,
    pub memory_summary: MemorySummary,
}

#[derive(Clone, Debug)]
pub struct AiAnswerContext {
    pub key: String,
    pub answer_text_original: String,
    pub answer_text_translation: String,
}

} // verus!
