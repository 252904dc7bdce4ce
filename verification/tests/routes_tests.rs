use einbuergerung::memory::update_after_answer;
use einbuergerung::models::{Answer, ExamRecord, LearnerMemory, Question, SubmittedAnswer, Timestamp};
use einbuergerung::routes::{
    answer_response, begin_exam, check_answer, ensure_exam_access, ensure_question_in_exam, exam_result, exam_review,
    exams_of_profile, finish_submission, generate_profile_id, is_json_file, locate_question, new_submission,
    profile_review, profiles_of, question_by_id, require_profile_id, resolve_profile_id, sanitize_profile_id,
    score_of, viewer_profile_id, ApiError, ApiStatus,
};

fn question(id: u32, correct: usize) -> Question {
    Question {
        id,
        text_original: format!("Frage {id}"),
        text_translation: format!("Question {id}"),
        answers: (0..4)
            .map(|i| Answer {
                answer_text_original: format!("Antwort {id}-{i}"),
                answer_text_translation: format!("Answer {id}-{i}"),
                correct: i == correct,
            })
            .collect(),
    }
}

fn dataset() -> Vec<Question> {
    let mut qs: Vec<Question> = (1..=40).map(|id| question(id, 0)).collect();
    qs.extend((301..=305).map(|id| question(id, 1)));
    qs
}

fn submission(question_id: u32, correct: bool, secs: i64) -> SubmittedAnswer {
    SubmittedAnswer {
        question_id,
        selected_key: if correct { "A".to_string() } else { "B".to_string() },
        correct_key: "A".to_string(),
        is_correct: correct,
        feedback: None,
        ai_error: None,
        submitted_at: Timestamp { secs, nanos: 0 },
    }
}

fn record(profile: &str, question_ids: Vec<u32>, submissions: Vec<SubmittedAnswer>) -> ExamRecord {
    ExamRecord {
        exam_id: "exam-5-0000abcd".to_string(),
        profile_id: profile.to_string(),
        question_ids,
        submissions,
        started_at: Timestamp { secs: 1, nanos: 0 },
        completed_at: None,
    }
}

fn assert_error(e: &ApiError, status: ApiStatus, message: &str) {
    assert_eq!(e.status, status);
    assert_eq!(e.message, message);
}

fn is_generated(id: &str) -> bool {
    let parts: Vec<&str> = id.split('-').collect();
    parts.len() == 3
        && parts[0] == "profile"
        && !parts[1].is_empty()
        && parts[1].chars().all(|c| c.is_ascii_digit())
        && parts[2].len() == 8
        && parts[2].chars().all(|c| c.is_ascii_hexdigit())
}

#[test]
fn status_codes() {
    assert_eq!(ApiStatus::BadRequest.code(), 400);
    assert_eq!(ApiStatus::Forbidden.code(), 403);
    assert_eq!(ApiStatus::NotFound.code(), 404);
    assert_eq!(ApiStatus::Internal.code(), 500);
    assert_error(&ApiError::internal("disk full".to_string()), ApiStatus::Internal, "disk full");
    assert_error(&ApiError::bad_request("x"), ApiStatus::BadRequest, "x");
    assert_error(&ApiError::forbidden("y"), ApiStatus::Forbidden, "y");
    assert_error(&ApiError::not_found("z"), ApiStatus::NotFound, "z");
}

#[test]
fn sanitize_keeps_allowed_characters() {
    assert_eq!(sanitize_profile_id("  Anna!!-_x 9"), "Anna-_x9");
    assert_eq!(sanitize_profile_id("äöü"), "");
    assert_eq!(sanitize_profile_id(""), "");
    let long: String = "ab".repeat(50);
    assert_eq!(sanitize_profile_id(&long), "ab".repeat(32));
    let mixed = format!("{}{}", "!".repeat(10), "z".repeat(70));
    assert_eq!(sanitize_profile_id(&mixed), "z".repeat(64));
}

#[test]
fn generated_profile_ids_have_time_and_suffix() {
    let id = generate_profile_id();
    assert!(is_generated(&id), "{id}");
    let millis: i64 = id.split('-').nth(1).unwrap().parse().unwrap();
    assert!(millis > 1_600_000_000_000);
    assert_eq!(sanitize_profile_id(&id), id);
}

#[test]
fn requested_profile_ids_are_resolved() {
    assert_eq!(resolve_profile_id(Some("bob")), "bob");
    assert_eq!(resolve_profile_id(Some(" b o b ")), "bob");
    assert!(is_generated(&resolve_profile_id(Some("!!!"))));
    assert!(is_generated(&resolve_profile_id(None)));
}

#[test]
fn viewer_ids_default_to_empty() {
    assert_eq!(viewer_profile_id(Some("a b")), "ab");
    assert_eq!(viewer_profile_id(None), "");
}

#[test]
fn profile_review_needs_a_profile() {
    assert_eq!(require_profile_id(Some("anna")).unwrap(), "anna");
    assert_error(&require_profile_id(Some("$$")).unwrap_err(), ApiStatus::BadRequest, "profile_id is required");
    assert_error(&require_profile_id(None).unwrap_err(), ApiStatus::BadRequest, "profile_id is required");
}

#[test]
fn questions_are_found_by_id() {
    let mut qs = dataset();
    qs.push(Question { text_original: "second 7".to_string(), ..question(7, 2) });
    let q = question_by_id(&qs, 7).unwrap();
    assert_eq!(q.text_original, "Frage 7");
    assert_error(&question_by_id(&qs, 999).unwrap_err(), ApiStatus::NotFound, "question not found");
}

#[test]
fn only_the_owner_may_use_an_exam() {
    let r = record("anna", vec![1, 2], vec![]);
    assert!(ensure_exam_access(&r, "anna").is_ok());
    assert_error(&ensure_exam_access(&r, "bob").unwrap_err(), ApiStatus::Forbidden, "profile id does not match exam");
    assert_error(&ensure_exam_access(&r, "").unwrap_err(), ApiStatus::Forbidden, "profile id does not match exam");
}

#[test]
fn only_exam_questions_may_be_used() {
    let r = record("anna", vec![1, 2], vec![]);
    assert!(ensure_question_in_exam(&r, 2).is_ok());
    assert_error(
        &ensure_question_in_exam(&r, 3).unwrap_err(),
        ApiStatus::BadRequest,
        "question is not part of this exam",
    );
}

#[test]
fn hint_requests_are_checked_in_order() {
    let qs = dataset();
    let r = record("anna", vec![1, 2, 999], vec![]);
    assert_eq!(locate_question(&r, "anna", 2, &qs).unwrap(), 1);
    assert_error(&locate_question(&r, "bob", 3, &qs).unwrap_err(), ApiStatus::Forbidden, "profile id does not match exam");
    assert_error(&locate_question(&r, "anna", 3, &qs).unwrap_err(), ApiStatus::BadRequest, "question is not part of this exam");
    assert_error(&locate_question(&r, "anna", 999, &qs).unwrap_err(), ApiStatus::NotFound, "question not found");
}

#[test]
fn answers_are_graded_against_the_dataset() {
    let qs = dataset();
    let r = record("anna", vec![1, 302, 999], vec![]);
    let ok = check_answer(&r, "anna", 302, " b ", &qs).unwrap();
    assert_eq!(ok.question_index, 41);
    assert_eq!(ok.selected_index, 1);
    assert_eq!(ok.correct_index, 1);
    assert_eq!(ok.correct_key, "B");
    assert!(ok.is_correct);
    let wrong = check_answer(&r, "anna", 1, "D", &qs).unwrap();
    assert_eq!(wrong.selected_index, 3);
    assert_eq!(wrong.correct_index, 0);
    assert_eq!(wrong.correct_key, "A");
    assert!(!wrong.is_correct);
}

#[test]
fn refused_answers_say_why() {
    let qs = dataset();
    let r = record("anna", vec![1, 999], vec![]);
    assert_error(&check_answer(&r, "bob", 1, "A", &qs).unwrap_err(), ApiStatus::Forbidden, "profile id does not match exam");
    assert_error(&check_answer(&r, "anna", 2, "A", &qs).unwrap_err(), ApiStatus::BadRequest, "question is not part of this exam");
    assert_error(
        &check_answer(&r, "anna", 1, "E", &qs).unwrap_err(),
        ApiStatus::BadRequest,
        "selected_key must be A, B, C, or D",
    );
    assert_error(
        &check_answer(&r, "anna", 999, "E", &qs).unwrap_err(),
        ApiStatus::BadRequest,
        "selected_key must be A, B, C, or D",
    );
    assert_error(&check_answer(&r, "anna", 999, "A", &qs).unwrap_err(), ApiStatus::NotFound, "question not found");
}

#[test]
fn submissions_are_stamped_now() {
    let s = new_submission(4, "B".to_string(), "A".to_string(), false, None, Some("offline".to_string()));
    assert_eq!(s.question_id, 4);
    assert_eq!(s.selected_key, "B");
    assert_eq!(s.correct_key, "A");
    assert!(!s.is_correct);
    assert!(s.feedback.is_none());
    assert_eq!(s.ai_error.as_deref(), Some("offline"));
    assert!(s.submitted_at.secs > 1_600_000_000);
    assert!(s.submitted_at.nanos < 1_000_000_000);
}

#[test]
fn score_counts_correct_answers() {
    let subs = vec![submission(1, true, 1), submission(2, false, 2), submission(3, true, 3)];
    assert_eq!(score_of(&subs), 2);
    assert_eq!(score_of(&vec![]), 0);
}

#[test]
fn finishing_an_exam_records_a_session_once() {
    let mut r = record("anna", vec![1, 2], vec![]);
    let mut m = LearnerMemory::empty("anna".to_string());
    finish_submission(&mut r, &mut m, submission(1, true, 10));
    assert!(r.completed_at.is_none());
    assert!(m.recent_sessions.is_empty());
    finish_submission(&mut r, &mut m, submission(2, false, 11));
    assert!(r.completed_at.is_some());
    assert_eq!(m.recent_sessions.len(), 1);
    let s = &m.recent_sessions[0];
    assert_eq!(s.exam_id, "exam-5-0000abcd");
    assert_eq!(s.score, 1);
    assert_eq!(s.total_questions, 2);
    assert_eq!(s.completed_at, r.completed_at.unwrap());
    // answering again after completion records no second session
    finish_submission(&mut r, &mut m, submission(2, true, 12));
    assert_eq!(m.recent_sessions.len(), 1);
    assert_eq!(r.submissions.len(), 2);
}

#[test]
fn answer_reply_reports_progress() {
    let qs = dataset();
    let mut r = record("anna", vec![1, 2, 3], vec![submission(2, true, 1)]);
    let check = check_answer(&r, "anna", 1, "C", &qs).unwrap();
    let s = new_submission(1, "C".to_string(), check.correct_key.clone(), check.is_correct, None, None);
    let mut m = LearnerMemory::empty("anna".to_string());
    update_after_answer(&mut m, &qs[check.question_index], "C", &check.correct_key, check.is_correct);
    finish_submission(&mut r, &mut m, s);
    let reply = answer_response(&r, &qs[check.question_index], &check, 1, "C".to_string(), None, None, None, 0, qs.len());
    assert_eq!(reply.exam_id, "exam-5-0000abcd");
    assert_eq!(reply.question_id, 1);
    assert_eq!(reply.selected_key, "C");
    assert_eq!(reply.correct_key, "A");
    assert!(!reply.is_correct);
    assert_eq!(reply.correct_answer_text_original, "Antwort 1-0");
    assert_eq!(reply.score, 1);
    assert_eq!(reply.answered_count, 2);
    assert_eq!(reply.total_questions, 3);
    assert_eq!(reply.total_dataset_questions, 45);
    assert!(!reply.is_exam_complete);
}

#[test]
fn seventeen_correct_answers_pass() {
    let qs = dataset();
    let ids: Vec<u32> = (1..=33).collect();
    let passing: Vec<SubmittedAnswer> = (1..=33).map(|id| submission(id, id <= 17, id as i64)).collect();
    let failing: Vec<SubmittedAnswer> = (1..=33).map(|id| submission(id, id <= 16, id as i64)).collect();
    let pass = exam_result(&record("anna", ids.clone(), passing), &qs, 5, qs.len());
    assert_eq!(pass.score, 17);
    assert!(pass.passed);
    assert_eq!(pass.passing_score, 17);
    assert_eq!(pass.answered_count, 33);
    assert_eq!(pass.total_questions, 33);
    assert_eq!(pass.dataset_correct_answers, 5);
    assert_eq!(pass.incorrect_questions.len(), 16);
    assert_eq!(pass.incorrect_questions[0].question_id, 33);
    let fail = exam_result(&record("anna", ids, failing), &qs, 5, qs.len());
    assert_eq!(fail.score, 16);
    assert!(!fail.passed);
}

#[test]
fn exam_review_splits_answers() {
    let qs = dataset();
    let r = record("anna", vec![1, 2, 3], vec![submission(1, true, 1), submission(3, false, 2), submission(2, true, 3)]);
    let review = exam_review(&r, &qs);
    assert_eq!(review.exam_id, "exam-5-0000abcd");
    assert_eq!(review.profile_id, "anna");
    let c: Vec<u32> = review.correct_questions.iter().map(|i| i.question_id).collect();
    let w: Vec<u32> = review.incorrect_questions.iter().map(|i| i.question_id).collect();
    assert_eq!(c, vec![2, 1]);
    assert_eq!(w, vec![3]);
}

#[test]
fn profile_review_uses_all_exams() {
    let qs = dataset();
    let records = vec![
        record("anna", vec![1, 2], vec![submission(1, false, 1), submission(2, true, 2)]),
        record("anna", vec![1], vec![submission(1, true, 5)]),
    ];
    let review = profile_review("anna".to_string(), &records, &qs);
    assert_eq!(review.profile_id, "anna");
    let c: Vec<u32> = review.correct_questions.iter().map(|i| i.question_id).collect();
    assert_eq!(c, vec![1, 2]);
    // the wrong answer to question 1 is still the latest wrong one
    let w: Vec<u32> = review.incorrect_questions.iter().map(|i| i.question_id).collect();
    assert_eq!(w, vec![1]);
}

#[test]
fn starting_an_exam_counts_down_hold_backs() {
    let qs = dataset();
    let mut m = LearnerMemory::empty("anna".to_string());
    m.question_cooldowns.insert(1, 2);
    m.question_cooldowns.insert(2, 1);
    m.frequently_wrong_question_ids.insert(5, 3);
    m.frequently_wrong_question_ids.insert(1, 9);
    m.correctly_answered_question_ids = vec![7, 8];
    let (rec, resp) = begin_exam("anna".to_string(), &mut m, &qs);
    assert!(!rec.question_ids.contains(&1));
    assert!(!rec.question_ids.contains(&2));
    assert!(rec.question_ids.contains(&5));
    assert_eq!(rec.question_ids.len(), 33);
    assert_eq!(resp.dataset_correct_answers, 2);
    assert_eq!(m.question_cooldowns.get(&1), Some(&1));
    assert_eq!(m.question_cooldowns.get(&2), None);
}

#[test]
fn exam_files_end_in_json() {
    assert!(is_json_file("exam-1-00000000.json"));
    assert!(is_json_file("..json"));
    assert!(!is_json_file(".json"));
    assert!(!is_json_file("exam.jsonl"));
    assert!(!is_json_file("json"));
    assert!(!is_json_file("exam.JSON"));
}

#[test]
fn exams_are_filtered_by_profile() {
    let records = vec![
        record("anna", vec![1], vec![]),
        record("bob", vec![2], vec![]),
        record("anna", vec![3], vec![]),
    ];
    let mine = exams_of_profile(records, "anna");
    let ids: Vec<u32> = mine.iter().map(|r| r.question_ids[0]).collect();
    assert_eq!(ids, vec![1, 3]);
}

#[test]
fn profiles_are_listed_once_in_order() {
    let records = vec![
        record("carl", vec![], vec![]),
        record("anna", vec![], vec![]),
        record("carl", vec![], vec![]),
        record("bob", vec![], vec![]),
    ];
    assert_eq!(profiles_of(&records), vec!["anna", "bob", "carl"]);
    assert!(profiles_of(&vec![]).is_empty());
}
