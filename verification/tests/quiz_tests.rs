use std::collections::HashSet;

use einbuergerung::models::{Answer, ExamRecord, MemorySummary, Question, SubmittedAnswer, Timestamp};
use einbuergerung::quiz::{
    answer_index, answer_key, build_ai_context, correct_answer, create_exam, is_berlin_question, is_general_question,
    review_items, review_items_for_records, review_items_split, to_exam_payload, upsert_submission,
    validate_questions, DatasetError,
};

fn answer(text: &str, translation: &str, correct: bool) -> Answer {
    Answer {
        answer_text_original: text.to_string(),
        answer_text_translation: translation.to_string(),
        correct,
    }
}

fn question(id: u32, correct: usize) -> Question {
    Question {
        id,
        text_original: format!("Frage {id}"),
        text_translation: format!("Question {id}"),
        answers: (0..4)
            .map(|i| answer(&format!("Antwort {id}-{i}"), &format!("Answer {id}-{i}"), i == correct))
            .collect(),
    }
}

fn dataset() -> Vec<Question> {
    let mut qs: Vec<Question> = (1..=40).map(|id| question(id, (id as usize) % 4)).collect();
    qs.extend((301..=305).map(|id| question(id, 0)));
    qs
}

fn stamp(secs: i64) -> Timestamp {
    Timestamp { secs, nanos: 0 }
}

fn submission(question_id: u32, selected: &str, correct: &str, secs: i64) -> SubmittedAnswer {
    SubmittedAnswer {
        question_id,
        selected_key: selected.to_string(),
        correct_key: correct.to_string(),
        is_correct: selected == correct,
        feedback: None,
        ai_error: None,
        submitted_at: stamp(secs),
    }
}

fn record(question_ids: Vec<u32>, submissions: Vec<SubmittedAnswer>) -> ExamRecord {
    ExamRecord {
        exam_id: "exam-1-0000000a".to_string(),
        profile_id: "anna".to_string(),
        question_ids,
        submissions,
        started_at: stamp(1),
        completed_at: None,
    }
}

#[test]
fn question_parts_split_at_300() {
    assert!(is_general_question(1));
    assert!(is_general_question(300));
    assert!(!is_general_question(301));
    assert!(is_berlin_question(301));
    assert!(is_berlin_question(310));
    assert!(!is_berlin_question(311));
    assert!(!is_berlin_question(300));
}

#[test]
fn answer_keys_are_letters() {
    assert_eq!(answer_key(0), "A");
    assert_eq!(answer_key(1), "B");
    assert_eq!(answer_key(2), "C");
    assert_eq!(answer_key(3), "D");
    assert_eq!(answer_key(4), "?");
}

#[test]
fn answer_index_reads_typed_keys() {
    assert_eq!(answer_index("A"), Some(0));
    assert_eq!(answer_index(" b "), Some(1));
    assert_eq!(answer_index("c"), Some(2));
    assert_eq!(answer_index("D\n"), Some(3));
    assert_eq!(answer_index("E"), None);
    assert_eq!(answer_index("AB"), None);
    assert_eq!(answer_index(""), None);
}

#[test]
fn answer_keys_round_trip() {
    for i in 0..4 {
        assert_eq!(answer_index(&answer_key(i)), Some(i));
    }
}

#[test]
fn correct_answer_is_first_marked() {
    let mut q = question(7, 2);
    assert_eq!(correct_answer(&q), (2, "C".to_string()));
    q.answers[3].correct = true;
    assert_eq!(correct_answer(&q), (2, "C".to_string()));
}

#[test]
fn valid_dataset_is_accepted() {
    assert!(validate_questions(&dataset()).is_ok());
}

#[test]
fn too_few_questions_are_refused() {
    let qs: Vec<Question> = (1..=32).map(|id| question(id, 0)).collect();
    let err = validate_questions(&qs).unwrap_err();
    assert_eq!(err, DatasetError::TooFewQuestions);
    assert_eq!(err.message(), "dataset must contain at least 33 questions");
}

#[test]
fn duplicate_ids_are_refused() {
    let mut qs = dataset();
    qs[5].id = 3;
    let err = validate_questions(&qs).unwrap_err();
    assert_eq!(err, DatasetError::DuplicateId(3));
    assert_eq!(err.message(), "duplicate question id 3");
}

#[test]
fn wrong_answer_counts_are_refused() {
    let mut qs = dataset();
    qs[2].answers.pop();
    let err = validate_questions(&qs).unwrap_err();
    assert_eq!(err, DatasetError::WrongAnswerCount(3));
    assert_eq!(err.message(), "question 3 must have exactly 4 answers");
}

#[test]
fn wrong_correct_counts_are_refused() {
    let mut qs = dataset();
    qs[0].answers[0].correct = true;
    qs[0].answers[1].correct = true;
    let err = validate_questions(&qs).unwrap_err();
    assert_eq!(err, DatasetError::WrongCorrectCount(1));
    assert_eq!(err.message(), "question 1 must have exactly 1 correct answer");
}

#[test]
fn too_few_general_questions_are_refused() {
    let mut qs: Vec<Question> = (1..=29).map(|id| question(id, 0)).collect();
    qs.extend((301..=310).map(|id| question(id, 0)));
    let err = validate_questions(&qs).unwrap_err();
    assert_eq!(err, DatasetError::TooFewGeneral);
    assert_eq!(err.message(), "dataset must contain at least 30 general questions");
}

#[test]
fn too_few_berlin_questions_are_refused() {
    let mut qs: Vec<Question> = (1..=40).map(|id| question(id, 0)).collect();
    qs.extend((301..=302).map(|id| question(id, 0)));
    let err = validate_questions(&qs).unwrap_err();
    assert_eq!(err, DatasetError::TooFewBerlin);
    assert_eq!(err.message(), "dataset must contain at least 3 Berlin-specific questions");
}

#[test]
fn exam_payload_hides_correctness() {
    let p = to_exam_payload(question(12, 1));
    assert_eq!(p.id, 12);
    assert_eq!(p.text_original, "Frage 12");
    assert_eq!(p.text_translation, "Question 12");
    let keys: Vec<&str> = p.answers.iter().map(|a| a.key.as_str()).collect();
    assert_eq!(keys, vec!["A", "B", "C", "D"]);
    assert_eq!(p.answers[2].text_original, "Antwort 12-2");
    assert_eq!(p.answers[2].text_translation, "Answer 12-2");
}

#[test]
fn ai_context_falls_back_to_original_when_translation_missing() {
    let mut q = question(9, 3);
    q.answers[1].answer_text_translation = "   ".to_string();
    let summary = MemorySummary {
        frequent_wrong_questions: vec![9],
        concept_confusions: vec![],
        vocabulary_weaknesses: vec![],
    };
    let c = build_ai_context(&q, Some("B".to_string()), Some(false), summary);
    assert_eq!(c.question_id, 9);
    assert_eq!(c.correct_key, "D");
    assert_eq!(c.answers.len(), 4);
    assert_eq!(c.answers[1].key, "B");
    assert_eq!(c.answers[1].answer_text_translation, "Antwort 9-1");
    assert_eq!(c.answers[0].answer_text_translation, "Answer 9-0");
    assert_eq!(c.selected_key, Some("B".to_string()));
    assert_eq!(c.is_correct, Some(false));
    assert_eq!(c.memory_summary.frequent_wrong_questions, vec![9]);
}

#[test]
fn upsert_replaces_answer_to_same_question() {
    let mut r = record(vec![1, 2], vec![]);
    upsert_submission(&mut r, submission(1, "A", "B", 10));
    assert_eq!(r.submissions.len(), 1);
    assert!(r.completed_at.is_none());
    upsert_submission(&mut r, submission(1, "B", "B", 11));
    assert_eq!(r.submissions.len(), 1);
    assert_eq!(r.submissions[0].selected_key, "B");
    assert!(r.submissions[0].is_correct);
    assert!(r.completed_at.is_none());
}

#[test]
fn upsert_completes_exam_when_all_answered() {
    let mut r = record(vec![1, 2], vec![]);
    upsert_submission(&mut r, submission(1, "A", "A", 10));
    upsert_submission(&mut r, submission(2, "C", "A", 11));
    assert_eq!(r.submissions.len(), 2);
    assert!(r.completed_at.is_some());
    assert!(r.completed_at.unwrap().secs >= 0);
}

#[test]
fn review_split_sorts_by_question_id_descending() {
    let qs = dataset();
    let r = record(
        vec![3, 5, 8, 9],
        vec![
            submission(5, "A", "A", 10),
            submission(3, "B", "A", 11),
            submission(9, "C", "C", 12),
            submission(8, "D", "A", 13),
        ],
    );
    let (correct, incorrect) = review_items_split(&r, &qs);
    let c: Vec<u32> = correct.iter().map(|i| i.question_id).collect();
    let w: Vec<u32> = incorrect.iter().map(|i| i.question_id).collect();
    assert_eq!(c, vec![9, 5]);
    assert_eq!(w, vec![8, 3]);
    assert_eq!(incorrect[1].selected_key, "B");
    assert_eq!(incorrect[1].selected_answer_text_original, "Antwort 3-1");
    assert_eq!(incorrect[1].correct_answer_text_original, "Antwort 3-0");
    assert_eq!(incorrect[1].text_original, "Frage 3");
    assert_eq!(incorrect[1].answers.len(), 4);
}

#[test]
fn review_skips_unknown_questions() {
    let qs = dataset();
    let r = record(vec![999], vec![submission(999, "A", "B", 10)]);
    let (correct, incorrect) = review_items_split(&r, &qs);
    assert!(correct.is_empty());
    assert!(incorrect.is_empty());
}

#[test]
fn review_items_newest_first() {
    let qs = dataset();
    let r = record(
        vec![3, 5, 8],
        vec![submission(5, "B", "A", 10), submission(3, "B", "A", 30), submission(8, "B", "A", 20)],
    );
    let items = review_items(&r, &qs, false);
    let ids: Vec<u32> = items.iter().map(|i| i.question_id).collect();
    assert_eq!(ids, vec![3, 8, 5]);
}

#[test]
fn profile_review_keeps_latest_answer_per_question() {
    let qs = dataset();
    let older = record(vec![4, 6], vec![submission(4, "B", "A", 10), submission(6, "A", "A", 11)]);
    let newer = record(vec![4, 6], vec![submission(4, "A", "A", 20), submission(6, "C", "A", 21)]);
    let records = vec![older, newer];
    let correct = review_items_for_records(&records, &qs, true);
    let incorrect = review_items_for_records(&records, &qs, false);
    let c: Vec<u32> = correct.iter().map(|i| i.question_id).collect();
    let w: Vec<u32> = incorrect.iter().map(|i| i.question_id).collect();
    // each list keeps the latest answer of its kind per question, newest first
    assert_eq!(c, vec![4, 6]);
    assert_eq!(w, vec![6, 4]);
    assert_eq!(correct[0].submitted_at.secs, 20);
    assert_eq!(correct[1].submitted_at.secs, 11);
    assert_eq!(incorrect[1].submitted_at.secs, 10);
}

#[test]
fn exam_has_thirty_general_and_three_berlin_questions() {
    let qs = dataset();
    let (rec, resp) = create_exam("anna".to_string(), &qs, &[], &HashSet::new(), 7);
    assert_eq!(rec.question_ids.len(), 33);
    let general = rec.question_ids.iter().filter(|id| **id <= 300).count();
    let berlin = rec.question_ids.iter().filter(|id| **id >= 301 && **id <= 310).count();
    assert_eq!(general, 30);
    assert_eq!(berlin, 3);
    let distinct: HashSet<u32> = rec.question_ids.iter().copied().collect();
    assert_eq!(distinct.len(), 33);
    assert_eq!(resp.total_questions, 33);
    assert_eq!(resp.passing_score, 17);
    assert_eq!(resp.dataset_correct_answers, 7);
    assert_eq!(resp.total_dataset_questions, qs.len());
    assert_eq!(resp.exam_id, rec.exam_id);
    assert_eq!(resp.profile_id, "anna");
    assert_eq!(rec.profile_id, "anna");
    assert!(rec.submissions.is_empty());
    assert!(rec.completed_at.is_none());
    let shown: Vec<u32> = resp.questions.iter().map(|q| q.id).collect();
    assert_eq!(shown, rec.question_ids);
}

#[test]
fn exam_id_has_time_and_hex_suffix() {
    let qs = dataset();
    let (rec, _) = create_exam("anna".to_string(), &qs, &[], &HashSet::new(), 0);
    let parts: Vec<&str> = rec.exam_id.split('-').collect();
    assert_eq!(parts.len(), 3);
    assert_eq!(parts[0], "exam");
    assert!(parts[1].chars().all(|c| c.is_ascii_digit()));
    assert!(parts[1].parse::<i64>().unwrap() > 1_600_000_000_000);
    assert_eq!(parts[2].len(), 8);
    assert!(parts[2].chars().all(|c| c.is_ascii_hexdigit() && !c.is_ascii_uppercase()));
}

#[test]
fn exam_leaves_out_held_back_questions() {
    let qs = dataset();
    let excluded: HashSet<u32> = (1..=10).chain(301..=302).collect();
    let (rec, _) = create_exam("anna".to_string(), &qs, &[], &excluded, 0);
    assert!(rec.question_ids.iter().all(|id| !excluded.contains(id)));
    // 30 general questions remain, but only 3 Berlin-specific ones (303..305)
    assert_eq!(rec.question_ids.len(), 33);
    let excluded_more: HashSet<u32> = (1..=20).chain(301..=304).collect();
    let (rec2, _) = create_exam("anna".to_string(), &qs, &[], &excluded_more, 0);
    assert_eq!(rec2.question_ids.len(), 20 + 1);
}

#[test]
fn exam_draws_prioritized_questions_first() {
    let qs = dataset();
    let prioritized = vec![40, 39, 305];
    for _ in 0..5 {
        let (rec, _) = create_exam("anna".to_string(), &qs, &prioritized, &HashSet::new(), 0);
        for id in &prioritized {
            assert!(rec.question_ids.contains(id));
        }
    }
}

#[test]
fn exam_from_small_pool_takes_what_is_there() {
    let mut qs: Vec<Question> = (1..=5).map(|id| question(id, 0)).collect();
    qs.push(question(301, 0));
    let (rec, resp) = create_exam("bo".to_string(), &qs, &[], &HashSet::new(), 0);
    assert_eq!(rec.question_ids.len(), 6);
    assert_eq!(resp.questions.len(), 6);
    assert_eq!(resp.total_questions, 33);
}

#[test]
fn exams_are_mixed_differently() {
    let qs = dataset();
    let orders: HashSet<Vec<u32>> =
        (0..10).map(|_| create_exam("anna".to_string(), &qs, &[], &HashSet::new(), 0).0.question_ids).collect();
    assert!(orders.len() > 1);
    let suffixes: HashSet<String> = (0..10)
        .map(|_| create_exam("anna".to_string(), &qs, &[], &HashSet::new(), 0).0.exam_id.rsplit('-').next().unwrap().to_string())
        .collect();
    assert!(suffixes.len() > 1);
}
