use std::collections::HashMap;

use einbuergerung::counts::TextCounts;
use einbuergerung::memory::{
    advance_question_cooldowns, answer_fits_memory, cooldown_question_ids, dataset_correct_answers,
    prioritized_question_ids, record_completed_session, restore_correct_progress, summarize, update_after_answer,
};
use einbuergerung::models::{Answer, ExamRecord, LearnerMemory, Question, RecentSession, SubmittedAnswer, Timestamp};

fn chancellor_question() -> Question {
    Question {
        id: 42,
        text_original: "Wer wählt den Bundeskanzler in Deutschland?".to_string(),
        text_translation: "Who elects the chancellor in Germany?".to_string(),
        answers: vec![
            Answer {
                answer_text_original: "der Bundestag".to_string(),
                answer_text_translation: "the parliament".to_string(),
                correct: true,
            },
            Answer {
                answer_text_original: "das Volk".to_string(),
                answer_text_translation: "the people".to_string(),
                correct: false,
            },
            Answer {
                answer_text_original: "der Bundesrat".to_string(),
                answer_text_translation: "the federal council".to_string(),
                correct: false,
            },
            Answer {
                answer_text_original: "die Polizei".to_string(),
                answer_text_translation: "the police".to_string(),
                correct: false,
            },
        ],
    }
}

fn session(exam_id: &str, secs: i64) -> RecentSession {
    RecentSession {
        exam_id: exam_id.to_string(),
        score: 20,
        total_questions: 33,
        completed_at: Timestamp { secs, nanos: 0 },
    }
}

#[test]
fn empty_memory_has_nothing() {
    let m = LearnerMemory::empty("anna".to_string());
    assert_eq!(m.profile_id, "anna");
    assert!(m.correctly_answered_question_ids.is_empty());
    assert!(m.frequently_wrong_question_ids.is_empty());
    assert!(m.concept_confusions.entries().is_empty());
    assert!(m.vocabulary_weaknesses.entries().is_empty());
    assert!(m.recovery_streaks.is_empty());
    assert!(m.question_cooldowns.is_empty());
    assert!(m.recent_sessions.is_empty());
    assert_eq!(dataset_correct_answers(&m), 0);
}

#[test]
fn wrong_answer_is_remembered() {
    let mut m = LearnerMemory::empty("anna".to_string());
    let q = chancellor_question();
    update_after_answer(&mut m, &q, "B", "A", false);
    assert_eq!(m.frequently_wrong_question_ids.get(&42), Some(&1));
    assert_eq!(m.question_cooldowns.get(&42), Some(&2));
    assert_eq!(m.concept_confusions.get("B -> A"), Some(1));
    assert_eq!(m.vocabulary_weaknesses.get("bundeskanzler"), Some(1));
    assert_eq!(m.vocabulary_weaknesses.get("bundestag"), Some(1));
    assert_eq!(m.vocabulary_weaknesses.get("wählt"), Some(1));
    assert_eq!(m.vocabulary_weaknesses.get("deutschland"), None);
    assert_eq!(m.vocabulary_weaknesses.entries().len(), 3);
    assert!(m.correctly_answered_question_ids.is_empty());
    update_after_answer(&mut m, &q, "C", "A", false);
    assert_eq!(m.frequently_wrong_question_ids.get(&42), Some(&2));
    assert_eq!(m.vocabulary_weaknesses.get("bundestag"), Some(2));
    assert_eq!(m.concept_confusions.get("C -> A"), Some(1));
}

#[test]
fn three_correct_answers_recover_a_missed_question() {
    let mut m = LearnerMemory::empty("anna".to_string());
    let q = chancellor_question();
    update_after_answer(&mut m, &q, "B", "A", false);
    update_after_answer(&mut m, &q, "A", "A", true);
    assert_eq!(m.recovery_streaks.get(&42), Some(&1));
    assert_eq!(m.frequently_wrong_question_ids.get(&42), Some(&1));
    update_after_answer(&mut m, &q, "A", "A", true);
    assert_eq!(m.recovery_streaks.get(&42), Some(&2));
    assert_eq!(m.frequently_wrong_question_ids.get(&42), Some(&1));
    update_after_answer(&mut m, &q, "A", "A", true);
    assert_eq!(m.recovery_streaks.get(&42), None);
    assert_eq!(m.frequently_wrong_question_ids.get(&42), None);
    assert!(m.vocabulary_weaknesses.entries().is_empty());
    assert_eq!(m.concept_confusions.get("B -> A"), Some(1));
    assert_eq!(m.correctly_answered_question_ids, vec![42]);
}

#[test]
fn a_wrong_answer_resets_the_recovery_streak() {
    let mut m = LearnerMemory::empty("anna".to_string());
    let q = chancellor_question();
    update_after_answer(&mut m, &q, "B", "A", false);
    update_after_answer(&mut m, &q, "A", "A", true);
    update_after_answer(&mut m, &q, "A", "A", true);
    update_after_answer(&mut m, &q, "D", "A", false);
    assert_eq!(m.recovery_streaks.get(&42), None);
    assert_eq!(m.frequently_wrong_question_ids.get(&42), Some(&2));
}

#[test]
fn correct_answers_are_kept_ascending_once() {
    let mut m = LearnerMemory::empty("anna".to_string());
    let mut q = chancellor_question();
    for id in [30u32, 10, 20, 10] {
        q.id = id;
        update_after_answer(&mut m, &q, "A", "A", true);
    }
    assert_eq!(m.correctly_answered_question_ids, vec![10, 20, 30]);
    assert_eq!(dataset_correct_answers(&m), 3);
}

#[test]
fn summary_lists_most_frequent_first() {
    let mut m = LearnerMemory::empty("anna".to_string());
    for (id, count) in [(5u32, 1u32), (7, 3), (2, 3), (9, 2), (1, 1), (3, 1)] {
        m.frequently_wrong_question_ids.insert(id, count);
    }
    m.concept_confusions.set("B -> A".to_string(), 2);
    m.concept_confusions.set("A -> C".to_string(), 2);
    m.concept_confusions.set("D -> A".to_string(), 5);
    for (i, w) in ["alpha", "beta", "gamma", "delta", "epsilon", "zeta", "theta"].iter().enumerate() {
        m.vocabulary_weaknesses.set(w.to_string(), 1 + (i as u32 % 2));
    }
    let s = summarize(&m);
    assert_eq!(s.frequent_wrong_questions, vec![2, 7, 9, 1, 3]);
    assert_eq!(s.concept_confusions, vec!["D -> A", "A -> C", "B -> A"]);
    assert_eq!(s.vocabulary_weaknesses, vec!["beta", "delta", "zeta", "alpha", "epsilon", "gamma"]);
}

#[test]
fn prioritized_ids_skip_held_back_questions() {
    let mut m = LearnerMemory::empty("anna".to_string());
    for (id, count) in [(5u32, 4u32), (7, 3), (2, 2), (9, 1)] {
        m.frequently_wrong_question_ids.insert(id, count);
    }
    m.question_cooldowns.insert(7, 1);
    m.question_cooldowns.insert(9, 0);
    assert_eq!(prioritized_question_ids(&m, 10), vec![5, 2, 9]);
    assert_eq!(prioritized_question_ids(&m, 2), vec![5]);
}

#[test]
fn cooldowns_count_down_per_exam() {
    let mut m = LearnerMemory::empty("anna".to_string());
    m.question_cooldowns.insert(1, 2);
    m.question_cooldowns.insert(2, 1);
    m.question_cooldowns.insert(3, 0);
    let held = cooldown_question_ids(&m);
    assert!(held.contains(&1) && held.contains(&2) && !held.contains(&3));
    advance_question_cooldowns(&mut m);
    let mut expected = HashMap::new();
    expected.insert(1u32, 1u32);
    assert_eq!(m.question_cooldowns, expected);
    advance_question_cooldowns(&mut m);
    assert!(m.question_cooldowns.is_empty());
    assert!(cooldown_question_ids(&m).is_empty());
}

#[test]
fn recent_sessions_keep_ten_newest() {
    let mut m = LearnerMemory::empty("anna".to_string());
    for i in 0..12i64 {
        record_completed_session(&mut m, session(&format!("exam-{i}"), (i * 7) % 12));
    }
    assert_eq!(m.recent_sessions.len(), 10);
    let times: Vec<i64> = m.recent_sessions.iter().map(|s| s.completed_at.secs).collect();
    assert_eq!(times, vec![11, 10, 9, 8, 7, 6, 5, 4, 3, 2]);
}

#[test]
fn recent_sessions_keep_order_of_equal_times() {
    let mut m = LearnerMemory::empty("anna".to_string());
    record_completed_session(&mut m, session("first", 5));
    record_completed_session(&mut m, session("second", 5));
    record_completed_session(&mut m, session("third", 9));
    let ids: Vec<&str> = m.recent_sessions.iter().map(|s| s.exam_id.as_str()).collect();
    assert_eq!(ids, vec!["third", "first", "second"]);
}

#[test]
fn progress_is_restored_from_own_exams() {
    let mut m = LearnerMemory::empty("anna".to_string());
    m.correctly_answered_question_ids = vec![3, 50];
    let sub = |id: u32, ok: bool| SubmittedAnswer {
        question_id: id,
        selected_key: "A".to_string(),
        correct_key: if ok { "A".to_string() } else { "B".to_string() },
        is_correct: ok,
        feedback: None,
        ai_error: None,
        submitted_at: Timestamp { secs: 1, nanos: 0 },
    };
    let rec = |profile: &str, subs: Vec<SubmittedAnswer>| ExamRecord {
        exam_id: "e".to_string(),
        profile_id: profile.to_string(),
        question_ids: vec![],
        submissions: subs,
        started_at: Timestamp { secs: 0, nanos: 0 },
        completed_at: None,
    };
    let records = vec![
        rec("anna", vec![sub(7, true), sub(8, false), sub(3, true)]),
        rec("bob", vec![sub(1, true)]),
        rec("anna", vec![sub(20, true)]),
    ];
    restore_correct_progress(&mut m, &records);
    assert_eq!(m.correctly_answered_question_ids, vec![3, 7, 20, 50]);
}

#[test]
fn overflowing_counts_are_detected() {
    let mut m = LearnerMemory::empty("anna".to_string());
    let q = chancellor_question();
    assert!(answer_fits_memory(&m, &q, "B", "A", false));
    m.vocabulary_weaknesses.set("irgendwas".to_string(), u32::MAX);
    assert!(answer_fits_memory(&m, &q, "B", "A", false));
    m.vocabulary_weaknesses.set("bundestag".to_string(), u32::MAX);
    assert!(!answer_fits_memory(&m, &q, "B", "A", false));
    assert!(answer_fits_memory(&m, &q, "A", "A", true));
    let mut m2 = LearnerMemory::empty("anna".to_string());
    m2.concept_confusions.set("B -> A".to_string(), u32::MAX);
    assert!(!answer_fits_memory(&m2, &q, "B", "A", false));
    assert!(answer_fits_memory(&m2, &q, "C", "A", false));
    let mut m3 = LearnerMemory::empty("anna".to_string());
    m3.frequently_wrong_question_ids.insert(42, u32::MAX);
    assert!(!answer_fits_memory(&m3, &q, "B", "A", false));
    m3.recovery_streaks.insert(42, u32::MAX);
    assert!(!answer_fits_memory(&m3, &q, "A", "A", true));
    update_after_answer(&mut m2, &q, "C", "A", false);
    assert_eq!(m2.concept_confusions.get("C -> A"), Some(1));
    update_after_answer(&mut m, &q, "C", "A", true);
    assert_eq!(m.correctly_answered_question_ids, vec![42]);
}

#[test]
fn text_counts_count_and_rank() {
    let mut c = TextCounts::new();
    c.increment("b".to_string());
    c.increment("a".to_string());
    c.increment("b".to_string());
    assert_eq!(c.get("b"), Some(2));
    assert_eq!(c.get("a"), Some(1));
    assert_eq!(c.get("c"), None);
    assert_eq!(c.top_keys(5), vec!["b", "a"]);
    c.decrement("b");
    c.decrement("a");
    c.decrement("zzz");
    assert_eq!(c.get("b"), Some(1));
    assert_eq!(c.get("a"), None);
    let d = TextCounts::from_entries(vec![("x".to_string(), 3), ("y".to_string(), 1), ("x".to_string(), 5)]);
    assert_eq!(d.get("x"), Some(5));
    assert_eq!(d.entries().len(), 2);
}
