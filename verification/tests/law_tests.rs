use std::collections::HashSet;

use einbuergerung::counts::TextCounts;

use einbuergerung::memory::{advance_question_cooldowns, cooldown_question_ids, update_after_answer};
use einbuergerung::models::{Answer, ExamRecord, LearnerMemory, Question, SubmittedAnswer, Timestamp};
use einbuergerung::quiz::{answer_index, answer_key, create_exam, upsert_submission, validate_questions};
use einbuergerung::routes::{begin_exam, generate_profile_id, sanitize_profile_id};

fn question(id: u32) -> Question {
    Question {
        id,
        text_original: format!("Frage {id}"),
        text_translation: String::new(),
        answers: (0..4)
            .map(|i| Answer {
                answer_text_original: format!("Antwort {i}"),
                answer_text_translation: String::new(),
                correct: i == 0,
            })
            .collect(),
    }
}

fn dataset() -> Vec<Question> {
    (1..=35).chain(301..=304).map(question).collect()
}

#[test]
fn law_wrong_answer_is_held_back_for_two_exams() {
    let qs = dataset();
    let mut m = LearnerMemory::empty("anna".to_string());
    update_after_answer(&mut m, &qs[0], "B", "A", false);
    let (first, _) = begin_exam("anna".to_string(), &mut m, &qs);
    assert!(!first.question_ids.contains(&1));
    let (second, _) = begin_exam("anna".to_string(), &mut m, &qs);
    assert!(!second.question_ids.contains(&1));
    assert!(cooldown_question_ids(&m).is_empty());
    // in the third exam it is back, and drawn first as a missed question
    let (third, _) = begin_exam("anna".to_string(), &mut m, &qs);
    assert!(third.question_ids.contains(&1));
}

#[test]
fn law_cooldowns_count_down() {
    let mut m = LearnerMemory::empty("anna".to_string());
    m.question_cooldowns.insert(9, 2);
    assert!(cooldown_question_ids(&m).contains(&9));
    advance_question_cooldowns(&mut m);
    assert!(cooldown_question_ids(&m).contains(&9));
    advance_question_cooldowns(&mut m);
    assert!(!cooldown_question_ids(&m).contains(&9));
}

#[test]
fn law_exam_holds_distinct_allowed_questions() {
    let qs = dataset();
    let excluded: HashSet<u32> = [2, 4, 6, 302].into_iter().collect();
    for _ in 0..10 {
        let (rec, _) = create_exam("anna".to_string(), &qs, &[5, 2, 303], &excluded, 0);
        let ids: HashSet<u32> = rec.question_ids.iter().copied().collect();
        assert_eq!(ids.len(), rec.question_ids.len());
        assert!(rec.question_ids.len() <= 33);
        assert!(ids.is_disjoint(&excluded));
    }
}

#[test]
fn law_valid_dataset_gives_thirty_three_questions() {
    let qs = dataset();
    assert!(validate_questions(&qs).is_ok());
    for _ in 0..10 {
        let (rec, resp) = create_exam("anna".to_string(), &qs, &[], &HashSet::new(), 0);
        assert_eq!(rec.question_ids.len(), 33);
        assert_eq!(resp.questions.len(), 33);
    }
}

#[test]
fn law_third_correct_answer_recovers() {
    let qs = dataset();
    let mut m = LearnerMemory::empty("anna".to_string());
    update_after_answer(&mut m, &qs[4], "C", "A", false);
    update_after_answer(&mut m, &qs[4], "C", "A", false);
    assert_eq!(m.frequently_wrong_question_ids.get(&5), Some(&2));
    for _ in 0..2 {
        update_after_answer(&mut m, &qs[4], "A", "A", true);
        assert_eq!(m.frequently_wrong_question_ids.get(&5), Some(&2));
    }
    update_after_answer(&mut m, &qs[4], "A", "A", true);
    assert_eq!(m.frequently_wrong_question_ids.get(&5), Some(&1));
}

#[test]
fn law_recovery_undoes_one_miss() {
    let qs = dataset();
    let mut m = LearnerMemory::empty("anna".to_string());
    m.frequently_wrong_question_ids.insert(5, 4);
    update_after_answer(&mut m, &qs[4], "B", "A", false);
    assert_eq!(m.frequently_wrong_question_ids.get(&5), Some(&5));
    for _ in 0..3 {
        update_after_answer(&mut m, &qs[4], "A", "A", true);
    }
    assert_eq!(m.frequently_wrong_question_ids.get(&5), Some(&4));
}

#[test]
fn law_one_answer_per_question() {
    let sub = |id: u32, key: &str| SubmittedAnswer {
        question_id: id,
        selected_key: key.to_string(),
        correct_key: "A".to_string(),
        is_correct: key == "A",
        feedback: None,
        ai_error: None,
        submitted_at: Timestamp { secs: 1, nanos: 0 },
    };
    let mut r = ExamRecord {
        exam_id: "e".to_string(),
        profile_id: "anna".to_string(),
        question_ids: vec![1, 2, 3],
        submissions: vec![],
        started_at: Timestamp { secs: 0, nanos: 0 },
        completed_at: None,
    };
    for (id, key) in [(1, "B"), (2, "A"), (1, "C"), (1, "A"), (2, "D")] {
        upsert_submission(&mut r, sub(id, key));
    }
    let ids: Vec<u32> = r.submissions.iter().map(|s| s.question_id).collect();
    assert_eq!(ids, vec![1, 2]);
    assert_eq!(r.submissions[0].selected_key, "A");
    assert_eq!(r.submissions[1].selected_key, "D");
}

#[test]
fn law_answer_keys_read_back() {
    for i in 0..4 {
        assert_eq!(answer_index(&answer_key(i)), Some(i));
    }
}

#[test]
fn law_sanitize_is_idempotent() {
    let long = "x1".repeat(60);
    for s in ["", "Anna", "a b-c_d!", "ßßß", long.as_str()] {
        let once = sanitize_profile_id(s);
        assert_eq!(sanitize_profile_id(&once), once);
        assert!(once.len() <= 64);
        assert!(once.chars().all(|c| c.is_ascii_alphanumeric() || c == '-' || c == '_'));
    }
}

#[test]
fn law_generated_profile_ids_survive_sanitizing() {
    for _ in 0..5 {
        let id = generate_profile_id();
        assert_eq!(sanitize_profile_id(&id), id);
    }
}

#[test]
fn law_counts_survive_storing() {
    let mut c = TextCounts::new();
    for w in ["firma", "probleme", "firma", "wahl"] {
        c.increment(w.to_string());
    }
    let back = TextCounts::from_entries(c.entries());
    for w in ["firma", "probleme", "wahl", "nichts"] {
        assert_eq!(back.get(w), c.get(w));
    }
    assert_eq!(back.entries().len(), 3);
}

#[test]
fn law_missed_questions_come_first() {
    let qs = dataset();
    let mut m = LearnerMemory::empty("anna".to_string());
    for id in [3u32, 17, 33, 302] {
        m.frequently_wrong_question_ids.insert(id, 1);
    }
    for _ in 0..5 {
        let (rec, _) = begin_exam("anna".to_string(), &mut m, &qs);
        for id in [3u32, 17, 33, 302] {
            assert!(rec.question_ids.contains(&id));
        }
    }
}
