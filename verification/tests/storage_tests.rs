use std::path::Path;

use einbuergerung::storage::{
    exam_path, exams_dir_of, join_path, memory_dir_of, memory_path, question_file_candidates, root_data_dir,
};

fn std_join(base: &str, name: &str) -> String {
    Path::new(base).join(name).to_str().unwrap().to_string()
}

#[test]
fn paths_join_like_std() {
    for (base, name) in [("data", "exams"), ("data/", "x"), ("", "x"), ("data", "/abs"), ("a", ""), ("a/b", "c/d")] {
        assert_eq!(join_path(base, name), std_join(base, name), "{base} + {name}");
    }
}

#[test]
fn data_lives_under_data() {
    assert_eq!(root_data_dir(), "data");
    assert_eq!(exams_dir_of("data"), "data/exams");
    assert_eq!(memory_dir_of("data"), "data/memory");
}

#[test]
fn records_are_json_files() {
    assert_eq!(memory_path("data/memory", "anna"), "data/memory/anna.json");
    assert_eq!(exam_path("data/exams", "exam-1-0000000a"), "data/exams/exam-1-0000000a.json");
}

#[test]
fn question_files_are_tried_in_order() {
    assert_eq!(question_file_candidates(), vec!["data/questions.json", "questions-answers-dataset.json"]);
}
