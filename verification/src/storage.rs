//! Where the service keeps its data: paths as text, joined the way
//! `std::path::Path::join` joins them on Unix.

use vstd::prelude::*;

use crate::order::views_of;
use crate::text::{chars_of, owned, push_str};

verus! {

/// The path `name` relative to `base`: `name` itself when it is absolute,
/// else `base` and `name` with one separator between them (none is added
/// when `base` is empty or already ends in one).
pub open spec fn joined(base: Seq<char>, name: Seq<char>) -> Seq<char> {
    if name.len() > 0 && name[0] == '/' {
        name
    } else if base.len() == 0 || base.last() == '/' {
        base + name
    } else {
        base + "/"@ + name
    }
}

/// Joins two paths given as text.
pub fn join_path(base: &str, name: &str) -> (r: String)
    ensures
        r@ == joined(base@, name@),
{
    let b = chars_of(base);
    let n = chars_of(name);
    if n.len() > 0 && n[0] == '/' {
        return owned(name);
    }
    let mut r = owned(base);
    if b.len() > 0 && b[b.len() - 1] != '/' {
        push_str(&mut r, "/");
    }
    push_str(&mut r, name);
    proof {
        reveal_strlit("/");
    }
    r
}

/// The directory all data lives under.
pub open spec fn data_root() -> Seq<char> {
    "data"@
}

pub fn root_data_dir() -> (r: String)
    ensures
        r@ == data_root(),
{
    owned("data")
}

/// The file a record named `stem` is stored in: `<stem>.json` in `dir`.
pub open spec fn json_path(dir: Seq<char>, stem: Seq<char>) -> Seq<char> {
    joined(dir, stem + ".json"@)
}

fn json_path_of(dir: &str, stem: &str) -> (r: String)
    ensures
        r@ == json_path(dir@, stem@),
{
    let mut name = owned(stem);
    push_str(&mut name, ".json");
    join_path(dir, name.as_str())
}

/// The file a learner's memory is stored in.
pub fn memory_path(memory_dir: &str, profile_id: &str) -> (r: String)
    ensures
        r@ == json_path(memory_dir@, profile_id@),
{
    json_path_of(memory_dir, profile_id)
}

/// The file an exam is stored in.
pub fn exam_path(exams_dir: &str, exam_id: &str) -> (r: String)
    ensures
        r@ == json_path(exams_dir@, exam_id@),
{
    json_path_of(exams_dir, exam_id)
}

/// The directory exams are stored in.
pub fn exams_dir_of(root: &str) -> (r: String)
    ensures
        r@ == joined(root@, "exams"@),
{
    join_path(root, "exams")
}

/// The directory learner memories are stored in.
pub fn memory_dir_of(root: &str) -> (r: String)
    ensures
        r@ == joined(root@, "memory"@),
{
    join_path(root, "memory")
}

/// Where the question dataset is looked for, in order: `data/questions.json`,
/// then `questions-answers-dataset.json`.
pub fn question_file_candidates() -> (r: Vec<String>)
    ensures
        views_of(r@) == seq![joined(data_root(), "questions.json"@), "questions-answers-dataset.json"@],
{
    let root = root_data_dir();
    let mut r: Vec<String> = Vec::new();
    r.push(join_path(root.as_str(), "questions.json"));
    r.push(owned("questions-answers-dataset.json"));
    assert(views_of(r@) =~= seq![joined(data_root(), "questions.json"@), "questions-answers-dataset.json"@]);
    r
}

} // verus!
