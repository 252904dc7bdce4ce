//! Learner memory: which questions a learner keeps getting wrong, which
//! answers they confuse, which words trouble them, and when a missed question
//! may come back.

use std::collections::{HashMap, HashSet};

use vstd::prelude::*;

use vstd::std_specs::iter::IteratorSpec;

use crate::models::{Answer, ExamRecord, LearnerMemory, MemorySummary, Question, RecentSession};
use crate::order::{is_stable_newest_first, lemma_stable_keeps_items, sort_newest_first, sorted_by, sorted_distinct, sorted_texts, text_order};
use crate::text::{lemma_text_order, chars_of, is_alphabetic, is_alphabetic_char, lower_text, lowercased, push_char, push_str, str_eq, string_from_chars, trim_text, trimmed, utf8_len, utf8_len_at_least};
use crate::counts::{decremented, incremented, TextCounts};

// Memories are stored as JSON files; see `storage` for where.
pub use crate::storage::memory_path;
use crate::order::{id_order, id_ranking, lemma_ranking_is, lists_map, prefix, rank_ids, text_ranking, views_of};

verus! {

broadcast use vstd::std_specs::hash::group_hash_axioms;

/// Correct answers in a row that take a frequently missed question off the list.
pub const RECOVERY_CORRECT_STREAK: u32 = 3;

/// Exams during which a just-missed question is held back.
pub const WRONG_QUESTION_COOLDOWN_EXAMS: u32 = 2;

/// The (id, count) pairs of a count map, each id once.
fn count_pairs(map: &HashMap<u32, u32>) -> (r: Vec<(u32, u32)>)
    ensures
        lists_map(r@, map@),
{
    let mut r: Vec<(u32, u32)> = Vec::new();
    let iter = map.iter();
    let ghost g = iter.remaining();
    assert(g.no_duplicates());
    for p in it: iter
        invariant
            it.seq() == g,
            r@.len() == it.index(),
            forall|i: int| 0 <= i < it.index() ==> (#[trigger] r@[i]) == (*g[i].0, *g[i].1),
    {
        r.push((*p.0, *p.1));
    }
    assert(r@.len() == g.len());
    proof {
        assert forall|a: int, b: int| 0 <= a < b < r@.len() implies (#[trigger] r@[a]).0 != (#[trigger] r@[b]).0 by {
            if r@[a].0 == r@[b].0 {
                assert(*g[a].1 == map@[*g[a].0]);
                assert(*g[b].1 == map@[*g[b].0]);
                assert(g[a] == g[b]);
            }
        }
        assert forall|k: u32| map@.contains_key(k) implies exists|i: int| 0 <= i < r@.len() && (#[trigger] r@[i]).0
            == k by {
            assert(g.contains((&k, &map@[k])));
            let i = choose|i: int| 0 <= i < g.len() && g[i] == (&k, &map@[k]);
            assert(r@[i].0 == k);
        }
    }
    r
}

/// The ids of a count map, most counted first, ties by smaller id; at most
/// `limit` of them.
fn top_question_ids(map: &HashMap<u32, u32>, limit: usize) -> (r: Vec<u32>)
    ensures
        r@ == prefix(id_ranking(map@), limit as int),
{
    let pairs = count_pairs(map);
    let ranked = rank_ids(&pairs, Ghost(map@));
    proof {
        lemma_ranking_is(map@, id_order(), ranked@);
    }
    let mut r: Vec<u32> = Vec::new();
    let mut i: usize = 0;
    while i < ranked.len() && i < limit
        invariant
            i <= ranked.len(),
            i <= limit,
            r@ =~= ranked@.take(i as int),
        decreases ranked.len() - i,
    {
        r.push(ranked[i]);
        i = i + 1;
    }
    proof {
        if limit >= ranked.len() {
            assert(ranked@.take(i as int) =~= ranked@);
        }
    }
    r
}

/// The exams a question is still held back for (0 when none is recorded).
pub open spec fn cooldown_left(cooldowns: Map<u32, u32>, question_id: u32) -> u32 {
    if cooldowns.contains_key(question_id) {
        cooldowns[question_id]
    } else {
        0
    }
}

/// The question is held back from exams.
pub open spec fn on_cooldown(cooldowns: Map<u32, u32>, question_id: u32) -> bool {
    cooldown_left(cooldowns, question_id) > 0
}

/// Questions not held back.
pub open spec fn off_cooldown(cooldowns: Map<u32, u32>) -> spec_fn(u32) -> bool {
    |q: u32| !on_cooldown(cooldowns, q)
}

/// The cooldowns after one more exam has started: every count drops by one
/// and a count of one (or less) is dropped.
pub open spec fn advanced(cooldowns: Map<u32, u32>) -> Map<u32, u32> {
    Map::new(|k: u32| cooldowns.contains_key(k) && cooldowns[k] > 1, |k: u32| (cooldowns[k] - 1) as u32)
}

fn is_on_cooldown(memory: &LearnerMemory, question_id: u32) -> (r: bool)
    ensures
        r == on_cooldown(memory.question_cooldowns@, question_id),
{
    match memory.question_cooldowns.get(&question_id) {
        Some(remaining) => *remaining > 0,
        None => false,
    }
}

/// The summary handed to the tutor: the five most missed questions, the five
/// most frequent confusions and the six most troublesome words.
pub fn summarize(memory: &LearnerMemory) -> (s: MemorySummary)
    ensures
        s.frequent_wrong_questions@ == prefix(id_ranking(memory.frequently_wrong_question_ids@), 5),
        views_of(s.concept_confusions@) == prefix(text_ranking(memory.concept_confusions@), 5),
        views_of(s.vocabulary_weaknesses@) == prefix(text_ranking(memory.vocabulary_weaknesses@), 6),
{
    MemorySummary {
        frequent_wrong_questions: top_question_ids(&memory.frequently_wrong_question_ids, 5),
        concept_confusions: memory.concept_confusions.top_keys(5),
        vocabulary_weaknesses: memory.vocabulary_weaknesses.top_keys(6),
    }
}

/// The most missed questions (at most `limit`, most missed first) that are
/// not held back.
pub fn prioritized_question_ids(memory: &LearnerMemory, limit: usize) -> (r: Vec<u32>)
    ensures
        r@ == prefix(id_ranking(memory.frequently_wrong_question_ids@), limit as int).filter(
            off_cooldown(memory.question_cooldowns@),
        ),
{
    let top = top_question_ids(&memory.frequently_wrong_question_ids, limit);
    let ghost pred = off_cooldown(memory.question_cooldowns@);
    let mut r: Vec<u32> = Vec::new();
    let mut i: usize = 0;
    while i < top.len()
        invariant
            i <= top.len(),
            pred == off_cooldown(memory.question_cooldowns@),
            r@ == top@.take(i as int).filter(pred),
        decreases top.len() - i,
    {
        let q = top[i];
        proof {
            top@.take(i as int).lemma_filter_push(q, pred);
            assert(top@.take(i + 1) =~= top@.take(i as int).push(q));
        }
        if !is_on_cooldown(memory, q) {
            r.push(q);
        }
        i = i + 1;
    }
    assert(top@.take(i as int) =~= top@);
    r
}

/// How many dataset questions the learner has answered correctly at least
/// once.
pub fn dataset_correct_answers(memory: &LearnerMemory) -> (n: usize)
    ensures
        n == memory.correctly_answered_question_ids@.len(),
{
    memory.correctly_answered_question_ids.len()
}

/// Lowers the count of a question by one, forgetting it when the count would
/// reach zero.
fn decrement_question_weight(map: &mut HashMap<u32, u32>, key: u32)
    ensures
        final(map)@ == decremented(old(map)@, key),
{
    let current = match map.get(&key) {
        Some(count) => Some(*count),
        None => None,
    };
    match current {
        Some(count) => {
            if count > 1 {
                map.insert(key, count - 1);
            } else {
                map.remove(&key);
            }
        },
        None => {},
    }
}

/// Lowers the count of a text by one, forgetting it when the count would
/// reach zero.
fn decrement_string_weight(map: &mut TextCounts, key: &str)
    ensures
        final(map)@ == decremented(old(map)@, key@),
{
    map.decrement(key);
}

/// One more exam has started: every held-back question waits one exam less.
pub fn advance_question_cooldowns(memory: &mut LearnerMemory)
    ensures
        final(memory).question_cooldowns@ == advanced(old(memory).question_cooldowns@),
        final(memory).profile_id == old(memory).profile_id,
        final(memory).correctly_answered_question_ids == old(memory).correctly_answered_question_ids,
        final(memory).frequently_wrong_question_ids == old(memory).frequently_wrong_question_ids,
        final(memory).concept_confusions == old(memory).concept_confusions,
        final(memory).vocabulary_weaknesses == old(memory).vocabulary_weaknesses,
        final(memory).recovery_streaks == old(memory).recovery_streaks,
        final(memory).recent_sessions == old(memory).recent_sessions,
{
    let ghost cd = memory.question_cooldowns@;
    let pairs = count_pairs(&memory.question_cooldowns);
    let mut next: HashMap<u32, u32> = HashMap::new();
    let mut i: usize = 0;
    while i < pairs.len()
        invariant
            i <= pairs.len(),
            lists_map(pairs@, cd),
            next@ == Map::new(|k: u32| (exists|j: int| 0 <= j < i && pairs@[j].0 == k) && cd[k] > 1,
                |k: u32| (cd[k] - 1) as u32),
        decreases pairs.len() - i,
    {
        let (k, v) = pairs[i];
        if v > 1 {
            next.insert(k, v - 1);
        }
        proof {
            assert(cd[k] == v);
            let want = Map::new(|x: u32| (exists|j: int| 0 <= j < i + 1 && pairs@[j].0 == x) && cd[x] > 1,
                |x: u32| (cd[x] - 1) as u32);
            assert forall|x: u32| #[trigger] want.contains_key(x) <==> next@.contains_key(x) by {
                if (exists|j: int| 0 <= j < i + 1 && pairs@[j].0 == x) {
                    let j = choose|j: int| 0 <= j < i + 1 && pairs@[j].0 == x;
                    if j < i {
                        assert(exists|j: int| 0 <= j < i && pairs@[j].0 == x);
                    }
                }
                if (exists|j: int| 0 <= j < i && pairs@[j].0 == x) {
                    let j = choose|j: int| 0 <= j < i && pairs@[j].0 == x;
                    assert(0 <= j < i + 1 && pairs@[j].0 == x);
                }
            }
            assert(next@ =~= want);
        }
        i = i + 1;
    }
    proof {
        assert forall|k: u32| #[trigger] next@.contains_key(k) <==> advanced(cd).contains_key(k) by {
            if cd.contains_key(k) {
                let j = choose|j: int| 0 <= j < pairs.len() && (#[trigger] pairs@[j]).0 == k;
            }
        }
        assert(next@ =~= advanced(cd));
    }
    memory.question_cooldowns = next;
}

/// The questions currently held back.
pub fn cooldown_question_ids(memory: &LearnerMemory) -> (r: HashSet<u32>)
    ensures
        r@ == Set::new(|q: u32| on_cooldown(memory.question_cooldowns@, q)),
{
    let ghost cd = memory.question_cooldowns@;
    let pairs = count_pairs(&memory.question_cooldowns);
    let mut r: HashSet<u32> = HashSet::new();
    let mut i: usize = 0;
    while i < pairs.len()
        invariant
            i <= pairs.len(),
            lists_map(pairs@, cd),
            r@ == Set::new(|k: u32| (exists|j: int| 0 <= j < i && pairs@[j].0 == k) && cd[k] > 0),
        decreases pairs.len() - i,
    {
        let (k, v) = pairs[i];
        if v > 0 {
            r.insert(k);
        }
        proof {
            assert(cd[k] == v);
            let want = Set::new(|x: u32| (exists|j: int| 0 <= j < i + 1 && pairs@[j].0 == x) && cd[x] > 0);
            assert forall|x: u32| #[trigger] want.contains(x) <==> r@.contains(x) by {
                if (exists|j: int| 0 <= j < i + 1 && pairs@[j].0 == x) {
                    let j = choose|j: int| 0 <= j < i + 1 && pairs@[j].0 == x;
                    if j < i {
                        assert(exists|j: int| 0 <= j < i && pairs@[j].0 == x);
                    }
                }
                if (exists|j: int| 0 <= j < i && pairs@[j].0 == x) {
                    let j = choose|j: int| 0 <= j < i && pairs@[j].0 == x;
                    assert(0 <= j < i + 1 && pairs@[j].0 == x);
                }
            }
            assert(r@ =~= want);
        }
        i = i + 1;
    }
    proof {
        assert forall|k: u32| #[trigger] r@.contains(k) <==> on_cooldown(cd, k) by {
            if cd.contains_key(k) {
                let j = choose|j: int| 0 <= j < pairs.len() && (#[trigger] pairs@[j]).0 == k;
            }
        }
        assert(r@ =~= Set::new(|q: u32| on_cooldown(cd, q)));
    }
    r
}

/// How many most-recent finished exams are remembered.
pub const RECENT_SESSION_LIMIT: usize = 10;

/// Sessions paired with their completion stamps.
pub open spec fn session_entries(s: Seq<RecentSession>) -> Seq<((i64, u32), RecentSession)> {
    s.map_values(|x: RecentSession| (x.completed_at.stamp(), x))
}

/// Remembers a finished exam: the sessions are kept newest first (a stable
/// sort by completion time) and only the ten newest stay.
pub fn record_completed_session(memory: &mut LearnerMemory, session: RecentSession)
    ensures
        exists|sorted: Seq<RecentSession>|
            is_stable_newest_first(session_entries(old(memory).recent_sessions@.push(session)), session_entries(sorted))
            && final(memory).recent_sessions@ == prefix(sorted, RECENT_SESSION_LIMIT as int),
        final(memory).profile_id == old(memory).profile_id,
        final(memory).correctly_answered_question_ids == old(memory).correctly_answered_question_ids,
        final(memory).frequently_wrong_question_ids == old(memory).frequently_wrong_question_ids,
        final(memory).concept_confusions == old(memory).concept_confusions,
        final(memory).vocabulary_weaknesses == old(memory).vocabulary_weaknesses,
        final(memory).recovery_streaks == old(memory).recovery_streaks,
        final(memory).question_cooldowns == old(memory).question_cooldowns,
{
    let mut sessions: Vec<RecentSession> = Vec::new();
    core::mem::swap(&mut sessions, &mut memory.recent_sessions);
    sessions.push(session);
    let ghost all = sessions@;
    let ghost entries = session_entries(all);
    let mut keyed: Vec<((i64, u32), RecentSession)> = Vec::new();
    let ghost mut i: int = 0;
    assert(all.len() == sessions.len());
    while sessions.len() > 0
        invariant
            all.len() == i + sessions.len(),
            0 <= i,
            sessions@ == all.skip(i),
            entries == session_entries(all),
            keyed@ == entries.take(i),
        decreases sessions.len(),
    {
        let x = sessions.remove(0);
        let stamp = (x.completed_at.secs, x.completed_at.nanos);
        keyed.push((stamp, x));
        proof {
            assert(keyed@ =~= entries.take(i + 1));
            assert(sessions@ =~= all.skip(i + 1));
            i = i + 1;
        }
    }
    assert(entries.take(i) =~= entries);
    let sorted = sort_newest_first(keyed);
    let ghost sv = sorted@;
    let ghost payloads = sv.map_values(|p: ((i64, u32), RecentSession)| p.1);
    proof {
        lemma_stable_keeps_items(entries, sv);
        assert(session_entries(payloads) =~= sv) by {
            assert forall|k: int| 0 <= k < sv.len() implies session_entries(payloads)[k] == sv[k] by {
                assert(sv.contains(sv[k]));
                assert(entries.contains(sv[k]));
                let a = choose|a: int| 0 <= a < entries.len() && entries[a] == sv[k];
            }
        }
    }
    let mut out: Vec<RecentSession> = Vec::new();
    let mut rest = sorted;
    let ghost mut j: int = 0;
    while rest.len() > 0 && out.len() < RECENT_SESSION_LIMIT
        invariant
            sv.len() == j + rest.len(),
            0 <= j <= RECENT_SESSION_LIMIT,
            rest@ == sv.skip(j),
            payloads == sv.map_values(|p: ((i64, u32), RecentSession)| p.1),
            out@ == payloads.take(j),
        decreases rest.len(),
    {
        let (_stamp, x) = rest.remove(0);
        out.push(x);
        proof {
            assert(out@ =~= payloads.take(j + 1));
            assert(rest@ =~= sv.skip(j + 1));
            j = j + 1;
        }
    }
    proof {
        if j < RECENT_SESSION_LIMIT {
            assert(payloads.take(j) =~= payloads);
        }
        assert(out@ == prefix(payloads, RECENT_SESSION_LIMIT as int));
    }
    memory.recent_sessions = out;
}

// ---------------------------------------------------------------------------
// Vocabulary
// ---------------------------------------------------------------------------

/// Characters that split a text into words: anything but letters and '-'.
pub open spec fn is_token_separator(c: char) -> bool {
    !is_alphabetic_char(c) && c != '-'
}

/// The pieces of `s` between separator characters, empty pieces included, as
/// `str::split` yields them.
pub open spec fn split_pieces(s: Seq<char>) -> Seq<Seq<char>>
    decreases s.len(),
{
    if s.len() == 0 {
        seq![Seq::<char>::empty()]
    } else {
        let p = split_pieces(s.drop_last());
        if is_token_separator(s.last()) {
            p.push(Seq::<char>::empty())
        } else {
            p.update(p.len() - 1, p.last().push(s.last()))
        }
    }
}

proof fn lemma_split_pieces_nonempty(s: Seq<char>)
    ensures
        split_pieces(s).len() >= 1,
    decreases s.len(),
{
    if s.len() > 0 {
        lemma_split_pieces_nonempty(s.drop_last());
    }
}

/// A word as it is counted: trimmed and lower-cased.
pub open spec fn normalized_token(piece: Seq<char>) -> Seq<char> {
    lower_text(trim_text(piece))
}

/// Words too common to be worth remembering.
pub open spec fn is_stopword(t: Seq<char>) -> bool {
    t == "welche"@ || t == "deutschland"@ || t == "menschen"@ || t == "arbeitnehmern"@ || t
        == "arbeitnehmerinnen"@ || t == "arbeitgeber"@ || t == "arbeitgeberin"@
}

/// A word worth remembering: at least five bytes long in UTF-8, and not a
/// stopword.
pub open spec fn is_kept_token(t: Seq<char>) -> bool {
    utf8_len(t) >= 5 && !is_stopword(t)
}

/// The text of the first answer marked correct (empty when there is none).
pub open spec fn correct_text_of(answers: Seq<Answer>) -> Seq<char>
    decreases answers.len(),
{
    if answers.len() == 0 {
        Seq::empty()
    } else if answers[0].correct {
        answers[0].answer_text_original@
    } else {
        correct_text_of(answers.drop_first())
    }
}

/// The text words are taken from: the question, a space, and the correct
/// answer.
pub open spec fn token_source(q: Question) -> Seq<char> {
    q.text_original@ + seq![' '] + correct_text_of(q.answers@)
}

/// The words of a question worth remembering, in text order, with repeats.
pub open spec fn token_candidates(q: Question) -> Seq<Seq<char>> {
    split_pieces(token_source(q)).map_values(|p: Seq<char>| normalized_token(p)).filter(
        |t: Seq<char>| is_kept_token(t),
    )
}

/// The distinct words of a question worth remembering, in text order.
pub open spec fn question_tokens(q: Question) -> Seq<Seq<char>> {
    sorted_texts(token_candidates(q).to_set())
}

fn correct_answer_text(question: &Question) -> (r: String)
    ensures
        r@ == correct_text_of(question.answers@),
{
    let mut i: usize = 0;
    assert(question.answers@.skip(0) =~= question.answers@);
    while i < question.answers.len()
        invariant
            i <= question.answers.len(),
            correct_text_of(question.answers@) == correct_text_of(question.answers@.skip(i as int)),
        decreases question.answers.len() - i,
    {
        assert(question.answers@.skip(i as int).drop_first() =~= question.answers@.skip(i + 1));
        if question.answers[i].correct {
            return question.answers[i].answer_text_original.clone();
        }
        i = i + 1;
    }
    assert(question.answers@.skip(i as int) =~= Seq::<Answer>::empty());
    String::new()
}

fn is_stopword_exec(t: &str) -> (r: bool)
    ensures
        r == is_stopword(t@),
{
    str_eq(t, "welche") || str_eq(t, "deutschland") || str_eq(t, "menschen") || str_eq(t, "arbeitnehmern")
        || str_eq(t, "arbeitnehmerinnen") || str_eq(t, "arbeitgeber") || str_eq(t, "arbeitgeberin")
}

/// Normalizes one piece and keeps it when it is worth remembering.
fn take_piece(tokens: &mut Vec<String>, piece: &Vec<char>)
    ensures
        views_of(final(tokens)@) == if is_kept_token(normalized_token(piece@)) {
            views_of(old(tokens)@).push(normalized_token(piece@))
        } else {
            views_of(old(tokens)@)
        },
{
    let text = string_from_chars(piece);
    let token = lowercased(trimmed(text.as_str()));
    if utf8_len_at_least(token.as_str(), 5) && !is_stopword_exec(token.as_str()) {
        let ghost tv = token@;
        tokens.push(token);
        assert(views_of(tokens@) =~= views_of(old(tokens)@).push(tv));
    }
}

/// The distinct words of a question (and its correct answer) worth
/// remembering, in text order.
fn important_tokens(question: &Question) -> (r: Vec<String>)
    ensures
        views_of(r@) == question_tokens(*question),
        sorted_by(views_of(r@), text_order()),
{
    let mut text = question.text_original.clone();
    push_char(&mut text, ' ');
    let answer = correct_answer_text(question);
    push_str(&mut text, answer.as_str());
    let chars = chars_of(text.as_str());
    assert(chars@ =~= token_source(*question));
    let ghost norm = |p: Seq<char>| normalized_token(p);
    let ghost keep = |t: Seq<char>| is_kept_token(t);
    let mut tokens: Vec<String> = Vec::new();
    let mut current: Vec<char> = Vec::new();
    let ghost mut done: Seq<Seq<char>> = Seq::empty();
    let mut i: usize = 0;
    assert(chars@.take(0) =~= Seq::<char>::empty());
    while i < chars.len()
        invariant
            i <= chars.len(),
            split_pieces(chars@.take(i as int)) == done.push(current@),
            views_of(tokens@) == done.map_values(norm).filter(keep),
            norm == (|p: Seq<char>| normalized_token(p)),
            keep == (|t: Seq<char>| is_kept_token(t)),
        decreases chars.len() - i,
    {
        let c = chars[i];
        assert(chars@.take(i + 1).drop_last() =~= chars@.take(i as int));
        if !is_alphabetic(c) && c != '-' {
            take_piece(&mut tokens, &current);
            proof {
                done.map_values(norm).lemma_filter_push(norm(current@), keep);
                done.lemma_push_map_commute(norm, current@);
                done = done.push(current@);
            }
            current = Vec::new();
            assert(split_pieces(chars@.take(i + 1)) =~= done.push(current@));
        } else {
            let ghost before = current@;
            current.push(c);
            assert(split_pieces(chars@.take(i + 1)) =~= done.push(current@));
        }
        i = i + 1;
    }
    take_piece(&mut tokens, &current);
    proof {
        done.map_values(norm).lemma_filter_push(norm(current@), keep);
        done.lemma_push_map_commute(norm, current@);
        assert(chars@.take(i as int) =~= chars@);
        assert(views_of(tokens@) == token_candidates(*question));
    }
    sorted_distinct(tokens)
}

// ---------------------------------------------------------------------------
// Answers
// ---------------------------------------------------------------------------

/// `s` is in ascending order (repeats allowed).
pub open spec fn ascending(s: Seq<u32>) -> bool {
    forall|i: int, j: int| 0 <= i <= j < s.len() ==> s[i] <= s[j]
}

/// Adds `q` to a list of ids kept in ascending order, unless a binary search
/// finds it there (std `binary_search` then `insert`).
fn insert_id_sorted(ids: &mut Vec<u32>, q: u32)
    ensures
        ascending(old(ids)@) ==> ascending(final(ids)@),
        ascending(old(ids)@) ==> forall|x: u32| #[trigger] final(ids)@.contains(x) <==> (old(ids)@.contains(x) || x == q),
        ascending(old(ids)@) && old(ids)@.contains(q) ==> final(ids)@ == old(ids)@,
        final(ids)@ == old(ids)@ || exists|p: int| 0 <= p <= old(ids)@.len() && final(ids)@ == old(ids)@.insert(p, q),
{
    let ghost sorted = ascending(ids@);
    let mut lo: usize = 0;
    let mut hi: usize = ids.len();
    while lo < hi
        invariant
            lo <= hi <= ids.len(),
            sorted == ascending(ids@),
            sorted ==> forall|i: int| 0 <= i < lo ==> (#[trigger] ids@[i]) < q,
            sorted ==> forall|i: int| hi <= i < ids.len() ==> (#[trigger] ids@[i]) > q,
        decreases hi - lo,
    {
        let mid = lo + (hi - lo) / 2;
        if ids[mid] == q {
            assert(ids@.contains(ids@[mid as int]));
            return;
        } else if ids[mid] < q {
            lo = mid + 1;
        } else {
            hi = mid;
        }
    }
    let ghost o = ids@;
    ids.insert(lo, q);
    proof {
        assert(0 <= lo <= o.len() && ids@ == o.insert(lo as int, q));
        if sorted {
            assert(!o.contains(q));
            assert(ids@ =~= o.take(lo as int).push(q) + o.skip(lo as int));
            assert forall|x: u32| #[trigger] ids@.contains(x) <==> (o.contains(x) || x == q) by {
                if ids@.contains(x) {
                    let k = choose|k: int| 0 <= k < ids@.len() && ids@[k] == x;
                    if k < lo {
                        assert(o[k] == x);
                    } else if k > lo {
                        assert(o[k - 1] == x);
                    }
                }
                if o.contains(x) {
                    let k = choose|k: int| 0 <= k < o.len() && o[k] == x;
                    if k < lo {
                        assert(ids@[k] == x);
                    } else {
                        assert(ids@[k + 1] == x);
                    }
                }
                if x == q {
                    assert(ids@[lo as int] == x);
                }
            }
        }
    }
}

/// Correct answers in a row recorded for a question (0 when none).
pub open spec fn streak_of(streaks: Map<u32, u32>, question_id: u32) -> u32 {
    if streaks.contains_key(question_id) {
        streaks[question_id]
    } else {
        0
    }
}

/// A correct answer to a frequently missed question completes its recovery
/// streak.
pub open spec fn recovers(wrong: Map<u32, u32>, streaks: Map<u32, u32>, question_id: u32) -> bool {
    wrong.contains_key(question_id) && streak_of(streaks, question_id) + 1 >= RECOVERY_CORRECT_STREAK
}

/// The streaks after a correct answer: the streak of a frequently missed
/// question grows by one and is cleared on recovery; any other question's
/// streak is cleared.
pub open spec fn streaks_after_correct(wrong: Map<u32, u32>, streaks: Map<u32, u32>, question_id: u32) -> Map<
    u32,
    u32,
> {
    if wrong.contains_key(question_id) && !recovers(wrong, streaks, question_id) {
        streaks.insert(question_id, (streak_of(streaks, question_id) + 1) as u32)
    } else {
        streaks.remove(question_id)
    }
}

/// The counts after raising each key of `keys` in turn.
pub open spec fn incremented_all(m: Map<Seq<char>, u32>, keys: Seq<Seq<char>>) -> Map<Seq<char>, u32>
    decreases keys.len(),
{
    if keys.len() == 0 {
        m
    } else {
        incremented(incremented_all(m, keys.drop_last()), keys.last())
    }
}

/// The counts after lowering each key of `keys` in turn.
pub open spec fn decremented_all(m: Map<Seq<char>, u32>, keys: Seq<Seq<char>>) -> Map<Seq<char>, u32>
    decreases keys.len(),
{
    if keys.len() == 0 {
        m
    } else {
        decremented(decremented_all(m, keys.drop_last()), keys.last())
    }
}

/// The words of a question that an answer affects: its first four.
pub open spec fn affected_tokens(q: Question) -> Seq<Seq<char>> {
    prefix(question_tokens(q), 4)
}

/// How a confusion is recorded: "selected -> correct".
pub open spec fn confusion_key(selected_key: Seq<char>, correct_key: Seq<char>) -> Seq<char> {
    selected_key + seq![' ', '-', '>', ' '] + correct_key
}

proof fn lemma_incremented_all_other(m: Map<Seq<char>, u32>, keys: Seq<Seq<char>>, k: Seq<char>)
    requires
        !keys.contains(k),
    ensures
        incremented_all(m, keys).contains_key(k) == m.contains_key(k),
        m.contains_key(k) ==> incremented_all(m, keys)[k] == m[k],
    decreases keys.len(),
{
    if keys.len() > 0 {
        assert(!keys.drop_last().contains(k)) by {
            if keys.drop_last().contains(k) {
                let i = choose|i: int| 0 <= i < keys.drop_last().len() && keys.drop_last()[i] == k;
                assert(keys[i] == k);
            }
        }
        assert(keys.last() != k) by {
            if keys.last() == k {
                assert(keys[keys.len() - 1] == k);
            }
        }
        lemma_incremented_all_other(m, keys.drop_last(), k);
    }
}

/// Learns from an answer. A correct answer adds the question to the ones
/// answered correctly and advances its recovery streak if it is frequently
/// missed; at three in a row the question's miss count and the counts of its
/// first four words drop by one. A wrong answer counts the miss, clears the
/// streak, holds the question back for two exams, counts the confusion
/// "selected -> correct" and the question's first four words.
pub fn update_after_answer(
    memory: &mut LearnerMemory,
    question: &Question,
    selected_key: &str,
    correct_key: &str,
    is_correct: bool,
)
    requires
        is_correct && old(memory).frequently_wrong_question_ids@.contains_key(question.id) ==> streak_of(
            old(memory).recovery_streaks@,
            question.id,
        ) < u32::MAX,
        !is_correct && old(memory).frequently_wrong_question_ids@.contains_key(question.id)
            ==> old(memory).frequently_wrong_question_ids@[question.id] < u32::MAX,
        !is_correct && old(memory).concept_confusions@.contains_key(confusion_key(selected_key@, correct_key@))
            ==> old(memory).concept_confusions@[confusion_key(selected_key@, correct_key@)] < u32::MAX,
        !is_correct ==> forall|k: Seq<char>| #[trigger]
            affected_tokens(*question).contains(k) && old(memory).vocabulary_weaknesses@.contains_key(k)
            ==> old(memory).vocabulary_weaknesses@[k] < u32::MAX,
    ensures
        final(memory).profile_id == old(memory).profile_id,
        final(memory).recent_sessions == old(memory).recent_sessions,
        is_correct ==> {
            let q = question.id;
            let recovered = recovers(old(memory).frequently_wrong_question_ids@, old(memory).recovery_streaks@, q);
            &&& ascending(old(memory).correctly_answered_question_ids@) ==> ascending(
                final(memory).correctly_answered_question_ids@,
            )
            &&& ascending(old(memory).correctly_answered_question_ids@) ==> forall|x: u32| #[trigger]
                final(memory).correctly_answered_question_ids@.contains(x) <==> (
                old(memory).correctly_answered_question_ids@.contains(x) || x == q)
            &&& ascending(old(memory).correctly_answered_question_ids@)
                && old(memory).correctly_answered_question_ids@.contains(q)
                ==> final(memory).correctly_answered_question_ids@ == old(memory).correctly_answered_question_ids@
            &&& final(memory).correctly_answered_question_ids@ == old(memory).correctly_answered_question_ids@
                || exists|p: int| 0 <= p <= old(memory).correctly_answered_question_ids@.len()
                && final(memory).correctly_answered_question_ids@ == old(
                memory,
            ).correctly_answered_question_ids@.insert(p, q)
            &&& final(memory).frequently_wrong_question_ids@ == if recovered {
                decremented(old(memory).frequently_wrong_question_ids@, q)
            } else {
                old(memory).frequently_wrong_question_ids@
            }
            &&& final(memory).recovery_streaks@ == streaks_after_correct(
                old(memory).frequently_wrong_question_ids@,
                old(memory).recovery_streaks@,
                q,
            )
            &&& final(memory).vocabulary_weaknesses@ == if recovered {
                decremented_all(old(memory).vocabulary_weaknesses@, affected_tokens(*question))
            } else {
                old(memory).vocabulary_weaknesses@
            }
            &&& final(memory).concept_confusions@ == old(memory).concept_confusions@
            &&& final(memory).question_cooldowns == old(memory).question_cooldowns
        },
        !is_correct ==> {
            let q = question.id;
            &&& final(memory).correctly_answered_question_ids == old(memory).correctly_answered_question_ids
            &&& final(memory).frequently_wrong_question_ids@ == incremented(
                old(memory).frequently_wrong_question_ids@,
                q,
            )
            &&& final(memory).recovery_streaks@ == old(memory).recovery_streaks@.remove(q)
            &&& final(memory).question_cooldowns@ == old(memory).question_cooldowns@.insert(
                q,
                WRONG_QUESTION_COOLDOWN_EXAMS,
            )
            &&& final(memory).concept_confusions@ == incremented(
                old(memory).concept_confusions@,
                confusion_key(selected_key@, correct_key@),
            )
            &&& final(memory).vocabulary_weaknesses@ == incremented_all(
                old(memory).vocabulary_weaknesses@,
                affected_tokens(*question),
            )
        },
{
    let q = question.id;
    if is_correct {
        insert_id_sorted(&mut memory.correctly_answered_question_ids, q);
        if memory.frequently_wrong_question_ids.contains_key(&q) {
            let previous: u32 = match memory.recovery_streaks.get(&q) {
                Some(streak) => *streak,
                None => 0,
            };
            let streak = previous + 1;
            memory.recovery_streaks.insert(q, streak);
            if streak >= RECOVERY_CORRECT_STREAK {
                decrement_question_weight(&mut memory.frequently_wrong_question_ids, q);
                let tokens = important_tokens(question);
                decrement_words(&mut memory.vocabulary_weaknesses, &tokens);
                memory.recovery_streaks.remove(&q);
                assert(memory.recovery_streaks@ =~= old(memory).recovery_streaks@.remove(q));
            }
        } else {
            memory.recovery_streaks.remove(&q);
        }
        return;
    }
    let previous: u32 = match memory.frequently_wrong_question_ids.get(&q) {
        Some(count) => *count,
        None => 0,
    };
    memory.frequently_wrong_question_ids.insert(q, previous + 1);
    memory.recovery_streaks.remove(&q);
    memory.question_cooldowns.insert(q, WRONG_QUESTION_COOLDOWN_EXAMS);
    let mut confusion = String::new();
    push_str(&mut confusion, selected_key);
    push_char(&mut confusion, ' ');
    push_char(&mut confusion, '-');
    push_char(&mut confusion, '>');
    push_char(&mut confusion, ' ');
    push_str(&mut confusion, correct_key);
    assert(confusion@ =~= confusion_key(selected_key@, correct_key@));
    memory.concept_confusions.increment(confusion);
    let tokens = important_tokens(question);
    assert(prefix(views_of(tokens@), 4) == affected_tokens(*question));
    increment_words(&mut memory.vocabulary_weaknesses, &tokens);
}

/// Lowers the counts of the first four of `tokens`.
fn decrement_words(counts: &mut TextCounts, tokens: &Vec<String>)
    ensures
        final(counts)@ == decremented_all(old(counts)@, prefix(views_of(tokens@), 4)),
{
    let ghost start = counts@;
    let ghost tv = views_of(tokens@);
    let mut i: usize = 0;
    while i < tokens.len() && i < 4
        invariant
            i <= tokens.len(),
            i <= 4,
            tv == views_of(tokens@),
            counts@ == decremented_all(start, tv.take(i as int)),
        decreases tokens.len() - i,
    {
        decrement_string_weight(counts, tokens[i].as_str());
        assert(tv.take(i + 1).drop_last() =~= tv.take(i as int));
        i = i + 1;
    }
    proof {
        if tokens.len() <= 4 {
            assert(tv.take(i as int) =~= tv);
        }
    }
}

/// Raises the counts of the first four of `tokens`, which are distinct.
fn increment_words(counts: &mut TextCounts, tokens: &Vec<String>)
    requires
        sorted_by(views_of(tokens@), text_order()),
        forall|k: Seq<char>| #[trigger]
            prefix(views_of(tokens@), 4).contains(k) && old(counts)@.contains_key(k) ==> old(counts)@[k] < u32::MAX,
    ensures
        final(counts)@ == incremented_all(old(counts)@, prefix(views_of(tokens@), 4)),
{
    let ghost start = counts@;
    let ghost tv = views_of(tokens@);
    let mut i: usize = 0;
    while i < tokens.len() && i < 4
        invariant
            i <= tokens.len(),
            i <= 4,
            tv == views_of(tokens@),
            sorted_by(tv, text_order()),
            forall|k: Seq<char>| #[trigger] prefix(tv, 4).contains(k) && start.contains_key(k) ==> start[k] < u32::MAX,
            counts@ == incremented_all(start, tv.take(i as int)),
        decreases tokens.len() - i,
    {
        proof {
            assert(!tv.take(i as int).contains(tv[i as int])) by {
                if tv.take(i as int).contains(tv[i as int]) {
                    let a = choose|a: int| 0 <= a < i && tv.take(i as int)[a] == tv[i as int];
                    assert(text_order()(tv[a], tv[i as int]));
                    lemma_text_order(tv[a], tv[a], tv[a]);
                }
            }
            lemma_incremented_all_other(start, tv.take(i as int), tv[i as int]);
            assert(prefix(tv, 4)[i as int] == tv[i as int]);
            assert(prefix(tv, 4).contains(tv[i as int]));
        }
        counts.increment(tokens[i].clone());
        assert(tv.take(i + 1).drop_last() =~= tv.take(i as int));
        i = i + 1;
    }
    proof {
        if tokens.len() <= 4 {
            assert(tv.take(i as int) =~= tv);
        }
    }
}

// ---------------------------------------------------------------------------
// Backfill
// ---------------------------------------------------------------------------

/// `s` is strictly ascending.
pub open spec fn strictly_ascending(s: Seq<u32>) -> bool {
    forall|i: int, j: int| 0 <= i < j < s.len() ==> s[i] < s[j]
}

/// A record of this profile holds a correct answer to question `q`.
pub open spec fn answered_correctly_in(records: Seq<ExamRecord>, profile_id: Seq<char>, q: u32) -> bool {
    exists|r: int, k: int|
        0 <= r < records.len() && records[r].profile_id@ == profile_id && 0 <= k < records[r].submissions@.len()
            && #[trigger] records[r].submissions@[k].is_correct && records[r].submissions@[k].question_id == q
}

/// Adds `q` to a strictly ascending list unless it is there.
fn insert_unique_ascending(v: &mut Vec<u32>, q: u32)
    requires
        strictly_ascending(old(v)@),
    ensures
        strictly_ascending(final(v)@),
        forall|x: u32| #[trigger] final(v)@.contains(x) <==> (old(v)@.contains(x) || x == q),
{
    let mut p: usize = 0;
    while p < v.len() && v[p] < q
        invariant
            p <= v.len(),
            forall|i: int| 0 <= i < p ==> (#[trigger] v@[i]) < q,
        decreases v.len() - p,
    {
        p = p + 1;
    }
    if p < v.len() && v[p] == q {
        assert(v@.contains(v@[p as int]));
        return;
    }
    let ghost o = v@;
    v.insert(p, q);
    assert(v@ =~= o.take(p as int).push(q) + o.skip(p as int));
    assert forall|x: u32| #[trigger] v@.contains(x) <==> (o.contains(x) || x == q) by {
        if v@.contains(x) {
            let k = choose|k: int| 0 <= k < v@.len() && v@[k] == x;
            if k < p {
                assert(o[k] == x);
            } else if k > p {
                assert(o[k - 1] == x);
            }
        }
        if o.contains(x) {
            let k = choose|k: int| 0 <= k < o.len() && o[k] == x;
            if k < p {
                assert(v@[k] == x);
            } else {
                assert(v@[k + 1] == x);
            }
        }
        if x == q {
            assert(v@[p as int] == x);
        }
    }
}

/// Rebuilds the list of correctly answered questions from the exam records:
/// the ids already remembered plus every question answered correctly in a
/// record of this profile, ascending, each once.
pub fn restore_correct_progress(memory: &mut LearnerMemory, records: &Vec<ExamRecord>)
    ensures
        strictly_ascending(final(memory).correctly_answered_question_ids@),
        forall|x: u32| #[trigger] final(memory).correctly_answered_question_ids@.contains(x) <==> (old(
            memory,
        ).correctly_answered_question_ids@.contains(x) || answered_correctly_in(
            records@,
            old(memory).profile_id@,
            x,
        )),
        final(memory).profile_id == old(memory).profile_id,
        final(memory).frequently_wrong_question_ids == old(memory).frequently_wrong_question_ids,
        final(memory).concept_confusions == old(memory).concept_confusions,
        final(memory).vocabulary_weaknesses == old(memory).vocabulary_weaknesses,
        final(memory).recovery_streaks == old(memory).recovery_streaks,
        final(memory).question_cooldowns == old(memory).question_cooldowns,
        final(memory).recent_sessions == old(memory).recent_sessions,
{
    let ghost before = memory.correctly_answered_question_ids@;
    let ghost profile = memory.profile_id@;
    let mut ids: Vec<u32> = Vec::new();
    let mut i: usize = 0;
    while i < memory.correctly_answered_question_ids.len()
        invariant
            i <= memory.correctly_answered_question_ids.len(),
            before == memory.correctly_answered_question_ids@,
            strictly_ascending(ids@),
            forall|x: u32| #[trigger] ids@.contains(x) <==> before.take(i as int).contains(x),
        decreases memory.correctly_answered_question_ids.len() - i,
    {
        let q = memory.correctly_answered_question_ids[i];
        insert_unique_ascending(&mut ids, q);
        proof {
            assert(before.take(i + 1) =~= before.take(i as int).push(q));
            assert forall|x: u32| #[trigger] ids@.contains(x) <==> before.take(i + 1).contains(x) by {
                if before.take(i as int).contains(x) {
                    let a = choose|a: int| 0 <= a < i && before.take(i as int)[a] == x;
                    assert(before.take(i + 1)[a] == x);
                }
                if x == q {
                    assert(before.take(i + 1)[i as int] == x);
                }
            }
        }
        i = i + 1;
    }
    assert(before.take(i as int) =~= before);
    let mut r: usize = 0;
    while r < records.len()
        invariant
            r <= records.len(),
            profile == memory.profile_id@,
            strictly_ascending(ids@),
            forall|x: u32| #[trigger] ids@.contains(x) <==> (before.contains(x) || answered_correctly_in(
                records@.take(r as int),
                profile,
                x,
            )),
        decreases records.len() - r,
    {
        let record = &records[r];
        let matches = str_eq(record.profile_id.as_str(), memory.profile_id.as_str());
        let mut k: usize = 0;
        while k < record.submissions.len()
            invariant
                k <= record.submissions.len(),
                r < records.len(),
                *record == records@[r as int],
                profile == memory.profile_id@,
                matches == (record.profile_id@ == profile),
                strictly_ascending(ids@),
                forall|x: u32| #[trigger] ids@.contains(x) <==> (before.contains(x) || answered_correctly_in(
                    records@.take(r as int),
                    profile,
                    x,
                ) || (matches && exists|j: int| 0 <= j < k && #[trigger] record.submissions@[j].is_correct
                    && record.submissions@[j].question_id == x)),
            decreases record.submissions.len() - k,
        {
            if matches && record.submissions[k].is_correct {
                insert_unique_ascending(&mut ids, record.submissions[k].question_id);
            }
            proof {
                let sk = record.submissions@[k as int];
                assert forall|x: u32| #[trigger] ids@.contains(x) <==> (before.contains(x) || answered_correctly_in(
                    records@.take(r as int),
                    profile,
                    x,
                ) || (matches && exists|j: int| 0 <= j < k + 1 && #[trigger] record.submissions@[j].is_correct
                    && record.submissions@[j].question_id == x)) by {
                    if matches && exists|j: int| 0 <= j < k + 1 && #[trigger] record.submissions@[j].is_correct
                        && record.submissions@[j].question_id == x {
                        let j = choose|j: int| 0 <= j < k + 1 && #[trigger] record.submissions@[j].is_correct
                            && record.submissions@[j].question_id == x;
                        if j < k {
                            assert(exists|j: int| 0 <= j < k && #[trigger] record.submissions@[j].is_correct
                                && record.submissions@[j].question_id == x);
                        }
                    }
                    if matches && exists|j: int| 0 <= j < k && #[trigger] record.submissions@[j].is_correct
                        && record.submissions@[j].question_id == x {
                        let j = choose|j: int| 0 <= j < k && #[trigger] record.submissions@[j].is_correct
                            && record.submissions@[j].question_id == x;
                        assert(0 <= j < k + 1);
                    }
                }
            }
            k = k + 1;
        }
        proof {
            let rs = records@.take(r as int);
            let rs1 = records@.take(r + 1);
            assert forall|x: u32| answered_correctly_in(rs1, profile, x) <==> (answered_correctly_in(rs, profile, x)
                || (matches && exists|j: int| 0 <= j < record.submissions@.len()
                && #[trigger] record.submissions@[j].is_correct && record.submissions@[j].question_id == x)) by {
                if answered_correctly_in(rs1, profile, x) {
                    let (a, b) = choose|a: int, b: int|
                        0 <= a < rs1.len() && rs1[a].profile_id@ == profile && 0 <= b < rs1[a].submissions@.len()
                            && #[trigger] rs1[a].submissions@[b].is_correct && rs1[a].submissions@[b].question_id
                            == x;
                    if a < r {
                        assert(rs[a] == rs1[a]);
                        assert(rs[a].submissions@[b].is_correct);
                    } else {
                        assert(record.submissions@[b].is_correct);
                    }
                }
                if answered_correctly_in(rs, profile, x) {
                    let (a, b) = choose|a: int, b: int|
                        0 <= a < rs.len() && rs[a].profile_id@ == profile && 0 <= b < rs[a].submissions@.len()
                            && #[trigger] rs[a].submissions@[b].is_correct && rs[a].submissions@[b].question_id
                            == x;
                    assert(rs1[a] == rs[a]);
                    assert(rs1[a].submissions@[b].is_correct);
                }
                if matches && exists|j: int| 0 <= j < record.submissions@.len()
                    && #[trigger] record.submissions@[j].is_correct && record.submissions@[j].question_id == x {
                    let j = choose|j: int| 0 <= j < record.submissions@.len()
                        && #[trigger] record.submissions@[j].is_correct && record.submissions@[j].question_id == x;
                    assert(rs1[r as int] == *record);
                    assert(rs1[r as int].submissions@[j].is_correct);
                }
            }
        }
        r = r + 1;
    }
    assert(records@.take(r as int) =~= records@);
    memory.correctly_answered_question_ids = ids;
}

/// Recording the answer raises no count past the largest `u32` (what
/// `update_after_answer` requires).
pub open spec fn answer_fits(
    memory: LearnerMemory,
    question: Question,
    selected_key: Seq<char>,
    correct_key: Seq<char>,
    is_correct: bool,
) -> bool {
    let question_id = question.id;
    &&& is_correct && memory.frequently_wrong_question_ids@.contains_key(question_id) ==> streak_of(
        memory.recovery_streaks@,
        question_id,
    ) < u32::MAX
    &&& !is_correct && memory.frequently_wrong_question_ids@.contains_key(question_id)
        ==> memory.frequently_wrong_question_ids@[question_id] < u32::MAX
    &&& !is_correct && memory.concept_confusions@.contains_key(confusion_key(selected_key, correct_key))
        ==> memory.concept_confusions@[confusion_key(selected_key, correct_key)] < u32::MAX
    &&& !is_correct ==> forall|k: Seq<char>| #[trigger]
        affected_tokens(question).contains(k) && memory.vocabulary_weaknesses@.contains_key(k)
        ==> memory.vocabulary_weaknesses@[k] < u32::MAX
}

/// Whether none of the first four of `tokens` has reached the largest count.
fn words_below_max(counts: &TextCounts, tokens: &Vec<String>) -> (r: bool)
    ensures
        r == forall|k: Seq<char>| #[trigger]
            prefix(views_of(tokens@), 4).contains(k) && counts@.contains_key(k) ==> counts@[k] < u32::MAX,
{
    let ghost tv = views_of(tokens@);
    let mut i: usize = 0;
    while i < tokens.len() && i < 4
        invariant
            i <= tokens.len(),
            i <= 4,
            tv == views_of(tokens@),
            forall|j: int| #![trigger tv[j]] 0 <= j < i ==> counts@.contains_key(tv[j]) ==> counts@[tv[j]] < u32::MAX,
        decreases tokens.len() - i,
    {
        match counts.get(tokens[i].as_str()) {
            Some(n) => {
                if n == u32::MAX {
                    assert(prefix(tv, 4)[i as int] == tv[i as int]);
                    assert(prefix(tv, 4).contains(tv[i as int]));
                    return false;
                }
            },
            None => {},
        }
        i = i + 1;
    }
    assert forall|k: Seq<char>| #[trigger] prefix(tv, 4).contains(k) && counts@.contains_key(k) implies counts@[k]
        < u32::MAX by {
        let j = choose|j: int| 0 <= j < prefix(tv, 4).len() && prefix(tv, 4)[j] == k;
        assert(prefix(tv, 4)[j] == tv[j]);
    }
    true
}

/// Whether recording the answer fits the counts, tested before it is
/// recorded.
pub fn answer_fits_memory(
    memory: &LearnerMemory,
    question: &Question,
    selected_key: &str,
    correct_key: &str,
    is_correct: bool,
) -> (r: bool)
    ensures
        r == answer_fits(*memory, *question, selected_key@, correct_key@, is_correct),
{
    let question_id = question.id;
    if is_correct {
        if memory.frequently_wrong_question_ids.contains_key(&question_id) {
            match memory.recovery_streaks.get(&question_id) {
                Some(streak) => *streak < u32::MAX,
                None => true,
            }
        } else {
            true
        }
    } else {
        let wrong_fits = match memory.frequently_wrong_question_ids.get(&question_id) {
            Some(count) => *count < u32::MAX,
            None => true,
        };
        let mut confusion = String::new();
        push_str(&mut confusion, selected_key);
        push_char(&mut confusion, ' ');
        push_char(&mut confusion, '-');
        push_char(&mut confusion, '>');
        push_char(&mut confusion, ' ');
        push_str(&mut confusion, correct_key);
        assert(confusion@ =~= confusion_key(selected_key@, correct_key@));
        let confusion_fits = match memory.concept_confusions.get(confusion.as_str()) {
            Some(count) => count < u32::MAX,
            None => true,
        };
        let tokens = important_tokens(question);
        let words_fit = words_below_max(&memory.vocabulary_weaknesses, &tokens);
        assert(prefix(views_of(tokens@), 4) == affected_tokens(*question));
        wrong_fits && confusion_fits && words_fit
    }
}

} // verus!
