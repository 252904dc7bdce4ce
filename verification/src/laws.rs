//! Properties of the exam service that hold across calls: how held-back
//! questions come back, how a missed question recovers, what an exam may
//! contain, how answers are recorded, and how profile ids are cleaned.

use vstd::prelude::*;

use crate::counts::{decremented, incremented, inserted_all};
use crate::memory::{advanced, off_cooldown, on_cooldown, recovers, streaks_after_correct, RECOVERY_CORRECT_STREAK, WRONG_QUESTION_COOLDOWN_EXAMS};
use crate::models::{Answer, ExamRecord, LearnerMemory, Question, ReviewItem, StartExamResponse, SubmittedAnswer};
use crate::order::{id_order, id_ranking, is_ranking, lemma_ranking_is, lists_map, prefix, rank_order, ranks_before, sorted_by};
use crate::quiz::{
    berlin_id, dataset_verdict, first_problem, general_id, id_count, question_problem, eligible, exam_drawn, id_among, is_selection, key_index, key_text, lemma_permutation, lemma_positions_facts,
    lemma_positions_push, positions_where, prioritized_at, prioritized_pred, priority_count, remaining_pred, upserted,
    QuestionPool, correct_count, describes, exam_matches, typed_key_index, ANSWERS_PER_QUESTION,
    BERLIN_QUESTION_COUNT, EXAM_QUESTION_COUNT, GENERAL_QUESTION_COUNT, PRIORITY_BERLIN_LIMIT, PRIORITY_GENERAL_LIMIT,
};
use crate::routes::{
    held_back, is_generated_profile_id, priority_order, is_profile_char, profile_id_text, reading_millis, sanitized,
    PROFILE_ID_MAX_CHARS,
};
use crate::text::{decimal_text, digit_char, hex_text, int_text};

verus! {

// ---------------------------------------------------------------------------
// Held-back questions
// ---------------------------------------------------------------------------

/// A question answered wrongly is held back from the next two exams that
/// are started and may be drawn again in the third.
pub proof fn law_wrong_answer_holds_back_two_exams(cooldowns: Map<u32, u32>, question_id: u32)
    ensures
        ({
            let after_wrong = cooldowns.insert(question_id, WRONG_QUESTION_COOLDOWN_EXAMS);
            &&& held_back(after_wrong).contains(question_id)
            &&& held_back(advanced(after_wrong)).contains(question_id)
            &&& !held_back(advanced(advanced(after_wrong))).contains(question_id)
        }),
{
}

/// An exam holds distinct questions of the dataset, none of them held back,
/// at most 30 general and 3 Berlin-specific ones, so at most 33.
pub proof fn law_exam_respects_hold_backs(
    questions: Seq<Question>,
    prioritized: Seq<u32>,
    excluded: Set<u32>,
    positions: Seq<usize>,
)
    requires
        exam_drawn(questions, prioritized, excluded, positions),
    ensures
        forall|i: int|
            0 <= i < positions.len() ==> (#[trigger] positions[i]) < questions.len() && !excluded.contains(
                questions[positions[i] as int].id,
            ),
        positions.no_duplicates(),
        positions.len() <= EXAM_QUESTION_COUNT,
{
    let (general, berlin) = choose|general: Seq<usize>, berlin: Seq<usize>|
        is_selection(
            questions,
            prioritized,
            excluded,
            QuestionPool::General,
            GENERAL_QUESTION_COUNT as int,
            PRIORITY_GENERAL_LIMIT as int,
            general,
        ) && is_selection(
            questions,
            prioritized,
            excluded,
            QuestionPool::Berlin,
            BERLIN_QUESTION_COUNT as int,
            PRIORITY_BERLIN_LIMIT as int,
            berlin,
        ) && positions.to_multiset() == (general + berlin).to_multiset();
    let both = general + berlin;
    lemma_selection_size(questions, prioritized, excluded, QuestionPool::General, GENERAL_QUESTION_COUNT as int, PRIORITY_GENERAL_LIMIT as int, general);
    lemma_selection_size(questions, prioritized, excluded, QuestionPool::Berlin, BERLIN_QUESTION_COUNT as int, PRIORITY_BERLIN_LIMIT as int, berlin);
    assert forall|i: int| 0 <= i < both.len() implies eligible(questions, excluded, if i < general.len() {
        QuestionPool::General
    } else {
        QuestionPool::Berlin
    }, #[trigger] both[i] as int) by {
        if i < general.len() {
            assert(both[i] == general[i]);
        } else {
            assert(both[i] == berlin[i - general.len()]);
        }
    }
    assert(both.no_duplicates()) by {
        assert forall|a: int, b: int| 0 <= a < both.len() && 0 <= b < both.len() && a != b implies both[a]
            != both[b] by {
            if a < general.len() && b < general.len() {
                assert(general[a] != general[b]);
            } else if a >= general.len() && b >= general.len() {
                assert(berlin[a - general.len()] != berlin[b - general.len()]);
            } else {
                let pa = both[a] as int;
                let pb = both[b] as int;
                assert(eligible(questions, excluded, if a < general.len() {
                    QuestionPool::General
                } else {
                    QuestionPool::Berlin
                }, pa));
                assert(eligible(questions, excluded, if b < general.len() {
                    QuestionPool::General
                } else {
                    QuestionPool::Berlin
                }, pb));
            }
        }
    }
    lemma_permutation(both, positions);
    assert forall|i: int| 0 <= i < positions.len() implies (#[trigger] positions[i]) < questions.len()
        && !excluded.contains(questions[positions[i] as int].id) by {
        assert(positions.contains(positions[i]));
        assert(both.contains(positions[i]));
        let j = choose|j: int| 0 <= j < both.len() && both[j] == positions[i];
        assert(eligible(questions, excluded, if j < general.len() {
            QuestionPool::General
        } else {
            QuestionPool::Berlin
        }, both[j] as int));
    }
}

/// A selection from a pool holds at most `target` questions.
proof fn lemma_selection_size(
    questions: Seq<Question>,
    prioritized: Seq<u32>,
    excluded: Set<u32>,
    pool: QuestionPool,
    target: int,
    limit: int,
    sel: Seq<usize>,
)
    requires
        is_selection(questions, prioritized, excluded, pool, target, limit, sel),
        0 <= target,
    ensures
        sel.len() <= target,
{
}

/// No two questions of the dataset share an id.
pub open spec fn distinct_ids(questions: Seq<Question>) -> bool {
    forall|i: int, j: int|
        0 <= i < j < questions.len() ==> (#[trigger] questions[i]).id != (#[trigger] questions[j]).id
}

/// Positions of questions of a pool that may be asked.
pub open spec fn eligible_pred(questions: Seq<Question>, excluded: Set<u32>, pool: QuestionPool) -> spec_fn(
    int,
) -> bool {
    |p: int| eligible(questions, excluded, pool, p)
}

/// Positions of questions that may be asked but share an id with one of the
/// first `k` selected.
pub open spec fn taken_pred(
    questions: Seq<Question>,
    excluded: Set<u32>,
    pool: QuestionPool,
    sel: Seq<usize>,
    k: int,
) -> spec_fn(int) -> bool {
    |p: int| eligible(questions, excluded, pool, p) && id_among(questions, sel, k, p)
}

/// Splitting a test into two disjoint parts splits its positions.
proof fn lemma_positions_split(n: int, e: spec_fn(int) -> bool, t: spec_fn(int) -> bool, r: spec_fn(int) -> bool)
    requires
        0 <= n <= usize::MAX,
        forall|p: int| #[trigger] e(p) == (t(p) || r(p)),
        forall|p: int| !(#[trigger] t(p) && r(p)),
    ensures
        positions_where(n, e).len() == positions_where(n, t).len() + positions_where(n, r).len(),
    decreases n,
{
    if n == 0 {
        assert(positions_where(0, e) =~= Seq::<usize>::empty());
        assert(positions_where(0, t) =~= Seq::<usize>::empty());
        assert(positions_where(0, r) =~= Seq::<usize>::empty());
    } else {
        lemma_positions_split(n - 1, e, t, r);
        lemma_positions_push(n - 1, e);
        lemma_positions_push(n - 1, t);
        lemma_positions_push(n - 1, r);
        assert(e(n - 1) == (t(n - 1) || r(n - 1)));
        assert(!(t(n - 1) && r(n - 1)));
    }
}

/// With distinct ids, only the first `k` selected positions share an id
/// with one of them.
proof fn lemma_taken_at_most(questions: Seq<Question>, excluded: Set<u32>, pool: QuestionPool, sel: Seq<usize>, k: int)
    requires
        distinct_ids(questions),
        questions.len() <= usize::MAX,
        0 <= k <= sel.len(),
        forall|i: int| 0 <= i < sel.len() ==> eligible(questions, excluded, pool, #[trigger] sel[i] as int),
    ensures
        positions_where(questions.len() as int, taken_pred(questions, excluded, pool, sel, k)).len() <= k,
{
    let n = questions.len() as int;
    let tp = taken_pred(questions, excluded, pool, sel, k);
    let t = positions_where(n, tp);
    lemma_positions_facts(n, tp);
    t.unique_seq_to_set();
    let first = sel.take(k);
    first.lemma_cardinality_of_set();
    assert forall|x: usize| t.to_set().contains(x) implies first.to_set().contains(x) by {
        assert(t.contains(x));
        let i = choose|i: int| 0 <= i < t.len() && t[i] == x;
        assert(tp(t[i] as int));
        let j = choose|j: int| 0 <= j < k && questions[sel[j] as int].id == questions[x as int].id;
        assert(eligible(questions, excluded, pool, sel[j] as int));
        if sel[j] != x {
            if (sel[j] as int) < (x as int) {
                assert(questions[sel[j] as int].id != questions[x as int].id);
            } else {
                assert(questions[x as int].id != questions[sel[j] as int].id);
            }
        }
        assert(first[j] == x);
    }
    vstd::seq_lib::seq_to_set_is_finite(first);
    vstd::set_lib::lemma_len_subset(t.to_set(), first.to_set());
}

/// A selection from a pool with at least `target` questions that may be
/// asked, all with distinct ids, holds exactly `target` questions.
proof fn lemma_selection_full(
    questions: Seq<Question>,
    prioritized: Seq<u32>,
    excluded: Set<u32>,
    pool: QuestionPool,
    target: int,
    limit: int,
    sel: Seq<usize>,
)
    requires
        is_selection(questions, prioritized, excluded, pool, target, limit, sel),
        distinct_ids(questions),
        questions.len() <= usize::MAX,
        0 <= target,
        0 <= limit,
        positions_where(questions.len() as int, eligible_pred(questions, excluded, pool)).len() >= target,
    ensures
        sel.len() == target,
{
    let n = questions.len() as int;
    let k = priority_count(questions, prioritized, excluded, pool, target, limit);
    let e = eligible_pred(questions, excluded, pool);
    let t = taken_pred(questions, excluded, pool, sel, k);
    let r = remaining_pred(questions, excluded, pool, sel, k);
    assert forall|p: int| #[trigger] e(p) == (t(p) || r(p)) by {}
    assert forall|p: int| !(#[trigger] t(p) && r(p)) by {}
    lemma_positions_split(n, e, t, r);
    lemma_taken_at_most(questions, excluded, pool, sel, k);
}

/// An exam from a dataset with distinct ids, where at least 30 general and
/// 3 Berlin-specific questions may be asked, has exactly 33 questions.
pub proof fn law_full_exam(
    questions: Seq<Question>,
    prioritized: Seq<u32>,
    excluded: Set<u32>,
    positions: Seq<usize>,
)
    requires
        exam_drawn(questions, prioritized, excluded, positions),
        distinct_ids(questions),
        questions.len() <= usize::MAX,
        positions_where(questions.len() as int, eligible_pred(questions, excluded, QuestionPool::General)).len()
            >= GENERAL_QUESTION_COUNT,
        positions_where(questions.len() as int, eligible_pred(questions, excluded, QuestionPool::Berlin)).len()
            >= BERLIN_QUESTION_COUNT,
    ensures
        positions.len() == EXAM_QUESTION_COUNT,
{
    let (general, berlin) = choose|general: Seq<usize>, berlin: Seq<usize>|
        is_selection(
            questions,
            prioritized,
            excluded,
            QuestionPool::General,
            GENERAL_QUESTION_COUNT as int,
            PRIORITY_GENERAL_LIMIT as int,
            general,
        ) && is_selection(
            questions,
            prioritized,
            excluded,
            QuestionPool::Berlin,
            BERLIN_QUESTION_COUNT as int,
            PRIORITY_BERLIN_LIMIT as int,
            berlin,
        ) && positions.to_multiset() == (general + berlin).to_multiset();
    lemma_selection_full(questions, prioritized, excluded, QuestionPool::General, GENERAL_QUESTION_COUNT as int, PRIORITY_GENERAL_LIMIT as int, general);
    lemma_selection_full(questions, prioritized, excluded, QuestionPool::Berlin, BERLIN_QUESTION_COUNT as int, PRIORITY_BERLIN_LIMIT as int, berlin);
    lemma_permutation(general + berlin, positions);
}

/// Positions whose question's id passes a test.
pub open spec fn id_at_pred(questions: Seq<Question>, test: spec_fn(u32) -> bool) -> spec_fn(int) -> bool {
    |p: int| test(questions[p].id)
}

/// Questions whose id passes a test.
pub open spec fn question_id_pred(test: spec_fn(u32) -> bool) -> spec_fn(Question) -> bool {
    |q: Question| test(q.id)
}

/// Two tests that agree on `0..n` pick the same positions.
proof fn lemma_positions_agree(n: int, a: spec_fn(int) -> bool, b: spec_fn(int) -> bool)
    requires
        0 <= n <= usize::MAX,
        forall|p: int| 0 <= p < n ==> #[trigger] a(p) == b(p),
    ensures
        positions_where(n, a) == positions_where(n, b),
    decreases n,
{
    if n == 0 {
        assert(positions_where(0, a) =~= Seq::<usize>::empty());
        assert(positions_where(0, b) =~= Seq::<usize>::empty());
    } else {
        lemma_positions_agree(n - 1, a, b);
        lemma_positions_push(n - 1, a);
        lemma_positions_push(n - 1, b);
        assert(a(n - 1) == b(n - 1));
    }
}

/// The positions whose id passes a test are as many as such questions.
proof fn lemma_positions_count(questions: Seq<Question>, test: spec_fn(u32) -> bool, n: int)
    requires
        0 <= n <= questions.len() <= usize::MAX,
    ensures
        positions_where(n, id_at_pred(questions, test)).len() == questions.take(n).filter(question_id_pred(test)).len(),
    decreases n,
{
    if n == 0 {
        assert(positions_where(0, id_at_pred(questions, test)) =~= Seq::<usize>::empty());
        assert(questions.take(0) =~= Seq::<Question>::empty());
        assert(Seq::<Question>::empty().filter(question_id_pred(test)) =~= Seq::<Question>::empty());
    } else {
        lemma_positions_count(questions, test, n - 1);
        lemma_positions_push(n - 1, id_at_pred(questions, test));
        assert(questions.take(n) == questions.take(n - 1).push(questions[n - 1]));
        questions.take(n - 1).lemma_filter_push(questions[n - 1], question_id_pred(test));
    }
}

/// The questions up to `n` raise no problem when the first `n` do not.
proof fn lemma_no_problem(questions: Seq<Question>, n: int, i: int)
    requires
        first_problem(questions, n) is None,
        0 <= i < n,
    ensures
        question_problem(questions, i) is None,
    decreases n,
{
    if i < n - 1 {
        lemma_no_problem(questions, n - 1, i);
    }
}

/// A dataset that passes validation has distinct ids and at least 30
/// general and 3 Berlin-specific questions.
proof fn lemma_valid_dataset(questions: Seq<Question>)
    requires
        dataset_verdict(questions) is Ok,
        questions.len() <= usize::MAX,
    ensures
        distinct_ids(questions),
        positions_where(questions.len() as int, eligible_pred(questions, Set::empty(), QuestionPool::General)).len()
            >= GENERAL_QUESTION_COUNT,
        positions_where(questions.len() as int, eligible_pred(questions, Set::empty(), QuestionPool::Berlin)).len()
            >= BERLIN_QUESTION_COUNT,
{
    let n = questions.len() as int;
    assert forall|i: int, j: int| 0 <= i < j < n implies (#[trigger] questions[i]).id != (#[trigger] questions[j]).id by {
        lemma_no_problem(questions, n, j);
    }
    let g = |id: u32| general_id(id);
    let b = |id: u32| berlin_id(id);
    assert(questions.filter(|q: Question| g(q.id)) =~= questions.filter(question_id_pred(g))) by {
        assert((|q: Question| g(q.id)) =~= question_id_pred(g));
    }
    assert(questions.filter(|q: Question| b(q.id)) =~= questions.filter(question_id_pred(b))) by {
        assert((|q: Question| b(q.id)) =~= question_id_pred(b));
    }
    assert(id_count(questions, g) == questions.filter(question_id_pred(g)).len());
    assert(id_count(questions, b) == questions.filter(question_id_pred(b)).len());
    assert(questions.take(n) =~= questions);
    lemma_positions_count(questions, g, n);
    lemma_positions_count(questions, b, n);
    lemma_positions_agree(n, eligible_pred(questions, Set::empty(), QuestionPool::General), id_at_pred(questions, g));
    lemma_positions_agree(n, eligible_pred(questions, Set::empty(), QuestionPool::Berlin), id_at_pred(questions, b));
}

/// For a learner with nothing held back, every exam drawn from a dataset
/// that passes validation has exactly 33 questions.
pub proof fn law_valid_dataset_gives_full_exam(questions: Seq<Question>, prioritized: Seq<u32>, positions: Seq<usize>)
    requires
        dataset_verdict(questions) is Ok,
        questions.len() <= usize::MAX,
        exam_drawn(questions, prioritized, Set::empty(), positions),
    ensures
        positions.len() == EXAM_QUESTION_COUNT,
{
    lemma_valid_dataset(questions);
    law_full_exam(questions, prioritized, Set::empty(), positions);
}

/// How many missed questions of a pool an exam may start with.
pub open spec fn pool_priority_limit(pool: QuestionPool) -> int {
    match pool {
        QuestionPool::General => PRIORITY_GENERAL_LIMIT as int,
        QuestionPool::Berlin => PRIORITY_BERLIN_LIMIT as int,
    }
}

/// With no more prioritized questions than may lead a selection, the
/// selection holds all of them.
proof fn lemma_selection_takes_all_prioritized(
    questions: Seq<Question>,
    prioritized: Seq<u32>,
    excluded: Set<u32>,
    pool: QuestionPool,
    target: int,
    limit: int,
    sel: Seq<usize>,
    p: int,
)
    requires
        is_selection(questions, prioritized, excluded, pool, target, limit, sel),
        questions.len() <= usize::MAX,
        positions_where(questions.len() as int, prioritized_pred(questions, prioritized, excluded, pool)).len()
            <= limit <= target,
        prioritized_at(questions, prioritized, excluded, pool, p),
    ensures
        sel.contains(p as usize),
{
    let n = questions.len() as int;
    let pp = prioritized_pred(questions, prioritized, excluded, pool);
    let all = positions_where(n, pp);
    let k = priority_count(questions, prioritized, excluded, pool, target, limit);
    assert(k == all.len());
    let first = sel.take(k);
    lemma_positions_facts(n, pp);
    assert(pp(p));
    assert(all.contains(p as usize));
    assert(first.no_duplicates()) by {
        assert forall|a: int, b: int| 0 <= a < first.len() && 0 <= b < first.len() && a != b implies first[a]
            != first[b] by {
            assert(sel[a] != sel[b]);
        }
    }
    first.unique_seq_to_set();
    all.unique_seq_to_set();
    assert forall|x: usize| first.to_set().contains(x) implies all.to_set().contains(x) by {
        let i = choose|i: int| 0 <= i < first.len() && first[i] == x;
        assert(prioritized_at(questions, prioritized, excluded, pool, sel[i] as int));
        assert(pp(x as int));
        assert(eligible(questions, excluded, pool, x as int));
    }
    vstd::seq_lib::seq_to_set_is_finite(first);
    vstd::seq_lib::seq_to_set_is_finite(all);
    vstd::set_lib::lemma_subset_equality(first.to_set(), all.to_set());
    assert(first.to_set().contains(p as usize));
    let i = choose|i: int| 0 <= i < first.len() && first[i] == p as usize;
    assert(sel[i] == p as usize);
}

/// Missed questions come first: when a pool has no more prioritized
/// questions that may be asked than an exam may start with (12 general, 3
/// Berlin-specific), every one of them is in the exam.
pub proof fn law_missed_questions_come_first(
    questions: Seq<Question>,
    prioritized: Seq<u32>,
    excluded: Set<u32>,
    positions: Seq<usize>,
    pool: QuestionPool,
    p: int,
)
    requires
        exam_drawn(questions, prioritized, excluded, positions),
        questions.len() <= usize::MAX,
        positions_where(questions.len() as int, prioritized_pred(questions, prioritized, excluded, pool)).len()
            <= pool_priority_limit(pool),
        prioritized_at(questions, prioritized, excluded, pool, p),
    ensures
        positions.contains(p as usize),
{
    let (general, berlin) = choose|general: Seq<usize>, berlin: Seq<usize>|
        is_selection(
            questions,
            prioritized,
            excluded,
            QuestionPool::General,
            GENERAL_QUESTION_COUNT as int,
            PRIORITY_GENERAL_LIMIT as int,
            general,
        ) && is_selection(
            questions,
            prioritized,
            excluded,
            QuestionPool::Berlin,
            BERLIN_QUESTION_COUNT as int,
            PRIORITY_BERLIN_LIMIT as int,
            berlin,
        ) && positions.to_multiset() == (general + berlin).to_multiset();
    let both = general + berlin;
    match pool {
        QuestionPool::General => {
            lemma_selection_takes_all_prioritized(questions, prioritized, excluded, pool, GENERAL_QUESTION_COUNT as int, PRIORITY_GENERAL_LIMIT as int, general, p);
            let i = choose|i: int| 0 <= i < general.len() && general[i] == p as usize;
            assert(both[i] == p as usize);
        },
        QuestionPool::Berlin => {
            lemma_selection_takes_all_prioritized(questions, prioritized, excluded, pool, BERLIN_QUESTION_COUNT as int, PRIORITY_BERLIN_LIMIT as int, berlin, p);
            let i = choose|i: int| 0 <= i < berlin.len() && berlin[i] == p as usize;
            assert(both[general.len() + i] == p as usize);
        },
    }
    lemma_permutation(both, positions);
}

// ---------------------------------------------------------------------------
// Recovery of missed questions
// ---------------------------------------------------------------------------

/// After a wrong answer (which clears the question's streak), the third
/// correct answer in a row, and not an earlier one, recovers the question.
pub proof fn law_third_correct_answer_recovers(wrong: Map<u32, u32>, streaks: Map<u32, u32>, question_id: u32)
    requires
        wrong.contains_key(question_id),
    ensures
        ({
            let s0 = streaks.remove(question_id);
            let s1 = streaks_after_correct(wrong, s0, question_id);
            let s2 = streaks_after_correct(wrong, s1, question_id);
            &&& !recovers(wrong, s0, question_id)
            &&& !recovers(wrong, s1, question_id)
            &&& recovers(wrong, s2, question_id)
        }),
{
    assert(RECOVERY_CORRECT_STREAK == 3);
}

/// A recovery takes back exactly one miss: raising a count and then lowering
/// it restores the counts, as long as no count is zero and the raised one
/// has room to grow.
pub proof fn law_recovery_undoes_one_miss<K>(counts: Map<K, u32>, key: K)
    requires
        forall|k: K| #[trigger] counts.contains_key(k) ==> counts[k] >= 1,
        counts.contains_key(key) ==> counts[key] < u32::MAX,
    ensures
        decremented(incremented(counts, key), key) == counts,
{
    if counts.contains_key(key) {
        assert(decremented(incremented(counts, key), key) =~= counts);
    } else {
        assert(decremented(incremented(counts, key), key) =~= counts);
    }
}

/// Counts written out as their entries (as `TextCounts::entries` lists
/// them) and read back (as `TextCounts::from_entries` reads them) are the
/// same counts.
pub proof fn law_counts_survive_storing(pairs: Seq<(Seq<char>, u32)>, counts: Map<Seq<char>, u32>)
    requires
        lists_map(pairs, counts),
    ensures
        inserted_all(Map::empty(), pairs) == counts,
    decreases pairs.len(),
{
    if pairs.len() == 0 {
        assert(counts =~= Map::empty()) by {
            assert forall|k: Seq<char>| !counts.contains_key(k) by {
                if counts.contains_key(k) {
                    let i = choose|i: int| 0 <= i < pairs.len() && (#[trigger] pairs[i]).0 == k;
                }
            }
        }
    } else {
        let last = pairs.last();
        let init = pairs.drop_last();
        let rest = counts.remove(last.0);
        assert forall|i: int| 0 <= i < init.len() implies rest.contains_key((#[trigger] init[i]).0)
            && rest[init[i].0] == init[i].1 by {
            assert(init[i] == pairs[i]);
            assert(pairs[i].0 != pairs[pairs.len() - 1].0);
        }
        assert forall|k: Seq<char>| rest.contains_key(k) implies exists|i: int|
            0 <= i < init.len() && (#[trigger] init[i]).0 == k by {
            let i = choose|i: int| 0 <= i < pairs.len() && (#[trigger] pairs[i]).0 == k;
            assert(i != pairs.len() - 1);
            assert(init[i] == pairs[i]);
        }
        assert forall|i: int, j: int| 0 <= i < j < init.len() implies (#[trigger] init[i]).0
            != (#[trigger] init[j]).0 by {
            assert(init[i] == pairs[i] && init[j] == pairs[j]);
        }
        law_counts_survive_storing(init, rest);
        assert(rest.insert(last.0, last.1) =~= counts);
    }
}

// ---------------------------------------------------------------------------
// Answers
// ---------------------------------------------------------------------------

/// No two submissions answer the same question.
pub open spec fn one_per_question(subs: Seq<SubmittedAnswer>) -> bool {
    forall|i: int, j: int|
        0 <= i < j < subs.len() ==> (#[trigger] subs[i]).question_id != (#[trigger] subs[j]).question_id
}

/// Recording an answer keeps one answer per question: the new answer is
/// there, answers to other questions stay, and the earlier answer to the
/// same question is gone.
pub proof fn law_one_answer_per_question(subs: Seq<SubmittedAnswer>, s: SubmittedAnswer)
    requires
        one_per_question(subs),
    ensures
        one_per_question(upserted(subs, s)),
        upserted(subs, s).contains(s),
        forall|t: SubmittedAnswer|
            t.question_id != s.question_id ==> (#[trigger] upserted(subs, s).contains(t) <==> subs.contains(t)),
        forall|t: SubmittedAnswer|
            #[trigger] upserted(subs, s).contains(t) && t.question_id == s.question_id ==> t == s,
{
    let r = upserted(subs, s);
    if exists|k: int| 0 <= k < subs.len() && subs[k].question_id == s.question_id {
        let w = choose|k: int| 0 <= k < subs.len() && subs[k].question_id == s.question_id;
        let k = choose|k: int| crate::quiz::first_for_question(subs, s.question_id, k);
        assert(crate::quiz::first_for_question(subs, s.question_id, w) || exists|j: int|
            0 <= j < w && subs[j].question_id == s.question_id);
        assert(crate::quiz::first_for_question(subs, s.question_id, k)) by {
            if !crate::quiz::first_for_question(subs, s.question_id, w) {
                assert(one_per_question(subs));
                let j = choose|j: int| 0 <= j < w && subs[j].question_id == s.question_id;
                assert(subs[j].question_id == subs[w].question_id);
            }
        }
        assert(r == subs.update(k, s));
        assert(r[k] == s);
        assert forall|t: SubmittedAnswer| t.question_id != s.question_id implies (#[trigger] r.contains(t)
            <==> subs.contains(t)) by {
            if r.contains(t) {
                let i = choose|i: int| 0 <= i < r.len() && r[i] == t;
                assert(i != k);
                assert(subs[i] == t);
            }
            if subs.contains(t) {
                let i = choose|i: int| 0 <= i < subs.len() && subs[i] == t;
                assert(i != k);
                assert(r[i] == t);
            }
        }
        assert forall|t: SubmittedAnswer| #[trigger] r.contains(t) && t.question_id == s.question_id implies t
            == s by {
            let i = choose|i: int| 0 <= i < r.len() && r[i] == t;
            if i != k {
                assert(subs[i].question_id == subs[k].question_id);
                if i < k {
                    assert(subs[i].question_id != subs[k].question_id);
                } else {
                    assert(subs[k].question_id != subs[i].question_id);
                }
            }
        }
        assert forall|i: int, j: int| 0 <= i < j < r.len() implies (#[trigger] r[i]).question_id
            != (#[trigger] r[j]).question_id by {
            if i == k {
                assert(subs[j].question_id != subs[k].question_id);
            } else if j == k {
                assert(subs[i].question_id != subs[k].question_id);
            } else {
                assert(subs[i].question_id != subs[j].question_id);
            }
        }
    } else {
        assert(r == subs.push(s));
        assert(r[subs.len() as int] == s);
        assert forall|t: SubmittedAnswer| t.question_id != s.question_id implies (#[trigger] r.contains(t)
            <==> subs.contains(t)) by {
            if r.contains(t) {
                let i = choose|i: int| 0 <= i < r.len() && r[i] == t;
                assert(i < subs.len());
                assert(subs[i] == t);
            }
            if subs.contains(t) {
                let i = choose|i: int| 0 <= i < subs.len() && subs[i] == t;
                assert(r[i] == t);
            }
        }
        assert forall|t: SubmittedAnswer| #[trigger] r.contains(t) && t.question_id == s.question_id implies t
            == s by {
            let i = choose|i: int| 0 <= i < r.len() && r[i] == t;
            if i < subs.len() {
                assert(subs[i].question_id == s.question_id);
            }
        }
        assert forall|i: int, j: int| 0 <= i < j < r.len() implies (#[trigger] r[i]).question_id
            != (#[trigger] r[j]).question_id by {
            if j == subs.len() {
                assert(subs[i].question_id != s.question_id);
            } else {
                assert(subs[i].question_id != subs[j].question_id);
            }
        }
    }
}

/// Each answer key is read back as the answer it names.
pub proof fn law_answer_keys_read_back(index: int)
    requires
        0 <= index < 4,
    ensures
        key_index(key_text(index)) == Some(index as usize),
{
    let k = key_text(index);
    assert(k.len() == 1);
    if index != 0 {
        assert(k[0] != seq!['A'][0]);
    }
    if index != 1 {
        assert(k[0] != seq!['B'][0]);
    }
    if index != 2 {
        assert(k[0] != seq!['C'][0]);
    }
}

// ---------------------------------------------------------------------------
// Profile ids
// ---------------------------------------------------------------------------

proof fn lemma_filter_all<T>(s: Seq<T>, f: spec_fn(T) -> bool)
    requires
        forall|i: int| 0 <= i < s.len() ==> f(#[trigger] s[i]),
    ensures
        s.filter(f) == s,
    decreases s.len(),
{
    if s.len() == 0 {
        assert(s.filter(f) =~= s);
    } else {
        let init = s.drop_last();
        assert(s == init.push(s.last()));
        lemma_filter_all(init, f);
        init.lemma_filter_push(s.last(), f);
    }
}

/// A cleaned profile id holds only allowed characters, at most 64 of them,
/// and cleaning it again changes nothing.
pub proof fn law_sanitize_is_idempotent(s: Seq<char>)
    ensures
        sanitized(sanitized(s)) == sanitized(s),
        sanitized(s).len() <= PROFILE_ID_MAX_CHARS,
        forall|i: int| 0 <= i < sanitized(s).len() ==> is_profile_char(#[trigger] sanitized(s)[i]),
{
    let f = |c: char| is_profile_char(c);
    let kept = s.filter(f);
    s.filter_lemma(f);
    let once = sanitized(s);
    assert(once == prefix(kept, PROFILE_ID_MAX_CHARS as int));
    assert forall|i: int| 0 <= i < once.len() implies f(#[trigger] once[i]) by {
        assert(once[i] == kept[i]);
    }
    lemma_filter_all(once, f);
}

proof fn lemma_digit_char(d: nat)
    ensures
        is_profile_char(digit_char(d)),
{
}

/// Decimal digits, at most `k` of them for a number below `10^k`.
proof fn lemma_decimal_text(n: nat, k: nat, bound: nat)
    requires
        n < bound,
        k >= 1,
        bound == pow10(k),
    ensures
        decimal_text(n).len() <= k,
        forall|i: int| 0 <= i < decimal_text(n).len() ==> is_profile_char(#[trigger] decimal_text(n)[i]),
    decreases n,
{
    lemma_digit_char(n % 10);
    if n >= 10 {
        assert(k >= 2) by {
            if k == 1 {
                assert(pow10(1) == 10) by {
                    reveal_with_fuel(pow10, 2);
                }
            }
        }
        assert(pow10(k) == 10 * pow10((k - 1) as nat));
        assert(n / 10 < pow10((k - 1) as nat)) by (nonlinear_arith)
            requires
                n < 10 * pow10((k - 1) as nat),
        ;
        lemma_decimal_text(n / 10, (k - 1) as nat, pow10((k - 1) as nat));
        let prev = decimal_text(n / 10);
        assert(decimal_text(n) == prev.push(digit_char(n % 10)));
        assert forall|i: int| 0 <= i < decimal_text(n).len() implies is_profile_char(#[trigger] decimal_text(n)[i]) by {
            if i < prev.len() {
                assert(decimal_text(n)[i] == prev[i]);
            }
        }
    }
}

/// Ten to the power `k`.
pub open spec fn pow10(k: nat) -> nat
    decreases k,
{
    if k == 0 {
        1
    } else {
        10 * pow10((k - 1) as nat)
    }
}

/// Hexadecimal digits, exactly `width` of them.
proof fn lemma_hex_text(n: nat, width: nat)
    ensures
        hex_text(n, width).len() == width,
        forall|i: int| 0 <= i < hex_text(n, width).len() ==> is_profile_char(#[trigger] hex_text(n, width)[i]),
    decreases width,
{
    if width > 0 {
        lemma_hex_text(n / 16, (width - 1) as nat);
        lemma_digit_char(n % 16);
        let prev = hex_text(n / 16, (width - 1) as nat);
        assert forall|i: int| 0 <= i < hex_text(n, width).len() implies is_profile_char(#[trigger] hex_text(n, width)[i]) by {
            if i < prev.len() {
                assert(hex_text(n, width)[i] == prev[i]);
            }
        }
    }
}

/// A profile id the service generates is kept unchanged when it is cleaned,
/// so a learner who sends it back is recognised.
pub proof fn law_generated_profile_ids_survive_sanitizing(id: Seq<char>)
    requires
        is_generated_profile_id(id),
    ensures
        sanitized(id) == id,
{
    let (secs, nanos, suffix) = choose|secs: i64, nanos: u32, suffix: u32|
        secs >= 0 && nanos < 1_000_000_000 && id == #[trigger] profile_id_text(reading_millis(secs, nanos), suffix);
    let millis = reading_millis(secs, nanos);
    assert(0 <= millis < pow10(22)) by {
        reveal_with_fuel(pow10, 23);
    }
    lemma_decimal_text(millis as nat, 22, pow10(22));
    lemma_hex_text(suffix as nat, 8);
    let digits = int_text(millis);
    let hex = hex_text(suffix as nat, 8);
    reveal_strlit("profile-");
    reveal_strlit("-");
    let head = "profile-"@;
    let dash = "-"@;
    assert(id == head + digits + dash + hex);
    assert forall|i: int| 0 <= i < id.len() implies is_profile_char(#[trigger] id[i]) by {
        if i < head.len() {
            assert(id[i] == head[i]);
        } else if i < head.len() + digits.len() {
            assert(id[i] == digits[i - head.len()]);
        } else if i < head.len() + digits.len() + dash.len() {
            assert(id[i] == dash[i - head.len() - digits.len()]);
        } else {
            assert(id[i] == hex[i - head.len() - digits.len() - dash.len()]);
        }
    }
    let f = |c: char| is_profile_char(c);
    lemma_filter_all(id, f);
    assert(id.len() <= PROFILE_ID_MAX_CHARS);
}

// ---------------------------------------------------------------------------
// Accepted datasets
// ---------------------------------------------------------------------------

/// Exactly one of `answers` is marked correct.
pub open spec fn one_marked_correct(answers: Seq<Answer>) -> bool {
    exists|j: int|
        0 <= j < answers.len() && #[trigger] answers[j].correct && forall|k: int|
            0 <= k < answers.len() && (#[trigger] answers[k]).correct ==> k == j
}

/// No item of `s` passes `f`.
pub open spec fn none_passing<T>(s: Seq<T>, f: spec_fn(T) -> bool) -> bool {
    forall|i: int| 0 <= i < s.len() ==> !f(#[trigger] s[i])
}

/// The item at `j` is the only one of `s` that passes `f`.
pub open spec fn only_passing<T>(s: Seq<T>, f: spec_fn(T) -> bool, j: int) -> bool {
    &&& 0 <= j < s.len()
    &&& f(s[j])
    &&& forall|k: int| 0 <= k < s.len() && f(#[trigger] s[k]) ==> k == j
}

/// A filter keeps nothing exactly when no item passes its test.
proof fn lemma_filter_none<T>(s: Seq<T>, f: spec_fn(T) -> bool)
    ensures
        s.filter(f).len() == 0 <==> none_passing(s, f),
    decreases s.len(),
{
    if s.len() == 0 {
        assert(s.filter(f) =~= Seq::<T>::empty());
    } else {
        let init = s.drop_last();
        let n = init.len() as int;
        assert(s =~= init.push(s.last()));
        init.lemma_filter_push(s.last(), f);
        lemma_filter_none(init, f);
        if none_passing(s, f) {
            assert forall|i: int| 0 <= i < n implies !f(#[trigger] init[i]) by {
                assert(s[i] == init[i]);
            }
            assert(!f(s[n]));
        }
        if !f(s.last()) && none_passing(init, f) {
            assert forall|i: int| 0 <= i < s.len() implies !f(#[trigger] s[i]) by {
                if i < n {
                    assert(s[i] == init[i]);
                }
            }
        }
    }
}

/// A filter keeps one item exactly when exactly one item passes its test.
#[verifier::rlimit(40)]
proof fn lemma_filter_one<T>(s: Seq<T>, f: spec_fn(T) -> bool)
    ensures
        s.filter(f).len() == 1 <==> exists|j: int| #[trigger] only_passing(s, f, j),
    decreases s.len(),
{
    if s.len() == 0 {
        assert(s.filter(f) =~= Seq::<T>::empty());
    } else {
        let init = s.drop_last();
        let n = init.len() as int;
        assert(s =~= init.push(s.last()));
        init.lemma_filter_push(s.last(), f);
        lemma_filter_one(init, f);
        lemma_filter_none(init, f);
        if f(s.last()) {
            if none_passing(init, f) {
                assert forall|k: int| 0 <= k < s.len() && f(#[trigger] s[k]) implies k == n by {
                    if k < n {
                        assert(s[k] == init[k]);
                    }
                }
                assert(only_passing(s, f, n));
            } else {
                if exists|j: int| #[trigger] only_passing(s, f, j) {
                    let j = choose|j: int| #[trigger] only_passing(s, f, j);
                    let i = choose|i: int| 0 <= i < n && f(#[trigger] init[i]);
                    assert(s[i] == init[i]);
                    assert(f(s[n]));
                    assert(i == j && n == j);
                }
            }
        } else {
            if exists|j: int| #[trigger] only_passing(init, f, j) {
                let j = choose|j: int| #[trigger] only_passing(init, f, j);
                assert(s[j] == init[j]);
                assert forall|k: int| 0 <= k < s.len() && f(#[trigger] s[k]) implies k == j by {
                    assert(k < n);
                    assert(s[k] == init[k]);
                }
                assert(only_passing(s, f, j));
            }
            if exists|j: int| #[trigger] only_passing(s, f, j) {
                let j = choose|j: int| #[trigger] only_passing(s, f, j);
                assert(j < n);
                assert(s[j] == init[j]);
                assert forall|k: int| 0 <= k < n && f(#[trigger] init[k]) implies k == j by {
                    assert(s[k] == init[k]);
                }
                assert(only_passing(init, f, j));
            }
        }
    }
}

/// No question raises a problem, so none of the first `n` does.
proof fn lemma_first_problem_none(questions: Seq<Question>, n: int)
    requires
        forall|i: int| 0 <= i < n ==> #[trigger] question_problem(questions, i) is None,
    ensures
        first_problem(questions, n) is None,
    decreases n,
{
    if n > 0 {
        lemma_first_problem_none(questions, n - 1);
        assert(question_problem(questions, n - 1) is None);
    }
}

/// A dataset is accepted exactly when it has at least 33 questions, no two
/// with the same id, each with four answers of which exactly one is marked
/// correct, and at least 30 general and 3 Berlin-specific questions.
pub proof fn law_accepted_datasets(questions: Seq<Question>)
    ensures
        dataset_verdict(questions) is Ok <==> {
            &&& questions.len() >= EXAM_QUESTION_COUNT
            &&& distinct_ids(questions)
            &&& forall|i: int|
                0 <= i < questions.len() ==> (#[trigger] questions[i]).answers@.len() == ANSWERS_PER_QUESTION
                    && one_marked_correct(questions[i].answers@)
            &&& questions.filter(|q: Question| general_id(q.id)).len() >= GENERAL_QUESTION_COUNT
            &&& questions.filter(|q: Question| berlin_id(q.id)).len() >= BERLIN_QUESTION_COUNT
        },
{
    let n = questions.len() as int;
    let g = |id: u32| general_id(id);
    let b = |id: u32| berlin_id(id);
    let fc = |a: Answer| a.correct;
    assert((|q: Question| general_id(q.id)) =~= question_id_pred(g));
    assert((|q: Question| berlin_id(q.id)) =~= question_id_pred(b));
    assert(questions.filter(|q: Question| g(q.id)) =~= questions.filter(question_id_pred(g))) by {
        assert((|q: Question| g(q.id)) =~= question_id_pred(g));
    }
    assert(questions.filter(|q: Question| b(q.id)) =~= questions.filter(question_id_pred(b))) by {
        assert((|q: Question| b(q.id)) =~= question_id_pred(b));
    }
    assert(id_count(questions, g) == questions.filter(question_id_pred(g)).len());
    assert(id_count(questions, b) == questions.filter(question_id_pred(b)).len());
    assert forall|i: int| 0 <= i < n implies (correct_count(questions[i].answers@) == 1 <==> one_marked_correct(
        #[trigger] questions[i].answers@,
    )) by {
        let a = questions[i].answers@;
        lemma_filter_one(a, fc);
        assert(correct_count(a) == a.filter(fc).len());
        if one_marked_correct(a) {
            let j = choose|j: int|
                0 <= j < a.len() && #[trigger] a[j].correct && forall|k: int|
                    0 <= k < a.len() && (#[trigger] a[k]).correct ==> k == j;
            assert(only_passing(a, fc, j));
        }
        if exists|j: int| #[trigger] only_passing(a, fc, j) {
            let j = choose|j: int| #[trigger] only_passing(a, fc, j);
            assert(a[j].correct);
            assert forall|k: int| 0 <= k < a.len() && (#[trigger] a[k]).correct implies k == j by {
                assert(fc(a[k]));
            }
        }
    }
    if dataset_verdict(questions) is Ok {
        assert forall|i: int, j: int| 0 <= i < j < n implies (#[trigger] questions[i]).id
            != (#[trigger] questions[j]).id by {
            lemma_no_problem(questions, n, j);
        }
        assert forall|i: int| 0 <= i < n implies (#[trigger] questions[i]).answers@.len() == ANSWERS_PER_QUESTION
            && one_marked_correct(questions[i].answers@) by {
            lemma_no_problem(questions, n, i);
        }
    }
    if {
        &&& questions.len() >= EXAM_QUESTION_COUNT
        &&& distinct_ids(questions)
        &&& forall|i: int|
            0 <= i < questions.len() ==> (#[trigger] questions[i]).answers@.len() == ANSWERS_PER_QUESTION
                && one_marked_correct(questions[i].answers@)
        &&& questions.filter(|q: Question| general_id(q.id)).len() >= GENERAL_QUESTION_COUNT
        &&& questions.filter(|q: Question| berlin_id(q.id)).len() >= BERLIN_QUESTION_COUNT
    } {
        assert forall|i: int| 0 <= i < n implies #[trigger] question_problem(questions, i) is None by {
            assert(questions[i].answers@.len() == ANSWERS_PER_QUESTION && one_marked_correct(questions[i].answers@));
            if exists|j: int| 0 <= j < i && questions[j].id == questions[i].id {
                let j = choose|j: int| 0 <= j < i && questions[j].id == questions[i].id;
                assert(questions[j].id != questions[i].id);
            }
        }
        lemma_first_problem_none(questions, n);
    }
}

// ---------------------------------------------------------------------------
// Recovery streaks
// ---------------------------------------------------------------------------

/// A recovery starts the streak afresh: the correct answer that recovers a
/// question leaves it no streak, so, while it is still often missed, the
/// next two correct answers do not recover it again and the third does.
pub proof fn law_each_recovery_takes_three_answers(wrong: Map<u32, u32>, streaks: Map<u32, u32>, question_id: u32)
    requires
        recovers(wrong, streaks, question_id),
    ensures
        !streaks_after_correct(wrong, streaks, question_id).contains_key(question_id),
        ({
            let w = decremented(wrong, question_id);
            let s0 = streaks_after_correct(wrong, streaks, question_id);
            let s1 = streaks_after_correct(w, s0, question_id);
            let s2 = streaks_after_correct(w, s1, question_id);
            w.contains_key(question_id) ==> !recovers(w, s0, question_id) && !recovers(w, s1, question_id)
                && recovers(w, s2, question_id)
        }),
{
    assert(RECOVERY_CORRECT_STREAK == 3);
}

// ---------------------------------------------------------------------------
// What reviews and the exam screen show
// ---------------------------------------------------------------------------

/// The answer a key names, as read for a review: A to D, anything else as A.
pub open spec fn named_answer(answers: Seq<Answer>, key: Seq<char>) -> Answer {
    answers[match typed_key_index(key) {
        Some(i) => i as int,
        None => 0,
    }]
}

/// Option `i` of a list shown with keys is keyed so that the key reads back
/// as `i` (for the four answers A to D).
proof fn lemma_key_reads_back(i: int)
    requires
        0 <= i,
    ensures
        key_index(key_text(i)) == if i < 4 { Some(i as usize) } else { None::<usize> },
{
    if i < 4 {
        law_answer_keys_read_back(i);
    } else {
        let k = key_text(i);
        assert(k[0] != seq!['A'][0]);
        assert(k[0] != seq!['B'][0]);
        assert(k[0] != seq!['C'][0]);
        assert(k[0] != seq!['D'][0]);
    }
}

/// A review item shows its submission: the question's texts, the keys
/// given, the texts of the answers they name, the verdict, the tutor's
/// feedback and memory trick (empty without a reply), the time, and every
/// answer option keyed in order.
pub proof fn law_review_item_shows_the_answer(item: ReviewItem, q: Question, s: SubmittedAnswer)
    requires
        describes(item, q, s),
    ensures
        item.question_id == q.id,
        item.text_original@ == q.text_original@,
        item.text_translation@ == q.text_translation@,
        item.selected_key@ == s.selected_key@,
        item.correct_key@ == s.correct_key@,
        item.selected_answer_text_original@ == named_answer(q.answers@, s.selected_key@).answer_text_original@,
        item.correct_answer_text_original@ == named_answer(q.answers@, s.correct_key@).answer_text_original@,
        item.is_correct == s.is_correct,
        item.feedback_text@ == match s.feedback {
            Some(f) => f.feedback_text@,
            None => Seq::<char>::empty(),
        },
        item.memory_trick@ == match s.feedback {
            Some(f) => f.memory_trick@,
            None => Seq::<char>::empty(),
        },
        item.ai_error == s.ai_error,
        item.submitted_at == s.submitted_at,
        item.answers@.len() == q.answers@.len(),
        forall|i: int|
            0 <= i < item.answers@.len() ==> key_index((#[trigger] item.answers@[i]).key@) == (if i < 4 {
                Some(i as usize)
            } else {
                None::<usize>
            }) && item.answers@[i].text_original@ == q.answers@[i].answer_text_original@
                && item.answers@[i].text_translation@ == q.answers@[i].answer_text_translation@,
{
    reveal(describes);
    assert forall|i: int| 0 <= i < item.answers@.len() implies key_index((#[trigger] item.answers@[i]).key@) == (
    if i < 4 {
        Some(i as usize)
    } else {
        None::<usize>
    }) by {
        lemma_key_reads_back(i);
    }
}

/// The exam screen shows the drawn questions in the record's order: each
/// with the dataset question's id, German text, English text and answer
/// texts, keyed A, B, C, D, without correctness flags.
pub proof fn law_exam_screen_shows_the_drawn_questions(
    profile_id: Seq<char>,
    questions: Seq<Question>,
    dataset_correct_answers: usize,
    positions: Seq<usize>,
    record: ExamRecord,
    response: StartExamResponse,
)
    requires
        exam_matches(profile_id, questions, dataset_correct_answers, positions, record, response),
    ensures
        response.questions@.len() == record.question_ids@.len(),
        forall|i: int|
            0 <= i < response.questions@.len() ==> {
                let q = questions[positions[i] as int];
                let p = #[trigger] response.questions@[i];
                &&& p.id == q.id
                &&& p.id == record.question_ids@[i]
                &&& p.text_original@ == q.text_original@
                &&& p.text_translation@ == q.text_translation@
                &&& p.answers@.len() == q.answers@.len()
                &&& forall|j: int|
                    0 <= j < p.answers@.len() ==> key_index((#[trigger] p.answers@[j]).key@) == (if j < 4 {
                        Some(j as usize)
                    } else {
                        None::<usize>
                    }) && p.answers@[j].text_original@ == q.answers@[j].answer_text_original@
                        && p.answers@[j].text_translation@ == q.answers@[j].answer_text_translation@
            },
{
    assert forall|i: int| 0 <= i < response.questions@.len() implies {
        let q = questions[positions[i] as int];
        let p = #[trigger] response.questions@[i];
        &&& p.id == q.id
        &&& p.id == record.question_ids@[i]
        &&& p.text_original@ == q.text_original@
        &&& p.text_translation@ == q.text_translation@
        &&& p.answers@.len() == q.answers@.len()
        &&& forall|j: int|
            0 <= j < p.answers@.len() ==> key_index((#[trigger] p.answers@[j]).key@) == (if j < 4 {
                Some(j as usize)
            } else {
                None::<usize>
            }) && p.answers@[j].text_original@ == q.answers@[j].answer_text_original@
                && p.answers@[j].text_translation@ == q.answers@[j].answer_text_translation@
    } by {
        let q = questions[positions[i] as int];
        let p = response.questions@[i];
        assert(crate::quiz::payload_shows(p, q));
        assert(record.question_ids@[i] == q.id);
        assert forall|j: int| 0 <= j < p.answers@.len() implies key_index((#[trigger] p.answers@[j]).key@) == (
        if j < 4 {
            Some(j as usize)
        } else {
            None::<usize>
        }) by {
            lemma_key_reads_back(j);
        }
    }
}

// ---------------------------------------------------------------------------
// Missed questions are drawn
// ---------------------------------------------------------------------------

/// Among a finite set of keys, one is ranked after all the others.
proof fn lemma_last_ranked(m: Map<u32, u32>, keys: Set<u32>) -> (k: u32)
    requires
        keys.finite(),
        keys.len() > 0,
    ensures
        keys.contains(k),
        forall|j: u32| keys.contains(j) && j != k ==> ranks_before(m, id_order(), j, k),
    decreases keys.len(),
{
    broadcast use vstd::set::group_set_axioms, vstd::set_lib::group_set_properties;

    let x = keys.choose();
    let rest = keys.remove(x);
    if rest.len() == 0 {
        assert forall|j: u32| keys.contains(j) && j != x implies ranks_before(m, id_order(), j, x) by {
            assert(rest.contains(j));
        }
        x
    } else {
        let y = lemma_last_ranked(m, rest);
        if ranks_before(m, id_order(), x, y) {
            y
        } else {
            assert(ranks_before(m, id_order(), y, x));
            assert forall|j: u32| keys.contains(j) && j != x implies ranks_before(m, id_order(), j, x) by {
                if j != y {
                    assert(rest.contains(j));
                    assert(ranks_before(m, id_order(), j, y));
                }
            }
            x
        }
    }
}

/// The keys of a finite set can be listed in ranking order.
proof fn lemma_rank_keys(m: Map<u32, u32>, keys: Set<u32>) -> (s: Seq<u32>)
    requires
        keys.finite(),
    ensures
        sorted_by(s, rank_order(m, id_order())),
        forall|k: u32| keys.contains(k) <==> s.contains(k),
    decreases keys.len(),
{
    broadcast use vstd::set::group_set_axioms, vstd::set_lib::group_set_properties;

    if keys.len() == 0 {
        assert(keys =~= Set::<u32>::empty());
        Seq::empty()
    } else {
        let k = lemma_last_ranked(m, keys);
        let rest = keys.remove(k);
        let t = lemma_rank_keys(m, rest);
        let s = t.push(k);
        assert forall|i: int, j: int| 0 <= i < j < s.len() implies #[trigger] rank_order(m, id_order())(
            s[i],
            s[j],
        ) by {
            if j < t.len() {
                assert(rank_order(m, id_order())(t[i], t[j]));
            } else {
                assert(t.contains(t[i]));
                assert(rest.contains(t[i]));
            }
        }
        assert forall|x: u32| keys.contains(x) <==> s.contains(x) by {
            if keys.contains(x) && x != k {
                assert(rest.contains(x));
                let i = choose|i: int| 0 <= i < t.len() && t[i] == x;
                assert(s[i] == x);
            }
            if keys.contains(x) && x == k {
                assert(s[t.len() as int] == x);
            }
            if s.contains(x) {
                let i = choose|i: int| 0 <= i < s.len() && s[i] == x;
                if i < t.len() {
                    assert(t[i] == x);
                    assert(t.contains(x));
                }
            }
        }
        s
    }
}

/// The ranking of a finite count map lists each key once.
proof fn lemma_id_ranking(m: Map<u32, u32>)
    requires
        m.dom().finite(),
    ensures
        forall|k: u32| m.contains_key(k) <==> id_ranking(m).contains(k),
        id_ranking(m).len() == m.dom().len(),
{
    let s = lemma_rank_keys(m, m.dom());
    assert(is_ranking(m, id_order(), s));
    lemma_ranking_is(m, id_order(), s);
    assert(s.no_duplicates()) by {
        assert forall|i: int, j: int| 0 <= i < s.len() && 0 <= j < s.len() && i != j implies s[i] != s[j] by {
            if i < j {
                assert(rank_order(m, id_order())(s[i], s[j]));
            } else {
                assert(rank_order(m, id_order())(s[j], s[i]));
            }
        }
    }
    s.unique_seq_to_set();
    assert(s.to_set() =~= m.dom());
}

/// Positions of questions of a pool, not held back, that the learner has
/// missed.
pub open spec fn missed_pred(questions: Seq<Question>, memory: LearnerMemory, pool: QuestionPool) -> spec_fn(
    int,
) -> bool {
    |p: int|
        eligible(questions, held_back(memory.question_cooldowns@), pool, p)
            && memory.frequently_wrong_question_ids@.contains_key(questions[p].id)
}

/// Every question the learner missed and that is not held back leads the
/// draw, as far as an exam takes missed questions: when a pool holds no
/// more such questions than an exam starts with (12 general, 3 Berlin),
/// an exam started for the learner (as `begin_exam` draws it) holds all of
/// them. (Missed ids beyond the dataset's size could push some out of the
/// ranking, so the learner has missed no more questions than there are.)
pub proof fn law_missed_questions_are_drawn(
    questions: Seq<Question>,
    memory: LearnerMemory,
    positions: Seq<usize>,
    pool: QuestionPool,
    p: int,
)
    requires
        exam_drawn(
            questions,
            priority_order(memory, questions.len() as int),
            held_back(memory.question_cooldowns@),
            positions,
        ),
        questions.len() <= usize::MAX,
        memory.frequently_wrong_question_ids@.dom().len() <= questions.len(),
        positions_where(questions.len() as int, missed_pred(questions, memory, pool)).len() <= pool_priority_limit(
            pool,
        ),
        missed_pred(questions, memory, pool)(p),
    ensures
        positions.contains(p as usize),
{
    let w = memory.frequently_wrong_question_ids@;
    let c = memory.question_cooldowns@;
    let n = questions.len() as int;
    vstd::std_specs::hash::axiom_hashmap_view_finite_dom(memory.frequently_wrong_question_ids);
    lemma_id_ranking(w);
    let s = id_ranking(w);
    assert(prefix(s, n) == s);
    let prio = priority_order(memory, n);
    let held = held_back(c);
    let off = off_cooldown(c);
    assert(prio == s.filter(off));
    s.filter_lemma(off);
    let pp = prioritized_pred(questions, prio, held, pool);
    let mp = missed_pred(questions, memory, pool);
    assert forall|x: int| 0 <= x < n implies #[trigger] pp(x) == mp(x) by {
        let id = questions[x].id;
        if eligible(questions, held, pool, x) {
            assert(!held.contains(id));
            assert(!on_cooldown(c, id));
            if w.contains_key(id) {
                assert(s.contains(id));
                let i = choose|i: int| 0 <= i < s.len() && s[i] == id;
                s.lemma_filter_contains(off, i);
            }
            if prio.contains(id) {
                s.lemma_filter_contains_rev(off, id);
            }
        }
    }
    lemma_positions_agree(n, pp, mp);
    assert(pp(p));
    law_missed_questions_come_first(questions, prio, held, positions, pool, p);
}

} // verus!
