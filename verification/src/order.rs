//! Orders used by the rules: rankings by count, sorted sets of texts, and a
//! stable newest-first order.

use vstd::prelude::*;

use crate::text::{chars_of, lemma_text_order, text_less, text_lt};

verus! {

/// Every earlier item of `s` comes `before` every later one.
pub open spec fn sorted_by<K>(s: Seq<K>, before: spec_fn(K, K) -> bool) -> bool {
    forall|i: int, j: int| 0 <= i < j < s.len() ==> #[trigger] before(s[i], s[j])
}

/// `before` never holds both ways (and so never of an item and itself).
pub open spec fn asymmetric<K>(before: spec_fn(K, K) -> bool) -> bool {
    forall|a: K, b: K| #[trigger] before(a, b) ==> !before(b, a)
}

/// `a` and `b` hold the same items.
pub open spec fn same_items<K>(a: Seq<K>, b: Seq<K>) -> bool {
    forall|k: K| a.contains(k) <==> b.contains(k)
}

/// Two sequences sorted by the same asymmetric order and holding the same
/// items are equal.
pub proof fn lemma_sorted_unique<K>(s1: Seq<K>, s2: Seq<K>, before: spec_fn(K, K) -> bool)
    requires
        asymmetric(before),
        sorted_by(s1, before),
        sorted_by(s2, before),
        same_items(s1, s2),
    ensures
        s1 == s2,
    decreases s1.len(),
{
    if s1.len() == 0 {
        if s2.len() > 0 {
            assert(s2.contains(s2[0]));
        }
        assert(s1 =~= s2);
    } else {
        assert(s1.contains(s1[0]));
        assert(s2.contains(s1[0]));
        let q = choose|q: int| 0 <= q < s2.len() && s2[q] == s1[0];
        assert(s2.contains(s2[0]));
        assert(s1.contains(s2[0]));
        let p = choose|p: int| 0 <= p < s1.len() && s1[p] == s2[0];
        if p > 0 && q > 0 {
            assert(before(s1[0], s1[p]));
            assert(before(s2[0], s2[q]));
        }
        assert(s1[0] == s2[0]);
        let t1 = s1.drop_first();
        let t2 = s2.drop_first();
        assert forall|k: K| t1.contains(k) <==> t2.contains(k) by {
            if t1.contains(k) {
                let i = choose|i: int| 0 <= i < t1.len() && t1[i] == k;
                assert(s1[i + 1] == k);
                assert(before(s1[0], s1[i + 1]));
                assert(s2.contains(k));
                let j = choose|j: int| 0 <= j < s2.len() && s2[j] == k;
                assert(j != 0);
                assert(t2[j - 1] == k);
            }
            if t2.contains(k) {
                let i = choose|i: int| 0 <= i < t2.len() && t2[i] == k;
                assert(s2[i + 1] == k);
                assert(before(s2[0], s2[i + 1]));
                assert(s1.contains(k));
                let j = choose|j: int| 0 <= j < s1.len() && s1[j] == k;
                assert(j != 0);
                assert(t1[j - 1] == k);
            }
        }
        assert forall|i: int, j: int| 0 <= i < j < t1.len() implies #[trigger] before(t1[i], t1[j]) by {
            assert(before(s1[i + 1], s1[j + 1]));
        }
        assert forall|i: int, j: int| 0 <= i < j < t2.len() implies #[trigger] before(t2[i], t2[j]) by {
            assert(before(s2[i + 1], s2[j + 1]));
        }
        lemma_sorted_unique(t1, t2, before);
        assert(s1 =~= s2) by {
            assert forall|i: int| 0 <= i < s1.len() implies s1[i] == s2[i] by {
                if i > 0 {
                    assert(s1[i] == t1[i - 1]);
                    assert(s2[i] == t2[i - 1]);
                }
            }
        }
    }
}

// ---------------------------------------------------------------------------
// Rankings by count
// ---------------------------------------------------------------------------

/// In the map `m` of counts, `a` ranks before `b`: a higher count first, and
/// on equal counts the key that comes first by `key_before`.
pub open spec fn ranks_before<K>(m: Map<K, u32>, key_before: spec_fn(K, K) -> bool, a: K, b: K) -> bool {
    m[a] > m[b] || (m[a] == m[b] && key_before(a, b))
}

/// The ranking order of `m` as a relation.
pub open spec fn rank_order<K>(m: Map<K, u32>, key_before: spec_fn(K, K) -> bool) -> spec_fn(K, K) -> bool {
    |a: K, b: K| ranks_before(m, key_before, a, b)
}

/// `s` lists every key of `m` exactly once, highest count first.
pub open spec fn is_ranking<K>(m: Map<K, u32>, key_before: spec_fn(K, K) -> bool, s: Seq<K>) -> bool {
    &&& sorted_by(s, rank_order(m, key_before))
    &&& forall|k: K| m.contains_key(k) <==> s.contains(k)
}

/// The keys of `m`, highest count first, ties broken by `key_before`.
pub open spec fn ranking<K>(m: Map<K, u32>, key_before: spec_fn(K, K) -> bool) -> Seq<K> {
    choose|s: Seq<K>| is_ranking(m, key_before, s)
}

/// The ranking is the one sequence that ranks the keys.
pub proof fn lemma_ranking_is<K>(m: Map<K, u32>, key_before: spec_fn(K, K) -> bool, s: Seq<K>)
    requires
        asymmetric(key_before),
        is_ranking(m, key_before, s),
    ensures
        ranking(m, key_before) == s,
{
    let r = ranking(m, key_before);
    assert(is_ranking(m, key_before, r));
    let order = rank_order(m, key_before);
    assert forall|a: K, b: K| #[trigger] order(a, b) implies !order(b, a) by {
        if key_before(a, b) {
            assert(!key_before(b, a));
        }
    }
    lemma_sorted_unique(r, s, order);
}

/// The first `n` items of `s` (all of them when it is shorter).
pub open spec fn prefix<K>(s: Seq<K>, n: int) -> Seq<K> {
    if n < s.len() {
        s.take(n)
    } else {
        s
    }
}

/// Ascending order of question ids.
pub open spec fn id_order() -> spec_fn(u32, u32) -> bool {
    |a: u32, b: u32| a < b
}

/// Lexicographic order of texts.
pub open spec fn text_order() -> spec_fn(Seq<char>, Seq<char>) -> bool {
    |a: Seq<char>, b: Seq<char>| text_lt(a, b)
}

pub proof fn lemma_text_order_asymmetric()
    ensures
        asymmetric(text_order()),
{
    assert forall|a: Seq<char>, b: Seq<char>| #[trigger] text_order()(a, b) implies !text_order()(b, a) by {
        lemma_text_order(a, b, a);
    }
}

/// The question ids of a count map, most counted first, ties by smaller id.
pub open spec fn id_ranking(m: Map<u32, u32>) -> Seq<u32> {
    ranking(m, id_order())
}

/// The texts of a count map, most counted first, ties in text order.
pub open spec fn text_ranking(m: Map<Seq<char>, u32>) -> Seq<Seq<char>> {
    ranking(m, text_order())
}

/// The elements of a set of texts in ascending text order.
pub open spec fn sorted_texts(set: Set<Seq<char>>) -> Seq<Seq<char>> {
    choose|s: Seq<Seq<char>>| sorted_by(s, text_order()) && forall|k: Seq<char>| set.contains(k) <==> s.contains(k)
}

pub proof fn lemma_sorted_texts_is(set: Set<Seq<char>>, s: Seq<Seq<char>>)
    requires
        sorted_by(s, text_order()),
        forall|k: Seq<char>| set.contains(k) <==> s.contains(k),
    ensures
        sorted_texts(set) == s,
{
    let r = sorted_texts(set);
    lemma_text_order_asymmetric();
    lemma_sorted_unique(r, s, text_order());
}

// ---------------------------------------------------------------------------
// Executable rankings
// ---------------------------------------------------------------------------

/// Order of (id, count) pairs: higher count first, then smaller id.
pub open spec fn id_pair_before(a: (u32, u32), b: (u32, u32)) -> bool {
    a.1 > b.1 || (a.1 == b.1 && a.0 < b.0)
}

pub open spec fn id_pair_order() -> spec_fn((u32, u32), (u32, u32)) -> bool {
    |a: (u32, u32), b: (u32, u32)| id_pair_before(a, b)
}

/// Inserts a pair with a new id into a list ranked by `id_pair_before`.
fn insert_ranked_id(out: &mut Vec<(u32, u32)>, x: (u32, u32))
    requires
        sorted_by(old(out)@, id_pair_order()),
        forall|i: int| 0 <= i < old(out).len() ==> (#[trigger] old(out)@[i]).0 != x.0,
    ensures
        sorted_by(final(out)@, id_pair_order()),
        forall|y: (u32, u32)| final(out)@.contains(y) <==> (old(out)@.contains(y) || y == x),
{
    let mut p: usize = 0;
    while p < out.len() && !(x.1 > out[p].1 || (x.1 == out[p].1 && x.0 < out[p].0))
        invariant
            p <= out.len(),
            forall|i: int| 0 <= i < p ==> !id_pair_before(x, #[trigger] out@[i]),
        decreases out.len() - p,
    {
        p = p + 1;
    }
    let ghost o = out@;
    out.insert(p, x);
    let ghost n = out@;
    assert(n =~= o.take(p as int).push(x) + o.skip(p as int));
    assert forall|i: int, j: int| 0 <= i < j < n.len() implies #[trigger] id_pair_order()(n[i], n[j]) by {
        if j < p {
            assert(id_pair_order()(o[i], o[j]));
        } else if j == p {
            assert(!id_pair_before(x, o[i]));
            assert(o[i].0 != x.0);
        } else if i == p {
            if j - 1 > p {
                assert(id_pair_order()(o[p as int], o[j - 1]));
            }
        } else if i < p {
            assert(id_pair_order()(o[i], o[j - 1]));
        } else {
            assert(id_pair_order()(o[i - 1], o[j - 1]));
        }
    }
    assert forall|y: (u32, u32)| n.contains(y) <==> (o.contains(y) || y == x) by {
        if n.contains(y) {
            let k = choose|k: int| 0 <= k < n.len() && n[k] == y;
            if k < p {
                assert(o[k] == y);
            } else if k > p {
                assert(o[k - 1] == y);
            }
        }
        if o.contains(y) {
            let k = choose|k: int| 0 <= k < o.len() && o[k] == y;
            if k < p {
                assert(n[k] == y);
            } else {
                assert(n[k + 1] == y);
            }
        }
        if y == x {
            assert(n[p as int] == y);
        }
    }
}

/// `pairs` lists the map `m`: each key once, each with its count.
pub open spec fn lists_map<K>(pairs: Seq<(K, u32)>, m: Map<K, u32>) -> bool {
    &&& forall|i: int, j: int| 0 <= i < j < pairs.len() ==> (#[trigger] pairs[i]).0 != (#[trigger] pairs[j]).0
    &&& forall|i: int| 0 <= i < pairs.len() ==> m.contains_key((#[trigger] pairs[i]).0) && m[pairs[i].0] == pairs[i].1
    &&& forall|k: K| m.contains_key(k) ==> exists|i: int| 0 <= i < pairs.len() && (#[trigger] pairs[i]).0 == k
}

/// The ids of `pairs`, which list the count map `m`, most counted first, ties
/// by smaller id.
pub(crate) fn rank_ids(pairs: &Vec<(u32, u32)>, Ghost(m): Ghost<Map<u32, u32>>) -> (r: Vec<u32>)
    requires
        lists_map(pairs@, m),
    ensures
        is_ranking(m, id_order(), r@),
{
    let mut sorted: Vec<(u32, u32)> = Vec::new();
    let mut i: usize = 0;
    while i < pairs.len()
        invariant
            i <= pairs.len(),
            forall|a: int, b: int| 0 <= a < b < pairs.len() ==> (#[trigger] pairs@[a]).0 != (#[trigger] pairs@[b]).0,
            sorted_by(sorted@, id_pair_order()),
            forall|y: (u32, u32)| sorted@.contains(y) <==> pairs@.take(i as int).contains(y),
        decreases pairs.len() - i,
    {
        let x = pairs[i];
        assert forall|k: int| 0 <= k < sorted.len() implies (#[trigger] sorted@[k]).0 != x.0 by {
            assert(sorted@.contains(sorted@[k]));
            assert(pairs@.take(i as int).contains(sorted@[k]));
            let a = choose|a: int| 0 <= a < i && pairs@.take(i as int)[a] == sorted@[k];
            assert(pairs@[a] == sorted@[k]);
        }
        insert_ranked_id(&mut sorted, x);
        proof {
            assert forall|y: (u32, u32)| sorted@.contains(y) <==> pairs@.take(i + 1).contains(y) by {
                assert(pairs@.take(i + 1) =~= pairs@.take(i as int).push(x));
                if pairs@.take(i as int).contains(y) {
                    let a = choose|a: int| 0 <= a < i && pairs@.take(i as int)[a] == y;
                    assert(pairs@.take(i + 1)[a] == y);
                }
                if y == x {
                    assert(pairs@.take(i + 1)[i as int] == y);
                }
            }
        }
        i = i + 1;
    }
    assert(pairs@.take(pairs.len() as int) =~= pairs@);
    let mut r: Vec<u32> = Vec::new();
    let mut j: usize = 0;
    while j < sorted.len()
        invariant
            j <= sorted.len(),
            r@.len() == j,
            forall|k: int| 0 <= k < j ==> r@[k] == (#[trigger] sorted@[k]).0,
        decreases sorted.len() - j,
    {
        r.push(sorted[j].0);
        j = j + 1;
    }
    proof {
        // every listed pair carries the count of its id in `m`
        assert forall|k: int| 0 <= k < sorted.len() implies m.contains_key(#[trigger] sorted@[k].0)
            && m[sorted@[k].0] == sorted@[k].1 by {
            assert(sorted@.contains(sorted@[k]));
            let a = choose|a: int| 0 <= a < pairs.len() && pairs@[a] == sorted@[k];
        }
        assert forall|a: int, b: int| 0 <= a < b < r.len() implies #[trigger] rank_order(m, id_order())(r@[a], r@[b]) by {
            assert(id_pair_order()(sorted@[a], sorted@[b]));
            assert(m[sorted@[a].0] == sorted@[a].1);
            assert(m[sorted@[b].0] == sorted@[b].1);
        }
        assert forall|k: u32| m.contains_key(k) <==> r@.contains(k) by {
            if m.contains_key(k) {
                let a = choose|a: int| 0 <= a < pairs.len() && pairs@[a].0 == k;
                assert(pairs@.contains(pairs@[a]));
                assert(sorted@.contains(pairs@[a]));
                let b = choose|b: int| 0 <= b < sorted.len() && sorted@[b] == pairs@[a];
                assert(r@[b] == k);
            }
            if r@.contains(k) {
                let b = choose|b: int| 0 <= b < r.len() && r@[b] == k;
                assert(m.contains_key(sorted@[b].0));
            }
        }
    }
    r
}


// ---------------------------------------------------------------------------
// Texts
// ---------------------------------------------------------------------------

/// The texts of a sequence of strings.
pub open spec fn views_of(s: Seq<String>) -> Seq<Seq<char>> {
    s.map_values(|x: String| x@)
}

/// The (text, count) pairs of a sequence of (string, count) pairs.
pub open spec fn text_pairs_of(s: Seq<(String, u32)>) -> Seq<(Seq<char>, u32)> {
    s.map_values(|p: (String, u32)| (p.0@, p.1))
}

/// Whether `a` sorts strictly before `b`.
pub fn string_less(a: &String, b: &String) -> (r: bool)
    ensures
        r == text_lt(a@, b@),
{
    let ca = chars_of(a.as_str());
    let cb = chars_of(b.as_str());
    text_less(&ca, &cb)
}

/// Order of (text, count) pairs: higher count first, then text order.
pub open spec fn text_pair_before(a: (Seq<char>, u32), b: (Seq<char>, u32)) -> bool {
    a.1 > b.1 || (a.1 == b.1 && text_lt(a.0, b.0))
}

pub open spec fn text_pair_order() -> spec_fn((Seq<char>, u32), (Seq<char>, u32)) -> bool {
    |a: (Seq<char>, u32), b: (Seq<char>, u32)| text_pair_before(a, b)
}

proof fn lemma_text_pair_order(a: (Seq<char>, u32), b: (Seq<char>, u32), c: (Seq<char>, u32))
    ensures
        text_pair_before(a, b) && text_pair_before(b, c) ==> text_pair_before(a, c),
        a.0 != b.0 ==> text_pair_before(a, b) || text_pair_before(b, a),
{
    lemma_text_order(a.0, b.0, c.0);
}

/// Inserts a pair with a new text into a list ranked by `text_pair_before`.
fn insert_ranked_text(out: &mut Vec<(String, u32)>, x: (String, u32))
    requires
        sorted_by(text_pairs_of(old(out)@), text_pair_order()),
        forall|i: int| 0 <= i < old(out).len() ==> (#[trigger] old(out)@[i]).0@ != x.0@,
    ensures
        sorted_by(text_pairs_of(final(out)@), text_pair_order()),
        forall|y: (Seq<char>, u32)| text_pairs_of(final(out)@).contains(y) <==> (text_pairs_of(old(out)@).contains(y)
            || y == (x.0@, x.1)),
{
    let ghost xv = (x.0@, x.1);
    let mut p: usize = 0;
    while p < out.len() && !(x.1 > out[p].1 || (x.1 == out[p].1 && string_less(&x.0, &out[p].0)))
        invariant
            p <= out.len(),
            xv == (x.0@, x.1),
            forall|i: int| 0 <= i < p ==> !text_pair_before(xv, #[trigger] text_pairs_of(out@)[i]),
        decreases out.len() - p,
    {
        p = p + 1;
    }
    let ghost o = text_pairs_of(out@);
    let ghost oe = out@;
    out.insert(p, x);
    let ghost n = text_pairs_of(out@);
    assert(n =~= o.take(p as int).push(xv) + o.skip(p as int));
    assert forall|i: int, j: int| 0 <= i < j < n.len() implies #[trigger] text_pair_order()(n[i], n[j]) by {
        if j < p {
            assert(text_pair_order()(o[i], o[j]));
        } else if j == p {
            assert(!text_pair_before(xv, o[i]));
            assert(oe[i].0@ != x.0@);
            lemma_text_pair_order(o[i], xv, xv);
        } else if i == p {
            if j - 1 > p {
                assert(text_pair_order()(o[p as int], o[j - 1]));
                lemma_text_pair_order(xv, o[p as int], o[j - 1]);
            }
        } else if i < p {
            assert(text_pair_order()(o[i], o[j - 1]));
        } else {
            assert(text_pair_order()(o[i - 1], o[j - 1]));
        }
    }
    assert forall|y: (Seq<char>, u32)| n.contains(y) <==> (o.contains(y) || y == xv) by {
        if n.contains(y) {
            let k = choose|k: int| 0 <= k < n.len() && n[k] == y;
            if k < p {
                assert(o[k] == y);
            } else if k > p {
                assert(o[k - 1] == y);
            }
        }
        if o.contains(y) {
            let k = choose|k: int| 0 <= k < o.len() && o[k] == y;
            if k < p {
                assert(n[k] == y);
            } else {
                assert(n[k + 1] == y);
            }
        }
        if y == xv {
            assert(n[p as int] == y);
        }
    }
}

/// The texts of `pairs`, which list the count map `m`, most counted first,
/// ties in text order.
pub(crate) fn rank_texts(pairs: &Vec<(String, u32)>, Ghost(m): Ghost<Map<Seq<char>, u32>>) -> (r: Vec<String>)
    requires
        lists_map(text_pairs_of(pairs@), m),
    ensures
        is_ranking(m, text_order(), views_of(r@)),
{
    let ghost pv = text_pairs_of(pairs@);
    let mut sorted: Vec<(String, u32)> = Vec::new();
    let mut i: usize = 0;
    while i < pairs.len()
        invariant
            i <= pairs.len(),
            pv == text_pairs_of(pairs@),
            lists_map(pv, m),
            sorted_by(text_pairs_of(sorted@), text_pair_order()),
            forall|y: (Seq<char>, u32)| text_pairs_of(sorted@).contains(y) <==> pv.take(i as int).contains(y),
        decreases pairs.len() - i,
    {
        let x = (pairs[i].0.clone(), pairs[i].1);
        assert(pv[i as int] == (x.0@, x.1));
        assert forall|k: int| 0 <= k < sorted.len() implies (#[trigger] sorted@[k]).0@ != x.0@ by {
            let sv = text_pairs_of(sorted@);
            assert(sv[k] == (sorted@[k].0@, sorted@[k].1));
            assert(sv.contains(sv[k]));
            assert(pv.take(i as int).contains(sv[k]));
            let a = choose|a: int| 0 <= a < i && pv.take(i as int)[a] == sv[k];
            assert(pv[a] == sv[k]);
        }
        insert_ranked_text(&mut sorted, x);
        proof {
            assert forall|y: (Seq<char>, u32)| text_pairs_of(sorted@).contains(y) <==> pv.take(i + 1).contains(y) by {
                assert(pv.take(i + 1) =~= pv.take(i as int).push((x.0@, x.1)));
                if pv.take(i as int).contains(y) {
                    let a = choose|a: int| 0 <= a < i && pv.take(i as int)[a] == y;
                    assert(pv.take(i + 1)[a] == y);
                }
                if y == (x.0@, x.1) {
                    assert(pv.take(i + 1)[i as int] == y);
                }
            }
        }
        i = i + 1;
    }
    assert(pv.take(pairs.len() as int) =~= pv);
    let ghost sv = text_pairs_of(sorted@);
    let mut r: Vec<String> = Vec::new();
    let mut j: usize = 0;
    while j < sorted.len()
        invariant
            j <= sorted.len(),
            sv == text_pairs_of(sorted@),
            r@.len() == j,
            forall|k: int| 0 <= k < j ==> (#[trigger] r@[k])@ == sv[k].0,
        decreases sorted.len() - j,
    {
        r.push(sorted[j].0.clone());
        j = j + 1;
    }
    let ghost rv = views_of(r@);
    proof {
        assert forall|k: int| 0 <= k < sv.len() implies m.contains_key((#[trigger] sv[k]).0) && m[sv[k].0] == sv[k].1 by {
            assert(sv.contains(sv[k]));
            let a = choose|a: int| 0 <= a < pv.len() && pv[a] == sv[k];
        }
        assert forall|a: int, b: int| 0 <= a < b < rv.len() implies #[trigger] rank_order(m, text_order())(rv[a], rv[b]) by {
            assert(text_pair_order()(sv[a], sv[b]));
            assert(m[sv[a].0] == sv[a].1);
            assert(m[sv[b].0] == sv[b].1);
        }
        assert forall|k: Seq<char>| m.contains_key(k) <==> rv.contains(k) by {
            if m.contains_key(k) {
                let a = choose|a: int| 0 <= a < pv.len() && (#[trigger] pv[a]).0 == k;
                assert(pv.contains(pv[a]));
                assert(sv.contains(pv[a]));
                let b = choose|b: int| 0 <= b < sv.len() && sv[b] == pv[a];
                assert(rv[b] == k);
            }
            if rv.contains(k) {
                let b = choose|b: int| 0 <= b < rv.len() && rv[b] == k;
                assert(m.contains_key(sv[b].0));
            }
        }
    }
    r
}

/// Inserts a text into a list of distinct texts in ascending order, unless
/// it is already there.
fn insert_sorted_text(out: &mut Vec<String>, x: String)
    requires
        sorted_by(views_of(old(out)@), text_order()),
    ensures
        sorted_by(views_of(final(out)@), text_order()),
        forall|t: Seq<char>| views_of(final(out)@).contains(t) <==> (views_of(old(out)@).contains(t) || t == x@),
{
    let ghost xv = x@;
    let mut p: usize = 0;
    while p < out.len() && string_less(&out[p], &x)
        invariant
            p <= out.len(),
            xv == x@,
            sorted_by(views_of(out@), text_order()),
            forall|i: int| 0 <= i < p ==> text_lt(#[trigger] views_of(out@)[i], xv),
        decreases out.len() - p,
    {
        p = p + 1;
    }
    let ghost o = views_of(out@);
    if p < out.len() && out[p] == x {
        assert(o[p as int] == xv);
        assert forall|t: Seq<char>| o.contains(t) <==> (o.contains(t) || t == xv) by {
            if t == xv {
                assert(o.contains(o[p as int]));
            }
        }
        return;
    }
    proof {
        if p < o.len() {
            lemma_text_order(o[p as int], xv, xv);
            assert(o[p as int] != xv);
            assert(text_lt(xv, o[p as int]));
        }
    }
    out.insert(p, x);
    let ghost n = views_of(out@);
    assert(n =~= o.take(p as int).push(xv) + o.skip(p as int));
    assert forall|i: int, j: int| 0 <= i < j < n.len() implies #[trigger] text_order()(n[i], n[j]) by {
        if j < p {
            assert(text_order()(o[i], o[j]));
        } else if j == p {
        } else if i == p {
            if j - 1 > p {
                assert(text_order()(o[p as int], o[j - 1]));
                lemma_text_order(xv, o[p as int], o[j - 1]);
            }
        } else if i < p {
            assert(text_order()(o[i], o[j - 1]));
        } else {
            assert(text_order()(o[i - 1], o[j - 1]));
        }
    }
    assert forall|t: Seq<char>| n.contains(t) <==> (o.contains(t) || t == xv) by {
        if n.contains(t) {
            let k = choose|k: int| 0 <= k < n.len() && n[k] == t;
            if k < p {
                assert(o[k] == t);
            } else if k > p {
                assert(o[k - 1] == t);
            }
        }
        if o.contains(t) {
            let k = choose|k: int| 0 <= k < o.len() && o[k] == t;
            if k < p {
                assert(n[k] == t);
            } else {
                assert(n[k + 1] == t);
            }
        }
        if t == xv {
            assert(n[p as int] == t);
        }
    }
}

/// The distinct texts of `v` in ascending text order (sort, then remove
/// repeats).
pub fn sorted_distinct(v: Vec<String>) -> (r: Vec<String>)
    ensures
        views_of(r@) == sorted_texts(views_of(v@).to_set()),
        sorted_by(views_of(r@), text_order()),
{
    let ghost vv = views_of(v@);
    let mut r: Vec<String> = Vec::new();
    let mut i: usize = 0;
    let mut rest = v;
    let ghost all = rest@;
    assert(all.len() == rest.len());
    while rest.len() > 0
        invariant
            all.len() == i + rest.len(),
            all.len() <= usize::MAX,
            rest@ == all.skip(i as int),
            vv == views_of(all),
            sorted_by(views_of(r@), text_order()),
            forall|t: Seq<char>| views_of(r@).contains(t) <==> vv.take(i as int).contains(t),
        decreases rest.len(),
    {
        let x = rest.remove(0);
        assert(x == all[i as int]);
        insert_sorted_text(&mut r, x);
        proof {
            assert forall|t: Seq<char>| views_of(r@).contains(t) <==> vv.take(i + 1).contains(t) by {
                assert(vv.take(i + 1) =~= vv.take(i as int).push(all[i as int]@));
                if vv.take(i as int).contains(t) {
                    let a = choose|a: int| 0 <= a < i && vv.take(i as int)[a] == t;
                    assert(vv.take(i + 1)[a] == t);
                }
                if t == all[i as int]@ {
                    assert(vv.take(i + 1)[i as int] == t);
                }
            }
            assert(rest@ =~= all.skip(i + 1));
        }
        i = i + 1;
    }
    proof {
        assert(vv.take(i as int) =~= vv);
        assert forall|t: Seq<char>| vv.to_set().contains(t) <==> views_of(r@).contains(t) by {}
        lemma_sorted_texts_is(vv.to_set(), views_of(r@));
    }
    r
}

// ---------------------------------------------------------------------------
// Newest first, stable
// ---------------------------------------------------------------------------

/// Time stamps as (seconds, nanoseconds); `a` is strictly earlier than `b`.
pub open spec fn stamp_lt(a: (i64, u32), b: (i64, u32)) -> bool {
    a.0 < b.0 || (a.0 == b.0 && a.1 < b.1)
}

/// Each item's stamp is no earlier than any later item's.
pub open spec fn newest_first<T>(s: Seq<((i64, u32), T)>) -> bool {
    forall|i: int, j: int| 0 <= i < j < s.len() ==> !stamp_lt((#[trigger] s[i]).0, (#[trigger] s[j]).0)
}

/// The items of `s` that carry stamp `k`, in their order in `s`.
pub open spec fn with_stamp<T>(s: Seq<((i64, u32), T)>, k: (i64, u32)) -> Seq<((i64, u32), T)> {
    s.filter(|p: ((i64, u32), T)| p.0 == k)
}

/// `output` is `input` ordered newest first by a stable sort: items with equal
/// stamps keep their relative order.
pub open spec fn is_stable_newest_first<T>(input: Seq<((i64, u32), T)>, output: Seq<((i64, u32), T)>) -> bool {
    &&& newest_first(output)
    &&& output.len() == input.len()
    &&& forall|k: (i64, u32)| #[trigger] with_stamp(output, k) == with_stamp(input, k)
}

/// A stable sort keeps exactly the items it was given.
pub proof fn lemma_stable_keeps_items<T>(input: Seq<((i64, u32), T)>, output: Seq<((i64, u32), T)>)
    requires
        is_stable_newest_first(input, output),
    ensures
        forall|x: ((i64, u32), T)| output.contains(x) <==> input.contains(x),
{
    assert forall|x: ((i64, u32), T)| output.contains(x) <==> input.contains(x) by {
        let pred = |p: ((i64, u32), T)| p.0 == x.0;
        assert(with_stamp(output, x.0) == output.filter(pred));
        assert(with_stamp(input, x.0) == input.filter(pred));
        if output.contains(x) {
            let i = choose|i: int| 0 <= i < output.len() && output[i] == x;
            output.lemma_filter_contains(pred, i);
            input.lemma_filter_contains_rev(pred, x);
        }
        if input.contains(x) {
            let i = choose|i: int| 0 <= i < input.len() && input[i] == x;
            input.lemma_filter_contains(pred, i);
            output.lemma_filter_contains_rev(pred, x);
        }
    }
}

proof fn lemma_filter_single<T>(x: T, pred: spec_fn(T) -> bool)
    ensures
        seq![x].filter(pred) == if pred(x) { seq![x] } else { Seq::<T>::empty() },
{
    reveal_with_fuel(Seq::filter, 2);
    assert(seq![x].drop_last() =~= Seq::<T>::empty());
    if pred(x) {
        assert(Seq::<T>::empty().push(x) =~= seq![x]);
    }
}

/// Inserts `x` after every item no older than it.
fn insert_newest_first<T>(out: &mut Vec<((i64, u32), T)>, x: ((i64, u32), T))
    requires
        newest_first(old(out)@),
    ensures
        newest_first(final(out)@),
        final(out)@.len() == old(out)@.len() + 1,
        forall|k: (i64, u32)| #[trigger] with_stamp(final(out)@, k) == if k == x.0 {
            with_stamp(old(out)@, k).push(x)
        } else {
            with_stamp(old(out)@, k)
        },
{
    let mut p: usize = 0;
    while p < out.len() && !(out[p].0.0 < x.0.0 || (out[p].0.0 == x.0.0 && out[p].0.1 < x.0.1))
        invariant
            p <= out.len(),
            forall|i: int| 0 <= i < p ==> !stamp_lt((#[trigger] out@[i]).0, x.0),
        decreases out.len() - p,
    {
        p = p + 1;
    }
    let ghost o = out@;
    let ghost xs = x;
    out.insert(p, x);
    let ghost n = out@;
    let ghost front = o.take(p as int);
    let ghost back = o.skip(p as int);
    assert(n =~= front + seq![xs] + back);
    assert forall|i: int, j: int| 0 <= i < j < n.len() implies !stamp_lt((#[trigger] n[i]).0, (#[trigger] n[j]).0) by {
        if j < p {
            assert(!stamp_lt(o[i].0, o[j].0));
        } else if j == p {
        } else if i == p {
            if j - 1 > p {
                assert(!stamp_lt(o[p as int].0, o[j - 1].0));
            }
        } else if i < p {
            assert(!stamp_lt(o[i].0, o[j - 1].0));
        } else {
            assert(!stamp_lt(o[i - 1].0, o[j - 1].0));
        }
    }
    assert forall|k: (i64, u32)| #[trigger] with_stamp(n, k) == if k == xs.0 {
        with_stamp(o, k).push(xs)
    } else {
        with_stamp(o, k)
    } by {
        let pred = |q: ((i64, u32), T)| q.0 == k;
        assert(o =~= front + back);
        Seq::filter_distributes_over_add(front, back, pred);
        Seq::filter_distributes_over_add(front + seq![xs], back, pred);
        Seq::filter_distributes_over_add(front, seq![xs], pred);
        lemma_filter_single(xs, pred);
        if k == xs.0 {
            // every item after the insertion point is strictly older than x
            assert forall|i: int| 0 <= i < back.len() implies !pred(back[i]) by {
                assert(back[i] == o[p + i]);
                assert(stamp_lt(o[p as int].0, xs.0));
                if i > 0 {
                    assert(!stamp_lt(o[p as int].0, o[p + i].0));
                }
            }
            back.lemma_all_neg_filter_empty(pred);
            assert(back.filter(pred) =~= Seq::<((i64, u32), T)>::empty());
            assert(with_stamp(n, k) =~= front.filter(pred) + seq![xs]);
            assert(with_stamp(o, k) =~= front.filter(pred));
        } else {
            assert(seq![xs].filter(pred) =~= Seq::<((i64, u32), T)>::empty());
            assert(with_stamp(n, k) =~= front.filter(pred) + back.filter(pred));
        }
    }
}

/// Orders `v` newest first by stamp, keeping the relative order of items
/// with equal stamps.
pub fn sort_newest_first<T>(v: Vec<((i64, u32), T)>) -> (r: Vec<((i64, u32), T)>)
    ensures
        is_stable_newest_first(v@, r@),
{
    let mut r: Vec<((i64, u32), T)> = Vec::new();
    let mut rest = v;
    let ghost all = rest@;
    let ghost mut i: int = 0;
    assert(all.len() == rest.len());
    while rest.len() > 0
        invariant
            all.len() == i + rest.len(),
            0 <= i,
            rest@ == all.skip(i),
            newest_first(r@),
            r@.len() == i,
            forall|k: (i64, u32)| #[trigger] with_stamp(r@, k) == with_stamp(all.take(i), k),
        decreases rest.len(),
    {
        let x = rest.remove(0);
        assert(x == all[i]);
        insert_newest_first(&mut r, x);
        proof {
            assert(all.take(i + 1) =~= all.take(i).push(x));
            assert forall|k: (i64, u32)| #[trigger] with_stamp(r@, k) == with_stamp(all.take(i + 1), k) by {
                let pred = |q: ((i64, u32), T)| q.0 == k;
                all.take(i).lemma_filter_push(x, pred);
            }
            assert(rest@ =~= all.skip(i + 1));
            i = i + 1;
        }
    }
    assert(all.take(i) =~= all);
    r
}

} // verus!
