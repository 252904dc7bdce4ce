//! Counts kept per text (for example per confusion "B -> A" or per word).

use vstd::prelude::*;

use crate::order::{lists_map, prefix, rank_texts, text_pairs_of, text_ranking, views_of};
use crate::order::{lemma_ranking_is, lemma_text_order_asymmetric, text_order};
use crate::text::str_eq;

verus! {

/// A map from texts to counts, kept as a list of (text, count) entries with
/// distinct texts.
#[derive(Debug)]
pub struct TextCounts {
    entries: Vec<(String, u32)>,
}

/// The map that a list of (text, count) entries with distinct texts stands for.
pub open spec fn entries_map(pairs: Seq<(Seq<char>, u32)>) -> Map<Seq<char>, u32> {
    Map::new(
        |k: Seq<char>| exists|i: int| 0 <= i < pairs.len() && pairs[i].0 == k,
        |k: Seq<char>| pairs[choose|i: int| 0 <= i < pairs.len() && pairs[i].0 == k].1,
    )
}

/// The texts of `pairs` are distinct.
pub open spec fn distinct_keys(pairs: Seq<(Seq<char>, u32)>) -> bool {
    forall|i: int, j: int| 0 <= i < j < pairs.len() ==> (#[trigger] pairs[i]).0 != (#[trigger] pairs[j]).0
}

/// The map after lowering the count of `key` by one, dropping it at one.
pub open spec fn decremented<K>(m: Map<K, u32>, key: K) -> Map<K, u32> {
    if m.contains_key(key) {
        if m[key] > 1 {
            m.insert(key, (m[key] - 1) as u32)
        } else {
            m.remove(key)
        }
    } else {
        m
    }
}

/// The map after raising the count of `key` by one (a missing key counts 0).
pub open spec fn incremented<K>(m: Map<K, u32>, key: K) -> Map<K, u32> {
    if m.contains_key(key) {
        m.insert(key, (m[key] + 1) as u32)
    } else {
        m.insert(key, 1)
    }
}

/// The map after the entries of `pairs` are inserted in order, a later entry
/// replacing an earlier one with the same text.
pub open spec fn inserted_all(m: Map<Seq<char>, u32>, pairs: Seq<(Seq<char>, u32)>) -> Map<Seq<char>, u32>
    decreases pairs.len(),
{
    if pairs.len() == 0 {
        m
    } else {
        inserted_all(m, pairs.drop_last()).insert(pairs.last().0, pairs.last().1)
    }
}

proof fn lemma_entries_map(pairs: Seq<(Seq<char>, u32)>)
    requires
        distinct_keys(pairs),
    ensures
        lists_map(pairs, entries_map(pairs)),
{
    let m = entries_map(pairs);
    assert forall|i: int| 0 <= i < pairs.len() implies m.contains_key((#[trigger] pairs[i]).0) && m[pairs[i].0]
        == pairs[i].1 by {
        let k = pairs[i].0;
        let c = choose|c: int| 0 <= c < pairs.len() && pairs[c].0 == k;
        if c != i {
            if c < i {
                assert(pairs[c].0 != pairs[i].0);
            } else {
                assert(pairs[i].0 != pairs[c].0);
            }
        }
    }
}

proof fn lemma_entries_map_update(pairs: Seq<(Seq<char>, u32)>, i: int, c: u32)
    requires
        distinct_keys(pairs),
        0 <= i < pairs.len(),
    ensures
        distinct_keys(pairs.update(i, (pairs[i].0, c))),
        entries_map(pairs.update(i, (pairs[i].0, c))) == entries_map(pairs).insert(pairs[i].0, c),
{
    let n = pairs.update(i, (pairs[i].0, c));
    lemma_entries_map(pairs);
    assert(distinct_keys(n)) by {
        assert forall|a: int, b: int| 0 <= a < b < n.len() implies (#[trigger] n[a]).0 != (#[trigger] n[b]).0 by {
            assert(n[a].0 == pairs[a].0);
            assert(n[b].0 == pairs[b].0);
        }
    }
    lemma_entries_map(n);
    assert(entries_map(n) =~= entries_map(pairs).insert(pairs[i].0, c)) by {
        assert forall|k: Seq<char>| entries_map(n).contains_key(k) <==> entries_map(pairs).insert(pairs[i].0,
            c).contains_key(k) by {
            if entries_map(pairs).contains_key(k) {
                let a = choose|a: int| 0 <= a < pairs.len() && pairs[a].0 == k;
                assert(n[a].0 == k);
            }
            if entries_map(n).contains_key(k) {
                let a = choose|a: int| 0 <= a < n.len() && n[a].0 == k;
                assert(pairs[a].0 == k);
            }
        }
    }
}

proof fn lemma_entries_map_remove(pairs: Seq<(Seq<char>, u32)>, i: int)
    requires
        distinct_keys(pairs),
        0 <= i < pairs.len(),
    ensures
        distinct_keys(pairs.remove(i)),
        entries_map(pairs.remove(i)) == entries_map(pairs).remove(pairs[i].0),
{
    let n = pairs.remove(i);
    lemma_entries_map(pairs);
    assert(distinct_keys(n)) by {
        assert forall|a: int, b: int| 0 <= a < b < n.len() implies (#[trigger] n[a]).0 != (#[trigger] n[b]).0 by {
            let a0 = if a < i { a } else { a + 1 };
            let b0 = if b < i { b } else { b + 1 };
            assert(n[a] == pairs[a0]);
            assert(n[b] == pairs[b0]);
        }
    }
    lemma_entries_map(n);
    assert(entries_map(n) =~= entries_map(pairs).remove(pairs[i].0)) by {
        assert forall|k: Seq<char>| entries_map(n).contains_key(k) <==> entries_map(pairs).remove(
            pairs[i].0,
        ).contains_key(k) by {
            if entries_map(pairs).contains_key(k) && k != pairs[i].0 {
                let a = choose|a: int| 0 <= a < pairs.len() && pairs[a].0 == k;
                assert(a != i);
                if a < i {
                    assert(n[a].0 == k);
                } else {
                    assert(n[a - 1].0 == k);
                }
            }
            if entries_map(n).contains_key(k) {
                let a = choose|a: int| 0 <= a < n.len() && n[a].0 == k;
                let a0 = if a < i { a } else { a + 1 };
                assert(pairs[a0].0 == k);
                assert(a0 != i);
            }
        }
        assert forall|k: Seq<char>| #[trigger] entries_map(n).contains_key(k) implies entries_map(n)[k]
            == entries_map(pairs)[k] by {
            let a = choose|a: int| 0 <= a < n.len() && n[a].0 == k;
            let a0 = if a < i { a } else { a + 1 };
            assert(n[a] == pairs[a0]);
        }
    }
}

proof fn lemma_entries_map_push(pairs: Seq<(Seq<char>, u32)>, k: Seq<char>, c: u32)
    requires
        distinct_keys(pairs),
        !entries_map(pairs).contains_key(k),
    ensures
        distinct_keys(pairs.push((k, c))),
        entries_map(pairs.push((k, c))) == entries_map(pairs).insert(k, c),
{
    let n = pairs.push((k, c));
    lemma_entries_map(pairs);
    assert(distinct_keys(n)) by {
        assert forall|a: int, b: int| 0 <= a < b < n.len() implies (#[trigger] n[a]).0 != (#[trigger] n[b]).0 by {
            if b == pairs.len() {
                assert(n[a] == pairs[a]);
            } else {
                assert(n[a] == pairs[a]);
                assert(n[b] == pairs[b]);
            }
        }
    }
    lemma_entries_map(n);
    assert(entries_map(n) =~= entries_map(pairs).insert(k, c)) by {
        assert forall|x: Seq<char>| entries_map(n).contains_key(x) <==> entries_map(pairs).insert(k,
            c).contains_key(x) by {
            if entries_map(pairs).contains_key(x) {
                let a = choose|a: int| 0 <= a < pairs.len() && pairs[a].0 == x;
                assert(n[a].0 == x);
            }
            if x == k {
                assert(n[pairs.len() as int].0 == x);
            }
            if entries_map(n).contains_key(x) {
                let a = choose|a: int| 0 <= a < n.len() && n[a].0 == x;
                if a < pairs.len() {
                    assert(pairs[a].0 == x);
                }
            }
        }
        assert forall|x: Seq<char>| #[trigger] entries_map(n).contains_key(x) && x != k implies entries_map(n)[x]
            == entries_map(pairs)[x] by {
            let a = choose|a: int| 0 <= a < n.len() && n[a].0 == x;
            assert(a < pairs.len());
            assert(n[a] == pairs[a]);
        }
    }
}

impl TextCounts {
    #[verifier::type_invariant]
    spec fn texts_distinct(self) -> bool {
        distinct_keys(text_pairs_of(self.entries@))
    }

    /// The counts as a map from text to count.
    pub closed spec fn as_map(self) -> Map<Seq<char>, u32> {
        entries_map(text_pairs_of(self.entries@))
    }

    /// No counts at all.
    pub fn new() -> (r: Self)
        ensures
            r@ == Map::<Seq<char>, u32>::empty(),
    {
        let r = TextCounts { entries: Vec::new() };
        assert(r@ =~= Map::<Seq<char>, u32>::empty());
        r
    }

    /// The position of `key` among the entries.
    fn position(&self, key: &str) -> (r: Option<usize>)
        ensures
            match r {
                Some(i) => i < self.entries.len() && self.entries@[i as int].0@ == key@,
                None => !self@.contains_key(key@),
            },
    {
        let mut i: usize = 0;
        while i < self.entries.len()
            invariant
                i <= self.entries.len(),
                forall|j: int| 0 <= j < i ==> (#[trigger] self.entries@[j]).0@ != key@,
            decreases self.entries.len() - i,
        {
            if str_eq(self.entries[i].0.as_str(), key) {
                return Some(i);
            }
            i = i + 1;
        }
        proof {
            if self@.contains_key(key@) {
                let pv = text_pairs_of(self.entries@);
                let a = choose|a: int| 0 <= a < pv.len() && pv[a].0 == key@;
                assert(self.entries@[a].0@ == key@);
            }
        }
        None
    }

    /// The count recorded for `key`, if any.
    pub fn get(&self, key: &str) -> (r: Option<u32>)
        ensures
            r == (if self@.contains_key(key@) { Some(self@[key@]) } else { None::<u32> }),
    {
        proof {
            use_type_invariant(self);
            lemma_entries_map(text_pairs_of(self.entries@));
        }
        match self.position(key) {
            Some(i) => {
                assert(text_pairs_of(self.entries@)[i as int] == (key@, self.entries@[i as int].1));
                Some(self.entries[i].1)
            },
            None => None,
        }
    }

    /// Raises the count of `key` by one; a text not yet counted gets 1.
    pub fn increment(&mut self, key: String)
        requires
            old(self)@.contains_key(key@) ==> old(self)@[key@] < u32::MAX,
        ensures
            final(self)@ == incremented(old(self)@, key@),
    {
        proof {
            use_type_invariant(&*self);
            lemma_entries_map(text_pairs_of(self.entries@));
        }
        let mut entries: Vec<(String, u32)> = Vec::new();
        core::mem::swap(&mut entries, &mut self.entries);
        let ghost pv = text_pairs_of(entries@);
        match self.position_in(&entries, key.as_str()) {
            Some(i) => {
                let c = entries[i].1;
                assert(pv[i as int] == (key@, c));
                let k = entries[i].0.clone();
                entries.set(i, (k, c + 1));
                proof {
                    lemma_entries_map_update(pv, i as int, (c + 1) as u32);
                    assert(text_pairs_of(entries@) =~= pv.update(i as int, (pv[i as int].0, (c + 1) as u32)));
                }
            },
            None => {
                let ghost kv = key@;
                entries.push((key, 1));
                proof {
                    lemma_entries_map_push(pv, kv, 1);
                    assert(text_pairs_of(entries@) =~= pv.push((kv, 1u32)));
                }
            },
        }
        self.entries = entries;
    }

    /// Lowers the count of `key` by one, forgetting it when the count would
    /// reach zero; a text not counted stays uncounted.
    pub fn decrement(&mut self, key: &str)
        ensures
            final(self)@ == decremented(old(self)@, key@),
    {
        proof {
            use_type_invariant(&*self);
            lemma_entries_map(text_pairs_of(self.entries@));
        }
        let mut entries: Vec<(String, u32)> = Vec::new();
        core::mem::swap(&mut entries, &mut self.entries);
        let ghost pv = text_pairs_of(entries@);
        match self.position_in(&entries, key) {
            Some(i) => {
                let c = entries[i].1;
                assert(pv[i as int] == (key@, c));
                if c > 1 {
                    let k = entries[i].0.clone();
                    entries.set(i, (k, c - 1));
                    proof {
                        lemma_entries_map_update(pv, i as int, (c - 1) as u32);
                        assert(text_pairs_of(entries@) =~= pv.update(i as int, (pv[i as int].0, (c - 1) as u32)));
                    }
                } else {
                    entries.remove(i);
                    proof {
                        lemma_entries_map_remove(pv, i as int);
                        assert(text_pairs_of(entries@) =~= pv.remove(i as int));
                    }
                }
            },
            None => {},
        }
        self.entries = entries;
    }

    /// The position of `key` among `entries` (which list this map's contents).
    fn position_in(&self, entries: &Vec<(String, u32)>, key: &str) -> (r: Option<usize>)
        requires
            distinct_keys(text_pairs_of(entries@)),
        ensures
            match r {
                Some(i) => i < entries.len() && entries@[i as int].0@ == key@,
                None => !entries_map(text_pairs_of(entries@)).contains_key(key@),
            },
    {
        let mut i: usize = 0;
        while i < entries.len()
            invariant
                i <= entries.len(),
                forall|j: int| 0 <= j < i ==> (#[trigger] entries@[j]).0@ != key@,
            decreases entries.len() - i,
        {
            if str_eq(entries[i].0.as_str(), key) {
                return Some(i);
            }
            i = i + 1;
        }
        proof {
            let pv = text_pairs_of(entries@);
            if entries_map(pv).contains_key(key@) {
                let a = choose|a: int| 0 <= a < pv.len() && pv[a].0 == key@;
                assert(entries@[a].0@ == key@);
            }
        }
        None
    }

    /// The (text, count) entries, each text once.
    pub fn entries(&self) -> (r: Vec<(String, u32)>)
        ensures
            lists_map(text_pairs_of(r@), self@),
    {
        proof {
            use_type_invariant(self);
            lemma_entries_map(text_pairs_of(self.entries@));
        }
        let mut r: Vec<(String, u32)> = Vec::new();
        let mut i: usize = 0;
        while i < self.entries.len()
            invariant
                i <= self.entries.len(),
                r@.len() == i,
                forall|k: int| 0 <= k < i ==> (#[trigger] r@[k]).0@ == self.entries@[k].0@ && r@[k].1
                    == self.entries@[k].1,
            decreases self.entries.len() - i,
        {
            r.push((self.entries[i].0.clone(), self.entries[i].1));
            i = i + 1;
        }
        assert(text_pairs_of(r@) =~= text_pairs_of(self.entries@));
        r
    }

    /// The counts of a list of (text, count) entries; a later entry for a
    /// text replaces an earlier one.
    pub fn from_entries(pairs: Vec<(String, u32)>) -> (r: Self)
        ensures
            r@ == inserted_all(Map::empty(), text_pairs_of(pairs@)),
    {
        let mut r = TextCounts::new();
        let mut i: usize = 0;
        while i < pairs.len()
            invariant
                i <= pairs.len(),
                r@ == inserted_all(Map::empty(), text_pairs_of(pairs@).take(i as int)),
            decreases pairs.len() - i,
        {
            r.set(pairs[i].0.clone(), pairs[i].1);
            proof {
                let pv = text_pairs_of(pairs@);
                assert(pv.take(i + 1).drop_last() =~= pv.take(i as int));
            }
            i = i + 1;
        }
        assert(text_pairs_of(pairs@).take(i as int) =~= text_pairs_of(pairs@));
        r
    }

    /// Records `count` for `key`, replacing any earlier count.
    pub fn set(&mut self, key: String, count: u32)
        ensures
            final(self)@ == old(self)@.insert(key@, count),
    {
        proof {
            use_type_invariant(&*self);
            lemma_entries_map(text_pairs_of(self.entries@));
        }
        let mut entries: Vec<(String, u32)> = Vec::new();
        core::mem::swap(&mut entries, &mut self.entries);
        let ghost pv = text_pairs_of(entries@);
        match self.position_in(&entries, key.as_str()) {
            Some(i) => {
                let k = entries[i].0.clone();
                entries.set(i, (k, count));
                proof {
                    lemma_entries_map_update(pv, i as int, count);
                    assert(text_pairs_of(entries@) =~= pv.update(i as int, (pv[i as int].0, count)));
                }
            },
            None => {
                let ghost kv = key@;
                entries.push((key, count));
                proof {
                    lemma_entries_map_push(pv, kv, count);
                    assert(text_pairs_of(entries@) =~= pv.push((kv, count)));
                }
            },
        }
        self.entries = entries;
    }

    /// The `limit` most counted texts, most counted first, ties in text order.
    pub fn top_keys(&self, limit: usize) -> (r: Vec<String>)
        ensures
            views_of(r@) == prefix(text_ranking(self@), limit as int),
    {
        proof {
            use_type_invariant(self);
            lemma_entries_map(text_pairs_of(self.entries@));
        }
        let ranked = rank_texts(&self.entries, Ghost(self@));
        proof {
            lemma_text_order_asymmetric();
            lemma_ranking_is(self@, text_order(), views_of(ranked@));
        }
        let mut r: Vec<String> = Vec::new();
        let mut i: usize = 0;
        while i < ranked.len() && i < limit
            invariant
                i <= ranked.len(),
                i <= limit,
                r@.len() == i,
                forall|k: int| 0 <= k < i ==> (#[trigger] r@[k])@ == ranked@[k]@,
            decreases ranked.len() - i,
        {
            r.push(ranked[i].clone());
            i = i + 1;
        }
        proof {
            if limit >= ranked.len() {
                assert(views_of(r@) =~= views_of(ranked@));
            } else {
                assert(views_of(r@) =~= views_of(ranked@).take(limit as int));
            }
        }
        r
    }
}

impl View for TextCounts {
    type V = Map<Seq<char>, u32>;

    open spec fn view(&self) -> Map<Seq<char>, u32> {
        self.as_map()
    }
}

} // verus!
