//! A small map keyed by text, with at most one entry per key.
//!
//! It stands where a `BTreeMap<String, _>` would: the session's per-track
//! tables and a span's drill-down arguments. Lookups compare keys by their
//! characters; the entries are kept in key order, as a `BTreeMap` walks them.
use crate::text::{lemma_text_less_strict, lemma_text_less_trans, str_eq, text_less, text_less_exec, text_order, TextOrder};
use vstd::prelude::*;

verus! {

/// No key occurs twice among `e`.
pub open spec fn distinct_keys<V>(e: Seq<(String, V)>) -> bool {
    forall|i: int, j: int| 0 <= i < j < e.len() ==> e[i].0@ != e[j].0@
}

/// The keys of `e` strictly increase in text order.
pub open spec fn keys_sorted<V>(e: Seq<(String, V)>) -> bool {
    forall|i: int, j: int| 0 <= i < j < e.len() ==> text_less(#[trigger] e[i].0@, #[trigger] e[j].0@)
}

/// Keys in strictly increasing order are distinct.
pub proof fn lemma_sorted_distinct<V>(e: Seq<(String, V)>)
    requires
        keys_sorted(e),
    ensures
        distinct_keys(e),
{
    assert forall|i: int, j: int| 0 <= i < j < e.len() implies e[i].0@ != e[j].0@ by {
        lemma_text_less_strict(e[i].0@, e[j].0@);
    }
}

/// The map that the entries `e` describe.
pub open spec fn entries_map<V>(e: Seq<(String, V)>) -> Map<Seq<char>, V>
    decreases e.len(),
{
    if e.len() == 0 {
        Map::empty()
    } else {
        entries_map(e.drop_last()).insert(e.last().0@, e.last().1)
    }
}

/// With distinct keys, the map holds exactly the entries' keys, each with its value.
pub proof fn lemma_entries_map<V>(e: Seq<(String, V)>)
    requires
        distinct_keys(e),
    ensures
        forall|k: Seq<char>|
            #[trigger] entries_map(e).contains_key(k) <==> exists|i: int|
                0 <= i < e.len() && e[i].0@ == k,
        forall|i: int| 0 <= i < e.len() ==> #[trigger] entries_map(e)[e[i].0@] == e[i].1,
        entries_map(e).dom().len() == e.len(),
        entries_map(e).dom().finite(),
    decreases e.len(),
{
    if e.len() > 0 {
        let p = e.drop_last();
        assert(distinct_keys(p));
        lemma_entries_map(p);
        let k = e.last().0@;
        assert(!entries_map(p).contains_key(k)) by {
            if entries_map(p).contains_key(k) {
                let i = choose|i: int| 0 <= i < p.len() && p[i].0@ == k;
                assert(e[i].0@ == e[e.len() - 1].0@);
            }
        }
        assert forall|kk: Seq<char>|
            #[trigger] entries_map(e).contains_key(kk) <==> exists|i: int|
                0 <= i < e.len() && e[i].0@ == kk by {
            if entries_map(p).contains_key(kk) {
                let i = choose|i: int| 0 <= i < p.len() && p[i].0@ == kk;
                assert(e[i].0@ == kk);
            }
            if exists|i: int| 0 <= i < e.len() && e[i].0@ == kk {
                let i = choose|i: int| 0 <= i < e.len() && e[i].0@ == kk;
                if i < e.len() - 1 {
                    assert(p[i].0@ == kk);
                }
            }
        }
        assert forall|i: int| 0 <= i < e.len() implies #[trigger] entries_map(e)[e[i].0@]
            == e[i].1 by {
            if i < e.len() - 1 {
                assert(p[i] == e[i]);
                assert(e[i].0@ != k);
            }
        }
    }
}

/// Replacing the value of an existing entry changes the map at that key only.
proof fn lemma_entries_map_update<V>(e: Seq<(String, V)>, i: int, key: String, v: V)
    requires
        distinct_keys(e),
        0 <= i < e.len(),
        e[i].0@ == key@,
    ensures
        entries_map(e.update(i, (key, v))) == entries_map(e).insert(key@, v),
        distinct_keys(e.update(i, (key, v))),
        keys_sorted(e) ==> keys_sorted(e.update(i, (key, v))),
    decreases e.len(),
{
    let u = e.update(i, (key, v));
    if keys_sorted(e) {
        assert forall|a: int, b: int| 0 <= a < b < u.len() implies text_less(
            #[trigger] u[a].0@,
            #[trigger] u[b].0@,
        ) by {
            assert(u[a].0@ == e[a].0@);
            assert(u[b].0@ == e[b].0@);
        }
    }
    assert(distinct_keys(u)) by {
        assert forall|a: int, b: int| 0 <= a < b < u.len() implies u[a].0@ != u[b].0@ by {
            assert(e[a].0@ != e[b].0@);
        }
    }
    if i == e.len() - 1 {
        assert(u.drop_last() =~= e.drop_last());
        assert(entries_map(e.drop_last()).insert(key@, v) =~= entries_map(e).insert(key@, v));
    } else {
        let p = e.drop_last();
        assert(u.drop_last() =~= p.update(i, (key, v)));
        assert(distinct_keys(p));
        lemma_entries_map_update(p, i, key, v);
        assert(e.last().0@ != key@);
        assert(entries_map(u) =~= entries_map(e).insert(key@, v));
    }
}

/// Inserting a new key at the place where it sorts keeps the keys sorted and
/// adds that key to the map.
proof fn lemma_entries_map_insert<V>(e: Seq<(String, V)>, i: int, key: String, v: V)
    requires
        keys_sorted(e),
        0 <= i <= e.len(),
        forall|j: int| 0 <= j < i ==> text_less(#[trigger] e[j].0@, key@),
        i < e.len() ==> text_less(key@, e[i].0@),
    ensures
        keys_sorted(e.insert(i, (key, v))),
        distinct_keys(e.insert(i, (key, v))),
        entries_map(e.insert(i, (key, v))) == entries_map(e).insert(key@, v),
{
    let n = e.insert(i, (key, v));
    assert forall|a: int, b: int| 0 <= a < b < n.len() implies text_less(
        #[trigger] n[a].0@,
        #[trigger] n[b].0@,
    ) by {
        if b < i {
            assert(n[a] == e[a] && n[b] == e[b]);
        } else if b == i {
            assert(n[a] == e[a]);
        } else if a < i {
            assert(n[a] == e[a] && n[b] == e[b - 1]);
        } else if a == i {
            assert(n[b] == e[b - 1]);
            if b - 1 > i {
                lemma_text_less_trans(key@, e[i].0@, e[b - 1].0@);
            }
        } else {
            assert(n[a] == e[a - 1] && n[b] == e[b - 1]);
        }
    }
    lemma_sorted_distinct(n);
    lemma_sorted_distinct(e);
    lemma_entries_map(n);
    lemma_entries_map(e);
    assert forall|j: int| 0 <= j < e.len() implies #[trigger] e[j].0@ != key@ by {
        if j < i {
            lemma_text_less_strict(e[j].0@, key@);
        } else {
            if j > i {
                lemma_text_less_trans(key@, e[i].0@, e[j].0@);
            }
            lemma_text_less_strict(key@, e[j].0@);
        }
    }
    let m = entries_map(e).insert(key@, v);
    assert forall|k: Seq<char>| #[trigger] entries_map(n).contains_key(k) <==> m.contains_key(k) by {
        if entries_map(n).contains_key(k) {
            let j = choose|j: int| 0 <= j < n.len() && n[j].0@ == k;
            if j < i {
                assert(n[j] == e[j]);
            } else if j > i {
                assert(n[j] == e[j - 1]);
            }
        }
        if entries_map(e).contains_key(k) {
            let j = choose|j: int| 0 <= j < e.len() && e[j].0@ == k;
            if j < i {
                assert(n[j] == e[j]);
            } else {
                assert(n[j + 1] == e[j]);
            }
        }
        if k == key@ {
            assert(n[i].0@ == key@);
        }
    }
    assert forall|k: Seq<char>| #[trigger] entries_map(n).contains_key(k) implies entries_map(n)[k]
        == m[k] by {
        let j = choose|j: int| 0 <= j < n.len() && n[j].0@ == k;
        assert(entries_map(n)[n[j].0@] == n[j].1);
        if j < i {
            assert(n[j] == e[j]);
            assert(entries_map(e)[e[j].0@] == e[j].1);
        } else if j > i {
            assert(n[j] == e[j - 1]);
            assert(entries_map(e)[e[j - 1].0@] == e[j - 1].1);
        }
    }
    assert(entries_map(n) =~= m);
}

/// A map from text keys to values with one entry per key.
#[derive(Debug)]
pub struct TextMap<V> {
    entries: Vec<(String, V)>,
}

impl<V> View for TextMap<V> {
    type V = Map<Seq<char>, V>;

    closed spec fn view(&self) -> Map<Seq<char>, V> {
        entries_map(self.entries@)
    }
}

impl<V> TextMap<V> {
    #[verifier::type_invariant]
    spec fn keys_in_order(self) -> bool {
        distinct_keys(self.entries@) && keys_sorted(self.entries@)
    }

    /// The entries, in key order.
    pub closed spec fn entry_seq(self) -> Seq<(String, V)> {
        self.entries@
    }

    /// An empty map.
    pub fn new() -> (m: Self)
        ensures
            m@ == Map::<Seq<char>, V>::empty(),
    {
        TextMap { entries: Vec::new() }
    }

    /// The number of keys.
    pub fn len(&self) -> (n: usize)
        ensures
            n == self@.dom().len(),
    {
        proof {
            use_type_invariant(self);
            lemma_entries_map(self.entries@);
        }
        self.entries.len()
    }

    /// The entries, in key order.
    pub fn entries(&self) -> (r: &[(String, V)])
        ensures
            r@ == self.entry_seq(),
            keys_sorted(r@),
            distinct_keys(r@),
            entries_map(r@) == self@,
    {
        proof {
            use_type_invariant(self);
        }
        self.entries.as_slice()
    }

    fn position(&self, key: &str) -> (r: Option<usize>)
        ensures
            r matches Some(i) ==> i < self.entries@.len() && self.entries@[i as int].0@ == key@,
            r is None ==> forall|i: int|
                0 <= i < self.entries@.len() ==> self.entries@[i].0@ != key@,
    {
        let mut i: usize = 0;
        while i < self.entries.len()
            invariant
                i <= self.entries@.len(),
                forall|j: int| 0 <= j < i ==> self.entries@[j].0@ != key@,
            decreases self.entries@.len() - i,
        {
            if str_eq(self.entries[i].0.as_str(), key) {
                return Some(i);
            }
            i = i + 1;
        }
        None
    }

    /// The value stored under `key`.
    pub fn get(&self, key: &str) -> (r: Option<&V>)
        ensures
            r matches Some(v) ==> self@.contains_key(key@) && *v == self@[key@],
            r is None ==> !self@.contains_key(key@),
    {
        proof {
            use_type_invariant(self);
            lemma_entries_map(self.entries@);
        }
        match self.position(key) {
            Some(i) => Some(&self.entries[i].1),
            None => None,
        }
    }

    /// Whether `key` has a value.
    pub fn contains_key(&self, key: &str) -> (r: bool)
        ensures
            r == self@.contains_key(key@),
    {
        proof {
            use_type_invariant(self);
            lemma_entries_map(self.entries@);
        }
        self.position(key).is_some()
    }

    /// Stores `value` under `key`, replacing the value it had; a new key goes
    /// where it sorts, so the entries stay in key order.
    pub fn insert(&mut self, key: String, value: V)
        ensures
            final(self)@ == old(self)@.insert(key@, value),
    {
        proof {
            use_type_invariant(&*self);
        }
        let ghost e = self.entries@;
        let mut i: usize = 0;
        while i < self.entries.len() && text_less_exec(self.entries[i].0.as_str(), key.as_str())
            invariant
                e == self.entries@,
                i <= e.len(),
                forall|j: int| 0 <= j < i ==> text_less(#[trigger] e[j].0@, key@),
            decreases e.len() - i,
        {
            i = i + 1;
        }
        let mut entries: Vec<(String, V)> = Vec::new();
        std::mem::swap(&mut entries, &mut self.entries);
        if i < entries.len() {
            match text_order(entries[i].0.as_str(), key.as_str()) {
                TextOrder::Same => {
                    proof {
                        lemma_entries_map_update(e, i as int, key, value);
                    }
                    entries.set(i, (key, value));
                    self.entries = entries;
                    return;
                },
                _ => {},
            }
        }
        proof {
            lemma_entries_map_insert(e, i as int, key, value);
        }
        entries.insert(i, (key, value));
        self.entries = entries;
    }
}

impl<V: Clone> Clone for TextMap<V> {
    /// A copy with the same keys, each value cloned.
    fn clone(&self) -> (r: Self)
        ensures
            r@.dom() == self@.dom(),
            forall|k: Seq<char>| #[trigger] r@.contains_key(k) ==> cloned(self@[k], r@[k]),
    {
        proof {
            use_type_invariant(self);
            lemma_entries_map(self.entries@);
        }
        let ghost e = self.entries@;
        let mut out: Vec<(String, V)> = Vec::new();
        let mut i: usize = 0;
        while i < self.entries.len()
            invariant
                e == self.entries@,
                i <= e.len(),
                out@.len() == i,
                forall|j: int|
                    0 <= j < i ==> #[trigger] out@[j].0@ == e[j].0@ && cloned(e[j].1, out@[j].1),
            decreases e.len() - i,
        {
            let k = self.entries[i].0.clone();
            let v = self.entries[i].1.clone();
            out.push((k, v));
            i = i + 1;
        }
        let ghost o = out@;
        proof {
            assert(keys_sorted(o)) by {
                assert forall|a: int, b: int| 0 <= a < b < o.len() implies text_less(
                    #[trigger] o[a].0@,
                    #[trigger] o[b].0@,
                ) by {
                    assert(o[a].0@ == e[a].0@);
                    assert(o[b].0@ == e[b].0@);
                }
            }
            assert(distinct_keys(o)) by {
                assert forall|a: int, b: int| 0 <= a < b < o.len() implies o[a].0@ != o[b].0@ by {
                    assert(o[a].0@ == e[a].0@);
                    assert(o[b].0@ == e[b].0@);
                }
            }
            lemma_entries_map(o);
            assert forall|k: Seq<char>| #[trigger] entries_map(o).contains_key(k)
                <==> entries_map(e).contains_key(k) by {
                if entries_map(o).contains_key(k) {
                    let j = choose|j: int| 0 <= j < o.len() && o[j].0@ == k;
                    assert(o[j].0@ == e[j].0@);
                }
                if entries_map(e).contains_key(k) {
                    let j = choose|j: int| 0 <= j < e.len() && e[j].0@ == k;
                    assert(o[j].0@ == e[j].0@);
                }
            }
            assert(entries_map(o).dom() =~= entries_map(e).dom());
            assert forall|k: Seq<char>| #[trigger] entries_map(o).contains_key(k) implies cloned(
                entries_map(e)[k],
                entries_map(o)[k],
            ) by {
                let j = choose|j: int| 0 <= j < o.len() && o[j].0@ == k;
                assert(o[j].0@ == e[j].0@);
                assert(entries_map(o)[o[j].0@] == o[j].1);
                assert(entries_map(e)[e[j].0@] == e[j].1);
            }
        }
        TextMap { entries: out }
    }
}

} // verus!
