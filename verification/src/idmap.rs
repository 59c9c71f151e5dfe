//! An ordered map from identifiers to values, kept as a vector of entries
//! sorted by strictly increasing key. Walking the entries by position visits
//! the keys in increasing order.
use vstd::prelude::*;

verus! {

/// The keys of the entries increase strictly from first to last.
pub open spec fn keys_sorted<V>(s: Seq<(usize, V)>) -> bool {
    forall|i: int, j: int| 0 <= i < j < s.len() ==> #[trigger] s[i].0 < #[trigger] s[j].0
}

/// Some entry carries the key `k`.
pub open spec fn has_key<V>(s: Seq<(usize, V)>, k: usize) -> bool {
    exists|i: int| 0 <= i < s.len() && #[trigger] s[i].0 == k
}

/// The position of the entry that carries `k`, where there is one.
pub open spec fn index_of<V>(s: Seq<(usize, V)>, k: usize) -> int {
    choose|i: int| 0 <= i < s.len() && #[trigger] s[i].0 == k
}

/// The map that a sequence of entries stands for.
pub open spec fn entries_to_map<V>(s: Seq<(usize, V)>) -> Map<usize, V> {
    Map::new(|k: usize| has_key(s, k), |k: usize| s[index_of(s, k)].1)
}

/// The keys of the entries, in order.
pub open spec fn key_seq<V>(s: Seq<(usize, V)>) -> Seq<usize> {
    s.map_values(|e: (usize, V)| e.0)
}

/// In a sorted sequence an entry is the one entry with its key.
pub proof fn lemma_entry<V>(s: Seq<(usize, V)>, i: int)
    requires
        keys_sorted(s),
        0 <= i < s.len(),
    ensures
        index_of(s, s[i].0) == i,
        has_key(s, s[i].0),
        entries_to_map(s).contains_key(s[i].0),
        entries_to_map(s)[s[i].0] == s[i].1,
{
    assert(has_key(s, s[i].0));
    let j = index_of(s, s[i].0);
    assert(0 <= j < s.len() && s[j].0 == s[i].0);
    if j < i {
        assert(s[j].0 < s[i].0);
    } else if i < j {
        assert(s[i].0 < s[j].0);
    }
}

/// Every entry of a sorted sequence is found in its map under its key.
pub proof fn lemma_entries<V>(s: Seq<(usize, V)>)
    requires
        keys_sorted(s),
    ensures
        forall|i: int|
            0 <= i < s.len() ==> {
                &&& index_of(s, #[trigger] s[i].0) == i
                &&& entries_to_map(s).contains_key(s[i].0)
                &&& entries_to_map(s)[s[i].0] == s[i].1
            },
        forall|k: usize| entries_to_map(s).contains_key(k) <==> has_key(s, k),
{
    assert forall|i: int| 0 <= i < s.len() implies {
        &&& index_of(s, #[trigger] s[i].0) == i
        &&& entries_to_map(s).contains_key(s[i].0)
        &&& entries_to_map(s)[s[i].0] == s[i].1
    } by {
        lemma_entry(s, i);
    }
}

/// Replacing the value of an entry keeps the keys and updates the map.
pub proof fn lemma_update_value<V>(s: Seq<(usize, V)>, i: int, v: V)
    requires
        keys_sorted(s),
        0 <= i < s.len(),
    ensures
        keys_sorted(s.update(i, (s[i].0, v))),
        entries_to_map(s.update(i, (s[i].0, v))) == entries_to_map(s).insert(s[i].0, v),
        key_seq(s.update(i, (s[i].0, v))) == key_seq(s),
{
    let t = s.update(i, (s[i].0, v));
    assert(keys_sorted(t)) by {
        assert forall|a: int, b: int| 0 <= a < b < t.len() implies #[trigger] t[a].0
            < #[trigger] t[b].0 by {
            assert(s[a].0 < s[b].0);
        }
    }
    lemma_entries(s);
    lemma_entries(t);
    assert forall|k: usize| #[trigger]
        entries_to_map(t).contains_key(k) == entries_to_map(s).insert(s[i].0, v).contains_key(
            k,
        ) by {
        if has_key(s, k) {
            let j = index_of(s, k);
            assert(t[j].0 == k);
        }
        if has_key(t, k) {
            let j = index_of(t, k);
            assert(s[j].0 == k);
        }
    }
    assert forall|k: usize| #[trigger] entries_to_map(t).contains_key(k) implies entries_to_map(
        t,
    )[k] == entries_to_map(s).insert(s[i].0, v)[k] by {
        let j = index_of(t, k);
        assert(t[j].0 == k);
        assert(s[j].0 == k);
    }
    assert(entries_to_map(t) =~= entries_to_map(s).insert(s[i].0, v));
    assert(key_seq(t) =~= key_seq(s));
}

/// Changing the value of one entry in place keeps the keys and updates the
/// map under that entry's key.
pub proof fn lemma_changed_at<V>(s0: Seq<(usize, V)>, s1: Seq<(usize, V)>, i: int)
    requires
        keys_sorted(s0),
        0 <= i < s0.len(),
        s1.len() == s0.len(),
        s1[i].0 == s0[i].0,
        forall|j: int| 0 <= j < s0.len() && j != i ==> s1[j] == s0[j],
    ensures
        keys_sorted(s1),
        entries_to_map(s1) == entries_to_map(s0).insert(s0[i].0, s1[i].1),
        key_seq(s1) == key_seq(s0),
{
    lemma_update_value(s0, i, s1[i].1);
    assert(s1 =~= s0.update(i, (s0[i].0, s1[i].1)));
}

/// Inserting an entry at the position where its key belongs keeps the keys
/// sorted and adds the key to the map.
pub proof fn lemma_insert_entry<V>(s: Seq<(usize, V)>, p: int, k: usize, v: V)
    requires
        keys_sorted(s),
        0 <= p <= s.len(),
        forall|i: int| 0 <= i < p ==> #[trigger] s[i].0 < k,
        forall|i: int| p <= i < s.len() ==> k < #[trigger] s[i].0,
    ensures
        keys_sorted(s.insert(p, (k, v))),
        entries_to_map(s.insert(p, (k, v))) == entries_to_map(s).insert(k, v),
        !has_key(s, k),
{
    let t = s.insert(p, (k, v));
    assert(keys_sorted(t)) by {
        assert forall|a: int, b: int| 0 <= a < b < t.len() implies #[trigger] t[a].0
            < #[trigger] t[b].0 by {
            if b < p {
                assert(s[a].0 < s[b].0);
            } else if b == p {
                assert(s[a].0 < k);
            } else if a < p {
                assert(s[a].0 < k);
                assert(k < s[b - 1].0);
            } else if a == p {
                assert(k < s[b - 1].0);
            } else {
                assert(s[a - 1].0 < s[b - 1].0);
            }
        }
    }
    assert(!has_key(s, k)) by {
        if has_key(s, k) {
            let j = index_of(s, k);
            if j < p {
                assert(s[j].0 < k);
            } else {
                assert(k < s[j].0);
            }
        }
    }
    lemma_entries(s);
    lemma_entries(t);
    assert(t[p].0 == k);
    assert forall|x: usize| #[trigger]
        entries_to_map(t).contains_key(x) == entries_to_map(s).insert(k, v).contains_key(x) by {
        if has_key(s, x) {
            let j = index_of(s, x);
            if j < p {
                assert(t[j].0 == x);
            } else {
                assert(t[j + 1].0 == x);
            }
        }
        if has_key(t, x) && x != k {
            let j = index_of(t, x);
            if j < p {
                assert(s[j].0 == x);
            } else {
                assert(j != p);
                assert(s[j - 1].0 == x);
            }
        }
    }
    assert forall|x: usize| #[trigger] entries_to_map(t).contains_key(x) implies entries_to_map(
        t,
    )[x] == entries_to_map(s).insert(k, v)[x] by {
        if x != k {
            let j = index_of(t, x);
            if j < p {
                assert(s[j].0 == x);
            } else {
                assert(j != p);
                assert(s[j - 1].0 == x);
            }
        }
    }
    assert(entries_to_map(t) =~= entries_to_map(s).insert(k, v));
}

/// A map from identifiers to values whose entries are sorted by key.
pub struct IdMap<V> {
    pub entries: Vec<(usize, V)>,
}

impl<V> IdMap<V> {
    /// The entries are sorted by strictly increasing key.
    pub open spec fn wf(&self) -> bool {
        keys_sorted(self.entries@)
    }

    /// The map that the entries stand for.
    pub open spec fn view(&self) -> Map<usize, V> {
        entries_to_map(self.entries@)
    }

    /// The keys in increasing order.
    pub open spec fn keys(&self) -> Seq<usize> {
        key_seq(self.entries@)
    }

    pub fn new() -> (m: Self)
        ensures
            m.wf(),
            m.entries@.len() == 0,
            m@ == Map::<usize, V>::empty(),
    {
        let m = IdMap { entries: Vec::new() };
        assert(m@ =~= Map::<usize, V>::empty());
        m
    }

    pub fn len(&self) -> (n: usize)
        ensures
            n == self.entries@.len(),
    {
        self.entries.len()
    }

    /// The position of the entry with key `k`, if any.
    pub fn find(&self, k: usize) -> (r: Option<usize>)
        requires
            self.wf(),
        ensures
            match r {
                Some(i) => i < self.entries@.len() && self.entries@[i as int].0 == k
                    && self@.contains_key(k) && self@[k] == self.entries@[i as int].1,
                None => !self@.contains_key(k) && !has_key(self.entries@, k),
            },
    {
        proof {
            lemma_entries(self.entries@);
        }
        let mut i: usize = 0;
        while i < self.entries.len()
            invariant
                i <= self.entries@.len(),
                self.wf(),
                forall|j: int| 0 <= j < i ==> #[trigger] self.entries@[j].0 != k,
            decreases self.entries@.len() - i,
        {
            if self.entries[i].0 == k {
                proof {
                    lemma_entry(self.entries@, i as int);
                }
                return Some(i);
            }
            i = i + 1;
        }
        None
    }

    pub fn contains_key(&self, k: usize) -> (b: bool)
        requires
            self.wf(),
        ensures
            b == self@.contains_key(k),
    {
        self.find(k).is_some()
    }

    pub fn get(&self, k: usize) -> (r: Option<&V>)
        requires
            self.wf(),
        ensures
            match r {
                Some(v) => self@.contains_key(k) && *v == self@[k],
                None => !self@.contains_key(k),
            },
    {
        match self.find(k) {
            Some(i) => Some(&self.entries[i].1),
            None => None,
        }
    }

    /// Sets the value under `k`, adding the key where it was absent.
    pub fn insert(&mut self, k: usize, v: V)
        requires
            old(self).wf(),
        ensures
            final(self).wf(),
            final(self)@ == old(self)@.insert(k, v),
            old(self)@.contains_key(k) ==> final(self).keys() == old(self).keys(),
            !old(self)@.contains_key(k) ==> final(self).entries@.len() == old(
                self,
            ).entries@.len() + 1,
    {
        let mut p: usize = 0;
        while p < self.entries.len() && self.entries[p].0 < k
            invariant
                p <= self.entries@.len(),
                self.wf(),
                forall|i: int| 0 <= i < p ==> #[trigger] self.entries@[i].0 < k,
            decreases self.entries@.len() - p,
        {
            p = p + 1;
        }
        proof {
            lemma_entries(self.entries@);
        }
        if p < self.entries.len() && self.entries[p].0 == k {
            proof {
                lemma_update_value(self.entries@, p as int, v);
            }
            self.entries.set(p, (k, v));
        } else {
            proof {
                assert forall|i: int| p <= i < self.entries@.len() implies k
                    < #[trigger] self.entries@[i].0 by {
                    if i > p {
                        assert(self.entries@[p as int].0 < self.entries@[i].0);
                    }
                }
                lemma_insert_entry(self.entries@, p as int, k, v);
            }
            self.entries.insert(p, (k, v));
        }
    }
}

} // verus!
