//! A small map keyed by strings, kept as a vector of distinct keys in
//! insertion order.

use vstd::prelude::*;

verus! {

/// Pairs in `s` have pairwise distinct keys.
pub open spec fn keys_distinct<V>(s: Seq<(String, V)>) -> bool {
    forall|i: int, j: int| 0 <= i < s.len() && 0 <= j < s.len() && i != j ==> s[i].0@ != s[j].0@
}

/// Some pair of `s` has key `k`.
pub open spec fn has_key<V>(s: Seq<(String, V)>, k: Seq<char>) -> bool {
    exists|i: int| 0 <= i < s.len() && (#[trigger] s[i].0@) == k
}

/// The map that the pairs of `s` describe.
pub open spec fn pairs_map<V>(s: Seq<(String, V)>) -> Map<Seq<char>, V> {
    Map::new(
        |k: Seq<char>| has_key(s, k),
        |k: Seq<char>| s[choose|i: int| 0 <= i < s.len() && (#[trigger] s[i].0@) == k].1,
    )
}

/// Under distinct keys, the pair at `i` gives the map's value at its key.
pub proof fn lemma_pairs_map_at<V>(s: Seq<(String, V)>, i: int)
    requires
        keys_distinct(s),
        0 <= i < s.len(),
    ensures
        pairs_map(s).contains_key(s[i].0@),
        pairs_map(s)[s[i].0@] == s[i].1,
{
    assert(has_key(s, s[i].0@));
    let j = choose|j: int| 0 <= j < s.len() && (#[trigger] s[j].0@) == s[i].0@;
    assert(j == i);
}

/// Replacing the value at `i` updates the map at that key.
pub proof fn lemma_pairs_map_update<V>(s: Seq<(String, V)>, i: int, v: V)
    requires
        keys_distinct(s),
        0 <= i < s.len(),
    ensures
        keys_distinct(s.update(i, (s[i].0, v))),
        pairs_map(s.update(i, (s[i].0, v))) == pairs_map(s).insert(s[i].0@, v),
{
    let t = s.update(i, (s[i].0, v));
    assert forall|k: Seq<char>| has_key(t, k) <==> has_key(s, k) || k == s[i].0@ by {
        if has_key(t, k) {
            let j = choose|j: int| 0 <= j < t.len() && (#[trigger] t[j].0@) == k;
            assert(s[j].0@ == k);
        }
        if has_key(s, k) {
            let j = choose|j: int| 0 <= j < s.len() && (#[trigger] s[j].0@) == k;
            assert(t[j].0@ == k);
        }
        if k == s[i].0@ {
            assert(t[i].0@ == k);
        }
    }
    assert forall|k: Seq<char>| #[trigger] pairs_map(t).contains_key(k) implies pairs_map(t)[k]
        == pairs_map(s).insert(s[i].0@, v)[k] by {
        let j = choose|j: int| 0 <= j < t.len() && (#[trigger] t[j].0@) == k;
        lemma_pairs_map_at(t, j);
        if j != i {
            lemma_pairs_map_at(s, j);
        }
    }
    assert(pairs_map(t) =~= pairs_map(s).insert(s[i].0@, v));
}

/// Appending a pair with a new key adds it to the map.
pub proof fn lemma_pairs_map_push<V>(s: Seq<(String, V)>, key: String, v: V)
    requires
        keys_distinct(s),
        !has_key(s, key@),
    ensures
        keys_distinct(s.push((key, v))),
        pairs_map(s.push((key, v))) == pairs_map(s).insert(key@, v),
{
    let t = s.push((key, v));
    assert forall|k: Seq<char>| has_key(t, k) <==> has_key(s, k) || k == key@ by {
        if has_key(t, k) {
            let j = choose|j: int| 0 <= j < t.len() && (#[trigger] t[j].0@) == k;
            if j < s.len() {
                assert(s[j].0@ == k);
            }
        }
        if has_key(s, k) {
            let j = choose|j: int| 0 <= j < s.len() && (#[trigger] s[j].0@) == k;
            assert(t[j].0@ == k);
        }
        if k == key@ {
            assert(t[s.len() as int].0@ == k);
        }
    }
    assert(keys_distinct(t)) by {
        assert forall|i: int, j: int| 0 <= i < t.len() && 0 <= j < t.len() && i != j implies t[i].0@
            != t[j].0@ by {
            if i == s.len() {
                assert(t[j] == s[j]);
            } else if j == s.len() {
                assert(t[i] == s[i]);
            }
        }
    }
    assert forall|k: Seq<char>| #[trigger] pairs_map(t).contains_key(k) implies pairs_map(t)[k]
        == pairs_map(s).insert(key@, v)[k] by {
        let j = choose|j: int| 0 <= j < t.len() && (#[trigger] t[j].0@) == k;
        lemma_pairs_map_at(t, j);
        if j < s.len() {
            assert(t[j] == s[j]);
            lemma_pairs_map_at(s, j);
        }
    }
    assert(pairs_map(t) =~= pairs_map(s).insert(key@, v));
}

/// Removing the pair at `i` removes its key from the map.
pub proof fn lemma_pairs_map_remove<V>(s: Seq<(String, V)>, i: int)
    requires
        keys_distinct(s),
        0 <= i < s.len(),
    ensures
        keys_distinct(s.remove(i)),
        pairs_map(s.remove(i)) == pairs_map(s).remove(s[i].0@),
{
    let t = s.remove(i);
    assert forall|k: Seq<char>| has_key(t, k) <==> has_key(s, k) && k != s[i].0@ by {
        if has_key(t, k) {
            let j = choose|j: int| 0 <= j < t.len() && (#[trigger] t[j].0@) == k;
            if j < i {
                assert(s[j].0@ == k);
            } else {
                assert(s[j + 1].0@ == k);
            }
        }
        if has_key(s, k) && k != s[i].0@ {
            let j = choose|j: int| 0 <= j < s.len() && (#[trigger] s[j].0@) == k;
            if j < i {
                assert(t[j].0@ == k);
            } else {
                assert(t[j - 1].0@ == k);
            }
        }
    }
    assert(keys_distinct(t)) by {
        assert forall|a: int, b: int| 0 <= a < t.len() && 0 <= b < t.len() && a != b implies t[a].0@
            != t[b].0@ by {
            let a1 = if a < i { a } else { a + 1 };
            let b1 = if b < i { b } else { b + 1 };
            assert(t[a] == s[a1]);
            assert(t[b] == s[b1]);
        }
    }
    assert forall|k: Seq<char>| #[trigger] pairs_map(t).contains_key(k) implies pairs_map(t)[k]
        == pairs_map(s).remove(s[i].0@)[k] by {
        let j = choose|j: int| 0 <= j < t.len() && (#[trigger] t[j].0@) == k;
        lemma_pairs_map_at(t, j);
        let j1 = if j < i { j } else { j + 1 };
        assert(t[j] == s[j1]);
        lemma_pairs_map_at(s, j1);
    }
    assert(pairs_map(t) =~= pairs_map(s).remove(s[i].0@));
}

/// A map from strings to values.
#[derive(Debug, Clone)]
pub struct StrMap<V> {
    entries: Vec<(String, V)>,
}

impl<V> View for StrMap<V> {
    type V = Map<Seq<char>, V>;

    closed spec fn view(&self) -> Map<Seq<char>, V> {
        pairs_map(self.entries@)
    }
}

impl<V> StrMap<V> {
    /// The keys are distinct.
    pub closed spec fn wf(&self) -> bool {
        keys_distinct(self.entries@)
    }

    /// The pairs, in insertion order.
    pub closed spec fn pairs(&self) -> Seq<(String, V)> {
        self.entries@
    }

    /// The map holds exactly its pairs, whose keys are distinct.
    pub proof fn lemma_view(&self)
        requires
            self.wf(),
        ensures
            self@ == pairs_map(self.pairs()),
            keys_distinct(self.pairs()),
            self@.dom().finite(),
            self@.dom().len() == self.pairs().len(),
    {
        lemma_pairs_map_finite(self.entries@);
    }

    /// An empty map.
    pub fn new() -> (m: Self)
        ensures
            m.wf(),
            m@ == Map::<Seq<char>, V>::empty(),
            m.pairs() == Seq::<(String, V)>::empty(),
    {
        let m = StrMap { entries: Vec::new() };
        proof {
            assert(pairs_map(m.entries@) =~= Map::<Seq<char>, V>::empty());
        }
        m
    }

    /// The number of keys.
    pub fn len(&self) -> (r: usize)
        requires
            self.wf(),
        ensures
            r == self@.dom().len(),
            r == self.pairs().len(),
    {
        proof {
            lemma_pairs_map_finite(self.entries@);
        }
        self.entries.len()
    }

    /// Where `key` stands among the pairs, if it does.
    pub fn index_of(&self, key: &str) -> (r: Option<usize>)
        requires
            self.wf(),
        ensures
            match r {
                Some(i) => i < self.pairs().len() && self.pairs()[i as int].0@ == key@
                    && self@.contains_key(key@) && self@[key@] == self.pairs()[i as int].1,
                None => !self@.contains_key(key@),
            },
    {
        let k = key.to_owned();
        let mut i: usize = 0;
        while i < self.entries.len()
            invariant
                i <= self.entries@.len(),
                keys_distinct(self.entries@),
                k@ == key@,
                forall|j: int| 0 <= j < i ==> (#[trigger] self.entries@[j]).0@ != key@,
            decreases self.entries@.len() - i,
        {
            if self.entries[i].0 == k {
                proof {
                    lemma_pairs_map_at(self.entries@, i as int);
                }
                return Some(i);
            }
            i += 1;
        }
        None
    }

    /// The value under `key`, if any.
    pub fn get(&self, key: &str) -> (r: Option<&V>)
        requires
            self.wf(),
        ensures
            match r {
                Some(v) => self@.contains_key(key@) && self@[key@] == *v,
                None => !self@.contains_key(key@),
            },
    {
        match self.index_of(key) {
            Some(i) => Some(&self.entries[i].1),
            None => None,
        }
    }

    /// The key and value of the `i`-th pair.
    pub fn pair_at(&self, i: usize) -> (r: (&String, &V))
        requires
            self.wf(),
            i < self.pairs().len(),
        ensures
            *r.0 == self.pairs()[i as int].0,
            *r.1 == self.pairs()[i as int].1,
            self@.contains_key(r.0@),
            self@[r.0@] == *r.1,
    {
        proof {
            lemma_pairs_map_at(self.entries@, i as int);
        }
        (&self.entries[i].0, &self.entries[i].1)
    }

    /// Replaces the value of the `i`-th pair.
    pub fn set_at(&mut self, i: usize, v: V)
        requires
            old(self).wf(),
            i < old(self).pairs().len(),
        ensures
            final(self).wf(),
            final(self)@ == old(self)@.insert(old(self).pairs()[i as int].0@, v),
            final(self).pairs() == old(self).pairs().update(i as int, (old(self).pairs()[i as int].0, v)),
    {
        let ghost s = self.entries@;
        let (k, _) = self.entries.remove(i);
        self.entries.insert(i, (k, v));
        proof {
            assert(self.entries@ =~= s.update(i as int, (s[i as int].0, v)));
            lemma_pairs_map_update(s, i as int, v);
        }
    }

    /// Stores `v` under `key`, replacing an existing value in place or adding
    /// the key at the end.
    pub fn insert(&mut self, key: String, v: V)
        requires
            old(self).wf(),
        ensures
            final(self).wf(),
            final(self)@ == old(self)@.insert(key@, v),
    {
        match self.index_of(key.as_str()) {
            Some(i) => {
                self.set_at(i, v);
            },
            None => {
                let ghost s = self.entries@;
                self.entries.push((key, v));
                proof {
                    lemma_pairs_map_push(s, key, v);
                }
            },
        }
    }

    /// Removes `key`, returning its value if it was present.
    pub fn remove(&mut self, key: &str) -> (r: Option<V>)
        requires
            old(self).wf(),
        ensures
            final(self).wf(),
            final(self)@ == old(self)@.remove(key@),
            match r {
                Some(v) => old(self)@.contains_key(key@) && old(self)@[key@] == v,
                None => !old(self)@.contains_key(key@),
            },
    {
        match self.index_of(key) {
            Some(i) => {
                let ghost s = self.entries@;
                let (_, v) = self.entries.remove(i);
                proof {
                    lemma_pairs_map_remove(s, i as int);
                }
                Some(v)
            },
            None => {
                proof {
                    assert(self@ =~= old(self)@.remove(key@));
                }
                None
            },
        }
    }
}

/// A map of distinct keys has as many keys as pairs.
pub proof fn lemma_pairs_map_finite<V>(s: Seq<(String, V)>)
    requires
        keys_distinct(s),
    ensures
        pairs_map(s).dom().finite(),
        pairs_map(s).dom().len() == s.len(),
    decreases s.len(),
{
    if s.len() == 0 {
        assert(pairs_map(s).dom() =~= Set::<Seq<char>>::empty());
    } else {
        let s0 = s.drop_last();
        assert(keys_distinct(s0));
        lemma_pairs_map_finite(s0);
        assert(!has_key(s0, s.last().0@)) by {
            if has_key(s0, s.last().0@) {
                let j = choose|j: int| 0 <= j < s0.len() && (#[trigger] s0[j].0@) == s.last().0@;
                assert(s[j] == s0[j]);
            }
        }
        lemma_pairs_map_push(s0, s.last().0, s.last().1);
        assert(s0.push((s.last().0, s.last().1)) =~= s);
    }
}

} // verus!
