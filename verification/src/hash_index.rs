//! Hash indexes: a chained hash table and an extendible hash table, both
//! mapping `i64` keys to byte strings.

use vstd::prelude::*;
use crate::btree::clone_bytes;

verus! {

/// The value stored for `k` in `s`, scanning from the end.
pub open spec fn entry_lookup(s: Seq<(i64, Vec<u8>)>, k: i64) -> Option<Seq<u8>>
    decreases s.len(),
{
    if s.len() == 0 {
        None
    } else if s.last().0 == k {
        Some(s.last().1@)
    } else {
        entry_lookup(s.drop_last(), k)
    }
}

/// No key occurs twice in `s`.
pub open spec fn keys_unique(s: Seq<(i64, Vec<u8>)>) -> bool {
    forall|i: int, j: int| 0 <= i < s.len() && 0 <= j < s.len() && i != j ==> s[i].0 != s[j].0
}

/// With unique keys, the lookup finds the one entry of the key, if any.
pub proof fn lemma_entry_lookup(s: Seq<(i64, Vec<u8>)>, k: i64)
    requires
        keys_unique(s),
    ensures
        forall|j: int| 0 <= j < s.len() && s[j].0 == k ==> entry_lookup(s, k) == Some(s[j].1@),
        (forall|j: int| 0 <= j < s.len() ==> s[j].0 != k) ==> entry_lookup(s, k) is None,
        entry_lookup(s, k) is Some ==> exists|j: int| 0 <= j < s.len() && s[j].0 == k,
    decreases s.len(),
{
    if s.len() > 0 {
        let p = s.drop_last();
        assert forall|i: int, j: int| 0 <= i < p.len() && 0 <= j < p.len() && i != j implies p[i].0 != p[j].0 by {
            assert(p[i] == s[i] && p[j] == s[j]);
        }
        lemma_entry_lookup(p, k);
        assert forall|j: int| 0 <= j < s.len() && s[j].0 == k implies entry_lookup(s, k) == Some(s[j].1@) by {
            if j < s.len() - 1 {
                assert(p[j] == s[j]);
                assert(s.last().0 != k);
            }
        }
        if entry_lookup(s, k) is Some && s.last().0 != k {
            let j = choose|j: int| 0 <= j < p.len() && p[j].0 == k;
            assert(s[j] == p[j]);
        }
        if forall|j: int| 0 <= j < s.len() ==> s[j].0 != k {
            assert forall|j: int| 0 <= j < p.len() implies p[j].0 != k by {
                assert(p[j] == s[j]);
            }
            assert(s[s.len() - 1].0 != k);
        }
    }
}

/// The keys of `s`.
pub open spec fn entry_keys(s: Seq<(i64, Vec<u8>)>) -> Set<i64> {
    s.map_values(|e: (i64, Vec<u8>)| e.0).to_set()
}

/// The keys of every bucket of `bs`.
pub open spec fn all_keys(bs: Seq<Vec<(i64, Vec<u8>)>>) -> Set<i64>
    decreases bs.len(),
{
    if bs.len() == 0 {
        Set::empty()
    } else {
        all_keys(bs.drop_last()).union(entry_keys(bs.last()@))
    }
}

/// The keys of all buckets form a finite set holding every stored key.
proof fn lemma_all_keys(bs: Seq<Vec<(i64, Vec<u8>)>>)
    ensures
        all_keys(bs).finite(),
        forall|b: int, j: int| 0 <= b < bs.len() && 0 <= j < bs[b]@.len() ==> all_keys(bs).contains(#[trigger] bs[b]@[j].0),
    decreases bs.len(),
{
    if bs.len() > 0 {
        let p = bs.drop_last();
        lemma_all_keys(p);
        vstd::seq_lib::seq_to_set_is_finite(bs.last()@.map_values(|e: (i64, Vec<u8>)| e.0));
        assert forall|b: int, j: int| 0 <= b < bs.len() && 0 <= j < bs[b]@.len() implies all_keys(bs).contains(#[trigger] bs[b]@[j].0) by {
            if b < bs.len() - 1 {
                assert(p[b] == bs[b]);
            } else {
                let m = bs.last()@.map_values(|e: (i64, Vec<u8>)| e.0);
                assert(m[j] == bs[b]@[j].0);
                assert(m.contains(bs[b]@[j].0));
            }
        }
    }
}

/// Reading an index after writing to it: the key written holds the value
/// written, a removed key is gone, and other keys are as they were. (Both
/// tables' `insert` and the chained table's `remove` change their view by
/// exactly these map operations.)
pub proof fn lemma_index_read_after_write(m: Map<i64, Seq<u8>>, k: i64, v: Seq<u8>, k2: i64)
    ensures
        m.insert(k, v).contains_key(k),
        m.insert(k, v)[k] == v,
        !m.remove(k).contains_key(k),
        k2 != k ==> m.insert(k, v).contains_key(k2) == m.contains_key(k2),
        k2 != k && m.contains_key(k2) ==> m.insert(k, v)[k2] == m[k2],
        k2 != k ==> m.remove(k).contains_key(k2) == m.contains_key(k2),
        k2 != k && m.contains_key(k2) ==> m.remove(k)[k2] == m[k2],
{
}

/// A chained hash table: each key goes to bucket `(key as usize) % capacity`,
/// and a bucket holds its entries in a list.
#[derive(Debug, Clone)]
pub struct ChainedHashTable {
    buckets: Vec<Vec<(i64, Vec<u8>)>>,
    capacity: usize,
    size: usize,
}

/// The bucket of `key` in a table of `capacity` buckets.
pub open spec fn chain_of(key: i64, capacity: usize) -> int {
    ((key as usize) % capacity) as int
}

impl View for ChainedHashTable {
    type V = Map<i64, Seq<u8>>;

    closed spec fn view(&self) -> Map<i64, Seq<u8>> {
        Map::new(
            |k: i64| self.capacity > 0 && entry_lookup(self.buckets@[chain_of(k, self.capacity)]@, k) is Some,
            |k: i64| entry_lookup(self.buckets@[chain_of(k, self.capacity)]@, k)->0,
        )
    }
}

impl ChainedHashTable {
    /// The number of buckets.
    pub closed spec fn cap(&self) -> nat {
        self.capacity as nat
    }

    /// Every entry lies in its key's bucket, no bucket holds a key twice, and
    /// the size counts the keys.
    pub closed spec fn wf(&self) -> bool {
        &&& self.buckets@.len() == self.capacity
        &&& forall|b: int, j: int|
            0 <= b < self.buckets@.len() && 0 <= j < self.buckets@[b]@.len() ==> chain_of(
                #[trigger] self.buckets@[b]@[j].0,
                self.capacity,
            ) == b
        &&& forall|b: int| 0 <= b < self.buckets@.len() ==> keys_unique(#[trigger] self.buckets@[b]@)
        &&& self@.dom().finite()
        &&& self.size == self@.dom().len()
    }

    /// The keys stored in the table lie among the keys of its buckets.
    proof fn lemma_dom_finite(&self)
        requires
            self.buckets@.len() == self.capacity,
            forall|b: int| 0 <= b < self.buckets@.len() ==> keys_unique(#[trigger] self.buckets@[b]@),
        ensures
            self@.dom().finite(),
    {
        lemma_all_keys(self.buckets@);
        assert forall|k: i64| self@.dom().contains(k) implies all_keys(self.buckets@).contains(k) by {
            let b = chain_of(k, self.capacity);
            lemma_entry_lookup(self.buckets@[b]@, k);
            let j = choose|j: int| 0 <= j < self.buckets@[b]@.len() && self.buckets@[b]@[j].0 == k;
        }
        vstd::set_lib::lemma_len_subset(self@.dom(), all_keys(self.buckets@));
    }

    /// A well-formed table holds finitely many keys.
    pub proof fn lemma_finite(&self)
        requires
            self.wf(),
        ensures
            self@.dom().finite(),
    {
    }

    /// Inserting a key that is not stored adds one to the number of keys;
    /// replacing the value of a stored key keeps it.
    pub proof fn lemma_insert_len(&self, key: i64, v: Seq<u8>)
        requires
            self.wf(),
        ensures
            self@.insert(key, v).len() == self@.len() + if self@.contains_key(key) {
                0int
            } else {
                1int
            },
    {
        if self@.contains_key(key) {
            assert(self@.insert(key, v).dom() =~= self@.dom());
        }
    }

    /// An empty table with `capacity` buckets.
    pub fn new(capacity: usize) -> (r: ChainedHashTable)
        ensures
            r.wf(),
            r@ == Map::<i64, Seq<u8>>::empty(),
            r.cap() == capacity,
    {
        let mut buckets: Vec<Vec<(i64, Vec<u8>)>> = Vec::new();
        let mut i: usize = 0;
        while i < capacity
            invariant
                i <= capacity,
                buckets@.len() == i,
                forall|b: int| 0 <= b < i ==> (#[trigger] buckets@[b])@.len() == 0,
            decreases capacity - i,
        {
            buckets.push(Vec::new());
            i += 1;
        }
        let r = ChainedHashTable { buckets, capacity, size: 0 };
        proof {
            assert forall|k: i64| !r@.dom().contains(k) by {
                if capacity > 0 {
                    assert(r.buckets@[chain_of(k, capacity)]@.len() == 0);
                }
            }
            assert(r@ =~= Map::<i64, Seq<u8>>::empty());
        }
        r
    }

    /// The bucket of `key`.
    fn hash(&self, key: i64) -> (r: usize)
        requires
            self.capacity > 0,
        ensures
            r == chain_of(key, self.capacity),
            r < self.capacity,
    {
        (key as usize) % self.capacity
    }

    /// Where `key` stands in its bucket `idx`, if it is there.
    fn find_in(&self, idx: usize, key: i64) -> (r: Option<usize>)
        requires
            idx < self.buckets@.len(),
        ensures
            match r {
                Some(j) => j < self.buckets@[idx as int]@.len() && self.buckets@[idx as int]@[j as int].0 == key,
                None => forall|j: int| 0 <= j < self.buckets@[idx as int]@.len() ==> self.buckets@[idx as int]@[j].0 != key,
            },
    {
        let bucket = &self.buckets[idx];
        let mut j: usize = 0;
        while j < bucket.len()
            invariant
                j <= bucket@.len(),
                bucket@ == self.buckets@[idx as int]@,
                forall|jj: int| 0 <= jj < j ==> bucket@[jj].0 != key,
            decreases bucket@.len() - j,
        {
            if bucket[j].0 == key {
                return Some(j);
            }
            j += 1;
        }
        None
    }

    /// Stores `value` under `key`, replacing what was there.
    pub fn insert(&mut self, key: i64, value: Vec<u8>)
        requires
            old(self).wf(),
            old(self).cap() > 0,
            old(self)@.len() < usize::MAX,
        ensures
            final(self).wf(),
            final(self).cap() == old(self).cap(),
            final(self)@ == old(self)@.insert(key, value@),
    {
        let idx = self.hash(key);
        let ghost v = value@;
        let found = self.find_in(idx, key);
        let mut bucket: Vec<(i64, Vec<u8>)> = Vec::new();
        std::mem::swap(&mut bucket, &mut self.buckets[idx]);
        let ghost ob = bucket@;
        let ghost old_buckets = old(self).buckets@;
        match found {
            Some(j) => {
                bucket.set(j, (key, value));
            },
            None => {
                bucket.push((key, value));
            },
        }
        std::mem::swap(&mut bucket, &mut self.buckets[idx]);
        if found.is_none() {
            self.size = self.size + 1;
        }
        proof {
            let nb = self.buckets@[idx as int]@;
            assert(self.buckets@ == old_buckets.update(idx as int, self.buckets@[idx as int]));
            assert(ob == old_buckets[idx as int]@);
            assert(keys_unique(nb)) by {
                assert forall|a: int, b: int| 0 <= a < nb.len() && 0 <= b < nb.len() && a != b implies nb[a].0 != nb[b].0 by {
                    if found is Some {
                        assert(keys_unique(ob));
                    } else {
                        if a < ob.len() && b < ob.len() {
                            assert(nb[a] == ob[a] && nb[b] == ob[b]);
                        } else if a < ob.len() {
                            assert(nb[a] == ob[a]);
                        } else {
                            assert(nb[b] == ob[b]);
                        }
                    }
                }
            }
            assert forall|b: int, j: int|
                0 <= b < self.buckets@.len() && 0 <= j < self.buckets@[b]@.len() implies chain_of(
                    #[trigger] self.buckets@[b]@[j].0,
                    self.capacity,
                ) == b by {
                if b == idx {
                    if j < ob.len() && !(found == Some(j as usize)) {
                        assert(nb[j] == ob[j]);
                    }
                }
            }
            lemma_entry_lookup(ob, key);
            lemma_entry_lookup(nb, key);
            match found {
                Some(jj) => {
                    assert(nb[jj as int] == (key, value));
                    assert(entry_lookup(nb, key) == Some(v));
                },
                None => {
                    assert(nb[ob.len() as int].0 == key);
                    assert(entry_lookup(nb, key) == Some(v));
                },
            }
            assert forall|k: i64| #[trigger] self@.dom().contains(k) <==> old(self)@.insert(key, v).dom().contains(k) by {
                if chain_of(k, self.capacity) != idx {
                    assert(self.buckets@[chain_of(k, self.capacity)] == old_buckets[chain_of(k, self.capacity)]);
                } else if k != key {
                    lemma_entry_lookup(ob, k);
                    lemma_entry_lookup(nb, k);
                    if entry_lookup(ob, k) is Some {
                        let j = choose|j: int| 0 <= j < ob.len() && ob[j].0 == k;
                        assert(nb[j] == ob[j]);
                    }
                    if entry_lookup(nb, k) is Some {
                        let j = choose|j: int| 0 <= j < nb.len() && nb[j].0 == k;
                        assert(nb[j] == ob[j]);
                    }
                }
            }
            assert forall|k: i64| #[trigger] self@.dom().contains(k) implies self@[k] == old(self)@.insert(key, v)[k] by {
                if chain_of(k, self.capacity) != idx {
                    assert(self.buckets@[chain_of(k, self.capacity)] == old_buckets[chain_of(k, self.capacity)]);
                } else if k != key {
                    lemma_entry_lookup(ob, k);
                    lemma_entry_lookup(nb, k);
                    let j = choose|j: int| 0 <= j < nb.len() && nb[j].0 == k;
                    assert(nb[j] == ob[j]);
                } else if k == key {
                    match found {
                        Some(jj) => {
                            assert(nb[jj as int] == (key, value));
                        },
                        None => {
                            assert(nb[ob.len() as int].0 == key);
                        },
                    }
                }
            }
            assert(self@ =~= old(self)@.insert(key, v));
            self.lemma_dom_finite();
        }
    }

    /// The value stored under `key`, if any.
    pub fn get(&self, key: i64) -> (r: Option<&Vec<u8>>)
        requires
            self.wf(),
            self.cap() > 0,
        ensures
            match r {
                Some(v) => self@.contains_key(key) && self@[key] == v@,
                None => !self@.contains_key(key),
            },
    {
        let idx = self.hash(key);
        proof {
            lemma_entry_lookup(self.buckets@[idx as int]@, key);
        }
        match self.find_in(idx, key) {
            Some(j) => Some(&self.buckets[idx][j].1),
            None => None,
        }
    }

    /// Removes `key`; returns whether it was there.
    pub fn remove(&mut self, key: i64) -> (r: bool)
        requires
            old(self).wf(),
            old(self).cap() > 0,
        ensures
            final(self).wf(),
            final(self).cap() == old(self).cap(),
            final(self)@ == old(self)@.remove(key),
            r == old(self)@.contains_key(key),
    {
        let idx = self.hash(key);
        proof {
            lemma_entry_lookup(self.buckets@[idx as int]@, key);
        }
        match self.find_in(idx, key) {
            Some(pos) => {
                let mut bucket: Vec<(i64, Vec<u8>)> = Vec::new();
                std::mem::swap(&mut bucket, &mut self.buckets[idx]);
                let ghost ob = bucket@;
                let ghost old_buckets = old(self).buckets@;
                bucket.remove(pos);
                std::mem::swap(&mut bucket, &mut self.buckets[idx]);
                proof {
                    assert(old(self)@.dom().contains(key));
                    assert(old(self)@.dom().len() > 0) by {
                        vstd::set_lib::lemma_set_empty_equivalency_len(old(self)@.dom());
                    }
                }
                self.size = self.size - 1;
                proof {
                    let nb = self.buckets@[idx as int]@;
                    assert(self.buckets@ == old_buckets.update(idx as int, self.buckets@[idx as int]));
                    assert(ob == old_buckets[idx as int]@);
                    assert(nb == ob.remove(pos as int));
                    assert(keys_unique(nb)) by {
                        assert forall|a: int, b: int| 0 <= a < nb.len() && 0 <= b < nb.len() && a != b implies nb[a].0 != nb[b].0 by {
                            let a1 = if a < pos { a } else { a + 1 };
                            let b1 = if b < pos { b } else { b + 1 };
                            assert(nb[a] == ob[a1] && nb[b] == ob[b1]);
                        }
                    }
                    assert forall|b: int, j: int|
                        0 <= b < self.buckets@.len() && 0 <= j < self.buckets@[b]@.len() implies chain_of(
                            #[trigger] self.buckets@[b]@[j].0,
                            self.capacity,
                        ) == b by {
                        if b == idx {
                            let j1 = if j < pos { j } else { j + 1 };
                            assert(nb[j] == ob[j1]);
                        }
                    }
                    lemma_entry_lookup(nb, key);
                    assert forall|k: i64| #[trigger] self@.dom().contains(k) <==> old(self)@.remove(key).dom().contains(k) by {
                        if chain_of(k, self.capacity) == idx && k != key {
                            lemma_entry_lookup(ob, k);
                            lemma_entry_lookup(nb, k);
                            if entry_lookup(ob, k) is Some {
                                let j = choose|j: int| 0 <= j < ob.len() && ob[j].0 == k;
                                assert(j != pos);
                                let j1 = if j < pos { j } else { j - 1 };
                                assert(nb[j1] == ob[j]);
                            }
                            if entry_lookup(nb, k) is Some {
                                let j = choose|j: int| 0 <= j < nb.len() && nb[j].0 == k;
                                let j1 = if j < pos { j } else { j + 1 };
                                assert(nb[j] == ob[j1]);
                            }
                        } else if k == key {
                            assert forall|j: int| 0 <= j < nb.len() implies nb[j].0 != key by {
                                let j1 = if j < pos { j } else { j + 1 };
                                assert(nb[j] == ob[j1]);
                            }
                        }
                    }
                    assert forall|k: i64| #[trigger] self@.dom().contains(k) implies self@[k] == old(self)@.remove(key)[k] by {
                        if chain_of(k, self.capacity) == idx {
                            lemma_entry_lookup(ob, k);
                            lemma_entry_lookup(nb, k);
                            let j = choose|j: int| 0 <= j < nb.len() && nb[j].0 == k;
                            let j1 = if j < pos { j } else { j + 1 };
                            assert(nb[j] == ob[j1]);
                        }
                    }
                    assert(self@ =~= old(self)@.remove(key));
                    self.lemma_dom_finite();
                }
                true
            },
            None => {
                proof {
                    assert(self@ =~= old(self)@.remove(key));
                }
                false
            },
        }
    }

    /// Whether `key` is stored.
    pub fn contains(&self, key: i64) -> (r: bool)
        requires
            self.wf(),
            self.cap() > 0,
        ensures
            r == self@.contains_key(key),
    {
        self.get(key).is_some()
    }

    /// The number of keys stored.
    pub fn len(&self) -> (r: usize)
        requires
            self.wf(),
        ensures
            r == self@.len(),
    {
        self.size
    }

    /// Whether no key is stored.
    pub fn is_empty(&self) -> (r: bool)
        requires
            self.wf(),
        ensures
            r == (self@.len() == 0),
    {
        self.size == 0
    }

    /// The load factor as a fraction: (number of keys, number of buckets).
    pub fn load_factor(&self) -> (r: (usize, usize))
        requires
            self.wf(),
        ensures
            r.0 == self@.len(),
            r.1 == self.cap(),
    {
        (self.size, self.capacity)
    }
}

/// The `l` low bits set.
pub open spec fn low_mask(l: usize) -> usize {
    ((1usize << l) - 1) as usize
}

/// Masking to fewer bits after more is masking to the fewer.
proof fn lemma_mask_mask(x: usize, l: usize, g: usize)
    requires
        l <= g < usize::BITS,
    ensures
        (x & low_mask(g)) & low_mask(l) == x & low_mask(l),
        low_mask(l) <= low_mask(g),
{
    assert((x & (((1usize << g) - 1) as usize)) & (((1usize << l) - 1) as usize) == x & (((1usize << l) - 1) as usize)
        && (((1usize << l) - 1) as usize) <= (((1usize << g) - 1) as usize)) by (bit_vector)
        requires
            l <= g < usize::BITS,
    ;
}

/// Below `2^g`, masking to `g` bits keeps the number; from `2^g` to
/// `2^(g+1)`, it takes `2^g` off.
proof fn lemma_mask_double(i: usize, g: usize)
    requires
        g + 1 < usize::BITS,
        i < (1usize << ((g + 1) as usize)),
    ensures
        i < (1usize << g) ==> i & low_mask(g) == i,
        i >= (1usize << g) ==> i & low_mask(g) == i - (1usize << g),
        (1usize << ((g + 1) as usize)) == 2 * (1usize << g),
        (1usize << g) > 0,
{
    assert((i < (1usize << g) ==> i & (((1usize << g) - 1) as usize) == i)
        && (i >= (1usize << g) ==> i & (((1usize << g) - 1) as usize) == i - (1usize << g))
        && (1usize << ((g + 1) as usize)) == 2 * (1usize << g)
        && (1usize << g) > 0) by (bit_vector)
        requires
            g + 1 < usize::BITS,
            i < (1usize << ((g + 1) as usize)),
    ;
}

/// Agreeing on `l + 1` low bits is agreeing on `l` low bits and on bit `l`.
proof fn lemma_mask_split(i: usize, j: usize, l: usize)
    requires
        l + 1 < usize::BITS,
    ensures
        (i & low_mask((l + 1) as usize) == j & low_mask((l + 1) as usize)) <==> (i & low_mask(l) == j & low_mask(l) && (i & (1usize << l) == 0) == (j & (1usize << l) == 0)),
{
    assert((i & (((1usize << ((l + 1) as usize)) - 1) as usize) == j & (((1usize << ((l + 1) as usize)) - 1) as usize)) <==> (i & (((1usize << l) - 1) as usize) == j & (((1usize << l) - 1) as usize) && (i & (1usize << l) == 0) == (j & (1usize << l) == 0))) by (bit_vector)
        requires
            l + 1 < usize::BITS,
    ;
}

/// The two slots below `2^g` that agree with `i` on its `l` low bits and
/// differ in bit `l`.
proof fn lemma_sibling_slots(i: usize, l: usize, g: usize)
    requires
        l < g,
        g < usize::BITS,
    ensures
        (i & low_mask(l)) & low_mask(l) == i & low_mask(l),
        ((i & low_mask(l)) | (1usize << l)) & low_mask(l) == i & low_mask(l),
        (i & low_mask(l)) & (1usize << l) == 0,
        ((i & low_mask(l)) | (1usize << l)) & (1usize << l) != 0,
        (i & low_mask(l)) < (1usize << g),
        ((i & low_mask(l)) | (1usize << l)) < (1usize << g),
{
    assert(((i & (((1usize << l) - 1) as usize)) & (((1usize << l) - 1) as usize) == i & (((1usize << l) - 1) as usize))
        && (((i & (((1usize << l) - 1) as usize)) | (1usize << l)) & (((1usize << l) - 1) as usize) == i & (((1usize << l) - 1) as usize))
        && ((i & (((1usize << l) - 1) as usize)) & (1usize << l) == 0)
        && (((i & (((1usize << l) - 1) as usize)) | (1usize << l)) & (1usize << l) != 0)
        && ((i & (((1usize << l) - 1) as usize)) < (1usize << g))
        && (((i & (((1usize << l) - 1) as usize)) | (1usize << l)) < (1usize << g))) by (bit_vector)
        requires
            l < g,
            g < usize::BITS,
    ;
}

/// A power of two that fits is positive.
proof fn lemma_pow_pos(g: usize)
    requires
        g < usize::BITS,
    ensures
        (1usize << g) > 0,
        low_mask(g) == (1usize << g) - 1,
{
    assert((1usize << g) > 0) by (bit_vector)
        requires
            g < usize::BITS,
    ;
}

/// A masked number is below the power.
proof fn lemma_mask_bound(x: usize, g: usize)
    requires
        g < usize::BITS,
    ensures
        x & low_mask(g) < (1usize << g),
{
    assert(x & (((1usize << g) - 1) as usize) < (1usize << g)) by (bit_vector)
        requires
            g < usize::BITS,
    ;
}

/// The number of entries a bucket of the extendible table holds before it
/// splits.
pub const BUCKET_CAPACITY: usize = 3;

/// The hash of a key before masking: a multiplicative hash.
pub open spec fn full_hash(k: i64) -> usize {
    (k as usize).wrapping_mul(2654435761usize)
}

/// The directory slot of `k` at global depth `g`: the `g` low bits of its hash.
pub open spec fn slot(k: i64, g: usize) -> usize {
    full_hash(k) & low_mask(g)
}

/// The stored keys other than `key` whose hash agrees with `key`'s on every
/// bit but the top one: splitting can never separate more than two of them
/// from `key`.
pub open spec fn near_collisions(m: Map<i64, Seq<u8>>, key: i64) -> Set<i64> {
    m.dom().filter(|k: i64| k != key && full_hash(k) & low_mask((usize::BITS - 1) as usize) == full_hash(key) & low_mask((usize::BITS - 1) as usize))
}

/// A bucket of the extendible table: how many hash bits its slots share, and
/// its entries.
#[derive(Debug, Clone)]
struct ExtendibleBucket {
    local_depth: usize,
    entries: Vec<(i64, Vec<u8>)>,
}

/// An extendible hash table: a directory of `2^global_depth` slots, each
/// naming a bucket; a key's slot is given by the low bits of its hash.
#[derive(Debug, Clone)]
pub struct ExtendibleHashTable {
    global_depth: usize,
    directory: Vec<usize>,
    buckets: Vec<ExtendibleBucket>,
}

impl View for ExtendibleHashTable {
    type V = Map<i64, Seq<u8>>;

    closed spec fn view(&self) -> Map<i64, Seq<u8>> {
        Map::new(
            |k: i64| entry_lookup(self.buckets@[self.bucket_of(k)].entries@, k) is Some,
            |k: i64| entry_lookup(self.buckets@[self.bucket_of(k)].entries@, k)->0,
        )
    }
}

impl ExtendibleHashTable {
    /// The bucket that the directory gives for `k`.
    pub closed spec fn bucket_of(&self, k: i64) -> int {
        self.directory@[slot(k, self.global_depth) as int] as int
    }

    /// The local depth of the bucket in slot `i`.
    spec fn depth_at(&self, i: int) -> usize {
        self.buckets@[self.directory@[i] as int].local_depth
    }

    /// The directory has `2^global_depth` slots naming buckets; two slots
    /// name the same bucket exactly when they agree on its local depth of low
    /// bits; every entry sits in the bucket of its key's slot; no bucket holds
    /// a key twice.
    pub closed spec fn wf(&self) -> bool {
        &&& self.global_depth < usize::BITS
        &&& self.directory@.len() == (1usize << self.global_depth)
        &&& forall|i: int| 0 <= i < self.directory@.len() ==> (#[trigger] self.directory@[i]) < self.buckets@.len()
        &&& forall|b: int| 0 <= b < self.buckets@.len() ==> (#[trigger] self.buckets@[b]).local_depth <= self.global_depth
        &&& forall|i: int, j: int|
            0 <= i < self.directory@.len() && 0 <= j < self.directory@.len() ==> ((#[trigger] self.directory@[i] == #[trigger] self.directory@[j]) <==> ((i as usize) & low_mask(self.depth_at(i)) == (j as usize) & low_mask(self.depth_at(i))))
        &&& forall|b: int, e: int|
            0 <= b < self.buckets@.len() && 0 <= e < self.buckets@[b].entries@.len() ==> self.bucket_of(#[trigger] self.buckets@[b].entries@[e].0) == b
        &&& forall|b: int| 0 <= b < self.buckets@.len() ==> keys_unique(#[trigger] self.buckets@[b].entries@)
        &&& forall|b: int| 0 <= b < self.buckets@.len() ==> (#[trigger] self.buckets@[b]).entries@.len() <= BUCKET_CAPACITY
        &&& forall|b: int| 0 <= b < self.buckets@.len() ==> #[trigger] self.named(b)
    }

    /// Some directory slot names bucket `b`.
    spec fn named(&self, b: int) -> bool {
        exists|i: int| 0 <= i < self.directory@.len() && self.directory@[i] == b
    }

    /// How many entries bucket `b` holds.
    pub closed spec fn bucket_load(&self, b: int) -> nat {
        self.buckets@[b].entries@.len()
    }

    /// How many entries the bucket of `k` holds.
    pub closed spec fn load_of(&self, k: i64) -> nat {
        self.buckets@[self.bucket_of(k)].entries@.len()
    }

    /// While the table has a single bucket, it holds every stored key: the
    /// bucket of any key holds as many entries as the table has keys.
    pub proof fn lemma_single_bucket_load(&self)
        requires
            self.wf(),
            self.bucket_count() == 1,
        ensures
            forall|k: i64| #[trigger] self.load_of(k) == self@.dom().len(),
    {
        let g = self.global_depth;
        let es = self.buckets@[0].entries@;
        let ks = es.map_values(|e: (i64, Vec<u8>)| e.0);
        assert forall|i: int, j: int| 0 <= i < ks.len() && 0 <= j < ks.len() && i != j implies ks[i] != ks[j] by {
            assert(ks[i] == es[i].0 && ks[j] == es[j].0);
        }
        assert(ks.no_duplicates());
        ks.unique_seq_to_set();
        assert forall|k: i64| #[trigger] self@.dom().contains(k) <==> ks.to_set().contains(k) by {
            lemma_mask_bound(full_hash(k), g);
            assert(self.bucket_of(k) == 0);
            lemma_entry_lookup(es, k);
            if ks.to_set().contains(k) {
                let j = choose|j: int| 0 <= j < ks.len() && ks[j] == k;
                assert(es[j].0 == k);
            }
            if self@.dom().contains(k) {
                let j = choose|j: int| 0 <= j < es.len() && es[j].0 == k;
                assert(ks[j] == k);
            }
        }
        assert(self@.dom() =~= ks.to_set());
        assert forall|k: i64| #[trigger] self.load_of(k) == self@.dom().len() by {
            lemma_mask_bound(full_hash(k), g);
            assert(self.bucket_of(k) == 0);
        }
    }

    /// A well-formed table has at least one bucket and at most one per
    /// directory slot, `2^depth()`, and no bucket holds more than
    /// `BUCKET_CAPACITY` entries.
    pub proof fn lemma_bucket_bounds(&self)
        requires
            self.wf(),
        ensures
            1 <= self.bucket_count() <= vstd::arithmetic::power2::pow2(self.depth()),
            forall|b: int| 0 <= b < self.bucket_count() ==> #[trigger] self.bucket_load(b) <= BUCKET_CAPACITY,
    {
        let g = self.global_depth;
        let d = self.directory@;
        let n = self.buckets@.len() as int;
        lemma_pow_pos(g);
        assert(d[0] < n);
        vstd::bits::lemma_usize_pow2_no_overflow(g as nat);
        vstd::bits::lemma_usize_shl_is_mul(1, g);
        let ds = d.map_values(|x: usize| x as int);
        assert forall|b: int| #[trigger] vstd::set_lib::set_int_range(0, n).contains(b) implies ds.to_set().contains(b) by {
            assert(self.named(b));
            let i = choose|i: int| 0 <= i < d.len() && d[i] == b;
            assert(ds[i] == b);
        }
        vstd::set_lib::lemma_int_range(0, n);
        ds.lemma_cardinality_of_set();
        vstd::seq_lib::seq_to_set_is_finite(ds);
        vstd::set_lib::lemma_len_subset(vstd::set_lib::set_int_range(0, n), ds.to_set());
        assert forall|b: int| 0 <= b < self.bucket_count() implies #[trigger] self.bucket_load(b) <= BUCKET_CAPACITY by {
            assert(self.buckets@[b].entries@.len() <= BUCKET_CAPACITY);
        }
    }

    /// An empty table: one slot, one bucket.
    pub fn new() -> (r: ExtendibleHashTable)
        ensures
            r.wf(),
            r@ == Map::<i64, Seq<u8>>::empty(),
            r.depth() == 0,
            r.bucket_count() == 1,
    {
        let bucket = ExtendibleBucket { local_depth: 0, entries: Vec::new() };
        let mut directory: Vec<usize> = Vec::new();
        directory.push(0);
        let mut buckets: Vec<ExtendibleBucket> = Vec::new();
        buckets.push(bucket);
        let r = ExtendibleHashTable { global_depth: 0, directory, buckets };
        proof {
            assert((1usize << 0usize) == 1) by (bit_vector);
            assert(low_mask(0) == 0) by {
                assert((((1usize << 0usize) - 1) as usize) == 0) by (bit_vector);
            }
            assert forall|i: int, j: int| 0 <= i < r.directory@.len() && 0 <= j < r.directory@.len() implies ((#[trigger] r.directory@[i] == #[trigger] r.directory@[j]) <==> ((i as usize) & low_mask(r.depth_at(i)) == (j as usize) & low_mask(r.depth_at(i)))) by {
                assert(i == 0 && j == 0);
            }
            assert forall|k: i64| !r@.dom().contains(k) by {
                lemma_mask_bound(full_hash(k), 0);
            }
            assert(r@ =~= Map::<i64, Seq<u8>>::empty());
            assert(r.directory@[0] == 0);
            assert(r.named(0));
        }
        r
    }

    /// The directory slot of `key`.
    fn hash(&self, key: i64) -> (r: usize)
        requires
            self.global_depth < usize::BITS,
        ensures
            r == slot(key, self.global_depth),
            r < (1usize << self.global_depth),
    {
        let h = (key as usize).wrapping_mul(2654435761);
        proof {
            lemma_mask_bound(h, self.global_depth);
            lemma_pow_pos(self.global_depth);
        }
        let mask = (1usize << self.global_depth) - 1;
        h & mask
    }

    /// The global depth: the directory has `2^depth()` slots.
    pub closed spec fn depth(&self) -> nat {
        self.global_depth as nat
    }

    /// The number of buckets.
    pub closed spec fn bucket_count(&self) -> nat {
        self.buckets@.len()
    }

    /// The global depth: the directory has `2^global_depth` slots.
    pub fn global_depth(&self) -> (r: usize)
        ensures
            r == self.depth(),
    {
        self.global_depth
    }

    /// The number of buckets.
    pub fn num_buckets(&self) -> (r: usize)
        ensures
            r == self.bucket_count(),
    {
        self.buckets.len()
    }
}

impl ExtendibleHashTable {
    /// Where `key` stands in bucket `b`, if it is there.
    fn find_entry(&self, b: usize, key: i64) -> (r: Option<usize>)
        requires
            b < self.buckets@.len(),
        ensures
            match r {
                Some(j) => j < self.buckets@[b as int].entries@.len() && self.buckets@[b as int].entries@[j as int].0 == key,
                None => forall|j: int| 0 <= j < self.buckets@[b as int].entries@.len() ==> self.buckets@[b as int].entries@[j].0 != key,
            },
    {
        let entries = &self.buckets[b].entries;
        let mut j: usize = 0;
        while j < entries.len()
            invariant
                j <= entries@.len(),
                entries@ == self.buckets@[b as int].entries@,
                forall|jj: int| 0 <= jj < j ==> entries@[jj].0 != key,
            decreases entries@.len() - j,
        {
            if entries[j].0 == key {
                return Some(j);
            }
            j += 1;
        }
        None
    }

    /// The value stored under `key`, if any.
    pub fn get(&self, key: i64) -> (r: Option<&Vec<u8>>)
        requires
            self.wf(),
        ensures
            match r {
                Some(v) => self@.contains_key(key) && self@[key] == v@,
                None => !self@.contains_key(key),
            },
    {
        let dir_idx = self.hash(key);
        let bucket_idx = self.directory[dir_idx];
        proof {
            lemma_entry_lookup(self.buckets@[bucket_idx as int].entries@, key);
        }
        match self.find_entry(bucket_idx, key) {
            Some(j) => Some(&self.buckets[bucket_idx].entries[j].1),
            None => None,
        }
    }

    /// Whether `key` is stored.
    pub fn contains(&self, key: i64) -> (r: bool)
        requires
            self.wf(),
        ensures
            r == self@.contains_key(key),
    {
        self.get(key).is_some()
    }

    /// Doubles the directory: slot `i + 2^g` names what slot `i` names.
    fn double_directory(&mut self)
        requires
            old(self).wf(),
            old(self).global_depth + 1 < usize::BITS,
        ensures
            final(self).wf(),
            final(self)@ == old(self)@,
            final(self).global_depth == old(self).global_depth + 1,
            final(self).buckets@ == old(self).buckets@,
            forall|i: int| 0 <= i < final(self).directory@.len() ==> #[trigger] final(self).directory@[i] == old(self).directory@[((i as usize) & low_mask(old(self).global_depth)) as int],
    {
        let ghost g = self.global_depth;
        let ghost od = self.directory@;
        let old_len = self.directory.len();
        let mut i: usize = 0;
        while i < old_len
            invariant
                old_len == od.len(),
                i <= old_len,
                self.directory@.len() == old_len + i,
                forall|j: int| 0 <= j < old_len ==> self.directory@[j] == od[j],
                forall|j: int| 0 <= j < i ==> self.directory@[old_len + j] == od[j],
                self.buckets@ == old(self).buckets@,
                self.global_depth == g,
            decreases old_len - i,
        {
            let d = self.directory[i];
            self.directory.push(d);
            i += 1;
        }
        self.global_depth = self.global_depth + 1;
        proof {
            lemma_pow_pos((g + 1) as usize);
            lemma_mask_double(0, g);
            let nd = self.directory@;
            assert forall|i: int| 0 <= i < nd.len() implies #[trigger] nd[i] == od[((i as usize) & low_mask(g)) as int] by {
                lemma_mask_double(i as usize, g);
                if i >= old_len {
                    assert(nd[old_len + (i - old_len)] == od[i - old_len]);
                }
            }
            assert forall|i: int| 0 <= i < nd.len() implies (#[trigger] nd[i]) < self.buckets@.len() by {
                lemma_mask_bound(i as usize, g);
                assert(nd[i] == od[((i as usize) & low_mask(g)) as int]);
            }
            assert forall|i: int, j: int|
                0 <= i < nd.len() && 0 <= j < nd.len() implies ((#[trigger] nd[i] == #[trigger] nd[j]) <==> ((i as usize) & low_mask(self.depth_at(i)) == (j as usize) & low_mask(self.depth_at(i)))) by {
                let ii = ((i as usize) & low_mask(g)) as int;
                let jj = ((j as usize) & low_mask(g)) as int;
                lemma_mask_bound(i as usize, g);
                lemma_mask_bound(j as usize, g);
                assert(nd[i] == od[ii] && nd[j] == od[jj]);
                let l = self.depth_at(i);
                assert(l == old(self).depth_at(ii));
                assert(l <= g);
                lemma_mask_mask(i as usize, l, g);
                lemma_mask_mask(j as usize, l, g);
                assert((ii as usize) == ((i as usize) & low_mask(g)));
                assert((jj as usize) == ((j as usize) & low_mask(g)));
            }
            assert forall|k: i64| #[trigger] self.bucket_of(k) == old(self).bucket_of(k) by {
                lemma_mask_bound(full_hash(k), (g + 1) as usize);
                lemma_mask_mask(full_hash(k), g, (g + 1) as usize);
                let s1 = slot(k, (g + 1) as usize);
                assert(nd[s1 as int] == od[((s1 as usize) & low_mask(g)) as int]);
            }
            assert forall|b: int, e: int|
                0 <= b < self.buckets@.len() && 0 <= e < self.buckets@[b].entries@.len() implies self.bucket_of(#[trigger] self.buckets@[b].entries@[e].0) == b by {
                assert(self.bucket_of(self.buckets@[b].entries@[e].0) == old(self).bucket_of(self.buckets@[b].entries@[e].0));
            }
            assert(self@ =~= old(self)@);
            assert forall|b: int| 0 <= b < self.buckets@.len() implies #[trigger] self.named(b) by {
                assert(old(self).named(b));
                let i = choose|i: int| 0 <= i < od.len() && od[i] == b;
                assert(nd[i] == od[i]);
            }
        }
    }
}

impl ExtendibleHashTable {
    /// Splits bucket `bucket_idx` in two by one more hash bit: its slots with
    /// that bit set go to a new bucket, and its entries follow their slots.
    /// The other buckets, and the slots that lead to them, stay as they were.
    #[verifier::spinoff_prover]
    #[verifier::rlimit(80)]
    fn split_bucket(&mut self, bucket_idx: usize)
        requires
            old(self).wf(),
            bucket_idx < old(self).buckets@.len(),
            old(self).buckets@[bucket_idx as int].local_depth < old(self).global_depth,
        ensures
            final(self).wf(),
            final(self)@ == old(self)@,
            final(self).global_depth == old(self).global_depth,
            final(self).buckets@.len() == old(self).buckets@.len() + 1,
            final(self).buckets@[bucket_idx as int].local_depth == old(self).buckets@[bucket_idx as int].local_depth + 1,
            final(self).buckets@[old(self).buckets@.len() as int].local_depth == old(self).buckets@[bucket_idx as int].local_depth + 1,
            forall|i: int| 0 <= i < old(self).directory@.len() && #[trigger] old(self).directory@[i] == bucket_idx ==> final(self).directory@[i] == bucket_idx || final(self).directory@[i] == old(self).buckets@.len(),
            forall|c: int| 0 <= c < old(self).buckets@.len() && c != bucket_idx ==> #[trigger] final(self).buckets@[c] == old(self).buckets@[c],
            forall|i: int| 0 <= i < old(self).directory@.len() && #[trigger] old(self).directory@[i] != bucket_idx ==> final(self).directory@[i] == old(self).directory@[i],
    {
        let ghost g = self.global_depth;
        let ghost od = self.directory@;
        let ghost ob = self.buckets@;
        let ghost l = ob[bucket_idx as int].local_depth;
        let ghost oe = ob[bucket_idx as int].entries@;
        let local_depth = self.buckets[bucket_idx].local_depth;
        let new_depth = local_depth + 1;
        let mut old_entries: Vec<(i64, Vec<u8>)> = Vec::new();
        std::mem::swap(&mut old_entries, &mut self.buckets[bucket_idx].entries);
        self.buckets[bucket_idx].local_depth = new_depth;
        let new_bucket_idx = self.buckets.len();
        let ghost nb0 = self.buckets@;
        proof {
            assert(old_entries@ == oe);
            assert(nb0.len() == ob.len());
            assert(nb0[bucket_idx as int].local_depth == l + 1);
            assert(nb0[bucket_idx as int].entries@.len() == 0);
            assert(forall|c: int| 0 <= c < ob.len() && c != bucket_idx ==> #[trigger] nb0[c] == ob[c]);
            assert(l + 1 < usize::BITS);
        }
        let mask: usize = 1usize << local_depth;
        let mut i: usize = 0;
        while i < self.directory.len()
            invariant
                self.directory@.len() == od.len(),
                self.buckets@ == nb0,
                self.global_depth == g,
                i <= od.len(),
                forall|j: int| 0 <= j < i ==> #[trigger] self.directory@[j] == if od[j] == bucket_idx && (j as usize) & mask != 0 {
                    new_bucket_idx
                } else {
                    od[j]
                },
                forall|j: int| i <= j < od.len() ==> #[trigger] self.directory@[j] == od[j],
            decreases od.len() - i,
        {
            if self.directory[i] == bucket_idx && (i & mask) != 0 {
                self.directory.set(i, new_bucket_idx);
            }
            i += 1;
        }
        let ghost nd = self.directory@;
        proof {
            assert forall|tt: int| 0 <= tt < oe.len() implies nd[slot((#[trigger] oe[tt]).0, g) as int] == bucket_idx || nd[slot(oe[tt].0, g) as int] == new_bucket_idx by {
                assert(ob[bucket_idx as int].entries@[tt] == oe[tt]);
                assert(old(self).bucket_of(oe[tt].0) == bucket_idx);
                lemma_mask_bound(full_hash(oe[tt].0), g);
            }
        }
        let mut part0: Vec<(i64, Vec<u8>)> = Vec::new();
        let mut part1: Vec<(i64, Vec<u8>)> = Vec::new();
        let ghost mut t: int = 0;
        let ghost mut src0: Seq<int> = Seq::empty();
        let ghost mut src1: Seq<int> = Seq::empty();
        let ghost mut pos: Seq<int> = Seq::empty();
        while old_entries.len() > 0
            invariant
                self.global_depth == g,
                g < usize::BITS,
                self.directory@ == nd,
                self.buckets@ == nb0,
                nd.len() == (1usize << g),
                new_bucket_idx == ob.len(),
                0 <= t <= oe.len(),
                old_entries@ == oe.subrange(t, oe.len() as int),
                keys_unique(oe),
                forall|tt: int| 0 <= tt < oe.len() ==> nd[slot((#[trigger] oe[tt]).0, g) as int] == bucket_idx || nd[slot(oe[tt].0, g) as int] == new_bucket_idx,
                src0.len() == part0@.len(),
                src1.len() == part1@.len(),
                pos.len() == t,
                forall|e: int| 0 <= e < part0@.len() ==> 0 <= #[trigger] src0[e] < t && part0@[e] == oe[src0[e]],
                forall|e: int| 0 <= e < part1@.len() ==> 0 <= #[trigger] src1[e] < t && part1@[e] == oe[src1[e]],
                forall|e: int| 0 <= e < part0@.len() ==> nd[slot((#[trigger] part0@[e]).0, g) as int] == bucket_idx,
                forall|e: int| 0 <= e < part1@.len() ==> nd[slot((#[trigger] part1@[e]).0, g) as int] == new_bucket_idx,
                forall|tt: int| 0 <= tt < t ==> (nd[slot(oe[tt].0, g) as int] == bucket_idx && 0 <= #[trigger] pos[tt] < part0@.len() && part0@[pos[tt]] == oe[tt])
                    || (nd[slot(oe[tt].0, g) as int] == new_bucket_idx && 0 <= pos[tt] < part1@.len() && part1@[pos[tt]] == oe[tt]),
                keys_unique(part0@),
                keys_unique(part1@),
                part0@.len() + part1@.len() == t,
            decreases old_entries@.len(),
        {
            let (k, v) = old_entries.remove(0);
            proof {
                assert(oe[t] == (k, v));
                assert(oe.subrange(t + 1, oe.len() as int) =~= oe.subrange(t, oe.len() as int).subrange(1, oe.len() - t));
            }
            let idx = self.hash(k);
            let bidx = self.directory[idx];
            proof {
                assert(bidx == nd[slot(oe[t].0, g) as int]);
            }
            if bidx == bucket_idx {
                let ghost before = part0@;
                part0.push((k, v));
                proof {
                    assert forall|e: int| 0 <= e < before.len() implies before[e].0 != k by {
                        assert(src0[e] != t);
                    }
                    src0 = src0.push(t);
                    pos = pos.push(before.len() as int);
                }
            } else {
                let ghost before = part1@;
                part1.push((k, v));
                proof {
                    assert forall|e: int| 0 <= e < before.len() implies before[e].0 != k by {
                        assert(src1[e] != t);
                    }
                    src1 = src1.push(t);
                    pos = pos.push(before.len() as int);
                }
            }
            proof {
                t = t + 1;
            }
        }
        std::mem::swap(&mut part0, &mut self.buckets[bucket_idx].entries);
        let ghost p0 = self.buckets@[bucket_idx as int].entries@;
        let ghost p1 = part1@;
        self.buckets.push(ExtendibleBucket { local_depth: new_depth, entries: part1 });
        proof {
            assert(t == oe.len());
            let nbk = self.buckets@;
            assert(nbk[new_bucket_idx as int].entries@ == p1);
            assert(nbk[bucket_idx as int].entries@ == p0);
            assert forall|c: int| 0 <= c < ob.len() && c != bucket_idx implies #[trigger] nbk[c] == ob[c] by {
                assert(nbk[c] == nb0[c]);
            }
            assert forall|c: int| 0 <= c < nbk.len() implies (#[trigger] nbk[c]).local_depth <= self.global_depth by {
                if c != bucket_idx && c != new_bucket_idx {
                    assert(nbk[c] == ob[c]);
                }
            }
            assert forall|i: int, j: int|
                0 <= i < nd.len() && 0 <= j < nd.len() implies ((#[trigger] nd[i] == #[trigger] nd[j]) <==> ((i as usize) & low_mask(self.depth_at(i)) == (j as usize) & low_mask(self.depth_at(i)))) by {
                assert(od[i] == od[j] <==> ((i as usize) & low_mask(old(self).depth_at(i)) == (j as usize) & low_mask(old(self).depth_at(i))));
                lemma_mask_split(i as usize, j as usize, l);
                if od[i] == bucket_idx {
                    assert(nd[i] == bucket_idx || nd[i] == new_bucket_idx);
                    assert(self.depth_at(i) == l + 1);
                } else {
                    assert(nd[i] == od[i]);
                    assert(nbk[nd[i] as int] == ob[od[i] as int]);
                    assert(self.depth_at(i) == old(self).depth_at(i));
                    if od[j] == bucket_idx {
                        assert(nd[j] == bucket_idx || nd[j] == new_bucket_idx);
                    }
                }
            }
            assert forall|k: i64| #[trigger] self.bucket_of(k) == nd[slot(k, g) as int] && (old(self).bucket_of(k) != bucket_idx ==> self.bucket_of(k) == old(self).bucket_of(k)) by {
                lemma_mask_bound(full_hash(k), g);
            }
            assert forall|b: int, e: int|
                0 <= b < nbk.len() && 0 <= e < nbk[b].entries@.len() implies self.bucket_of(#[trigger] nbk[b].entries@[e].0) == b by {
                if b != bucket_idx && b != new_bucket_idx {
                    assert(nbk[b] == ob[b]);
                    assert(old(self).bucket_of(ob[b].entries@[e].0) == b);
                } else if b == bucket_idx {
                    assert(nbk[b].entries@[e] == p0[e]);
                } else {
                    assert(nbk[b].entries@[e] == p1[e]);
                }
            }
            assert forall|b: int| 0 <= b < nbk.len() implies keys_unique(#[trigger] nbk[b].entries@) by {
                if b != bucket_idx && b != new_bucket_idx {
                    assert(nbk[b] == ob[b]);
                }
            }
            assert forall|i: int| 0 <= i < nd.len() implies (#[trigger] nd[i]) < nbk.len() by {
            }
            assert forall|k: i64| #[trigger] old(self).bucket_of(k) == bucket_idx implies self.bucket_of(k) == bucket_idx || self.bucket_of(k) == ob.len() by {
                lemma_mask_bound(full_hash(k), g);
                assert(nd[slot(k, g) as int] == if od[slot(k, g) as int] == bucket_idx && (slot(k, g) as usize) & mask != 0 {
                    new_bucket_idx
                } else {
                    od[slot(k, g) as int]
                });
            }
            assert forall|k: i64| 0 <= #[trigger] old(self).bucket_of(k) < ob.len() by {
                lemma_mask_bound(full_hash(k), g);
            }
            lemma_split_view(*old(self), *self, bucket_idx as int, oe, p0, p1, src0, src1, pos);
            assert(self@ =~= old(self)@);
            assert forall|c: int| 0 <= c < nbk.len() implies (#[trigger] nbk[c]).entries@.len() <= BUCKET_CAPACITY by {
                if c != bucket_idx && c != new_bucket_idx {
                    assert(nbk[c] == ob[c]);
                }
            }
            assert(old(self).named(bucket_idx as int));
            let i0 = choose|i: int| 0 <= i < od.len() && od[i] == bucket_idx;
            lemma_sibling_slots(i0 as usize, l, g);
            let j0 = ((i0 as usize) & low_mask(l)) as int;
            let j1 = (((i0 as usize) & low_mask(l)) | (1usize << l)) as int;
            assert(old(self).depth_at(i0) == l);
            assert(od[j0] == bucket_idx);
            assert(od[j1] == bucket_idx);
            assert(nd[j0] == bucket_idx);
            assert(nd[j1] == new_bucket_idx);
            assert forall|c: int| 0 <= c < nbk.len() implies #[trigger] self.named(c) by {
                if c == bucket_idx {
                    assert(self.directory@[j0] == c);
                } else if c == new_bucket_idx {
                    assert(self.directory@[j1] == c);
                } else {
                    assert(old(self).named(c));
                    let i = choose|i: int| 0 <= i < od.len() && od[i] == c;
                    assert(nd[i] == od[i]);
                }
            }
        }
    }
}

/// Splitting a bucket keeps every key's value: the entries of the split
/// bucket go to the two halves, each where its slot now points, and nothing
/// else moves.
proof fn lemma_split_view(
    o: ExtendibleHashTable,
    n: ExtendibleHashTable,
    b: int,
    oe: Seq<(i64, Vec<u8>)>,
    p0: Seq<(i64, Vec<u8>)>,
    p1: Seq<(i64, Vec<u8>)>,
    src0: Seq<int>,
    src1: Seq<int>,
    pos: Seq<int>,
)
    requires
        0 <= b < o.buckets@.len(),
        n.buckets@.len() == o.buckets@.len() + 1,
        forall|c: int| 0 <= c < o.buckets@.len() && c != b ==> #[trigger] n.buckets@[c] == o.buckets@[c],
        n.buckets@[b].entries@ == p0,
        n.buckets@[o.buckets@.len() as int].entries@ == p1,
        oe == o.buckets@[b].entries@,
        keys_unique(oe),
        keys_unique(p0),
        keys_unique(p1),
        forall|k: i64| #[trigger] o.bucket_of(k) != b ==> n.bucket_of(k) == o.bucket_of(k),
        forall|k: i64| #[trigger] o.bucket_of(k) == b ==> n.bucket_of(k) == b || n.bucket_of(k) == o.buckets@.len(),
        forall|k: i64| 0 <= #[trigger] o.bucket_of(k) < o.buckets@.len(),
        src0.len() == p0.len(),
        src1.len() == p1.len(),
        pos.len() == oe.len(),
        forall|e: int| 0 <= e < p0.len() ==> 0 <= #[trigger] src0[e] < oe.len() && p0[e] == oe[src0[e]],
        forall|e: int| 0 <= e < p1.len() ==> 0 <= #[trigger] src1[e] < oe.len() && p1[e] == oe[src1[e]],
        forall|e: int| 0 <= e < p0.len() ==> n.bucket_of((#[trigger] p0[e]).0) == b,
        forall|e: int| 0 <= e < p1.len() ==> n.bucket_of((#[trigger] p1[e]).0) == o.buckets@.len(),
        forall|tt: int| 0 <= tt < oe.len() ==> (n.bucket_of(oe[tt].0) == b && 0 <= #[trigger] pos[tt] < p0.len() && p0[pos[tt]] == oe[tt])
            || (n.bucket_of(oe[tt].0) == o.buckets@.len() && 0 <= pos[tt] < p1.len() && p1[pos[tt]] == oe[tt]),
        forall|e: int| 0 <= e < oe.len() ==> o.bucket_of(#[trigger] oe[e].0) == b,
    ensures
        n@ == o@,
{
    let nb = o.buckets@.len() as int;
    assert forall|k: i64| #[trigger] n@.dom().contains(k) <==> o@.dom().contains(k) by {
        if o.bucket_of(k) == b {
            let c = n.bucket_of(k);
            lemma_entry_lookup(oe, k);
            if c == b {
                lemma_entry_lookup(p0, k);
            } else {
                lemma_entry_lookup(p1, k);
            }
            if entry_lookup(oe, k) is Some {
                let tt = choose|tt: int| 0 <= tt < oe.len() && oe[tt].0 == k;
                assert(0 <= pos[tt]);
            }
            if entry_lookup(n.buckets@[c].entries@, k) is Some {
                if c == b {
                    let e = choose|e: int| 0 <= e < p0.len() && p0[e].0 == k;
                    assert(p0[e] == oe[src0[e]]);
                } else {
                    let e = choose|e: int| 0 <= e < p1.len() && p1[e].0 == k;
                    assert(p1[e] == oe[src1[e]]);
                }
            }
        } else {
            assert(n.buckets@[n.bucket_of(k)] == o.buckets@[o.bucket_of(k)]);
        }
    }
    assert forall|k: i64| #[trigger] n@.dom().contains(k) implies n@[k] == o@[k] by {
        if o.bucket_of(k) == b {
            let c = n.bucket_of(k);
            lemma_entry_lookup(oe, k);
            if c == b {
                lemma_entry_lookup(p0, k);
                let e = choose|e: int| 0 <= e < p0.len() && p0[e].0 == k;
                assert(p0[e] == oe[src0[e]]);
            } else {
                lemma_entry_lookup(p1, k);
                let e = choose|e: int| 0 <= e < p1.len() && p1[e].0 == k;
                assert(p1[e] == oe[src1[e]]);
            }
        } else {
            assert(n.buckets@[n.bucket_of(k)] == o.buckets@[o.bucket_of(k)]);
        }
    }
    assert(n@ =~= o@);
}

/// Three distinct members make a set of at least three.
proof fn lemma_three_members(s: Set<i64>, a: i64, b: i64, c: i64)
    requires
        s.finite(),
        s.contains(a),
        s.contains(b),
        s.contains(c),
        a != b,
        a != c,
        b != c,
    ensures
        s.len() >= 3,
{
    let t = Set::<i64>::empty().insert(a).insert(b).insert(c);
    assert(t.len() == 3);
    vstd::set_lib::lemma_len_subset(t, s);
}

impl ExtendibleHashTable {
    /// The stored keys are finitely many.
    proof fn lemma_dom_finite(&self)
        requires
            self.wf(),
        ensures
            self@.dom().finite(),
    {
        let bs = self.buckets@.map_values(|b: ExtendibleBucket| b.entries);
        lemma_all_keys(bs);
        assert forall|k: i64| self@.dom().contains(k) implies all_keys(bs).contains(k) by {
            let b = self.bucket_of(k);
            lemma_mask_bound(full_hash(k), self.global_depth);
            lemma_entry_lookup(self.buckets@[b].entries@, k);
            let j = choose|j: int| 0 <= j < self.buckets@[b].entries@.len() && self.buckets@[b].entries@[j].0 == k;
            assert(bs[b]@[j].0 == k);
        }
        vstd::set_lib::lemma_len_subset(self@.dom(), all_keys(bs));
    }

    /// Adds `(key, value)` to bucket `bidx`, the bucket of `key`, which does
    /// not hold it yet.
    fn push_entry(&mut self, bidx: usize, key: i64, value: Vec<u8>)
        requires
            old(self).wf(),
            bidx == old(self).bucket_of(key),
            !old(self)@.contains_key(key),
            old(self).buckets@[bidx as int].entries@.len() < BUCKET_CAPACITY,
        ensures
            final(self).wf(),
            final(self)@ == old(self)@.insert(key, value@),
            final(self).global_depth == old(self).global_depth,
            final(self).buckets@.len() == old(self).buckets@.len(),
    {
        proof {
            lemma_mask_bound(full_hash(key), self.global_depth);
            lemma_entry_lookup(self.buckets@[bidx as int].entries@, key);
        }
        let ghost ob = self.buckets@;
        let ghost v = value@;
        self.buckets[bidx].entries.push((key, value));
        proof {
            let ne = self.buckets@[bidx as int].entries@;
            let oe = ob[bidx as int].entries@;
            assert(ne == oe.push(ne.last()));
            assert(ne.last().0 == key && ne.last().1@ == v);
            assert forall|c: int| 0 <= c < ob.len() && c != bidx implies #[trigger] self.buckets@[c] == ob[c] by {
            }
            assert(keys_unique(ne)) by {
                assert forall|a: int, b: int| 0 <= a < ne.len() && 0 <= b < ne.len() && a != b implies ne[a].0 != ne[b].0 by {
                    if a < oe.len() && b < oe.len() {
                        assert(ne[a] == oe[a] && ne[b] == oe[b]);
                    } else if a < oe.len() {
                        assert(ne[a] == oe[a]);
                    } else {
                        assert(ne[b] == oe[b]);
                    }
                }
            }
            assert forall|b: int| 0 <= b < self.buckets@.len() implies (#[trigger] self.buckets@[b]).local_depth <= self.global_depth by {
                if b != bidx {
                    assert(self.buckets@[b] == ob[b]);
                }
            }
            assert forall|b: int| 0 <= b < self.buckets@.len() implies keys_unique(#[trigger] self.buckets@[b].entries@) by {
                if b != bidx {
                    assert(self.buckets@[b] == ob[b]);
                }
            }
            assert forall|b: int| 0 <= b < self.buckets@.len() implies (#[trigger] self.buckets@[b]).entries@.len() <= BUCKET_CAPACITY by {
                if b != bidx {
                    assert(self.buckets@[b] == ob[b]);
                }
            }
            assert forall|b: int| 0 <= b < self.buckets@.len() implies #[trigger] self.named(b) by {
                assert(old(self).named(b));
            }
            assert forall|b: int, e: int|
                0 <= b < self.buckets@.len() && 0 <= e < self.buckets@[b].entries@.len() implies self.bucket_of(#[trigger] self.buckets@[b].entries@[e].0) == b by {
                if b != bidx {
                    assert(self.buckets@[b] == ob[b]);
                } else if e < oe.len() {
                    assert(ne[e] == oe[e]);
                }
            }
            assert forall|i: int, j: int|
                0 <= i < self.directory@.len() && 0 <= j < self.directory@.len() implies ((#[trigger] self.directory@[i] == #[trigger] self.directory@[j]) <==> ((i as usize) & low_mask(self.depth_at(i)) == (j as usize) & low_mask(self.depth_at(i)))) by {
                assert(self.depth_at(i) == old(self).depth_at(i));
            }
            lemma_entry_lookup(ne, key);
            assert(entry_lookup(ne, key) == Some(v)) by {
                assert(ne[oe.len() as int].0 == key);
            }
            assert forall|k: i64| #[trigger] self@.dom().contains(k) <==> old(self)@.insert(key, v).dom().contains(k) by {
                lemma_mask_bound(full_hash(k), self.global_depth);
                if self.bucket_of(k) == bidx && k != key {
                    lemma_entry_lookup(oe, k);
                    lemma_entry_lookup(ne, k);
                    if entry_lookup(oe, k) is Some {
                        let j = choose|j: int| 0 <= j < oe.len() && oe[j].0 == k;
                        assert(ne[j] == oe[j]);
                    }
                    if entry_lookup(ne, k) is Some {
                        let j = choose|j: int| 0 <= j < ne.len() && ne[j].0 == k;
                        assert(ne[j] == oe[j]);
                    }
                } else if self.bucket_of(k) != bidx {
                    assert(self.buckets@[self.bucket_of(k)] == ob[self.bucket_of(k)]);
                }
            }
            assert forall|k: i64| #[trigger] self@.dom().contains(k) implies self@[k] == old(self)@.insert(key, v)[k] by {
                lemma_mask_bound(full_hash(k), self.global_depth);
                if self.bucket_of(k) == bidx && k != key {
                    lemma_entry_lookup(oe, k);
                    lemma_entry_lookup(ne, k);
                    let j = choose|j: int| 0 <= j < ne.len() && ne[j].0 == k;
                    assert(ne[j] == oe[j]);
                } else if self.bucket_of(k) != bidx {
                    assert(self.buckets@[self.bucket_of(k)] == ob[self.bucket_of(k)]);
                }
            }
            assert(self@ =~= old(self)@.insert(key, v));
        }
    }

    /// Splits the full bucket of `key` (in slot `dir_idx`), doubling the
    /// directory first when the bucket already uses every hash bit of it,
    /// then stores `(key, value)`, splitting again while its bucket is full.
    #[verifier::spinoff_prover]
    fn split_and_insert(&mut self, dir_idx: usize, key: i64, value: Vec<u8>)
        requires
            old(self).wf(),
            dir_idx == slot(key, old(self).global_depth),
            !old(self)@.contains_key(key),
            old(self).buckets@[old(self).directory@[dir_idx as int] as int].entries@.len() >= BUCKET_CAPACITY,
            near_collisions(old(self)@, key).len() < BUCKET_CAPACITY,
        ensures
            final(self).wf(),
            final(self)@ == old(self)@.insert(key, value@),
            final(self).global_depth >= old(self).global_depth,
            final(self).buckets@.len() > old(self).buckets@.len(),
        decreases usize::BITS - old(self).buckets@[old(self).directory@[dir_idx as int] as int].local_depth,
    {
        proof {
            lemma_mask_bound(full_hash(key), self.global_depth);
        }
        let bucket_idx = self.directory[dir_idx];
        let local_depth = self.buckets[bucket_idx].local_depth;
        proof {
            let g = self.global_depth;
            let l = local_depth;
            let es = self.buckets@[bucket_idx as int].entries@;
            assert(l <= g);
            if l + 1 >= usize::BITS {
                assert(l == usize::BITS - 1);
                self.lemma_dom_finite();
                let nc = near_collisions(self@, key);
                assert forall|e: int| 0 <= e < es.len() implies nc.contains(#[trigger] es[e].0) by {
                    let k = es[e].0;
                    assert(self.bucket_of(k) == bucket_idx);
                    lemma_mask_bound(full_hash(k), g);
                    let sk = slot(k, g);
                    let sq = slot(key, g);
                    assert(self.directory@[sk as int] == self.directory@[sq as int]);
                    assert((sq as usize) & low_mask(l) == (sk as usize) & low_mask(l));
                    lemma_mask_mask(full_hash(k), l, g);
                    lemma_mask_mask(full_hash(key), l, g);
                    lemma_entry_lookup(es, k);
                    assert(self@.dom().contains(k));
                    assert(k != key);
                }
                assert(es[0].0 != es[1].0 && es[0].0 != es[2].0 && es[1].0 != es[2].0);
                lemma_three_members(nc, es[0].0, es[1].0, es[2].0);
            }
        }
        if local_depth == self.global_depth {
            self.double_directory();
        }
        proof {
            lemma_mask_bound(full_hash(key), self.global_depth);
            lemma_mask_mask(full_hash(key), old(self).global_depth, self.global_depth);
            assert(self.bucket_of(key) == bucket_idx);
        }
        self.split_bucket(bucket_idx);
        let idx = self.hash(key);
        let bidx = self.directory[idx];
        proof {
            assert(bidx == bucket_idx || bidx == old(self).buckets@.len());
            assert(self.buckets@[bidx as int].local_depth == local_depth + 1);
        }
        if self.buckets[bidx].entries.len() < BUCKET_CAPACITY {
            self.push_entry(bidx, key, value);
        } else {
            self.split_and_insert(idx, key, value);
        }
    }

    /// Replaces the value of `key`, which entry `j` of bucket `bucket_idx`
    /// holds.
    #[verifier::spinoff_prover]
    fn replace_entry(&mut self, bucket_idx: usize, j: usize, key: i64, value: Vec<u8>)
        requires
            old(self).wf(),
            bucket_idx == old(self).bucket_of(key),
            j < old(self).buckets@[bucket_idx as int].entries@.len(),
            old(self).buckets@[bucket_idx as int].entries@[j as int].0 == key,
        ensures
            final(self).wf(),
            final(self)@ == old(self)@.insert(key, value@),
            final(self).global_depth == old(self).global_depth,
            final(self).buckets@.len() == old(self).buckets@.len(),
    {
        proof {
            lemma_mask_bound(full_hash(key), self.global_depth);
        }
        let ghost ob = self.buckets@;
        let ghost v = value@;
        let mut entries: Vec<(i64, Vec<u8>)> = Vec::new();
        std::mem::swap(&mut entries, &mut self.buckets[bucket_idx].entries);
        let ghost oe = entries@;
        entries.set(j, (key, value));
        std::mem::swap(&mut entries, &mut self.buckets[bucket_idx].entries);
        proof {
            let ne = self.buckets@[bucket_idx as int].entries@;
            assert(oe == ob[bucket_idx as int].entries@);
            assert(ne == oe.update(j as int, ne[j as int]));
            assert forall|c: int| 0 <= c < ob.len() && c != bucket_idx implies #[trigger] self.buckets@[c] == ob[c] by {
            }
            assert forall|b: int| 0 <= b < self.buckets@.len() implies (#[trigger] self.buckets@[b]).local_depth <= self.global_depth by {
                if b != bucket_idx {
                    assert(self.buckets@[b] == ob[b]);
                }
            }
            assert forall|b: int| 0 <= b < self.buckets@.len() implies keys_unique(#[trigger] self.buckets@[b].entries@) by {
                if b != bucket_idx {
                    assert(self.buckets@[b] == ob[b]);
                }
            }
            assert forall|b: int| 0 <= b < self.buckets@.len() implies (#[trigger] self.buckets@[b]).entries@.len() <= BUCKET_CAPACITY by {
                if b != bucket_idx {
                    assert(self.buckets@[b] == ob[b]);
                }
            }
            assert forall|b: int| 0 <= b < self.buckets@.len() implies #[trigger] self.named(b) by {
                assert(old(self).named(b));
            }
            assert forall|b: int, e: int|
                0 <= b < self.buckets@.len() && 0 <= e < self.buckets@[b].entries@.len() implies self.bucket_of(#[trigger] self.buckets@[b].entries@[e].0) == b by {
                if b != bucket_idx {
                    assert(self.buckets@[b] == ob[b]);
                } else if e != j {
                    assert(ne[e] == oe[e]);
                }
            }
            assert forall|i: int, jj: int|
                0 <= i < self.directory@.len() && 0 <= jj < self.directory@.len() implies ((#[trigger] self.directory@[i] == #[trigger] self.directory@[jj]) <==> ((i as usize) & low_mask(self.depth_at(i)) == (jj as usize) & low_mask(self.depth_at(i)))) by {
                assert(self.depth_at(i) == old(self).depth_at(i));
            }
            lemma_entry_lookup(ne, key);
            assert forall|k: i64| #[trigger] self@.dom().contains(k) <==> old(self)@.insert(key, v).dom().contains(k) by {
                lemma_mask_bound(full_hash(k), self.global_depth);
                if self.bucket_of(k) == bucket_idx && k != key {
                    lemma_entry_lookup(oe, k);
                    lemma_entry_lookup(ne, k);
                    if entry_lookup(oe, k) is Some {
                        let jj = choose|jj: int| 0 <= jj < oe.len() && oe[jj].0 == k;
                        assert(ne[jj] == oe[jj]);
                    }
                    if entry_lookup(ne, k) is Some {
                        let jj = choose|jj: int| 0 <= jj < ne.len() && ne[jj].0 == k;
                        assert(ne[jj] == oe[jj]);
                    }
                } else if self.bucket_of(k) != bucket_idx {
                    assert(self.buckets@[self.bucket_of(k)] == ob[self.bucket_of(k)]);
                }
            }
            assert forall|k: i64| #[trigger] self@.dom().contains(k) implies self@[k] == old(self)@.insert(key, v)[k] by {
                lemma_mask_bound(full_hash(k), self.global_depth);
                if self.bucket_of(k) == bucket_idx && k != key {
                    lemma_entry_lookup(oe, k);
                    lemma_entry_lookup(ne, k);
                    let jj = choose|jj: int| 0 <= jj < ne.len() && ne[jj].0 == k;
                    assert(ne[jj] == oe[jj]);
                } else if self.bucket_of(k) != bucket_idx {
                    assert(self.buckets@[self.bucket_of(k)] == ob[self.bucket_of(k)]);
                }
            }
            assert(self@ =~= old(self)@.insert(key, v));
        }
    }

    /// Stores `value` under `key`, replacing what was there; a full bucket
    /// is split first.
    pub fn insert(&mut self, key: i64, value: Vec<u8>)
        requires
            old(self).wf(),
            !old(self)@.contains_key(key) ==> near_collisions(old(self)@, key).len() < BUCKET_CAPACITY,
        ensures
            final(self).wf(),
            final(self)@ == old(self)@.insert(key, value@),
            final(self).depth() >= old(self).depth(),
            final(self).bucket_count() >= old(self).bucket_count(),
            old(self)@.contains_key(key) || old(self).load_of(key) < BUCKET_CAPACITY ==> final(self).depth() == old(self).depth()
                && final(self).bucket_count() == old(self).bucket_count(),
            !old(self)@.contains_key(key) && old(self).load_of(key) >= BUCKET_CAPACITY ==> final(self).bucket_count() > old(
                self,
            ).bucket_count(),
    {
        let dir_idx = self.hash(key);
        let bucket_idx = self.directory[dir_idx];
        proof {
            lemma_mask_bound(full_hash(key), self.global_depth);
            lemma_entry_lookup(self.buckets@[bucket_idx as int].entries@, key);
        }
        match self.find_entry(bucket_idx, key) {
            Some(j) => {
                self.replace_entry(bucket_idx, j, key, value);
            },
            None => {
                if self.buckets[bucket_idx].entries.len() < BUCKET_CAPACITY {
                    self.push_entry(bucket_idx, key, value);
                } else {
                    self.split_and_insert(dir_idx, key, value);
                }
            },
        }
    }
}

} // verus!
