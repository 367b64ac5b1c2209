//! Finite sets of attribute names, kept in insertion order.

use vstd::prelude::*;

verus! {

/// The names in `s`, as character sequences.
pub open spec fn names_view(s: Seq<String>) -> Seq<Seq<char>> {
    s.map_values(|x: String| x@)
}

/// No name occurs twice in `s`.
pub open spec fn names_distinct(s: Seq<String>) -> bool {
    forall|i: int, j: int| 0 <= i < s.len() && 0 <= j < s.len() && i != j ==> s[i]@ != s[j]@
}

/// A finite set of attribute names.
#[derive(Debug)]
pub struct AttrSet {
    items: Vec<String>,
}

impl View for AttrSet {
    type V = Set<Seq<char>>;

    closed spec fn view(&self) -> Set<Seq<char>> {
        names_view(self.items@).to_set()
    }
}

/// The set of a run of distinct names is finite and has one member per name.
pub proof fn lemma_names_set(s: Seq<String>)
    requires
        names_distinct(s),
    ensures
        names_view(s).to_set().finite(),
        names_view(s).to_set().len() == s.len(),
        names_view(s).no_duplicates(),
{
    let v = names_view(s);
    assert forall|i: int, j: int| 0 <= i < v.len() && 0 <= j < v.len() && i != j implies v[i] != v[j] by {
        assert(v[i] == s[i]@);
        assert(v[j] == s[j]@);
    }
    v.unique_seq_to_set();
}

/// Every set of names is finite.
pub broadcast proof fn lemma_attrset_finite(a: AttrSet)
    ensures
        #[trigger] a@.finite(),
{
    vstd::seq_lib::seq_to_set_is_finite(names_view(a.items@));
}

impl AttrSet {
    /// No name is stored twice.
    #[verifier::type_invariant]
    pub closed spec fn inv(&self) -> bool {
        names_distinct(self.items@)
    }

    /// The names in insertion order.
    pub closed spec fn elems(&self) -> Seq<Seq<char>> {
        names_view(self.items@)
    }

    /// The set holds exactly its names, each once.
    pub proof fn lemma_elems(&self)
        requires
            self.inv(),
        ensures
            self@ == self.elems().to_set(),
            self.elems().no_duplicates(),
            self@.finite(),
            self@.len() == self.elems().len(),
    {
        lemma_names_set(self.items@);
    }

    /// The empty set.
    pub fn new() -> (r: Self)
        ensures
            r@ == Set::<Seq<char>>::empty(),
            r.elems() == Seq::<Seq<char>>::empty(),
    {
        let r = AttrSet { items: Vec::new() };
        proof {
            assert(names_view(r.items@) =~= Seq::<Seq<char>>::empty());
            assert(names_view(r.items@).to_set() =~= Set::<Seq<char>>::empty());
        }
        r
    }

    /// The number of names.
    pub fn len(&self) -> (r: usize)
        ensures
            r == self@.len(),
            r == self.elems().len(),
    {
        proof {
            use_type_invariant(self);
            self.lemma_elems();
        }
        self.items.len()
    }

    /// Whether the set is empty.
    pub fn is_empty(&self) -> (r: bool)
        ensures
            r == (self@.len() == 0),
            r == (self@ == Set::<Seq<char>>::empty()),
    {
        proof {
            use_type_invariant(self);
            self.lemma_elems();
            if self.elems().len() == 0 {
                assert(self@ =~= Set::<Seq<char>>::empty());
            } else {
                assert(self@.contains(self.elems()[0]));
            }
        }
        self.items.len() == 0
    }

    /// The `i`-th name in insertion order.
    pub fn get(&self, i: usize) -> (r: &String)
        requires
            i < self.elems().len(),
        ensures
            r@ == self.elems()[i as int],
            self@.contains(r@),
    {
        proof {
            use_type_invariant(self);
            self.lemma_elems();
            assert(self.elems()[i as int] == self.items@[i as int]@);
        }
        &self.items[i]
    }

    /// Whether `name` is in the set.
    pub fn contains(&self, name: &str) -> (r: bool)
        ensures
            r == self@.contains(name@),
    {
        let k = name.to_owned();
        self.contains_string(&k)
    }

    /// Whether `name` is in the set.
    pub fn contains_string(&self, name: &String) -> (r: bool)
        ensures
            r == self@.contains(name@),
    {
        match self.position(name) {
            Some(_) => true,
            None => false,
        }
    }

    /// Where `name` stands in insertion order, if it is in the set.
    fn position(&self, name: &String) -> (r: Option<usize>)
        ensures
            match r {
                Some(i) => i < self.elems().len() && self.elems()[i as int] == name@ && self@.contains(name@),
                None => !self@.contains(name@),
            },
    {
        let mut i: usize = 0;
        while i < self.items.len()
            invariant
                i <= self.items@.len(),
                forall|j: int| 0 <= j < i ==> self.items@[j]@ != name@,
            decreases self.items@.len() - i,
        {
            if self.items[i] == *name {
                proof {
                    assert(names_view(self.items@)[i as int] == name@);
                }
                return Some(i);
            }
            i += 1;
        }
        proof {
            if self@.contains(name@) {
                let j = choose|j: int| 0 <= j < names_view(self.items@).len() && names_view(self.items@)[j] == name@;
                assert(self.items@[j]@ == name@);
            }
        }
        None
    }

    /// Adds `name`; returns whether it was new.
    pub fn insert(&mut self, name: String) -> (r: bool)
        ensures
            final(self)@ == old(self)@.insert(name@),
            r == !old(self)@.contains(name@),
            r ==> final(self).elems() == old(self).elems().push(name@),
            !r ==> final(self).elems() == old(self).elems(),
    {
        if self.contains_string(&name) {
            return false;
        }
        proof {
            use_type_invariant(&*self);
        }
        let ghost old_items = self.items@;
        let ghost nv = name@;
        let mut items: Vec<String> = Vec::new();
        std::mem::swap(&mut items, &mut self.items);
        items.push(name);
        proof {
            assert(names_view(items@) =~= names_view(old_items).push(nv));
            assert forall|i: int, j: int| 0 <= i < items@.len() && 0 <= j < items@.len() && i != j implies items@[i]@
                != items@[j]@ by {
                if i == old_items.len() {
                    assert(names_view(old_items).contains(items@[j]@)) by {
                        assert(names_view(old_items)[j] == items@[j]@);
                    }
                } else if j == old_items.len() {
                    assert(names_view(old_items).contains(items@[i]@)) by {
                        assert(names_view(old_items)[i] == items@[i]@);
                    }
                }
            }
            names_view(old_items).lemma_push_to_set_commute(nv);
        }
        self.items = items;
        true
    }

    /// Removes `name`; returns whether it was present.
    pub fn remove(&mut self, name: &str) -> (r: bool)
        ensures
            final(self)@ == old(self)@.remove(name@),
            r == old(self)@.contains(name@),
    {
        proof {
            use_type_invariant(&*self);
        }
        let k = name.to_owned();
        match self.position(&k) {
            None => {
                proof {
                    assert(self@ =~= old(self)@.remove(name@));
                }
                false
            },
            Some(i) => {
                let ghost old_items = self.items@;
                let mut items: Vec<String> = Vec::new();
                std::mem::swap(&mut items, &mut self.items);
                items.remove(i);
                proof {
                    assert(names_view(old_items)[i as int] == name@);
                    assert(old_items[i as int]@ == name@);
                    assert forall|a: int, b: int|
                        0 <= a < items@.len() && 0 <= b < items@.len() && a != b implies items@[a]@
                        != items@[b]@ by {
                        let a1 = if a < i { a } else { a + 1 };
                        let b1 = if b < i { b } else { b + 1 };
                        assert(items@[a] == old_items[a1]);
                        assert(items@[b] == old_items[b1]);
                    }
                    assert forall|x: Seq<char>|
                        names_view(items@).contains(x) <==> (names_view(old_items).contains(x) && x
                            != name@) by {
                        if names_view(items@).contains(x) {
                            let a = choose|a: int|
                                0 <= a < names_view(items@).len() && names_view(items@)[a] == x;
                            let a1 = if a < i { a } else { a + 1 };
                            assert(items@[a] == old_items[a1]);
                            assert(names_view(old_items)[a1] == x);
                            assert(a1 != i);
                        }
                        if names_view(old_items).contains(x) && x != name@ {
                            let a = choose|a: int|
                                0 <= a < names_view(old_items).len() && names_view(old_items)[a] == x;
                            assert(a != i);
                            let a1 = if a < i { a } else { a - 1 };
                            assert(items@[a1] == old_items[a]);
                            assert(names_view(items@)[a1] == x);
                        }
                    }
                    assert(names_view(items@).to_set() =~= names_view(old_items).to_set().remove(name@));
                }
                self.items = items;
                true
            },
        }
    }

    /// A copy of the set, names in the same order.
    pub fn duplicate(&self) -> (r: Self)
        ensures
            r@ == self@,
            r.elems() == self.elems(),
    {
        proof {
            use_type_invariant(self);
        }
        let mut items: Vec<String> = Vec::new();
        let mut i: usize = 0;
        while i < self.items.len()
            invariant
                i <= self.items@.len(),
                names_distinct(self.items@),
                names_view(items@) == names_view(self.items@).subrange(0, i as int),
                items@.len() == i,
            decreases self.items@.len() - i,
        {
            let s = self.items[i].clone();
            items.push(s);
            proof {
                assert(names_view(items@) =~= names_view(self.items@).subrange(0, i as int + 1));
            }
            i += 1;
        }
        proof {
            assert(names_view(self.items@).subrange(0, i as int) =~= names_view(self.items@));
            assert forall|a: int, b: int| 0 <= a < items@.len() && 0 <= b < items@.len() && a != b implies items@[a]@
                != items@[b]@ by {
                assert(names_view(items@)[a] == names_view(self.items@)[a]);
                assert(names_view(items@)[b] == names_view(self.items@)[b]);
            }
        }
        AttrSet { items }
    }

    /// Whether every name of `self` is in `other`.
    pub fn is_subset(&self, other: &AttrSet) -> (r: bool)
        ensures
            r == self@.subset_of(other@),
    {
        proof {
            use_type_invariant(self);
            self.lemma_elems();
        }
        let mut i: usize = 0;
        while i < self.items.len()
            invariant
                i <= self.items@.len(),
                self@ == self.elems().to_set(),
                forall|j: int| 0 <= j < i ==> other@.contains(#[trigger] self.elems()[j]),
            decreases self.items@.len() - i,
        {
            if !other.contains_string(&self.items[i]) {
                proof {
                    assert(self.elems()[i as int] == self.items@[i as int]@);
                    assert(self@.contains(self.elems()[i as int]));
                }
                return false;
            }
            proof {
                assert(self.elems()[i as int] == self.items@[i as int]@);
            }
            i += 1;
        }
        proof {
            assert forall|x: Seq<char>| self@.contains(x) implies other@.contains(x) by {
                let j = choose|j: int| 0 <= j < self.elems().len() && self.elems()[j] == x;
            }
        }
        true
    }

    /// The names of `self` not in `other`, in `self`'s order.
    pub fn difference(&self, other: &AttrSet) -> (r: AttrSet)
        ensures
            r@ == self@.difference(other@),
    {
        let mut r = AttrSet::new();
        let mut i: usize = 0;
        proof {
            use_type_invariant(self);
            self.lemma_elems();
        }
        while i < self.len()
            invariant
                i <= self.elems().len(),
                self@ == self.elems().to_set(),
                r@ == self.elems().subrange(0, i as int).to_set().difference(other@),
            decreases self.elems().len() - i,
        {
            let name = self.get(i);
            if !other.contains_string(name) {
                r.insert(name.clone());
            }
            proof {
                lemma_subrange_to_set_push(self.elems(), i as int);
            }
            i += 1;
        }
        proof {
            assert(self.elems().subrange(0, i as int) =~= self.elems());
        }
        r
    }

    /// Adds every name of `other` (in `other`'s order) that is not already in.
    pub fn extend(&mut self, other: &AttrSet)
        ensures
            final(self)@ == old(self)@.union(other@),
    {
        let mut i: usize = 0;
        proof {
            use_type_invariant(other);
            other.lemma_elems();
        }
        while i < other.len()
            invariant
                i <= other.elems().len(),
                other@ == other.elems().to_set(),
                self@ == old(self)@.union(other.elems().subrange(0, i as int).to_set()),
            decreases other.elems().len() - i,
        {
            let name = other.get(i);
            self.insert(name.clone());
            proof {
                lemma_subrange_to_set_push(other.elems(), i as int);
                assert(self@ =~= old(self)@.union(other.elems().subrange(0, i as int + 1).to_set()));
            }
            i += 1;
        }
        proof {
            assert(other.elems().subrange(0, i as int) =~= other.elems());
        }
    }

    /// The union of two sets: `self`'s names, then `other`'s new ones.
    pub fn union(&self, other: &AttrSet) -> (r: AttrSet)
        ensures
            r@ == self@.union(other@),
    {
        let mut r = self.duplicate();
        r.extend(other);
        r
    }

    /// The set of the distinct names of `names`, in first-occurrence order.
    pub fn from_strs(names: &[&str]) -> (r: AttrSet)
        ensures
            r@ == names@.map_values(|s: &str| s@).to_set(),
    {
        let mut r = AttrSet::new();
        let mut i: usize = 0;
        let ghost nv = names@.map_values(|s: &str| s@);
        while i < names.len()
            invariant
                i <= names@.len(),
                nv == names@.map_values(|s: &str| s@),
                r@ == nv.subrange(0, i as int).to_set(),
            decreases names@.len() - i,
        {
            r.insert(names[i].to_owned());
            proof {
                lemma_subrange_to_set_push(nv, i as int);
            }
            i += 1;
        }
        proof {
            assert(nv.subrange(0, i as int) =~= nv);
        }
        r
    }

    /// The names as a vector, in insertion order.
    pub fn to_vec(&self) -> (r: Vec<String>)
        ensures
            names_view(r@) == self.elems(),
    {
        let mut r: Vec<String> = Vec::new();
        let mut i: usize = 0;
        proof {
            use_type_invariant(self);
            self.lemma_elems();
        }
        while i < self.len()
            invariant
                i <= self.elems().len(),
                names_view(r@) == self.elems().subrange(0, i as int),
            decreases self.elems().len() - i,
        {
            let s = self.get(i).clone();
            let ghost prev = r@;
            r.push(s);
            proof {
                assert(r@ == prev.push(s));
                assert(s@ == self.elems()[i as int]);
                assert(names_view(r@) =~= names_view(prev).push(s@));
                assert(names_view(r@) =~= self.elems().subrange(0, i as int + 1));
            }
            i += 1;
        }
        proof {
            assert(self.elems().subrange(0, i as int) =~= self.elems());
        }
        r
    }

    /// Whether the two sets hold the same names.
    pub fn same_as(&self, other: &AttrSet) -> (r: bool)
        ensures
            r == (self@ == other@),
    {
        let a = self.is_subset(other);
        let b = other.is_subset(self);
        proof {
            if a && b {
                assert(self@ =~= other@);
            }
        }
        a && b
    }
}

/// Filtering a prefix one element longer.
pub proof fn lemma_filter_prefix_step<A>(s: Seq<A>, p: spec_fn(A) -> bool, i: int)
    requires
        0 <= i < s.len(),
    ensures
        s.subrange(0, i + 1).filter(p) == if p(s[i]) {
            s.subrange(0, i).filter(p).push(s[i])
        } else {
            s.subrange(0, i).filter(p)
        },
{
    reveal(Seq::filter);
    assert(s.subrange(0, i + 1).drop_last() =~= s.subrange(0, i));
    assert(s.subrange(0, i + 1).last() == s[i]);
}

/// The set of a run's first `i + 1` members adds its `i`-th.
pub proof fn lemma_subrange_to_set_push<A>(s: Seq<A>, i: int)
    requires
        0 <= i < s.len(),
    ensures
        s.subrange(0, i + 1).to_set() == s.subrange(0, i).to_set().insert(s[i]),
{
    let a = s.subrange(0, i);
    let b = s.subrange(0, i + 1);
    assert(b =~= a.push(s[i]));
    assert forall|x: A| b.contains(x) <==> a.contains(x) || x == s[i] by {
        if b.contains(x) {
            let k = choose|k: int| 0 <= k < b.len() && b[k] == x;
            if k < i {
                assert(a[k] == x);
            }
        }
        if a.contains(x) {
            let k = choose|k: int| 0 <= k < a.len() && a[k] == x;
            assert(b[k] == x);
        }
        if x == s[i] {
            assert(b[i] == x);
        }
    }
    assert(b.to_set() =~= a.to_set().insert(s[i]));
}

impl Clone for AttrSet {
    fn clone(&self) -> (r: Self)
        ensures
            r@ == self@,
    {
        self.duplicate()
    }
}

impl PartialEq for AttrSet {
    fn eq(&self, other: &Self) -> (r: bool) {
        self.same_as(other)
    }
}

impl vstd::std_specs::cmp::PartialEqSpecImpl for AttrSet {
    open spec fn obeys_eq_spec() -> bool {
        true
    }

    open spec fn eq_spec(&self, other: &AttrSet) -> bool {
        self@ == other@
    }
}

impl Eq for AttrSet {
}

} // verus!
