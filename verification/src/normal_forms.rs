//! Functional dependencies, attribute closure, candidate keys, the normal
//! forms 1NF to BCNF, minimal covers and the two classic decompositions.

use vstd::prelude::*;
use crate::attrset::{AttrSet, lemma_attrset_finite, lemma_subrange_to_set_push, names_view};
use crate::text::{str_lt, text_lt, text_sorted, joined, lemma_text_lt_total, lemma_text_lt_trans};

verus! {

broadcast use lemma_attrset_finite;

/// A set of attribute names, as the specifications see it.
pub type Attrs = Set<Seq<char>>;

/// A functional dependency as the specifications see it: (determinant, dependent).
pub type FdView = (Set<Seq<char>>, Set<Seq<char>>);

/// A functional dependency X → Y.
#[derive(Debug)]
pub struct FD {
    pub lhs: AttrSet,
    pub rhs: AttrSet,
}

impl View for FD {
    type V = FdView;

    open spec fn view(&self) -> FdView {
        (self.lhs@, self.rhs@)
    }
}

/// The dependencies of `fds`, as the specifications see them.
pub open spec fn fds_view(fds: Seq<FD>) -> Seq<FdView> {
    fds.map_values(|f: FD| f@)
}

/// `t` is closed under every dependency of `fs`: whenever it holds a
/// determinant, it holds the dependent attributes too.
pub open spec fn closed_under(t: Attrs, fs: Seq<FdView>) -> bool {
    forall|i: int| #![trigger fs[i]] 0 <= i < fs.len() && fs[i].0.subset_of(t) ==> fs[i].1.subset_of(t)
}

/// The closure X⁺ of `x` under `fs`: the attributes that lie in every
/// closed superset of `x`.
pub open spec fn attr_closure(x: Attrs, fs: Seq<FdView>) -> Attrs {
    Set::new(|a: Seq<char>| forall|t: Attrs| x.subset_of(t) && closed_under(t, fs) ==> #[trigger] t.contains(a))
}

/// Every attribute that `fs` mentions.
pub open spec fn fds_attrs(fs: Seq<FdView>) -> Attrs
    decreases fs.len(),
{
    if fs.len() == 0 {
        Set::empty()
    } else {
        fds_attrs(fs.drop_last()).union(fs.last().0).union(fs.last().1)
    }
}

/// The dependency is trivial: its dependent attributes lie in its determinant.
pub open spec fn fd_trivial(f: FdView) -> bool {
    f.1.subset_of(f.0)
}

/// Both sides of the dependency lie in `a`.
pub open spec fn fd_within(f: FdView, a: Attrs) -> bool {
    f.0.subset_of(a) && f.1.subset_of(a)
}

/// The closure is the least closed superset.
pub proof fn lemma_closure_least(x: Attrs, fs: Seq<FdView>)
    ensures
        x.subset_of(attr_closure(x, fs)),
        closed_under(attr_closure(x, fs), fs),
        forall|t: Attrs| x.subset_of(t) && closed_under(t, fs) ==> #[trigger] attr_closure(x, fs).subset_of(t),
{
    let c = attr_closure(x, fs);
    assert forall|i: int| #![trigger fs[i]] 0 <= i < fs.len() && fs[i].0.subset_of(c) implies fs[i].1.subset_of(c) by {
        assert forall|a: Seq<char>| fs[i].1.contains(a) implies c.contains(a) by {
            assert forall|t: Attrs| x.subset_of(t) && closed_under(t, fs) implies #[trigger] t.contains(a) by {
                assert forall|b: Seq<char>| fs[i].0.contains(b) implies t.contains(b) by {
                    assert(c.contains(b));
                }
                assert(fs[i].0.subset_of(t));
            }
        }
    }
}

/// A closed superset of `x` that lies inside the closure is the closure.
pub proof fn lemma_closure_unique(x: Attrs, fs: Seq<FdView>, r: Attrs)
    requires
        x.subset_of(r),
        closed_under(r, fs),
        r.subset_of(attr_closure(x, fs)),
    ensures
        r == attr_closure(x, fs),
{
    lemma_closure_least(x, fs);
    assert(attr_closure(x, fs).subset_of(r));
    assert(r =~= attr_closure(x, fs));
}

/// The closure of `x` contains `x` (reflexivity of the closure).
pub proof fn lemma_closure_extensive(x: Attrs, fs: Seq<FdView>)
    ensures
        x.subset_of(attr_closure(x, fs)),
{
    lemma_closure_least(x, fs);
}

/// A larger set has a larger closure (monotonicity).
pub proof fn lemma_closure_monotone(x: Attrs, y: Attrs, fs: Seq<FdView>)
    requires
        x.subset_of(y),
    ensures
        attr_closure(x, fs).subset_of(attr_closure(y, fs)),
{
    lemma_closure_least(x, fs);
    lemma_closure_least(y, fs);
    assert(x.subset_of(attr_closure(y, fs)));
}

/// Closing twice gives nothing new (idempotence).
pub proof fn lemma_closure_idempotent(x: Attrs, fs: Seq<FdView>)
    ensures
        attr_closure(attr_closure(x, fs), fs) == attr_closure(x, fs),
{
    let c = attr_closure(x, fs);
    lemma_closure_least(x, fs);
    lemma_closure_least(c, fs);
    assert(attr_closure(c, fs).subset_of(c));
    assert(attr_closure(c, fs) =~= c);
}

/// Every dependency of `fs` lies within `fds_attrs(fs)`, which is finite when
/// each side is.
pub proof fn lemma_fds_attrs(fs: Seq<FdView>)
    requires
        forall|i: int| #![trigger fs[i]] 0 <= i < fs.len() ==> fs[i].0.finite() && fs[i].1.finite(),
    ensures
        fds_attrs(fs).finite(),
        forall|i: int| #![trigger fs[i]] 0 <= i < fs.len() ==> fd_within(fs[i], fds_attrs(fs)),
    decreases fs.len(),
{
    if fs.len() > 0 {
        let p = fs.drop_last();
        assert forall|i: int| #![trigger p[i]] 0 <= i < p.len() implies p[i].0.finite() && p[i].1.finite() by {
            assert(p[i] == fs[i]);
        }
        lemma_fds_attrs(p);
        assert forall|i: int| #![trigger fs[i]] 0 <= i < fs.len() implies fd_within(fs[i], fds_attrs(fs)) by {
            if i < fs.len() - 1 {
                assert(p[i] == fs[i]);
            }
        }
    }
}

/// The finite sides of the dependencies in `fds`.
proof fn lemma_fds_finite(fds: Seq<FD>)
    ensures
        forall|i: int| #![trigger fds_view(fds)[i]] 0 <= i < fds.len() ==> fds_view(fds)[i].0.finite()
            && fds_view(fds)[i].1.finite(),
        fds_attrs(fds_view(fds)).finite(),
        forall|i: int| #![trigger fds_view(fds)[i]] 0 <= i < fds.len() ==> fd_within(fds_view(fds)[i], fds_attrs(fds_view(fds))),
{
    let fs = fds_view(fds);
    assert forall|i: int| #![trigger fs[i]] 0 <= i < fs.len() implies fs[i].0.finite() && fs[i].1.finite() by {
        assert(fs[i] == fds[i]@);
        lemma_attrset_finite(fds[i].lhs);
        lemma_attrset_finite(fds[i].rhs);
    }
    lemma_fds_attrs(fs);
}

impl FD {
    /// The dependency `lhs → rhs`, each side the set of the given names.
    pub fn new(lhs: Vec<&str>, rhs: Vec<&str>) -> (r: FD)
        ensures
            r.lhs@ == lhs@.map_values(|s: &str| s@).to_set(),
            r.rhs@ == rhs@.map_values(|s: &str| s@).to_set(),
    {
        FD { lhs: AttrSet::from_strs(lhs.as_slice()), rhs: AttrSet::from_strs(rhs.as_slice()) }
    }

    /// Whether the dependency is trivial (rhs ⊆ lhs).
    pub fn is_trivial(&self) -> (r: bool)
        ensures
            r == fd_trivial(self@),
    {
        self.rhs.is_subset(&self.lhs)
    }

    /// A copy of the dependency.
    pub fn duplicate(&self) -> (r: FD)
        ensures
            r@ == self@,
    {
        FD { lhs: self.lhs.duplicate(), rhs: self.rhs.duplicate() }
    }
}

impl Clone for FD {
    fn clone(&self) -> (r: Self)
        ensures
            r@ == self@,
    {
        self.duplicate()
    }
}

impl PartialEq for FD {
    fn eq(&self, other: &Self) -> (r: bool) {
        self.lhs.same_as(&other.lhs) && self.rhs.same_as(&other.rhs)
    }
}

impl vstd::std_specs::cmp::PartialEqSpecImpl for FD {
    open spec fn obeys_eq_spec() -> bool {
        true
    }

    open spec fn eq_spec(&self, other: &FD) -> bool {
        self@ == other@
    }
}

impl Eq for FD {
}

/// The names of `v`, sorted in the order of strings.
fn sorted_names(v: &Vec<String>) -> (r: Vec<String>)
    requires
        names_view(v@).no_duplicates(),
    ensures
        text_sorted(names_view(r@)),
        names_view(r@).to_set() == names_view(v@).to_set(),
{
    let ghost nv = names_view(v@);
    let mut r: Vec<String> = Vec::new();
    let mut k: usize = 0;
    while k < v.len()
        invariant
            k <= v@.len(),
            nv == names_view(v@),
            nv.no_duplicates(),
            text_sorted(names_view(r@)),
            forall|s: Seq<char>| #[trigger] names_view(r@).contains(s) <==> nv.subrange(0, k as int).contains(s),
        decreases v@.len() - k,
    {
        let x = &v[k];
        let ghost rv = names_view(r@);
        let mut p: usize = 0;
        let mut done = false;
        while !done
            invariant
                p <= r@.len(),
                rv == names_view(r@),
                forall|i: int| 0 <= i < p ==> text_lt(#[trigger] rv[i], x@),
                done ==> p == r@.len() || !text_lt(rv[p as int], x@),
            decreases r@.len() - p + if done { 0int } else { 1int },
        {
            if p < r.len() && str_lt(r[p].as_str(), x.as_str()) {
                proof {
                    assert(rv[p as int] == r@[p as int]@);
                }
                p += 1;
            } else {
                proof {
                    if p < r@.len() {
                        assert(rv[p as int] == r@[p as int]@);
                    }
                }
                done = true;
            }
        }
        let xc = x.clone();
        proof {
            assert(nv[k as int] == x@);
            assert(!rv.contains(x@)) by {
                if rv.contains(x@) {
                    assert(nv.subrange(0, k as int).contains(x@));
                    let j = choose|j: int| 0 <= j < k && nv.subrange(0, k as int)[j] == x@;
                    assert(nv[j] == nv[k as int]);
                }
            }
            if p < rv.len() {
                lemma_text_lt_total(rv[p as int], x@);
                assert(rv.contains(rv[p as int]));
                assert(text_lt(x@, rv[p as int]));
            }
        }
        r.insert(p, xc);
        proof {
            let nr = names_view(r@);
            assert(nr =~= rv.insert(p as int, x@));
            assert forall|i: int, j: int| 0 <= i < j < nr.len() implies text_lt(nr[i], nr[j]) by {
                if j < p {
                    assert(nr[i] == rv[i] && nr[j] == rv[j]);
                } else if j == p {
                    assert(nr[i] == rv[i]);
                } else if i == p {
                    assert(nr[j] == rv[j - 1]);
                    if j - 1 > p {
                        lemma_text_lt_trans(x@, rv[p as int], rv[j - 1]);
                    }
                } else if i < p {
                    assert(nr[i] == rv[i] && nr[j] == rv[j - 1]);
                } else {
                    assert(nr[i] == rv[i - 1] && nr[j] == rv[j - 1]);
                }
            }
            let sub1 = nv.subrange(0, k as int + 1);
            assert(sub1 =~= nv.subrange(0, k as int).push(x@));
            assert forall|s: Seq<char>| #[trigger] nr.contains(s) <==> sub1.contains(s) by {
                if nr.contains(s) {
                    let j = choose|j: int| 0 <= j < nr.len() && nr[j] == s;
                    if j < p {
                        assert(rv[j] == s && rv.contains(s));
                    } else if j > p {
                        assert(rv[j - 1] == s && rv.contains(s));
                    }
                    if s != x@ {
                        assert(nv.subrange(0, k as int).contains(s));
                        let m = choose|m: int| 0 <= m < k && nv.subrange(0, k as int)[m] == s;
                        assert(sub1[m] == s);
                    } else {
                        assert(sub1[k as int] == s);
                    }
                }
                if sub1.contains(s) {
                    let m = choose|m: int| 0 <= m <= k && sub1[m] == s;
                    if m == k {
                        assert(nr[p as int] == s);
                    } else {
                        assert(nv.subrange(0, k as int)[m] == s);
                        assert(nv.subrange(0, k as int).contains(s));
                        assert(rv.contains(s));
                        let j = choose|j: int| 0 <= j < rv.len() && rv[j] == s;
                        if j < p {
                            assert(nr[j] == s);
                        } else {
                            assert(nr[j + 1] == s);
                        }
                    }
                }
            }
        }
        k += 1;
    }
    proof {
        assert(nv.subrange(0, v@.len() as int) =~= nv);
        assert(names_view(r@).to_set() =~= nv.to_set());
    }
    r
}

/// The names of `v` with ", " between each two.
fn joined_names(v: &Vec<String>) -> (r: String)
    ensures
        r@ == joined(names_view(v@), ", "@),
{
    let mut r = String::new();
    let ghost nv = names_view(v@);
    let mut i: usize = 0;
    proof {
        assert(nv.subrange(0, 0) =~= Seq::<Seq<char>>::empty());
    }
    while i < v.len()
        invariant
            i <= v@.len(),
            nv == names_view(v@),
            r@ == joined(nv.subrange(0, i as int), ", "@),
        decreases v@.len() - i,
    {
        let ghost before = r@;
        if i > 0 {
            r.append(", ");
        }
        r.append(v[i].as_str());
        proof {
            let sub = nv.subrange(0, i as int + 1);
            assert(sub.drop_last() =~= nv.subrange(0, i as int));
            assert(sub.last() == v@[i as int]@);
            if i == 0 {
                assert(before =~= Seq::<char>::empty());
                assert(r@ =~= sub[0]);
            } else {
                assert(r@ =~= joined(sub.drop_last(), ", "@) + ", "@ + sub.last());
            }
        }
        i += 1;
    }
    proof {
        assert(nv.subrange(0, v@.len() as int) =~= nv);
    }
    r
}

impl FD {
    /// The dependency as text: each side's names sorted and separated by
    /// ", ", in braces, with an arrow between the sides.
    pub fn text(&self) -> (r: String)
        ensures
            exists|ls: Seq<Seq<char>>, rs: Seq<Seq<char>>|
                #![trigger text_sorted(ls), text_sorted(rs)]
                text_sorted(ls) && ls.to_set() == self.lhs@ && text_sorted(rs) && rs.to_set() == self.rhs@ && r@
                    == "{"@ + joined(ls, ", "@) + "} → {"@ + joined(rs, ", "@) + "}"@,
    {
        proof {
            use_type_invariant(&self.lhs);
            use_type_invariant(&self.rhs);
            self.lhs.lemma_elems();
            self.rhs.lemma_elems();
        }
        let lv = self.lhs.to_vec();
        let rv = self.rhs.to_vec();
        let ls = sorted_names(&lv);
        let rs = sorted_names(&rv);
        let mut r = String::from_str("{");
        r.append(joined_names(&ls).as_str());
        r.append("} → {");
        r.append(joined_names(&rs).as_str());
        r.append("}");
        proof {
            assert(text_sorted(names_view(ls@)) && text_sorted(names_view(rs@)));
        }
        r
    }
}

/// The closure of `attrs` under `fds`: `attrs` together with every attribute
/// that the dependencies force, applied until nothing changes.
pub fn closure(attrs: &AttrSet, fds: &[FD]) -> (r: AttrSet)
    ensures
        r@ == attr_closure(attrs@, fds_view(fds@)),
{
    let ghost fs = fds_view(fds@);
    let ghost u = attrs@.union(fds_attrs(fs));
    proof {
        lemma_fds_finite(fds@);
        lemma_closure_least(attrs@, fs);
    }
    let mut result = attrs.duplicate();
    loop
        invariant
            fs == fds_view(fds@),
            u == attrs@.union(fds_attrs(fs)),
            u.finite(),
            forall|i: int| #![trigger fs[i]] 0 <= i < fs.len() ==> fd_within(fs[i], fds_attrs(fs)),
            x_in_closure(attrs@, fs),
            attrs@.subset_of(result@),
            result@.subset_of(attr_closure(attrs@, fs)),
            result@.subset_of(u),
        ensures
            attrs@.subset_of(result@),
            result@.subset_of(attr_closure(attrs@, fs)),
            closed_under(result@, fs),
        decreases u.len() - result@.len(),
    {
        let ghost start = result@;
        let mut changed = false;
        let mut k: usize = 0;
        proof {
            vstd::set_lib::lemma_len_subset(result@, u);
        }
        while k < fds.len()
            invariant
                fs == fds_view(fds@),
                u.finite(),
                forall|i: int| #![trigger fs[i]] 0 <= i < fs.len() ==> fd_within(fs[i], fds_attrs(fs)),
                u == attrs@.union(fds_attrs(fs)),
                x_in_closure(attrs@, fs),
                k <= fds@.len(),
                attrs@.subset_of(result@),
                result@.subset_of(attr_closure(attrs@, fs)),
                result@.subset_of(u),
                start.subset_of(result@),
                !changed ==> result@ == start,
                changed ==> start.len() < result@.len(),
                !changed ==> forall|j: int| #![trigger fs[j]] 0 <= j < k && fs[j].0.subset_of(result@) ==> fs[j].1.subset_of(result@),
            decreases fds@.len() - k,
        {
            let fd = &fds[k];
            proof {
                assert(fs[k as int] == fd@);
            }
            if fd.lhs.is_subset(&result) {
                let new_attrs = fd.rhs.difference(&result);
                if !new_attrs.is_empty() {
                    let ghost before = result@;
                    result.extend(&new_attrs);
                    proof {
                        lemma_closure_least(attrs@, fs);
                        let a = new_attrs@.choose();
                        assert(new_attrs@.contains(a));
                        assert(!before.contains(a));
                        assert(result@.contains(a));
                        vstd::set_lib::lemma_len_subset(start, result@.remove(a));
                        assert(result@.subset_of(u));
                        assert(result@.subset_of(attr_closure(attrs@, fs)));
                    }
                    changed = true;
                } else {
                    proof {
                        assert forall|a: Seq<char>| fd.rhs@.contains(a) implies result@.contains(a) by {
                            if !result@.contains(a) {
                                assert(new_attrs@.contains(a));
                            }
                        }
                    }
                }
            }
            k += 1;
        }
        if !changed {
            break;
        }
        proof {
            vstd::set_lib::lemma_len_subset(result@, u);
        }
    }
    proof {
        lemma_closure_unique(attrs@, fs, result@);
    }
    result
}

/// `x` lies in its own closure (a loop fact).
spec fn x_in_closure(x: Attrs, fs: Seq<FdView>) -> bool {
    &&& x.subset_of(attr_closure(x, fs))
    &&& closed_under(attr_closure(x, fs), fs)
}

/// The attribute sets in `v`, as the specifications see them.
pub open spec fn sets_view(v: Seq<AttrSet>) -> Seq<Attrs> {
    v.map_values(|a: AttrSet| a@)
}

/// `s` is a superkey of the relation `u` under `fs`: a nonempty subset of `u`
/// whose closure is exactly `u`.
pub open spec fn is_superkey(s: Attrs, u: Attrs, fs: Seq<FdView>) -> bool {
    &&& s.subset_of(u)
    &&& s != Set::<Seq<char>>::empty()
    &&& attr_closure(s, fs) == u
}

/// `s` is a candidate key: a superkey with no other superkey inside it.
pub open spec fn is_candidate_key(s: Attrs, u: Attrs, fs: Seq<FdView>) -> bool {
    &&& is_superkey(s, u, fs)
    &&& forall|t: Attrs| #[trigger] is_superkey(t, u, fs) && t.subset_of(s) ==> t == s
}

/// The prime attributes: those that belong to some candidate key.
pub open spec fn prime_attrs(u: Attrs, fs: Seq<FdView>) -> Attrs {
    Set::new(|a: Seq<char>| exists|k: Attrs| #[trigger] is_candidate_key(k, u, fs) && k.contains(a))
}

/// Every subset of `all`, each once; the empty set comes first, and the rest
/// follow in the order of binary counting over `all`'s names.
fn all_subsets(all: &AttrSet) -> (r: Vec<AttrSet>)
    ensures
        r@.len() >= 1,
        r@[0]@ == Set::<Seq<char>>::empty(),
        forall|s: Attrs| sets_view(r@).contains(s) <==> s.subset_of(all@),
        sets_view(r@).no_duplicates(),
{
    proof {
        use_type_invariant(all);
        all.lemma_elems();
    }
    let mut subsets: Vec<AttrSet> = Vec::new();
    subsets.push(AttrSet::new());
    let mut i: usize = 0;
    proof {
        assert(all.elems().subrange(0, 0).to_set() =~= Set::<Seq<char>>::empty());
        assert forall|s: Attrs| sets_view(subsets@).contains(s) <==> s.subset_of(
            all.elems().subrange(0, 0).to_set(),
        ) by {
            if s.subset_of(all.elems().subrange(0, 0).to_set()) {
                assert(s =~= Set::<Seq<char>>::empty());
                assert(sets_view(subsets@)[0] == s);
            }
        }
    }
    while i < all.len()
        invariant
            all@ == all.elems().to_set(),
            all.elems().no_duplicates(),
            i <= all.elems().len(),
            subsets@.len() >= 1,
            subsets@[0]@ == Set::<Seq<char>>::empty(),
            forall|s: Attrs| sets_view(subsets@).contains(s) <==> s.subset_of(
                all.elems().subrange(0, i as int).to_set(),
            ),
            sets_view(subsets@).no_duplicates(),
        decreases all.elems().len() - i,
    {
        let name = all.get(i);
        let ghost nv = name@;
        let ghost p = all.elems().subrange(0, i as int).to_set();
        let ghost old_subs = sets_view(subsets@);
        let n0 = subsets.len();
        let mut j: usize = 0;
        while j < n0
            invariant
                n0 == old_subs.len(),
                j <= n0,
                subsets@.len() == n0 + j,
                nv == name@,
                forall|t: Attrs| old_subs.contains(t) <==> t.subset_of(p),
                old_subs.no_duplicates(),
                forall|k: int| 0 <= k < n0 ==> #[trigger] subsets@[k]@ == old_subs[k],
                forall|k: int| 0 <= k < j ==> #[trigger] subsets@[n0 + k]@ == old_subs[k].insert(nv),
            decreases n0 - j,
        {
            let mut s = subsets[j].duplicate();
            s.insert(name.clone());
            subsets.push(s);
            j += 1;
        }
        proof {
            lemma_subrange_to_set_push(all.elems(), i as int);
            let p2 = all.elems().subrange(0, i as int + 1).to_set();
            assert(nv == all.elems()[i as int]);
            assert(!p.contains(nv)) by {
                if p.contains(nv) {
                    let k = choose|k: int| 0 <= k < i && all.elems().subrange(0, i as int)[k] == nv;
                    assert(all.elems()[k] == nv);
                }
            }
            let sv = sets_view(subsets@);
            assert forall|k: int| 0 <= k < n0 implies sv[k] == old_subs[k] && old_subs[k].subset_of(p) && !old_subs[k].contains(nv) by {
                assert(subsets@[k]@ == old_subs[k]);
                assert(old_subs.contains(old_subs[k]));
            }
            assert forall|k: int| n0 <= k < 2 * n0 implies sv[k] == old_subs[k - n0].insert(nv) by {
                assert(subsets@[n0 + (k - n0)]@ == old_subs[k - n0].insert(nv));
            }
            assert forall|s: Attrs| sv.contains(s) <==> s.subset_of(p2) by {
                if sv.contains(s) {
                    let k = choose|k: int| 0 <= k < sv.len() && sv[k] == s;
                    if k < n0 {
                        assert(old_subs[k].subset_of(p));
                    } else {
                        assert(old_subs.contains(old_subs[k - n0]));
                    }
                }
                if s.subset_of(p2) {
                    if !s.contains(nv) {
                        assert(s.subset_of(p));
                        let k = choose|k: int| 0 <= k < old_subs.len() && old_subs[k] == s;
                        assert(sv[k] == s);
                    } else {
                        let s0 = s.remove(nv);
                        assert(s0.subset_of(p));
                        assert(old_subs.contains(s0));
                        let k = choose|k: int| 0 <= k < old_subs.len() && old_subs[k] == s0;
                        assert(sv[n0 + k] == s0.insert(nv));
                        assert(s0.insert(nv) =~= s);
                    }
                }
            }
            assert forall|a: int, b: int| 0 <= a < sv.len() && 0 <= b < sv.len() && a != b implies sv[a] != sv[b] by {
                if a < n0 && b < n0 {
                } else if a >= n0 && b >= n0 {
                    if sv[a] == sv[b] {
                        assert(old_subs[a - n0] =~= sv[a].remove(nv));
                        assert(old_subs[b - n0] =~= sv[b].remove(nv));
                    }
                } else if a < n0 {
                    assert(sv[b].contains(nv));
                } else {
                    assert(sv[a].contains(nv));
                }
            }
        }
        i += 1;
    }
    proof {
        assert(all.elems().subrange(0, i as int) =~= all.elems());
    }
    subsets
}

/// Every nonempty subset of `all_attrs` with its closure under `fds`.
fn attribute_closures(fds: &[FD], all_attrs: &AttrSet) -> (r: Vec<(AttrSet, AttrSet)>)
    ensures
        forall|i: int| 0 <= i < r@.len() ==> (#[trigger] r@[i]).1@ == attr_closure(r@[i].0@, fds_view(fds@)),
        forall|i: int| 0 <= i < r@.len() ==> (#[trigger] r@[i]).0@.subset_of(all_attrs@) && r@[i].0@ != Set::<Seq<char>>::empty(),
        forall|s: Attrs| s.subset_of(all_attrs@) && s != Set::<Seq<char>>::empty() ==> exists|i: int| 0 <= i < r@.len() && (#[trigger] r@[i]).0@ == s,
        forall|i: int, j: int| 0 <= i < r@.len() && 0 <= j < r@.len() && i != j ==> (#[trigger] r@[i]).0@ != (#[trigger] r@[j]).0@,
{
    let subsets = all_subsets(all_attrs);
    let mut result: Vec<(AttrSet, AttrSet)> = Vec::new();
    let mut m: usize = 1;
    while m < subsets.len()
        invariant
            1 <= m <= subsets@.len(),
            result@.len() == m - 1,
            subsets@[0]@ == Set::<Seq<char>>::empty(),
            sets_view(subsets@).no_duplicates(),
            forall|i: int| 0 <= i < result@.len() ==> (#[trigger] result@[i]).0@ == subsets@[i + 1]@,
            forall|i: int| 0 <= i < result@.len() ==> (#[trigger] result@[i]).1@ == attr_closure(result@[i].0@, fds_view(fds@)),
        decreases subsets@.len() - m,
    {
        let subset = subsets[m].duplicate();
        let cl = closure(&subset, fds);
        result.push((subset, cl));
        m += 1;
    }
    proof {
        let sv = sets_view(subsets@);
        assert forall|i: int, j: int| 0 <= i < result@.len() && 0 <= j < result@.len() && i != j implies (#[trigger] result@[i]).0@ != (#[trigger] result@[j]).0@ by {
            assert(sv[i + 1] == result@[i].0@);
            assert(sv[j + 1] == result@[j].0@);
        }
        assert forall|i: int| 0 <= i < result@.len() implies (#[trigger] result@[i]).0@.subset_of(all_attrs@) && result@[i].0@ != Set::<Seq<char>>::empty() by {
            assert(sv[i + 1] == result@[i].0@);
            assert(sv.contains(sv[i + 1]));
            assert(sv[0] != sv[i + 1]);
        }
        assert forall|s: Attrs| s.subset_of(all_attrs@) && s != Set::<Seq<char>>::empty() implies exists|i: int| 0 <= i < result@.len() && (#[trigger] result@[i]).0@ == s by {
            assert(sv.contains(s));
            let k = choose|k: int| 0 <= k < sv.len() && sv[k] == s;
            assert(k != 0);
            assert(result@[k - 1].0@ == s);
        }
    }
    result
}

/// Every superkey of the relation `all_attrs` under `fds`, each once.
fn superkeys(fds: &[FD], all_attrs: &AttrSet) -> (r: Vec<AttrSet>)
    ensures
        forall|s: Attrs| sets_view(r@).contains(s) <==> is_superkey(s, all_attrs@, fds_view(fds@)),
        sets_view(r@).no_duplicates(),
{
    let closures = attribute_closures(fds, all_attrs);
    let mut result: Vec<AttrSet> = Vec::new();
    let mut m: usize = 0;
    while m < closures.len()
        invariant
            m <= closures@.len(),
            forall|i: int| 0 <= i < closures@.len() ==> (#[trigger] closures@[i]).1@ == attr_closure(closures@[i].0@, fds_view(fds@)),
            forall|i: int| 0 <= i < closures@.len() ==> (#[trigger] closures@[i]).0@.subset_of(all_attrs@) && closures@[i].0@ != Set::<Seq<char>>::empty(),
            forall|s: Attrs| s.subset_of(all_attrs@) && s != Set::<Seq<char>>::empty() ==> exists|i: int| 0 <= i < closures@.len() && (#[trigger] closures@[i]).0@ == s,
            forall|i: int, j: int| 0 <= i < closures@.len() && 0 <= j < closures@.len() && i != j ==> (#[trigger] closures@[i]).0@ != (#[trigger] closures@[j]).0@,
            forall|s: Attrs| sets_view(result@).contains(s) <==> (is_superkey(s, all_attrs@, fds_view(fds@))
                && exists|i: int| 0 <= i < m && (#[trigger] closures@[i]).0@ == s),
            sets_view(result@).no_duplicates(),
        decreases closures@.len() - m,
    {
        let ghost sub = closures@[m as int].0@;
        let ghost before = sets_view(result@);
        let pushed = closures[m].1.same_as(all_attrs);
        if pushed {
            let k = closures[m].0.duplicate();
            result.push(k);
            proof {
                assert(sets_view(result@) =~= before.push(sub));
                assert(!before.contains(sub)) by {
                    if before.contains(sub) {
                        let i = choose|i: int| 0 <= i < m && (#[trigger] closures@[i]).0@ == sub;
                        assert(closures@[i].0@ != closures@[m as int].0@);
                    }
                }
            }
        }
        proof {
            assert(is_superkey(sub, all_attrs@, fds_view(fds@)) == pushed);
            assert forall|s: Attrs| sets_view(result@).contains(s) <==> (is_superkey(s, all_attrs@, fds_view(fds@))
                && exists|i: int| 0 <= i < m + 1 && (#[trigger] closures@[i]).0@ == s) by {
                if s == sub {
                    if pushed {
                        assert(sets_view(result@)[before.len() as int] == s);
                    } else if sets_view(result@).contains(s) {
                        assert(before.contains(s));
                    }
                } else {
                    if exists|i: int| 0 <= i < m + 1 && (#[trigger] closures@[i]).0@ == s {
                        let i = choose|i: int| 0 <= i < m + 1 && (#[trigger] closures@[i]).0@ == s;
                        assert(i < m);
                    }
                    if pushed && sets_view(result@).contains(s) {
                        let k = choose|k: int| 0 <= k < sets_view(result@).len() && sets_view(result@)[k] == s;
                        assert(k < before.len());
                        assert(before[k] == s);
                    }
                    if pushed && before.contains(s) {
                        let k = choose|k: int| 0 <= k < before.len() && before[k] == s;
                        assert(sets_view(result@)[k] == s);
                    }
                }
            }
        }
        m += 1;
    }
    proof {
        assert forall|s: Attrs| is_superkey(s, all_attrs@, fds_view(fds@)) implies exists|i: int| 0 <= i < m && (#[trigger] closures@[i]).0@ == s by {
        }
    }
    result
}

/// Whether one of `sets` holds exactly the names of `s`.
fn contains_set(sets: &Vec<AttrSet>, s: &AttrSet) -> (r: bool)
    ensures
        r == sets_view(sets@).contains(s@),
{
    let mut i: usize = 0;
    while i < sets.len()
        invariant
            i <= sets@.len(),
            forall|j: int| 0 <= j < i ==> sets@[j]@ != s@,
        decreases sets@.len() - i,
    {
        if sets[i].same_as(s) {
            proof {
                assert(sets_view(sets@)[i as int] == s@);
            }
            return true;
        }
        i += 1;
    }
    proof {
        if sets_view(sets@).contains(s@) {
            let j = choose|j: int| 0 <= j < sets_view(sets@).len() && sets_view(sets@)[j] == s@;
            assert(sets@[j]@ == s@);
        }
    }
    false
}

/// The names that occur in any of `sets`.
fn union_all(sets: &Vec<AttrSet>) -> (r: AttrSet)
    ensures
        forall|a: Seq<char>| r@.contains(a) <==> exists|i: int| 0 <= i < sets@.len() && (#[trigger] sets@[i])@.contains(a),
{
    let mut r = AttrSet::new();
    let mut i: usize = 0;
    while i < sets.len()
        invariant
            i <= sets@.len(),
            forall|a: Seq<char>| r@.contains(a) <==> exists|j: int| 0 <= j < i && (#[trigger] sets@[j])@.contains(a),
        decreases sets@.len() - i,
    {
        let ghost before = r@;
        r.extend(&sets[i]);
        proof {
            assert forall|a: Seq<char>| r@.contains(a) <==> exists|j: int| 0 <= j < i + 1 && (#[trigger] sets@[j])@.contains(a) by {
                if r@.contains(a) && !before.contains(a) {
                    assert(sets@[i as int]@.contains(a));
                }
                if exists|j: int| 0 <= j < i + 1 && (#[trigger] sets@[j])@.contains(a) {
                    let j = choose|j: int| 0 <= j < i + 1 && (#[trigger] sets@[j])@.contains(a);
                    if j < i {
                        assert(before.contains(a));
                    }
                }
            }
        }
        i += 1;
    }
    r
}

/// One step of a filter over the distinct sets `src`: `after` adds `src[i]`
/// exactly when it passes `p`.
proof fn lemma_filter_step(before: Seq<Attrs>, after: Seq<Attrs>, src: Seq<Attrs>, i: int, pushed: bool, p: spec_fn(Attrs) -> bool)
    requires
        0 <= i < src.len(),
        src.no_duplicates(),
        forall|s: Attrs| before.contains(s) <==> (p(s) && exists|j: int| 0 <= j < i && src[j] == s),
        before.no_duplicates(),
        pushed == p(src[i]),
        pushed ==> after == before.push(src[i]),
        !pushed ==> after == before,
    ensures
        forall|s: Attrs| after.contains(s) <==> (p(s) && exists|j: int| 0 <= j < i + 1 && src[j] == s),
        after.no_duplicates(),
{
    let cur = src[i];
    if pushed {
        assert(!before.contains(cur)) by {
            if before.contains(cur) {
                let jj = choose|jj: int| 0 <= jj < i && src[jj] == cur;
            }
        }
    }
    assert forall|s: Attrs| after.contains(s) <==> (p(s) && exists|j: int| 0 <= j < i + 1 && src[j] == s) by {
        if s == cur {
            if pushed {
                assert(after[before.len() as int] == s);
            } else if after.contains(s) {
                assert(before.contains(s));
            }
            assert(src[i] == s);
        } else {
            if exists|jj: int| 0 <= jj < i + 1 && src[jj] == s {
                let jj = choose|jj: int| 0 <= jj < i + 1 && src[jj] == s;
                assert(jj < i);
            }
            if pushed && after.contains(s) {
                let k = choose|k: int| 0 <= k < after.len() && after[k] == s;
                assert(k < before.len());
                assert(before[k] == s);
            }
            if pushed && before.contains(s) {
                let k = choose|k: int| 0 <= k < before.len() && before[k] == s;
                assert(after[k] == s);
            }
        }
    }
}

/// All candidate keys of the relation `all_attrs` under `fds`, each once.
#[verifier::spinoff_prover]
#[verifier::rlimit(40)]
pub fn candidate_keys(fds: &[FD], all_attrs: &AttrSet) -> (r: Vec<AttrSet>)
    requires
        all_attrs@.len() < 32,
    ensures
        forall|s: Attrs| sets_view(r@).contains(s) <==> is_candidate_key(s, all_attrs@, fds_view(fds@)),
        sets_view(r@).no_duplicates(),
{
    let ghost fs = fds_view(fds@);
    let ghost u = all_attrs@;
    let sks = superkeys(fds, all_attrs);
    let ghost skv = sets_view(sks@);
    let mut keys: Vec<AttrSet> = Vec::new();
    let mut i: usize = 0;
    while i < sks.len()
        invariant
            i <= sks@.len(),
            fs == fds_view(fds@),
            u == all_attrs@,
            skv == sets_view(sks@),
            forall|s: Attrs| skv.contains(s) <==> is_superkey(s, u, fs),
            skv.no_duplicates(),
            forall|s: Attrs| sets_view(keys@).contains(s) <==> (is_candidate_key(s, u, fs) && exists|j: int| 0 <= j < i && skv[j] == s),
            sets_view(keys@).no_duplicates(),
        decreases sks@.len() - i,
    {
        let mut minimal = true;
        let mut j: usize = 0;
        while j < sks.len()
            invariant
                i < sks@.len(),
                j <= sks@.len(),
                skv == sets_view(sks@),
                minimal <==> forall|k: int| 0 <= k < j && k != i ==> !(#[trigger] skv[k]).subset_of(skv[i as int]),
            decreases sks@.len() - j,
        {
            proof {
                assert(skv[j as int] == sks@[j as int]@);
                assert(skv[i as int] == sks@[i as int]@);
            }
            if j != i && sks[j].is_subset(&sks[i]) {
                minimal = false;
            }
            j += 1;
        }
        let ghost cur = skv[i as int];
        proof {
            assert(skv.contains(cur));
            if minimal {
                assert forall|t: Attrs| #[trigger] is_superkey(t, u, fs) && t.subset_of(cur) implies t == cur by {
                    assert(skv.contains(t));
                    let k = choose|k: int| 0 <= k < skv.len() && skv[k] == t;
                    if k != i {
                        assert(!skv[k].subset_of(cur));
                    }
                }
            } else {
                let k = choose|k: int| 0 <= k < sks@.len() && k != i && (#[trigger] skv[k]).subset_of(skv[i as int]);
                assert(skv[k] != cur);
                assert(skv.contains(skv[k]));
                assert(is_superkey(skv[k], u, fs));
            }
            assert(minimal == is_candidate_key(cur, u, fs));
        }
        let ghost before = sets_view(keys@);
        if minimal {
            let k = sks[i].duplicate();
            keys.push(k);
            proof {
                assert(sets_view(keys@) =~= before.push(cur));
            }
        }
        proof {
            lemma_filter_step(before, sets_view(keys@), skv, i as int, minimal, |s: Attrs| is_candidate_key(s, u, fs));
        }
        i += 1;
    }
    proof {
        assert forall|s: Attrs| is_candidate_key(s, u, fs) implies exists|jj: int| 0 <= jj < i && skv[jj] == s by {
            assert(skv.contains(s));
        }
    }
    keys
}

/// The prime attributes, computed from the candidate keys.
fn prime_set(keys: &Vec<AttrSet>, Ghost(u): Ghost<Attrs>, Ghost(fs): Ghost<Seq<FdView>>) -> (r: AttrSet)
    requires
        forall|s: Attrs| sets_view(keys@).contains(s) <==> is_candidate_key(s, u, fs),
    ensures
        r@ == prime_attrs(u, fs),
{
    let r = union_all(keys);
    proof {
        assert forall|a: Seq<char>| r@.contains(a) <==> prime_attrs(u, fs).contains(a) by {
            if r@.contains(a) {
                let i = choose|i: int| 0 <= i < keys@.len() && (#[trigger] keys@[i])@.contains(a);
                assert(sets_view(keys@)[i] == keys@[i]@);
                assert(sets_view(keys@).contains(keys@[i]@));
                assert(is_candidate_key(keys@[i]@, u, fs));
            }
            if prime_attrs(u, fs).contains(a) {
                let k = choose|k: Attrs| #[trigger] is_candidate_key(k, u, fs) && k.contains(a);
                assert(sets_view(keys@).contains(k));
                let i = choose|i: int| 0 <= i < sets_view(keys@).len() && sets_view(keys@)[i] == k;
                assert(keys@[i]@.contains(a));
            }
        }
        assert(r@ =~= prime_attrs(u, fs));
    }
    r
}

/// A relation schema is in 1NF when it has at least one attribute and no
/// attribute has an empty name.
pub open spec fn is_1nf_spec(schema: Seq<Seq<char>>) -> bool {
    schema.len() > 0 && forall|i: int| 0 <= i < schema.len() ==> (#[trigger] schema[i]).len() > 0
}

/// 1NF for a set of attribute names.
pub open spec fn attrs_1nf(u: Attrs) -> bool {
    u != Set::<Seq<char>>::empty() && forall|a: Seq<char>| #[trigger] u.contains(a) ==> a.len() > 0
}

/// 2NF: 1NF, and no non-trivial dependency whose determinant is a proper
/// part of a candidate key has a non-prime dependent attribute.
pub open spec fn is_2nf_spec(fs: Seq<FdView>, u: Attrs) -> bool {
    &&& attrs_1nf(u)
    &&& forall|i: int, k: Attrs|
        0 <= i < fs.len() && !fd_trivial(#[trigger] fs[i]) && #[trigger] is_candidate_key(k, u, fs)
            && fs[i].0.subset_of(k) && fs[i].0 != k ==> fs[i].1.subset_of(prime_attrs(u, fs))
}

/// 3NF: every non-trivial dependency has a superkey as determinant or only
/// prime attributes as dependents.
pub open spec fn is_3nf_spec(fs: Seq<FdView>, u: Attrs) -> bool {
    forall|i: int|
        0 <= i < fs.len() && !fd_trivial(#[trigger] fs[i]) ==> is_superkey(fs[i].0, u, fs) || fs[i].1.subset_of(
            prime_attrs(u, fs),
        )
}

/// A determinant that lies strictly inside a candidate key is no superkey.
proof fn lemma_inside_key_not_superkey(x: Attrs, k: Attrs, u: Attrs, fs: Seq<FdView>)
    requires
        is_candidate_key(k, u, fs),
        x.subset_of(k),
        x != k,
    ensures
        !is_superkey(x, u, fs),
{
}

/// 2NF holds of a relation with atomic attributes whenever every dependent
/// attribute is prime: in particular a relation all of whose attributes are
/// prime is in 2NF.
pub proof fn lemma_prime_dependents_2nf(fs: Seq<FdView>, u: Attrs)
    requires
        attrs_1nf(u),
        forall|i: int| 0 <= i < fs.len() ==> (#[trigger] fs[i]).1.subset_of(prime_attrs(u, fs)),
    ensures
        is_2nf_spec(fs, u),
{
}

/// A relation in 3NF with atomic attributes is in 2NF: a dependency whose
/// determinant lies strictly inside a candidate key has no superkey as
/// determinant, so 3NF makes its dependents prime.
pub proof fn lemma_3nf_implies_2nf(fs: Seq<FdView>, u: Attrs)
    requires
        attrs_1nf(u),
        is_3nf_spec(fs, u),
    ensures
        is_2nf_spec(fs, u),
{
    assert forall|i: int, k: Attrs|
        0 <= i < fs.len() && !fd_trivial(#[trigger] fs[i]) && #[trigger] is_candidate_key(k, u, fs)
            && fs[i].0.subset_of(k) && fs[i].0 != k implies fs[i].1.subset_of(prime_attrs(u, fs)) by {
        lemma_inside_key_not_superkey(fs[i].0, k, u, fs);
    }
}

/// A non-trivial dependency whose determinant is no superkey and which has
/// a dependent attribute in no candidate key breaks 3NF, whatever its
/// determinant is made of.
pub proof fn lemma_3nf_violation(fs: Seq<FdView>, u: Attrs, i: int, a: Seq<char>)
    requires
        0 <= i < fs.len(),
        !fd_trivial(fs[i]),
        !is_superkey(fs[i].0, u, fs),
        fs[i].1.contains(a),
        !prime_attrs(u, fs).contains(a),
    ensures
        !is_3nf_spec(fs, u),
{
    assert(!fs[i].1.subset_of(prime_attrs(u, fs)));
}

/// A non-trivial dependency whose determinant lies strictly inside a
/// candidate key and which has a dependent attribute in no candidate key
/// breaks 2NF; 2NF holds exactly when no dependency does so (and the
/// attributes are atomic).
pub proof fn lemma_2nf_violation(fs: Seq<FdView>, u: Attrs, i: int, k: Attrs, a: Seq<char>)
    requires
        0 <= i < fs.len(),
        is_candidate_key(k, u, fs),
        fs[i].0.subset_of(k),
        fs[i].0 != k,
        fs[i].1.contains(a),
        !prime_attrs(u, fs).contains(a),
    ensures
        !is_2nf_spec(fs, u),
{
    assert(!fs[i].1.subset_of(prime_attrs(u, fs)));
    assert(!fd_trivial(fs[i])) by {
        if fd_trivial(fs[i]) {
            assert(k.contains(a));
            assert(prime_attrs(u, fs).contains(a));
        }
    }
}

/// 3NF holds whenever every dependent attribute is prime, whatever the
/// determinants.
pub proof fn lemma_prime_dependents_3nf(fs: Seq<FdView>, u: Attrs)
    requires
        forall|i: int| 0 <= i < fs.len() ==> (#[trigger] fs[i]).1.subset_of(prime_attrs(u, fs)),
    ensures
        is_3nf_spec(fs, u),
{
}

/// 3NF holds whenever every non-trivial dependency has a superkey as its
/// determinant.
pub proof fn lemma_superkey_determinants_3nf(fs: Seq<FdView>, u: Attrs)
    requires
        forall|i: int| 0 <= i < fs.len() && !fd_trivial(#[trigger] fs[i]) ==> is_superkey(fs[i].0, u, fs),
    ensures
        is_3nf_spec(fs, u),
        is_bcnf_spec(fs, u),
{
}

/// 2NF holds of a relation with atomic attributes when no non-trivial
/// dependency has a determinant strictly inside a candidate key; and 2NF
/// needs atomic attributes.
pub proof fn lemma_no_partial_2nf(fs: Seq<FdView>, u: Attrs)
    ensures
        is_2nf_spec(fs, u) ==> attrs_1nf(u),
        attrs_1nf(u) && (forall|i: int, k: Attrs|
            0 <= i < fs.len() && !fd_trivial(#[trigger] fs[i]) && #[trigger] is_candidate_key(k, u, fs)
                ==> !(fs[i].0.subset_of(k) && fs[i].0 != k)) ==> is_2nf_spec(fs, u),
{
}

/// A non-trivial dependency whose determinant is no superkey breaks BCNF.
pub proof fn lemma_bcnf_violation_law(fs: Seq<FdView>, u: Attrs, i: int)
    requires
        0 <= i < fs.len(),
        !fd_trivial(fs[i]),
        !is_superkey(fs[i].0, u, fs),
    ensures
        !is_bcnf_spec(fs, u),
{
    assert(bcnf_violation(fs[i], u, fs));
}

/// A dependency that breaks BCNF in the relation `u`.
pub open spec fn bcnf_violation(f: FdView, u: Attrs, fs: Seq<FdView>) -> bool {
    !fd_trivial(f) && !is_superkey(f.0, u, fs)
}

/// BCNF: every non-trivial dependency has a superkey as determinant.
pub open spec fn is_bcnf_spec(fs: Seq<FdView>, u: Attrs) -> bool {
    forall|i: int| 0 <= i < fs.len() ==> !bcnf_violation(#[trigger] fs[i], u, fs)
}

/// A relation in BCNF is in 3NF.
pub proof fn lemma_bcnf_implies_3nf(fs: Seq<FdView>, u: Attrs)
    requires
        is_bcnf_spec(fs, u),
    ensures
        is_3nf_spec(fs, u),
{
    assert forall|i: int| 0 <= i < fs.len() && !fd_trivial(#[trigger] fs[i]) implies is_superkey(fs[i].0, u, fs) || fs[i].1.subset_of(
        prime_attrs(u, fs),
    ) by {
        assert(!bcnf_violation(fs[i], u, fs));
    }
}

/// Whether the schema is in 1NF.
pub fn is_1nf(schema: &[String]) -> (r: bool)
    ensures
        r == is_1nf_spec(schema@.map_values(|s: String| s@)),
{
    let ghost sv = schema@.map_values(|s: String| s@);
    if schema.len() == 0 {
        return false;
    }
    let mut i: usize = 0;
    while i < schema.len()
        invariant
            i <= schema@.len(),
            sv == schema@.map_values(|s: String| s@),
            forall|j: int| 0 <= j < i ==> (#[trigger] sv[j]).len() > 0,
        decreases schema@.len() - i,
    {
        if schema[i].as_str().is_empty() {
            proof {
                assert(sv[i as int] == schema@[i as int]@);
            }
            return false;
        }
        i += 1;
    }
    true
}

/// Whether the relation `all_attrs` is in 2NF under `fds`.
pub fn is_2nf(fds: &[FD], all_attrs: &AttrSet) -> (r: bool)
    requires
        all_attrs@.len() < 32,
    ensures
        r == is_2nf_spec(fds_view(fds@), all_attrs@),
{
    let ghost fs = fds_view(fds@);
    let ghost u = all_attrs@;
    let names = all_attrs.to_vec();
    let ok1 = is_1nf(names.as_slice());
    proof {
        use_type_invariant(all_attrs);
        all_attrs.lemma_elems();
        let sv = names@.map_values(|s: String| s@);
        assert(sv =~= all_attrs.elems());
        if ok1 {
            assert(u.contains(sv[0]));
            assert forall|a: Seq<char>| #[trigger] u.contains(a) implies a.len() > 0 by {
                let j = choose|j: int| 0 <= j < sv.len() && sv[j] == a;
            }
        } else if attrs_1nf(u) {
            assert(exists|a: Seq<char>| u.contains(a)) by {
                if !(exists|a: Seq<char>| u.contains(a)) {
                    assert(u =~= Set::<Seq<char>>::empty());
                }
            }
            let a = choose|a: Seq<char>| u.contains(a);
            assert(sv.len() > 0) by {
                if sv.len() == 0 {
                    assert(sv.to_set().contains(a));
                }
            }
            assert forall|j: int| 0 <= j < sv.len() implies (#[trigger] sv[j]).len() > 0 by {
                assert(u.contains(sv[j]));
            }
        }
        assert(ok1 == attrs_1nf(u));
    }
    if !ok1 {
        return false;
    }
    let keys = candidate_keys(fds, all_attrs);
    let prime = prime_set(&keys, Ghost(u), Ghost(fs));
    let mut i: usize = 0;
    while i < fds.len()
        invariant
            i <= fds@.len(),
            fs == fds_view(fds@),
            u == all_attrs@,
            prime@ == prime_attrs(u, fs),
            forall|s: Attrs| sets_view(keys@).contains(s) <==> is_candidate_key(s, u, fs),
            forall|ii: int, k: Attrs|
                0 <= ii < i && !fd_trivial(#[trigger] fs[ii]) && #[trigger] is_candidate_key(k, u, fs)
                    && fs[ii].0.subset_of(k) && fs[ii].0 != k ==> fs[ii].1.subset_of(prime_attrs(u, fs)),
        decreases fds@.len() - i,
    {
        let fd = &fds[i];
        proof {
            assert(fs[i as int] == fd@);
        }
        if !fd.is_trivial() {
            let mut j: usize = 0;
            while j < keys.len()
                invariant
                    i < fds@.len(),
                    j <= keys@.len(),
                    fs == fds_view(fds@),
                    u == all_attrs@,
                    fs[i as int] == fd@,
                    !fd_trivial(fd@),
                    prime@ == prime_attrs(u, fs),
                    forall|s: Attrs| sets_view(keys@).contains(s) <==> is_candidate_key(s, u, fs),
                    forall|jj: int| 0 <= jj < j && fd@.0.subset_of((#[trigger] keys@[jj])@) && fd@.0 != keys@[jj]@ ==> fd@.1.subset_of(prime@),
                decreases keys@.len() - j,
            {
                let key = &keys[j];
                if fd.lhs.is_subset(key) && !fd.lhs.same_as(key) {
                    let non_prime = fd.rhs.difference(&prime);
                    if !non_prime.is_empty() {
                        proof {
                            let a = non_prime@.choose();
                            assert(non_prime@.contains(a));
                            assert(sets_view(keys@)[j as int] == key@);
                            assert(sets_view(keys@).contains(key@));
                            assert(is_candidate_key(key@, u, fs));
                        }
                        return false;
                    } else {
                        proof {
                            assert forall|a: Seq<char>| fd@.1.contains(a) implies prime@.contains(a) by {
                                if !prime@.contains(a) {
                                    assert(non_prime@.contains(a));
                                }
                            }
                        }
                    }
                }
                j += 1;
            }
            proof {
                assert forall|k: Attrs| #[trigger] is_candidate_key(k, u, fs) && fd@.0.subset_of(k) && fd@.0 != k implies fd@.1.subset_of(prime_attrs(u, fs)) by {
                    assert(sets_view(keys@).contains(k));
                    let jj = choose|jj: int| 0 <= jj < sets_view(keys@).len() && sets_view(keys@)[jj] == k;
                    assert(keys@[jj]@ == k);
                }
            }
        }
        i += 1;
    }
    true
}

/// Whether the relation `all_attrs` is in 3NF under `fds`.
pub fn is_3nf(fds: &[FD], all_attrs: &AttrSet) -> (r: bool)
    requires
        all_attrs@.len() < 32,
    ensures
        r == is_3nf_spec(fds_view(fds@), all_attrs@),
{
    let ghost fs = fds_view(fds@);
    let ghost u = all_attrs@;
    let keys = candidate_keys(fds, all_attrs);
    let sks = superkeys(fds, all_attrs);
    let prime = prime_set(&keys, Ghost(u), Ghost(fs));
    let mut i: usize = 0;
    while i < fds.len()
        invariant
            i <= fds@.len(),
            fs == fds_view(fds@),
            u == all_attrs@,
            prime@ == prime_attrs(u, fs),
            forall|s: Attrs| sets_view(sks@).contains(s) <==> is_superkey(s, u, fs),
            forall|ii: int|
                0 <= ii < i && !fd_trivial(#[trigger] fs[ii]) ==> is_superkey(fs[ii].0, u, fs) || fs[ii].1.subset_of(
                    prime_attrs(u, fs),
                ),
        decreases fds@.len() - i,
    {
        let fd = &fds[i];
        proof {
            assert(fs[i as int] == fd@);
        }
        if !fd.is_trivial() {
            let x_is_superkey = contains_set(&sks, &fd.lhs);
            let y_is_prime = fd.rhs.is_subset(&prime);
            if !x_is_superkey && !y_is_prime {
                return false;
            }
        }
        i += 1;
    }
    true
}

/// Whether the relation `all_attrs` is in BCNF under `fds`.
pub fn is_bcnf(fds: &[FD], all_attrs: &AttrSet) -> (r: bool)
    requires
        all_attrs@.len() < 32,
    ensures
        r == is_bcnf_spec(fds_view(fds@), all_attrs@),
{
    let ghost fs = fds_view(fds@);
    let sks = superkeys(fds, all_attrs);
    let mut i: usize = 0;
    while i < fds.len()
        invariant
            i <= fds@.len(),
            fs == fds_view(fds@),
            forall|s: Attrs| sets_view(sks@).contains(s) <==> is_superkey(s, all_attrs@, fs),
            forall|ii: int| 0 <= ii < i ==> !bcnf_violation(#[trigger] fs[ii], all_attrs@, fs),
        decreases fds@.len() - i,
    {
        let fd = &fds[i];
        proof {
            assert(fs[i as int] == fd@);
        }
        if !fd.is_trivial() {
            if !contains_set(&sks, &fd.lhs) {
                return false;
            }
        }
        i += 1;
    }
    true
}

/// `g` implies every dependency of `h`.
pub open spec fn implies_all(g: Seq<FdView>, h: Seq<FdView>) -> bool {
    forall|i: int| #![trigger h[i]] 0 <= i < h.len() ==> h[i].1.subset_of(attr_closure(h[i].0, g))
}

/// The two sets of dependencies are equivalent: every set of attributes has
/// the same closure under both.
pub open spec fn fds_equivalent(g: Seq<FdView>, h: Seq<FdView>) -> bool {
    forall|x: Attrs| #[trigger] attr_closure(x, g) == attr_closure(x, h)
}

/// Every dependency of `h` is one of `g`'s.
pub open spec fn members_of(h: Seq<FdView>, g: Seq<FdView>) -> bool {
    forall|i: int| #![trigger h[i]] 0 <= i < h.len() ==> g.contains(h[i])
}

/// If `g` implies all of `h`, closures under `h` are inside closures under `g`.
pub proof fn lemma_implies_closure(g: Seq<FdView>, h: Seq<FdView>, x: Attrs)
    requires
        implies_all(g, h),
    ensures
        attr_closure(x, h).subset_of(attr_closure(x, g)),
{
    let cg = attr_closure(x, g);
    lemma_closure_least(x, g);
    lemma_closure_idempotent(x, g);
    assert forall|i: int| #![trigger h[i]] 0 <= i < h.len() && h[i].0.subset_of(cg) implies h[i].1.subset_of(cg) by {
        lemma_closure_monotone(h[i].0, cg, g);
    }
    lemma_closure_least(x, h);
}

/// Dependencies that imply each other are equivalent.
pub proof fn lemma_equivalent_from_implies(g: Seq<FdView>, h: Seq<FdView>)
    requires
        implies_all(g, h),
        implies_all(h, g),
    ensures
        fds_equivalent(g, h),
{
    assert forall|x: Attrs| #[trigger] attr_closure(x, g) == attr_closure(x, h) by {
        lemma_implies_closure(g, h, x);
        lemma_implies_closure(h, g, x);
        assert(attr_closure(x, g) =~= attr_closure(x, h));
    }
}

/// A set of dependencies implies each of its members.
pub proof fn lemma_members_implied(h: Seq<FdView>, g: Seq<FdView>)
    requires
        members_of(h, g),
    ensures
        implies_all(g, h),
{
    assert forall|i: int| #![trigger h[i]] 0 <= i < h.len() implies h[i].1.subset_of(attr_closure(h[i].0, g)) by {
        let j = choose|j: int| 0 <= j < g.len() && g[j] == h[i];
        lemma_closure_least(h[i].0, g);
        assert(g[j].0.subset_of(attr_closure(h[i].0, g)));
    }
}

/// Implication between sets of dependencies is transitive: if `g` implies
/// every dependency of `h` and `h` every dependency of `k`, then `g` implies
/// every dependency of `k`.
pub proof fn lemma_implies_trans(g: Seq<FdView>, h: Seq<FdView>, k: Seq<FdView>)
    requires
        implies_all(g, h),
        implies_all(h, k),
    ensures
        implies_all(g, k),
{
    assert forall|i: int| #![trigger k[i]] 0 <= i < k.len() implies k[i].1.subset_of(attr_closure(k[i].0, g)) by {
        lemma_implies_closure(g, h, k[i].0);
    }
}

/// The total size of the determinants.
pub open spec fn lhs_total(fs: Seq<FdView>) -> nat
    decreases fs.len(),
{
    if fs.len() == 0 {
        0
    } else {
        lhs_total(fs.drop_last()) + fs.last().0.len()
    }
}

/// Shrinking determinants shrinks the total, strictly when one shrinks strictly.
proof fn lemma_lhs_total_shrinks(a: Seq<FdView>, b: Seq<FdView>, strict: bool)
    requires
        a.len() == b.len(),
        forall|k: int| #![trigger a[k]] 0 <= k < a.len() ==> a[k].0.subset_of(b[k].0) && b[k].0.finite(),
        strict ==> exists|k: int| 0 <= k < a.len() && a[k].0.len() < b[k].0.len(),
    ensures
        lhs_total(a) <= lhs_total(b),
        strict ==> lhs_total(a) < lhs_total(b),
    decreases a.len(),
{
    if a.len() > 0 {
        let n = a.len() - 1;
        let a1 = a.drop_last();
        let b1 = b.drop_last();
        assert forall|k: int| #![trigger a1[k]] 0 <= k < a1.len() implies a1[k].0.subset_of(b1[k].0) && b1[k].0.finite() by {
            assert(a1[k] == a[k]);
            assert(b1[k] == b[k]);
        }
        assert(a[n].0.subset_of(b[n].0));
        vstd::set_lib::lemma_len_subset(a[n].0, b[n].0);
        if strict {
            let k = choose|k: int| 0 <= k < a.len() && a[k].0.len() < b[k].0.len();
            if k < n {
                assert(a1[k] == a[k]);
                assert(b1[k] == b[k]);
                lemma_lhs_total_shrinks(a1, b1, true);
            } else {
                lemma_lhs_total_shrinks(a1, b1, false);
            }
        } else {
            lemma_lhs_total_shrinks(a1, b1, false);
        }
    }
}

/// `fs` is a minimal cover of `orig`: equivalent to it, every dependent side
/// a single attribute, no determinant of two or more attributes with an
/// attribute to spare, and no dependency implied by the others.
pub open spec fn is_minimal_cover(fs: Seq<FdView>, orig: Seq<FdView>) -> bool {
    &&& fds_equivalent(fs, orig)
    &&& forall|k: int| #![trigger fs[k]] 0 <= k < fs.len() ==> fs[k].1.len() == 1 && fs[k].1.finite()
    &&& forall|k: int, b: Seq<char>|
        #![trigger fs[k].0.contains(b)]
        0 <= k < fs.len() && fs[k].0.len() > 1 && fs[k].0.contains(b) ==> !fs[k].1.subset_of(
            attr_closure(fs[k].0.remove(b), fs),
        )
    &&& forall|k: int| #![trigger fs[k]] 0 <= k < fs.len() ==> !fs[k].1.subset_of(attr_closure(fs[k].0, fs.remove(k)))
}

/// A set of size one is the singleton of any member.
proof fn lemma_singleton(s: Attrs, a: Seq<char>)
    requires
        s.finite(),
        s.len() == 1,
        s.contains(a),
    ensures
        s == Set::<Seq<char>>::empty().insert(a),
{
    vstd::set_lib::lemma_set_empty_equivalency_len(s.remove(a));
    assert(s.remove(a) =~= Set::<Seq<char>>::empty());
    assert(s =~= Set::<Seq<char>>::empty().insert(a));
}

/// A member of `g` is implied by `g`.
proof fn lemma_member_implied(g: Seq<FdView>, f: FdView)
    requires
        g.contains(f),
    ensures
        f.1.subset_of(attr_closure(f.0, g)),
{
    let j = choose|j: int| 0 <= j < g.len() && g[j] == f;
    lemma_closure_least(f.0, g);
    assert(g[j].0.subset_of(attr_closure(f.0, g)));
}

/// Step one of a minimal cover: one dependency per dependent attribute.
fn split_rhs(fds: &[FD]) -> (r: Vec<FD>)
    ensures
        fds_equivalent(fds_view(r@), fds_view(fds@)),
        forall|k: int| #![trigger fds_view(r@)[k]] 0 <= k < r@.len() ==> fds_view(r@)[k].1.len() == 1,
{
    let ghost fs = fds_view(fds@);
    let mut result: Vec<FD> = Vec::new();
    let mut i: usize = 0;
    while i < fds.len()
        invariant
            i <= fds@.len(),
            fs == fds_view(fds@),
            forall|k: int| #![trigger fds_view(result@)[k]] 0 <= k < result@.len() ==> fds_view(result@)[k].1.len() == 1,
            implies_all(fs, fds_view(result@)),
            forall|j: int, a: Seq<char>| 0 <= j < i && #[trigger] fs[j].1.contains(a) ==> fds_view(result@).contains(
                (fs[j].0, Set::<Seq<char>>::empty().insert(a)),
            ),
        decreases fds@.len() - i,
    {
        let fd = &fds[i];
        proof {
            assert(fs[i as int] == fd@);
            use_type_invariant(&fd.rhs);
            fd.rhs.lemma_elems();
        }
        let mut t: usize = 0;
        while t < fd.rhs.len()
            invariant
                i < fds@.len(),
                fs == fds_view(fds@),
                fs[i as int] == fd@,
                fd.rhs@ == fd.rhs.elems().to_set(),
                t <= fd.rhs.elems().len(),
                forall|k: int| #![trigger fds_view(result@)[k]] 0 <= k < result@.len() ==> fds_view(result@)[k].1.len() == 1,
                implies_all(fs, fds_view(result@)),
                forall|j: int, a: Seq<char>| 0 <= j < i && #[trigger] fs[j].1.contains(a) ==> fds_view(result@).contains(
                    (fs[j].0, Set::<Seq<char>>::empty().insert(a)),
                ),
                forall|tt: int| 0 <= tt < t ==> fds_view(result@).contains(
                    (fd.lhs@, Set::<Seq<char>>::empty().insert(#[trigger] fd.rhs.elems()[tt])),
                ),
            decreases fd.rhs.elems().len() - t,
        {
            let attr = fd.rhs.get(t);
            let mut single = AttrSet::new();
            single.insert(attr.clone());
            let ghost before = fds_view(result@);
            let nfd = FD { lhs: fd.lhs.duplicate(), rhs: single };
            let ghost nv = nfd@;
            result.push(nfd);
            proof {
                assert(fds_view(result@) =~= before.push(nv));
                assert(nv.1 =~= Set::<Seq<char>>::empty().insert(attr@));
                assert(fd.rhs@.contains(attr@));
                lemma_member_implied(fs, fs[i as int]);
                assert forall|k: int| #![trigger fds_view(result@)[k]] 0 <= k < result@.len() implies fds_view(result@)[k].1.subset_of(
                    attr_closure(fds_view(result@)[k].0, fs),
                ) by {
                    if k < before.len() {
                        assert(fds_view(result@)[k] == before[k]);
                    }
                }
                assert forall|x: FdView| before.contains(x) implies fds_view(result@).contains(x) by {
                    vstd::seq_lib::lemma_seq_contains_after_push(before, nv, x);
                }
                assert(fds_view(result@)[before.len() as int] == nv);
            }
            t += 1;
        }
        proof {
            assert forall|j: int, a: Seq<char>| 0 <= j < i + 1 && #[trigger] fs[j].1.contains(a) implies fds_view(result@).contains(
                (fs[j].0, Set::<Seq<char>>::empty().insert(a)),
            ) by {
                if j == i {
                    let tt = choose|tt: int| 0 <= tt < fd.rhs.elems().len() && fd.rhs.elems()[tt] == a;
                }
            }
        }
        i += 1;
    }
    proof {
        let rv = fds_view(result@);
        assert forall|j: int| #![trigger fs[j]] 0 <= j < fs.len() implies fs[j].1.subset_of(attr_closure(fs[j].0, rv)) by {
            assert forall|a: Seq<char>| fs[j].1.contains(a) implies attr_closure(fs[j].0, rv).contains(a) by {
                lemma_member_implied(rv, (fs[j].0, Set::<Seq<char>>::empty().insert(a)));
            }
        }
        lemma_equivalent_from_implies(rv, fs);
    }
    result
}

/// Step two of a minimal cover, one pass: each dependency with a determinant
/// of two or more attributes loses the first attribute it can spare under
/// `fds`; the flag says whether any did.
fn reduce_pass(fds: &Vec<FD>) -> (r: (Vec<FD>, bool))
    requires
        forall|k: int| #![trigger fds_view(fds@)[k]] 0 <= k < fds@.len() ==> fds_view(fds@)[k].1.len() == 1,
    ensures
        r.0@.len() == fds@.len(),
        forall|k: int| #![trigger fds_view(r.0@)[k]] 0 <= k < fds@.len() ==> fds_view(r.0@)[k].1 == fds_view(fds@)[k].1
            && fds_view(r.0@)[k].0.subset_of(fds_view(fds@)[k].0)
            && fds_view(r.0@)[k].1.subset_of(attr_closure(fds_view(r.0@)[k].0, fds_view(fds@))),
        r.1 ==> exists|k: int| 0 <= k < fds@.len() && fds_view(r.0@)[k].0.len() < fds_view(fds@)[k].0.len(),
        !r.1 ==> fds_view(r.0@) == fds_view(fds@),
        !r.1 ==> forall|k: int, b: Seq<char>|
            #![trigger fds_view(fds@)[k].0.contains(b)]
            0 <= k < fds@.len() && fds_view(fds@)[k].0.len() > 1 && fds_view(fds@)[k].0.contains(b) ==> !fds_view(fds@)[k].1.subset_of(
                attr_closure(fds_view(fds@)[k].0.remove(b), fds_view(fds@)),
            ),
{
    let ghost fs = fds_view(fds@);
    let mut new_result: Vec<FD> = Vec::new();
    let mut changed = false;
    let mut k: usize = 0;
    while k < fds.len()
        invariant
            k <= fds@.len(),
            fs == fds_view(fds@),
            forall|m: int| #![trigger fs[m]] 0 <= m < fs.len() ==> fs[m].1.len() == 1,
            new_result@.len() == k,
            forall|m: int| #![trigger fds_view(new_result@)[m]] 0 <= m < k ==> fds_view(new_result@)[m].1 == fs[m].1
                && fds_view(new_result@)[m].0.subset_of(fs[m].0)
                && fds_view(new_result@)[m].1.subset_of(attr_closure(fds_view(new_result@)[m].0, fs)),
            changed ==> exists|m: int| 0 <= m < k && fds_view(new_result@)[m].0.len() < fs[m].0.len(),
            !changed ==> fds_view(new_result@) == fs.subrange(0, k as int),
            !changed ==> forall|m: int, b: Seq<char>|
                #![trigger fs[m].0.contains(b)]
                0 <= m < k && fs[m].0.len() > 1 && fs[m].0.contains(b) ==> !fs[m].1.subset_of(attr_closure(fs[m].0.remove(b), fs)),
        decreases fds@.len() - k,
    {
        let fd = &fds[k];
        let ghost before = fds_view(new_result@);
        proof {
            assert(fs[k as int] == fd@);
            use_type_invariant(&fd.rhs);
            fd.rhs.lemma_elems();
            use_type_invariant(&fd.lhs);
            fd.lhs.lemma_elems();
            lemma_member_implied(fs, fd@);
        }
        let mut found: Option<AttrSet> = None;
        if fd.lhs.len() > 1 {
            let rhs_attr = fd.rhs.get(0);
            proof {
                lemma_singleton(fd.rhs@, rhs_attr@);
            }
            let mut t: usize = 0;
            while t < fd.lhs.len()
                invariant
                    k < fds@.len(),
                    fs == fds_view(fds@),
                    fs[k as int] == fd@,
                    fd.rhs@ == Set::<Seq<char>>::empty().insert(rhs_attr@),
                    fd.lhs@ == fd.lhs.elems().to_set(),
                    t <= fd.lhs.elems().len(),
                    match found {
                        Some(red) => red@.len() < fd.lhs@.len() && red@.subset_of(fd.lhs@) && fd.rhs@.subset_of(attr_closure(red@, fs)),
                        None => forall|tt: int| 0 <= tt < t ==> !fd.rhs@.subset_of(attr_closure(fd.lhs@.remove(#[trigger] fd.lhs.elems()[tt]), fs)),
                    },
                ensures
                    match found {
                        Some(red) => red@.len() < fd.lhs@.len() && red@.subset_of(fd.lhs@) && fd.rhs@.subset_of(attr_closure(red@, fs)),
                        None => forall|tt: int| 0 <= tt < fd.lhs.elems().len() ==> !fd.rhs@.subset_of(attr_closure(fd.lhs@.remove(#[trigger] fd.lhs.elems()[tt]), fs)),
                    },
                decreases fd.lhs.elems().len() - t,
            {
                let attr = fd.lhs.get(t);
                let mut reduced = fd.lhs.duplicate();
                reduced.remove(attr.as_str());
                let cl = closure(&reduced, fds.as_slice());
                if cl.contains_string(rhs_attr) {
                    proof {
                        assert(fd.lhs@.contains(attr@));
                        assert(reduced@.len() < fd.lhs@.len());
                    }
                    found = Some(reduced);
                    break;
                }
                t += 1;
            }
            proof {
                if found is None {
                    assert forall|b: Seq<char>| fd@.0.contains(b) implies !fd@.1.subset_of(attr_closure(fd@.0.remove(b), fs)) by {
                        let tt = choose|tt: int| 0 <= tt < fd.lhs.elems().len() && fd.lhs.elems()[tt] == b;
                    }
                }
            }
        }
        match found {
            Some(reduced) => {
                let nfd = FD { lhs: reduced, rhs: fd.rhs.duplicate() };
                new_result.push(nfd);
                changed = true;
            },
            None => {
                new_result.push(fd.duplicate());
            },
        }
        proof {
            assert(fds_view(new_result@) =~= before.push(fds_view(new_result@)[k as int]));
            assert forall|m: int| #![trigger fds_view(new_result@)[m]] 0 <= m < k + 1 implies fds_view(new_result@)[m].1 == fs[m].1
                && fds_view(new_result@)[m].0.subset_of(fs[m].0)
                && fds_view(new_result@)[m].1.subset_of(attr_closure(fds_view(new_result@)[m].0, fs)) by {
                if m < k {
                    assert(fds_view(new_result@)[m] == before[m]);
                }
            }
            if changed {
                if exists|m: int| 0 <= m < k && before[m].0.len() < fs[m].0.len() {
                    let m = choose|m: int| 0 <= m < k && before[m].0.len() < fs[m].0.len();
                    assert(fds_view(new_result@)[m] == before[m]);
                }
            } else {
                assert(fds_view(new_result@) =~= fs.subrange(0, k as int + 1));
            }
        }
        k += 1;
    }
    proof {
        if !changed {
            assert(fs.subrange(0, k as int) =~= fs);
        }
    }
    (new_result, changed)
}

/// Removing a later member first keeps what is left after removing `k` a
/// part of what is left after removing only `k`.
proof fn lemma_remove_members(l: Seq<FdView>, i: int, k: int)
    requires
        0 <= k < i < l.len(),
    ensures
        members_of(l.remove(i).remove(k), l.remove(k)),
{
    let a = l.remove(i).remove(k);
    let b = l.remove(k);
    assert forall|m: int| #![trigger a[m]] 0 <= m < a.len() implies b.contains(a[m]) by {
        if m < k {
            assert(a[m] == l[m]);
            assert(b[m] == l[m]);
        } else if m < i - 1 {
            assert(a[m] == l[m + 1]);
            assert(b[m] == l[m + 1]);
        } else {
            assert(a[m] == l[m + 2]);
            assert(b[m + 1] == l[m + 2]);
        }
    }
}

/// A minimal cover of `fds`: dependents split to single attributes, spare
/// determinant attributes removed until none is left, then every dependency
/// that the others imply dropped.
#[verifier::spinoff_prover]
#[verifier::rlimit(40)]
pub fn compute_minimal_cover(fds: &[FD]) -> (r: Vec<FD>)
    ensures
        is_minimal_cover(fds_view(r@), fds_view(fds@)),
{
    let ghost orig = fds_view(fds@);
    let mut result = split_rhs(fds);
    loop
        invariant
            fds_equivalent(fds_view(result@), orig),
            forall|k: int| #![trigger fds_view(result@)[k]] 0 <= k < result@.len() ==> fds_view(result@)[k].1.len() == 1,
        ensures
            fds_equivalent(fds_view(result@), orig),
            forall|k: int| #![trigger fds_view(result@)[k]] 0 <= k < result@.len() ==> fds_view(result@)[k].1.len() == 1,
            forall|k: int, b: Seq<char>|
                #![trigger fds_view(result@)[k].0.contains(b)]
                0 <= k < result@.len() && fds_view(result@)[k].0.len() > 1 && fds_view(result@)[k].0.contains(b) ==> !fds_view(result@)[k].1.subset_of(
                    attr_closure(fds_view(result@)[k].0.remove(b), fds_view(result@)),
                ),
        decreases lhs_total(fds_view(result@)),
    {
        let (new_result, changed) = reduce_pass(&result);
        if !changed {
            break;
        }
        proof {
            let ov = fds_view(result@);
            let nv = fds_view(new_result@);
            assert forall|k: int| #![trigger nv[k]] 0 <= k < nv.len() implies nv[k].1.subset_of(attr_closure(nv[k].0, ov)) by {
            }
            assert forall|k: int| #![trigger ov[k]] 0 <= k < ov.len() implies ov[k].1.subset_of(attr_closure(ov[k].0, nv)) by {
                assert(nv[k].1 == ov[k].1);
                assert(nv.contains(nv[k]));
                lemma_member_implied(nv, nv[k]);
                lemma_closure_monotone(nv[k].0, ov[k].0, nv);
            }
            lemma_equivalent_from_implies(nv, ov);
            assert forall|x: Attrs| #[trigger] attr_closure(x, nv) == attr_closure(x, orig) by {
                assert(attr_closure(x, nv) == attr_closure(x, ov));
                assert(attr_closure(x, ov) == attr_closure(x, orig));
            }
            assert forall|k: int| #![trigger nv[k]] 0 <= k < nv.len() implies nv[k].0.subset_of(ov[k].0) && ov[k].0.finite() by {
                assert(ov[k] == result@[k]@);
                lemma_attrset_finite(result@[k].lhs);
            }
            lemma_lhs_total_shrinks(nv, ov, true);
        }
        result = new_result;
    }
    let ghost r2 = fds_view(result@);
    let mut i: usize = 0;
    while i < result.len()
        invariant
            i <= result@.len(),
            fds_equivalent(fds_view(result@), orig),
            fds_equivalent(r2, orig),
            members_of(fds_view(result@), r2),
            forall|k: int| #![trigger fds_view(result@)[k]] 0 <= k < result@.len() ==> fds_view(result@)[k].1.len() == 1,
            forall|k: int| #![trigger fds_view(result@)[k]] 0 <= k < i ==> !fds_view(result@)[k].1.subset_of(
                attr_closure(fds_view(result@)[k].0, fds_view(result@).remove(k)),
            ),
            forall|k: int, b: Seq<char>|
                #![trigger r2[k].0.contains(b)]
                0 <= k < r2.len() && r2[k].0.len() > 1 && r2[k].0.contains(b) ==> !r2[k].1.subset_of(
                    attr_closure(r2[k].0.remove(b), r2),
                ),
        decreases result@.len() - i,
    {
        let ghost l = fds_view(result@);
        let fd = result.remove(i);
        proof {
            assert(fds_view(result@) =~= l.remove(i as int));
            assert(l[i as int] == fd@);
            use_type_invariant(&fd.rhs);
            fd.rhs.lemma_elems();
        }
        let rhs_attr = fd.rhs.get(0);
        proof {
            lemma_singleton(fd.rhs@, rhs_attr@);
        }
        let cl = closure(&fd.lhs, result.as_slice());
        let redundant = cl.contains_string(rhs_attr);
        if redundant {
            proof {
                let lp = l.remove(i as int);
                assert forall|m: int| #![trigger l[m]] 0 <= m < l.len() implies l[m].1.subset_of(attr_closure(l[m].0, lp)) by {
                    if m < i {
                        assert(lp[m] == l[m]);
                        lemma_member_implied(lp, l[m]);
                    } else if m > i {
                        assert(lp[m - 1] == l[m]);
                        lemma_member_implied(lp, l[m]);
                    }
                }
                assert forall|m: int| #![trigger lp[m]] 0 <= m < lp.len() implies l.contains(lp[m]) by {
                    if m < i {
                        assert(lp[m] == l[m]);
                    } else {
                        assert(lp[m] == l[m + 1]);
                    }
                }
                lemma_members_implied(lp, l);
                lemma_equivalent_from_implies(lp, l);
                assert forall|x: Attrs| #[trigger] attr_closure(x, lp) == attr_closure(x, orig) by {
                    assert(attr_closure(x, lp) == attr_closure(x, l));
                    assert(attr_closure(x, l) == attr_closure(x, orig));
                }
                assert forall|m: int| #![trigger lp[m]] 0 <= m < lp.len() implies r2.contains(lp[m]) by {
                    if m < i {
                        assert(lp[m] == l[m]);
                    } else {
                        assert(lp[m] == l[m + 1]);
                    }
                }
                assert forall|k: int| #![trigger lp[k]] 0 <= k < i implies !lp[k].1.subset_of(attr_closure(lp[k].0, lp.remove(k))) by {
                    assert(lp[k] == l[k]);
                    lemma_remove_members(l, i as int, k);
                    lemma_members_implied(lp.remove(k), l.remove(k));
                    lemma_implies_closure(l.remove(k), lp.remove(k), l[k].0);
                }
            }
        } else {
            result.insert(i, fd);
            proof {
                assert(fds_view(result@) =~= l);
                assert(!l[i as int].1.subset_of(attr_closure(l[i as int].0, l.remove(i as int)))) by {
                    assert(l[i as int].1.contains(rhs_attr@));
                }
            }
            i += 1;
        }
    }
    proof {
        let rv = fds_view(result@);
        assert forall|k: int, b: Seq<char>|
            #![trigger rv[k].0.contains(b)]
            0 <= k < rv.len() && rv[k].0.len() > 1 && rv[k].0.contains(b) implies !rv[k].1.subset_of(
                attr_closure(rv[k].0.remove(b), rv),
            ) by {
            assert(r2.contains(rv[k]));
            let m = choose|m: int| 0 <= m < r2.len() && r2[m] == rv[k];
            assert(r2[m].0.contains(b));
            assert(attr_closure(rv[k].0.remove(b), rv) == attr_closure(rv[k].0.remove(b), orig));
            assert(attr_closure(rv[k].0.remove(b), r2) == attr_closure(rv[k].0.remove(b), orig));
        }
        assert forall|k: int| #![trigger rv[k]] 0 <= k < rv.len() implies rv[k].1.len() == 1 && rv[k].1.finite() by {
            assert(rv[k] == result@[k]@);
            lemma_attrset_finite(result@[k].rhs);
        }
    }
    result
}

/// Everything that the dependencies of `fs` with determinant `l` determine.
pub open spec fn rhs_for(fs: Seq<FdView>, l: Attrs) -> Attrs {
    Set::new(|a: Seq<char>| exists|j: int| 0 <= j < fs.len() && (#[trigger] fs[j]).0 == l && fs[j].1.contains(a))
}

/// The relations that 3NF synthesis builds from `fs`: one per determinant,
/// holding it and everything it determines.
pub open spec fn synthesized(fs: Seq<FdView>) -> Set<Attrs> {
    Set::new(|rel: Attrs| exists|k: int| 0 <= k < fs.len() && rel == (#[trigger] fs[k]).0.union(rhs_for(fs, fs[k].0)))
}

/// One of `rels` contains a candidate key of `u` under `fs`.
pub open spec fn holds_a_key(rels: Set<Attrs>, u: Attrs, fs: Seq<FdView>) -> bool {
    exists|rel: Attrs, k: Attrs| #[trigger] rels.contains(rel) && #[trigger] is_candidate_key(k, u, fs) && k.subset_of(rel)
}

/// The determinants of `fs`, in order.
pub open spec fn lhs_seq(fs: Seq<FdView>) -> Seq<Attrs> {
    fs.map_values(|f: FdView| f.0)
}

/// Groups the dependencies of `mc` by determinant: the distinct determinants,
/// in first-occurrence order, and for each everything it determines.
fn group_by_lhs(mc: &Vec<FD>) -> (r: (Vec<AttrSet>, Vec<AttrSet>))
    ensures
        r.0@.len() == r.1@.len(),
        forall|g: int| #![trigger r.0@[g]] 0 <= g < r.0@.len() ==> lhs_seq(fds_view(mc@)).contains(r.0@[g]@),
        forall|k: int| #![trigger fds_view(mc@)[k]] 0 <= k < mc@.len() ==> sets_view(r.0@).contains(fds_view(mc@)[k].0),
        forall|g: int| #![trigger r.1@[g]] 0 <= g < r.1@.len() ==> r.1@[g]@ == rhs_for(fds_view(mc@), r.0@[g]@),
{
    let ghost fs = fds_view(mc@);
    let mut lhss: Vec<AttrSet> = Vec::new();
    let mut rhss: Vec<AttrSet> = Vec::new();
    let mut t: usize = 0;
    let ghost mut src: Seq<int> = Seq::empty();
    while t < mc.len()
        invariant
            t <= mc@.len(),
            fs == fds_view(mc@),
            lhss@.len() == rhss@.len(),
            src.len() == lhss@.len(),
            sets_view(lhss@).no_duplicates(),
            forall|h: int| 0 <= h < src.len() ==> 0 <= #[trigger] src[h] < t,
            forall|h: int| #![trigger lhss@[h]] 0 <= h < lhss@.len() ==> lhss@[h]@ == fs[src[h]].0,
            forall|k: int| #![trigger fs[k]] 0 <= k < t ==> sets_view(lhss@).contains(fs[k].0),
            forall|h: int| #![trigger rhss@[h]] 0 <= h < rhss@.len() ==> rhss@[h]@ == rhs_for(fs.subrange(0, t as int), lhss@[h]@),
        decreases mc@.len() - t,
    {
        let fd = &mc[t];
        proof {
            assert(fs[t as int] == fd@);
        }
        let ghost old_l = lhss@;
        let ghost old_r = rhss@;
        let ghost pre = fs.subrange(0, t as int);
        let ghost post = fs.subrange(0, t as int + 1);
        let mut g: usize = 0;
        let mut found = false;
        while g < lhss.len()
            invariant_except_break
                !found,
            invariant
                g <= lhss@.len(),
                lhss@ == old_l,
                forall|h: int| 0 <= h < g ==> old_l[h]@ != fd.lhs@,
            ensures
                lhss@ == old_l,
                found ==> g < lhss@.len() && lhss@[g as int]@ == fd.lhs@,
                !found ==> forall|h: int| 0 <= h < lhss@.len() ==> old_l[h]@ != fd.lhs@,
            decreases lhss@.len() - g,
        {
            if lhss[g].same_as(&fd.lhs) {
                found = true;
                break;
            }
            g += 1;
        }
        proof {
            assert forall|l: Attrs, a: Seq<char>| rhs_for(post, l).contains(a) <==> (rhs_for(pre, l).contains(a) || (l == fd@.0 && fd@.1.contains(a))) by {
                if rhs_for(post, l).contains(a) {
                    let j = choose|j: int| 0 <= j < post.len() && (#[trigger] post[j]).0 == l && post[j].1.contains(a);
                    if j < t {
                        assert(pre[j] == post[j]);
                    }
                }
                if rhs_for(pre, l).contains(a) {
                    let j = choose|j: int| 0 <= j < pre.len() && (#[trigger] pre[j]).0 == l && pre[j].1.contains(a);
                    assert(post[j] == pre[j]);
                }
                if l == fd@.0 && fd@.1.contains(a) {
                    assert(post[t as int] == fd@);
                }
            }
        }
        if found {
            let mut merged = rhss[g].duplicate();
            merged.extend(&fd.rhs);
            let ghost mv = merged@;
            rhss.set(g, merged);
            proof {
                assert(mv == old_r[g as int]@.union(fd@.1));
                assert(lhss@ == old_l);
                assert forall|h: int| #![trigger lhss@[h]] 0 <= h < lhss@.len() implies 0 <= src[h] < t + 1 && lhss@[h]@ == fs[src[h]].0 by {
                    assert(lhss@[h] == old_l[h]);
                }
                assert forall|h: int| #![trigger rhss@[h]] 0 <= h < rhss@.len() implies rhss@[h]@ == rhs_for(post, lhss@[h]@) by {
                    assert(lhss@[h] == old_l[h]);
                    if h != g {
                        assert(sets_view(old_l)[h] != sets_view(old_l)[g as int]);
                    }
                    if h == g {
                        assert(rhss@[h]@ == mv);
                        assert(old_r[h]@ == rhs_for(pre, old_l[h]@));
                        assert(rhss@[h]@ =~= rhs_for(post, lhss@[h]@));
                    } else {
                        assert(rhss@[h] == old_r[h]);
                        assert(old_r[h]@ == rhs_for(pre, old_l[h]@));
                        assert(rhss@[h]@ =~= rhs_for(post, lhss@[h]@));
                    }
                }
                assert forall|k: int| #![trigger fs[k]] 0 <= k < t + 1 implies sets_view(lhss@).contains(fs[k].0) by {
                    if k == t {
                        assert(sets_view(lhss@)[g as int] == fs[k].0);
                    }
                }
            }
        } else {
            lhss.push(fd.lhs.duplicate());
            rhss.push(fd.rhs.duplicate());
            proof {
                assert(sets_view(lhss@) =~= sets_view(old_l).push(fd@.0));
                assert forall|a: int, b: int| 0 <= a < sets_view(lhss@).len() && 0 <= b < sets_view(lhss@).len() && a != b implies sets_view(lhss@)[a] != sets_view(lhss@)[b] by {
                    if a < old_l.len() && b < old_l.len() {
                        assert(sets_view(old_l)[a] != sets_view(old_l)[b]);
                    } else if a < old_l.len() {
                        assert(old_l[a]@ != fd.lhs@);
                    } else if b < old_l.len() {
                        assert(old_l[b]@ != fd.lhs@);
                    }
                }
                assert forall|h: int| #![trigger rhss@[h]] 0 <= h < rhss@.len() implies rhss@[h]@ == rhs_for(post, lhss@[h]@) by {
                    if h < old_r.len() {
                        assert(rhss@[h] == old_r[h]);
                        assert(lhss@[h] == old_l[h]);
                        assert(lhss@[h]@ != fd@.0);
                        assert(rhss@[h]@ =~= rhs_for(post, lhss@[h]@));
                    } else {
                        assert(rhs_for(pre, fd@.0) =~= Set::<Seq<char>>::empty()) by {
                            if exists|a: Seq<char>| rhs_for(pre, fd@.0).contains(a) {
                                let a = choose|a: Seq<char>| rhs_for(pre, fd@.0).contains(a);
                                let j = choose|j: int| 0 <= j < pre.len() && (#[trigger] pre[j]).0 == fd@.0 && pre[j].1.contains(a);
                                assert(pre[j] == fs[j]);
                                assert(sets_view(old_l).contains(fs[j].0));
                                let h2 = choose|h2: int| 0 <= h2 < sets_view(old_l).len() && sets_view(old_l)[h2] == fs[j].0;
                                assert(old_l[h2]@ == fd@.0);
                            }
                        }
                        assert(rhss@[h]@ =~= rhs_for(post, lhss@[h]@));
                    }
                }
                let src2 = src.push(t as int);
                assert forall|h: int| #![trigger lhss@[h]] 0 <= h < lhss@.len() implies 0 <= src2[h] < t + 1 && lhss@[h]@ == fs[src2[h]].0 by {
                    if h < old_l.len() {
                        assert(lhss@[h] == old_l[h]);
                    } else {
                        assert(lhss@[h]@ == fs[t as int].0);
                    }
                }
                assert forall|k: int| #![trigger fs[k]] 0 <= k < t + 1 implies sets_view(lhss@).contains(fs[k].0) by {
                    if k == t {
                        assert(sets_view(lhss@)[old_l.len() as int] == fs[k].0);
                    } else {
                        let h2 = choose|h2: int| 0 <= h2 < sets_view(old_l).len() && sets_view(old_l)[h2] == fs[k].0;
                        assert(sets_view(lhss@)[h2] == fs[k].0);
                    }
                }
            }
        }
        proof {
            if !found {
                src = src.push(t as int);
            }
        }
        t += 1;
    }
    proof {
        assert(fs.subrange(0, t as int) =~= fs);
    }
    let r = (lhss, rhss);
    proof {
        assert(r.0@ == lhss@);
        assert forall|g: int| #![trigger r.0@[g]] 0 <= g < r.0@.len() implies lhs_seq(fds_view(mc@)).contains(r.0@[g]@) by {
            assert(r.0@[g] == lhss@[g]);
            let k = src[g];
            assert(fds_view(mc@)[k] == fs[k]);
            assert(lhs_seq(fds_view(mc@))[k] == fs[k].0);
        }
    }
    r
}

/// Every dependency of `fs` follows from dependencies that each lie within
/// one of `rels`: the decomposition preserves the dependencies.
pub open spec fn dependency_preserving(fs: Seq<FdView>, rels: Seq<Attrs>) -> bool {
    exists|g: Seq<FdView>|
        #[trigger] fds_equivalent(g, fs) && forall|k: int| 0 <= k < g.len() ==> #[trigger] within_some(g[k], rels)
}

/// The dependency lies within one of `rels`.
pub open spec fn within_some(f: FdView, rels: Seq<Attrs>) -> bool {
    exists|j: int| 0 <= j < rels.len() && fd_within(f, #[trigger] rels[j])
}

/// A decomposition that preserves the dependencies of `fs` preserves those
/// of every equivalent set `h`, such as any minimal cover of `fs`: each
/// dependency of `h` follows from dependencies that lie within components.
pub proof fn lemma_preserving_any_cover(fs: Seq<FdView>, rels: Seq<Attrs>, h: Seq<FdView>)
    requires
        dependency_preserving(fs, rels),
        fds_equivalent(h, fs),
    ensures
        exists|g: Seq<FdView>|
            #[trigger] fds_equivalent(g, fs) && (forall|k: int| 0 <= k < g.len() ==> #[trigger] within_some(g[k], rels)) && forall|k: int|
                #![trigger h[k]]
                0 <= k < h.len() ==> h[k].1.subset_of(attr_closure(h[k].0, g)),
{
    let g = choose|g: Seq<FdView>|
        #[trigger] fds_equivalent(g, fs) && forall|k: int| 0 <= k < g.len() ==> #[trigger] within_some(g[k], rels);
    assert forall|k: int| #![trigger h[k]] 0 <= k < h.len() implies h[k].1.subset_of(attr_closure(h[k].0, g)) by {
        assert(h.contains(h[k]));
        lemma_member_implied(h, h[k]);
        assert(attr_closure(h[k].0, h) == attr_closure(h[k].0, fs));
        assert(attr_closure(h[k].0, g) == attr_closure(h[k].0, fs));
    }
}

/// Relations that include those synthesized from a cover of `fs` preserve
/// the dependencies of `fs`.
pub proof fn lemma_synthesis_preserves(mc: Seq<FdView>, fs: Seq<FdView>, rels: Seq<Attrs>)
    requires
        fds_equivalent(mc, fs),
        forall|rel: Attrs| #[trigger] synthesized(mc).contains(rel) ==> rels.contains(rel),
    ensures
        dependency_preserving(fs, rels),
{
    assert forall|k: int| 0 <= k < mc.len() implies #[trigger] within_some(mc[k], rels) by {
        let rel = mc[k].0.union(rhs_for(mc, mc[k].0));
        assert(synthesized(mc).contains(rel));
        let j = choose|j: int| 0 <= j < rels.len() && rels[j] == rel;
        assert forall|a: Seq<char>| mc[k].1.contains(a) implies rhs_for(mc, mc[k].0).contains(a) by {
        }
        assert(fd_within(mc[k], rels[j]));
    }
    assert(fds_equivalent(mc, fs));
}

/// 3NF synthesis: a minimal cover of `fds` grouped by determinant, one
/// relation per determinant with everything it determines, and a candidate
/// key as one relation more when none of those holds one.
pub fn decompose_3nf(all_attrs: &AttrSet, fds: &[FD]) -> (r: Vec<AttrSet>)
    requires
        all_attrs@.len() < 32,
    ensures
        exists|mc: Seq<FdView>| #[trigger] is_minimal_cover(mc, fds_view(fds@)) && {
            &&& forall|rel: Attrs| #[trigger] synthesized(mc).contains(rel) ==> sets_view(r@).contains(rel)
            &&& forall|i: int| #![trigger r@[i]] 0 <= i < r@.len() ==> synthesized(mc).contains(r@[i]@) || (i == r@.len() - 1
                && is_candidate_key(r@[i]@, all_attrs@, fds_view(fds@)) && !holds_a_key(synthesized(mc), all_attrs@, fds_view(fds@)))
        },
        (exists|k: Attrs| is_candidate_key(k, all_attrs@, fds_view(fds@))) ==> holds_a_key(sets_view(r@).to_set(), all_attrs@, fds_view(fds@)),
        dependency_preserving(fds_view(fds@), sets_view(r@)),
{
    let ghost fs = fds_view(fds@);
    let ghost u = all_attrs@;
    let minimal_cover = compute_minimal_cover(fds);
    let ghost mc = fds_view(minimal_cover@);
    let (lhss, rhss) = group_by_lhs(&minimal_cover);
    let mut result: Vec<AttrSet> = Vec::new();
    let mut g: usize = 0;
    while g < lhss.len()
        invariant
            g <= lhss@.len(),
            lhss@.len() == rhss@.len(),
            result@.len() == g,
            forall|h: int| #![trigger rhss@[h]] 0 <= h < rhss@.len() ==> rhss@[h]@ == rhs_for(mc, lhss@[h]@),
            forall|h: int| 0 <= h < g ==> #[trigger] result@[h]@ == lhss@[h]@.union(rhss@[h]@),
        decreases lhss@.len() - g,
    {
        let mut attrs = lhss[g].duplicate();
        attrs.extend(&rhss[g]);
        result.push(attrs);
        g += 1;
    }
    let ghost groups = sets_view(result@);
    proof {
        assert forall|rel: Attrs| #[trigger] synthesized(mc).contains(rel) implies groups.contains(rel) by {
            let k = choose|k: int| 0 <= k < mc.len() && rel == (#[trigger] mc[k]).0.union(rhs_for(mc, mc[k].0));
            assert(sets_view(lhss@).contains(mc[k].0));
            let h = choose|h: int| 0 <= h < sets_view(lhss@).len() && sets_view(lhss@)[h] == mc[k].0;
            assert(lhss@[h]@ == mc[k].0);
            assert(rhss@[h]@ == rhs_for(mc, lhss@[h]@));
            assert(groups[h] == result@[h]@);
        }
        assert forall|i: int| 0 <= i < groups.len() implies synthesized(mc).contains(#[trigger] groups[i]) by {
            assert(groups[i] == result@[i]@);
            assert(rhss@[i]@ == rhs_for(mc, lhss@[i]@));
            assert(lhs_seq(mc).contains(lhss@[i]@));
            let k = choose|k: int| 0 <= k < lhs_seq(mc).len() && lhs_seq(mc)[k] == lhss@[i]@;
            assert(mc[k].0 == lhss@[i]@);
            assert(mc[k].0.union(rhs_for(mc, mc[k].0)) == groups[i]);
        }
    }
    let keys = candidate_keys(fds, all_attrs);
    let mut has_key = false;
    let mut i: usize = 0;
    while i < result.len()
        invariant
            i <= result@.len(),
            groups == sets_view(result@),
            forall|s: Attrs| sets_view(keys@).contains(s) <==> is_candidate_key(s, u, fs),
            has_key <==> exists|ii: int, k: Attrs| 0 <= ii < i && #[trigger] is_candidate_key(k, u, fs) && k.subset_of(#[trigger] groups[ii]),
        decreases result@.len() - i,
    {
        let mut j: usize = 0;
        while j < keys.len()
            invariant
                i < result@.len(),
                j <= keys@.len(),
                groups == sets_view(result@),
                forall|s: Attrs| sets_view(keys@).contains(s) <==> is_candidate_key(s, u, fs),
                has_key <==> (exists|ii: int, k: Attrs| 0 <= ii < i && #[trigger] is_candidate_key(k, u, fs) && k.subset_of(#[trigger] groups[ii]))
                    || exists|jj: int| 0 <= jj < j && (#[trigger] keys@[jj])@.subset_of(groups[i as int]),
            decreases keys@.len() - j,
        {
            if keys[j].is_subset(&result[i]) {
                proof {
                    assert(groups[i as int] == result@[i as int]@);
                }
                has_key = true;
            }
            j += 1;
        }
        proof {
            assert(groups[i as int] == result@[i as int]@);
            if exists|jj: int| 0 <= jj < j && (#[trigger] keys@[jj])@.subset_of(groups[i as int]) {
                let jj = choose|jj: int| 0 <= jj < j && (#[trigger] keys@[jj])@.subset_of(groups[i as int]);
                assert(sets_view(keys@)[jj] == keys@[jj]@);
                assert(sets_view(keys@).contains(keys@[jj]@));
                assert(is_candidate_key(keys@[jj]@, u, fs));
            }
            if exists|ii: int, k: Attrs| 0 <= ii < i + 1 && #[trigger] is_candidate_key(k, u, fs) && k.subset_of(#[trigger] groups[ii]) {
                let (ii, k) = choose|ii: int, k: Attrs| 0 <= ii < i + 1 && #[trigger] is_candidate_key(k, u, fs) && k.subset_of(#[trigger] groups[ii]);
                if ii == i {
                    assert(sets_view(keys@).contains(k));
                    let jj = choose|jj: int| 0 <= jj < sets_view(keys@).len() && sets_view(keys@)[jj] == k;
                    assert(keys@[jj]@ == k);
                }
            }
        }
        i += 1;
    }
    proof {
        assert(has_key == holds_a_key(synthesized(mc), u, fs)) by {
            if has_key {
                let (ii, k) = choose|ii: int, k: Attrs| 0 <= ii < i && #[trigger] is_candidate_key(k, u, fs) && k.subset_of(#[trigger] groups[ii]);
                assert(groups.contains(groups[ii]));
                assert(synthesized(mc).contains(groups[ii]));
            }
            if holds_a_key(synthesized(mc), u, fs) {
                let (rel, k) = choose|rel: Attrs, k: Attrs| #[trigger] synthesized(mc).contains(rel) && #[trigger] is_candidate_key(k, u, fs) && k.subset_of(rel);
                assert(groups.contains(rel));
                let ii = choose|ii: int| 0 <= ii < groups.len() && groups[ii] == rel;
            }
        }
    }
    if !has_key && keys.len() > 0 {
        let key = keys[0].duplicate();
        result.push(key);
        proof {
            assert(sets_view(result@) =~= groups.push(keys@[0]@));
            assert(sets_view(keys@)[0] == keys@[0]@);
            assert(sets_view(keys@).contains(keys@[0]@));
        }
    }
    proof {
        let rv = sets_view(result@);
        assert forall|rel: Attrs| #[trigger] synthesized(mc).contains(rel) implies rv.contains(rel) by {
            assert(groups.contains(rel));
            let h = choose|h: int| 0 <= h < groups.len() && groups[h] == rel;
            assert(rv[h] == rel);
        }
        assert forall|i2: int| #![trigger result@[i2]] 0 <= i2 < result@.len() implies synthesized(mc).contains(result@[i2]@) || (i2 == result@.len() - 1
            && is_candidate_key(result@[i2]@, u, fs) && !holds_a_key(synthesized(mc), u, fs)) by {
            if i2 < groups.len() {
                assert(rv[i2] == groups[i2]);
                assert(synthesized(mc).contains(groups[i2]));
            }
        }
        if exists|k: Attrs| is_candidate_key(k, u, fs) {
            let k = choose|k: Attrs| is_candidate_key(k, u, fs);
            if has_key {
                let (ii, k2) = choose|ii: int, k2: Attrs| 0 <= ii < i && #[trigger] is_candidate_key(k2, u, fs) && k2.subset_of(#[trigger] groups[ii]);
                assert(rv[ii] == groups[ii]);
                assert(rv.to_set().contains(rv[ii]));
            } else {
                assert(sets_view(keys@).contains(k));
                assert(keys@.len() > 0);
                let last = rv.len() - 1;
                assert(rv[last] == keys@[0]@);
                assert(rv.to_set().contains(rv[last]));
                assert(keys@[0]@.subset_of(rv[last]));
            }
        }
        assert(is_minimal_cover(mc, fs));
        lemma_synthesis_preserves(mc, fs, rv);
    }
    result
}

/// The dependency lies within `a`, as a predicate.
pub open spec fn within(a: Attrs) -> spec_fn(FdView) -> bool {
    |f: FdView| fd_within(f, a)
}

/// `i` is the first dependency of `fs` that breaks BCNF in `a`.
pub open spec fn first_violation(fs: Seq<FdView>, a: Attrs, i: int) -> bool {
    &&& 0 <= i < fs.len()
    &&& bcnf_violation(fs[i], a, fs)
    &&& forall|j: int| 0 <= j < i ==> !bcnf_violation(#[trigger] fs[j], a, fs)
}

/// A relation that BCNF decomposition leaves as it is: in BCNF, or its first
/// violating dependency has every attribute of the relation as dependent, so
/// that no split is possible.
pub open spec fn bcnf_result(fs: Seq<FdView>, a: Attrs) -> bool {
    is_bcnf_spec(fs, a) || exists|i: int| #[trigger] first_violation(fs, a, i) && a.subset_of(fs[i].1)
}

/// Filtering by a stronger predicate after a weaker one is filtering by the
/// stronger one.
proof fn lemma_filter_filter(s: Seq<FdView>, p: spec_fn(FdView) -> bool, q: spec_fn(FdView) -> bool)
    requires
        forall|x: FdView| #[trigger] q(x) ==> p(x),
    ensures
        s.filter(p).filter(q) == s.filter(q),
    decreases s.len(),
{
    reveal(Seq::filter);
    if s.len() > 0 {
        lemma_filter_filter(s.drop_last(), p, q);
        let sp = s.drop_last().filter(p);
        if p(s.last()) {
            assert(s.filter(p) == sp.push(s.last()));
            assert(sp.push(s.last()).drop_last() =~= sp);
        }
    }
}

/// Copies of the dependencies of `fds`.
fn copy_fds(fds: &[FD]) -> (r: Vec<FD>)
    ensures
        fds_view(r@) == fds_view(fds@),
{
    let mut r: Vec<FD> = Vec::new();
    let mut i: usize = 0;
    while i < fds.len()
        invariant
            i <= fds@.len(),
            fds_view(r@) == fds_view(fds@).subrange(0, i as int),
        decreases fds@.len() - i,
    {
        let ghost before = fds_view(r@);
        let d = fds[i].duplicate();
        r.push(d);
        proof {
            assert(fds_view(r@) =~= before.push(fds@[i as int]@));
            assert(fds_view(r@) =~= fds_view(fds@).subrange(0, i as int + 1));
        }
        i += 1;
    }
    proof {
        assert(fds_view(fds@).subrange(0, i as int) =~= fds_view(fds@));
    }
    r
}

/// The dependencies of `fds` that lie within `a`, in order.
fn fds_within(fds: &Vec<FD>, a: &AttrSet) -> (r: Vec<FD>)
    ensures
        fds_view(r@) == fds_view(fds@).filter(within(a@)),
{
    let ghost fs = fds_view(fds@);
    let mut r: Vec<FD> = Vec::new();
    let mut i: usize = 0;
    while i < fds.len()
        invariant
            i <= fds@.len(),
            fs == fds_view(fds@),
            fds_view(r@) == fs.subrange(0, i as int).filter(within(a@)),
        decreases fds@.len() - i,
    {
        let ghost before = fds_view(r@);
        let fd = &fds[i];
        let keep = fd.lhs.is_subset(a) && fd.rhs.is_subset(a);
        proof {
            reveal(Seq::filter);
            assert(fs.subrange(0, i as int + 1).drop_last() =~= fs.subrange(0, i as int));
            assert(fs.subrange(0, i as int + 1).last() == fd@);
            assert(keep == within(a@)(fd@));
        }
        if keep {
            r.push(fd.duplicate());
            proof {
                assert(fds_view(r@) =~= before.push(fd@));
            }
        }
        i += 1;
    }
    proof {
        assert(fs.subrange(0, i as int) =~= fs);
    }
    r
}

/// Powers of three.
pub open spec fn pow3(n: nat) -> nat
    decreases n,
{
    if n == 0 {
        1
    } else {
        3 * pow3((n - 1) as nat)
    }
}

proof fn lemma_pow3_monotone(m: nat, n: nat)
    requires
        m <= n,
    ensures
        pow3(m) <= pow3(n),
        1 <= pow3(m),
    decreases n,
{
    if n > m {
        lemma_pow3_monotone(m, (n - 1) as nat);
    } else if n > 0 {
        lemma_pow3_monotone(0, (n - 1) as nat);
    }
}

/// Every dependency of `fs` lies within `a`.
pub open spec fn closed_in(fs: Seq<FdView>, a: Attrs) -> bool {
    forall|i: int| #![trigger fs[i]] 0 <= i < fs.len() ==> fd_within(fs[i], a)
}

/// What a pending relation weighs towards the end of the decomposition.
pub open spec fn item_weight(a: Attrs, fs: Seq<FdView>) -> nat {
    if closed_in(fs, a) {
        pow3(a.len())
    } else {
        pow3(a.union(fds_attrs(fs)).len() + 1)
    }
}

/// What the pending relations weigh together.
pub open spec fn queue_weight(q: Seq<(AttrSet, Vec<FD>)>) -> nat
    decreases q.len(),
{
    if q.len() == 0 {
        0
    } else {
        queue_weight(q.drop_last()) + item_weight(q.last().0@, fds_view(q.last().1@))
    }
}

/// A pending relation weighs something.
pub proof fn lemma_item_weight_pos(a: Attrs, fs: Seq<FdView>)
    ensures
        item_weight(a, fs) >= 1,
{
    lemma_pow3_monotone(0, a.len());
    lemma_pow3_monotone(0, a.union(fds_attrs(fs)).len() + 1);
}

/// Splitting a relation on a violating dependency gives two relations that
/// weigh less than it.
pub proof fn lemma_split_weighs_less(a: Attrs, fs: Seq<FdView>, i: int, r1: Attrs, f1: Seq<FdView>, r2: Attrs, f2: Seq<FdView>)
    requires
        a.finite(),
        forall|k: int| #![trigger fs[k]] 0 <= k < fs.len() ==> fs[k].0.finite() && fs[k].1.finite(),
        0 <= i < fs.len(),
        bcnf_violation(fs[i], a, fs),
        r1 == fs[i].0.union(fs[i].1),
        r2 == a.difference(fs[i].1),
        r2 != Set::<Seq<char>>::empty(),
        closed_in(f1, r1),
        closed_in(f2, r2),
    ensures
        item_weight(r1, f1) + item_weight(r2, f2) < item_weight(a, fs),
{
    let x = fs[i].0;
    let y = fs[i].1;
    lemma_fds_attrs(fs);
    let w = a.union(fds_attrs(fs));
    assert(fd_within(fs[i], fds_attrs(fs)));
    assert(r1.subset_of(w));
    assert(r2.subset_of(a));
    vstd::set_lib::lemma_len_subset(r1, w);
    vstd::set_lib::lemma_len_subset(r2, w);
    vstd::set_lib::lemma_len_subset(a, w);
    if closed_in(fs, a) {
        assert(fd_within(fs[i], a));
        let b = choose|b: Seq<char>| y.contains(b) && !x.contains(b);
        assert(!r2.contains(b) && a.contains(b));
        vstd::set_lib::lemma_len_subset(r2, a.remove(b));
        lemma_closure_least(x, fs);
        assert(r1.subset_of(attr_closure(x, fs)));
        assert(closed_under(a, fs));
        assert(attr_closure(x, fs).subset_of(a));
        if r1 == a {
            assert(attr_closure(x, fs) =~= a);
            if x == Set::<Seq<char>>::empty() {
                assert(r2 =~= Set::<Seq<char>>::empty());
            }
            assert(is_superkey(x, a, fs));
        }
        assert(exists|c: Seq<char>| a.contains(c) && !r1.contains(c)) by {
            if !(exists|c: Seq<char>| a.contains(c) && !r1.contains(c)) {
                assert(r1 =~= a);
            }
        }
        let c = choose|c: Seq<char>| a.contains(c) && !r1.contains(c);
        vstd::set_lib::lemma_len_subset(r1, a.remove(c));
        lemma_pow3_monotone(r1.len(), (a.len() - 1) as nat);
        lemma_pow3_monotone(r2.len(), (a.len() - 1) as nat);
        assert(pow3(a.len()) == 3 * pow3((a.len() - 1) as nat));
    } else {
        lemma_pow3_monotone(r1.len(), w.len());
        lemma_pow3_monotone(r2.len(), w.len());
    }
}

/// Every attribute of some relation of `items`.
pub open spec fn union_of(items: Seq<(AttrSet, Vec<FD>)>) -> Attrs {
    Set::new(|x: Seq<char>| exists|i: int| 0 <= i < items.len() && (#[trigger] items[i]).0@.contains(x))
}

/// A relation of the BCNF decomposition keeps the input's dependencies that
/// lie within it, or is the whole input untouched.
pub open spec fn bcnf_origin(a: Attrs, f: Seq<FdView>, fs: Seq<FdView>, all: Attrs) -> bool {
    f == fs.filter(within(a)) || (a == all && f == fs)
}

/// A relation of the BCNF decomposition as the specifications see it: its
/// attributes and its dependencies.
pub type BcnfItem = (Attrs, Seq<FdView>);

/// The pending or finished relations, as the specifications see them.
pub open spec fn bcnf_items(q: Seq<(AttrSet, Vec<FD>)>) -> Seq<BcnfItem> {
    q.map_values(|it: (AttrSet, Vec<FD>)| (it.0@, fds_view(it.1@)))
}

/// The relation's attributes and those of its dependencies are finite sets.
pub open spec fn item_finite(it: BcnfItem) -> bool {
    &&& it.0.finite()
    &&& forall|k: int| #![trigger it.1[k]] 0 <= k < it.1.len() ==> it.1[k].0.finite() && it.1[k].1.finite()
}

/// Every pending relation is finite.
pub open spec fn items_finite(q: Seq<BcnfItem>) -> bool {
    forall|j: int| #![trigger q[j]] 0 <= j < q.len() ==> item_finite(q[j])
}

/// What the pending relations weigh together.
pub open spec fn items_weight(q: Seq<BcnfItem>) -> nat
    decreases q.len(),
{
    if q.len() == 0 {
        0
    } else {
        items_weight(q.drop_last()) + item_weight(q.last().0, q.last().1)
    }
}

/// The two relations that splitting `a` on its dependency X → Y gives:
/// X ∪ Y and `a` without Y, each with the dependencies of `fs` within it.
pub open spec fn bcnf_halves(a: Attrs, fs: Seq<FdView>, i: int) -> (BcnfItem, BcnfItem) {
    let r1 = fs[i].0.union(fs[i].1);
    let r2 = a.difference(fs[i].1);
    ((r1, fs.filter(within(r1))), (r2, fs.filter(within(r2))))
}

/// What BCNF decomposition produces from the pending relations `q`, having
/// produced `res` so far: it takes the last pending relation; if it has a
/// dependency that breaks BCNF and splitting on the first such gives two
/// non-empty relations, both become pending in place of it; otherwise it is
/// produced as it is.
pub open spec fn bcnf_worklist(q: Seq<BcnfItem>, res: Seq<BcnfItem>) -> Seq<BcnfItem>
    decreases items_weight(q),
    when items_finite(q)
{
    if q.len() == 0 {
        res
    } else {
        let it = q.last();
        let rest = q.drop_last();
        proof {
            assert(q[q.len() - 1] == it);
            lemma_item_weight_pos(it.0, it.1);
        }
        if exists|i: int| first_violation(it.1, it.0, i) {
            let i = choose|i: int| first_violation(it.1, it.0, i);
            let (h1, h2) = bcnf_halves(it.0, it.1, i);
            if h1.0 != Set::<Seq<char>>::empty() && h2.0 != Set::<Seq<char>>::empty() {
                proof {
                    let nq = rest.push(h1).push(h2);
                    assert(nq.drop_last() =~= rest.push(h1));
                    assert(nq.drop_last().drop_last() =~= rest);
                    assert forall|k: int| #![trigger h1.1[k]] 0 <= k < h1.1.len() implies fd_within(h1.1[k], h1.0) by {
                        it.1.lemma_filter_pred(within(h1.0), k);
                    }
                    assert forall|k: int| #![trigger h2.1[k]] 0 <= k < h2.1.len() implies fd_within(h2.1[k], h2.0) by {
                        it.1.lemma_filter_pred(within(h2.0), k);
                    }
                    assert(item_finite(q[q.len() - 1]));
                    assert(first_violation(it.1, it.0, i));
                    lemma_split_weighs_less(it.0, it.1, i, h1.0, h1.1, h2.0, h2.1);
                    assert(items_weight(rest.push(h1)) == items_weight(rest) + item_weight(h1.0, h1.1));
                    assert(items_weight(nq) == items_weight(rest.push(h1)) + item_weight(h2.0, h2.1));
                    assert(items_weight(q) == items_weight(rest) + item_weight(it.0, it.1));
                }
                bcnf_worklist(rest.push(h1).push(h2), res)
            } else {
                bcnf_worklist(rest, res.push(it))
            }
        } else {
            bcnf_worklist(rest, res.push(it))
        }
    }
}

/// A relation has at most one first violating dependency.
proof fn lemma_first_violation_unique(fs: Seq<FdView>, a: Attrs, i: int, j: int)
    requires
        first_violation(fs, a, i),
        first_violation(fs, a, j),
    ensures
        i == j,
{
    if i < j {
        assert(!bcnf_violation(fs[i], a, fs));
    } else if j < i {
        assert(!bcnf_violation(fs[j], a, fs));
    }
}

/// A pending relation that is not split is produced as it is.
proof fn lemma_worklist_keep(q: Seq<BcnfItem>, res: Seq<BcnfItem>)
    requires
        q.len() > 0,
        items_finite(q),
        (forall|i: int| !first_violation(q.last().1, q.last().0, i)) || exists|i: int|
            first_violation(q.last().1, q.last().0, i) && (bcnf_halves(q.last().0, q.last().1, i).0.0
                == Set::<Seq<char>>::empty() || bcnf_halves(q.last().0, q.last().1, i).1.0 == Set::<Seq<char>>::empty()),
    ensures
        items_finite(q.drop_last()),
        bcnf_worklist(q, res) == bcnf_worklist(q.drop_last(), res.push(q.last())),
{
    let it = q.last();
    if exists|i: int| first_violation(it.1, it.0, i) {
        let i = choose|i: int| first_violation(it.1, it.0, i);
        let j = choose|j: int|
            first_violation(it.1, it.0, j) && (bcnf_halves(it.0, it.1, j).0.0 == Set::<Seq<char>>::empty()
                || bcnf_halves(it.0, it.1, j).1.0 == Set::<Seq<char>>::empty());
        lemma_first_violation_unique(it.1, it.0, i, j);
    }
    assert forall|j: int| #![trigger q.drop_last()[j]] 0 <= j < q.drop_last().len() implies item_finite(q.drop_last()[j]) by {
        assert(q.drop_last()[j] == q[j]);
    }
}

/// A pending relation that is split is replaced by its two halves.
proof fn lemma_worklist_split(q: Seq<BcnfItem>, res: Seq<BcnfItem>, i: int)
    requires
        q.len() > 0,
        items_finite(q),
        first_violation(q.last().1, q.last().0, i),
        bcnf_halves(q.last().0, q.last().1, i).0.0 != Set::<Seq<char>>::empty(),
        bcnf_halves(q.last().0, q.last().1, i).1.0 != Set::<Seq<char>>::empty(),
        item_finite(bcnf_halves(q.last().0, q.last().1, i).0),
        item_finite(bcnf_halves(q.last().0, q.last().1, i).1),
    ensures
        items_finite(q.drop_last().push(bcnf_halves(q.last().0, q.last().1, i).0).push(bcnf_halves(q.last().0, q.last().1, i).1)),
        bcnf_worklist(q, res) == bcnf_worklist(
            q.drop_last().push(bcnf_halves(q.last().0, q.last().1, i).0).push(bcnf_halves(q.last().0, q.last().1, i).1),
            res,
        ),
{
    let it = q.last();
    let k = choose|k: int| first_violation(it.1, it.0, k);
    lemma_first_violation_unique(it.1, it.0, i, k);
    let nq = q.drop_last().push(bcnf_halves(it.0, it.1, i).0).push(bcnf_halves(it.0, it.1, i).1);
    assert forall|j: int| #![trigger nq[j]] 0 <= j < nq.len() implies item_finite(nq[j]) by {
        if j < q.len() - 1 {
            assert(nq[j] == q[j]);
        }
    }
}

/// A row of an instance: a value for each attribute of its relation.
pub type Row = Map<Seq<char>, Seq<char>>;

/// The rows of `inst` cut down to the attributes `s`.
pub open spec fn project_rows(inst: Set<Row>, s: Attrs) -> Set<Row> {
    Set::new(|t: Row| exists|u: Row| #[trigger] inst.contains(u) && t == u.restrict(s))
}

/// The natural join of `p`, over the attributes `s1`, and `q`, over `s2`:
/// the rows over `s1 ∪ s2` whose parts lie in `p` and in `q`.
pub open spec fn join_rows_over(p: Set<Row>, s1: Attrs, q: Set<Row>, s2: Attrs) -> Set<Row> {
    Set::new(|t: Row| t.dom() == s1.union(s2) && p.contains(t.restrict(s1)) && q.contains(t.restrict(s2)))
}

/// The rows of `inst` satisfy the dependency: two rows that agree on its
/// determinant agree on its dependent attributes.
pub open spec fn satisfies(inst: Set<Row>, f: FdView) -> bool {
    forall|t1: Row, t2: Row|
        #[trigger] inst.contains(t1) && #[trigger] inst.contains(t2) && t1.restrict(f.0) == t2.restrict(f.0) ==> t1.restrict(f.1)
            == t2.restrict(f.1)
}

/// Splitting on a dependency X → Y whose sides are disjoint loses nothing:
/// for every instance of the relation that satisfies it, the natural join of
/// its projections onto the two halves, X ∪ Y and the relation without Y,
/// gives the instance back.
pub proof fn lemma_bcnf_split_lossless(inst: Set<Row>, a: Attrs, fs: Seq<FdView>, i: int)
    requires
        0 <= i < fs.len(),
        fd_within(fs[i], a),
        fs[i].0.disjoint(fs[i].1),
        forall|t: Row| #[trigger] inst.contains(t) ==> t.dom() == a,
        satisfies(inst, fs[i]),
    ensures
        join_rows_over(
            project_rows(inst, bcnf_halves(a, fs, i).0.0),
            bcnf_halves(a, fs, i).0.0,
            project_rows(inst, bcnf_halves(a, fs, i).1.0),
            bcnf_halves(a, fs, i).1.0,
        ) == inst,
{
    let x = fs[i].0;
    let y = fs[i].1;
    let s1 = x.union(y);
    let s2 = a.difference(y);
    assert(s1 == bcnf_halves(a, fs, i).0.0 && s2 == bcnf_halves(a, fs, i).1.0);
    let p = project_rows(inst, s1);
    let q = project_rows(inst, s2);
    let j = join_rows_over(p, s1, q, s2);
    assert(s1.union(s2) =~= a);
    assert forall|t: Row| #[trigger] inst.contains(t) implies j.contains(t) by {
        assert(p.contains(t.restrict(s1)));
        assert(q.contains(t.restrict(s2)));
    }
    assert forall|t: Row| #[trigger] j.contains(t) implies inst.contains(t) by {
        let u1 = choose|u: Row| #[trigger] inst.contains(u) && t.restrict(s1) == u.restrict(s1);
        let u2 = choose|u: Row| #[trigger] inst.contains(u) && t.restrict(s2) == u.restrict(s2);
        assert(u1.restrict(x) =~= t.restrict(x)) by {
            assert forall|k: Seq<char>| x.contains(k) implies u1.dom().contains(k) == t.dom().contains(k) && (u1.dom().contains(k) ==> u1[k] == t[k]) by {
                assert(s1.contains(k));
                assert(t.restrict(s1).dom().contains(k) == u1.restrict(s1).dom().contains(k));
                if t.dom().contains(k) {
                    assert(t.restrict(s1)[k] == u1.restrict(s1)[k]);
                }
            }
        }
        assert(u2.restrict(x) =~= t.restrict(x)) by {
            assert forall|k: Seq<char>| x.contains(k) implies u2.dom().contains(k) == t.dom().contains(k) && (u2.dom().contains(k) ==> u2[k] == t[k]) by {
                assert(s2.contains(k));
                assert(t.restrict(s2).dom().contains(k) == u2.restrict(s2).dom().contains(k));
                if t.dom().contains(k) {
                    assert(t.restrict(s2)[k] == u2.restrict(s2)[k]);
                }
            }
        }
        assert(u1.restrict(y) == u2.restrict(y));
        assert forall|k: Seq<char>| #[trigger] t.dom().contains(k) implies u2.dom().contains(k) && t[k] == u2[k] by {
            if y.contains(k) {
                assert(s1.contains(k));
                assert(t.restrict(s1)[k] == u1.restrict(s1)[k]);
                assert(u1.restrict(y)[k] == u2.restrict(y)[k]);
            } else {
                assert(s2.contains(k));
                assert(t.restrict(s2)[k] == u2.restrict(s2)[k]);
            }
        }
        assert(t =~= u2);
    }
    assert(j =~= inst);
}

/// Every attribute of any of `comps`.
pub open spec fn attrs_union(comps: Seq<Attrs>) -> Attrs {
    Set::new(|x: Seq<char>| exists|j: int| 0 <= j < comps.len() && #[trigger] comps[j].contains(x))
}

/// The natural join of the projections of `inst` onto each of `comps`: the
/// rows over all their attributes whose part on each of them is a row of
/// that projection.
pub open spec fn join_projections(inst: Set<Row>, comps: Seq<Attrs>) -> Set<Row> {
    Set::new(
        |t: Row|
            t.dom() == attrs_union(comps) && forall|j: int|
                0 <= j < comps.len() ==> #[trigger] project_rows(inst, comps[j]).contains(t.restrict(comps[j])),
    )
}

/// The attributes of each relation of `items`.
pub open spec fn bcnf_components(items: Seq<BcnfItem>) -> Seq<Attrs> {
    items.map_values(|it: BcnfItem| it.0)
}

/// `inst` is an instance over `all` that satisfies every dependency of `fs`.
pub open spec fn instance_of(inst: Set<Row>, all: Attrs, fs: Seq<FdView>) -> bool {
    &&& forall|t: Row| #[trigger] inst.contains(t) ==> t.dom() == all
    &&& forall|k: int| 0 <= k < fs.len() ==> #[trigger] satisfies(inst, fs[k])
}

/// Every dependency of `fs` lies within `all`, and none names an attribute
/// on both of its sides.
pub open spec fn split_safe(fs: Seq<FdView>, all: Attrs) -> bool {
    &&& closed_in(fs, all)
    &&& forall|k: int| 0 <= k < fs.len() ==> (#[trigger] fs[k]).0.disjoint(fs[k].1)
}

/// A row over `all` that agrees with rows of `inst` on every one of `comps`.
spec fn fits(inst: Set<Row>, comps: Seq<Attrs>, t: Row) -> bool {
    forall|c: Attrs| comps.contains(c) ==> #[trigger] project_rows(inst, c).contains(t.restrict(c))
}

/// A pending relation lies within `all`, and its dependencies are
/// dependencies of `fs` that lie within it.
spec fn item_from(it: BcnfItem, fs: Seq<FdView>, all: Attrs) -> bool {
    &&& it.0.subset_of(all)
    &&& closed_in(it.1, it.0)
    &&& forall|k: int| 0 <= k < it.1.len() ==> fs.contains(#[trigger] it.1[k])
}

/// Joining on X ∪ Y and on `a` without Y gives back the projection on `a`,
/// when the instance satisfies X → Y and X, Y are disjoint within `a`.
proof fn lemma_join_step(inst: Set<Row>, all: Attrs, t: Row, a: Attrs, f: FdView)
    requires
        forall|u: Row| #[trigger] inst.contains(u) ==> u.dom() == all,
        a.subset_of(all),
        fd_within(f, a),
        f.0.disjoint(f.1),
        satisfies(inst, f),
        t.dom() == all,
        project_rows(inst, f.0.union(f.1)).contains(t.restrict(f.0.union(f.1))),
        project_rows(inst, a.difference(f.1)).contains(t.restrict(a.difference(f.1))),
    ensures
        project_rows(inst, a).contains(t.restrict(a)),
{
    let x = f.0;
    let y = f.1;
    let s1 = x.union(y);
    let s2 = a.difference(y);
    let u1 = choose|u: Row| #[trigger] inst.contains(u) && t.restrict(s1) == u.restrict(s1);
    let u2 = choose|u: Row| #[trigger] inst.contains(u) && t.restrict(s2) == u.restrict(s2);
    assert(u1.restrict(x) =~= u2.restrict(x)) by {
        assert forall|k: Seq<char>| x.contains(k) implies u1.dom().contains(k) && u2.dom().contains(k) && u1[k] == u2[k] by {
            assert(s1.contains(k) && s2.contains(k));
            assert(t.restrict(s1)[k] == u1.restrict(s1)[k]);
            assert(t.restrict(s2)[k] == u2.restrict(s2)[k]);
        }
    }
    assert(u1.restrict(y) == u2.restrict(y));
    assert(t.restrict(a) =~= u2.restrict(a)) by {
        assert forall|k: Seq<char>| a.contains(k) implies t.dom().contains(k) && u2.dom().contains(k) && t[k] == u2[k] by {
            if y.contains(k) {
                assert(t.restrict(s1)[k] == u1.restrict(s1)[k]);
                assert(u1.restrict(y)[k] == u2.restrict(y)[k]);
            } else {
                assert(t.restrict(s2)[k] == u2.restrict(s2)[k]);
            }
        }
    }
}

/// While decomposing, the rows over `all` that agree with the instance on
/// every pending and produced relation are exactly its rows, and those
/// relations cover `all`; so it is at the end.
proof fn lemma_worklist_joins(inst: Set<Row>, all: Attrs, fs: Seq<FdView>, q: Seq<BcnfItem>, res: Seq<BcnfItem>)
    requires
        items_finite(q),
        instance_of(inst, all, fs),
        split_safe(fs, all),
        forall|j: int| 0 <= j < q.len() ==> item_from(#[trigger] q[j], fs, all),
        attrs_union(bcnf_components(res + q)) == all,
        forall|t: Row| t.dom() == all && #[trigger] fits(inst, bcnf_components(res + q), t) ==> inst.contains(t),
    ensures
        attrs_union(bcnf_components(bcnf_worklist(q, res))) == all,
        forall|t: Row|
            t.dom() == all && #[trigger] fits(inst, bcnf_components(bcnf_worklist(q, res)), t) ==> inst.contains(t),
    decreases items_weight(q),
{
    if q.len() == 0 {
        assert(res + q =~= res);
    } else {
        let it = q.last();
        let rest = q.drop_last();
        let old_c = bcnf_components(res + q);
        assert(q[q.len() - 1] == it);
        assert(item_from(it, fs, all));
        lemma_item_weight_pos(it.0, it.1);
        let mut split = false;
        if exists|i: int| first_violation(it.1, it.0, i) {
            let i = choose|i: int| first_violation(it.1, it.0, i);
            let (h1, h2) = bcnf_halves(it.0, it.1, i);
            if h1.0 != Set::<Seq<char>>::empty() && h2.0 != Set::<Seq<char>>::empty() {
                split = true;
                let f = it.1[i];
                assert(fd_within(f, it.0));
                assert(fs.contains(f));
                let kf = choose|kf: int| 0 <= kf < fs.len() && fs[kf] == f;
                assert(satisfies(inst, fs[kf]) && fs[kf].0.disjoint(fs[kf].1));
                let nq = rest.push(h1).push(h2);
                assert(nq.drop_last() =~= rest.push(h1));
                assert(nq.drop_last().drop_last() =~= rest);
                assert forall|k: int| #![trigger h1.1[k]] 0 <= k < h1.1.len() implies fd_within(h1.1[k], h1.0) && it.1.contains(h1.1[k]) by {
                    it.1.lemma_filter_pred(within(h1.0), k);
                    assert(it.1.filter(within(h1.0)).contains(h1.1[k]));
                    it.1.lemma_filter_contains_rev(within(h1.0), h1.1[k]);
                }
                assert forall|k: int| #![trigger h2.1[k]] 0 <= k < h2.1.len() implies fd_within(h2.1[k], h2.0) && it.1.contains(h2.1[k]) by {
                    it.1.lemma_filter_pred(within(h2.0), k);
                    assert(it.1.filter(within(h2.0)).contains(h2.1[k]));
                    it.1.lemma_filter_contains_rev(within(h2.0), h2.1[k]);
                }
                assert(item_finite(q[q.len() - 1]));
                lemma_split_weighs_less(it.0, it.1, i, h1.0, h1.1, h2.0, h2.1);
                assert(items_weight(rest.push(h1)) == items_weight(rest) + item_weight(h1.0, h1.1));
                assert(items_weight(nq) == items_weight(rest.push(h1)) + item_weight(h2.0, h2.1));
                assert(items_weight(q) == items_weight(rest) + item_weight(it.0, it.1));
                assert forall|j: int| 0 <= j < nq.len() implies item_from(#[trigger] nq[j], fs, all) && item_finite(nq[j]) by {
                    if j < rest.len() {
                        assert(nq[j] == q[j]);
                    } else if j == rest.len() {
                        assert(nq[j] == h1);
                        assert forall|k: int| 0 <= k < h1.1.len() implies fs.contains(#[trigger] h1.1[k]) by {
                            let m = choose|m: int| 0 <= m < it.1.len() && it.1[m] == h1.1[k];
                        }
                        assert forall|k: int| #![trigger h1.1[k]] 0 <= k < h1.1.len() implies h1.1[k].0.finite() && h1.1[k].1.finite() by {
                            let m = choose|m: int| 0 <= m < it.1.len() && it.1[m] == h1.1[k];
                        }
                    } else {
                        assert(nq[j] == h2);
                        assert forall|k: int| 0 <= k < h2.1.len() implies fs.contains(#[trigger] h2.1[k]) by {
                            let m = choose|m: int| 0 <= m < it.1.len() && it.1[m] == h2.1[k];
                        }
                        assert forall|k: int| #![trigger h2.1[k]] 0 <= k < h2.1.len() implies h2.1[k].0.finite() && h2.1[k].1.finite() by {
                            let m = choose|m: int| 0 <= m < it.1.len() && it.1[m] == h2.1[k];
                        }
                    }
                }
                let new_c = bcnf_components(res + nq);
                assert(new_c =~= bcnf_components(res + rest).push(h1.0).push(h2.0));
                assert(old_c =~= bcnf_components(res + rest).push(it.0));
                assert forall|x: Seq<char>| #[trigger] attrs_union(new_c).contains(x) <==> attrs_union(old_c).contains(x) by {
                    if attrs_union(new_c).contains(x) {
                        let j = choose|j: int| 0 <= j < new_c.len() && #[trigger] new_c[j].contains(x);
                        if j < new_c.len() - 2 {
                            assert(old_c[j] == new_c[j]);
                        } else {
                            assert(it.0.contains(x));
                            assert(old_c[old_c.len() - 1].contains(x));
                        }
                    }
                    if attrs_union(old_c).contains(x) {
                        let j = choose|j: int| 0 <= j < old_c.len() && #[trigger] old_c[j].contains(x);
                        if j < old_c.len() - 1 {
                            assert(old_c[j] == new_c[j]);
                        } else if f.1.contains(x) {
                            assert(new_c[new_c.len() - 2].contains(x));
                        } else {
                            assert(old_c[old_c.len() - 1] == it.0);
                            assert(new_c[new_c.len() - 1].contains(x));
                        }
                    }
                }
                assert(attrs_union(new_c) =~= attrs_union(old_c));
                assert forall|t: Row| t.dom() == all && #[trigger] fits(inst, new_c, t) implies inst.contains(t) by {
                    assert(new_c.contains(h1.0) && new_c.contains(h2.0)) by {
                        assert(new_c[new_c.len() - 2] == h1.0);
                        assert(new_c[new_c.len() - 1] == h2.0);
                    }
                    lemma_join_step(inst, all, t, it.0, f);
                    assert forall|c: Attrs| old_c.contains(c) implies #[trigger] project_rows(inst, c).contains(t.restrict(c)) by {
                        let j = choose|j: int| 0 <= j < old_c.len() && old_c[j] == c;
                        if j < old_c.len() - 1 {
                            assert(new_c[j] == c);
                        } else {
                            assert(old_c[old_c.len() - 1] == it.0);
                        }
                    }
                    assert(fits(inst, old_c, t));
                }
                lemma_worklist_joins(inst, all, fs, nq, res);
            }
        }
        if !split {
            lemma_worklist_keep(q, res);
            let nres = res.push(it);
            let new_c = bcnf_components(nres + rest);
            let cr = bcnf_components(res);
            let cs = bcnf_components(rest);
            assert(new_c =~= cr.push(it.0) + cs);
            assert(old_c =~= cr + cs.push(it.0)) by {
                assert(res + q =~= res + rest.push(it));
            }
            assert forall|c: Attrs| #[trigger] new_c.contains(c) <==> old_c.contains(c) by {
                if new_c.contains(c) {
                    let j = choose|j: int| 0 <= j < new_c.len() && new_c[j] == c;
                    if j < cr.len() {
                        assert(old_c[j] == c);
                    } else if j == cr.len() {
                        assert(old_c[old_c.len() - 1] == c);
                    } else {
                        assert(old_c[j - 1] == c);
                    }
                }
                if old_c.contains(c) {
                    let j = choose|j: int| 0 <= j < old_c.len() && old_c[j] == c;
                    if j < cr.len() {
                        assert(new_c[j] == c);
                    } else if j == old_c.len() - 1 {
                        assert(new_c[cr.len() as int] == c);
                    } else {
                        assert(new_c[j + 1] == c);
                    }
                }
            }
            assert forall|x: Seq<char>| #[trigger] attrs_union(new_c).contains(x) <==> attrs_union(old_c).contains(x) by {
                if attrs_union(new_c).contains(x) {
                    let j = choose|j: int| 0 <= j < new_c.len() && #[trigger] new_c[j].contains(x);
                    assert(new_c.contains(new_c[j]));
                    let j2 = choose|j2: int| 0 <= j2 < old_c.len() && old_c[j2] == new_c[j];
                    assert(old_c[j2].contains(x));
                }
                if attrs_union(old_c).contains(x) {
                    let j = choose|j: int| 0 <= j < old_c.len() && #[trigger] old_c[j].contains(x);
                    assert(old_c.contains(old_c[j]));
                    assert(new_c.contains(old_c[j]));
                    let j2 = choose|j2: int| 0 <= j2 < new_c.len() && new_c[j2] == old_c[j];
                    assert(new_c[j2].contains(x));
                }
            }
            assert(attrs_union(new_c) =~= attrs_union(old_c));
            assert forall|t: Row| t.dom() == all && #[trigger] fits(inst, new_c, t) implies inst.contains(t) by {
                assert(fits(inst, old_c, t));
            }
            assert forall|j: int| 0 <= j < rest.len() implies item_from(#[trigger] rest[j], fs, all) by {
                assert(rest[j] == q[j]);
            }
            lemma_worklist_joins(inst, all, fs, rest, nres);
        }
    }
}

/// BCNF decomposition loses nothing when no dependency names an attribute
/// on both of its sides: for every instance over `all` that satisfies the
/// dependencies, the natural join of its projections onto the produced
/// relations gives the instance back.
pub proof fn lemma_bcnf_lossless(all: Attrs, fs: Seq<FdView>, inst: Set<Row>)
    requires
        item_finite((all, fs)),
        split_safe(fs, all),
        instance_of(inst, all, fs),
    ensures
        join_projections(inst, bcnf_components(bcnf_worklist(seq![(all, fs)], Seq::<BcnfItem>::empty()))) == inst,
{
    let q0 = seq![(all, fs)];
    let e = Seq::<BcnfItem>::empty();
    let c0 = bcnf_components(e + q0);
    assert(c0 =~= seq![all]);
    assert(attrs_union(c0) =~= all) by {
        assert forall|x: Seq<char>| all.contains(x) implies attrs_union(c0).contains(x) by {
            assert(c0[0].contains(x));
        }
    }
    assert forall|t: Row| t.dom() == all && #[trigger] fits(inst, c0, t) implies inst.contains(t) by {
        assert(c0.contains(all)) by {
            assert(c0[0] == all);
        }
        assert(project_rows(inst, all).contains(t.restrict(all)));
        let u = choose|u: Row| #[trigger] inst.contains(u) && t.restrict(all) == u.restrict(all);
        assert(t.restrict(all) =~= t);
        assert(u.restrict(all) =~= u);
    }
    assert(item_from(q0[0], fs, all)) by {
        assert forall|k: int| 0 <= k < fs.len() implies fs.contains(#[trigger] fs[k]) by {
        }
    }
    assert(items_finite(q0)) by {
        assert(q0[0] == (all, fs));
    }
    lemma_worklist_joins(inst, all, fs, q0, e);
    let w = bcnf_worklist(q0, e);
    let cw = bcnf_components(w);
    let jp = join_projections(inst, cw);
    assert forall|t: Row| #[trigger] jp.contains(t) <==> inst.contains(t) by {
        if jp.contains(t) {
            assert forall|c: Attrs| cw.contains(c) implies #[trigger] project_rows(inst, c).contains(t.restrict(c)) by {
                let j = choose|j: int| 0 <= j < cw.len() && cw[j] == c;
            }
            assert(fits(inst, cw, t));
        }
        if inst.contains(t) {
            assert forall|j: int| 0 <= j < cw.len() implies #[trigger] project_rows(inst, cw[j]).contains(t.restrict(cw[j])) by {
            }
        }
    }
    assert(jp =~= inst);
}

/// BCNF decomposition: while some pending relation has a dependency X → Y
/// that breaks BCNF, it is replaced by X ∪ Y and by itself without Y, each
/// with the dependencies that lie within it; a relation that cannot be split
/// so is kept as it is.
#[verifier::spinoff_prover]
#[verifier::rlimit(60)]
pub fn decompose_bcnf(all_attrs: &AttrSet, fds: &[FD]) -> (r: Vec<(AttrSet, Vec<FD>)>)
    requires
        all_attrs@.len() < 32,
    ensures
        forall|i: int| #![trigger r@[i]] 0 <= i < r@.len() ==> bcnf_result(fds_view(r@[i].1@), r@[i].0@),
        forall|i: int| #![trigger r@[i]] 0 <= i < r@.len() ==> bcnf_origin(r@[i].0@, fds_view(r@[i].1@), fds_view(fds@), all_attrs@),
        all_attrs@.subset_of(union_of(r@)),
        bcnf_items(r@) == bcnf_worklist(seq![(all_attrs@, fds_view(fds@))], Seq::<BcnfItem>::empty()),
        closed_in(fds_view(fds@), all_attrs@) ==> forall|i: int| #![trigger r@[i]] 0 <= i < r@.len() ==> r@[i].0@.subset_of(all_attrs@),
        split_safe(fds_view(fds@), all_attrs@) ==> forall|inst: Set<Row>|
            #[trigger] instance_of(inst, all_attrs@, fds_view(fds@)) ==> join_projections(inst, bcnf_components(bcnf_items(r@)))
                == inst,
{
    let ghost fs = fds_view(fds@);
    let ghost all = all_attrs@;
    let mut result: Vec<(AttrSet, Vec<FD>)> = Vec::new();
    let mut queue: Vec<(AttrSet, Vec<FD>)> = Vec::new();
    queue.push((all_attrs.duplicate(), copy_fds(fds)));
    let ghost target = bcnf_worklist(seq![(all, fs)], Seq::<BcnfItem>::empty());
    proof {
        assert forall|x: Seq<char>| all.contains(x) implies union_of(queue@).contains(x) by {
            assert(queue@[0].0@.contains(x));
        }
        lemma_fds_finite(fds@);
        lemma_attrset_finite(*all_attrs);
        assert(bcnf_items(queue@) =~= seq![(all, fs)]);
        assert(bcnf_items(result@) =~= Seq::<BcnfItem>::empty());
        assert(item_finite(bcnf_items(queue@)[0]));
    }
    while queue.len() > 0
        invariant
            fs == fds_view(fds@),
            all == all_attrs@,
            items_finite(bcnf_items(queue@)),
            bcnf_worklist(bcnf_items(queue@), bcnf_items(result@)) == target,
            closed_in(fs, all) ==> forall|i: int| #![trigger queue@[i]] 0 <= i < queue@.len() ==> queue@[i].0@.subset_of(all),
            closed_in(fs, all) ==> forall|i: int| #![trigger result@[i]] 0 <= i < result@.len() ==> result@[i].0@.subset_of(all),
            forall|i: int| #![trigger queue@[i]] 0 <= i < queue@.len() ==> bcnf_origin(queue@[i].0@, fds_view(queue@[i].1@), fs, all),
            forall|i: int| #![trigger result@[i]] 0 <= i < result@.len() ==> bcnf_origin(result@[i].0@, fds_view(result@[i].1@), fs, all),
            forall|i: int| #![trigger result@[i]] 0 <= i < result@.len() ==> bcnf_result(fds_view(result@[i].1@), result@[i].0@),
            all.subset_of(union_of(queue@).union(union_of(result@))),
        decreases queue_weight(queue@),
    {
        let ghost old_q = queue@;
        let ghost old_res = result@;
        let ghost rest = queue@.drop_last();
        let popped = queue.pop();
        match popped {
            Some(item) => {
                let (attrs, rel_fds) = item;
                let ghost a = attrs@;
                let ghost fv = fds_view(rel_fds@);
                proof {
                    assert(queue@ == rest);
                    assert(old_q.last() == (attrs, rel_fds));
                    assert(bcnf_origin(a, fv, fs, all)) by {
                        assert(old_q[old_q.len() - 1] == old_q.last());
                    }
                    lemma_fds_finite(rel_fds@);
                    assert(queue_weight(old_q) == queue_weight(rest) + item_weight(a, fv));
                    lemma_item_weight_pos(a, fv);
                    let qq = bcnf_items(old_q);
                    assert(qq.last() == (a, fv)) by {
                        assert(qq[qq.len() - 1] == (old_q[old_q.len() - 1].0@, fds_view(old_q[old_q.len() - 1].1@)));
                    }
                    assert(qq.drop_last() =~= bcnf_items(rest));
                    if closed_in(fs, all) {
                        assert(a.subset_of(all)) by {
                            assert(old_q[old_q.len() - 1] == old_q.last());
                        }
                    }
                }
                let sks = superkeys(rel_fds.as_slice(), &attrs);
                let mut vi: Option<usize> = None;
                let mut j: usize = 0;
                while j < rel_fds.len()
                    invariant_except_break
                        vi is None,
                    invariant
                        j <= rel_fds@.len(),
                        fv == fds_view(rel_fds@),
                        a == attrs@,
                        forall|s: Attrs| sets_view(sks@).contains(s) <==> is_superkey(s, a, fv),
                        forall|jj: int| 0 <= jj < j ==> !bcnf_violation(#[trigger] fv[jj], a, fv),
                    ensures
                        match vi {
                            Some(i) => first_violation(fv, a, i as int),
                            None => forall|jj: int| 0 <= jj < fv.len() ==> !bcnf_violation(#[trigger] fv[jj], a, fv),
                        },
                    decreases rel_fds@.len() - j,
                {
                    let fd = &rel_fds[j];
                    proof {
                        assert(fv[j as int] == fd@);
                    }
                    if !fd.is_trivial() && !contains_set(&sks, &fd.lhs) {
                        vi = Some(j);
                        break;
                    }
                    j += 1;
                }
                match vi {
                    None => {
                        proof {
                            assert forall|k: int| !first_violation(fv, a, k) by {
                                if 0 <= k < fv.len() {
                                    assert(!bcnf_violation(fv[k], a, fv));
                                }
                            }
                            lemma_worklist_keep(bcnf_items(old_q), bcnf_items(old_res));
                        }
                        result.push((attrs, rel_fds));
                        proof {
                            assert(bcnf_items(result@) =~= bcnf_items(old_res).push((a, fv)));
                            assert(result@ == old_res.push(result@.last()));
                            if closed_in(fs, all) {
                                assert forall|k: int| #![trigger result@[k]] 0 <= k < result@.len() implies result@[k].0@.subset_of(all) by {
                                    if k < old_res.len() {
                                        assert(result@[k] == old_res[k]);
                                    }
                                }
                                assert forall|k: int| #![trigger queue@[k]] 0 <= k < queue@.len() implies queue@[k].0@.subset_of(all) by {
                                    assert(queue@[k] == old_q[k]);
                                }
                            }
                            assert forall|i: int| #![trigger result@[i]] 0 <= i < result@.len() implies bcnf_result(fds_view(result@[i].1@), result@[i].0@)
                                && bcnf_origin(result@[i].0@, fds_view(result@[i].1@), fs, all) by {
                                if i < old_res.len() {
                                    assert(result@[i] == old_res[i]);
                                }
                            }
                            assert forall|x: Seq<char>| all.contains(x) implies union_of(queue@).union(union_of(result@)).contains(x) by {
                                if union_of(old_res).contains(x) {
                                    let i = choose|i: int| 0 <= i < old_res.len() && (#[trigger] old_res[i]).0@.contains(x);
                                    assert(result@[i] == old_res[i]);
                                } else {
                                    let i = choose|i: int| 0 <= i < old_q.len() && (#[trigger] old_q[i]).0@.contains(x);
                                    if i < rest.len() {
                                        assert(queue@[i] == old_q[i]);
                                    } else {
                                        assert(result@[old_res.len() as int].0@.contains(x));
                                    }
                                }
                            }
                        }
                    },
                    Some(i) => {
                        let ghost x = fv[i as int].0;
                        let ghost y = fv[i as int].1;
                        proof {
                            assert(fv[i as int] == rel_fds@[i as int]@);
                        }
                        let r1 = rel_fds[i].lhs.union(&rel_fds[i].rhs);
                        let r2 = attrs.difference(&rel_fds[i].rhs);
                        let r1_fds = fds_within(&rel_fds, &r1);
                        let r2_fds = fds_within(&rel_fds, &r2);
                        let ghost b = choose|b: Seq<char>| y.contains(b) && !x.contains(b);
                        proof {
                            assert(r1@.contains(b));
                            assert forall|k: int| #![trigger fds_view(r1_fds@)[k]] 0 <= k < fds_view(r1_fds@).len() implies fd_within(fds_view(r1_fds@)[k], r1@) by {
                                fv.lemma_filter_pred(within(r1@), k);
                            }
                            assert forall|k: int| #![trigger fds_view(r2_fds@)[k]] 0 <= k < fds_view(r2_fds@).len() implies fd_within(fds_view(r2_fds@)[k], r2@) by {
                                fv.lemma_filter_pred(within(r2@), k);
                            }
                            if fv != fs || a != all {
                                assert(fv == fs.filter(within(a)));
                                assert(fd_within(fv[i as int], a)) by {
                                    fs.lemma_filter_pred(within(a), i as int);
                                }
                                lemma_filter_filter(fs, within(a), within(r1@));
                                lemma_filter_filter(fs, within(a), within(r2@));
                            }
                            assert(bcnf_origin(r1@, fds_view(r1_fds@), fs, all));
                            assert(bcnf_origin(r2@, fds_view(r2_fds@), fs, all));
                            if closed_in(fs, all) {
                                if fv == fs.filter(within(a)) {
                                    fs.lemma_filter_pred(within(a), i as int);
                                } else {
                                    assert(fs[i as int] == fv[i as int]);
                                }
                                assert(r1@.subset_of(all));
                                assert(r2@.subset_of(all));
                            }
                            assert(bcnf_halves(a, fv, i as int) == ((r1@, fds_view(r1_fds@)), (r2@, fds_view(r2_fds@))));
                        }
                        if !r1.is_empty() && !r2.is_empty() {
                            proof {
                                lemma_attrset_finite(r1);
                                lemma_attrset_finite(r2);
                                lemma_fds_finite(r1_fds@);
                                lemma_fds_finite(r2_fds@);
                                lemma_worklist_split(bcnf_items(old_q), bcnf_items(old_res), i as int);
                            }
                            queue.push((r1, r1_fds));
                            queue.push((r2, r2_fds));
                            proof {
                                assert(bcnf_items(queue@) =~= bcnf_items(rest).push((r1@, fds_view(r1_fds@))).push((r2@, fds_view(r2_fds@))));
                                if closed_in(fs, all) {
                                    assert forall|k: int| #![trigger queue@[k]] 0 <= k < queue@.len() implies queue@[k].0@.subset_of(all) by {
                                        if k < rest.len() {
                                            assert(queue@[k] == old_q[k]);
                                        }
                                    }
                                }
                                lemma_split_weighs_less(a, fv, i as int, queue@[rest.len() as int].0@, fds_view(queue@[rest.len() as int].1@),
                                    queue@[rest.len() as int + 1].0@, fds_view(queue@[rest.len() as int + 1].1@));
                                assert(queue@.drop_last() == rest.push(queue@[rest.len() as int]));
                                assert(queue@.drop_last().drop_last() == rest);
                                assert(queue_weight(queue@.drop_last()) == queue_weight(rest) + item_weight(queue@[rest.len() as int].0@, fds_view(queue@[rest.len() as int].1@)));
                                assert(queue_weight(queue@) == queue_weight(queue@.drop_last()) + item_weight(queue@[rest.len() as int + 1].0@, fds_view(queue@[rest.len() as int + 1].1@)));
                                assert(old_q.drop_last() == rest);
                                assert forall|k: int| #![trigger queue@[k]] 0 <= k < queue@.len() implies bcnf_origin(queue@[k].0@, fds_view(queue@[k].1@), fs, all) by {
                                    if k < rest.len() {
                                        assert(queue@[k] == old_q[k]);
                                    }
                                }
                                assert forall|z: Seq<char>| all.contains(z) implies union_of(queue@).union(union_of(result@)).contains(z) by {
                                    if !union_of(result@).contains(z) {
                                        let k = choose|k: int| 0 <= k < old_q.len() && (#[trigger] old_q[k]).0@.contains(z);
                                        if k < rest.len() {
                                            assert(queue@[k] == old_q[k]);
                                        } else if y.contains(z) {
                                            assert(queue@[rest.len() as int].0@.contains(z));
                                        } else {
                                            assert(queue@[rest.len() as int + 1].0@.contains(z));
                                        }
                                    }
                                }
                            }
                        } else {
                            proof {
                                assert(r2@ =~= Set::<Seq<char>>::empty());
                                assert(a.subset_of(y)) by {
                                    assert forall|z: Seq<char>| a.contains(z) implies y.contains(z) by {
                                        if !y.contains(z) {
                                            assert(r2@.contains(z));
                                        }
                                    }
                                }
                                assert(first_violation(fv, a, i as int));
                                lemma_worklist_keep(bcnf_items(old_q), bcnf_items(old_res));
                            }
                            result.push((attrs, rel_fds));
                            proof {
                                assert(bcnf_items(result@) =~= bcnf_items(old_res).push((a, fv)));
                                if closed_in(fs, all) {
                                    assert forall|k: int| #![trigger result@[k]] 0 <= k < result@.len() implies result@[k].0@.subset_of(all) by {
                                        if k < old_res.len() {
                                            assert(result@[k] == old_res[k]);
                                        }
                                    }
                                    assert forall|k: int| #![trigger queue@[k]] 0 <= k < queue@.len() implies queue@[k].0@.subset_of(all) by {
                                        assert(queue@[k] == old_q[k]);
                                    }
                                }
                                assert(result@ == old_res.push(result@.last()));
                                assert forall|k: int| #![trigger result@[k]] 0 <= k < result@.len() implies bcnf_result(fds_view(result@[k].1@), result@[k].0@)
                                    && bcnf_origin(result@[k].0@, fds_view(result@[k].1@), fs, all) by {
                                    if k < old_res.len() {
                                        assert(result@[k] == old_res[k]);
                                    }
                                }
                                assert forall|z: Seq<char>| all.contains(z) implies union_of(queue@).union(union_of(result@)).contains(z) by {
                                    if union_of(old_res).contains(z) {
                                        let k = choose|k: int| 0 <= k < old_res.len() && (#[trigger] old_res[k]).0@.contains(z);
                                        assert(result@[k] == old_res[k]);
                                    } else {
                                        let k = choose|k: int| 0 <= k < old_q.len() && (#[trigger] old_q[k]).0@.contains(z);
                                        if k < rest.len() {
                                            assert(queue@[k] == old_q[k]);
                                        } else {
                                            assert(result@[old_res.len() as int].0@.contains(z));
                                        }
                                    }
                                }
                            }
                        }
                    },
                }
            },
            None => {
            },
        }
    }
    proof {
        assert(union_of(queue@) =~= Set::<Seq<char>>::empty());
        assert(bcnf_items(queue@) =~= Seq::<BcnfItem>::empty());
        if split_safe(fs, all) {
            lemma_fds_finite(fds@);
            lemma_attrset_finite(*all_attrs);
            assert forall|inst: Set<Row>| #[trigger] instance_of(inst, all, fs) implies join_projections(
                inst,
                bcnf_components(bcnf_items(result@)),
            ) == inst by {
                lemma_bcnf_lossless(all, fs, inst);
            }
        }
    }
    result
}

} // verus!
