//! Relational algebra: values, tuples and relations, with selection,
//! projection, joins, union, difference, intersection and renaming.

use vstd::prelude::*;
use crate::attrset::lemma_filter_prefix_step;
use crate::strmap::StrMap;

verus! {

/// A single value in a relation. A floating-point number is held as its
/// IEEE-754 bit pattern.
#[derive(Debug)]
pub enum Value {
    Int(i64),
    Float(u64),
    Text(String),
    Bool(bool),
    Null,
}

/// The bit pattern is a NaN: all exponent bits set, a nonzero fraction.
pub open spec fn float_is_nan(b: u64) -> bool {
    b & 0x7ff0_0000_0000_0000u64 == 0x7ff0_0000_0000_0000u64 && b & 0x000f_ffff_ffff_ffffu64 != 0
}

/// Floating-point equality on bit patterns: no NaN equals anything, the two
/// zeros are equal, and otherwise equal patterns are equal numbers.
pub open spec fn float_bits_eq(a: u64, b: u64) -> bool {
    !float_is_nan(a) && !float_is_nan(b) && (a == b || (a & 0x7fff_ffff_ffff_ffffu64 == 0 && b
        & 0x7fff_ffff_ffff_ffffu64 == 0))
}

/// Equality of values: same variant and equal contents.
pub open spec fn value_eq(a: Value, b: Value) -> bool {
    match (a, b) {
        (Value::Int(x), Value::Int(y)) => x == y,
        (Value::Float(x), Value::Float(y)) => float_bits_eq(x, y),
        (Value::Text(x), Value::Text(y)) => x@ == y@,
        (Value::Bool(x), Value::Bool(y)) => x == y,
        (Value::Null, Value::Null) => true,
        _ => false,
    }
}

/// Equality of rows: same length and equal values position by position.
pub open spec fn row_eq(a: Seq<Value>, b: Seq<Value>) -> bool {
    a.len() == b.len() && forall|i: int| 0 <= i < a.len() ==> value_eq(#[trigger] a[i], b[i])
}

/// Floating-point equality of two bit patterns.
fn float_eq(a: u64, b: u64) -> (r: bool)
    ensures
        r == float_bits_eq(a, b),
{
    let a_nan = a & 0x7ff0_0000_0000_0000u64 == 0x7ff0_0000_0000_0000u64 && a & 0x000f_ffff_ffff_ffffu64 != 0;
    let b_nan = b & 0x7ff0_0000_0000_0000u64 == 0x7ff0_0000_0000_0000u64 && b & 0x000f_ffff_ffff_ffffu64 != 0;
    !a_nan && !b_nan && (a == b || (a & 0x7fff_ffff_ffff_ffffu64 == 0 && b & 0x7fff_ffff_ffff_ffffu64 == 0))
}

/// Whether two values are equal.
fn value_equal(a: &Value, b: &Value) -> (r: bool)
    ensures
        r == value_eq(*a, *b),
{
    match (a, b) {
        (Value::Int(x), Value::Int(y)) => *x == *y,
        (Value::Float(x), Value::Float(y)) => float_eq(*x, *y),
        (Value::Text(x), Value::Text(y)) => *x == *y,
        (Value::Bool(x), Value::Bool(y)) => *x == *y,
        (Value::Null, Value::Null) => true,
        _ => false,
    }
}

impl Value {
    /// The integer, when the value is one.
    pub fn as_int(&self) -> (r: Option<i64>)
        ensures
            r == match *self {
                Value::Int(i) => Some(i),
                _ => None,
            },
    {
        match self {
            Value::Int(i) => Some(*i),
            _ => None,
        }
    }

    /// The text, when the value is text.
    pub fn as_str(&self) -> (r: Option<&str>)
        ensures
            match *self {
                Value::Text(s) => r matches Some(t) && t@ == s@,
                _ => r is None,
            },
    {
        match self {
            Value::Text(s) => Some(s.as_str()),
            _ => None,
        }
    }

    /// A copy of the value.
    pub fn duplicate(&self) -> (r: Value)
        ensures
            r == *self,
    {
        match self {
            Value::Int(i) => Value::Int(*i),
            Value::Float(f) => Value::Float(*f),
            Value::Text(s) => Value::Text(s.clone()),
            Value::Bool(b) => Value::Bool(*b),
            Value::Null => Value::Null,
        }
    }
}

impl Clone for Value {
    fn clone(&self) -> (r: Self)
        ensures
            r == *self,
    {
        self.duplicate()
    }
}

impl PartialEq for Value {
    fn eq(&self, other: &Self) -> (r: bool) {
        value_equal(self, other)
    }
}

impl vstd::std_specs::cmp::PartialEqSpecImpl for Value {
    open spec fn obeys_eq_spec() -> bool {
        true
    }

    open spec fn eq_spec(&self, other: &Value) -> bool {
        value_eq(*self, *other)
    }
}

/// A copy of a sequence of values.
fn copy_values(v: &Vec<Value>) -> (r: Vec<Value>)
    ensures
        r@ == v@,
{
    let mut r: Vec<Value> = Vec::new();
    let mut i: usize = 0;
    while i < v.len()
        invariant
            i <= v@.len(),
            r@ == v@.subrange(0, i as int),
        decreases v@.len() - i,
    {
        r.push(v[i].duplicate());
        proof {
            assert(r@ =~= v@.subrange(0, i as int + 1));
        }
        i += 1;
    }
    proof {
        assert(v@.subrange(0, i as int) =~= v@);
    }
    r
}

/// Whether two rows are equal.
fn row_equal(a: &Vec<Value>, b: &Vec<Value>) -> (r: bool)
    ensures
        r == row_eq(a@, b@),
{
    if a.len() != b.len() {
        return false;
    }
    let mut i: usize = 0;
    while i < a.len()
        invariant
            a@.len() == b@.len(),
            i <= a@.len(),
            forall|j: int| 0 <= j < i ==> value_eq(#[trigger] a@[j], b@[j]),
        decreases a@.len() - i,
    {
        if !value_equal(&a[i], &b[i]) {
            return false;
        }
        i += 1;
    }
    true
}

/// A tuple (row) of a relation.
#[derive(Debug)]
pub struct Tuple {
    pub values: Vec<Value>,
}

impl Tuple {
    /// The tuple of the given values.
    pub fn new(values: Vec<Value>) -> (r: Tuple)
        ensures
            r.values@ == values@,
    {
        Tuple { values }
    }

    /// The value at `index`, if there is one.
    pub fn get(&self, index: usize) -> (r: Option<&Value>)
        ensures
            index < self.values@.len() ==> r == Some(&self.values@[index as int]),
            index >= self.values@.len() ==> r is None,
    {
        if index < self.values.len() {
            Some(&self.values[index])
        } else {
            None
        }
    }

    /// A copy of the tuple.
    pub fn duplicate(&self) -> (r: Tuple)
        ensures
            r.values@ == self.values@,
    {
        Tuple { values: copy_values(&self.values) }
    }
}

impl Clone for Tuple {
    fn clone(&self) -> (r: Self)
        ensures
            r.values@ == self.values@,
    {
        self.duplicate()
    }
}

impl PartialEq for Tuple {
    fn eq(&self, other: &Self) -> (r: bool) {
        row_equal(&self.values, &other.values)
    }
}

impl vstd::std_specs::cmp::PartialEqSpecImpl for Tuple {
    open spec fn obeys_eq_spec() -> bool {
        true
    }

    open spec fn eq_spec(&self, other: &Tuple) -> bool {
        row_eq(self.values@, other.values@)
    }
}

/// The rows of `ts`.
pub open spec fn rows(ts: Seq<Tuple>) -> Seq<Seq<Value>> {
    ts.map_values(|t: Tuple| t.values@)
}

/// The column names of `s`.
pub open spec fn names(s: Seq<String>) -> Seq<Seq<char>> {
    s.map_values(|x: String| x@)
}

/// The first position of `name` in `s`, or `s.len()` when it is absent.
pub open spec fn first_index(s: Seq<Seq<char>>, name: Seq<char>) -> int
    decreases s.len(),
{
    if s.len() == 0 {
        0
    } else if s[0] == name {
        0
    } else {
        1 + first_index(s.drop_first(), name)
    }
}

pub proof fn lemma_first_index(s: Seq<Seq<char>>, name: Seq<char>)
    ensures
        0 <= first_index(s, name) <= s.len(),
        first_index(s, name) < s.len() ==> s[first_index(s, name)] == name,
        forall|j: int| 0 <= j < first_index(s, name) ==> s[j] != name,
        first_index(s, name) == s.len() <==> !s.contains(name),
    decreases s.len(),
{
    if s.len() > 0 && s[0] != name {
        lemma_first_index(s.drop_first(), name);
        assert forall|j: int| 0 <= j < first_index(s, name) implies s[j] != name by {
            if j > 0 {
                assert(s[j] == s.drop_first()[j - 1]);
            }
        }
        if s.contains(name) {
            let k = choose|k: int| 0 <= k < s.len() && s[k] == name;
            assert(s.drop_first()[k - 1] == name);
        }
        if s.drop_first().contains(name) {
            let k = choose|k: int| 0 <= k < s.drop_first().len() && s.drop_first()[k] == name;
            assert(s[k + 1] == name);
        }
    } else if s.len() > 0 {
        assert(s.contains(name)) by {
            assert(s[0] == name);
        }
    }
}

/// Each row of `rs` has at least `n` values.
pub open spec fn rows_cover(rs: Seq<Seq<Value>>, n: int) -> bool {
    forall|i: int| 0 <= i < rs.len() ==> (#[trigger] rs[i]).len() >= n
}

/// `r` with `x` appended unless some row of `r` equals it.
pub open spec fn add_distinct(r: Seq<Seq<Value>>, x: Seq<Value>) -> Seq<Seq<Value>> {
    if exists|j: int| 0 <= j < r.len() && row_eq(#[trigger] r[j], x) {
        r
    } else {
        r.push(x)
    }
}

/// The rows of `xs`, one by one, added to `r` unless an equal row is there.
pub open spec fn add_all_distinct(r: Seq<Seq<Value>>, xs: Seq<Seq<Value>>) -> Seq<Seq<Value>>
    decreases xs.len(),
{
    if xs.len() == 0 {
        r
    } else {
        add_distinct(add_all_distinct(r, xs.drop_last()), xs.last())
    }
}

/// The values of `row` at `idx`.
pub open spec fn pick(row: Seq<Value>, idx: Seq<int>) -> Seq<Value> {
    idx.map_values(|i: int| row[i])
}

/// Some row of `rs` equals `x`.
pub open spec fn has_row(rs: Seq<Seq<Value>>, x: Seq<Value>) -> bool {
    exists|j: int| 0 <= j < rs.len() && row_eq(#[trigger] rs[j], x)
}

/// Every pair of rows, one of `r1` then one of `r2`, in nested order.
pub open spec fn all_pairs(r1: Seq<Seq<Value>>, r2: Seq<Seq<Value>>) -> Seq<(Seq<Value>, Seq<Value>)>
    decreases r1.len(),
{
    if r1.len() == 0 {
        Seq::empty()
    } else {
        all_pairs(r1.drop_last(), r2) + r2.map_values(|t2: Seq<Value>| (r1.last(), t2))
    }
}

/// `add_all_distinct` adds no row equal to one already there: when no two
/// rows of `r` are equal, no two rows of the result are.
proof fn lemma_add_all_distinct_no_equal(r: Seq<Seq<Value>>, xs: Seq<Seq<Value>>)
    requires
        forall|i: int, j: int| 0 <= i < j < r.len() ==> !row_eq(#[trigger] r[i], #[trigger] r[j]),
    ensures
        forall|i: int, j: int| 0 <= i < j < add_all_distinct(r, xs).len() ==> !row_eq(
            #[trigger] add_all_distinct(r, xs)[i],
            #[trigger] add_all_distinct(r, xs)[j],
        ),
    decreases xs.len(),
{
    if xs.len() > 0 {
        let p = add_all_distinct(r, xs.drop_last());
        lemma_add_all_distinct_no_equal(r, xs.drop_last());
        if !exists|j: int| 0 <= j < p.len() && row_eq(#[trigger] p[j], xs.last()) {
            let res = p.push(xs.last());
            assert(add_all_distinct(r, xs) == res);
            assert forall|i: int, j: int| 0 <= i < j < res.len() implies !row_eq(#[trigger] res[i], #[trigger] res[j]) by {
                if j < p.len() {
                    assert(res[i] == p[i] && res[j] == p[j]);
                } else {
                    assert(res[i] == p[i] && res[j] == xs.last());
                }
            }
        }
    }
}

/// Projection is a set operation: no two rows of the projection of `rs` on
/// the positions `pos` are equal.
pub proof fn lemma_project_distinct(rs: Seq<Seq<Value>>, pos: Seq<int>)
    ensures
        forall|i: int, j: int| 0 <= i < j < add_all_distinct(Seq::empty(), pick_each(rs, pos)).len() ==> !row_eq(
            #[trigger] add_all_distinct(Seq::empty(), pick_each(rs, pos))[i],
            #[trigger] add_all_distinct(Seq::empty(), pick_each(rs, pos))[j],
        ),
{
    lemma_add_all_distinct_no_equal(Seq::empty(), pick_each(rs, pos));
}

/// Union keeps `r` as it is, in front, and holds a row equal to each row of
/// `xs` that equals itself (a row with a NaN float equals no row, itself
/// included).
pub proof fn lemma_union_covers(r: Seq<Seq<Value>>, xs: Seq<Seq<Value>>)
    requires
        forall|j: int| 0 <= j < xs.len() ==> row_eq(#[trigger] xs[j], xs[j]),
    ensures
        r.len() <= add_all_distinct(r, xs).len(),
        add_all_distinct(r, xs).subrange(0, r.len() as int) == r,
        forall|j: int| 0 <= j < xs.len() ==> has_row(add_all_distinct(r, xs), #[trigger] xs[j]),
    decreases xs.len(),
{
    if xs.len() > 0 {
        let p = add_all_distinct(r, xs.drop_last());
        lemma_union_covers(r, xs.drop_last());
        let res = add_all_distinct(r, xs);
        assert(res.subrange(0, r.len() as int) =~= p.subrange(0, r.len() as int));
        assert forall|j: int| 0 <= j < xs.len() implies has_row(res, #[trigger] xs[j]) by {
            if j < xs.len() - 1 {
                assert(xs[j] == xs.drop_last()[j]);
                assert(has_row(p, xs.drop_last()[j]));
                let k = choose|k: int| 0 <= k < p.len() && row_eq(#[trigger] p[k], xs.drop_last()[j]);
                assert(res[k] == p[k]);
            } else if !has_row(p, xs.last()) {
                assert(res[p.len() as int] == xs.last());
            }
        }
    }
}

/// Every tuple of `r1` goes to exactly one of the difference and the
/// intersection with `r2`: their sizes add up to that of `r1`.
pub proof fn lemma_difference_intersection_split(r1: Seq<Seq<Value>>, r2: Seq<Seq<Value>>)
    ensures
        r1.filter(|t: Seq<Value>| !has_row(r2, t)).len() + r1.filter(|t: Seq<Value>| has_row(r2, t)).len() == r1.len(),
    decreases r1.len(),
{
    reveal(Seq::filter);
    if r1.len() > 0 {
        lemma_difference_intersection_split(r1.drop_last(), r2);
    }
}

/// Equality of values is symmetric and transitive.
proof fn lemma_value_eq_props(a: Value, b: Value, c: Value)
    ensures
        value_eq(a, b) ==> value_eq(b, a),
        value_eq(a, b) && value_eq(b, c) ==> value_eq(a, c),
{
}

/// Equality of rows is symmetric and transitive.
proof fn lemma_row_eq_props(a: Seq<Value>, b: Seq<Value>, c: Seq<Value>)
    ensures
        row_eq(a, b) ==> row_eq(b, a),
        row_eq(a, b) && row_eq(b, c) ==> row_eq(a, c),
{
    assert forall|i: int| 0 <= i < a.len() && row_eq(a, b) implies value_eq(#[trigger] b[i], a[i]) by {
        lemma_value_eq_props(a[i], b[i], c[i]);
    }
    assert forall|i: int| 0 <= i < a.len() && row_eq(a, b) && row_eq(b, c) implies value_eq(#[trigger] a[i], c[i]) by {
        lemma_value_eq_props(a[i], b[i], c[i]);
    }
}

/// Filtering with two predicates that agree on every element gives the same
/// sequence.
proof fn lemma_filter_agree<A>(s: Seq<A>, p: spec_fn(A) -> bool, q: spec_fn(A) -> bool)
    requires
        forall|i: int| 0 <= i < s.len() ==> p(#[trigger] s[i]) == q(s[i]),
    ensures
        s.filter(p) == s.filter(q),
    decreases s.len(),
{
    reveal(Seq::filter);
    if s.len() > 0 {
        assert forall|i: int| 0 <= i < s.drop_last().len() implies p(#[trigger] s.drop_last()[i]) == q(s.drop_last()[i]) by {
            assert(s.drop_last()[i] == s[i]);
        }
        lemma_filter_agree(s.drop_last(), p, q);
        assert(p(s[s.len() - 1]) == q(s[s.len() - 1]));
    }
}

/// Intersection is derived from difference: when every row of `r` equals
/// itself (no NaN float), `r ∩ s` is `r − (r − s)`.
pub proof fn lemma_intersection_by_difference(r: Seq<Seq<Value>>, s: Seq<Seq<Value>>)
    requires
        forall|i: int| 0 <= i < r.len() ==> row_eq(#[trigger] r[i], r[i]),
    ensures
        r.filter(|t: Seq<Value>| has_row(s, t)) == r.filter(
            |t: Seq<Value>| !has_row(r.filter(|u: Seq<Value>| !has_row(s, u)), t),
        ),
{
    let d = r.filter(|u: Seq<Value>| !has_row(s, u));
    let p = |t: Seq<Value>| has_row(s, t);
    let q = |t: Seq<Value>| !has_row(d, t);
    assert forall|i: int| 0 <= i < r.len() implies p(#[trigger] r[i]) == q(r[i]) by {
        let t = r[i];
        if has_row(s, t) {
            if has_row(d, t) {
                let k = choose|k: int| 0 <= k < d.len() && row_eq(#[trigger] d[k], t);
                let j = choose|j: int| 0 <= j < s.len() && row_eq(#[trigger] s[j], t);
                r.lemma_filter_pred(|u: Seq<Value>| !has_row(s, u), k);
                assert(!has_row(s, d[k]));
                lemma_row_eq_props(d[k], t, s[j]);
                lemma_row_eq_props(t, s[j], s[j]);
                lemma_row_eq_props(s[j], t, d[k]);
                assert(row_eq(s[j], d[k]));
            }
        } else {
            r.lemma_filter_contains(|u: Seq<Value>| !has_row(s, u), i);
            assert(d.contains(t));
            let k = choose|k: int| 0 <= k < d.len() && d[k] == t;
            assert(row_eq(d[k], t));
        }
    }
    lemma_filter_agree(r, p, q);
}

/// A relation (table) with named attributes.
#[derive(Debug, Clone, PartialEq)]
pub struct Relation {
    pub schema: Vec<String>,
    pub tuples: Vec<Tuple>,
}

/// Whether some row of `ts` equals `t`.
fn contains_row(ts: &Vec<Tuple>, t: &Tuple) -> (r: bool)
    ensures
        r == has_row(rows(ts@), t.values@),
{
    let mut i: usize = 0;
    while i < ts.len()
        invariant
            i <= ts@.len(),
            forall|j: int| 0 <= j < i ==> !row_eq(#[trigger] rows(ts@)[j], t.values@),
        decreases ts@.len() - i,
    {
        if row_equal(&ts[i].values, &t.values) {
            proof {
                assert(rows(ts@)[i as int] == ts@[i as int].values@);
            }
            return true;
        }
        proof {
            assert(rows(ts@)[i as int] == ts@[i as int].values@);
        }
        i += 1;
    }
    false
}

/// Copies of the strings of `v`.
fn copy_strings(v: &Vec<String>) -> (r: Vec<String>)
    ensures
        r@ == v@,
{
    let mut r: Vec<String> = Vec::new();
    let mut i: usize = 0;
    while i < v.len()
        invariant
            i <= v@.len(),
            r@ == v@.subrange(0, i as int),
        decreases v@.len() - i,
    {
        r.push(v[i].clone());
        proof {
            assert(r@ =~= v@.subrange(0, i as int + 1));
        }
        i += 1;
    }
    proof {
        assert(v@.subrange(0, i as int) =~= v@);
    }
    r
}

/// Copies of the tuples of `v`.
fn copy_tuples(v: &Vec<Tuple>) -> (r: Vec<Tuple>)
    ensures
        rows(r@) == rows(v@),
{
    let mut r: Vec<Tuple> = Vec::new();
    let mut i: usize = 0;
    while i < v.len()
        invariant
            i <= v@.len(),
            rows(r@) == rows(v@).subrange(0, i as int),
        decreases v@.len() - i,
    {
        let t = v[i].duplicate();
        let ghost before = rows(r@);
        r.push(t);
        proof {
            assert(rows(r@) =~= before.push(v@[i as int].values@));
            assert(rows(r@) =~= rows(v@).subrange(0, i as int + 1));
        }
        i += 1;
    }
    proof {
        assert(rows(v@).subrange(0, i as int) =~= rows(v@));
    }
    r
}

impl Relation {
    /// An empty relation with the given attributes.
    pub fn new(schema: Vec<String>) -> (r: Relation)
        ensures
            r.schema@ == schema@,
            r.tuples@.len() == 0,
    {
        Relation { schema, tuples: Vec::new() }
    }

    /// A relation with the given attributes and tuples, each of the arity of
    /// the schema.
    pub fn with_tuples(schema: Vec<String>, tuples: Vec<Tuple>) -> (r: Relation)
        requires
            forall|i: int| 0 <= i < tuples@.len() ==> (#[trigger] tuples@[i]).values@.len() == schema@.len(),
        ensures
            r.schema@ == schema@,
            r.tuples@ == tuples@,
    {
        Relation { schema, tuples }
    }

    /// The number of attributes.
    pub fn arity(&self) -> (r: usize)
        ensures
            r == self.schema@.len(),
    {
        self.schema.len()
    }

    /// The number of tuples.
    pub fn cardinality(&self) -> (r: usize)
        ensures
            r == self.tuples@.len(),
    {
        self.tuples.len()
    }

    /// The first position of the attribute `name`, if it is one.
    pub fn column_index(&self, name: &str) -> (r: Option<usize>)
        ensures
            match r {
                Some(i) => i == first_index(names(self.schema@), name@) && i < self.schema@.len(),
                None => first_index(names(self.schema@), name@) == self.schema@.len(),
            },
    {
        let ghost ns = names(self.schema@);
        proof {
            lemma_first_index(ns, name@);
        }
        let key = name.to_owned();
        let mut i: usize = 0;
        while i < self.schema.len()
            invariant
                i <= self.schema@.len(),
                key@ == name@,
                ns == names(self.schema@),
                0 <= first_index(ns, name@) <= ns.len(),
                first_index(ns, name@) < ns.len() ==> ns[first_index(ns, name@)] == name@,
                forall|j: int| 0 <= j < first_index(ns, name@) ==> ns[j] != name@,
                forall|j: int| 0 <= j < i ==> ns[j] != name@,
            decreases self.schema@.len() - i,
        {
            if self.schema[i] == key {
                proof {
                    assert(ns[i as int] == name@);
                }
                return Some(i);
            }
            proof {
                assert(ns[i as int] == self.schema@[i as int]@);
            }
            i += 1;
        }
        None
    }
}

/// The rows of `rs` whose flag in `keep` is set, in order.
pub open spec fn kept_rows(rs: Seq<Seq<Value>>, keep: Seq<bool>) -> Seq<Seq<Value>>
    decreases rs.len(),
{
    if rs.len() == 0 || keep.len() == 0 {
        Seq::empty()
    } else {
        let p = kept_rows(rs.drop_last(), keep.drop_last());
        if keep.last() {
            p.push(rs.last())
        } else {
            p
        }
    }
}

/// `t1` followed by each row of `r2`.
pub open spec fn concat_each(t1: Seq<Value>, r2: Seq<Seq<Value>>) -> Seq<Seq<Value>> {
    r2.map_values(|t2: Seq<Value>| t1 + t2)
}

/// Every row of `r1` followed by every row of `r2`, in nested order.
pub open spec fn cross_rows(r1: Seq<Seq<Value>>, r2: Seq<Seq<Value>>) -> Seq<Seq<Value>>
    decreases r1.len(),
{
    if r1.len() == 0 {
        Seq::empty()
    } else {
        cross_rows(r1.drop_last(), r2) + concat_each(r1.last(), r2)
    }
}

/// The combined rows of the pairs of `r1` and `r2` whose flag in `keep` is
/// set, in nested order.
pub open spec fn theta_rows(r1: Seq<Seq<Value>>, r2: Seq<Seq<Value>>, keep: Seq<Seq<bool>>) -> Seq<Seq<Value>>
    decreases r1.len(),
{
    if r1.len() == 0 || keep.len() == 0 {
        Seq::empty()
    } else {
        theta_rows(r1.drop_last(), r2, keep.drop_last()) + kept_rows(concat_each(r1.last(), r2), keep.last())
    }
}

/// The positions of `idx` taken from each row of `rs`.
pub open spec fn pick_each(rs: Seq<Seq<Value>>, idx: Seq<int>) -> Seq<Seq<Value>> {
    rs.map_values(|row: Seq<Value>| pick(row, idx))
}

/// The positions of the columns `cols` in `s`.
pub open spec fn col_positions(s: Seq<Seq<char>>, cols: Seq<Seq<char>>) -> Seq<int> {
    cols.map_values(|c: Seq<char>| first_index(s, c))
}

/// `predicate` may answer `b` for the tuple `t` under the attributes `schema`.
pub open spec fn predicate_gave<F: Fn(&Tuple, &[String]) -> bool>(predicate: F, t: &Tuple, schema: Seq<String>, b: bool) -> bool {
    exists|sl: &[String]| sl@ == schema && call_ensures(predicate, (t, sl), b)
}

/// Copies of the rows kept so far.
proof fn lemma_kept_rows_step(rs: Seq<Seq<Value>>, keep: Seq<bool>, i: int, b: bool)
    requires
        0 <= i < rs.len(),
        keep.len() == i,
    ensures
        kept_rows(rs.subrange(0, i + 1), keep.push(b)) == if b {
            kept_rows(rs.subrange(0, i), keep).push(rs[i])
        } else {
            kept_rows(rs.subrange(0, i), keep)
        },
{
    assert(rs.subrange(0, i + 1).drop_last() =~= rs.subrange(0, i));
    assert(keep.push(b).drop_last() =~= keep);
}

impl Relation {
    /// σ: the tuples for which `predicate` holds, with the same attributes.
    pub fn select<F>(&self, predicate: F) -> (r: Relation)
        where
            F: Fn(&Tuple, &[String]) -> bool,
        requires
            forall|i: int, sl: &[String]| 0 <= i < self.tuples@.len() && sl@ == self.schema@ ==> call_requires(predicate, (&self.tuples@[i], sl)),
        ensures
            r.schema@ == self.schema@,
            exists|keep: Seq<bool>| #[trigger] keep.len() == self.tuples@.len()
                && (forall|i: int| 0 <= i < self.tuples@.len() ==> #[trigger] predicate_gave(predicate, &self.tuples@[i], self.schema@, keep[i]))
                && rows(r.tuples@) == kept_rows(rows(self.tuples@), keep),
    {
        let sl = self.schema.as_slice();
        let mut filtered: Vec<Tuple> = Vec::new();
        let ghost mut keep: Seq<bool> = Seq::empty();
        let mut i: usize = 0;
        while i < self.tuples.len()
            invariant
                i <= self.tuples@.len(),
                sl@ == self.schema@,
                forall|ii: int, s: &[String]| 0 <= ii < self.tuples@.len() && s@ == self.schema@ ==> call_requires(predicate, (&self.tuples@[ii], s)),
                keep.len() == i,
                forall|ii: int| 0 <= ii < i ==> #[trigger] predicate_gave(predicate, &self.tuples@[ii], self.schema@, keep[ii]),
                rows(filtered@) == kept_rows(rows(self.tuples@).subrange(0, i as int), keep),
            decreases self.tuples@.len() - i,
        {
            let b = predicate(&self.tuples[i], sl);
            let ghost before = rows(filtered@);
            if b {
                let t = self.tuples[i].duplicate();
                filtered.push(t);
                proof {
                    assert(rows(filtered@) =~= before.push(self.tuples@[i as int].values@));
                }
            }
            proof {
                lemma_kept_rows_step(rows(self.tuples@), keep, i as int, b);
                assert(rows(self.tuples@)[i as int] == self.tuples@[i as int].values@);
                keep = keep.push(b);
                assert forall|ii: int| 0 <= ii < i + 1 implies #[trigger] predicate_gave(predicate, &self.tuples@[ii], self.schema@, keep[ii]) by {
                    if ii == i {
                        assert(call_ensures(predicate, (&self.tuples@[ii], sl), keep[ii]));
                    }
                }
            }
            i += 1;
        }
        proof {
            assert(rows(self.tuples@).subrange(0, i as int) =~= rows(self.tuples@));
        }
        Relation { schema: copy_strings(&self.schema), tuples: filtered }
    }

    /// π: the given columns of every tuple, each resulting tuple once.
    pub fn project(&self, columns: &[&str]) -> (r: Relation)
        requires
            forall|k: int| 0 <= k < columns@.len() ==> names(self.schema@).contains(#[trigger] columns@[k]@),
            forall|t: int, k: int| 0 <= t < self.tuples@.len() && 0 <= k < columns@.len() ==> first_index(names(self.schema@), (#[trigger] columns@[k])@) < (#[trigger] self.tuples@[t]).values@.len(),
        ensures
            names(r.schema@) == columns@.map_values(|c: &str| c@),
            rows(r.tuples@) == add_all_distinct(Seq::empty(), pick_each(rows(self.tuples@), col_positions(names(self.schema@), columns@.map_values(|c: &str| c@)))),
    {
        let ghost ns = names(self.schema@);
        let ghost cols = columns@.map_values(|c: &str| c@);
        let ghost pos = col_positions(ns, cols);
        let mut indices: Vec<usize> = Vec::new();
        let mut new_schema: Vec<String> = Vec::new();
        let mut k: usize = 0;
        while k < columns.len()
            invariant
                k <= columns@.len(),
                ns == names(self.schema@),
                cols == columns@.map_values(|c: &str| c@),
                pos == col_positions(ns, cols),
                forall|kk: int| 0 <= kk < columns@.len() ==> ns.contains(#[trigger] columns@[kk]@),
                indices@.len() == k,
                forall|kk: int| 0 <= kk < k ==> indices@[kk] == pos[kk] && pos[kk] < ns.len(),
                names(new_schema@) == cols.subrange(0, k as int),
            decreases columns@.len() - k,
        {
            let c = columns[k];
            match self.column_index(c) {
                Some(i) => {
                    proof {
                        lemma_first_index(ns, c@);
                        assert(cols[k as int] == c@);
                    }
                    indices.push(i);
                    let name = self.schema[i].clone();
                    let ghost before = names(new_schema@);
                    new_schema.push(name);
                    proof {
                        assert(names(new_schema@) =~= before.push(c@));
                        assert(names(new_schema@) =~= cols.subrange(0, k as int + 1));
                    }
                },
                None => {
                    proof {
                        lemma_first_index(ns, c@);
                        assert(ns.contains(columns@[k as int]@));
                    }
                    k += 1;
                    continue;
                },
            }
            k += 1;
        }
        proof {
            assert(cols.subrange(0, k as int) =~= cols);
        }
        let ghost picked = pick_each(rows(self.tuples@), pos);
        let mut seen: Vec<Tuple> = Vec::new();
        let mut t: usize = 0;
        while t < self.tuples.len()
            invariant
                t <= self.tuples@.len(),
                indices@.len() == columns@.len(),
                pos.len() == columns@.len(),
                forall|kk: int| 0 <= kk < columns@.len() ==> indices@[kk] == pos[kk],
                forall|tt: int, kk: int| 0 <= tt < self.tuples@.len() && 0 <= kk < columns@.len() ==> #[trigger] pos[kk] < (#[trigger] self.tuples@[tt]).values@.len(),
                picked == pick_each(rows(self.tuples@), pos),
                rows(seen@) == add_all_distinct(Seq::empty(), picked.subrange(0, t as int)),
            decreases self.tuples@.len() - t,
        {
            let row = &self.tuples[t].values;
            let mut vals: Vec<Value> = Vec::new();
            let mut k: usize = 0;
            while k < indices.len()
                invariant
                    k <= indices@.len(),
                    t < self.tuples@.len(),
                    row@ == self.tuples@[t as int].values@,
                    indices@.len() == pos.len(),
                    forall|kk: int| 0 <= kk < indices@.len() ==> indices@[kk] == pos[kk],
                    forall|kk: int| 0 <= kk < indices@.len() ==> pos[kk] < row@.len(),
                    vals@ == pick(row@, pos.subrange(0, k as int)),
                decreases indices@.len() - k,
            {
                proof {
                    assert(indices@[k as int] == pos[k as int]);
                    assert(pos[k as int] < row@.len());
                }
                let v = row[indices[k]].duplicate();
                vals.push(v);
                proof {
                    assert(vals@ =~= pick(row@, pos.subrange(0, k as int + 1)));
                }
                k += 1;
            }
            let tuple = Tuple::new(vals);
            proof {
                assert(pos.subrange(0, k as int) =~= pos);
                assert(picked[t as int] == tuple.values@);
                assert(picked.subrange(0, t as int + 1).drop_last() =~= picked.subrange(0, t as int));
                assert(picked.subrange(0, t as int + 1).last() == tuple.values@);
            }
            let present = contains_row(&seen, &tuple);
            if !present {
                let ghost before = rows(seen@);
                seen.push(tuple);
                proof {
                    assert(rows(seen@) =~= before.push(picked[t as int]));
                }
            }
            t += 1;
        }
        proof {
            assert(picked.subrange(0, t as int) =~= picked);
        }
        Relation { schema: new_schema, tuples: seen }
    }

    /// The cross product: every tuple of `self` followed by every tuple of
    /// `other`, under both schemas.
    pub fn cross_product(&self, other: &Relation) -> (r: Relation)
        ensures
            r.schema@ == self.schema@ + other.schema@,
            rows(r.tuples@) == cross_rows(rows(self.tuples@), rows(other.tuples@)),
    {
        let mut combined_schema = copy_strings(&self.schema);
        let mut j: usize = 0;
        while j < other.schema.len()
            invariant
                j <= other.schema@.len(),
                combined_schema@ == self.schema@ + other.schema@.subrange(0, j as int),
            decreases other.schema@.len() - j,
        {
            combined_schema.push(other.schema[j].clone());
            proof {
                assert(combined_schema@ =~= self.schema@ + other.schema@.subrange(0, j as int + 1));
            }
            j += 1;
        }
        proof {
            assert(other.schema@.subrange(0, j as int) =~= other.schema@);
        }
        let ghost r1 = rows(self.tuples@);
        let ghost r2 = rows(other.tuples@);
        let mut tuples: Vec<Tuple> = Vec::new();
        let mut i: usize = 0;
        while i < self.tuples.len()
            invariant
                i <= self.tuples@.len(),
                r1 == rows(self.tuples@),
                r2 == rows(other.tuples@),
                rows(tuples@) == cross_rows(r1.subrange(0, i as int), r2),
            decreases self.tuples@.len() - i,
        {
            let ghost base = rows(tuples@);
            let t1 = &self.tuples[i];
            let mut j: usize = 0;
            while j < other.tuples.len()
                invariant
                    i < self.tuples@.len(),
                    j <= other.tuples@.len(),
                    r1 == rows(self.tuples@),
                    r2 == rows(other.tuples@),
                    t1.values@ == r1[i as int],
                    rows(tuples@) == base + concat_each(r1[i as int], r2.subrange(0, j as int)),
                decreases other.tuples@.len() - j,
            {
                let mut vals = copy_values(&t1.values);
                let extra = copy_values(&other.tuples[j].values);
                let mut m: usize = 0;
                while m < extra.len()
                    invariant
                        m <= extra@.len(),
                        vals@ == t1.values@ + extra@.subrange(0, m as int),
                    decreases extra@.len() - m,
                {
                    vals.push(extra[m].duplicate());
                    proof {
                        assert(vals@ =~= t1.values@ + extra@.subrange(0, m as int + 1));
                    }
                    m += 1;
                }
                let ghost before = rows(tuples@);
                tuples.push(Tuple::new(vals));
                proof {
                    assert(extra@.subrange(0, m as int) =~= extra@);
                    assert(r2[j as int] == other.tuples@[j as int].values@);
                    assert(rows(tuples@) =~= before.push(r1[i as int] + r2[j as int]));
                    assert(concat_each(r1[i as int], r2.subrange(0, j as int + 1)) =~= concat_each(r1[i as int], r2.subrange(0, j as int)).push(r1[i as int] + r2[j as int]));
                    assert(rows(tuples@) =~= base + concat_each(r1[i as int], r2.subrange(0, j as int + 1)));
                }
                j += 1;
            }
            proof {
                assert(r2.subrange(0, j as int) =~= r2);
                assert(r1.subrange(0, i as int + 1).drop_last() =~= r1.subrange(0, i as int));
                assert(r1.subrange(0, i as int + 1).last() == r1[i as int]);
            }
            i += 1;
        }
        proof {
            assert(r1.subrange(0, i as int) =~= r1);
        }
        Relation { schema: combined_schema, tuples }
    }

    /// ∪: the tuples of `self`, then those of `other` not already there; the
    /// two relations have the same attributes.
    pub fn union(&self, other: &Relation) -> (r: Relation)
        requires
            self.schema@ == other.schema@,
        ensures
            r.schema@ == self.schema@,
            rows(r.tuples@) == add_all_distinct(rows(self.tuples@), rows(other.tuples@)),
    {
        let mut tuples = copy_tuples(&self.tuples);
        let ghost r2 = rows(other.tuples@);
        let mut j: usize = 0;
        while j < other.tuples.len()
            invariant
                j <= other.tuples@.len(),
                r2 == rows(other.tuples@),
                rows(tuples@) == add_all_distinct(rows(self.tuples@), r2.subrange(0, j as int)),
            decreases other.tuples@.len() - j,
        {
            let t = &other.tuples[j];
            proof {
                assert(r2.subrange(0, j as int + 1).drop_last() =~= r2.subrange(0, j as int));
                assert(r2.subrange(0, j as int + 1).last() == t.values@);
            }
            if !contains_row(&tuples, t) {
                let ghost before = rows(tuples@);
                tuples.push(t.duplicate());
                proof {
                    assert(rows(tuples@) =~= before.push(t.values@));
                }
            }
            j += 1;
        }
        proof {
            assert(r2.subrange(0, j as int) =~= r2);
        }
        Relation { schema: copy_strings(&self.schema), tuples }
    }

    /// −: the tuples of `self` that equal no tuple of `other`; the two
    /// relations have the same attributes.
    pub fn difference(&self, other: &Relation) -> (r: Relation)
        requires
            self.schema@ == other.schema@,
        ensures
            r.schema@ == self.schema@,
            rows(r.tuples@) == rows(self.tuples@).filter(|t: Seq<Value>| !has_row(rows(other.tuples@), t)),
    {
        let r = self.filter_by_other(other, false);
        proof {
            assert((|t: Seq<Value>| has_row(rows(other.tuples@), t) == false) =~= (|t: Seq<Value>| !has_row(rows(other.tuples@), t)));
        }
        r
    }

    /// ∩: the tuples of `self` that equal some tuple of `other`; the two
    /// relations have the same attributes.
    pub fn intersection(&self, other: &Relation) -> (r: Relation)
        requires
            self.schema@ == other.schema@,
        ensures
            r.schema@ == self.schema@,
            rows(r.tuples@) == rows(self.tuples@).filter(|t: Seq<Value>| has_row(rows(other.tuples@), t)),
    {
        let r = self.filter_by_other(other, true);
        proof {
            assert((|t: Seq<Value>| has_row(rows(other.tuples@), t) == true) =~= (|t: Seq<Value>| has_row(rows(other.tuples@), t)));
        }
        r
    }

    /// The tuples of `self` that do (`wanted`) or do not occur in `other`.
    fn filter_by_other(&self, other: &Relation, wanted: bool) -> (r: Relation)
        ensures
            r.schema@ == self.schema@,
            rows(r.tuples@) == rows(self.tuples@).filter(|t: Seq<Value>| has_row(rows(other.tuples@), t) == wanted),
    {
        let ghost r1 = rows(self.tuples@);
        let ghost p = |t: Seq<Value>| has_row(rows(other.tuples@), t) == wanted;
        let mut tuples: Vec<Tuple> = Vec::new();
        let mut i: usize = 0;
        while i < self.tuples.len()
            invariant
                i <= self.tuples@.len(),
                r1 == rows(self.tuples@),
                p == |t: Seq<Value>| has_row(rows(other.tuples@), t) == wanted,
                rows(tuples@) == r1.subrange(0, i as int).filter(p),
            decreases self.tuples@.len() - i,
        {
            let t = &self.tuples[i];
            proof {
                lemma_filter_prefix_step(r1, p, i as int);
                assert(r1[i as int] == t.values@);
            }
            if contains_row(&other.tuples, t) == wanted {
                let ghost before = rows(tuples@);
                tuples.push(t.duplicate());
                proof {
                    assert(rows(tuples@) =~= before.push(t.values@));
                }
            }
            i += 1;
        }
        proof {
            assert(r1.subrange(0, i as int) =~= r1);
        }
        Relation { schema: copy_strings(&self.schema), tuples }
    }

    /// ρ: each attribute renamed by `renames`, where it has an entry.
    pub fn rename(&self, renames: &StrMap<String>) -> (r: Relation)
        requires
            renames.wf(),
        ensures
            r.schema@.len() == self.schema@.len(),
            forall|i: int| 0 <= i < self.schema@.len() ==> (#[trigger] r.schema@[i])@ == if renames@.contains_key(self.schema@[i]@) {
                renames@[self.schema@[i]@]@
            } else {
                self.schema@[i]@
            },
            rows(r.tuples@) == rows(self.tuples@),
    {
        let mut schema: Vec<String> = Vec::new();
        let mut i: usize = 0;
        while i < self.schema.len()
            invariant
                i <= self.schema@.len(),
                renames.wf(),
                schema@.len() == i,
                forall|j: int| 0 <= j < i ==> (#[trigger] schema@[j])@ == if renames@.contains_key(self.schema@[j]@) {
                    renames@[self.schema@[j]@]@
                } else {
                    self.schema@[j]@
                },
            decreases self.schema@.len() - i,
        {
            let name = &self.schema[i];
            let new_name = match renames.get(name.as_str()) {
                Some(n) => n.clone(),
                None => name.clone(),
            };
            schema.push(new_name);
            i += 1;
        }
        Relation { schema, tuples: copy_tuples(&self.tuples) }
    }
}

/// `predicate` may answer `b` for the pair `(t1, t2)`.
pub open spec fn pair_gave<F: Fn(&Tuple, &Tuple) -> bool>(predicate: F, t1: &Tuple, t2: &Tuple, b: bool) -> bool {
    call_ensures(predicate, (t1, t2), b)
}

/// For the first `n` attributes of `s1` that also name an attribute of `s2`:
/// their position in `s1` and their first position in `s2`.
pub open spec fn common_upto(s1: Seq<Seq<char>>, s2: Seq<Seq<char>>, n: int) -> Seq<(int, int)>
    decreases n,
{
    if n <= 0 {
        Seq::empty()
    } else {
        let p = common_upto(s1, s2, n - 1);
        if s2.contains(s1[n - 1]) {
            p.push((n - 1, first_index(s2, s1[n - 1])))
        } else {
            p
        }
    }
}

/// The positions among the first `n` attributes of `s2` whose names are not
/// attributes of `s1`.
pub open spec fn extras_upto(s1: Seq<Seq<char>>, s2: Seq<Seq<char>>, n: int) -> Seq<int>
    decreases n,
{
    if n <= 0 {
        Seq::empty()
    } else {
        let p = extras_upto(s1, s2, n - 1);
        if !s1.contains(s2[n - 1]) {
            p.push(n - 1)
        } else {
            p
        }
    }
}

/// The two rows agree on every common attribute.
pub open spec fn rows_match(t1: Seq<Value>, t2: Seq<Value>, common: Seq<(int, int)>) -> bool {
    forall|k: int| 0 <= k < common.len() ==> value_eq(t1[(#[trigger] common[k]).0], t2[common[k].1])
}

/// The joined rows of `t1` with each row of `r2` that it matches.
pub open spec fn join_pairs(t1: Seq<Value>, r2: Seq<Seq<Value>>, common: Seq<(int, int)>, extras: Seq<int>) -> Seq<Seq<Value>>
    decreases r2.len(),
{
    if r2.len() == 0 {
        Seq::empty()
    } else {
        let p = join_pairs(t1, r2.drop_last(), common, extras);
        if rows_match(t1, r2.last(), common) {
            p.push(t1 + pick(r2.last(), extras))
        } else {
            p
        }
    }
}

/// The natural join of the rows: each row of `r1` with each matching row of
/// `r2`, in nested order.
pub open spec fn join_rows(r1: Seq<Seq<Value>>, r2: Seq<Seq<Value>>, common: Seq<(int, int)>, extras: Seq<int>) -> Seq<Seq<Value>>
    decreases r1.len(),
{
    if r1.len() == 0 {
        Seq::empty()
    } else {
        join_rows(r1.drop_last(), r2, common, extras) + join_pairs(r1.last(), r2, common, extras)
    }
}

/// One step of collecting the names that two lists share: `name` is added to
/// the collected names exactly when the second list holds it.
proof fn lemma_shared_names_step(before: Seq<Seq<char>>, after: Seq<Seq<char>>, prefix: Seq<Seq<char>>, name: Seq<char>, n2: Seq<Seq<char>>)
    requires
        forall|x: Seq<char>| #[trigger] before.contains(x) <==> (prefix.contains(x) && n2.contains(x)),
        n2.contains(name) ==> after == before.push(name),
        !n2.contains(name) ==> after == before,
    ensures
        forall|x: Seq<char>| after.contains(x) <==> (prefix.push(name).contains(x) && n2.contains(x)),
{
    assert forall|x: Seq<char>| after.contains(x) <==> (prefix.push(name).contains(x) && n2.contains(x)) by {
        vstd::seq_lib::lemma_seq_contains_after_push(prefix, name, x);
        if n2.contains(name) {
            vstd::seq_lib::lemma_seq_contains_after_push(before, name, x);
        }
    }
}

/// Whether `x` is one of `v`.
fn contains_string(v: &Vec<String>, x: &String) -> (r: bool)
    ensures
        r == names(v@).contains(x@),
{
    let mut i: usize = 0;
    while i < v.len()
        invariant
            i <= v@.len(),
            forall|j: int| 0 <= j < i ==> v@[j]@ != x@,
        decreases v@.len() - i,
    {
        if v[i] == *x {
            proof {
                assert(names(v@)[i as int] == x@);
            }
            return true;
        }
        i += 1;
    }
    proof {
        if names(v@).contains(x@) {
            let j = choose|j: int| 0 <= j < names(v@).len() && names(v@)[j] == x@;
            assert(v@[j]@ == x@);
        }
    }
    false
}

/// `t1`'s values, then `t2`'s values at `extras`.
fn joined_values(t1: &Vec<Value>, t2: &Vec<Value>, extras: &Vec<usize>, Ghost(ex): Ghost<Seq<int>>) -> (r: Vec<Value>)
    requires
        extras@.len() == ex.len(),
        forall|k: int| 0 <= k < ex.len() ==> extras@[k] == ex[k] && #[trigger] ex[k] < t2@.len(),
    ensures
        r@ == t1@ + pick(t2@, ex),
{
    let mut vals = copy_values(t1);
    let mut k: usize = 0;
    while k < extras.len()
        invariant
            k <= extras@.len(),
            extras@.len() == ex.len(),
            forall|kk: int| 0 <= kk < ex.len() ==> extras@[kk] == ex[kk] && #[trigger] ex[kk] < t2@.len(),
            vals@ == t1@ + pick(t2@, ex.subrange(0, k as int)),
        decreases extras@.len() - k,
    {
        proof {
            assert(extras@[k as int] == ex[k as int]);
        }
        vals.push(t2[extras[k]].duplicate());
        proof {
            assert(vals@ =~= t1@ + pick(t2@, ex.subrange(0, k as int + 1)));
        }
        k += 1;
    }
    proof {
        assert(ex.subrange(0, k as int) =~= ex);
    }
    vals
}

/// All of `t1`'s values, then all of `t2`'s.
fn concat_values(t1: &Vec<Value>, t2: &Vec<Value>) -> (r: Vec<Value>)
    ensures
        r@ == t1@ + t2@,
{
    let mut vals = copy_values(t1);
    let mut k: usize = 0;
    while k < t2.len()
        invariant
            k <= t2@.len(),
            vals@ == t1@ + t2@.subrange(0, k as int),
        decreases t2@.len() - k,
    {
        vals.push(t2[k].duplicate());
        proof {
            assert(vals@ =~= t1@ + t2@.subrange(0, k as int + 1));
        }
        k += 1;
    }
    proof {
        assert(t2@.subrange(0, k as int) =~= t2@);
    }
    vals
}

impl Relation {
    /// θ-join: the cross product, keeping the pairs for which `predicate`
    /// holds.
    pub fn theta_join<F>(&self, other: &Relation, predicate: F) -> (r: Relation)
        where
            F: Fn(&Tuple, &Tuple) -> bool,
        requires
            forall|i: int, j: int| 0 <= i < self.tuples@.len() && 0 <= j < other.tuples@.len() ==> call_requires(predicate, (&self.tuples@[i], &other.tuples@[j])),
        ensures
            r.schema@ == self.schema@ + other.schema@,
            exists|keep: Seq<Seq<bool>>| #[trigger] keep.len() == self.tuples@.len()
                && (forall|i: int| 0 <= i < keep.len() ==> (#[trigger] keep[i]).len() == other.tuples@.len())
                && (forall|i: int, j: int| 0 <= i < self.tuples@.len() && 0 <= j < other.tuples@.len() ==> #[trigger] pair_gave(predicate, &self.tuples@[i], &other.tuples@[j], keep[i][j]))
                && rows(r.tuples@) == theta_rows(rows(self.tuples@), rows(other.tuples@), keep),
    {
        let mut combined_schema = copy_strings(&self.schema);
        let mut j: usize = 0;
        while j < other.schema.len()
            invariant
                j <= other.schema@.len(),
                combined_schema@ == self.schema@ + other.schema@.subrange(0, j as int),
            decreases other.schema@.len() - j,
        {
            combined_schema.push(other.schema[j].clone());
            proof {
                assert(combined_schema@ =~= self.schema@ + other.schema@.subrange(0, j as int + 1));
            }
            j += 1;
        }
        proof {
            assert(other.schema@.subrange(0, j as int) =~= other.schema@);
        }
        let ghost r1 = rows(self.tuples@);
        let ghost r2 = rows(other.tuples@);
        let ghost mut keep: Seq<Seq<bool>> = Seq::empty();
        let mut tuples: Vec<Tuple> = Vec::new();
        let mut i: usize = 0;
        while i < self.tuples.len()
            invariant
                i <= self.tuples@.len(),
                r1 == rows(self.tuples@),
                r2 == rows(other.tuples@),
                forall|ii: int, jj: int| 0 <= ii < self.tuples@.len() && 0 <= jj < other.tuples@.len() ==> call_requires(predicate, (&self.tuples@[ii], &other.tuples@[jj])),
                keep.len() == i,
                forall|ii: int| 0 <= ii < i ==> (#[trigger] keep[ii]).len() == other.tuples@.len(),
                forall|ii: int, jj: int| 0 <= ii < i && 0 <= jj < other.tuples@.len() ==> #[trigger] pair_gave(predicate, &self.tuples@[ii], &other.tuples@[jj], keep[ii][jj]),
                rows(tuples@) == theta_rows(r1.subrange(0, i as int), r2, keep),
            decreases self.tuples@.len() - i,
        {
            let ghost base = rows(tuples@);
            let ghost mut row_keep: Seq<bool> = Seq::empty();
            let t1 = &self.tuples[i];
            let mut j: usize = 0;
            while j < other.tuples.len()
                invariant
                    i < self.tuples@.len(),
                    j <= other.tuples@.len(),
                    r1 == rows(self.tuples@),
                    r2 == rows(other.tuples@),
                    t1 == &self.tuples@[i as int],
                    forall|jj: int| 0 <= jj < other.tuples@.len() ==> call_requires(predicate, (&self.tuples@[i as int], &other.tuples@[jj])),
                    row_keep.len() == j,
                    forall|jj: int| 0 <= jj < j ==> #[trigger] pair_gave(predicate, &self.tuples@[i as int], &other.tuples@[jj], row_keep[jj]),
                    rows(tuples@) == base + kept_rows(concat_each(r1[i as int], r2).subrange(0, j as int), row_keep),
                decreases other.tuples@.len() - j,
            {
                let t2 = &other.tuples[j];
                let b = predicate(t1, t2);
                let ghost before = rows(tuples@);
                if b {
                    let vals = concat_values(&t1.values, &t2.values);
                    tuples.push(Tuple::new(vals));
                    proof {
                        assert(rows(tuples@) =~= before.push(r1[i as int] + r2[j as int]));
                    }
                }
                proof {
                    lemma_kept_rows_step(concat_each(r1[i as int], r2), row_keep, j as int, b);
                    assert(concat_each(r1[i as int], r2)[j as int] == r1[i as int] + r2[j as int]);
                    row_keep = row_keep.push(b);
                    assert forall|jj: int| 0 <= jj < j + 1 implies #[trigger] pair_gave(predicate, &self.tuples@[i as int], &other.tuples@[jj], row_keep[jj]) by {
                        if jj == j {
                            assert(call_ensures(predicate, (t1, t2), b));
                        }
                    }
                }
                j += 1;
            }
            proof {
                assert(concat_each(r1[i as int], r2).subrange(0, j as int) =~= concat_each(r1[i as int], r2));
                assert(r1.subrange(0, i as int + 1).drop_last() =~= r1.subrange(0, i as int));
                assert(r1.subrange(0, i as int + 1).last() == r1[i as int]);
                assert(keep.push(row_keep).drop_last() =~= keep);
                keep = keep.push(row_keep);
                assert forall|ii: int, jj: int| 0 <= ii < i + 1 && 0 <= jj < other.tuples@.len() implies #[trigger] pair_gave(predicate, &self.tuples@[ii], &other.tuples@[jj], keep[ii][jj]) by {
                    if ii < i {
                        assert(keep[ii] == keep.drop_last()[ii]);
                    }
                }
            }
            i += 1;
        }
        proof {
            assert(r1.subrange(0, i as int) =~= r1);
        }
        Relation { schema: combined_schema, tuples }
    }

    /// The attributes of `self` that `other` also has: their positions in
    /// `self`, their first positions in `other`, and their names.
    fn shared_columns(&self, other: &Relation) -> (r: (Vec<usize>, Vec<usize>, Vec<String>))
        ensures
            r.0@.len() == common_upto(names(self.schema@), names(other.schema@), self.schema@.len() as int).len(),
            r.1@.len() == r.0@.len(),
            forall|k: int| 0 <= k < r.0@.len() ==> (#[trigger] common_upto(names(self.schema@), names(other.schema@), self.schema@.len() as int)[k]) == (r.0@[k] as int, r.1@[k] as int),
            forall|k: int| 0 <= k < r.0@.len() ==> r.0@[k] < self.schema@.len() && r.1@[k] < other.schema@.len(),
            forall|x: Seq<char>| names(r.2@).contains(x) <==> (names(self.schema@).contains(x) && names(other.schema@).contains(x)),
    {
        let ghost n1 = names(self.schema@);
        let ghost n2 = names(other.schema@);
        let mut common_left: Vec<usize> = Vec::new();
        let mut common_right: Vec<usize> = Vec::new();
        let mut common_names: Vec<String> = Vec::new();
        let mut i: usize = 0;
        while i < self.schema.len()
            invariant
                i <= self.schema@.len(),
                n1 == names(self.schema@),
                n2 == names(other.schema@),
                common_left@.len() == common_upto(n1, n2, i as int).len(),
                common_right@.len() == common_upto(n1, n2, i as int).len(),
                forall|k: int| 0 <= k < common_left@.len() ==> (#[trigger] common_upto(n1, n2, i as int)[k]) == (common_left@[k] as int, common_right@[k] as int),
                forall|k: int| 0 <= k < common_left@.len() ==> common_left@[k] < i && common_right@[k] < other.schema@.len(),
                forall|x: Seq<char>| #[trigger] names(common_names@).contains(x) <==> (n1.subrange(0, i as int).contains(x) && n2.contains(x)),
            decreases self.schema@.len() - i,
        {
            let name = &self.schema[i];
            let ghost before = names(common_names@);
            proof {
                lemma_first_index(n2, name@);
                assert(n1[i as int] == name@);
                assert(n1.subrange(0, i as int + 1) =~= n1.subrange(0, i as int).push(name@));
            }
            match other.column_index(name.as_str()) {
                Some(j) => {
                    common_left.push(i);
                    common_right.push(j);
                    common_names.push(name.clone());
                    proof {
                        assert(names(common_names@) =~= before.push(name@));
                        assert(n2.contains(name@));
                        lemma_shared_names_step(before, names(common_names@), n1.subrange(0, i as int), name@, n2);
                        assert forall|k: int| 0 <= k < common_left@.len() implies (#[trigger] common_upto(n1, n2, i as int + 1)[k]) == (common_left@[k] as int, common_right@[k] as int) by {
                            if k < common_left@.len() - 1 {
                                assert(common_upto(n1, n2, i as int + 1)[k] == common_upto(n1, n2, i as int)[k]);
                            }
                        }
                    }
                },
                None => {
                    proof {
                        assert(!n2.contains(name@));
                        assert(names(common_names@) == before);
                        lemma_shared_names_step(before, names(common_names@), n1.subrange(0, i as int), name@, n2);
                        assert forall|k: int| 0 <= k < common_left@.len() implies (#[trigger] common_upto(n1, n2, i as int + 1)[k]) == (common_left@[k] as int, common_right@[k] as int) by {
                            assert(common_upto(n1, n2, i as int + 1)[k] == common_upto(n1, n2, i as int)[k]);
                        }
                    }
                },
            }
            i += 1;
        }
        proof {
            assert(n1.subrange(0, i as int) =~= n1);
            assert forall|x: Seq<char>| names(common_names@).contains(x) <==> (n1.contains(x) && n2.contains(x)) by {
                assert(n1.subrange(0, i as int).contains(x) <==> n1.contains(x));
            }
        }
        (common_left, common_right, common_names)
    }

    /// ⋈: the natural join on the attributes the two relations share; the
    /// cross product when they share none. The result has the attributes of
    /// `self`, then those of `other` that `self` lacks.
    #[verifier::spinoff_prover]
    #[verifier::rlimit(40)]
    pub fn join(&self, other: &Relation) -> (r: Relation)
        requires
            common_upto(names(self.schema@), names(other.schema@), self.schema@.len() as int).len() > 0 ==> {
                &&& rows_cover(rows(self.tuples@), self.schema@.len() as int)
                &&& rows_cover(rows(other.tuples@), other.schema@.len() as int)
            },
        ensures
            common_upto(names(self.schema@), names(other.schema@), self.schema@.len() as int).len() == 0 ==> {
                &&& r.schema@ == self.schema@ + other.schema@
                &&& rows(r.tuples@) == cross_rows(rows(self.tuples@), rows(other.tuples@))
            },
            common_upto(names(self.schema@), names(other.schema@), self.schema@.len() as int).len() > 0 ==> {
                &&& names(r.schema@) == names(self.schema@) + extras_upto(names(self.schema@), names(other.schema@), other.schema@.len() as int).map_values(|j: int| names(other.schema@)[j])
                &&& rows(r.tuples@) == join_rows(rows(self.tuples@), rows(other.tuples@), common_upto(names(self.schema@), names(other.schema@), self.schema@.len() as int), extras_upto(names(self.schema@), names(other.schema@), other.schema@.len() as int))
            },
    {
        let ghost n1 = names(self.schema@);
        let ghost n2 = names(other.schema@);
        let (common_left, common_right, common_names) = self.shared_columns(other);
        let ghost common = common_upto(n1, n2, self.schema@.len() as int);
        if common_left.len() == 0 {
            return self.cross_product(other);
        }
        let mut extras: Vec<usize> = Vec::new();
        let mut out_schema = copy_strings(&self.schema);
        let mut j: usize = 0;
        while j < other.schema.len()
            invariant
                j <= other.schema@.len(),
                n1 == names(self.schema@),
                n2 == names(other.schema@),
                forall|x: Seq<char>| names(common_names@).contains(x) <==> (n1.contains(x) && n2.contains(x)),
                extras@.len() == extras_upto(n1, n2, j as int).len(),
                forall|k: int| 0 <= k < extras@.len() ==> (#[trigger] extras_upto(n1, n2, j as int)[k]) == extras@[k] as int && extras@[k] < j,
                names(out_schema@) == n1 + extras_upto(n1, n2, j as int).map_values(|jj: int| n2[jj]),
            decreases other.schema@.len() - j,
        {
            let name = &other.schema[j];
            proof {
                assert(n2[j as int] == name@);
                assert(n2.contains(name@));
            }
            if !contains_string(&common_names, name) {
                let ghost before = names(out_schema@);
                extras.push(j);
                out_schema.push(name.clone());
                proof {
                    assert(!n1.contains(n2[j as int]));
                    assert(names(out_schema@) =~= before.push(name@));
                    assert(extras_upto(n1, n2, j as int + 1) == extras_upto(n1, n2, j as int).push(j as int));
                    assert(names(out_schema@) =~= n1 + extras_upto(n1, n2, j as int + 1).map_values(|jj: int| n2[jj]));
                    assert forall|k: int| 0 <= k < extras@.len() implies (#[trigger] extras_upto(n1, n2, j as int + 1)[k]) == extras@[k] as int && extras@[k] < j + 1 by {
                        if k < extras@.len() - 1 {
                            assert(extras_upto(n1, n2, j as int + 1)[k] == extras_upto(n1, n2, j as int)[k]);
                            assert(extras_upto(n1, n2, j as int)[k] == extras@[k] as int);
                        } else {
                            assert(extras@[k] == j);
                        }
                    }
                }
            } else {
                proof {
                    assert(n1.contains(n2[j as int]));
                    assert(extras_upto(n1, n2, j as int + 1) == extras_upto(n1, n2, j as int));
                    assert forall|k: int| 0 <= k < extras@.len() implies (#[trigger] extras_upto(n1, n2, j as int + 1)[k]) == extras@[k] as int && extras@[k] < j + 1 by {
                        assert(extras_upto(n1, n2, j as int)[k] == extras@[k] as int);
                    }
                }
            }
            j += 1;
        }
        let ghost ex = extras_upto(n1, n2, other.schema@.len() as int);
        let ghost r1 = rows(self.tuples@);
        let ghost r2 = rows(other.tuples@);
        let mut out_tuples: Vec<Tuple> = Vec::new();
        let mut i: usize = 0;
        while i < self.tuples.len()
            invariant
                i <= self.tuples@.len(),
                r1 == rows(self.tuples@),
                r2 == rows(other.tuples@),
                rows_cover(r1, self.schema@.len() as int),
                rows_cover(r2, other.schema@.len() as int),
                common_left@.len() == common.len(),
                common_right@.len() == common.len(),
                forall|k: int| 0 <= k < common.len() ==> (#[trigger] common[k]) == (common_left@[k] as int, common_right@[k] as int),
                forall|k: int| 0 <= k < common.len() ==> common_left@[k] < self.schema@.len() && common_right@[k] < other.schema@.len(),
                extras@.len() == ex.len(),
                forall|k: int| 0 <= k < ex.len() ==> extras@[k] == ex[k] && #[trigger] ex[k] < other.schema@.len(),
                rows(out_tuples@) == join_rows(r1.subrange(0, i as int), r2, common, ex),
            decreases self.tuples@.len() - i,
        {
            let t1 = &self.tuples[i];
            let ghost base = rows(out_tuples@);
            proof {
                assert(r1[i as int] == t1.values@);
                assert(t1.values@.len() >= self.schema@.len());
            }
            let mut j: usize = 0;
            while j < other.tuples.len()
                invariant
                    i < self.tuples@.len(),
                    j <= other.tuples@.len(),
                    r1 == rows(self.tuples@),
                    r2 == rows(other.tuples@),
                    t1.values@ == r1[i as int],
                    t1.values@.len() >= self.schema@.len(),
                    rows_cover(r2, other.schema@.len() as int),
                    common_left@.len() == common.len(),
                    common_right@.len() == common.len(),
                    forall|k: int| 0 <= k < common.len() ==> (#[trigger] common[k]) == (common_left@[k] as int, common_right@[k] as int),
                    forall|k: int| 0 <= k < common.len() ==> common_left@[k] < self.schema@.len() && common_right@[k] < other.schema@.len(),
                    extras@.len() == ex.len(),
                    forall|k: int| 0 <= k < ex.len() ==> extras@[k] == ex[k] && #[trigger] ex[k] < other.schema@.len(),
                    rows(out_tuples@) == base + join_pairs(r1[i as int], r2.subrange(0, j as int), common, ex),
                decreases other.tuples@.len() - j,
            {
                let t2 = &other.tuples[j];
                proof {
                    assert(r2[j as int] == t2.values@);
                    assert(t2.values@.len() >= other.schema@.len());
                    assert(r2.subrange(0, j as int + 1).drop_last() =~= r2.subrange(0, j as int));
                    assert(r2.subrange(0, j as int + 1).last() == t2.values@);
                }
                let mut matches = true;
                let mut k: usize = 0;
                while k < common_left.len()
                    invariant
                        k <= common_left@.len(),
                        common_left@.len() == common.len(),
                        common_right@.len() == common.len(),
                        forall|kk: int| 0 <= kk < common.len() ==> (#[trigger] common[kk]) == (common_left@[kk] as int, common_right@[kk] as int),
                        forall|kk: int| 0 <= kk < common.len() ==> common_left@[kk] < t1.values@.len() && common_right@[kk] < t2.values@.len(),
                        matches == forall|kk: int| 0 <= kk < k ==> value_eq(t1.values@[(#[trigger] common[kk]).0], t2.values@[common[kk].1]),
                    decreases common_left@.len() - k,
                {
                    let a = common_left[k];
                    let b = common_right[k];
                    proof {
                        assert(common[k as int] == (a as int, b as int));
                    }
                    if !value_equal(&t1.values[a], &t2.values[b]) {
                        matches = false;
                    }
                    k += 1;
                }
                proof {
                    assert(matches == rows_match(t1.values@, t2.values@, common));
                }
                if matches {
                    let vals = joined_values(&t1.values, &t2.values, &extras, Ghost(ex));
                    let ghost before = rows(out_tuples@);
                    out_tuples.push(Tuple::new(vals));
                    proof {
                        assert(rows(out_tuples@) =~= before.push(t1.values@ + pick(t2.values@, ex)));
                    }
                }
                j += 1;
            }
            proof {
                assert(r2.subrange(0, j as int) =~= r2);
                assert(r1.subrange(0, i as int + 1).drop_last() =~= r1.subrange(0, i as int));
                assert(r1.subrange(0, i as int + 1).last() == r1[i as int]);
            }
            i += 1;
        }
        proof {
            assert(r1.subrange(0, i as int) =~= r1);
        }
        Relation { schema: out_schema, tuples: out_tuples }
    }
}

} // verus!
