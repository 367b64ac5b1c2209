//! B-tree index from `i64` keys to byte-string values, with insertion
//! (splitting full nodes), point lookup and range scans.

use vstd::prelude::*;

verus! {

/// Maximum number of children per internal node of a tree made by `BTree::new`.
pub const DEFAULT_ORDER: usize = 4;

/// A node of the tree: internal nodes hold separator keys and children,
/// leaves hold the keys and their values.
#[derive(Debug)]
pub enum BTreeNode {
    Internal { keys: Vec<i64>, children: Vec<Box<BTreeNode>> },
    Leaf { keys: Vec<i64>, values: Vec<Vec<u8>> },
}

/// One stored pair, as the specifications see it.
pub type Entry = (i64, Seq<u8>);

// ---------------------------------------------------------------------------
// The abstract content of a tree: its pairs, left to right.
// ---------------------------------------------------------------------------

/// The pairs held by the children `a .. b` of an internal node, left to right.
pub open spec fn children_entries(cs: Seq<Box<BTreeNode>>, a: int, b: int) -> Seq<Entry>
    decreases cs, b - a,
{
    if a < 0 || b <= a || b > cs.len() {
        Seq::empty()
    } else {
        children_entries(cs, a, b - 1) + node_entries(*cs[b - 1])
    }
}

/// The pairs held by the subtree rooted at `n`, left to right.
pub open spec fn node_entries(n: BTreeNode) -> Seq<Entry>
    decreases n, 0int,
{
    match n {
        BTreeNode::Leaf { keys, values } => Seq::new(
            keys.len() as nat,
            |i: int| (keys@[i], values@[i]@),
        ),
        BTreeNode::Internal { keys, children } => children_entries(
            children@,
            0,
            children@.len() as int,
        ),
    }
}

/// Keys strictly increase along `s`.
pub open spec fn entries_sorted(s: Seq<Entry>) -> bool {
    forall|i: int, j: int| 0 <= i < j < s.len() ==> s[i].0 < s[j].0
}

/// Every key of `s` lies in `[lo, hi)`.
pub open spec fn entries_within(s: Seq<Entry>, lo: int, hi: int) -> bool {
    forall|i: int| 0 <= i < s.len() ==> lo <= #[trigger] s[i].0 && s[i].0 < hi
}

/// Keys strictly increase along `keys`, and all lie in `[lo, hi)`.
pub open spec fn keys_sorted_within(keys: Seq<i64>, lo: int, hi: int) -> bool {
    &&& forall|i: int, j: int| 0 <= i < j < keys.len() ==> keys[i] < keys[j]
    &&& forall|i: int| 0 <= i < keys.len() ==> lo <= #[trigger] keys[i] && keys[i] < hi
}

/// Lower bound of the keys that the `i`-th child of a node with separators `keys` may hold.
pub open spec fn lower_at(lo: int, keys: Seq<i64>, i: int) -> int {
    if i <= 0 {
        lo
    } else {
        keys[i - 1] as int
    }
}

/// Upper bound (exclusive) of the keys that the `i`-th child may hold.
pub open spec fn upper_at(hi: int, keys: Seq<i64>, i: int) -> int {
    if i >= keys.len() {
        hi
    } else {
        keys[i] as int
    }
}

/// The height of a subtree, measured along its leftmost path.
pub open spec fn node_height(n: BTreeNode) -> nat
    decreases n,
{
    match n {
        BTreeNode::Leaf { .. } => 0,
        BTreeNode::Internal { children, .. } => if children@.len() == 0 {
            1
        } else {
            1 + node_height(*children@[0])
        },
    }
}

/// The subtree at `n` is a well-formed B-tree node: its keys lie in `[lo, hi)`,
/// separators bound their children, every leaf is exactly `height` levels
/// below `n`, and every node holds between 1 and `max_keys` keys.
pub open spec fn node_wf(n: BTreeNode, lo: int, hi: int, height: nat, max_keys: nat) -> bool
    decreases n,
{
    match n {
        BTreeNode::Leaf { keys, values } => {
            &&& height == 0
            &&& keys.len() == values.len()
            &&& 1 <= keys.len() <= max_keys
            &&& keys_sorted_within(keys@, lo, hi)
        },
        BTreeNode::Internal { keys, children } => {
            &&& height > 0
            &&& children.len() == keys.len() + 1
            &&& 1 <= keys.len() <= max_keys
            &&& keys_sorted_within(keys@, lo, hi)
            &&& forall|i: int|
                0 <= i < children@.len() ==> node_wf(
                    *#[trigger] children@[i],
                    lower_at(lo, keys@, i),
                    upper_at(hi, keys@, i),
                    (height - 1) as nat,
                    max_keys,
                )
        },
    }
}

// ---------------------------------------------------------------------------
// Operations on sorted pair sequences.
// ---------------------------------------------------------------------------

/// `s` with `(k, v)` put in its place by key: an existing pair with key `k`
/// is replaced, otherwise the pair is inserted before the first larger key.
pub open spec fn entries_insert(s: Seq<Entry>, k: i64, v: Seq<u8>) -> Seq<Entry>
    decreases s.len(),
{
    if s.len() == 0 {
        seq![(k, v)]
    } else if s.last().0 < k {
        s.push((k, v))
    } else if s.last().0 == k {
        s.drop_last().push((k, v))
    } else {
        entries_insert(s.drop_last(), k, v).push(s.last())
    }
}

/// The value paired with `k` in `s` (the last such pair), if any.
pub open spec fn entries_lookup(s: Seq<Entry>, k: i64) -> Option<Seq<u8>>
    decreases s.len(),
{
    if s.len() == 0 {
        None
    } else if s.last().0 == k {
        Some(s.last().1)
    } else {
        entries_lookup(s.drop_last(), k)
    }
}

/// The pairs of `s` whose key lies in `[lo, hi]`, in order.
pub open spec fn entries_in_range(s: Seq<Entry>, lo: i64, hi: i64) -> Seq<Entry>
    decreases s.len(),
{
    if s.len() == 0 {
        Seq::empty()
    } else if lo <= s.last().0 && s.last().0 <= hi {
        entries_in_range(s.drop_last(), lo, hi).push(s.last())
    } else {
        entries_in_range(s.drop_last(), lo, hi)
    }
}

/// The keys of `s`, in order.
pub open spec fn entry_keys(s: Seq<Entry>) -> Seq<i64> {
    s.map_values(|e: Entry| e.0)
}


// ---------------------------------------------------------------------------
// Lemmas about the content of nodes.
// ---------------------------------------------------------------------------

/// Sibling runs concatenate.
pub proof fn lemma_children_entries_concat(cs: Seq<Box<BTreeNode>>, a: int, b: int, c: int)
    requires
        0 <= a <= b <= c <= cs.len(),
    ensures
        children_entries(cs, a, c) == children_entries(cs, a, b) + children_entries(cs, b, c),
    decreases c - b,
{
    if c == b {
        assert(children_entries(cs, b, c) =~= Seq::<Entry>::empty());
        assert(children_entries(cs, a, b) + children_entries(cs, b, c) =~= children_entries(cs, a, b));
    } else {
        lemma_children_entries_concat(cs, a, b, c - 1);
        if b == c - 1 {
            assert(children_entries(cs, b, c - 1) =~= Seq::<Entry>::empty());
        }
        assert(children_entries(cs, a, c) =~= children_entries(cs, a, b) + children_entries(cs, b, c));
    }
}

/// A run of one sibling holds that sibling's pairs.
pub proof fn lemma_children_entries_one(cs: Seq<Box<BTreeNode>>, i: int)
    requires
        0 <= i < cs.len(),
    ensures
        children_entries(cs, i, i + 1) == node_entries(*cs[i]),
{
    assert(children_entries(cs, i, i) =~= Seq::<Entry>::empty());
    assert(children_entries(cs, i, i + 1) =~= node_entries(*cs[i]));
}

/// Runs of equal siblings hold equal pairs, wherever they stand.
pub proof fn lemma_children_entries_shift(
    cs1: Seq<Box<BTreeNode>>,
    a1: int,
    cs2: Seq<Box<BTreeNode>>,
    a2: int,
    n: int,
)
    requires
        0 <= n,
        0 <= a1,
        a1 + n <= cs1.len(),
        0 <= a2,
        a2 + n <= cs2.len(),
        cs1.subrange(a1, a1 + n) == cs2.subrange(a2, a2 + n),
    ensures
        children_entries(cs1, a1, a1 + n) == children_entries(cs2, a2, a2 + n),
    decreases n,
{
    if n > 0 {
        assert(cs1.subrange(a1, a1 + n - 1) =~= cs1.subrange(a1, a1 + n).subrange(0, n - 1));
        assert(cs2.subrange(a2, a2 + n - 1) =~= cs2.subrange(a2, a2 + n).subrange(0, n - 1));
        lemma_children_entries_shift(cs1, a1, cs2, a2, n - 1);
        assert(cs1[a1 + (n - 1)] == cs1.subrange(a1, a1 + n)[n - 1]);
        assert(cs2[a2 + (n - 1)] == cs2.subrange(a2, a2 + n)[n - 1]);
    }
}

/// A well-formed subtree holds at least one pair, its keys strictly increase
/// and lie in its bounds.
pub proof fn lemma_node_wf_entries(n: BTreeNode, lo: int, hi: int, h: nat, m: nat)
    requires
        node_wf(n, lo, hi, h, m),
    ensures
        entries_sorted(node_entries(n)),
        entries_within(node_entries(n), lo, hi),
        node_entries(n).len() >= 1,
    decreases n, 0int,
{
    match n {
        BTreeNode::Leaf { keys, values } => {
            let s = node_entries(n);
            assert forall|i: int| 0 <= i < s.len() implies lo <= #[trigger] s[i].0 && s[i].0 < hi by {
                assert(s[i].0 == keys@[i]);
            }
            assert forall|i: int, j: int| 0 <= i < j < s.len() implies s[i].0 < s[j].0 by {
                assert(s[i].0 == keys@[i]);
                assert(s[j].0 == keys@[j]);
            }
        },
        BTreeNode::Internal { keys, children } => {
            lemma_children_wf_entries(keys@, children@, lo, hi, h, m, 0, children@.len() as int);
        },
    }
}

/// The pairs of children `a .. b` of a well-formed internal node strictly
/// increase and lie between the bounds of child `a` and child `b - 1`.
pub proof fn lemma_children_wf_entries(
    keys: Seq<i64>,
    cs: Seq<Box<BTreeNode>>,
    lo: int,
    hi: int,
    h: nat,
    m: nat,
    a: int,
    b: int,
)
    requires
        0 <= a < b <= cs.len(),
        cs.len() == keys.len() + 1,
        h > 0,
        keys_sorted_within(keys, lo, hi),
        forall|i: int|
            0 <= i < cs.len() ==> node_wf(
                *#[trigger] cs[i],
                lower_at(lo, keys, i),
                upper_at(hi, keys, i),
                (h - 1) as nat,
                m,
            ),
    ensures
        entries_sorted(children_entries(cs, a, b)),
        entries_within(children_entries(cs, a, b), lower_at(lo, keys, a), upper_at(hi, keys, b - 1)),
        children_entries(cs, a, b).len() >= b - a,
    decreases cs, b - a,
{
    let last = node_entries(*cs[b - 1]);
    assert(node_wf(*cs[b - 1], lower_at(lo, keys, b - 1), upper_at(hi, keys, b - 1), (h - 1) as nat, m));
    lemma_node_wf_entries(*cs[b - 1], lower_at(lo, keys, b - 1), upper_at(hi, keys, b - 1), (h - 1) as nat, m);
    if b - 1 == a {
        assert(children_entries(cs, a, b - 1) =~= Seq::<Entry>::empty());
        assert(children_entries(cs, a, b) =~= last);
    } else {
        lemma_children_wf_entries(keys, cs, lo, hi, h, m, a, b - 1);
        let first = children_entries(cs, a, b - 1);
        let all = children_entries(cs, a, b);
        assert(all =~= first + last);
        // the first run ends below separator b - 2, where the last child starts
        assert(upper_at(hi, keys, b - 2) == lower_at(lo, keys, b - 1));
        assert(lower_at(lo, keys, a) <= lower_at(lo, keys, b - 1)) by {
            if a > 0 {
                assert(keys[a - 1] <= keys[b - 2]);
            }
        }
        assert(upper_at(hi, keys, b - 2) <= upper_at(hi, keys, b - 1)) by {
            if b - 1 < keys.len() {
                assert(keys[b - 2] < keys[b - 1]);
            } else {
                assert(keys[b - 2] < hi);
            }
        }
        assert forall|i: int| 0 <= i < all.len() implies lower_at(lo, keys, a) <= #[trigger] all[i].0
            && all[i].0 < upper_at(hi, keys, b - 1) by {
            if i < first.len() {
                assert(all[i] == first[i]);
            } else {
                assert(all[i] == last[i - first.len()]);
            }
        }
        assert forall|i: int, j: int| 0 <= i < j < all.len() implies all[i].0 < all[j].0 by {
            if j < first.len() {
                assert(all[i] == first[i]);
                assert(all[j] == first[j]);
            } else if i >= first.len() {
                assert(all[i] == last[i - first.len()]);
                assert(all[j] == last[j - first.len()]);
            } else {
                assert(all[i] == first[i]);
                assert(all[j] == last[j - first.len()]);
            }
        }
    }
}


// ---------------------------------------------------------------------------
// Lemmas about sorted pair sequences.
// ---------------------------------------------------------------------------

/// Inserting a new key at its sorted position.
pub proof fn lemma_insert_at(s: Seq<Entry>, i: int, k: i64, v: Seq<u8>)
    requires
        0 <= i <= s.len(),
        forall|j: int| 0 <= j < i ==> (#[trigger] s[j]).0 < k,
        forall|j: int| i <= j < s.len() ==> (#[trigger] s[j]).0 > k,
    ensures
        entries_insert(s, k, v) == s.insert(i, (k, v)),
    decreases s.len(),
{
    if s.len() == 0 {
        assert(s.insert(i, (k, v)) =~= seq![(k, v)]);
    } else if i == s.len() {
        assert(s.last().0 < k);
        assert(s.insert(i, (k, v)) =~= s.push((k, v)));
    } else {
        assert(s.last() == s[s.len() - 1]);
        lemma_insert_at(s.drop_last(), i, k, v);
        assert(s.insert(i, (k, v)) =~= s.drop_last().insert(i, (k, v)).push(s.last()));
    }
}

/// Replacing the value of a present key.
pub proof fn lemma_update_at(s: Seq<Entry>, i: int, k: i64, v: Seq<u8>)
    requires
        0 <= i < s.len(),
        s[i].0 == k,
        entries_sorted(s),
    ensures
        entries_insert(s, k, v) == s.update(i, (k, v)),
    decreases s.len(),
{
    if i == s.len() - 1 {
        assert(s.update(i, (k, v)) =~= s.drop_last().push((k, v)));
    } else {
        assert(s.last().0 > k);
        lemma_update_at(s.drop_last(), i, k, v);
        assert(s.update(i, (k, v)) =~= s.drop_last().update(i, (k, v)).push(s.last()));
    }
}

/// Pairs after every larger key stay put.
pub proof fn lemma_insert_append(a: Seq<Entry>, c: Seq<Entry>, k: i64, v: Seq<u8>)
    requires
        forall|j: int| 0 <= j < c.len() ==> (#[trigger] c[j]).0 > k,
    ensures
        entries_insert(a + c, k, v) == entries_insert(a, k, v) + c,
    decreases c.len(),
{
    if c.len() == 0 {
        assert(a + c =~= a);
        assert(entries_insert(a, k, v) + c =~= entries_insert(a, k, v));
    } else {
        let c0 = c.drop_last();
        assert((a + c).drop_last() =~= a + c0);
        assert((a + c).last() == c.last());
        lemma_insert_append(a, c0, k, v);
        assert(entries_insert(a, k, v) + c =~= (entries_insert(a, k, v) + c0).push(c.last()));
    }
}

/// Pairs before every smaller key stay put.
pub proof fn lemma_insert_prepend(a: Seq<Entry>, b: Seq<Entry>, k: i64, v: Seq<u8>)
    requires
        forall|j: int| 0 <= j < a.len() ==> (#[trigger] a[j]).0 < k,
    ensures
        entries_insert(a + b, k, v) == a + entries_insert(b, k, v),
    decreases b.len(),
{
    if b.len() == 0 {
        assert(a + b =~= a);
        if a.len() > 0 {
            assert(a.last() == a[a.len() - 1]);
        }
        assert(a + seq![(k, v)] =~= a.push((k, v)));
    } else {
        let b0 = b.drop_last();
        assert((a + b).drop_last() =~= a + b0);
        assert((a + b).last() == b.last());
        if b.last().0 < k {
            assert(a + b.push((k, v)) =~= (a + b).push((k, v)));
        } else if b.last().0 == k {
            assert(a + b0.push((k, v)) =~= (a + b).drop_last().push((k, v)));
        } else {
            lemma_insert_prepend(a, b0, k, v);
            assert(a + entries_insert(b0, k, v).push(b.last()) =~= (a + entries_insert(b0, k, v)).push(
                b.last(),
            ));
        }
    }
}

/// Inserting into the middle run of three.
pub proof fn lemma_insert_middle(a: Seq<Entry>, b: Seq<Entry>, c: Seq<Entry>, k: i64, v: Seq<u8>)
    requires
        forall|j: int| 0 <= j < a.len() ==> (#[trigger] a[j]).0 < k,
        forall|j: int| 0 <= j < c.len() ==> (#[trigger] c[j]).0 > k,
    ensures
        entries_insert(a + b + c, k, v) == a + entries_insert(b, k, v) + c,
{
    lemma_insert_append(a + b, c, k, v);
    lemma_insert_prepend(a, b, k, v);
}

/// Insertion keeps a run sorted and within bounds that hold the new key.
pub proof fn lemma_insert_sorted(s: Seq<Entry>, k: i64, v: Seq<u8>, lo: int, hi: int)
    requires
        entries_sorted(s),
        entries_within(s, lo, hi),
        lo <= k < hi,
    ensures
        entries_sorted(entries_insert(s, k, v)),
        entries_within(entries_insert(s, k, v), lo, hi),
        entries_insert(s, k, v).len() >= 1,
    decreases s.len(),
{
    if s.len() > 0 {
        let s0 = s.drop_last();
        let l = s.last();
        assert(l == s[s.len() - 1]);
        if l.0 > k {
            lemma_insert_sorted(s0, k, v, lo, hi);
            let r = entries_insert(s0, k, v);
            // every key of r is a key of s0 or k, all below l
            assert forall|i: int| 0 <= i < r.len() implies (#[trigger] r[i]).0 < l.0 by {
                lemma_insert_keys(s0, k, v, i);
            }
            let t = r.push(l);
            assert forall|i: int, j: int| 0 <= i < j < t.len() implies t[i].0 < t[j].0 by {
                if j == t.len() - 1 {
                    assert(t[i] == r[i]);
                } else {
                    assert(t[i] == r[i]);
                    assert(t[j] == r[j]);
                }
            }
            assert forall|i: int| 0 <= i < t.len() implies lo <= #[trigger] t[i].0 && t[i].0 < hi by {
                if i < r.len() {
                    assert(t[i] == r[i]);
                }
            }
        } else {
            let t = entries_insert(s, k, v);
            assert forall|i: int, j: int| 0 <= i < j < t.len() implies t[i].0 < t[j].0 by {
                if j < t.len() - 1 {
                    assert(t[i] == s[i]);
                    assert(t[j] == s[j]);
                } else if i < s.len() {
                    assert(t[i] == s[i]);
                }
            }
            assert forall|i: int| 0 <= i < t.len() implies lo <= #[trigger] t[i].0 && t[i].0 < hi by {
                if i < t.len() - 1 {
                    assert(t[i] == s[i]);
                }
            }
        }
    }
}

/// Every key of an insertion result is a key of the run it was made from or the new key.
pub proof fn lemma_insert_keys(s: Seq<Entry>, k: i64, v: Seq<u8>, i: int)
    requires
        0 <= i < entries_insert(s, k, v).len(),
    ensures
        entries_insert(s, k, v)[i].0 == k || exists|j: int|
            0 <= j < s.len() && (#[trigger] s[j]).0 == entries_insert(s, k, v)[i].0,
    decreases s.len(),
{
    if s.len() > 0 {
        let t = entries_insert(s, k, v);
        if s.last().0 < k {
            if i < s.len() {
                assert(t[i] == s[i]);
            }
        } else if s.last().0 == k {
            if i < s.len() - 1 {
                assert(t[i] == s[i]);
            }
        } else {
            let r = entries_insert(s.drop_last(), k, v);
            if i < r.len() {
                assert(t[i] == r[i]);
                lemma_insert_keys(s.drop_last(), k, v, i);
                if t[i].0 != k {
                    let j = choose|j: int| 0 <= j < s.drop_last().len() && (#[trigger] s.drop_last()[j]).0 == r[i].0;
                    assert(s[j] == s.drop_last()[j]);
                }
            } else {
                assert(t[i] == s[s.len() - 1]);
            }
        }
    }
}

/// A lookup in a concatenation prefers the later run.
pub proof fn lemma_lookup_concat(a: Seq<Entry>, b: Seq<Entry>, k: i64)
    ensures
        entries_lookup(a + b, k) == (if entries_lookup(b, k) is Some {
            entries_lookup(b, k)
        } else {
            entries_lookup(a, k)
        }),
    decreases b.len(),
{
    if b.len() == 0 {
        assert(a + b =~= a);
    } else {
        assert((a + b).drop_last() =~= a + b.drop_last());
        assert((a + b).last() == b.last());
        lemma_lookup_concat(a, b.drop_last(), k);
    }
}

/// A run without key `k` has no value for it.
pub proof fn lemma_lookup_absent(s: Seq<Entry>, k: i64)
    requires
        forall|j: int| 0 <= j < s.len() ==> (#[trigger] s[j]).0 != k,
    ensures
        entries_lookup(s, k) is None,
    decreases s.len(),
{
    if s.len() > 0 {
        assert(s.last() == s[s.len() - 1]);
        lemma_lookup_absent(s.drop_last(), k);
    }
}

/// In a sorted run, the value of a present key is the one paired with it.
pub proof fn lemma_lookup_at(s: Seq<Entry>, i: int)
    requires
        entries_sorted(s),
        0 <= i < s.len(),
    ensures
        entries_lookup(s, s[i].0) == Some(s[i].1),
    decreases s.len(),
{
    if i < s.len() - 1 {
        assert(s.last() == s[s.len() - 1]);
        assert(s.drop_last()[i] == s[i]);
        lemma_lookup_at(s.drop_last(), i);
    }
}

/// Range filtering distributes over concatenation.
pub proof fn lemma_range_concat(a: Seq<Entry>, b: Seq<Entry>, lo: i64, hi: i64)
    ensures
        entries_in_range(a + b, lo, hi) == entries_in_range(a, lo, hi) + entries_in_range(b, lo, hi),
    decreases b.len(),
{
    if b.len() == 0 {
        assert(a + b =~= a);
        assert(entries_in_range(a, lo, hi) + entries_in_range(b, lo, hi) =~= entries_in_range(a, lo, hi));
    } else {
        assert((a + b).drop_last() =~= a + b.drop_last());
        assert((a + b).last() == b.last());
        lemma_range_concat(a, b.drop_last(), lo, hi);
        let ra = entries_in_range(a, lo, hi);
        let rb0 = entries_in_range(b.drop_last(), lo, hi);
        assert(ra + rb0.push(b.last()) =~= (ra + rb0).push(b.last()));
    }
}

/// A run whose keys all fall outside `[lo, hi]` contributes nothing to a range scan.
pub proof fn lemma_range_empty(s: Seq<Entry>, lo: i64, hi: i64)
    requires
        forall|j: int| 0 <= j < s.len() ==> (#[trigger] s[j]).0 < lo || s[j].0 > hi,
    ensures
        entries_in_range(s, lo, hi) == Seq::<Entry>::empty(),
    decreases s.len(),
{
    if s.len() > 0 {
        assert(s.last() == s[s.len() - 1]);
        lemma_range_empty(s.drop_last(), lo, hi);
    }
}


// ---------------------------------------------------------------------------
// Lemmas about internal nodes.
// ---------------------------------------------------------------------------

/// The separators and children of an internal node are well formed
/// (the internal-node arm of `node_wf`, over sequences).
pub open spec fn internal_wf(keys: Seq<i64>, cs: Seq<Box<BTreeNode>>, lo: int, hi: int, h: nat, m: nat) -> bool {
    &&& h > 0
    &&& cs.len() == keys.len() + 1
    &&& 1 <= keys.len() <= m
    &&& keys_sorted_within(keys, lo, hi)
    &&& forall|i: int|
        0 <= i < cs.len() ==> node_wf(
            *#[trigger] cs[i],
            lower_at(lo, keys, i),
            upper_at(hi, keys, i),
            (h - 1) as nat,
            m,
        )
}

/// The pairs of an internal node split around its `i`-th child: those of the
/// children before it lie below the child's lower bound, those after it at or
/// above its upper bound.
pub proof fn lemma_internal_parts(
    keys: Seq<i64>,
    cs: Seq<Box<BTreeNode>>,
    lo: int,
    hi: int,
    h: nat,
    m: nat,
    i: int,
)
    requires
        internal_wf(keys, cs, lo, hi, h, m),
        0 <= i < cs.len(),
    ensures
        children_entries(cs, 0, cs.len() as int) == children_entries(cs, 0, i) + node_entries(*cs[i])
            + children_entries(cs, i + 1, cs.len() as int),
        forall|j: int|
            0 <= j < children_entries(cs, 0, i).len() ==> (#[trigger] children_entries(cs, 0, i)[j]).0
                < lower_at(lo, keys, i),
        forall|j: int|
            0 <= j < children_entries(cs, i + 1, cs.len() as int).len() ==> (
            #[trigger] children_entries(cs, i + 1, cs.len() as int)[j]).0 >= upper_at(hi, keys, i),
{
    let n = cs.len() as int;
    lemma_children_entries_concat(cs, 0, i, n);
    lemma_children_entries_concat(cs, i, i + 1, n);
    lemma_children_entries_one(cs, i);
    assert(children_entries(cs, 0, n) =~= children_entries(cs, 0, i) + node_entries(*cs[i])
        + children_entries(cs, i + 1, n));
    if i > 0 {
        lemma_children_wf_entries(keys, cs, lo, hi, h, m, 0, i);
    }
    if i + 1 < n {
        lemma_children_wf_entries(keys, cs, lo, hi, h, m, i + 1, n);
    } else {
        assert(children_entries(cs, i + 1, n) =~= Seq::<Entry>::empty());
    }
    if i == 0 {
        assert(children_entries(cs, 0, 0) =~= Seq::<Entry>::empty());
    }
}

/// Replacing child `i` by a well-formed subtree with the same bounds and height.
pub proof fn lemma_internal_replace(
    keys: Seq<i64>,
    cs: Seq<Box<BTreeNode>>,
    lo: int,
    hi: int,
    h: nat,
    m: nat,
    i: int,
    c: Box<BTreeNode>,
)
    requires
        internal_wf(keys, cs, lo, hi, h, m),
        0 <= i < cs.len(),
        node_wf(*c, lower_at(lo, keys, i), upper_at(hi, keys, i), (h - 1) as nat, m),
    ensures
        internal_wf(keys, cs.update(i, c), lo, hi, h, m),
        children_entries(cs.update(i, c), 0, cs.len() as int) == children_entries(cs, 0, i)
            + node_entries(*c) + children_entries(cs, i + 1, cs.len() as int),
{
    let n = cs.len() as int;
    let ncs = cs.update(i, c);
    assert forall|j: int| 0 <= j < ncs.len() implies node_wf(
        *#[trigger] ncs[j],
        lower_at(lo, keys, j),
        upper_at(hi, keys, j),
        (h - 1) as nat,
        m,
    ) by {
        if j != i {
            assert(ncs[j] == cs[j]);
        }
    }
    lemma_children_entries_concat(ncs, 0, i, n);
    lemma_children_entries_concat(ncs, i, i + 1, n);
    lemma_children_entries_one(ncs, i);
    assert(ncs.subrange(0, i) =~= cs.subrange(0, i));
    lemma_children_entries_shift(ncs, 0, cs, 0, i);
    assert(ncs.subrange(i + 1, n) =~= cs.subrange(i + 1, n));
    lemma_children_entries_shift(ncs, i + 1, cs, i + 1, n - i - 1);
}

/// Replacing child `i` by the two halves of its split, with the new separator
/// between them.
pub proof fn lemma_internal_split_child(
    keys: Seq<i64>,
    cs: Seq<Box<BTreeNode>>,
    lo: int,
    hi: int,
    h: nat,
    m: nat,
    i: int,
    l: Box<BTreeNode>,
    mk: i64,
    r: Box<BTreeNode>,
)
    requires
        internal_wf(keys, cs, lo, hi, h, m),
        0 <= i < cs.len(),
        lower_at(lo, keys, i) < mk < upper_at(hi, keys, i),
        node_wf(*l, lower_at(lo, keys, i), mk as int, (h - 1) as nat, m),
        node_wf(*r, mk as int, upper_at(hi, keys, i), (h - 1) as nat, m),
    ensures
        ({
            let nkeys = keys.insert(i, mk);
            let ncs = cs.subrange(0, i).push(l).push(r) + cs.subrange(i + 1, cs.len() as int);
            &&& ncs.len() == cs.len() + 1
            &&& ncs == cs.insert(i, l).insert(i + 1, r).remove(i + 2)
            &&& keys_sorted_within(nkeys, lo, hi)
            &&& nkeys.len() == keys.len() + 1
            &&& forall|j: int|
                0 <= j < ncs.len() ==> node_wf(
                    *#[trigger] ncs[j],
                    lower_at(lo, nkeys, j),
                    upper_at(hi, nkeys, j),
                    (h - 1) as nat,
                    m,
                )
            &&& children_entries(ncs, 0, ncs.len() as int) == children_entries(cs, 0, i)
                + node_entries(*l) + node_entries(*r) + children_entries(cs, i + 1, cs.len() as int)
        }),
{
    let n = cs.len() as int;
    let nkeys = keys.insert(i, mk);
    let ncs = cs.subrange(0, i).push(l).push(r) + cs.subrange(i + 1, n);
    assert(ncs =~= cs.insert(i, l).insert(i + 1, r).remove(i + 2));
    assert forall|a: int, b: int| 0 <= a < b < nkeys.len() implies nkeys[a] < nkeys[b] by {
        if b < i {
        } else if b == i {
            assert(nkeys[a] == keys[a]);
            assert(lower_at(lo, keys, i) == keys[i - 1]);
        } else if a == i {
            assert(nkeys[b] == keys[b - 1]);
            assert(upper_at(hi, keys, i) == keys[i]);
            assert(keys[i] <= keys[b - 1]);
        } else if a < i {
            assert(nkeys[a] == keys[a]);
            assert(nkeys[b] == keys[b - 1]);
        } else {
            assert(nkeys[a] == keys[a - 1]);
            assert(nkeys[b] == keys[b - 1]);
        }
    }
    assert forall|a: int| 0 <= a < nkeys.len() implies lo <= #[trigger] nkeys[a] && nkeys[a] < hi by {
        if a < i {
            assert(nkeys[a] == keys[a]);
        } else if a == i {
            if i > 0 {
                assert(lower_at(lo, keys, i) == keys[i - 1]);
            }
            if i < keys.len() {
                assert(upper_at(hi, keys, i) == keys[i]);
            }
        } else {
            assert(nkeys[a] == keys[a - 1]);
        }
    }
    assert forall|j: int| 0 <= j < ncs.len() implies node_wf(
        *#[trigger] ncs[j],
        lower_at(lo, nkeys, j),
        upper_at(hi, nkeys, j),
        (h - 1) as nat,
        m,
    ) by {
        if j < i {
            assert(ncs[j] == cs[j]);
            assert(lower_at(lo, nkeys, j) == lower_at(lo, keys, j));
            assert(upper_at(hi, nkeys, j) == upper_at(hi, keys, j));
        } else if j == i {
            assert(ncs[j] == l);
            assert(lower_at(lo, nkeys, j) == lower_at(lo, keys, j));
            assert(upper_at(hi, nkeys, j) == mk);
        } else if j == i + 1 {
            assert(ncs[j] == r);
            assert(lower_at(lo, nkeys, j) == mk);
            assert(upper_at(hi, nkeys, j) == upper_at(hi, keys, i));
        } else {
            assert(ncs[j] == cs[j - 1]);
            assert(lower_at(lo, nkeys, j) == lower_at(lo, keys, j - 1));
            assert(upper_at(hi, nkeys, j) == upper_at(hi, keys, j - 1));
            assert(node_wf(*cs[j - 1], lower_at(lo, keys, j - 1), upper_at(hi, keys, j - 1), (h - 1) as nat, m));
        }
    }
    // the pairs
    let m1 = n + 1;
    lemma_children_entries_concat(ncs, 0, i, m1);
    lemma_children_entries_concat(ncs, i, i + 2, m1);
    lemma_children_entries_concat(ncs, i, i + 1, i + 2);
    lemma_children_entries_one(ncs, i);
    lemma_children_entries_one(ncs, i + 1);
    assert(ncs.subrange(0, i) =~= cs.subrange(0, i));
    lemma_children_entries_shift(ncs, 0, cs, 0, i);
    assert(ncs.subrange(i + 2, m1) =~= cs.subrange(i + 1, n));
    lemma_children_entries_shift(ncs, i + 2, cs, i + 1, n - i - 1);
    assert(children_entries(ncs, 0, m1) =~= children_entries(cs, 0, i) + node_entries(*l)
        + node_entries(*r) + children_entries(cs, i + 1, n));
}

/// An internal node with one separator too many splits around its middle
/// separator into two well-formed halves holding all its pairs.
pub proof fn lemma_internal_halves(
    keys: Seq<i64>,
    cs: Seq<Box<BTreeNode>>,
    lo: int,
    hi: int,
    h: nat,
    m: nat,
    mid: int,
)
    requires
        h > 0,
        m >= 2,
        keys.len() == m + 1,
        cs.len() == keys.len() + 1,
        mid == keys.len() / 2,
        keys_sorted_within(keys, lo, hi),
        forall|j: int|
            0 <= j < cs.len() ==> node_wf(
                *#[trigger] cs[j],
                lower_at(lo, keys, j),
                upper_at(hi, keys, j),
                (h - 1) as nat,
                m,
            ),
    ensures
        lo < keys[mid] < hi,
        internal_wf(keys.subrange(0, mid), cs.subrange(0, mid + 1), lo, keys[mid] as int, h, m),
        internal_wf(
            keys.subrange(mid + 1, keys.len() as int),
            cs.subrange(mid + 1, cs.len() as int),
            keys[mid] as int,
            hi,
            h,
            m,
        ),
        children_entries(cs.subrange(0, mid + 1), 0, mid + 1) + children_entries(
            cs.subrange(mid + 1, cs.len() as int),
            0,
            cs.len() - (mid + 1),
        ) == children_entries(cs, 0, cs.len() as int),
{
    let n = cs.len() as int;
    let up = keys[mid];
    let lk = keys.subrange(0, mid);
    let lc = cs.subrange(0, mid + 1);
    let rk = keys.subrange(mid + 1, keys.len() as int);
    let rc = cs.subrange(mid + 1, n);
    assert(keys[0] < keys[mid]);
    assert forall|j: int| 0 <= j < lc.len() implies node_wf(
        *#[trigger] lc[j],
        lower_at(lo, lk, j),
        upper_at(up as int, lk, j),
        (h - 1) as nat,
        m,
    ) by {
        assert(lc[j] == cs[j]);
        assert(lower_at(lo, lk, j) == lower_at(lo, keys, j));
        assert(upper_at(up as int, lk, j) == upper_at(hi, keys, j));
    }
    assert forall|j: int| 0 <= j < rc.len() implies node_wf(
        *#[trigger] rc[j],
        lower_at(up as int, rk, j),
        upper_at(hi, rk, j),
        (h - 1) as nat,
        m,
    ) by {
        assert(rc[j] == cs[mid + 1 + j]);
        assert(lower_at(up as int, rk, j) == lower_at(lo, keys, mid + 1 + j));
        assert(upper_at(hi, rk, j) == upper_at(hi, keys, mid + 1 + j));
    }
    assert forall|a: int| 0 <= a < rk.len() implies up <= #[trigger] rk[a] && rk[a] < hi by {
        assert(rk[a] == keys[mid + 1 + a]);
    }
    assert forall|a: int| 0 <= a < lk.len() implies lo <= #[trigger] lk[a] && lk[a] < up by {
        assert(lk[a] == keys[a]);
    }
    lemma_children_entries_concat(cs, 0, mid + 1, n);
    assert(lc.subrange(0, mid + 1) =~= cs.subrange(0, mid + 1));
    lemma_children_entries_shift(lc, 0, cs, 0, mid + 1);
    assert(rc.subrange(0, n - (mid + 1)) =~= cs.subrange(mid + 1, n));
    lemma_children_entries_shift(rc, 0, cs, mid + 1, n - (mid + 1));
}


/// The height that a well-formed subtree was built with is its height.
pub proof fn lemma_node_height_wf(n: BTreeNode, lo: int, hi: int, h: nat, m: nat)
    requires
        node_wf(n, lo, hi, h, m),
    ensures
        node_height(n) == h,
    decreases n,
{
    match n {
        BTreeNode::Leaf { .. } => {},
        BTreeNode::Internal { keys, children } => {
            assert(node_wf(*children@[0], lower_at(lo, keys@, 0), upper_at(hi, keys@, 0), (h - 1) as nat, m));
            lemma_node_height_wf(*children@[0], lower_at(lo, keys@, 0), upper_at(hi, keys@, 0), (h - 1) as nat, m);
        },
    }
}

/// A child whose bounds keep it clear of `[start, end]` contributes nothing to a
/// range scan; the bounds are those a scan computes, with `i64::MIN` and
/// `i64::MAX` standing for the open ends.
pub proof fn lemma_range_skip_child(
    keys: Seq<i64>,
    cs: Seq<Box<BTreeNode>>,
    lo: int,
    hi: int,
    h: nat,
    m: nat,
    i: int,
    start: i64,
    end: i64,
    lower_bound: i64,
    upper_bound: i64,
)
    requires
        internal_wf(keys, cs, lo, hi, h, m),
        0 <= i < cs.len(),
        lower_bound == (if i == 0 { i64::MIN } else { keys[i - 1] }),
        upper_bound == (if i >= keys.len() { i64::MAX } else { keys[i] }),
        !(lower_bound <= end && (upper_bound == i64::MAX || upper_bound > start)),
    ensures
        entries_in_range(node_entries(*cs[i]), start, end) == Seq::<Entry>::empty(),
{
    let ce = node_entries(*cs[i]);
    assert(node_wf(*cs[i], lower_at(lo, keys, i), upper_at(hi, keys, i), (h - 1) as nat, m));
    lemma_node_wf_entries(*cs[i], lower_at(lo, keys, i), upper_at(hi, keys, i), (h - 1) as nat, m);
    assert forall|j: int| 0 <= j < ce.len() implies (#[trigger] ce[j]).0 < start || ce[j].0 > end by {
        if lower_bound > end {
            assert(lower_at(lo, keys, i) == lower_bound);
        } else {
            assert(upper_at(hi, keys, i) == upper_bound);
        }
    }
    lemma_range_empty(ce, start, end);
}

// ---------------------------------------------------------------------------
// Laws of the index.
// ---------------------------------------------------------------------------

/// A lookup after an insertion finds the inserted value under its key, and
/// what was there before under every other key.
pub proof fn lemma_search_after_insert(s: Seq<Entry>, k: i64, v: Seq<u8>, k2: i64)
    ensures
        entries_lookup(entries_insert(s, k, v), k) == Some(v),
        k2 != k ==> entries_lookup(entries_insert(s, k, v), k2) == entries_lookup(s, k2),
    decreases s.len(),
{
    if s.len() > 0 && s.last().0 > k {
        let s0 = s.drop_last();
        lemma_search_after_insert(s0, k, v, k2);
        let t = entries_insert(s, k, v);
        assert(t.drop_last() =~= entries_insert(s0, k, v));
        assert(t.last() == s.last());
    } else if s.len() > 0 && s.last().0 == k {
        let t = entries_insert(s, k, v);
        assert(t.drop_last() =~= s.drop_last());
        assert(t.last() == (k, v));
    } else if s.len() > 0 {
        let t = entries_insert(s, k, v);
        assert(t.drop_last() =~= s);
        assert(t.last() == (k, v));
    } else {
        let t = entries_insert(s, k, v);
        assert(t.drop_last() =~= s);
    }
}

/// A well-formed tree holds its pairs in strictly increasing key order.
pub proof fn lemma_tree_sorted(t: BTree)
    requires
        t.wf(),
    ensures
        entries_sorted(t@),
{
    if let Some(r) = t.root {
        lemma_node_wf_entries(*r, i64::MIN as int, i64::MAX as int + 1, node_height(*r), (t.order - 1) as nat);
    }
}

/// A range scan holds, under each key, the stored value exactly when the key
/// lies in `[lo, hi]`.
pub proof fn lemma_range_lookup(s: Seq<Entry>, lo: i64, hi: i64, k: i64)
    ensures
        entries_lookup(entries_in_range(s, lo, hi), k) == (if lo <= k && k <= hi {
            entries_lookup(s, k)
        } else {
            None
        }),
    decreases s.len(),
{
    if s.len() > 0 {
        lemma_range_lookup(s.drop_last(), lo, hi, k);
        let r0 = entries_in_range(s.drop_last(), lo, hi);
        if lo <= s.last().0 && s.last().0 <= hi {
            assert(entries_in_range(s, lo, hi).drop_last() == r0);
        }
    }
}

/// A lookup finds something exactly under the keys that the run holds.
pub proof fn lemma_lookup_some(s: Seq<Entry>, k: i64)
    ensures
        entries_lookup(s, k) is Some <==> entry_keys(s).contains(k),
    decreases s.len(),
{
    if s.len() > 0 {
        lemma_lookup_some(s.drop_last(), k);
        let ks = entry_keys(s);
        let k0 = entry_keys(s.drop_last());
        assert(ks.drop_last() =~= k0);
        assert(ks.last() == s.last().0);
        if ks.contains(k) && s.last().0 != k {
            let j = choose|j: int| 0 <= j < ks.len() && ks[j] == k;
            assert(k0[j] == k);
        }
        if k0.contains(k) {
            let j = choose|j: int| 0 <= j < k0.len() && k0[j] == k;
            assert(ks[j] == k);
        }
    } else {
        assert(!entry_keys(s).contains(k));
    }
}

/// The pairs that inserting the pairs of `hist`, in order, into an empty
/// tree leaves.
pub open spec fn entries_after(hist: Seq<Entry>) -> Seq<Entry>
    decreases hist.len(),
{
    if hist.len() == 0 {
        Seq::empty()
    } else {
        entries_insert(entries_after(hist.drop_last()), hist.last().0, hist.last().1)
    }
}

/// After a history of insertions into an empty tree, the stored keys
/// strictly increase and are exactly the keys that were inserted, each once,
/// and under each key lies the value inserted with it last.
pub proof fn lemma_entries_after(hist: Seq<Entry>)
    ensures
        entries_sorted(entries_after(hist)),
        forall|k: i64| #[trigger] entries_lookup(entries_after(hist), k) == entries_lookup(hist, k),
        forall|k: i64|
            #[trigger] entry_keys(entries_after(hist)).contains(k) <==> entry_keys(hist).contains(k),
    decreases hist.len(),
{
    let e = entries_after(hist);
    if hist.len() > 0 {
        let h0 = hist.drop_last();
        let (k1, v1) = hist.last();
        lemma_entries_after(h0);
        let e0 = entries_after(h0);
        assert(entries_within(e0, i64::MIN as int, i64::MAX as int + 1));
        lemma_insert_sorted(e0, k1, v1, i64::MIN as int, i64::MAX as int + 1);
        assert forall|k: i64| #[trigger] entries_lookup(e, k) == entries_lookup(hist, k) by {
            lemma_search_after_insert(e0, k1, v1, k);
        }
    }
    assert forall|k: i64| #[trigger] entry_keys(e).contains(k) <==> entry_keys(hist).contains(k) by {
        lemma_lookup_some(e, k);
        lemma_lookup_some(hist, k);
    }
}

/// In a run with strictly increasing keys, a range scan gives, in
/// increasing key order, exactly the held keys that lie in `[lo, hi]`, each
/// with the value that a lookup finds under it.
pub proof fn lemma_range_by_keys(s: Seq<Entry>, lo: i64, hi: i64)
    requires
        entries_sorted(s),
    ensures
        entries_sorted(entries_in_range(s, lo, hi)),
        forall|k: i64|
            #[trigger] entry_keys(entries_in_range(s, lo, hi)).contains(k) <==> (entry_keys(s).contains(k) && lo
                <= k && k <= hi),
        forall|i: int|
            0 <= i < entries_in_range(s, lo, hi).len() ==> entries_lookup(s, #[trigger] entries_in_range(s, lo, hi)[i].0)
                == Some(entries_in_range(s, lo, hi)[i].1),
    decreases s.len(),
{
    let r = entries_in_range(s, lo, hi);
    if s.len() > 0 {
        let s0 = s.drop_last();
        let l = s.last();
        assert(entries_sorted(s0));
        lemma_range_by_keys(s0, lo, hi);
        let r0 = entries_in_range(s0, lo, hi);
        assert forall|k: i64| #[trigger] entry_keys(r).contains(k) <==> (entry_keys(s).contains(k) && lo <= k
            && k <= hi) by {
            lemma_range_lookup(s, lo, hi, k);
            lemma_lookup_some(r, k);
            lemma_lookup_some(s, k);
        }
        assert forall|i: int| 0 <= i < r0.len() implies (#[trigger] r0[i]).0 < l.0 by {
            assert(entry_keys(r0)[i] == r0[i].0);
            assert(entry_keys(r0).contains(r0[i].0));
            assert(entry_keys(s0).contains(r0[i].0));
            let j = choose|j: int| 0 <= j < entry_keys(s0).len() && entry_keys(s0)[j] == r0[i].0;
            assert(s[j] == s0[j]);
            assert(s[s.len() - 1] == l);
        }
        assert forall|i: int| 0 <= i < r.len() implies entries_lookup(s, #[trigger] r[i].0) == Some(r[i].1) by {
            if lo <= l.0 && l.0 <= hi && i == r.len() - 1 {
                assert(r[i] == l);
            } else {
                assert(r[i] == r0[i]);
                assert(r0[i].0 < l.0);
            }
        }
        if lo <= l.0 && l.0 <= hi {
            assert forall|i: int, j: int| 0 <= i < j < r.len() implies r[i].0 < r[j].0 by {
                assert(r[i] == r0[i]);
                if j < r.len() - 1 {
                    assert(r[j] == r0[j]);
                }
            }
        }
    }
}

// ---------------------------------------------------------------------------
// Executable code.
// ---------------------------------------------------------------------------

/// The value that a lookup returned, as a sequence.
pub open spec fn opt_value_view(r: Option<&Vec<u8>>) -> Option<Seq<u8>> {
    match r {
        Some(v) => Some(v@),
        None => None,
    }
}

impl BTreeNode {
    /// Whether this node is a leaf.
    pub fn is_leaf(&self) -> (r: bool)
        ensures
            r == (self is Leaf),
    {
        matches!(self, BTreeNode::Leaf { .. })
    }
}

/// A B-tree whose internal nodes have at most `order` children.
#[derive(Debug, Clone)]
pub struct BTree {
    pub root: Option<Box<BTreeNode>>,
    pub order: usize,
}

impl View for BTree {
    type V = Seq<Entry>;

    /// The stored pairs in key order.
    open spec fn view(&self) -> Seq<Entry> {
        match self.root {
            None => Seq::empty(),
            Some(r) => node_entries(*r),
        }
    }
}

/// A copy of a byte vector.
pub fn clone_bytes(v: &Vec<u8>) -> (r: Vec<u8>)
    ensures
        r@ == v@,
{
    let r = v.clone();
    proof {
        assert forall|i: int| 0 <= i < v@.len() implies r@[i] == v@[i] by {
            assert(cloned::<u8>(v[i], r[i]));
        }
        assert(r@ =~= v@);
    }
    r
}

/// A copy of the subtree `n`.
fn clone_node(n: &BTreeNode) -> (r: BTreeNode)
    decreases n,
{
    match n {
        BTreeNode::Leaf { keys, values } => {
            let mut vs: Vec<Vec<u8>> = Vec::new();
            let mut i: usize = 0;
            while i < values.len()
                invariant
                    i <= values@.len(),
                decreases values@.len() - i,
            {
                vs.push(clone_bytes(&values[i]));
                i += 1;
            }
            BTreeNode::Leaf { keys: keys.clone(), values: vs }
        },
        BTreeNode::Internal { keys, children } => {
            let mut cs: Vec<Box<BTreeNode>> = Vec::new();
            let mut i: usize = 0;
            while i < children.len()
                invariant
                    i <= children@.len(),
                    *n == (BTreeNode::Internal { keys: *keys, children: *children }),
                decreases children@.len() - i,
            {
                proof {
                    vstd::std_specs::vec::axiom_vec_index_decreases(*children, i as int);
                    assert(decreases_to!(*n => n->Internal_children));
                    assert(decreases_to!(*n => *children@[i as int]));
                }
                cs.push(Box::new(clone_node(&children[i])));
                i += 1;
            }
            BTreeNode::Internal { keys: keys.clone(), children: cs }
        },
    }
}

impl Clone for BTreeNode {
    fn clone(&self) -> Self {
        clone_node(self)
    }
}

/// Pairs returned by a range scan, as the specifications see them.
pub open spec fn pairs_view(v: Seq<(i64, Vec<u8>)>) -> Seq<Entry> {
    v.map_values(|p: (i64, Vec<u8>)| (p.0, p.1@))
}

fn find_key(keys: &Vec<i64>, key: i64) -> (r: Result<usize, usize>)
    requires
        forall|i: int, j: int| 0 <= i < j < keys@.len() ==> keys@[i] < keys@[j],
    ensures
        match r {
            Ok(i) => i < keys@.len() && keys@[i as int] == key,
            Err(i) => i <= keys@.len() && (forall|j: int| 0 <= j < i ==> keys@[j] < key) && (forall|j: int|
                i <= j < keys@.len() ==> keys@[j] > key),
        },
{
    let mut lo: usize = 0;
    let mut hi: usize = keys.len();
    while lo < hi
        invariant
            lo <= hi <= keys@.len(),
            forall|i: int, j: int| 0 <= i < j < keys@.len() ==> keys@[i] < keys@[j],
            forall|j: int| 0 <= j < lo ==> keys@[j] < key,
            forall|j: int| hi <= j < keys@.len() ==> keys@[j] > key,
        decreases hi - lo,
    {
        let mid = lo + (hi - lo) / 2;
        if keys[mid] == key {
            return Ok(mid);
        } else if keys[mid] < key {
            lo = mid + 1;
        } else {
            hi = mid;
        }
    }
    Err(lo)
}

/// The child of an internal node to descend into for `key`: the first whose
/// separator exceeds it, or the last child.
fn child_index(keys: &Vec<i64>, key: i64) -> (r: usize)
    ensures
        r <= keys@.len(),
        forall|j: int| 0 <= j < r ==> keys@[j] <= key,
        r < keys@.len() ==> key < keys@[r as int],
{
    let mut i: usize = 0;
    while i < keys.len()
        invariant
            i <= keys@.len(),
            forall|j: int| 0 <= j < i ==> keys@[j] <= key,
        decreases keys@.len() - i,
    {
        if key < keys[i] {
            return i;
        }
        i += 1;
    }
    i
}

/// What inserting into a subtree produced: the updated subtree, or its two
/// halves with the key that separates them.
pub enum InsertResult {
    Done(Box<BTreeNode>),
    Split(Box<BTreeNode>, i64, Vec<u8>, Box<BTreeNode>),
}

/// The child of an internal node with sorted `keys` that `key` belongs
/// under: the number of keys not above it.
pub open spec fn child_pos(keys: Seq<i64>, key: i64) -> int
    decreases keys.len(),
{
    if keys.len() == 0 {
        0
    } else if keys.last() <= key {
        keys.len() as int
    } else {
        child_pos(keys.drop_last(), key)
    }
}

/// The position that `child_index` finds is `child_pos`.
proof fn lemma_child_pos(keys: Seq<i64>, key: i64, r: int)
    requires
        forall|i: int, j: int| 0 <= i < j < keys.len() ==> keys[i] < keys[j],
        0 <= r <= keys.len(),
        forall|j: int| 0 <= j < r ==> keys[j] <= key,
        r < keys.len() ==> key < keys[r],
    ensures
        r == child_pos(keys, key),
    decreases keys.len(),
{
    if keys.len() > 0 && r < keys.len() {
        lemma_child_pos(keys.drop_last(), key, r);
    }
}

/// `res` is what inserting `(key, v)` into the subtree `n` gives when nodes
/// hold at most `max` keys.
/// A leaf takes the pair in key order; it stays one leaf (`Done`) while it
/// holds at most `max` keys, and otherwise splits at the middle `len / 2`:
/// the left leaf keeps the pairs before it, the right leaf the rest, and the
/// right leaf's first key goes up with its value.
/// An internal node inserts into the child the key belongs under; a child
/// that stays one node replaces it; a child that splits is replaced by its
/// halves with the key that went up between them, and when the node then
/// holds more than `max` keys it splits at its middle key `keys[len / 2]`,
/// which goes up with an empty value, the left half keeping the keys and
/// children before it, the right half those after it.
pub open spec fn inserted_as(n: BTreeNode, key: i64, v: Seq<u8>, max: nat, res: InsertResult) -> bool
    decreases n,
{
    match n {
        BTreeNode::Leaf { .. } => {
            let full = entries_insert(node_entries(n), key, v);
            let mid = full.len() / 2;
            if full.len() <= max {
                match res {
                    InsertResult::Done(d) => *d is Leaf && node_entries(*d) == full,
                    _ => false,
                }
            } else {
                match res {
                    InsertResult::Split(l, mk, mv, r) => {
                        &&& *l is Leaf
                        &&& *r is Leaf
                        &&& node_entries(*l) == full.subrange(0, mid as int)
                        &&& node_entries(*r) == full.subrange(mid as int, full.len() as int)
                        &&& mk == full[mid as int].0
                        &&& mv@ == full[mid as int].1
                    },
                    _ => false,
                }
            }
        },
        BTreeNode::Internal { keys, children } => {
            let i = child_pos(keys@, key);
            &&& 0 <= i < children@.len()
            &&& exists|cr: InsertResult| inserted_as(*children@[i], key, v, max, cr) && #[trigger] internal_after(keys@, children@, i, cr, max, res)
        },
    }
}

/// `res` is what an internal node with `keys` and `children` becomes when
/// child `i`, after the insertion, is `cr`.
pub open spec fn internal_after(
    keys: Seq<i64>,
    children: Seq<Box<BTreeNode>>,
    i: int,
    cr: InsertResult,
    max: nat,
    res: InsertResult,
) -> bool {
    match cr {
        InsertResult::Done(nc) => match res {
            InsertResult::Done(d) => match *d {
                BTreeNode::Internal { keys: k2, children: c2 } => k2@ == keys && c2@ == children.update(i, nc),
                _ => false,
            },
            _ => false,
        },
        InsertResult::Split(l, mk, _, r) => {
            let fk = keys.insert(i, mk);
            let fc = children.subrange(0, i).push(l).push(r) + children.subrange(i + 1, children.len() as int);
            let mid = (fk.len() / 2) as int;
            if fk.len() <= max {
                match res {
                    InsertResult::Done(d) => match *d {
                        BTreeNode::Internal { keys: k2, children: c2 } => k2@ == fk && c2@ == fc,
                        _ => false,
                    },
                    _ => false,
                }
            } else {
                match res {
                    InsertResult::Split(ln, uk, uv, rn) => {
                        &&& uk == fk[mid]
                        &&& uv@ == Seq::<u8>::empty()
                        &&& match *ln {
                            BTreeNode::Internal { keys: lk, children: lc } => lk@ == fk.subrange(0, mid)
                                && lc@ == fc.subrange(0, mid + 1),
                            _ => false,
                        }
                        &&& match *rn {
                            BTreeNode::Internal { keys: rk, children: rc } => rk@ == fk.subrange(mid + 1, fk.len() as int)
                                && rc@ == fc.subrange(mid + 1, fc.len() as int),
                            _ => false,
                        }
                    },
                    _ => false,
                }
            }
        },
    }
}

/// `root` is the tree's root after inserting into the old root gave `res`:
/// the node itself, or a new root holding the key that went up between the
/// two halves.
pub open spec fn grown_root(res: InsertResult, root: Option<Box<BTreeNode>>) -> bool {
    match res {
        InsertResult::Done(n) => root == Some(n),
        InsertResult::Split(l, mk, _, r) => match root {
            Some(b) => match *b {
                BTreeNode::Internal { keys, children } => keys@ == seq![mk] && children@ == seq![l, r],
                _ => false,
            },
            None => false,
        },
    }
}

/// An internal node's insertion is determined by its child's.
proof fn lemma_inserted_internal(
    n: BTreeNode,
    key: i64,
    v: Seq<u8>,
    max: nat,
    i: int,
    cr: InsertResult,
    res: InsertResult,
)
    requires
        n is Internal,
        i == child_pos(n->Internal_keys@, key),
        0 <= i < n->Internal_children@.len(),
        inserted_as(*n->Internal_children@[i], key, v, max, cr),
        internal_after(n->Internal_keys@, n->Internal_children@, i, cr, max, res),
    ensures
        inserted_as(n, key, v, max, res),
{
    match n {
        BTreeNode::Internal { keys, children } => {
            assert(inserted_as(*children@[i], key, v, max, cr) && internal_after(keys@, children@, i, cr, max, res));
        },
        _ => {},
    }
}

impl BTree {
    /// The tree's nodes form a well-formed B-tree of its order.
    pub open spec fn wf(&self) -> bool {
        &&& self.order >= 3
        &&& match self.root {
            None => true,
            Some(r) => node_wf(
                *r,
                i64::MIN as int,
                i64::MAX as int + 1,
                node_height(*r),
                (self.order - 1) as nat,
            ),
        }
    }

    /// An empty tree of the default order.
    pub fn new() -> (t: Self)
        ensures
            t.wf(),
            t@ == Seq::<Entry>::empty(),
            t.order == DEFAULT_ORDER,
    {
        BTree { root: None, order: DEFAULT_ORDER }
    }

    /// An empty tree whose nodes have at most `order` children.
    pub fn with_order(order: usize) -> (t: Self)
        requires
            order >= 3,
        ensures
            t.wf(),
            t@ == Seq::<Entry>::empty(),
            t.order == order,
    {
        BTree { root: None, order }
    }

    /// The value stored under `key`, if any.
    pub fn search(&self, key: i64) -> (r: Option<&Vec<u8>>)
        requires
            self.wf(),
        ensures
            opt_value_view(r) == entries_lookup(self@, key),
    {
        match &self.root {
            None => None,
            Some(node) => Self::search_node(
                node,
                key,
                Ghost(i64::MIN as int),
                Ghost(i64::MAX as int + 1),
                Ghost(node_height(**node)),
                Ghost((self.order - 1) as nat),
            ),
        }
    }

    fn search_node<'a>(
        node: &'a BTreeNode,
        key: i64,
        Ghost(lo): Ghost<int>,
        Ghost(hi): Ghost<int>,
        Ghost(h): Ghost<nat>,
        Ghost(m): Ghost<nat>,
    ) -> (r: Option<&'a Vec<u8>>)
        requires
            node_wf(*node, lo, hi, h, m),
        ensures
            opt_value_view(r) == entries_lookup(node_entries(*node), key),
        decreases node,
    {
        match node {
            BTreeNode::Leaf { keys, values } => {
                proof {
                    lemma_node_wf_entries(*node, lo, hi, h, m);
                }
                match find_key(keys, key) {
                    Ok(i) => {
                        proof {
                            lemma_lookup_at(node_entries(*node), i as int);
                        }
                        Some(&values[i])
                    },
                    Err(_) => {
                        proof {
                            let s = node_entries(*node);
                            assert forall|j: int| 0 <= j < s.len() implies (#[trigger] s[j]).0 != key by {
                                assert(s[j].0 == keys@[j]);
                            }
                            lemma_lookup_absent(s, key);
                        }
                        None
                    },
                }
            },
            BTreeNode::Internal { keys, children } => {
                let i = child_index(keys, key);
                let ghost cs = children@;
                let ghost n = cs.len() as int;
                proof {
                    assert(internal_wf(keys@, cs, lo, hi, h, m));
                    lemma_internal_parts(keys@, cs, lo, hi, h, m, i as int);
                    let pre = children_entries(cs, 0, i as int);
                    let post = children_entries(cs, i as int + 1, n);
                    assert forall|j: int| 0 <= j < pre.len() implies (#[trigger] pre[j]).0 != key by {
                        assert(pre[j].0 < lower_at(lo, keys@, i as int));
                    }
                    assert forall|j: int| 0 <= j < post.len() implies (#[trigger] post[j]).0 != key by {
                        assert(post[j].0 >= upper_at(hi, keys@, i as int));
                    }
                    lemma_lookup_absent(pre, key);
                    lemma_lookup_absent(post, key);
                    lemma_lookup_concat(pre + node_entries(*cs[i as int]), post, key);
                    lemma_lookup_concat(pre, node_entries(*cs[i as int]), key);
                    assert(node_wf(*cs[i as int], lower_at(lo, keys@, i as int), upper_at(hi, keys@, i as int), (h - 1) as nat, m));
                }
                Self::search_node(
                    &children[i],
                    key,
                    Ghost(lower_at(lo, keys@, i as int)),
                    Ghost(upper_at(hi, keys@, i as int)),
                    Ghost((h - 1) as nat),
                    Ghost(m),
                )
            },
        }
    }

    /// Stores `value` under `key`, replacing an existing value; nodes that
    /// overflow split, and a split root grows the tree by one level.
    pub fn insert(&mut self, key: i64, value: Vec<u8>)
        requires
            old(self).wf(),
        ensures
            final(self).wf(),
            final(self).order == old(self).order,
            final(self)@ == entries_insert(old(self)@, key, value@),
            match old(self).root {
                None => match final(self).root {
                    Some(b) => *b is Leaf && node_entries(*b) == seq![(key, value@)],
                    None => false,
                },
                Some(r0) => exists|res: InsertResult|
                    inserted_as(*r0, key, value@, (old(self).order - 1) as nat, res) && #[trigger] grown_root(
                        res,
                        final(self).root,
                    ),
            },
    {
        if self.root.is_none() {
            let ghost v = value@;
            let keys = vec![key];
            let values = vec![value];
            let node = BTreeNode::Leaf { keys, values };
            proof {
                assert(node_entries(node) =~= seq![(key, v)]);
            }
            self.root = Some(Box::new(node));
            return;
        }
        let root = self.root.take().unwrap();
        let max_keys = self.order - 1;
        let ghost h = node_height(*root);
        let ghost lo = i64::MIN as int;
        let ghost hi = i64::MAX as int + 1;
        let sub = Self::insert_node(root, key, value, max_keys, Ghost(lo), Ghost(hi), Ghost(h));
        let ghost cr = sub;
        match sub {
            InsertResult::Done(node) => {
                proof {
                    lemma_node_height_wf(*node, lo, hi, h, max_keys as nat);
                }
                self.root = Some(node);
                proof {
                    assert(grown_root(cr, self.root));
                }
            },
            InsertResult::Split(left, mid_key, mid_val, right) => {
                let ghost l = left;
                let ghost r = right;
                let keys = vec![mid_key];
                let mut children: Vec<Box<BTreeNode>> = Vec::new();
                children.push(left);
                children.push(right);
                let node = BTreeNode::Internal { keys, children };
                proof {
                    let cs = children@;
                    assert(cs[0] == l && cs[1] == r);
                    assert forall|j: int| 0 <= j < cs.len() implies node_wf(
                        *#[trigger] cs[j],
                        lower_at(lo, keys@, j),
                        upper_at(hi, keys@, j),
                        h,
                        max_keys as nat,
                    ) by {
                        if j == 0 {
                            assert(upper_at(hi, keys@, j) == mid_key);
                        } else {
                            assert(lower_at(lo, keys@, j) == mid_key);
                        }
                    }
                    assert(node_wf(node, lo, hi, h + 1, max_keys as nat));
                    lemma_node_height_wf(node, lo, hi, h + 1, max_keys as nat);
                    lemma_children_entries_concat(cs, 0, 1, 2);
                    lemma_children_entries_one(cs, 0);
                    lemma_children_entries_one(cs, 1);
                    assert(keys@ =~= seq![mid_key]);
                    assert(cs =~= seq![l, r]);
                }
                self.root = Some(Box::new(node));
                proof {
                    assert(grown_root(cr, self.root));
                }
                let _ = mid_val;
            },
        }
    }

    /// Inserts into a leaf, splitting it at its middle when it overflows.
    #[verifier::rlimit(100)]
    #[verifier::spinoff_prover]
    fn insert_leaf(
        keys: Vec<i64>,
        values: Vec<Vec<u8>>,
        key: i64,
        value: Vec<u8>,
        max_keys: usize,
        Ghost(lo): Ghost<int>,
        Ghost(hi): Ghost<int>,
    ) -> (res: InsertResult)
        requires
            node_wf((BTreeNode::Leaf { keys, values }), lo, hi, 0, max_keys as nat),
            lo <= key < hi,
            max_keys >= 2,
        ensures
            match res {
                InsertResult::Done(n) => {
                    &&& node_wf(*n, lo, hi, 0, max_keys as nat)
                    &&& node_entries(*n) == entries_insert(node_entries((BTreeNode::Leaf { keys, values })), key, value@)
                },
                InsertResult::Split(l, mk, _, r) => {
                    &&& lo < mk < hi
                    &&& node_wf(*l, lo, mk as int, 0, max_keys as nat)
                    &&& node_wf(*r, mk as int, hi, 0, max_keys as nat)
                    &&& node_entries(*l) + node_entries(*r) == entries_insert(
                        node_entries((BTreeNode::Leaf { keys, values })),
                        key,
                        value@,
                    )
                },
            },
            inserted_as((BTreeNode::Leaf { keys, values }), key, value@, max_keys as nat, res),
    {
        let ghost m = max_keys as nat;
        let ghost v0 = value@;
        let ghost n0 = BTreeNode::Leaf { keys, values };
        let ghost h: nat = 0;
        let ghost old_entries = node_entries(n0);
        proof {
            lemma_node_wf_entries(n0, lo, hi, h, m);
        }
        let mut keys = keys;
        let mut values = values;
        let ghost ok = keys@;
        let ghost ov = values@;
        match find_key(&keys, key) {
            Ok(i) => {
                let ghost v = value@;
                values.set(i, value);
                let n = BTreeNode::Leaf { keys, values };
                proof {
                    assert(old_entries[i as int].0 == key);
                    lemma_update_at(old_entries, i as int, key, v);
                    assert(node_entries(n) =~= old_entries.update(i as int, (key, v)));
                    assert(inserted_as(n0, key, v0, m, InsertResult::Done(Box::new(n))));
                }
                InsertResult::Done(Box::new(n))
            },
            Err(i) => {
                let ghost v = value@;
                keys.insert(i, key);
                values.insert(i, value);
                let ghost full = BTreeNode::Leaf { keys, values };
                proof {
                    assert forall|j: int| 0 <= j < i implies (#[trigger] old_entries[j]).0 < key by {
                        assert(old_entries[j].0 == ok[j]);
                    }
                    assert forall|j: int| i <= j < old_entries.len() implies (
                    #[trigger] old_entries[j]).0 > key by {
                        assert(old_entries[j].0 == ok[j]);
                    }
                    lemma_insert_at(old_entries, i as int, key, v);
                    assert(node_entries(full) =~= old_entries.insert(i as int, (key, v)));
                    assert forall|a: int, b: int| 0 <= a < b < keys@.len() implies keys@[a]
                        < keys@[b] by {
                        if b < i {
                        } else if a < i && b == i {
                        } else if a < i {
                            assert(keys@[b] == ok[b - 1]);
                        } else if a == i {
                            assert(keys@[b] == ok[b - 1]);
                        } else {
                            assert(keys@[a] == ok[a - 1]);
                            assert(keys@[b] == ok[b - 1]);
                        }
                    }
                    assert forall|a: int| 0 <= a < keys@.len() implies lo <= #[trigger] keys@[a]
                        && keys@[a] < hi by {
                        if a < i {
                            assert(keys@[a] == ok[a]);
                        } else if a > i {
                            assert(keys@[a] == ok[a - 1]);
                        }
                    }
                }
                if keys.len() > max_keys {
                    let mid = keys.len() / 2;
                    let right_keys = keys.split_off(mid);
                    let right_vals = values.split_off(mid);
                    let mid_key = right_keys[0];
                    let mid_val = clone_bytes(&right_vals[0]);
                    let l = BTreeNode::Leaf { keys, values };
                    let r = BTreeNode::Leaf { keys: right_keys, values: right_vals };
                    proof {
                        assert(node_entries(l) + node_entries(r) =~= node_entries(full));
                        assert(keys@[0] < mid_key);
                        assert forall|a: int| 0 <= a < keys@.len() implies lo <= #[trigger] keys@[a]
                            && keys@[a] < mid_key by {
                            assert(keys@[a] == full->Leaf_keys@[a]);
                            assert(mid_key == full->Leaf_keys@[mid as int]);
                        }
                        assert forall|a: int| 0 <= a < right_keys@.len() implies mid_key
                            <= #[trigger] right_keys@[a] && right_keys@[a] < hi by {
                            assert(right_keys@[a] == full->Leaf_keys@[mid + a]);
                            assert(mid_key == full->Leaf_keys@[mid as int]);
                        }
                        assert forall|a: int, b: int| 0 <= a < b < right_keys@.len() implies right_keys@[a]
                            < right_keys@[b] by {
                            assert(right_keys@[a] == full->Leaf_keys@[mid + a]);
                            assert(right_keys@[b] == full->Leaf_keys@[mid + b]);
                        }
                        let fe = node_entries(full);
                        assert(node_entries(l) =~= fe.subrange(0, mid as int));
                        assert(node_entries(r) =~= fe.subrange(mid as int, fe.len() as int));
                        assert(mid_key == fe[mid as int].0);
                    }
                    let res = InsertResult::Split(Box::new(l), mid_key, mid_val, Box::new(r));
                    proof {
                        assert(inserted_as(n0, key, v0, m, res));
                    }
                    res
                } else {
                    let res = InsertResult::Done(Box::new(BTreeNode::Leaf { keys, values }));
                    proof {
                        assert(inserted_as(n0, key, v0, m, res));
                    }
                    res
                }
            },
        }
    }

    #[verifier::rlimit(100)]
    #[verifier::spinoff_prover]
    fn insert_node(
        node: Box<BTreeNode>,
        key: i64,
        value: Vec<u8>,
        max_keys: usize,
        Ghost(lo): Ghost<int>,
        Ghost(hi): Ghost<int>,
        Ghost(h): Ghost<nat>,
    ) -> (res: InsertResult)
        requires
            node_wf(*node, lo, hi, h, max_keys as nat),
            lo <= key < hi,
            max_keys >= 2,
        ensures
            match res {
                InsertResult::Done(n) => {
                    &&& node_wf(*n, lo, hi, h, max_keys as nat)
                    &&& node_entries(*n) == entries_insert(node_entries(*node), key, value@)
                },
                InsertResult::Split(l, mk, _, r) => {
                    &&& lo < mk < hi
                    &&& node_wf(*l, lo, mk as int, h, max_keys as nat)
                    &&& node_wf(*r, mk as int, hi, h, max_keys as nat)
                    &&& node_entries(*l) + node_entries(*r) == entries_insert(
                        node_entries(*node),
                        key,
                        value@,
                    )
                },
            },
            inserted_as(*node, key, value@, max_keys as nat, res),
        decreases node,
    {
        let ghost m = max_keys as nat;
        let ghost v0 = value@;
        let ghost n0 = *node;
        let ghost old_entries = node_entries(*node);
        proof {
            lemma_node_wf_entries(*node, lo, hi, h, m);
        }
        match *node {
            BTreeNode::Leaf { keys, values } => {
                Self::insert_leaf(keys, values, key, value, max_keys, Ghost(lo), Ghost(hi))
            },
            BTreeNode::Internal { mut keys, mut children } => {
                let ghost ok = keys@;
                let ghost oc = children@;
                let ghost n = oc.len() as int;
                let child_idx = child_index(&keys, key);
                let ghost i = child_idx as int;
                let ghost clo = lower_at(lo, ok, i);
                let ghost chi = upper_at(hi, ok, i);
                proof {
                    assert(internal_wf(ok, oc, lo, hi, h, m));
                    lemma_internal_parts(ok, oc, lo, hi, h, m, i);
                    assert(node_wf(*oc[i], clo, chi, (h - 1) as nat, m));
                    if i > 0 {
                        assert(ok[i - 1] <= key);
                    }
                }
                let child = children.remove(child_idx);
                let ghost pre = children_entries(oc, 0, i);
                let ghost post = children_entries(oc, i + 1, n);
                proof {
                    assert(child == oc[i]);
                    assert forall|j: int| 0 <= j < pre.len() implies (#[trigger] pre[j]).0 < key by {
                        assert(pre[j].0 < clo);
                    }
                    assert forall|j: int| 0 <= j < post.len() implies (#[trigger] post[j]).0 > key by {
                        assert(post[j].0 >= chi);
                    }
                    lemma_insert_middle(pre, node_entries(*oc[i]), post, key, value@);
                }
                let sub = Self::insert_node(child, key, value, max_keys, Ghost(clo), Ghost(chi), Ghost((h - 1) as nat));
                let ghost cr = sub;
                proof {
                    lemma_child_pos(ok, key, i);
                    assert(inserted_as(*oc[i], key, v0, m, cr));
                }
                match sub {
                    InsertResult::Done(new_child) => {
                        let ghost nc = new_child;
                        children.insert(child_idx, new_child);
                        proof {
                            assert(children@ =~= oc.update(i, nc));
                            lemma_internal_replace(ok, oc, lo, hi, h, m, i, nc);
                        }
                        let res = BTreeNode::Internal { keys, children };
                        proof {
                            assert(node_wf(res, lo, hi, h, m));
                        }
                        let out = InsertResult::Done(Box::new(res));
                        proof {
                            assert(internal_after(ok, oc, i, cr, m, out));
                            lemma_inserted_internal(n0, key, v0, m, i, cr, out);
                        }
                        out
                    },
                    InsertResult::Split(left, mid_key, _mid_val, right) => {
                        let ghost l = left;
                        let ghost r = right;
                        keys.insert(child_idx, mid_key);
                        children.insert(child_idx, left);
                        children.insert(child_idx + 1, right);
                        proof {
                            lemma_internal_split_child(ok, oc, lo, hi, h, m, i, l, mid_key, r);
                            assert(children@ =~= oc.subrange(0, i).push(l).push(r) + oc.subrange(i + 1, n));
                            assert(keys@ == ok.insert(i, mid_key));
                        }
                        if keys.len() > max_keys {
                            let mid = keys.len() / 2;
                            let ghost fk = keys@;
                            let ghost fc = children@;
                            proof {
                                lemma_internal_halves(fk, fc, lo, hi, h, m, mid as int);
                            }
                            let right_keys = keys.split_off(mid + 1);
                            let up_key = keys.pop().unwrap();
                            let right_children = children.split_off(mid + 1);
                            let ln = BTreeNode::Internal { keys, children };
                            let rn = BTreeNode::Internal { keys: right_keys, children: right_children };
                            proof {
                                assert(keys@ =~= fk.subrange(0, mid as int));
                                assert(up_key == fk[mid as int]);
                                assert(node_wf(ln, lo, up_key as int, h, m));
                                assert(node_wf(rn, up_key as int, hi, h, m));
                            }
                            let out = InsertResult::Split(Box::new(ln), up_key, Vec::new(), Box::new(rn));
                            proof {
                                assert(right_keys@ =~= fk.subrange(mid + 1, fk.len() as int));
                                assert(children@ =~= fc.subrange(0, mid + 1));
                                assert(right_children@ =~= fc.subrange(mid + 1, fc.len() as int));
                                assert(internal_after(ok, oc, i, cr, m, out));
                                lemma_inserted_internal(n0, key, v0, m, i, cr, out);
                            }
                            out
                        } else {
                            let res = BTreeNode::Internal { keys, children };
                            proof {
                                assert(node_wf(res, lo, hi, h, m));
                            }
                            let out = InsertResult::Done(Box::new(res));
                            proof {
                                assert(internal_after(ok, oc, i, cr, m, out));
                                lemma_inserted_internal(n0, key, v0, m, i, cr, out);
                            }
                            out
                        }
                    },
                }
            },
        }
    }

    /// All stored pairs with `start <= key <= end`, in key order.
    pub fn range_query(&self, start: i64, end: i64) -> (r: Vec<(i64, Vec<u8>)>)
        requires
            self.wf(),
        ensures
            pairs_view(r@) == entries_in_range(self@, start, end),
    {
        let mut results: Vec<(i64, Vec<u8>)> = Vec::new();
        if let Some(root) = &self.root {
            proof {
                assert(pairs_view(results@) =~= Seq::<Entry>::empty());
            }
            Self::range_node(
                root,
                start,
                end,
                &mut results,
                Ghost(i64::MIN as int),
                Ghost(i64::MAX as int + 1),
                Ghost(node_height(**root)),
                Ghost((self.order - 1) as nat),
            );
            proof {
                assert(pairs_view(results@) =~= entries_in_range(self@, start, end));
            }
        }
        results
    }

    fn range_node(
        node: &BTreeNode,
        start: i64,
        end: i64,
        results: &mut Vec<(i64, Vec<u8>)>,
        Ghost(lo): Ghost<int>,
        Ghost(hi): Ghost<int>,
        Ghost(h): Ghost<nat>,
        Ghost(m): Ghost<nat>,
    )
        requires
            node_wf(*node, lo, hi, h, m),
        ensures
            pairs_view(final(results)@) == pairs_view(old(results)@) + entries_in_range(
                node_entries(*node),
                start,
                end,
            ),
        decreases node,
    {
        match node {
            BTreeNode::Leaf { keys, values } => {
                let ghost es = node_entries(*node);
                let ghost base = pairs_view(results@);
                let mut i: usize = 0;
                while i < keys.len()
                    invariant
                        i <= keys@.len(),
                        keys@.len() == values@.len(),
                        es == node_entries(*node),
                        *node == (BTreeNode::Leaf { keys: *keys, values: *values }),
                        pairs_view(results@) == base + entries_in_range(es.subrange(0, i as int), start, end),
                    decreases keys@.len() - i,
                {
                    let k = keys[i];
                    proof {
                        assert(es.subrange(0, i as int + 1).drop_last() =~= es.subrange(0, i as int));
                        assert(es.subrange(0, i as int + 1).last() == (k, values@[i as int]@));
                    }
                    let ghost prev = results@;
                    if k >= start && k <= end {
                        let v = clone_bytes(&values[i]);
                        results.push((k, v));
                        proof {
                            assert(pairs_view(results@) =~= pairs_view(prev).push((k, v@)));
                        }
                    }
                    i += 1;
                }
                proof {
                    assert(es.subrange(0, i as int) =~= es);
                }
            },
            BTreeNode::Internal { keys, children } => {
                let ghost cs = children@;
                let ghost base = pairs_view(results@);
                proof {
                    assert(internal_wf(keys@, cs, lo, hi, h, m));
                }
                let mut i: usize = 0;
                while i < children.len()
                    invariant
                        i <= children@.len(),
                        cs == children@,
                        *node == (BTreeNode::Internal { keys: *keys, children: *children }),
                        internal_wf(keys@, cs, lo, hi, h, m),
                        pairs_view(results@) == base + entries_in_range(
                            children_entries(cs, 0, i as int),
                            start,
                            end,
                        ),
                    decreases children@.len() - i,
                {
                    let lower_bound = if i == 0 {
                        i64::MIN
                    } else {
                        keys[i - 1]
                    };
                    let upper_bound = if i >= keys.len() {
                        i64::MAX
                    } else {
                        keys[i]
                    };
                    let ghost ce = node_entries(*cs[i as int]);
                    proof {
                        assert(node_wf(*cs[i as int], lower_at(lo, keys@, i as int), upper_at(hi, keys@, i as int), (h - 1) as nat, m));
                        lemma_children_entries_concat(cs, 0, i as int, i as int + 1);
                        lemma_children_entries_one(cs, i as int);
                        lemma_range_concat(children_entries(cs, 0, i as int), ce, start, end);
                    }
                    if lower_bound <= end && (upper_bound == i64::MAX || upper_bound > start) {
                        proof {
                            vstd::std_specs::vec::axiom_vec_index_decreases(*children, i as int);
                            assert(decreases_to!(*node => node->children));
                            assert(decreases_to!(*node => children[i as int]));
                        }
                        Self::range_node(
                            &children[i],
                            start,
                            end,
                            results,
                            Ghost(lower_at(lo, keys@, i as int)),
                            Ghost(upper_at(hi, keys@, i as int)),
                            Ghost((h - 1) as nat),
                            Ghost(m),
                        );
                    } else {
                        proof {
                            lemma_range_skip_child(keys@, cs, lo, hi, h, m, i as int, start, end, lower_bound, upper_bound);
                        }
                    }
                    proof {
                        assert(pairs_view(results@) =~= base + entries_in_range(
                            children_entries(cs, 0, i as int + 1),
                            start,
                            end,
                        ));
                    }
                    i += 1;
                }
            },
        }
    }

    /// All stored keys, in increasing order.
    pub fn keys(&self) -> (r: Vec<i64>)
        requires
            self.wf(),
        ensures
            r@ == entry_keys(self@),
            forall|i: int, j: int| 0 <= i < j < r@.len() ==> r@[i] < r@[j],
    {
        let mut result: Vec<i64> = Vec::new();
        if let Some(root) = &self.root {
            proof {
                lemma_node_wf_entries(**root, i64::MIN as int, i64::MAX as int + 1, node_height(**root), (self.order - 1) as nat);
            }
            Self::collect_keys(
                root,
                &mut result,
                Ghost(i64::MIN as int),
                Ghost(i64::MAX as int + 1),
                Ghost(node_height(**root)),
                Ghost((self.order - 1) as nat),
            );
            proof {
                assert(result@ =~= entry_keys(self@));
            }
        } else {
            proof {
                assert(result@ =~= entry_keys(self@));
            }
        }
        result
    }

    fn collect_keys(
        node: &BTreeNode,
        keys: &mut Vec<i64>,
        Ghost(lo): Ghost<int>,
        Ghost(hi): Ghost<int>,
        Ghost(h): Ghost<nat>,
        Ghost(m): Ghost<nat>,
    )
        requires
            node_wf(*node, lo, hi, h, m),
        ensures
            final(keys)@ == old(keys)@ + entry_keys(node_entries(*node)),
        decreases node,
    {
        match node {
            BTreeNode::Leaf { keys: node_keys, .. } => {
                let ghost base = keys@;
                let mut i: usize = 0;
                while i < node_keys.len()
                    invariant
                        i <= node_keys@.len(),
                        keys@ == base + node_keys@.subrange(0, i as int),
                    decreases node_keys@.len() - i,
                {
                    keys.push(node_keys[i]);
                    proof {
                        assert(keys@ =~= base + node_keys@.subrange(0, i as int + 1));
                    }
                    i += 1;
                }
                proof {
                    assert(entry_keys(node_entries(*node)) =~= node_keys@);
                    assert(node_keys@.subrange(0, i as int) =~= node_keys@);
                }
            },
            BTreeNode::Internal { keys: node_keys, children } => {
                let ghost cs = children@;
                let ghost base = keys@;
                proof {
                    assert(internal_wf(node_keys@, cs, lo, hi, h, m));
                }
                let mut i: usize = 0;
                while i < children.len()
                    invariant
                        i <= children@.len(),
                        cs == children@,
                        *node == (BTreeNode::Internal { keys: *node_keys, children: *children }),
                        internal_wf(node_keys@, cs, lo, hi, h, m),
                        keys@ == base + entry_keys(children_entries(cs, 0, i as int)),
                    decreases children@.len() - i,
                {
                    proof {
                        assert(node_wf(*cs[i as int], lower_at(lo, node_keys@, i as int), upper_at(hi, node_keys@, i as int), (h - 1) as nat, m));
                        lemma_children_entries_concat(cs, 0, i as int, i as int + 1);
                        lemma_children_entries_one(cs, i as int);
                        vstd::std_specs::vec::axiom_vec_index_decreases(*children, i as int);
                        assert(decreases_to!(*node => node->children));
                        assert(decreases_to!(*node => children[i as int]));
                    }
                    Self::collect_keys(
                        &children[i],
                        keys,
                        Ghost(lower_at(lo, node_keys@, i as int)),
                        Ghost(upper_at(hi, node_keys@, i as int)),
                        Ghost((h - 1) as nat),
                        Ghost(m),
                    );
                    proof {
                        assert(entry_keys(children_entries(cs, 0, i as int + 1)) =~= entry_keys(
                            children_entries(cs, 0, i as int),
                        ) + entry_keys(node_entries(*cs[i as int])));
                        assert(keys@ =~= base + entry_keys(children_entries(cs, 0, i as int + 1)));
                    }
                    i += 1;
                }
            },
        }
    }

    /// Whether `key` is stored.
    pub fn contains(&self, key: i64) -> (r: bool)
        requires
            self.wf(),
        ensures
            r == (entries_lookup(self@, key) is Some),
    {
        self.search(key).is_some()
    }
}

} // verus!
