//! Transaction schedules: conflicting operations, the precedence graph,
//! conflict serializability and a serial order.

use vstd::prelude::*;
use std::collections::HashSet;
use crate::attrset::lemma_subrange_to_set_push;

verus! {

broadcast use vstd::std_specs::hash::group_hash_axioms;

/// An operation as the specifications see it: (is a write, transaction, item).
pub type OpView = (bool, usize, Seq<char>);

/// An operation in a transaction schedule.
#[derive(Debug)]
pub enum Operation {
    Read { txn: usize, item: String },
    Write { txn: usize, item: String },
}

impl View for Operation {
    type V = OpView;

    open spec fn view(&self) -> OpView {
        match self {
            Operation::Read { txn, item } => (false, *txn, item@),
            Operation::Write { txn, item } => (true, *txn, item@),
        }
    }
}

/// Two operations conflict: different transactions, the same item, and at
/// least one of them writes.
pub open spec fn ops_conflict(a: OpView, b: OpView) -> bool {
    a.1 != b.1 && a.2 == b.2 && (a.0 || b.0)
}

impl Operation {
    /// A read of `item` by transaction `txn`.
    pub fn read(txn: usize, item: &str) -> (r: Operation)
        ensures
            r@ == (false, txn, item@),
    {
        Operation::Read { txn, item: item.to_owned() }
    }

    /// A write of `item` by transaction `txn`.
    pub fn write(txn: usize, item: &str) -> (r: Operation)
        ensures
            r@ == (true, txn, item@),
    {
        Operation::Write { txn, item: item.to_owned() }
    }

    /// The transaction that performs the operation.
    pub fn txn(&self) -> (r: usize)
        ensures
            r == self@.1,
    {
        match self {
            Operation::Read { txn, .. } => *txn,
            Operation::Write { txn, .. } => *txn,
        }
    }

    /// The item the operation touches.
    pub fn item(&self) -> (r: &str)
        ensures
            r@ == self@.2,
    {
        self.item_string().as_str()
    }

    /// The item the operation touches, as the stored string.
    fn item_string(&self) -> (r: &String)
        ensures
            r@ == self@.2,
    {
        match self {
            Operation::Read { item, .. } => item,
            Operation::Write { item, .. } => item,
        }
    }

    /// Whether the operation is a read.
    pub fn is_read(&self) -> (r: bool)
        ensures
            r == !self@.0,
    {
        match self {
            Operation::Read { .. } => true,
            Operation::Write { .. } => false,
        }
    }

    /// Whether the operation is a write.
    pub fn is_write(&self) -> (r: bool)
        ensures
            r == self@.0,
    {
        match self {
            Operation::Read { .. } => false,
            Operation::Write { .. } => true,
        }
    }

    /// A copy of the operation.
    pub fn duplicate(&self) -> (r: Operation)
        ensures
            r@ == self@,
    {
        match self {
            Operation::Read { txn, item } => Operation::Read { txn: *txn, item: item.clone() },
            Operation::Write { txn, item } => Operation::Write { txn: *txn, item: item.clone() },
        }
    }
}

impl Clone for Operation {
    fn clone(&self) -> (r: Self)
        ensures
            r@ == self@,
    {
        self.duplicate()
    }
}

impl PartialEq for Operation {
    fn eq(&self, other: &Self) -> (r: bool) {
        self.is_write() == other.is_write() && self.txn() == other.txn() && *self.item_string()
            == *other.item_string()
    }
}

impl vstd::std_specs::cmp::PartialEqSpecImpl for Operation {
    open spec fn obeys_eq_spec() -> bool {
        true
    }

    open spec fn eq_spec(&self, other: &Operation) -> bool {
        self@ == other@
    }
}

/// Whether two operations conflict: they come from different transactions,
/// touch the same item, and at least one of them writes.
pub fn conflicts(op1: &Operation, op2: &Operation) -> (r: bool)
    ensures
        r == ops_conflict(op1@, op2@),
{
    if op1.txn() == op2.txn() {
        return false;
    }
    if *op1.item_string() != *op2.item_string() {
        return false;
    }
    !(op1.is_read() && op2.is_read())
}

/// The operations of `ops`, as the specifications see them.
pub open spec fn ops_view(ops: Seq<Operation>) -> Seq<OpView> {
    ops.map_values(|o: Operation| o@)
}

/// The transactions that have an operation in `s`.
pub open spec fn txns_of(s: Seq<OpView>) -> Set<usize> {
    Set::new(|t: usize| exists|i: int| 0 <= i < s.len() && (#[trigger] s[i]).1 == t)
}

/// The precedence edges of `s`: T → U when an operation of T comes before a
/// conflicting operation of U.
pub open spec fn prec_edges(s: Seq<OpView>) -> Set<(usize, usize)> {
    Set::new(
        |e: (usize, usize)|
            exists|i: int, j: int|
                0 <= i < j < s.len() && #[trigger] ops_conflict(s[i], s[j]) && e == (s[i].1, s[j].1),
    )
}

/// A schedule of operations from several transactions.
#[derive(Debug, Clone, PartialEq)]
pub struct Schedule {
    pub operations: Vec<Operation>,
}

impl View for Schedule {
    type V = Seq<OpView>;

    open spec fn view(&self) -> Seq<OpView> {
        ops_view(self.operations@)
    }
}

/// A precedence (serializability) graph: its nodes and its edges, each kept
/// once.
#[derive(Debug, Clone)]
pub struct PrecedenceGraph {
    pub nodes: Vec<usize>,
    pub edges: Vec<(usize, usize)>,
}

impl View for PrecedenceGraph {
    type V = (Set<usize>, Set<(usize, usize)>);

    open spec fn view(&self) -> (Set<usize>, Set<(usize, usize)>) {
        (self.nodes@.to_set(), self.edges@.to_set())
    }
}

impl PrecedenceGraph {
    /// The graph keeps each node and each edge once.
    pub open spec fn wf(&self) -> bool {
        self.nodes@.no_duplicates() && self.edges@.no_duplicates()
    }

    /// The empty graph.
    pub fn new() -> (r: PrecedenceGraph)
        ensures
            r.wf(),
            r@.0 == Set::<usize>::empty(),
            r@.1 == Set::<(usize, usize)>::empty(),
    {
        let r = PrecedenceGraph { nodes: Vec::new(), edges: Vec::new() };
        proof {
            assert(r.nodes@.to_set() =~= Set::<usize>::empty());
            assert(r.edges@.to_set() =~= Set::<(usize, usize)>::empty());
        }
        r
    }

    /// Adds a node.
    pub fn add_node(&mut self, txn: usize)
        requires
            old(self).wf(),
        ensures
            final(self).wf(),
            final(self)@.0 == old(self)@.0.insert(txn),
            final(self)@.1 == old(self)@.1,
    {
        if !self.has_node(txn) {
            self.nodes.push(txn);
            proof {
                old(self).nodes@.lemma_push_to_set_commute(txn);
            }
        } else {
            proof {
                assert(self.nodes@.to_set() =~= old(self)@.0.insert(txn));
            }
        }
    }

    /// Whether `txn` is a node.
    fn has_node(&self, txn: usize) -> (r: bool)
        ensures
            r == self@.0.contains(txn),
    {
        let mut i: usize = 0;
        while i < self.nodes.len()
            invariant
                i <= self.nodes@.len(),
                forall|j: int| 0 <= j < i ==> self.nodes@[j] != txn,
            decreases self.nodes@.len() - i,
        {
            if self.nodes[i] == txn {
                proof {
                    assert(self.nodes@.contains(txn));
                }
                return true;
            }
            i += 1;
        }
        false
    }

    /// Whether `(from, to)` is an edge.
    fn has_edge(&self, from: usize, to: usize) -> (r: bool)
        ensures
            r == self@.1.contains((from, to)),
    {
        let mut i: usize = 0;
        while i < self.edges.len()
            invariant
                i <= self.edges@.len(),
                forall|j: int| 0 <= j < i ==> self.edges@[j] != (from, to),
            decreases self.edges@.len() - i,
        {
            let (a, b) = self.edges[i];
            if a == from && b == to {
                proof {
                    assert(self.edges@[i as int] == (from, to));
                    assert(self.edges@.contains((from, to)));
                }
                return true;
            }
            i += 1;
        }
        false
    }

    /// Adds the edge `from → to`, and both its ends as nodes.
    pub fn add_edge(&mut self, from: usize, to: usize)
        requires
            old(self).wf(),
        ensures
            final(self).wf(),
            final(self)@.0 == old(self)@.0.insert(from).insert(to),
            final(self)@.1 == old(self)@.1.insert((from, to)),
    {
        self.add_node(from);
        self.add_node(to);
        let ghost before = self.edges@;
        if !self.has_edge(from, to) {
            self.edges.push((from, to));
            proof {
                before.lemma_push_to_set_commute((from, to));
                assert forall|a: int, b: int| 0 <= a < self.edges@.len() && 0 <= b < self.edges@.len() && a != b implies self.edges@[a] != self.edges@[b] by {
                    if a == before.len() {
                        assert(before.contains(self.edges@[b]));
                    } else if b == before.len() {
                        assert(before.contains(self.edges@[a]));
                    }
                }
            }
        } else {
            proof {
                assert(self.edges@.to_set() =~= before.to_set().insert((from, to)));
            }
        }
    }

    /// The targets of the edges that leave `node`, in edge order.
    pub fn successors(&self, node: usize) -> (r: Vec<usize>)
        ensures
            r@ == succs(self.edges@, node),
    {
        let mut r: Vec<usize> = Vec::new();
        let mut i: usize = 0;
        while i < self.edges.len()
            invariant
                i <= self.edges@.len(),
                r@ == succs(self.edges@.subrange(0, i as int), node),
            decreases self.edges@.len() - i,
        {
            let (a, b) = self.edges[i];
            proof {
                assert(self.edges@.subrange(0, i as int + 1).drop_last() =~= self.edges@.subrange(0, i as int));
                assert(self.edges@.subrange(0, i as int + 1).last() == (a, b));
            }
            if a == node {
                r.push(b);
            }
            i += 1;
        }
        proof {
            assert(self.edges@.subrange(0, i as int) =~= self.edges@);
        }
        r
    }
}

/// The targets of the edges of `edges` that leave `node`, in order.
pub open spec fn succs(edges: Seq<(usize, usize)>, node: usize) -> Seq<usize>
    decreases edges.len(),
{
    if edges.len() == 0 {
        Seq::empty()
    } else {
        let r = succs(edges.drop_last(), node);
        if edges.last().0 == node {
            r.push(edges.last().1)
        } else {
            r
        }
    }
}

/// A transaction: its id and its operations, in order.
#[derive(Debug, Clone, PartialEq)]
pub struct Transaction {
    pub id: usize,
    pub operations: Vec<Operation>,
}

impl Transaction {
    /// A transaction with no operations yet.
    pub fn new(id: usize) -> (r: Transaction)
        ensures
            r.id == id,
            r.operations@.len() == 0,
    {
        Transaction { id, operations: Vec::new() }
    }

    /// Appends a read of `item`.
    pub fn read(&mut self, item: &str)
        ensures
            final(self).id == old(self).id,
            ops_view(final(self).operations@) == ops_view(old(self).operations@).push((false, old(self).id, item@)),
    {
        let op = Operation::read(self.id, item);
        self.operations.push(op);
        proof {
            assert(ops_view(self.operations@) =~= ops_view(old(self).operations@).push((false, old(self).id, item@)));
        }
    }

    /// Appends a write of `item`.
    pub fn write(&mut self, item: &str)
        ensures
            final(self).id == old(self).id,
            ops_view(final(self).operations@) == ops_view(old(self).operations@).push((true, old(self).id, item@)),
    {
        let op = Operation::write(self.id, item);
        self.operations.push(op);
        proof {
            assert(ops_view(self.operations@) =~= ops_view(old(self).operations@).push((true, old(self).id, item@)));
        }
    }
}

/// `p` is a walk of the graph: nodes of `n`, each joined to the next by an
/// edge of `e`.
pub open spec fn is_walk(n: Set<usize>, e: Set<(usize, usize)>, p: Seq<usize>) -> bool {
    &&& p.len() >= 1
    &&& forall|k: int| 0 <= k < p.len() ==> n.contains(#[trigger] p[k])
    &&& forall|k: int| 0 <= k < p.len() - 1 ==> #[trigger] step_at(e, p, k)
}

/// The `k`-th step of `p` is an edge of `e`.
pub open spec fn step_at(e: Set<(usize, usize)>, p: Seq<usize>, k: int) -> bool {
    e.contains((p[k], p[k + 1]))
}

/// The graph has a cycle: a walk of at least one edge that ends where it
/// starts.
pub open spec fn has_cycle_spec(n: Set<usize>, e: Set<(usize, usize)>) -> bool {
    exists|p: Seq<usize>| #[trigger] is_walk(n, e, p) && p.len() >= 2 && p[0] == p.last()
}

/// The state of the depth-first search: white nodes are unvisited, gray ones
/// are on the current path `stack`, black ones are finished, in finishing
/// order, each with every successor finished before it.
#[verifier::opaque]
pub open spec fn dfs_inv(
    n: Set<usize>,
    e: Set<(usize, usize)>,
    white: Set<usize>,
    gray: Set<usize>,
    black: Seq<usize>,
    stack: Seq<usize>,
) -> bool {
    &&& n.finite()
    &&& white.subset_of(n)
    &&& gray == stack.to_set()
    &&& stack.no_duplicates()
    &&& (stack.len() > 0 ==> is_walk(n, e, stack))
    &&& black.no_duplicates()
    &&& forall|x: usize| #[trigger] n.contains(x) ==> (white.contains(x) || gray.contains(x) || black.contains(x))
    &&& forall|x: usize| #[trigger] white.contains(x) ==> !gray.contains(x) && !black.contains(x)
    &&& forall|x: usize| #[trigger] gray.contains(x) ==> !black.contains(x) && n.contains(x)
    &&& forall|k: int| 0 <= k < black.len() ==> n.contains(#[trigger] black[k])
    &&& forall|k: int, v: usize|
        0 <= k < black.len() && #[trigger] e.contains((black[k], v)) && n.contains(v) ==> exists|k2: int|
            0 <= k2 < k && #[trigger] black[k2] == v
}

/// A walk over nodes finished in order, every edge going to one finished
/// earlier, ends on a node finished before its start.
proof fn lemma_walk_descends(n: Set<usize>, e: Set<(usize, usize)>, black: Seq<usize>, p: Seq<usize>, k0: int)
    requires
        is_walk(n, e, p),
        p.len() >= 2,
        0 <= k0 < black.len(),
        black[k0] == p[0],
        forall|k: int, v: usize|
            0 <= k < black.len() && #[trigger] e.contains((black[k], v)) && n.contains(v) ==> exists|k2: int|
                0 <= k2 < k && #[trigger] black[k2] == v,
    ensures
        exists|k: int| 0 <= k < k0 && black[k] == p.last(),
    decreases p.len(),
{
    assert(step_at(e, p, 0));
    assert(n.contains(p[1]));
    assert(e.contains((black[k0], p[1])));
    let k1 = choose|k2: int| 0 <= k2 < k0 && #[trigger] black[k2] == p[1];
    if p.len() > 2 {
        let q = p.drop_first();
        assert forall|k: int| 0 <= k < q.len() implies n.contains(#[trigger] q[k]) by {
            assert(q[k] == p[k + 1]);
        }
        assert forall|k: int| 0 <= k < q.len() - 1 implies #[trigger] step_at(e, q, k) by {
            assert(step_at(e, p, k + 1));
            assert(q[k] == p[k + 1]);
            assert(q[k + 1] == p[k + 2]);
        }
        lemma_walk_descends(n, e, black, q, k1);
        assert(q.last() == p.last());
    }
}

/// Entering `node`: it leaves the white nodes and goes on the path.
proof fn lemma_dfs_enter(
    n: Set<usize>,
    e: Set<(usize, usize)>,
    white: Set<usize>,
    gray: Set<usize>,
    black: Seq<usize>,
    stack: Seq<usize>,
    node: usize,
)
    requires
        dfs_inv(n, e, white, gray, black, stack),
        white.contains(node),
        stack.len() > 0 ==> e.contains((stack.last(), node)),
    ensures
        dfs_inv(n, e, white.remove(node), gray.insert(node), black, stack.push(node)),
{
    reveal(dfs_inv);
    let st = stack.push(node);
    stack.lemma_push_to_set_commute(node);
    assert(!stack.contains(node)) by {
        if stack.contains(node) {
            assert(gray.contains(node));
        }
    }
    assert forall|a: int, b: int| 0 <= a < st.len() && 0 <= b < st.len() && a != b implies st[a] != st[b] by {
        if a == stack.len() {
            assert(stack.contains(st[b]));
        } else if b == stack.len() {
            assert(stack.contains(st[a]));
        }
    }
    assert forall|k: int| 0 <= k < st.len() implies n.contains(#[trigger] st[k]) by {
        if k < stack.len() {
            assert(st[k] == stack[k]);
        }
    }
    assert forall|k: int| 0 <= k < st.len() - 1 implies #[trigger] step_at(e, st, k) by {
        assert(st[k] == stack[k]);
        if k < stack.len() - 1 {
            assert(st[k + 1] == stack[k + 1]);
            assert(step_at(e, stack, k));
        }
    }
}

/// An edge from the end of the path back onto the path closes a cycle.
proof fn lemma_dfs_back_edge(n: Set<usize>, e: Set<(usize, usize)>, st: Seq<usize>, to: usize)
    requires
        st.len() > 0,
        is_walk(n, e, st),
        st.contains(to),
        e.contains((st.last(), to)),
    ensures
        has_cycle_spec(n, e),
{
    let m = choose|m: int| 0 <= m < st.len() && st[m] == to;
    let p = st.subrange(m, st.len() as int).push(to);
    assert forall|kk: int| 0 <= kk < p.len() implies n.contains(#[trigger] p[kk]) by {
        if kk < p.len() - 1 {
            assert(p[kk] == st[m + kk]);
        }
    }
    assert forall|kk: int| 0 <= kk < p.len() - 1 implies #[trigger] step_at(e, p, kk) by {
        assert(p[kk] == st[m + kk]);
        if kk < p.len() - 2 {
            assert(p[kk + 1] == st[m + kk + 1]);
            assert(step_at(e, st, m + kk));
        }
    }
    assert(is_walk(n, e, p));
}

/// `b` begins with `a`.
pub open spec fn extends(b: Seq<usize>, a: Seq<usize>) -> bool {
    b.len() >= a.len() && b.subrange(0, a.len() as int) == a
}

proof fn lemma_extends_trans(a: Seq<usize>, b: Seq<usize>, c: Seq<usize>)
    requires
        extends(b, a),
        extends(c, b),
    ensures
        extends(c, a),
        forall|x: usize| a.contains(x) ==> c.contains(x),
{
    assert forall|j: int| 0 <= j < a.len() implies c[j] == a[j] by {
        assert(c.subrange(0, b.len() as int)[j] == b[j]);
        assert(b.subrange(0, a.len() as int)[j] == a[j]);
    }
    assert(c.subrange(0, a.len() as int) =~= a);
    assert forall|x: usize| a.contains(x) implies c.contains(x) by {
        let j = choose|j: int| 0 <= j < a.len() && a[j] == x;
        assert(c[j] == x);
    }
}

proof fn lemma_extends_contains(a: Seq<usize>, b: Seq<usize>)
    requires
        extends(b, a),
    ensures
        forall|x: usize| a.contains(x) ==> b.contains(x),
{
    assert forall|x: usize| a.contains(x) implies b.contains(x) by {
        let j = choose|j: int| 0 <= j < a.len() && a[j] == x;
        assert(b.subrange(0, a.len() as int)[j] == x);
    }
}

/// Leaving `node` with every successor finished: it goes from the path to
/// the finished nodes.
proof fn lemma_dfs_finish(
    n: Set<usize>,
    e: Set<(usize, usize)>,
    white: Set<usize>,
    gray: Set<usize>,
    black: Seq<usize>,
    stack: Seq<usize>,
    node: usize,
)
    requires
        dfs_inv(n, e, white, gray, black, stack.push(node)),
        forall|v: usize| e.contains((node, v)) && n.contains(v) ==> black.contains(v),
    ensures
        dfs_inv(n, e, white, gray.remove(node), black.push(node), stack),
        stack.push(node).to_set().remove(node) == stack.to_set(),
{
    reveal(dfs_inv);
    let st = stack.push(node);
    let b2 = black.push(node);
    stack.lemma_push_to_set_commute(node);
    assert(!stack.contains(node)) by {
        if stack.contains(node) {
            let j = choose|j: int| 0 <= j < stack.len() && stack[j] == node;
            assert(st[j] == st[stack.len() as int]);
        }
    }
    assert(gray.remove(node) =~= stack.to_set());
    assert forall|a: int, b: int| 0 <= a < stack.len() && 0 <= b < stack.len() && a != b implies stack[a] != stack[b] by {
        assert(st[a] == stack[a] && st[b] == stack[b]);
    }
    if stack.len() > 0 {
        assert forall|k: int| 0 <= k < stack.len() implies n.contains(#[trigger] stack[k]) by {
            assert(st[k] == stack[k]);
        }
        assert forall|k: int| 0 <= k < stack.len() - 1 implies #[trigger] step_at(e, stack, k) by {
            assert(st[k] == stack[k] && st[k + 1] == stack[k + 1]);
            assert(step_at(e, st, k));
        }
    }
    assert(st[stack.len() as int] == node);
    assert(st.to_set().contains(node));
    assert(!black.contains(node));
    assert forall|a: int, b: int| 0 <= a < b2.len() && 0 <= b < b2.len() && a != b implies b2[a] != b2[b] by {
        if a == black.len() {
            assert(black.contains(b2[b]));
        } else if b == black.len() {
            assert(black.contains(b2[a]));
        }
    }
    assert forall|x: usize| #[trigger] n.contains(x) implies (white.contains(x) || gray.remove(node).contains(x) || b2.contains(x)) by {
        if x == node {
            assert(b2[black.len() as int] == node);
        } else if black.contains(x) {
            let j = choose|j: int| 0 <= j < black.len() && black[j] == x;
            assert(b2[j] == x);
        }
    }
    assert forall|x: usize| #[trigger] white.contains(x) implies !gray.remove(node).contains(x) && !b2.contains(x) by {
        if b2.contains(x) {
            let j = choose|j: int| 0 <= j < b2.len() && b2[j] == x;
            if j < black.len() {
                assert(black[j] == x);
            }
        }
    }
    assert forall|x: usize| #[trigger] gray.remove(node).contains(x) implies !b2.contains(x) && n.contains(x) by {
        if b2.contains(x) {
            let j = choose|j: int| 0 <= j < b2.len() && b2[j] == x;
            if j < black.len() {
                assert(black[j] == x);
            }
        }
    }
    assert forall|k: int| 0 <= k < b2.len() implies n.contains(#[trigger] b2[k]) by {
        if k < black.len() {
            assert(b2[k] == black[k]);
        }
    }
    assert forall|kk: int, v: usize|
        0 <= kk < b2.len() && #[trigger] e.contains((b2[kk], v)) && n.contains(v) implies exists|k2: int|
            0 <= k2 < kk && #[trigger] b2[k2] == v by {
        if kk < black.len() {
            assert(b2[kk] == black[kk]);
            let k2 = choose|k2: int| 0 <= k2 < kk && #[trigger] black[k2] == v;
            assert(b2[k2] == v);
        } else {
            assert(black.contains(v));
            let k2 = choose|k2: int| 0 <= k2 < black.len() && black[k2] == v;
            assert(b2[k2] == v);
        }
    }
}

/// The nodes on the path of the search are those of its stack.
proof fn lemma_dfs_facts(
    n: Set<usize>,
    e: Set<(usize, usize)>,
    white: Set<usize>,
    gray: Set<usize>,
    black: Seq<usize>,
    stack: Seq<usize>,
)
    requires
        dfs_inv(n, e, white, gray, black, stack),
    ensures
        gray == stack.to_set(),
        stack.len() > 0 ==> is_walk(n, e, stack),
        white.subset_of(n),
        n.finite(),
        forall|x: usize| #[trigger] n.contains(x) ==> (white.contains(x) || gray.contains(x) || black.contains(x)),
{
    reveal(dfs_inv);
}

impl PrecedenceGraph {
    /// Depth-first search from the white node `node`; true when it meets a
    /// node on the current path, that is, a cycle.
    #[verifier::spinoff_prover]
    fn dfs_cycle(
        &self,
        node: usize,
        white: &mut HashSet<usize>,
        gray: &mut HashSet<usize>,
        black: &mut Vec<usize>,
        Ghost(stack): Ghost<Seq<usize>>,
    ) -> (r: bool)
        requires
            dfs_inv(self@.0, self@.1, old(white)@, old(gray)@, old(black)@, stack),
            old(white)@.contains(node),
            stack.len() > 0 ==> self@.1.contains((stack.last(), node)),
        ensures
            r ==> has_cycle_spec(self@.0, self@.1),
            !r ==> dfs_inv(self@.0, self@.1, final(white)@, final(gray)@, final(black)@, stack),
            !r ==> final(gray)@ == old(gray)@,
            !r ==> final(white)@.subset_of(old(white)@.remove(node)),
            !r ==> extends(final(black)@, old(black)@),
            !r ==> final(black)@.contains(node),
        decreases old(white)@.len(),
    {
        let ghost n = self@.0;
        let ghost e = self@.1;
        let ghost white0 = white@;
        let ghost gray0 = gray@;
        let ghost black0 = black@;
        proof {
            lemma_dfs_enter(n, e, white@, gray@, black@, stack, node);
            lemma_dfs_facts(n, e, white@, gray@, black@, stack);
            vstd::set_lib::lemma_len_subset(white0.remove(node), white0);
        }
        white.remove(&node);
        gray.insert(node);
        let ghost st = stack.push(node);
        proof {
            assert(black@.subrange(0, black0.len() as int) =~= black0);
        }
        let mut k: usize = 0;
        while k < self.edges.len()
            invariant
                n == self@.0,
                e == self@.1,
                dfs_inv(n, e, white@, gray@, black@, st),
                st == stack.push(node),
                white@.subset_of(white0.remove(node)),
                white0.finite(),
                white0.contains(node),
                white0 == old(white)@,
                extends(black@, black0),
                forall|kk: int| 0 <= kk < k && (#[trigger] self.edges@[kk]).0 == node && n.contains(self.edges@[kk].1) ==> black@.contains(self.edges@[kk].1),
            decreases self.edges@.len() - k,
        {
            let (from, to) = self.edges[k];
            proof {
                assert(self.edges@[k as int] == (from, to));
                assert(self.edges@.contains((from, to)));
                lemma_dfs_facts(n, e, white@, gray@, black@, st);
            }
            if from == node {
                if gray.contains(&to) {
                    proof {
                        assert(st.contains(to));
                        lemma_dfs_back_edge(n, e, st, to);
                    }
                    return true;
                }
                if white.contains(&to) {
                    let ghost black1 = black@;
                    proof {
                        vstd::set_lib::lemma_len_subset(white@, white0.remove(node));
                        assert(white0.remove(node).len() == white0.len() - 1);
                        assert(white@.len() < white0.len());
                    }
                    let found = self.dfs_cycle(to, white, gray, black, Ghost(st));
                    if found {
                        return true;
                    }
                    proof {
                        lemma_extends_trans(black0, black1, black@);
                        assert forall|kk: int| 0 <= kk < k + 1 && (#[trigger] self.edges@[kk]).0 == node && n.contains(self.edges@[kk].1) implies black@.contains(self.edges@[kk].1) by {
                            if kk < k {
                                lemma_extends_contains(black1, black@);
                                assert(black1.contains(self.edges@[kk].1));
                                let x = self.edges@[kk].1;
                                let j = choose|j: int| 0 <= j < black1.len() && black1[j] == x;
                                assert(black@.subrange(0, black1.len() as int)[j] == x);
                            }
                        }
                    }
                }
            }
            k += 1;
        }
        proof {
            lemma_dfs_facts(n, e, white@, gray@, black@, st);
            assert forall|v: usize| e.contains((node, v)) && n.contains(v) implies black@.contains(v) by {
                assert(self.edges@.to_set().contains((node, v)));
                let kk = choose|kk: int| 0 <= kk < self.edges@.len() && self.edges@[kk] == (node, v);
                assert(self.edges@[kk].0 == node);
            }
            lemma_dfs_finish(n, e, white@, gray@, black@, stack, node);
        }
        gray.remove(&node);
        let ghost black2 = black@;
        black.push(node);
        proof {
            assert(gray@ == gray0);
            assert(black@.subrange(0, black2.len() as int) =~= black2);
            lemma_extends_trans(black0, black2, black@);
            assert(black@[black2.len() as int] == node);
        }
        false
    }

    /// Whether the graph has a cycle, found by depth-first search.
    pub fn has_cycle(&self) -> (r: bool)
        ensures
            r == has_cycle_spec(self@.0, self@.1),
    {
        let ghost n = self@.0;
        let ghost e = self@.1;
        let mut white: HashSet<usize> = HashSet::new();
        let mut i: usize = 0;
        while i < self.nodes.len()
            invariant
                i <= self.nodes@.len(),
                white@ == self.nodes@.subrange(0, i as int).to_set(),
            decreases self.nodes@.len() - i,
        {
            white.insert(self.nodes[i]);
            proof {
                lemma_subrange_to_set_push(self.nodes@, i as int);
            }
            i += 1;
        }
        proof {
            assert(self.nodes@.subrange(0, i as int) =~= self.nodes@);
        }
        let mut gray: HashSet<usize> = HashSet::new();
        let mut black: Vec<usize> = Vec::new();
        proof {
            assert(gray@ =~= Seq::<usize>::empty().to_set());
            vstd::seq_lib::seq_to_set_is_finite(self.nodes@);
            reveal(dfs_inv);
            assert(dfs_inv(n, e, white@, gray@, black@, Seq::empty()));
        }
        let mut i: usize = 0;
        while i < self.nodes.len()
            invariant
                i <= self.nodes@.len(),
                n == self@.0,
                e == self@.1,
                dfs_inv(n, e, white@, gray@, black@, Seq::empty()),
                forall|j: int| 0 <= j < i ==> !white@.contains(#[trigger] self.nodes@[j]),
            decreases self.nodes@.len() - i,
        {
            let node = self.nodes[i];
            if white.contains(&node) {
                if self.dfs_cycle(node, &mut white, &mut gray, &mut black, Ghost(Seq::empty())) {
                    return true;
                }
            }
            i += 1;
        }
        proof {
            reveal(dfs_inv);
            assert forall|p: Seq<usize>| #[trigger] is_walk(n, e, p) && p.len() >= 2 implies p[0] != p.last() by {
                assert(n.contains(p[0]));
                let j = choose|j: int| 0 <= j < self.nodes@.len() && self.nodes@[j] == p[0];
                assert(!white@.contains(p[0]));
                assert(gray@ == Seq::<usize>::empty().to_set());
                assert(!gray@.contains(p[0]));
                assert(black@.contains(p[0]));
                let k0 = choose|k0: int| 0 <= k0 < black@.len() && black@[k0] == p[0];
                lemma_walk_descends(n, e, black@, p, k0);
                let k = choose|k: int| 0 <= k < k0 && black@[k] == p.last();
            }
        }
        false
    }
}

/// The number of edges of `edges` into `u` whose source is not in `done`.
pub open spec fn pending(edges: Seq<(usize, usize)>, u: usize, done: Set<usize>) -> nat
    decreases edges.len(),
{
    if edges.len() == 0 {
        0
    } else {
        pending(edges.drop_last(), u, done) + if edges.last().1 == u && !done.contains(edges.last().0) {
            1nat
        } else {
            0nat
        }
    }
}

/// The number of times `(from, u)` occurs in `edges`.
pub open spec fn count_edge(edges: Seq<(usize, usize)>, from: usize, u: usize) -> nat
    decreases edges.len(),
{
    if edges.len() == 0 {
        0
    } else {
        count_edge(edges.drop_last(), from, u) + if edges.last() == (from, u) {
            1nat
        } else {
            0nat
        }
    }
}

/// Finishing `from` takes its edges out of the pending ones.
proof fn lemma_pending_finish(edges: Seq<(usize, usize)>, u: usize, done: Set<usize>, from: usize)
    requires
        !done.contains(from),
    ensures
        pending(edges, u, done) == pending(edges, u, done.insert(from)) + count_edge(edges, from, u),
    decreases edges.len(),
{
    if edges.len() > 0 {
        lemma_pending_finish(edges.drop_last(), u, done, from);
    }
}

/// No edge into `u` is pending exactly when every source of an edge into
/// `u` is done.
proof fn lemma_pending_zero(edges: Seq<(usize, usize)>, u: usize, done: Set<usize>)
    ensures
        pending(edges, u, done) == 0 <==> forall|k: int| 0 <= k < edges.len() && (#[trigger] edges[k]).1 == u ==> done.contains(edges[k].0),
    decreases edges.len(),
{
    if edges.len() > 0 {
        let p = edges.drop_last();
        lemma_pending_zero(p, u, done);
        if pending(edges, u, done) == 0 {
            assert forall|k: int| 0 <= k < edges.len() && (#[trigger] edges[k]).1 == u implies done.contains(edges[k].0) by {
                if k < p.len() {
                    assert(p[k] == edges[k]);
                }
            }
        } else {
            if pending(p, u, done) != 0 {
                let k = choose|k: int| 0 <= k < p.len() && (#[trigger] p[k]).1 == u && !done.contains(p[k].0);
                assert(edges[k] == p[k]);
            } else {
                assert(edges[edges.len() - 1] == edges.last());
            }
        }
    }
}

/// A prefix has no more of an edge than the whole.
proof fn lemma_count_edge_prefix(edges: Seq<(usize, usize)>, from: usize, u: usize, k: int)
    requires
        0 <= k <= edges.len(),
    ensures
        count_edge(edges.subrange(0, k), from, u) <= count_edge(edges, from, u),
    decreases edges.len() - k,
{
    if k < edges.len() {
        lemma_count_edge_prefix(edges, from, u, k + 1);
        assert(edges.subrange(0, k + 1).drop_last() =~= edges.subrange(0, k));
    } else {
        assert(edges.subrange(0, k) =~= edges);
    }
}

/// Where `x` stands in `v`, if it does.
fn position_of(v: &Vec<usize>, x: usize) -> (r: Option<usize>)
    ensures
        match r {
            Some(j) => j < v@.len() && v@[j as int] == x,
            None => !v@.contains(x),
        },
{
    let mut i: usize = 0;
    while i < v.len()
        invariant
            i <= v@.len(),
            forall|j: int| 0 <= j < i ==> v@[j] != x,
        decreases v@.len() - i,
    {
        if v[i] == x {
            return Some(i);
        }
        i += 1;
    }
    None
}

/// The targets of the first `k` edges.
pub open spec fn targets_before(es: Seq<(usize, usize)>, k: int) -> Set<usize> {
    Set::new(|u: usize| exists|kk: int| 0 <= kk < k && (#[trigger] es[kk]).1 == u)
}

/// The vertices that topological sorting works on: the nodes and every edge
/// target.
pub open spec fn topo_vertices(n: Set<usize>, e: Set<(usize, usize)>) -> Set<usize> {
    Set::new(|u: usize| n.contains(u) || exists|p: usize| e.contains((p, u)))
}

impl PrecedenceGraph {
    /// Kahn's algorithm: repeatedly takes a vertex none of whose incoming
    /// edges is left, and drops its outgoing edges. The vertices that lie on
    /// a cycle, or behind one, are never taken.
    #[verifier::spinoff_prover]
    #[verifier::rlimit(60)]
    pub fn topological_sort(&self) -> (r: Vec<usize>)
        ensures
            r@.no_duplicates(),
            forall|i: int| 0 <= i < r@.len() ==> topo_vertices(self@.0, self@.1).contains(#[trigger] r@[i]),
            forall|i: int, p: usize| 0 <= i < r@.len() && #[trigger] self@.1.contains((p, r@[i])) ==> exists|i2: int| 0 <= i2 < i && r@[i2] == p,
            forall|u: usize| #[trigger] topo_vertices(self@.0, self@.1).contains(u) && !r@.contains(u) ==> exists|p: usize| self@.1.contains((p, u)) && !r@.contains(p),
    {
        let ghost es = self.edges@;
        let ghost vset = topo_vertices(self@.0, self@.1);
        let mut verts: Vec<usize> = Vec::new();
        let mut deg: Vec<usize> = Vec::new();
        let mut i: usize = 0;
        while i < self.nodes.len()
            invariant
                i <= self.nodes@.len(),
                verts@.len() == deg@.len(),
                verts@.no_duplicates(),
                forall|j: int| 0 <= j < deg@.len() ==> deg@[j] == 0,
                forall|u: usize| verts@.contains(u) <==> self.nodes@.subrange(0, i as int).contains(u),
            decreases self.nodes@.len() - i,
        {
            let node = self.nodes[i];
            let ghost before = verts@;
            proof {
                assert(self.nodes@.subrange(0, i as int + 1) =~= self.nodes@.subrange(0, i as int).push(node));
                assert forall|u: usize| self.nodes@.subrange(0, i as int).push(node).contains(u) <==> (self.nodes@.subrange(0, i as int).contains(u) || u == node) by {
                    vstd::seq_lib::lemma_seq_contains_after_push(self.nodes@.subrange(0, i as int), node, u);
                }
            }
            let pos = position_of(&verts, node);
            if pos.is_none() {
                verts.push(node);
                deg.push(0);
                proof {
                    assert forall|u: usize| verts@.contains(u) <==> (before.contains(u) || u == node) by {
                        vstd::seq_lib::lemma_seq_contains_after_push(before, node, u);
                    }
                    assert forall|a: int, b: int| 0 <= a < verts@.len() && 0 <= b < verts@.len() && a != b implies verts@[a] != verts@[b] by {
                        if a == before.len() {
                            assert(before.contains(verts@[b]));
                        } else if b == before.len() {
                            assert(before.contains(verts@[a]));
                        }
                    }
                }
            } else {
                proof {
                    assert(before.contains(node));
                }
            }
            proof {
                assert forall|u: usize| verts@.contains(u) <==> self.nodes@.subrange(0, i as int + 1).contains(u) by {
                    assert(self.nodes@.subrange(0, i as int + 1) =~= self.nodes@.subrange(0, i as int).push(node));
                    vstd::seq_lib::lemma_seq_contains_after_push(self.nodes@.subrange(0, i as int), node, u);
                    if pos.is_none() {
                        vstd::seq_lib::lemma_seq_contains_after_push(before, node, u);
                    } else {
                        assert(verts@ == before);
                    }
                }
            }
            i += 1;
        }
        proof {
            assert(self.nodes@.subrange(0, i as int) =~= self.nodes@);
        }
        let mut k: usize = 0;
        while k < self.edges.len()
            invariant
                k <= es.len(),
                es == self.edges@,
                verts@.len() == deg@.len(),
                verts@.no_duplicates(),
                forall|j: int| 0 <= j < deg@.len() ==> deg@[j] == pending(es.subrange(0, k as int), #[trigger] verts@[j], Set::empty()),
                forall|j: int| 0 <= j < deg@.len() ==> deg@[j] <= k,
                forall|u: usize| verts@.contains(u) <==> (self.nodes@.contains(u) || targets_before(es, k as int).contains(u)),
            decreases es.len() - k,
        {
            let (from, to) = self.edges[k];
            let ghost before = verts@;
            let ghost deg_before = deg@;
            proof {
                assert(es.subrange(0, k as int + 1).drop_last() =~= es.subrange(0, k as int));
                assert(es.subrange(0, k as int + 1).last() == (from, to));
                assert(es[k as int] == (from, to));
            }
            proof {
                assert forall|u: usize| #[trigger] targets_before(es, k as int + 1).contains(u) <==> (targets_before(es, k as int).contains(u) || u == to) by {
                    if u == to {
                        assert(es[k as int].1 == u);
                    }
                    if exists|kk: int| 0 <= kk < k + 1 && (#[trigger] es[kk]).1 == u {
                        let kk = choose|kk: int| 0 <= kk < k + 1 && (#[trigger] es[kk]).1 == u;
                        if kk == k {
                            assert(u == to);
                        }
                    }
                    if exists|kk: int| 0 <= kk < k && (#[trigger] es[kk]).1 == u {
                        let kk = choose|kk: int| 0 <= kk < k && (#[trigger] es[kk]).1 == u;
                        assert(es[kk].1 == u);
                    }
                }
            }
            match position_of(&verts, to) {
                Some(j) => {
                    let d = deg[j];
                    deg.set(j, d + 1);
                    proof {
                        assert forall|jj: int| 0 <= jj < deg@.len() implies deg@[jj] == pending(es.subrange(0, k as int + 1), #[trigger] verts@[jj], Set::empty()) by {
                            if jj != j {
                                assert(verts@[jj] != to);
                            }
                        }
                        assert forall|u: usize| verts@.contains(u) <==> (self.nodes@.contains(u) || targets_before(es, k as int + 1).contains(u)) by {
                            assert(verts@ == before);
                            if u == to {
                                assert(before.contains(to));
                            }
                        }
                    }
                },
                None => {
                    verts.push(to);
                    deg.push(1);
                    proof {
                        assert forall|jj: int| 0 <= jj < deg@.len() implies deg@[jj] == pending(es.subrange(0, k as int + 1), #[trigger] verts@[jj], Set::empty()) by {
                            if jj < before.len() {
                                assert(verts@[jj] == before[jj]);
                                assert(before[jj] != to);
                            } else {
                                assert(verts@[jj] == to);
                                assert(pending(es.subrange(0, k as int), to, Set::empty()) == 0) by {
                                    lemma_pending_zero(es.subrange(0, k as int), to, Set::empty());
                                    assert forall|kk: int| 0 <= kk < k && (#[trigger] es.subrange(0, k as int)[kk]).1 == to implies false by {
                                        assert(es[kk] == es.subrange(0, k as int)[kk]);
                                        assert(before.contains(to));
                                    }
                                }
                            }
                        }
                        assert forall|u: usize| verts@.contains(u) <==> (before.contains(u) || u == to) by {
                            vstd::seq_lib::lemma_seq_contains_after_push(before, to, u);
                        }
                        assert forall|u: usize| verts@.contains(u) <==> (self.nodes@.contains(u) || targets_before(es, k as int + 1).contains(u)) by {
                            vstd::seq_lib::lemma_seq_contains_after_push(before, to, u);
                        }
                        assert forall|a: int, b: int| 0 <= a < verts@.len() && 0 <= b < verts@.len() && a != b implies verts@[a] != verts@[b] by {
                            if a == before.len() {
                                assert(before.contains(verts@[b]));
                            } else if b == before.len() {
                                assert(before.contains(verts@[a]));
                            }
                        }
                    }
                },
            }
            k += 1;
        }
        proof {
            assert(es.subrange(0, k as int) =~= es);
            assert forall|u: usize| verts@.contains(u) <==> vset.contains(u) by {
                if vset.contains(u) {
                    if self@.0.contains(u) {
                        assert(self.nodes@.contains(u));
                    } else {
                        let p = choose|p: usize| self@.1.contains((p, u));
                        assert(es.contains((p, u)));
                        let kk = choose|kk: int| 0 <= kk < es.len() && es[kk] == (p, u);
                        assert(es[kk].1 == u);
                        assert(targets_before(es, k as int).contains(u));
                    }
                }
                if verts@.contains(u) {
                    if self.nodes@.contains(u) {
                        assert(self@.0.contains(u));
                    } else {
                        assert(targets_before(es, k as int).contains(u));
                        let kk = choose|kk: int| 0 <= kk < k && (#[trigger] es[kk]).1 == u;
                        assert(es.to_set().contains(es[kk]));
                        assert(self@.1.contains((es[kk].0, u)));
                    }
                }
            }
        }
        let mut queue: std::collections::VecDeque<usize> = std::collections::VecDeque::new();
        let mut j: usize = 0;
        while j < verts.len()
            invariant
                j <= verts@.len(),
                verts@.len() == deg@.len(),
                verts@.no_duplicates(),
                queue@.no_duplicates(),
                forall|x: usize| queue@.contains(x) <==> exists|jj: int| 0 <= jj < j && #[trigger] verts@[jj] == x && deg@[jj] == 0,
            decreases verts@.len() - j,
        {
            let ghost qb0 = queue@;
            if deg[j] == 0 {
                let ghost qb = queue@;
                queue.push_back(verts[j]);
                proof {
                    assert forall|x: usize| queue@.contains(x) <==> (qb.contains(x) || x == verts@[j as int]) by {
                        vstd::seq_lib::lemma_seq_contains_after_push(qb, verts@[j as int], x);
                    }
                    assert(!qb.contains(verts@[j as int])) by {
                        if qb.contains(verts@[j as int]) {
                            let jj = choose|jj: int| 0 <= jj < j && #[trigger] verts@[jj] == verts@[j as int] && deg@[jj] == 0;
                        }
                    }
                    assert forall|a: int, b: int| 0 <= a < queue@.len() && 0 <= b < queue@.len() && a != b implies queue@[a] != queue@[b] by {
                        if a == qb.len() {
                            assert(qb.contains(queue@[b]));
                        } else if b == qb.len() {
                            assert(qb.contains(queue@[a]));
                        }
                    }
                }
            }
            proof {
                assert forall|x: usize| queue@.contains(x) <==> exists|jj: int| 0 <= jj < j + 1 && #[trigger] verts@[jj] == x && deg@[jj] == 0 by {
                    if exists|jj: int| 0 <= jj < j + 1 && #[trigger] verts@[jj] == x && deg@[jj] == 0 {
                        let jj = choose|jj: int| 0 <= jj < j + 1 && #[trigger] verts@[jj] == x && deg@[jj] == 0;
                        if jj < j {
                            assert(qb0.contains(x));
                            let m = choose|m: int| 0 <= m < qb0.len() && qb0[m] == x;
                            assert(queue@[m] == x);
                        } else {
                            assert(queue@[qb0.len() as int] == x);
                        }
                    }
                    if queue@.contains(x) {
                        let m = choose|m: int| 0 <= m < queue@.len() && queue@[m] == x;
                        if m < qb0.len() {
                            assert(qb0[m] == x);
                            assert(qb0.contains(x));
                        } else {
                            assert(verts@[j as int] == x && deg@[j as int] == 0);
                        }
                    }
                }
            }
            j += 1;
        }
        let mut result: Vec<usize> = Vec::new();
        proof {
            assert(result@.to_set() =~= Set::<usize>::empty());
            assert forall|jj: int| 0 <= jj < verts@.len() implies (deg@[jj] == 0 <==> (queue@.contains(#[trigger] verts@[jj]) || result@.contains(verts@[jj]))) by {
                if queue@.contains(verts@[jj]) {
                    let j2 = choose|j2: int| 0 <= j2 < j && #[trigger] verts@[j2] == verts@[jj] && deg@[j2] == 0;
                }
            }
        }
        loop
            invariant
                es == self.edges@,
                vset == topo_vertices(self@.0, self@.1),
                verts@.len() == deg@.len(),
                verts@.no_duplicates(),
                forall|u: usize| verts@.contains(u) <==> vset.contains(u),
                forall|jj: int| 0 <= jj < deg@.len() ==> deg@[jj] == pending(es, #[trigger] verts@[jj], result@.to_set()),
                queue@.no_duplicates(),
                result@.no_duplicates(),
                forall|x: usize| queue@.contains(x) ==> !result@.contains(x) && verts@.contains(x),
                forall|x: usize| result@.contains(x) ==> verts@.contains(x),
                forall|jj: int| 0 <= jj < verts@.len() ==> (deg@[jj] == 0 <==> (queue@.contains(#[trigger] verts@[jj]) || result@.contains(verts@[jj]))),
                forall|i2: int, kk: int| 0 <= i2 < result@.len() && 0 <= kk < es.len() && (#[trigger] es[kk]).1 == #[trigger] result@[i2] ==> exists|i3: int| 0 <= i3 < i2 && result@[i3] == es[kk].0,
            ensures
                queue@.len() == 0,
                verts@.len() == deg@.len(),
                forall|u: usize| verts@.contains(u) <==> vset.contains(u),
                forall|jj: int| 0 <= jj < deg@.len() ==> deg@[jj] == pending(es, #[trigger] verts@[jj], result@.to_set()),
                result@.no_duplicates(),
                forall|x: usize| result@.contains(x) ==> verts@.contains(x),
                forall|jj: int| 0 <= jj < verts@.len() ==> (deg@[jj] == 0 <==> (queue@.contains(#[trigger] verts@[jj]) || result@.contains(verts@[jj]))),
                forall|i2: int, kk: int| 0 <= i2 < result@.len() && 0 <= kk < es.len() && (#[trigger] es[kk]).1 == #[trigger] result@[i2] ==> exists|i3: int| 0 <= i3 < i2 && result@[i3] == es[kk].0,
            decreases verts@.len() - result@.len(),
        {
            let ghost q0 = queue@;
            let popped = queue.pop_front();
            let node = match popped {
                Some(x) => x,
                None => {
                    break;
                },
            };
            let ghost out0 = result@.to_set();
            let ghost res0 = result@;
            let ghost q1 = queue@;
            proof {
                assert(!res0.contains(node));
                assert(verts@.contains(node));
                let jn = choose|jn: int| 0 <= jn < verts@.len() && verts@[jn] == node;
                assert(deg@[jn] == 0) by {
                    assert(queue@.len() + 1 > 0);
                }
                lemma_pending_zero(es, node, out0);
                vstd::seq_lib::seq_to_set_is_finite(res0);
                res0.unique_seq_to_set();
                vstd::seq_lib::seq_to_set_is_finite(verts@);
                verts@.unique_seq_to_set();
                assert(res0.to_set().subset_of(verts@.to_set()));
                vstd::set_lib::lemma_len_subset(res0.to_set().insert(node), verts@.to_set());
            }
            result.push(node);
            proof {
                assert(result@.to_set() =~= out0.insert(node)) by {
                    res0.lemma_push_to_set_commute(node);
                }
                assert forall|x: usize| result@.contains(x) <==> (res0.contains(x) || x == node) by {
                    vstd::seq_lib::lemma_seq_contains_after_push(res0, node, x);
                }
                assert forall|x: usize| queue@.contains(x) <==> (q0.contains(x) && x != node) by {
                    if queue@.contains(x) {
                        let m = choose|m: int| 0 <= m < queue@.len() && queue@[m] == x;
                        assert(q0[m + 1] == x);
                        assert(q0[0] == node);
                    }
                    if q0.contains(x) && x != node {
                        let m = choose|m: int| 0 <= m < q0.len() && q0[m] == x;
                        assert(m != 0);
                        assert(queue@[m - 1] == x);
                    }
                }
                assert forall|x: usize| queue@.contains(x) implies !result@.contains(x) && verts@.contains(x) by {
                    assert(q0.contains(x));
                    assert(!res0.contains(x));
                    assert(x != node);
                }
                assert forall|a: int, b: int| 0 <= a < queue@.len() && 0 <= b < queue@.len() && a != b implies queue@[a] != queue@[b] by {
                    assert(queue@[a] == q0[a + 1] && queue@[b] == q0[b + 1]);
                }
                assert forall|a: int, b: int| 0 <= a < result@.len() && 0 <= b < result@.len() && a != b implies result@[a] != result@[b] by {
                    if a == res0.len() {
                        assert(res0.contains(result@[b]));
                    } else if b == res0.len() {
                        assert(res0.contains(result@[a]));
                    }
                }
                assert forall|i2: int, kk: int| 0 <= i2 < result@.len() && 0 <= kk < es.len() && (#[trigger] es[kk]).1 == #[trigger] result@[i2] implies exists|i3: int| 0 <= i3 < i2 && result@[i3] == es[kk].0 by {
                    if i2 < res0.len() {
                        assert(result@[i2] == res0[i2]);
                        let i3 = choose|i3: int| 0 <= i3 < i2 && res0[i3] == es[kk].0;
                        assert(result@[i3] == res0[i3]);
                    } else {
                        assert(out0.contains(es[kk].0));
                        let i3 = choose|i3: int| 0 <= i3 < res0.len() && res0[i3] == es[kk].0;
                        assert(result@[i3] == res0[i3]);
                    }
                }
            }
            let mut k: usize = 0;
            while k < self.edges.len()
                invariant
                    es == self.edges@,
                    vset == topo_vertices(self@.0, self@.1),
                    k <= es.len(),
                    verts@.len() == deg@.len(),
                    verts@.no_duplicates(),
                    forall|u: usize| verts@.contains(u) <==> vset.contains(u),
                    !out0.contains(node),
                    result@.to_set() == out0.insert(node),
                    forall|jj: int| 0 <= jj < deg@.len() ==> deg@[jj] + count_edge(es.subrange(0, k as int), node, #[trigger] verts@[jj]) == pending(es, verts@[jj], out0),
                    queue@.no_duplicates(),
                    forall|x: usize| queue@.contains(x) ==> !result@.contains(x) && verts@.contains(x),
                    forall|jj: int| 0 <= jj < verts@.len() ==> (deg@[jj] == 0 <==> (queue@.contains(#[trigger] verts@[jj]) || result@.contains(verts@[jj]))),
                decreases es.len() - k,
            {
                let (from, to) = self.edges[k];
                proof {
                    assert(es.subrange(0, k as int + 1).drop_last() =~= es.subrange(0, k as int));
                    assert(es.subrange(0, k as int + 1).last() == (from, to));
                    assert(es[k as int] == (from, to));
                }
                if from == node {
                    proof {
                        assert(es.to_set().contains((from, to)));
                        assert(self@.1.contains((node, to)));
                        assert(exists|p: usize| self@.1.contains((p, to)));
                        assert(vset.contains(to));
                    }
                    let jt = position_of(&verts, to);
                    let j = match jt {
                        Some(j) => j,
                        None => {
                            proof {
                                assert(verts@.contains(to));
                            }
                            k += 1;
                            continue;
                        },
                    };
                    proof {
                        lemma_pending_finish(es, to, out0, node);
                        lemma_count_edge_prefix(es, node, to, k as int + 1);
                    }
                    let d = deg[j];
                    deg.set(j, d - 1);
                    if d - 1 == 0 {
                        let ghost qb = queue@;
                        queue.push_back(to);
                        proof {
                            assert(!qb.contains(to));
                            assert(!result@.contains(to)) by {
                                if result@.contains(to) {
                                    assert(deg@[j as int] == 0);
                                }
                            }
                            assert forall|x: usize| queue@.contains(x) <==> (qb.contains(x) || x == to) by {
                                vstd::seq_lib::lemma_seq_contains_after_push(qb, to, x);
                            }
                            assert forall|a: int, b: int| 0 <= a < queue@.len() && 0 <= b < queue@.len() && a != b implies queue@[a] != queue@[b] by {
                                if a == qb.len() {
                                    assert(qb.contains(queue@[b]));
                                } else if b == qb.len() {
                                    assert(qb.contains(queue@[a]));
                                }
                            }
                        }
                    }
                    proof {
                        assert forall|jj: int| 0 <= jj < verts@.len() implies (deg@[jj] == 0 <==> (queue@.contains(#[trigger] verts@[jj]) || result@.contains(verts@[jj]))) by {
                            if jj == j {
                                if d - 1 != 0 && queue@.contains(verts@[jj]) {
                                    assert(d == 0);
                                }
                            }
                        }
                    }
                }
                k += 1;
            }
            proof {
                assert(es.subrange(0, k as int) =~= es);
                assert forall|jj: int| 0 <= jj < deg@.len() implies deg@[jj] == pending(es, #[trigger] verts@[jj], result@.to_set()) by {
                    lemma_pending_finish(es, verts@[jj], out0, node);
                }
                vstd::seq_lib::seq_to_set_is_finite(res0);
            }
        }
        proof {
            assert forall|u: usize| #[trigger] vset.contains(u) && !result@.contains(u) implies exists|p: usize| self@.1.contains((p, u)) && !result@.contains(p) by {
                assert(verts@.contains(u));
                let jj = choose|jj: int| 0 <= jj < verts@.len() && verts@[jj] == u;
                assert(deg@[jj] != 0);
                lemma_pending_zero(es, u, result@.to_set());
                let kk = choose|kk: int| 0 <= kk < es.len() && (#[trigger] es[kk]).1 == u && !result@.to_set().contains(es[kk].0);
                assert(es.to_set().contains(es[kk]));
            }
            assert forall|i2: int, p: usize| 0 <= i2 < result@.len() && #[trigger] self@.1.contains((p, result@[i2])) implies exists|i3: int| 0 <= i3 < i2 && result@[i3] == p by {
                let kk = choose|kk: int| 0 <= kk < es.len() && es[kk] == (p, result@[i2]);
                assert(es[kk].1 == result@[i2]);
            }
        }
        result
    }
}

/// `t` comes before `u` in `order`.
pub open spec fn precedes(order: Seq<usize>, t: usize, u: usize) -> bool {
    exists|a: int, b: int| 0 <= a < b < order.len() && order[a] == t && order[b] == u
}

/// `order` is a serial order for the schedule `s`: each of its transactions
/// once, and of every two conflicting operations, the transaction of the
/// earlier one first.
pub open spec fn is_serial_order(s: Seq<OpView>, order: Seq<usize>) -> bool {
    &&& order.no_duplicates()
    &&& order.to_set() == txns_of(s)
    &&& forall|i: int, j: int| 0 <= i < j < s.len() && #[trigger] ops_conflict(s[i], s[j]) ==> precedes(order, s[i].1, s[j].1)
}

/// Going back from `start` along edges that stay in `u`, `len` steps.
spec fn back_chain(e: Set<(usize, usize)>, u: Set<usize>, start: usize, len: nat) -> Seq<usize>
    decreases len,
{
    if len == 0 {
        seq![start]
    } else {
        let c = back_chain(e, u, start, (len - 1) as nat);
        c.push(choose|p: usize| e.contains((p, c.last())) && u.contains(p))
    }
}

proof fn lemma_back_chain(e: Set<(usize, usize)>, u: Set<usize>, start: usize, len: nat)
    requires
        u.contains(start),
        forall|x: usize| u.contains(x) ==> exists|p: usize| e.contains((p, x)) && u.contains(p),
    ensures
        back_chain(e, u, start, len).len() == len + 1,
        back_chain(e, u, start, len)[0] == start,
        forall|k: int| 0 <= k <= len ==> u.contains(#[trigger] back_chain(e, u, start, len)[k]),
        forall|k: int| 0 <= k < len ==> e.contains((#[trigger] back_chain(e, u, start, len)[k + 1], back_chain(e, u, start, len)[k])),
    decreases len,
{
    if len > 0 {
        lemma_back_chain(e, u, start, (len - 1) as nat);
        let c = back_chain(e, u, start, (len - 1) as nat);
        assert(u.contains(c.last()));
        let p = choose|p: usize| e.contains((p, c.last())) && u.contains(p);
        let c2 = back_chain(e, u, start, len);
        assert(c2 == c.push(p));
        assert forall|k: int| 0 <= k <= len implies u.contains(#[trigger] c2[k]) by {
            if k < len {
                assert(c2[k] == c[k]);
            }
        }
        assert forall|k: int| 0 <= k < len implies e.contains((#[trigger] c2[k + 1], c2[k])) by {
            if k < len - 1 {
                assert(c2[k] == c[k] && c2[k + 1] == c[k + 1]);
            }
        }
    }
}

/// When every node of a nonempty part of the graph has a predecessor in that
/// part, the graph has a cycle.
proof fn lemma_stuck_part_has_cycle(n: Set<usize>, e: Set<(usize, usize)>, u: Set<usize>, start: usize)
    requires
        n.finite(),
        u.subset_of(n),
        u.contains(start),
        forall|x: usize| u.contains(x) ==> exists|p: usize| e.contains((p, x)) && u.contains(p),
    ensures
        has_cycle_spec(n, e),
{
    vstd::set_lib::lemma_len_subset(u, n);
    let len = u.len();
    lemma_back_chain(e, u, start, len);
    let c = back_chain(e, u, start, len);
    assert(!c.no_duplicates()) by {
        if c.no_duplicates() {
            c.unique_seq_to_set();
            assert(c.to_set().subset_of(u));
            vstd::set_lib::lemma_len_subset(c.to_set(), u);
        }
    }
    let (a, b) = choose|a: int, b: int| 0 <= a < c.len() && 0 <= b < c.len() && a != b && c[a] == c[b];
    let (lo, hi) = if a < b { (a, b) } else { (b, a) };
    let w = Seq::new((hi - lo + 1) as nat, |m: int| c[hi - m]);
    assert forall|k: int| 0 <= k < w.len() implies n.contains(#[trigger] w[k]) by {
        assert(u.contains(c[hi - k]));
    }
    assert forall|k: int| 0 <= k < w.len() - 1 implies #[trigger] step_at(e, w, k) by {
        assert(e.contains((c[hi - k - 1 + 1], c[hi - k - 1])));
    }
    assert(is_walk(n, e, w));
    assert(w[0] == w.last());
}

/// Along a walk whose every step goes forward in `order`, the end lies after
/// the start.
proof fn lemma_walk_forward(n: Set<usize>, e: Set<(usize, usize)>, order: Seq<usize>, p: Seq<usize>, a0: int)
    requires
        is_walk(n, e, p),
        p.len() >= 2,
        order.no_duplicates(),
        0 <= a0 < order.len(),
        order[a0] == p[0],
        forall|t: usize, v: usize| #[trigger] e.contains((t, v)) ==> precedes(order, t, v),
    ensures
        exists|b: int| a0 < b < order.len() && order[b] == p.last(),
    decreases p.len(),
{
    assert(step_at(e, p, 0));
    let (a, b) = choose|a: int, b: int| 0 <= a < b < order.len() && order[a] == p[0] && order[b] == p[1];
    assert(a == a0);
    if p.len() > 2 {
        let q = p.drop_first();
        assert forall|k: int| 0 <= k < q.len() implies n.contains(#[trigger] q[k]) by {
            assert(q[k] == p[k + 1]);
        }
        assert forall|k: int| 0 <= k < q.len() - 1 implies #[trigger] step_at(e, q, k) by {
            assert(step_at(e, p, k + 1));
            assert(q[k] == p[k + 1] && q[k + 1] == p[k + 2]);
        }
        lemma_walk_forward(n, e, order, q, b);
        assert(q.last() == p.last());
    }
}

/// A schedule that has a serial order is conflict serializable: its
/// precedence graph has no cycle.
pub proof fn lemma_serial_order_acyclic(s: Seq<OpView>, order: Seq<usize>)
    requires
        is_serial_order(s, order),
    ensures
        !has_cycle_spec(txns_of(s), prec_edges(s)),
{
    let n = txns_of(s);
    let e = prec_edges(s);
    assert forall|t: usize, v: usize| #[trigger] e.contains((t, v)) implies precedes(order, t, v) by {
        let (i, j) = choose|i: int, j: int| 0 <= i < j < s.len() && #[trigger] ops_conflict(s[i], s[j]) && (t, v) == (s[i].1, s[j].1);
    }
    if has_cycle_spec(n, e) {
        let p = choose|p: Seq<usize>| #[trigger] is_walk(n, e, p) && p.len() >= 2 && p[0] == p.last();
        assert(n.contains(p[0]));
        assert(order.to_set().contains(p[0]));
        let a0 = choose|a0: int| 0 <= a0 < order.len() && order[a0] == p[0];
        lemma_walk_forward(n, e, order, p, a0);
        let b = choose|b: int| a0 < b < order.len() && order[b] == p.last();
    }
}

impl Schedule {
    /// The schedule of the given operations.
    pub fn new(operations: Vec<Operation>) -> (r: Schedule)
        ensures
            r@ == ops_view(operations@),
    {
        Schedule { operations }
    }

    /// The ids of the transactions that have an operation in the schedule.
    pub fn transactions(&self) -> (r: HashSet<usize>)
        ensures
            r@ == txns_of(self@),
    {
        let mut r: HashSet<usize> = HashSet::new();
        let mut i: usize = 0;
        while i < self.operations.len()
            invariant
                i <= self@.len(),
                forall|t: usize| r@.contains(t) <==> exists|j: int| 0 <= j < i && (#[trigger] self@[j]).1 == t,
            decreases self@.len() - i,
        {
            let t = self.operations[i].txn();
            r.insert(t);
            proof {
                assert(self@[i as int] == self.operations@[i as int]@);
                assert forall|u: usize| r@.contains(u) <==> exists|j: int| 0 <= j < i + 1 && (#[trigger] self@[j]).1 == u by {
                    if exists|j: int| 0 <= j < i + 1 && (#[trigger] self@[j]).1 == u {
                        let j = choose|j: int| 0 <= j < i + 1 && (#[trigger] self@[j]).1 == u;
                        if j < i {
                            assert(self@[j].1 == u);
                        }
                    }
                }
            }
            i += 1;
        }
        proof {
            assert(r@ =~= txns_of(self@));
        }
        r
    }

    /// The precedence graph: a node per transaction, and an edge T → U for
    /// every operation of T that comes before a conflicting one of U.
    pub fn precedence_graph(&self) -> (r: PrecedenceGraph)
        ensures
            r.wf(),
            r@.0 == txns_of(self@),
            r@.1 == prec_edges(self@),
    {
        let ghost s = self@;
        let mut g = PrecedenceGraph::new();
        let mut i: usize = 0;
        while i < self.operations.len()
            invariant
                s == self@,
                i <= s.len(),
                g.wf(),
                forall|t: usize| g@.0.contains(t) <==> exists|j: int| 0 <= j < i && (#[trigger] s[j]).1 == t,
                g@.1 == Set::<(usize, usize)>::empty(),
            decreases s.len() - i,
        {
            let t = self.operations[i].txn();
            g.add_node(t);
            proof {
                assert(s[i as int] == self.operations@[i as int]@);
                assert forall|u: usize| g@.0.contains(u) <==> exists|j: int| 0 <= j < i + 1 && (#[trigger] s[j]).1 == u by {
                    if exists|j: int| 0 <= j < i + 1 && (#[trigger] s[j]).1 == u {
                        let j = choose|j: int| 0 <= j < i + 1 && (#[trigger] s[j]).1 == u;
                        if j < i {
                            assert(s[j].1 == u);
                        }
                    }
                }
            }
            i += 1;
        }
        proof {
            assert(g@.0 =~= txns_of(s));
        }
        let mut i: usize = 0;
        while i < self.operations.len()
            invariant
                s == self@,
                i <= s.len(),
                g.wf(),
                g@.0 == txns_of(s),
                g@.1 == edges_before(s, i as int, i as int + 1),
            decreases s.len() - i,
        {
            let mut j: usize = i + 1;
            proof {
                assert(edges_before(s, i as int, i as int + 1) =~= edges_before(s, i as int, j as int));
            }
            while j < self.operations.len()
                invariant
                    s == self@,
                    i < s.len(),
                    i + 1 <= j <= s.len(),
                    g.wf(),
                    g@.0 == txns_of(s),
                    g@.1 == edges_before(s, i as int, j as int),
                decreases s.len() - j,
            {
                let op1 = &self.operations[i];
                let op2 = &self.operations[j];
                proof {
                    assert(s[i as int] == op1@);
                    assert(s[j as int] == op2@);
                }
                let ghost before = g@.1;
                if conflicts(op1, op2) {
                    let t1 = op1.txn();
                    let t2 = op2.txn();
                    g.add_edge(t1, t2);
                    proof {
                        assert(txns_of(s).contains(t1)) by {
                            assert(s[i as int].1 == t1);
                        }
                        assert(txns_of(s).contains(t2)) by {
                            assert(s[j as int].1 == t2);
                        }
                        assert(g@.0 =~= txns_of(s));
                    }
                }
                proof {
                    assert forall|x: (usize, usize)| #[trigger] edges_before(s, i as int, j as int + 1).contains(x) <==> g@.1.contains(x) by {
                        if edges_before(s, i as int, j as int + 1).contains(x) {
                            let (a, b) = choose|a: int, b: int| 0 <= a < b < s.len() && (a < i || (a == i && b < j + 1)) && #[trigger] ops_conflict(s[a], s[b]) && x == (s[a].1, s[b].1);
                            if !(a == i && b == j) {
                                assert(edges_before(s, i as int, j as int).contains(x));
                            }
                        }
                        if before.contains(x) {
                            let (a, b) = choose|a: int, b: int| 0 <= a < b < s.len() && (a < i || (a == i && b < j)) && #[trigger] ops_conflict(s[a], s[b]) && x == (s[a].1, s[b].1);
                        }
                        if g@.1.contains(x) && !before.contains(x) {
                            assert(ops_conflict(s[i as int], s[j as int]));
                        }
                    }
                    assert(g@.1 =~= edges_before(s, i as int, j as int + 1));
                }
                j += 1;
            }
            proof {
                assert(edges_before(s, i as int, j as int) =~= edges_before(s, i as int + 1, i as int + 2));
            }
            i += 1;
        }
        proof {
            assert(edges_before(s, i as int, i as int + 1) =~= prec_edges(s));
        }
        g
    }

    /// Whether the schedule is conflict serializable, that is, whether its
    /// precedence graph has no cycle.
    pub fn is_conflict_serializable(&self) -> (r: bool)
        ensures
            r == !has_cycle_spec(txns_of(self@), prec_edges(self@)),
    {
        let graph = self.precedence_graph();
        !graph.has_cycle()
    }

    /// A serial order equivalent to the schedule, when it is conflict
    /// serializable: a topological order of its precedence graph.
    pub fn serial_order(&self) -> (r: Option<Vec<usize>>)
        ensures
            r is Some <==> !has_cycle_spec(txns_of(self@), prec_edges(self@)),
            r matches Some(order) ==> is_serial_order(self@, order@),
    {
        let graph = self.precedence_graph();
        if graph.has_cycle() {
            None
        } else {
            let order = graph.topological_sort();
            proof {
                let s = self@;
                let n = txns_of(s);
                let e = prec_edges(s);
                assert forall|x: usize| topo_vertices(n, e).contains(x) implies n.contains(x) by {
                    if !n.contains(x) {
                        let p = choose|p: usize| e.contains((p, x));
                        let (a, b) = choose|a: int, b: int| 0 <= a < b < s.len() && #[trigger] ops_conflict(s[a], s[b]) && (p, x) == (s[a].1, s[b].1);
                        assert(s[b].1 == x);
                    }
                }
                let u = n.difference(order@.to_set());
                assert forall|x: usize| u.contains(x) implies exists|p: usize| e.contains((p, x)) && u.contains(p) by {
                    assert(topo_vertices(n, e).contains(x));
                    assert(!order@.contains(x));
                    let p = choose|p: usize| e.contains((p, x)) && !order@.contains(p);
                    let (a, b) = choose|a: int, b: int| 0 <= a < b < s.len() && #[trigger] ops_conflict(s[a], s[b]) && (p, x) == (s[a].1, s[b].1);
                    assert(s[a].1 == p);
                    assert(n.contains(p));
                    assert(!order@.to_set().contains(p));
                    assert(u.contains(p));
                }
                assert(graph.nodes@.to_set().finite()) by {
                    vstd::seq_lib::seq_to_set_is_finite(graph.nodes@);
                }
                if exists|x: usize| u.contains(x) {
                    let x = choose|x: usize| u.contains(x);
                    lemma_stuck_part_has_cycle(n, e, u, x);
                }
                assert(order@.to_set() =~= n) by {
                    assert forall|x: usize| order@.to_set().contains(x) <==> n.contains(x) by {
                        if order@.to_set().contains(x) {
                            let k = choose|k: int| 0 <= k < order@.len() && order@[k] == x;
                            assert(topo_vertices(n, e).contains(order@[k]));
                        }
                        if n.contains(x) {
                            assert(!u.contains(x));
                        }
                    }
                }
                assert forall|i: int, j: int| 0 <= i < j < s.len() && #[trigger] ops_conflict(s[i], s[j]) implies precedes(order@, s[i].1, s[j].1) by {
                    assert(e.contains((s[i].1, s[j].1)));
                    assert(n.contains(s[j].1));
                    assert(order@.to_set().contains(s[j].1));
                    let b = choose|b: int| 0 <= b < order@.len() && order@[b] == s[j].1;
                    let a = choose|a: int| 0 <= a < b && order@[a] == s[i].1;
                }
            }
            Some(order)
        }
    }

    /// Whether the schedule is view serializable, checked through conflict
    /// serializability, which implies it.
    pub fn is_view_serializable(&self) -> (r: bool)
        ensures
            r == !has_cycle_spec(txns_of(self@), prec_edges(self@)),
    {
        self.is_conflict_serializable()
    }
}

/// The precedence edges from pairs of operations (a, b), a before b, with a
/// before `i`, or a at `i` and b before `j`.
pub open spec fn edges_before(s: Seq<OpView>, i: int, j: int) -> Set<(usize, usize)> {
    Set::new(
        |x: (usize, usize)|
            exists|a: int, b: int|
                0 <= a < b < s.len() && (a < i || (a == i && b < j)) && #[trigger] ops_conflict(s[a], s[b]) && x == (s[a].1, s[b].1),
    )
}

} // verus!
