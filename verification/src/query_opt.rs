//! Query plans: their shape, the relations they read, and selection
//! pushdown; the statistics the optimizer keeps per relation. A
//! floating-point number (a selectivity, a column bound) is held as its
//! IEEE-754 bit pattern.

use vstd::prelude::*;
use crate::relational::names;
use crate::strmap::StrMap;

verus! {

/// Statistics of one column.
#[derive(Debug, Clone)]
pub struct ColumnStats {
    pub distinct_values: usize,
    pub min_val: u64,
    pub max_val: u64,
}

/// Statistics about a relation for cost estimation.
#[derive(Debug, Clone)]
pub struct RelationStats {
    pub name: String,
    pub num_tuples: usize,
    pub num_pages: usize,
    pub column_stats: StrMap<ColumnStats>,
}

/// A query plan node.
#[derive(Debug)]
pub enum PlanNode {
    TableScan { relation: String, stats: RelationStats },
    IndexScan { relation: String, column: String, stats: RelationStats },
    Selection { predicate: String, selectivity: u64, child: Box<PlanNode> },
    Projection { columns: Vec<String>, child: Box<PlanNode> },
    NestedLoopJoin { left: Box<PlanNode>, right: Box<PlanNode>, condition: String },
    HashJoin { left: Box<PlanNode>, right: Box<PlanNode>, left_key: String, right_key: String },
    SortMergeJoin { left: Box<PlanNode>, right: Box<PlanNode>, left_key: String, right_key: String },
}

/// A copy of the plan `p`.
fn clone_plan(p: &PlanNode) -> (r: PlanNode)
    decreases p,
{
    match p {
        PlanNode::TableScan { relation, stats } => PlanNode::TableScan { relation: relation.clone(), stats: stats.clone() },
        PlanNode::IndexScan { relation, column, stats } => PlanNode::IndexScan {
            relation: relation.clone(),
            column: column.clone(),
            stats: stats.clone(),
        },
        PlanNode::Selection { predicate, selectivity, child } => PlanNode::Selection {
            predicate: predicate.clone(),
            selectivity: *selectivity,
            child: Box::new(clone_plan(child)),
        },
        PlanNode::Projection { columns, child } => PlanNode::Projection {
            columns: columns.clone(),
            child: Box::new(clone_plan(child)),
        },
        PlanNode::NestedLoopJoin { left, right, condition } => PlanNode::NestedLoopJoin {
            left: Box::new(clone_plan(left)),
            right: Box::new(clone_plan(right)),
            condition: condition.clone(),
        },
        PlanNode::HashJoin { left, right, left_key, right_key } => PlanNode::HashJoin {
            left: Box::new(clone_plan(left)),
            right: Box::new(clone_plan(right)),
            left_key: left_key.clone(),
            right_key: right_key.clone(),
        },
        PlanNode::SortMergeJoin { left, right, left_key, right_key } => PlanNode::SortMergeJoin {
            left: Box::new(clone_plan(left)),
            right: Box::new(clone_plan(right)),
            left_key: left_key.clone(),
            right_key: right_key.clone(),
        },
    }
}

impl Clone for PlanNode {
    fn clone(&self) -> Self {
        clone_plan(self)
    }
}

/// The relations that the scans of `p` read, left to right.
pub open spec fn plan_relations(p: PlanNode) -> Seq<Seq<char>>
    decreases p,
{
    match p {
        PlanNode::TableScan { relation, .. } => seq![relation@],
        PlanNode::IndexScan { relation, .. } => seq![relation@],
        PlanNode::Selection { child, .. } => plan_relations(*child),
        PlanNode::Projection { child, .. } => plan_relations(*child),
        PlanNode::NestedLoopJoin { left, right, .. } => plan_relations(*left) + plan_relations(*right),
        PlanNode::HashJoin { left, right, .. } => plan_relations(*left) + plan_relations(*right),
        PlanNode::SortMergeJoin { left, right, .. } => plan_relations(*left) + plan_relations(*right),
    }
}

impl PlanNode {
    /// The relations that the plan's scans read, left to right.
    pub fn relations(&self) -> (r: Vec<String>)
        ensures
            names(r@) == plan_relations(*self),
        decreases self,
    {
        match self {
            PlanNode::TableScan { relation, .. } => {
                let r = vec![relation.clone()];
                proof {
                    assert(names(r@) =~= seq![relation@]);
                }
                r
            },
            PlanNode::IndexScan { relation, .. } => {
                let r = vec![relation.clone()];
                proof {
                    assert(names(r@) =~= seq![relation@]);
                }
                r
            },
            PlanNode::Selection { child, .. } => child.relations(),
            PlanNode::Projection { child, .. } => child.relations(),
            PlanNode::NestedLoopJoin { left, right, .. } => concat_names(left.relations(), right.relations()),
            PlanNode::HashJoin { left, right, .. } => concat_names(left.relations(), right.relations()),
            PlanNode::SortMergeJoin { left, right, .. } => concat_names(left.relations(), right.relations()),
        }
    }
}

/// The names of `a`, then those of `b`.
fn concat_names(a: Vec<String>, b: Vec<String>) -> (r: Vec<String>)
    ensures
        names(r@) == names(a@) + names(b@),
{
    let mut r = a;
    let mut rest = b;
    r.append(&mut rest);
    proof {
        assert(names(r@) =~= names(a@) + names(b@));
    }
    r
}

/// The optimizer's catalog: statistics by relation name.
#[derive(Debug, Clone)]
pub struct QueryOptimizer {
    relations: StrMap<RelationStats>,
}

impl View for QueryOptimizer {
    type V = Map<Seq<char>, RelationStats>;

    /// The statistics of each known relation.
    closed spec fn view(&self) -> Map<Seq<char>, RelationStats> {
        self.relations@
    }
}

/// How many of the low `b` bits of `m` are set.
pub open spec fn bits_set(m: usize, b: nat) -> nat
    decreases b,
{
    if b == 0 {
        0
    } else {
        bits_set(m, (b - 1) as nat) + if (m >> ((b - 1) as usize)) & 1 == 1 {
            1nat
        } else {
            0nat
        }
    }
}

/// The number of set bits among the low `n` bits of `m`.
fn count_bits(m: usize, n: usize) -> (r: usize)
    requires
        n < usize::BITS,
    ensures
        r == bits_set(m, n as nat),
{
    let mut c: usize = 0;
    let mut b: usize = 0;
    while b < n
        invariant
            b <= n < usize::BITS,
            c == bits_set(m, b as nat),
            c <= b,
        decreases n - b,
    {
        if (m >> b) & 1 == 1 {
            c += 1;
        }
        b += 1;
    }
    c
}

impl QueryOptimizer {
    /// Every bitmask below `2^n` with exactly `k` of its `n` low bits set,
    /// in increasing order: the subsets of size `k` of `n` relations.
    pub fn subsets_of_size(n: usize, k: usize) -> (r: Vec<usize>)
        requires
            n < usize::BITS,
            1 <= k < usize::BITS,
        ensures
            forall|i: int, j: int| 0 <= i < j < r@.len() ==> r@[i] < r@[j],
            forall|m: usize| #[trigger] r@.contains(m) <==> (m < (1usize << n) && bits_set(m, n as nat) == k),
    {
        let full: usize = 1usize << n;
        let mut result: Vec<usize> = Vec::new();
        let mut mask: usize = 0;
        while mask < full
            invariant
                n < usize::BITS,
                full == (1usize << n),
                mask <= full,
                forall|i: int, j: int| 0 <= i < j < result@.len() ==> result@[i] < result@[j],
                forall|i: int| 0 <= i < result@.len() ==> result@[i] < mask,
                forall|m: usize| #[trigger] result@.contains(m) <==> (m < mask && bits_set(m, n as nat) == k),
            decreases full - mask,
        {
            let c = count_bits(mask, n);
            let ghost before = result@;
            if c == k {
                result.push(mask);
                proof {
                    assert forall|m: usize| #[trigger] result@.contains(m) <==> (m < mask + 1 && bits_set(m, n as nat) == k) by {
                        if result@.contains(m) && m != mask {
                            let i = choose|i: int| 0 <= i < result@.len() && result@[i] == m;
                            assert(i < before.len());
                            assert(before[i] == m);
                            assert(before.contains(m));
                        }
                        if m < mask && bits_set(m, n as nat) == k {
                            assert(before.contains(m));
                            let i = choose|i: int| 0 <= i < before.len() && before[i] == m;
                            assert(result@[i] == m);
                        }
                        if m == mask && bits_set(m, n as nat) == k {
                            assert(result@[before.len() as int] == m);
                        }
                    }
                }
            } else {
                proof {
                    assert(result@ == before);
                    assert forall|m: usize| #[trigger] result@.contains(m) <==> (m < mask + 1 && bits_set(m, n as nat) == k) by {
                        assert(before.contains(m) <==> (m < mask && bits_set(m, n as nat) == k));
                        if m == mask {
                            assert(bits_set(m, n as nat) != k);
                        }
                    }
                }
            }
            mask += 1;
        }
        result
    }

    /// The catalog is well formed.
    pub closed spec fn wf(&self) -> bool {
        self.relations.wf()
    }

    /// An optimizer that knows no relation.
    pub fn new() -> (r: Self)
        ensures
            r.wf(),
            r@ == Map::<Seq<char>, RelationStats>::empty(),
    {
        QueryOptimizer { relations: StrMap::new() }
    }

    /// Records `stats` under its relation's name, replacing earlier ones.
    pub fn add_relation(&mut self, stats: RelationStats)
        requires
            old(self).wf(),
        ensures
            final(self).wf(),
            final(self)@ == old(self)@.insert(stats.name@, stats),
    {
        let name = stats.name.clone();
        self.relations.insert(name, stats);
    }

    /// The statistics recorded for the relation `name`, if any.
    pub fn stats(&self, name: &str) -> (r: Option<&RelationStats>)
        requires
            self.wf(),
        ensures
            match r {
                Some(s) => self@.contains_key(name@) && *s == self@[name@],
                None => !self@.contains_key(name@),
            },
    {
        self.relations.get(name)
    }

    /// Selection pushdown: rebuilds the plan bottom-up through selections,
    /// nested-loop joins and projections. A selection stays above its
    /// (rebuilt) input whether that input reads one relation or several, so
    /// the plan comes back as it was.
    pub fn push_selections(&self, plan: PlanNode) -> (r: PlanNode)
        ensures
            r == plan,
        decreases plan,
    {
        match plan {
            PlanNode::Selection { predicate, selectivity, child } => {
                let pushed_child = self.push_selections(*child);
                let rels = pushed_child.relations();
                if rels.len() == 1 {
                    PlanNode::Selection { predicate, selectivity, child: Box::new(pushed_child) }
                } else {
                    PlanNode::Selection { predicate, selectivity, child: Box::new(pushed_child) }
                }
            },
            PlanNode::NestedLoopJoin { left, right, condition } => {
                PlanNode::NestedLoopJoin {
                    left: Box::new(self.push_selections(*left)),
                    right: Box::new(self.push_selections(*right)),
                    condition,
                }
            },
            PlanNode::Projection { columns, child } => {
                PlanNode::Projection { columns, child: Box::new(self.push_selections(*child)) }
            },
            other => other,
        }
    }
}

} // verus!
