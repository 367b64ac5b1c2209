use lau_database_theory::query_opt::{PlanNode, QueryOptimizer, RelationStats};
use lau_database_theory::strmap::StrMap;

fn make_stats(name: &str, tuples: usize, pages: usize) -> RelationStats {
    RelationStats { name: name.into(), num_tuples: tuples, num_pages: pages, column_stats: StrMap::new() }
}

#[test]
fn test_selection_pushdown() {
    let stats = make_stats("emp", 1000, 50);
    let plan = PlanNode::Selection {
        predicate: "emp.dept = 'Eng'".into(),
        selectivity: 0.3f64.to_bits(),
        child: Box::new(PlanNode::TableScan { relation: "emp".into(), stats: stats.clone() }),
    };

    let opt = QueryOptimizer::new();
    let pushed = opt.push_selections(plan);
    if let PlanNode::Selection { child, .. } = &pushed {
        assert!(matches!(**child, PlanNode::TableScan { .. }));
    } else {
        panic!("Expected selection node");
    }
}

fn scan(name: &str) -> Box<PlanNode> {
    Box::new(PlanNode::TableScan { relation: name.into(), stats: make_stats(name, 10, 1) })
}

#[test]
fn plan_relations_left_to_right() {
    let plan = PlanNode::Projection {
        columns: vec!["x".into()],
        child: Box::new(PlanNode::HashJoin {
            left: Box::new(PlanNode::NestedLoopJoin { left: scan("a"), right: scan("b"), condition: "a.id = b.id".into() }),
            right: Box::new(PlanNode::IndexScan { relation: "c".into(), column: "id".into(), stats: make_stats("c", 5, 1) }),
            left_key: "id".into(),
            right_key: "id".into(),
        }),
    };
    assert_eq!(plan.relations(), vec!["a", "b", "c"]);
}

#[test]
fn pushdown_through_joins_keeps_the_plan() {
    let opt = QueryOptimizer::new();
    let plan = PlanNode::Selection {
        predicate: "a.x > 1".into(),
        selectivity: 0.5f64.to_bits(),
        child: Box::new(PlanNode::NestedLoopJoin {
            left: Box::new(PlanNode::Selection { predicate: "a.y = 2".into(), selectivity: 0.1f64.to_bits(), child: scan("a") }),
            right: scan("b"),
            condition: "a.id = b.id".into(),
        }),
    };
    let pushed = opt.push_selections(plan);
    match &pushed {
        PlanNode::Selection { predicate, selectivity, child } => {
            assert_eq!(predicate, "a.x > 1");
            assert_eq!(f64::from_bits(*selectivity), 0.5);
            assert_eq!(child.relations(), vec!["a", "b"]);
            assert!(matches!(**child, PlanNode::NestedLoopJoin { .. }));
        }
        _ => panic!("Expected selection node"),
    }
}

#[test]
fn catalog_keeps_the_latest_stats_per_name() {
    let mut opt = QueryOptimizer::new();
    assert!(opt.stats("r").is_none());
    opt.add_relation(make_stats("r", 1000, 50));
    opt.add_relation(make_stats("s", 100, 5));
    opt.add_relation(make_stats("r", 7, 1));
    assert_eq!(opt.stats("r").unwrap().num_tuples, 7);
    assert_eq!(opt.stats("s").unwrap().num_pages, 5);
    assert!(opt.stats("t").is_none());
}

#[test]
fn subsets_of_size_lists_masks_in_increasing_order() {
    assert_eq!(QueryOptimizer::subsets_of_size(4, 2), vec![3, 5, 6, 9, 10, 12]);
    assert_eq!(QueryOptimizer::subsets_of_size(3, 3), vec![7]);
    assert_eq!(QueryOptimizer::subsets_of_size(2, 3), Vec::<usize>::new());
}

#[test]
fn plans_clone_into_equal_relation_lists() {
    let plan = PlanNode::Selection {
        predicate: "a > 1".into(),
        selectivity: 1,
        child: Box::new(PlanNode::TableScan { relation: "R".into(), stats: make_stats("R", 10, 2) }),
    };
    let copy = plan.clone();
    assert_eq!(copy.relations(), plan.relations());
}
