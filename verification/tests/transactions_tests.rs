use lau_database_theory::transactions::{conflicts, Operation, PrecedenceGraph, Schedule, Transaction};

#[test]
fn test_conflict_serializable_yes() {
    let schedule = Schedule::new(vec![
        Operation::read(1, "A"),
        Operation::read(2, "B"),
        Operation::write(1, "A"),
        Operation::write(2, "B"),
    ]);
    assert!(schedule.is_conflict_serializable());
}

#[test]
fn test_conflict_serializable_no() {
    let schedule = Schedule::new(vec![
        Operation::write(1, "A"),
        Operation::write(2, "A"),
        Operation::write(2, "B"),
        Operation::write(1, "B"),
    ]);
    assert!(!schedule.is_conflict_serializable());
}

#[test]
fn test_precedence_graph_acyclic() {
    let schedule = Schedule::new(vec![
        Operation::read(1, "A"),
        Operation::write(1, "A"),
        Operation::read(2, "A"),
    ]);
    let graph = schedule.precedence_graph();
    assert!(!graph.has_cycle());
    assert!(graph.edges.contains(&(1, 2)));
}

#[test]
fn test_precedence_graph_cyclic() {
    let schedule = Schedule::new(vec![
        Operation::write(1, "A"),
        Operation::write(2, "B"),
        Operation::read(2, "A"),
        Operation::read(1, "B"),
    ]);
    let graph = schedule.precedence_graph();
    assert!(graph.has_cycle());
}

#[test]
fn test_serial_order() {
    let schedule = Schedule::new(vec![
        Operation::write(1, "A"),
        Operation::write(1, "B"),
        Operation::read(2, "A"),
        Operation::read(2, "B"),
    ]);
    let order = schedule.serial_order();
    assert!(order.is_some());
    let order = order.unwrap();
    assert_eq!(order, vec![1, 2]);
}

#[test]
fn test_topological_sort() {
    let mut graph = PrecedenceGraph::new();
    graph.add_edge(1, 2);
    graph.add_edge(1, 3);
    graph.add_edge(2, 4);
    graph.add_edge(3, 4);
    let order = graph.topological_sort();
    assert_eq!(order[0], 1);
    assert_eq!(order[order.len() - 1], 4);
}

#[test]
fn test_operation_conflicts() {
    let r1a = Operation::read(1, "A");
    let r2a = Operation::read(2, "A");
    let w1a = Operation::write(1, "A");
    let w2a = Operation::write(2, "A");
    let r1b = Operation::read(1, "B");

    assert!(!conflicts(&r1a, &r2a));
    assert!(conflicts(&r1a, &w2a));
    assert!(conflicts(&w1a, &w2a));
    assert!(!conflicts(&r1a, &r1b));
    assert!(!conflicts(&r1a, &w1a));
}

#[test]
fn test_transaction_builder() {
    let mut t = Transaction::new(1);
    t.read("A");
    t.write("A");
    assert_eq!(t.operations.len(), 2);
    assert_eq!(t.id, 1);
}

#[test]
fn serial_order_absent_exactly_for_cyclic_schedules() {
    let cyclic = Schedule::new(vec![
        Operation::read(1, "X"),
        Operation::write(2, "X"),
        Operation::write(1, "X"),
    ]);
    assert!(cyclic.precedence_graph().has_cycle());
    assert_eq!(cyclic.serial_order(), None);
    assert!(!cyclic.is_conflict_serializable());
    assert!(!cyclic.is_view_serializable());
}

#[test]
fn serial_order_respects_every_edge() {
    let schedule = Schedule::new(vec![
        Operation::write(3, "A"),
        Operation::read(1, "A"),
        Operation::write(1, "B"),
        Operation::read(2, "B"),
        Operation::read(4, "C"),
    ]);
    let graph = schedule.precedence_graph();
    let order = schedule.serial_order().unwrap();
    assert_eq!(order.len(), 4);
    let pos = |t: usize| order.iter().position(|&x| x == t).unwrap();
    for &(a, b) in &graph.edges {
        assert!(pos(a) < pos(b));
    }
    assert_eq!(schedule.transactions().len(), 4);
    assert!(schedule.is_view_serializable());
}

#[test]
fn graph_nodes_edges_and_successors() {
    let mut graph = PrecedenceGraph::new();
    graph.add_node(5);
    graph.add_edge(1, 2);
    graph.add_edge(1, 2);
    graph.add_edge(1, 3);
    assert_eq!(graph.edges.len(), 2);
    assert_eq!(graph.nodes.len(), 4);
    let mut succ = graph.successors(1);
    succ.sort();
    assert_eq!(succ, vec![2, 3]);
    assert!(graph.successors(5).is_empty());
    let w = Operation::write(4, "Q");
    assert_eq!(w.txn(), 4);
    assert_eq!(w.item(), "Q");
    assert!(w.is_write());
    assert!(!w.is_read());
}
