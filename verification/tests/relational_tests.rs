use lau_database_theory::relational::{Relation, Tuple, Value};
use lau_database_theory::strmap::StrMap;

fn make_emp() -> Relation {
    Relation::with_tuples(
        vec!["id".into(), "name".into(), "dept".into()],
        vec![
            Tuple::new(vec![Value::Int(1), Value::Text("Alice".into()), Value::Text("Eng".into())]),
            Tuple::new(vec![Value::Int(2), Value::Text("Bob".into()), Value::Text("Sales".into())]),
            Tuple::new(vec![Value::Int(3), Value::Text("Carol".into()), Value::Text("Eng".into())]),
        ],
    )
}

fn make_dept() -> Relation {
    Relation::with_tuples(
        vec!["dept".into(), "budget".into()],
        vec![
            Tuple::new(vec![Value::Text("Eng".into()), Value::Int(500)]),
            Tuple::new(vec![Value::Text("Sales".into()), Value::Int(300)]),
        ],
    )
}

fn ints(r: &Relation, col: usize) -> Vec<i64> {
    r.tuples.iter().map(|t| t.get(col).unwrap().as_int().unwrap()).collect()
}

#[test]
fn test_select() {
    let emp = make_emp();
    let eng = emp.select(|t, schema| {
        let idx = schema.iter().position(|s| s == "dept").unwrap();
        t.values[idx] == Value::Text("Eng".into())
    });
    assert_eq!(eng.cardinality(), 2);
    assert_eq!(eng.tuples[0].get(1).unwrap().as_str(), Some("Alice"));
    assert_eq!(eng.tuples[1].get(1).unwrap().as_str(), Some("Carol"));
}

#[test]
fn test_project() {
    let emp = make_emp();
    let names = emp.project(&["name"]);
    assert_eq!(names.cardinality(), 3);
    assert_eq!(names.schema, vec!["name"]);
}

#[test]
fn test_project_dedup() {
    let emp = make_emp();
    let depts = emp.project(&["dept"]);
    assert_eq!(depts.cardinality(), 2);
}

#[test]
fn test_natural_join() {
    let emp = make_emp();
    let dept = make_dept();
    let joined = emp.join(&dept);
    assert_eq!(joined.arity(), 4);
    assert_eq!(joined.cardinality(), 3);
    let alice = &joined.tuples[0];
    assert_eq!(alice.get(3).unwrap(), &Value::Int(500));
}

#[test]
fn test_theta_join() {
    let emp = make_emp();
    let dept = make_dept();
    let result = emp.theta_join(&dept, |t1, t2| {
        t1.values[2] == t2.values[0] && t2.values[1] == Value::Int(500)
    });
    assert_eq!(result.cardinality(), 2);
}

#[test]
fn test_union() {
    let r1 = Relation::with_tuples(
        vec!["a".into()],
        vec![Tuple::new(vec![Value::Int(1)]), Tuple::new(vec![Value::Int(2)])],
    );
    let r2 = Relation::with_tuples(
        vec!["a".into()],
        vec![Tuple::new(vec![Value::Int(2)]), Tuple::new(vec![Value::Int(3)])],
    );
    let u = r1.union(&r2);
    assert_eq!(u.cardinality(), 3);
}

#[test]
fn test_difference() {
    let r1 = Relation::with_tuples(
        vec!["a".into()],
        vec![Tuple::new(vec![Value::Int(1)]), Tuple::new(vec![Value::Int(2)])],
    );
    let r2 = Relation::with_tuples(
        vec!["a".into()],
        vec![Tuple::new(vec![Value::Int(2)]), Tuple::new(vec![Value::Int(3)])],
    );
    let d = r1.difference(&r2);
    assert_eq!(d.cardinality(), 1);
    assert_eq!(d.tuples[0].get(0).unwrap(), &Value::Int(1));
}

#[test]
fn test_rename() {
    let emp = make_emp();
    let mut renames = StrMap::new();
    renames.insert("name".into(), "employee_name".into());
    let renamed = emp.rename(&renames);
    assert_eq!(renamed.schema, vec!["id", "employee_name", "dept"]);
    assert_eq!(renamed.cardinality(), 3);
}

#[test]
fn test_intersection() {
    let r1 = Relation::with_tuples(
        vec!["a".into()],
        vec![Tuple::new(vec![Value::Int(1)]), Tuple::new(vec![Value::Int(2)])],
    );
    let r2 = Relation::with_tuples(
        vec!["a".into()],
        vec![Tuple::new(vec![Value::Int(2)]), Tuple::new(vec![Value::Int(3)])],
    );
    let i = r1.intersection(&r2);
    assert_eq!(i.cardinality(), 1);
    assert_eq!(i.tuples[0].get(0).unwrap(), &Value::Int(2));
}

#[test]
fn test_cross_product() {
    let r1 = Relation::with_tuples(vec!["x".into()], vec![Tuple::new(vec![Value::Int(1)])]);
    let r2 = Relation::with_tuples(
        vec!["y".into()],
        vec![Tuple::new(vec![Value::Int(10)]), Tuple::new(vec![Value::Int(20)])],
    );
    let cp = r1.cross_product(&r2);
    assert_eq!(cp.cardinality(), 2);
    assert_eq!(cp.arity(), 2);
}

#[test]
fn join_without_shared_attributes_is_the_cross_product() {
    let r1 = Relation::with_tuples(vec!["x".into()], vec![Tuple::new(vec![Value::Int(1)]), Tuple::new(vec![Value::Int(2)])]);
    let r2 = Relation::with_tuples(vec!["y".into()], vec![Tuple::new(vec![Value::Int(10)])]);
    let j = r1.join(&r2);
    assert_eq!(j.schema, vec!["x", "y"]);
    assert_eq!(j.cardinality(), 2);
    assert_eq!(ints(&j, 0), vec![1, 2]);
    assert_eq!(ints(&j, 1), vec![10, 10]);
}

#[test]
fn natural_join_keeps_pairs_in_nested_order() {
    let emp = make_emp();
    let dept = make_dept();
    let joined = emp.join(&dept);
    assert_eq!(joined.schema, vec!["id", "name", "dept", "budget"]);
    assert_eq!(ints(&joined, 0), vec![1, 2, 3]);
    assert_eq!(ints(&joined, 3), vec![500, 300, 500]);
}

#[test]
fn union_keeps_left_rows_and_adds_unseen_right_rows() {
    let r1 = Relation::with_tuples(
        vec!["a".into(), "b".into()],
        vec![
            Tuple::new(vec![Value::Int(1), Value::Null]),
            Tuple::new(vec![Value::Int(1), Value::Null]),
        ],
    );
    let r2 = Relation::with_tuples(
        vec!["a".into(), "b".into()],
        vec![Tuple::new(vec![Value::Int(2), Value::Bool(true)])],
    );
    let u = r1.union(&r2);
    assert_eq!(u.cardinality(), 3);
    assert_eq!(ints(&u, 0), vec![1, 1, 2]);
    let again = u.union(&r2);
    assert_eq!(again.cardinality(), 3);
    assert_eq!(u.column_index("b"), Some(1));
    assert_eq!(u.column_index("c"), None);
}

#[test]
fn float_values_compare_as_numbers() {
    let nan = f64::NAN.to_bits();
    assert!(Value::Float(nan) != Value::Float(nan));
    assert!(Value::Float(0.0f64.to_bits()) == Value::Float((-0.0f64).to_bits()));
    assert!(Value::Float(1.5f64.to_bits()) == Value::Float(1.5f64.to_bits()));
    assert!(Value::Int(1) != Value::Float(1.0f64.to_bits()));
    assert_eq!(Value::Int(7).as_int(), Some(7));
    assert_eq!(Value::Bool(true).as_int(), None);
    assert_eq!(Value::Text("x".into()).as_str(), Some("x"));
    assert_eq!(Value::Null.as_str(), None);
    let t = Tuple::new(vec![Value::Int(1)]);
    assert!(t.get(1).is_none());
}

#[test]
fn arity_and_empty_relation() {
    let r = Relation::new(vec!["a".into(), "b".into(), "c".into()]);
    assert_eq!(r.arity(), 3);
    assert_eq!(r.cardinality(), 0);
    let p = r.project(&["c", "a"]);
    assert_eq!(p.schema, vec!["c", "a"]);
    assert_eq!(p.cardinality(), 0);
}

#[test]
fn difference_and_intersection_split_the_left_relation() {
    let r1 = Relation::with_tuples(
        vec!["a".into()],
        vec![
            Tuple::new(vec![Value::Int(1)]),
            Tuple::new(vec![Value::Int(2)]),
            Tuple::new(vec![Value::Int(2)]),
            Tuple::new(vec![Value::Int(4)]),
        ],
    );
    let r2 = Relation::with_tuples(
        vec!["a".into()],
        vec![Tuple::new(vec![Value::Int(2)]), Tuple::new(vec![Value::Int(3)])],
    );
    let d = r1.difference(&r2);
    let i = r1.intersection(&r2);
    assert_eq!(d.cardinality() + i.cardinality(), r1.cardinality());
    assert_eq!(ints(&d, 0), vec![1, 4]);
    assert_eq!(ints(&i, 0), vec![2, 2]);
    let again = r1.difference(&r1.difference(&r2));
    assert_eq!(ints(&again, 0), ints(&i, 0));
}
