use lau_database_theory::attrset::AttrSet;
use lau_database_theory::strmap::StrMap;

#[test]
fn attrset_is_a_set_of_names() {
    let mut s = AttrSet::new();
    assert!(s.is_empty());
    assert!(s.insert("A".to_string()));
    assert!(!s.insert("A".to_string()));
    assert!(s.insert("B".to_string()));
    assert_eq!(s.len(), 2);
    assert!(s.contains("A"));
    assert!(!s.contains("C"));
    assert_eq!(s.to_vec(), vec!["A".to_string(), "B".to_string()]);
    assert!(s.remove("A"));
    assert!(!s.remove("A"));
    assert_eq!(s.len(), 1);
    assert_eq!(s.get(0), "B");
}

#[test]
fn attrset_algebra() {
    let a = AttrSet::from_strs(&["A", "B", "C", "A"]);
    let b = AttrSet::from_strs(&["B", "D"]);
    assert_eq!(a.len(), 3);
    assert_eq!(a.union(&b), AttrSet::from_strs(&["A", "B", "C", "D"]));
    assert_eq!(a.difference(&b), AttrSet::from_strs(&["C", "A"]));
    assert!(AttrSet::from_strs(&["B"]).is_subset(&a));
    assert!(!b.is_subset(&a));
    let mut c = a.duplicate();
    c.extend(&b);
    assert!(c.same_as(&a.union(&b)));
    assert!(a != b);
}

#[test]
fn strmap_insert_get_remove() {
    let mut m: StrMap<u32> = StrMap::new();
    m.insert("x".to_string(), 1);
    m.insert("y".to_string(), 2);
    m.insert("x".to_string(), 3);
    assert_eq!(m.len(), 2);
    assert_eq!(m.get("x"), Some(&3));
    assert_eq!(m.get("z"), None);
    assert_eq!(m.index_of("y"), Some(1));
    assert_eq!(m.remove("x"), Some(3));
    assert_eq!(m.remove("x"), None);
    assert_eq!(m.len(), 1);
    let (k, v) = m.pair_at(0);
    assert_eq!((k.as_str(), *v), ("y", 2));
}
