use lau_database_theory::attrset::AttrSet;
use lau_database_theory::normal_forms::{
    candidate_keys, closure, compute_minimal_cover, decompose_3nf, decompose_bcnf, is_1nf, is_2nf,
    is_3nf, is_bcnf, FD,
};

fn make_set(attrs: &[&str]) -> AttrSet {
    AttrSet::from_strs(attrs)
}

#[test]
fn test_closure_basic() {
    let fds = vec![FD::new(vec!["A"], vec!["B"]), FD::new(vec!["B"], vec!["C"])];
    let cl = closure(&make_set(&["A"]), &fds);
    assert_eq!(cl, make_set(&["A", "B", "C"]));
}

#[test]
fn test_closure_chain() {
    let fds = vec![
        FD::new(vec!["A"], vec!["B"]),
        FD::new(vec!["B"], vec!["C"]),
        FD::new(vec!["C"], vec!["D"]),
    ];
    let cl = closure(&make_set(&["A"]), &fds);
    assert_eq!(cl, make_set(&["A", "B", "C", "D"]));
}

#[test]
fn test_closure_no_change() {
    let fds = vec![FD::new(vec!["A"], vec!["B"])];
    let cl = closure(&make_set(&["C"]), &fds);
    assert_eq!(cl, make_set(&["C"]));
}

#[test]
fn test_fd_trivial() {
    let fd = FD::new(vec!["A", "B"], vec!["A"]);
    assert!(fd.is_trivial());
    let fd2 = FD::new(vec!["A"], vec!["B"]);
    assert!(!fd2.is_trivial());
}

#[test]
fn test_candidate_keys() {
    let fds = vec![FD::new(vec!["A"], vec!["B"]), FD::new(vec!["B"], vec!["C"])];
    let all = make_set(&["A", "B", "C"]);
    let keys = candidate_keys(&fds, &all);
    assert_eq!(keys.len(), 1);
    assert_eq!(keys[0], make_set(&["A"]));
}

#[test]
fn test_candidate_keys_composite() {
    let fds = vec![FD::new(vec!["A", "B"], vec!["C"])];
    let all = make_set(&["A", "B", "C"]);
    let keys = candidate_keys(&fds, &all);
    assert_eq!(keys.len(), 1);
    assert_eq!(keys[0], make_set(&["A", "B"]));
}

#[test]
fn test_is_1nf() {
    assert!(is_1nf(&["A".into(), "B".into()]));
    assert!(!is_1nf(&[]));
}

#[test]
fn test_is_2nf_violation() {
    let fds = vec![FD::new(vec!["A", "B"], vec!["C"]), FD::new(vec!["A"], vec!["C"])];
    let all = make_set(&["A", "B", "C"]);
    assert!(!is_2nf(&fds, &all));
}

#[test]
fn test_is_2nf_ok() {
    let fds = vec![FD::new(vec!["A"], vec!["B"]), FD::new(vec!["A"], vec!["C"])];
    let all = make_set(&["A", "B", "C"]);
    assert!(is_2nf(&fds, &all));
}

#[test]
fn test_is_3nf_transitive() {
    let fds = vec![FD::new(vec!["A"], vec!["B"]), FD::new(vec!["B"], vec!["C"])];
    let all = make_set(&["A", "B", "C"]);
    assert!(!is_3nf(&fds, &all));
}

#[test]
fn test_is_3nf_ok() {
    let fds = vec![FD::new(vec!["A"], vec!["B"])];
    let all = make_set(&["A", "B"]);
    assert!(is_3nf(&fds, &all));
}

#[test]
fn test_is_bcnf_yes() {
    let fds = vec![FD::new(vec!["A"], vec!["B"])];
    let all = make_set(&["A", "B"]);
    assert!(is_bcnf(&fds, &all));
}

#[test]
fn test_is_bcnf_no() {
    let fds = vec![FD::new(vec!["A"], vec!["B"]), FD::new(vec!["B"], vec!["C"])];
    let all = make_set(&["A", "B", "C"]);
    assert!(!is_bcnf(&fds, &all));
}

#[test]
fn test_decompose_bcnf() {
    let fds = vec![FD::new(vec!["A"], vec!["B"]), FD::new(vec!["B"], vec!["C"])];
    let all = make_set(&["A", "B", "C"]);
    let result = decompose_bcnf(&all, &fds);
    assert!(result.len() >= 2);
    for (attrs, rel_fds) in &result {
        assert!(is_bcnf(rel_fds, attrs));
    }
}

#[test]
fn test_decompose_3nf() {
    let fds = vec![FD::new(vec!["A"], vec!["B"]), FD::new(vec!["B"], vec!["C"])];
    let all = make_set(&["A", "B", "C"]);
    let result = decompose_3nf(&all, &fds);
    assert!(!result.is_empty());
    let keys = candidate_keys(&fds, &all);
    assert!(result.iter().any(|r| keys.iter().any(|k| k.is_subset(r))));
}

#[test]
fn test_minimal_cover() {
    let fds = vec![
        FD::new(vec!["A"], vec!["B"]),
        FD::new(vec!["A"], vec!["C"]),
        FD::new(vec!["B"], vec!["C"]),
    ];
    let mc = compute_minimal_cover(&fds);
    assert!(mc.len() <= 2);
}

#[test]
fn closure_is_idempotent_and_extensive() {
    let fds = vec![
        FD::new(vec!["A"], vec!["B"]),
        FD::new(vec!["B", "C"], vec!["D"]),
        FD::new(vec!["D"], vec!["E"]),
    ];
    let start = make_set(&["A", "C"]);
    let once = closure(&start, &fds);
    assert!(start.is_subset(&once));
    assert_eq!(once, make_set(&["A", "B", "C", "D", "E"]));
    let twice = closure(&once, &fds);
    assert_eq!(twice, once);
}

#[test]
fn bcnf_implies_3nf_on_examples() {
    let cases: Vec<(Vec<FD>, AttrSet)> = vec![
        (vec![FD::new(vec!["A"], vec!["B"])], make_set(&["A", "B"])),
        (vec![FD::new(vec!["A", "B"], vec!["C"]), FD::new(vec!["C"], vec!["A"])], make_set(&["A", "B", "C"])),
        (vec![FD::new(vec!["A"], vec!["B"]), FD::new(vec!["B"], vec!["C"])], make_set(&["A", "B", "C"])),
    ];
    for (fds, all) in &cases {
        if is_bcnf(fds, all) {
            assert!(is_3nf(fds, all));
        }
    }
    let (fds, all) = &cases[1];
    assert!(is_3nf(fds, all));
    assert!(!is_bcnf(fds, all));
}

#[test]
fn minimal_cover_has_single_attribute_right_sides_and_same_closures() {
    let fds = vec![
        FD::new(vec!["A"], vec!["B", "C"]),
        FD::new(vec!["A", "B"], vec!["C"]),
        FD::new(vec!["B"], vec!["C"]),
    ];
    let mc = compute_minimal_cover(&fds);
    for fd in &mc {
        assert_eq!(fd.rhs.len(), 1);
    }
    for start in [make_set(&["A"]), make_set(&["B"]), make_set(&["C"]), make_set(&["A", "B"])] {
        assert_eq!(closure(&start, &mc), closure(&start, &fds));
    }
}

#[test]
fn candidate_keys_with_two_keys() {
    let fds = vec![FD::new(vec!["A"], vec!["B"]), FD::new(vec!["B"], vec!["A"])];
    let all = make_set(&["A", "B", "C"]);
    let keys = candidate_keys(&fds, &all);
    assert_eq!(keys.len(), 2);
    assert!(keys.contains(&make_set(&["A", "C"])));
    assert!(keys.contains(&make_set(&["B", "C"])));
}

#[test]
fn bcnf_splits_on_the_first_violation_into_lhs_rhs_and_the_rest() {
    let fds = vec![FD::new(vec!["A"], vec!["B"]), FD::new(vec!["B"], vec!["C"])];
    let all = make_set(&["A", "B", "C"]);
    let result = decompose_bcnf(&all, &fds);
    assert_eq!(result.len(), 2);
    assert!(result.iter().any(|(a, _)| *a == make_set(&["A", "B"])));
    assert!(result.iter().any(|(a, _)| *a == make_set(&["B", "C"])));
    for (attrs, _) in &result {
        assert!(attrs.is_subset(&all));
    }
}

#[test]
fn decompose_3nf_keeps_every_cover_dependency_in_a_component() {
    let fds = vec![FD::new(vec!["A"], vec!["B"]), FD::new(vec!["B"], vec!["C"])];
    let all = make_set(&["A", "B", "C"]);
    let result = decompose_3nf(&all, &fds);
    for fd in compute_minimal_cover(&fds) {
        let both = fd.lhs.union(&fd.rhs);
        assert!(result.iter().any(|r| both.is_subset(r)));
    }
}

#[test]
fn fd_text_sorts_each_side() {
    let fd = FD::new(vec!["C", "A"], vec!["D", "B"]);
    assert_eq!(fd.text(), "{A, C} → {B, D}");
    let single = FD::new(vec!["x"], vec!["y"]);
    assert_eq!(single.text(), "{x} → {y}");
}
