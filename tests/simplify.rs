use circom_core::export::Constraint;
use circom_core::simplify::{constraint_is_trivial, remove_trivial_constraints};

fn lc(entries: &[(usize, &str)]) -> Vec<(usize, String)> {
    entries.iter().map(|(i, c)| (*i, c.to_string())).collect()
}

#[test]
fn trivial_constraints_are_dropped_in_order() {
    let keep1 = Constraint { a: lc(&[(1, "1")]), b: lc(&[(2, "1")]), c: lc(&[(3, "1")]) };
    let zero_a = Constraint { a: lc(&[]), b: lc(&[(2, "1")]), c: lc(&[]) };
    let zero_b = Constraint { a: lc(&[(1, "4")]), b: lc(&[]), c: lc(&[]) };
    let linear = Constraint { a: lc(&[]), b: lc(&[]), c: lc(&[(1, "1"), (4, "5")]) };
    let out = remove_trivial_constraints(vec![zero_a, keep1, zero_b, linear]);
    assert_eq!(out.len(), 2);
    assert_eq!(out[0].a, lc(&[(1, "1")]));
    assert_eq!(out[1].c, lc(&[(1, "1"), (4, "5")]));
}

#[test]
fn triviality_test() {
    assert!(constraint_is_trivial(&Constraint { a: lc(&[]), b: lc(&[]), c: lc(&[]) }));
    assert!(!constraint_is_trivial(&Constraint { a: lc(&[]), b: lc(&[]), c: lc(&[(0, "1")]) }));
    assert!(!constraint_is_trivial(&Constraint { a: lc(&[(0, "1")]), b: lc(&[(0, "1")]), c: lc(&[]) }));
    assert_eq!(remove_trivial_constraints(vec![]).len(), 0);
}
