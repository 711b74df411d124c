use symmetric_polynomials::orbits::enumerate_invariants;
use symmetric_polynomials::polynom::{Index, Monoid, PolyError, Variable};

fn named(s: &str) -> Index {
    Index::Named(s.to_string())
}

fn var(name: &str, indices: Vec<Index>) -> Variable {
    Variable::new(name.to_string(), indices)
}

fn monoid(variables: Vec<Variable>) -> Monoid {
    Monoid { variables }
}

fn constant_of(index: &Index) -> u32 {
    match index {
        Index::Constant(c) => *c,
        Index::Named(_) => panic!("unresolved index"),
    }
}

#[test]
fn variable_eval_replaces_names() {
    let v = var("x", vec![named("i"), Index::Constant(7), named("j")]);
    let assignment = vec![("i".to_string(), 3u32), ("j".to_string(), 5u32)];
    let r = v.eval(&assignment).unwrap();
    assert_eq!(r.name, "x");
    assert_eq!(r.indices, vec![Index::Constant(3), Index::Constant(7), Index::Constant(5)]);
}

#[test]
fn variable_eval_reports_unresolved_index() {
    let v = var("x", vec![named("i"), named("k")]);
    let assignment = vec![("i".to_string(), 3u32)];
    assert_eq!(v.eval(&assignment), Err(PolyError::UnresolvedIndex));
}

#[test]
fn monoid_eval_sorts_and_substitutes() {
    let m = monoid(vec![var("x", vec![named("j")]), var("x", vec![named("i")])]);
    let assignment = vec![("i".to_string(), 4u32), ("j".to_string(), 1u32)];
    let r = m.eval(&assignment).unwrap();
    assert_eq!(r.variables, vec![var("x", vec![Index::Constant(1)]), var("x", vec![Index::Constant(4)])]);
    let partial = vec![("i".to_string(), 4u32)];
    assert_eq!(m.eval(&partial), Err(PolyError::UnresolvedIndex));
}

#[test]
fn repeated_variable_is_not_multilinear() {
    let m = monoid(vec![var("x", vec![named("i"), named("j")]), var("x", vec![named("i"), named("j")])]);
    assert!(!m.is_multilinear());
}

#[test]
fn distinct_variables_are_multilinear() {
    let m = monoid(vec![var("x", vec![named("i"), named("j")]), var("x", vec![named("j"), named("i")])]);
    assert!(m.is_multilinear());
    assert!(monoid(vec![]).is_multilinear());
}

#[test]
fn monoid_equality_ignores_order_and_multiplicity() {
    let a = monoid(vec![var("x", vec![Index::Constant(1)]), var("x", vec![Index::Constant(2)])]);
    let b = monoid(vec![var("x", vec![Index::Constant(2)]), var("x", vec![Index::Constant(1)])]);
    let c = monoid(vec![
        var("x", vec![Index::Constant(2)]),
        var("x", vec![Index::Constant(1)]),
        var("x", vec![Index::Constant(1)]),
    ]);
    let d = monoid(vec![var("x", vec![Index::Constant(2)])]);
    assert!(a == b);
    assert!(a == c);
    assert!(a != d);
    assert!(d != a);
}

#[test]
fn collect_indices_in_order_of_first_appearance() {
    let m = monoid(vec![
        var("x", vec![named("k"), named("i")]),
        var("y", vec![Index::Constant(0), named("k"), named("j")]),
    ]);
    assert_eq!(m.collect_indices(), vec!["k".to_string(), "i".to_string(), "j".to_string()]);
}

#[test]
fn orbit_of_pair_with_distinct_indices() {
    for n in 0u32..6 {
        let m = monoid(vec![var("x", vec![named("i"), named("j")])]);
        let orbit = m.orbital(n);
        let expected = if n < 2 { 0 } else { n * (n - 1) };
        assert_eq!(orbit.len() as u32, expected);
        for element in orbit.iter() {
            let a = constant_of(&element.variables[0].indices[0]);
            let b = constant_of(&element.variables[0].indices[1]);
            assert!(a != b && a < n && b < n);
        }
    }
}

#[test]
fn orbit_of_pair_with_repeated_index() {
    for n in 0u32..6 {
        let m = monoid(vec![var("x", vec![named("i"), named("i")])]);
        let orbit = m.orbital(n);
        assert_eq!(orbit.len() as u32, n);
    }
}

#[test]
fn orbit_is_closed_under_relabelling() {
    let n = 4u32;
    let m = monoid(vec![var("x", vec![named("i"), named("j")]), var("x", vec![named("j"), named("k")])]);
    let orbit = m.orbital(n);
    assert_eq!(orbit.len(), 24);
    let sigma = [2u32, 0, 3, 1];
    for element in orbit.iter() {
        let relabelled = monoid(
            element
                .variables
                .iter()
                .map(|v| {
                    var(&v.name, v.indices.iter().map(|x| Index::Constant(sigma[constant_of(x) as usize])).collect())
                })
                .collect(),
        );
        assert!(orbit.iter().any(|o| *o == relabelled));
    }
}

#[test]
fn orbit_of_constant_monomial_is_itself() {
    let m = monoid(vec![var("x", vec![Index::Constant(1), Index::Constant(0)])]);
    let orbit = m.orbital(3);
    assert_eq!(orbit.len(), 1);
    assert!(orbit[0] == m);
}

#[test]
fn pairwise_classes_of_degree_two() {
    let classes = enumerate_invariants(2, 2, 4);
    assert_eq!(classes.len(), 9);
    let total: usize = classes.iter().map(|c| c.len()).sum();
    // every set of two distinct ordered pairs over four values lies in exactly one class
    assert_eq!(total, 16 * 15 / 2);
}

#[test]
fn single_index_classes_match_binomial() {
    let classes = enumerate_invariants(4, 1, 6);
    let total: usize = classes.iter().map(|c| c.len()).sum();
    assert_eq!(classes.len(), 1);
    assert_eq!(total, 15);
}

#[test]
fn enumeration_of_degree_zero() {
    let classes = enumerate_invariants(0, 2, 3);
    assert_eq!(classes.len(), 1);
    assert_eq!(classes[0].len(), 1);
    assert!(classes[0][0].variables.is_empty());
}

#[test]
fn too_small_domain_keeps_only_diagonal_class() {
    let classes = enumerate_invariants(1, 2, 1);
    assert_eq!(classes.len(), 1);
    assert_eq!(classes[0].len(), 1);
    let classes = enumerate_invariants(1, 2, 0);
    assert_eq!(classes.len(), 0);
}

#[test]
fn from_variables_sorts() {
    let m = Monoid::from_variables(vec![
        var("y", vec![Index::Constant(0)]),
        var("x", vec![Index::Constant(2)]),
        var("x", vec![named("i")]),
    ]);
    assert_eq!(
        m.variables,
        vec![var("x", vec![named("i")]), var("x", vec![Index::Constant(2)]), var("y", vec![Index::Constant(0)])]
    );
}
