use symmetric_polynomials::orbits::enumerate_invariants;
use symmetric_polynomials::pairwise::{extend_level, invarient2d, Invariant2d};
use symmetric_polynomials::polynom::{Index, Monoid, PolyError, Variable};

#[test]
fn canonical_form_renumbers_by_first_appearance() {
    let inv = Invariant2d::from_pairs(&vec![(5, 3), (3, 7), (7, 5)]);
    assert_eq!(inv.pairs(), vec![(0, 1), (1, 2), (2, 0)]);
    let inv = Invariant2d::from_pairs(&vec![(4, 4), (9, 4)]);
    assert_eq!(inv.pairs(), vec![(0, 0), (1, 0)]);
}

#[test]
fn canonical_form_is_idempotent() {
    for pairs in [vec![(5, 3), (3, 7), (7, 5)], vec![(2, 2)], vec![], vec![(0, 9), (9, 0), (3, 3)]] {
        let once = Invariant2d::from_pairs(&pairs);
        let twice = Invariant2d::from_pairs(&once.pairs());
        assert_eq!(once.pairs(), twice.pairs());
    }
}

#[test]
fn add_reuses_and_introduces_indices() {
    let mut inv = Invariant2d::from_pairs(&vec![(0, 1)]);
    inv.add(5, 6);
    assert_eq!(inv.pairs(), vec![(0, 1), (2, 2)]);
    let mut inv = Invariant2d::from_pairs(&vec![(0, 1)]);
    inv.add(2, 3);
    assert_eq!(inv.pairs(), vec![(0, 1), (2, 3)]);
    let mut inv = Invariant2d::from_pairs(&vec![(0, 1)]);
    inv.add(1, 0);
    assert_eq!(inv.pairs(), vec![(0, 1), (1, 0)]);
}

#[test]
fn equality_is_graph_isomorphism() {
    let a = Invariant2d::from_pairs(&vec![(0, 1), (1, 2)]);
    let b = Invariant2d::from_pairs(&vec![(0, 1), (2, 0)]);
    let c = Invariant2d::from_pairs(&vec![(0, 1), (0, 2)]);
    assert!(a == b);
    assert!(a != c);
    assert!(a.isomorphic_to(&b));
    assert!(!a.isomorphic_to(&c));
}

#[test]
fn base_cases_of_builder() {
    assert!(invarient2d(0, 4).is_empty());
    assert!(invarient2d(3, 0).is_empty());
    let one = invarient2d(3, 1);
    assert_eq!(one.len(), 1);
    assert_eq!(one[0].pairs(), vec![(0, 0)]);
    let first = invarient2d(1, 5);
    assert_eq!(first.len(), 2);
    assert_eq!(first[0].pairs(), vec![(0, 0)]);
    assert_eq!(first[1].pairs(), vec![(0, 1)]);
}

#[test]
fn builder_of_degree_two() {
    let level = invarient2d(2, 4);
    assert_eq!(level.len(), 9);
    for (a, x) in level.iter().enumerate() {
        assert_eq!(x.pairs().len(), 2);
        for y in level[a + 1..].iter() {
            assert!(x != y);
        }
    }
}

#[test]
fn builder_agrees_with_enumerator() {
    for domain in [3u32, 4] {
        let built = invarient2d(2, domain);
        let enumerated = enumerate_invariants(2, 2, domain);
        assert_eq!(built.len(), enumerated.len());
    }
}

#[test]
fn extend_level_from_single_loop() {
    let prev = vec![Invariant2d::from_pairs(&vec![(0, 0)])];
    let next = extend_level(&prev, 2, 4);
    assert_eq!(next.len(), 4);
    for x in next.iter() {
        assert_eq!(x.pairs()[0], (0, 0));
    }
}

#[test]
fn builder_classes_match_enumerated_classes_up_to_isomorphism() {
    let built = invarient2d(2, 4);
    let enumerated = enumerate_invariants(2, 2, 4);
    let representatives: Vec<Invariant2d> =
        enumerated.iter().map(|class| Invariant2d::from_monoid(&class[0]).unwrap()).collect();
    assert_eq!(built.len(), representatives.len());
    for x in built.iter() {
        assert_eq!(representatives.iter().filter(|r| x.isomorphic_to(r)).count(), 1);
    }
    for r in representatives.iter() {
        assert_eq!(built.iter().filter(|x| x.isomorphic_to(r)).count(), 1);
    }
}

#[test]
fn from_monoid_reports_named_slots() {
    let resolved = Monoid {
        variables: vec![
            Variable::new("x".to_string(), vec![Index::Constant(7), Index::Constant(3)]),
            Variable::new("x".to_string(), vec![Index::Constant(3), Index::Constant(9)]),
        ],
    };
    assert_eq!(Invariant2d::from_monoid(&resolved).unwrap().pairs(), vec![(0, 1), (1, 2)]);
    let named = Monoid {
        variables: vec![Variable::new("x".to_string(), vec![Index::Constant(7), Index::Named("i".to_string())])],
    };
    assert_eq!(Invariant2d::from_monoid(&named).err(), Some(PolyError::UnresolvedIndex));
}

#[test]
fn colours_of_pair_graphs() {
    let cycle = Invariant2d::from_pairs(&vec![(0, 1), (1, 2), (2, 0)]);
    let h = cycle.colours();
    assert_eq!(h.len(), 1);
    assert_eq!(h.values().copied().collect::<Vec<u64>>(), vec![3]);
    let path = Invariant2d::from_pairs(&vec![(0, 1), (1, 2)]);
    assert_eq!(path.colours().values().copied().sum::<u64>(), 3);
    assert_ne!(path.colours(), h);
    assert!(Invariant2d::from_pairs(&vec![]).colours().is_empty());
}

#[test]
fn builder_keeps_first_generated_representatives_in_order() {
    let level: Vec<Vec<(u32, u32)>> = invarient2d(2, 4).iter().map(|x| x.pairs()).collect();
    assert_eq!(
        level,
        vec![
            vec![(0, 0), (0, 1)],
            vec![(0, 0), (1, 0)],
            vec![(0, 0), (1, 1)],
            vec![(0, 0), (1, 2)],
            vec![(0, 1), (0, 2)],
            vec![(0, 1), (1, 0)],
            vec![(0, 1), (1, 2)],
            vec![(0, 1), (2, 1)],
            vec![(0, 1), (2, 3)],
        ]
    );
}

#[test]
fn canonicalising_pairs_of_an_invariant_again_changes_nothing() {
    let c = Invariant2d::from_pairs(&vec![(8, 2), (2, 2), (5, 8)]);
    let again = Invariant2d::from_pairs(&c.pairs());
    assert_eq!(again.pairs(), c.pairs());
    assert_eq!(c.pairs(), vec![(0, 1), (1, 1), (2, 0)]);
}
