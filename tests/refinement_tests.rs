use symmetric_polynomials::weisfeiler_leman::{histogram, invariants, propagate, Digraph, LabelledGraph};

fn bidirected(edges: &[(usize, usize)]) -> Vec<(usize, usize)> {
    let mut all = Vec::new();
    for &(a, b) in edges {
        all.push((a, b));
        all.push((b, a));
    }
    all
}

#[test]
fn hexagon_and_two_triangles_are_not_told_apart() {
    let g1 = Digraph { node_count: 6, edges: bidirected(&[(0, 1), (1, 2), (2, 3), (3, 4), (4, 5), (5, 0)]) };
    let g2 = Digraph { node_count: 6, edges: bidirected(&[(0, 1), (1, 2), (2, 0), (3, 4), (4, 5), (5, 3)]) };
    let h1 = invariants(&g1);
    let h2 = invariants(&g2);
    assert_eq!(h1.len(), 1);
    assert_eq!(h1.values().copied().collect::<Vec<u64>>(), vec![6]);
    assert_eq!(h1, h2);
}

#[test]
fn path_and_cycle_are_told_apart() {
    let path = Digraph { node_count: 3, edges: vec![(0, 1), (1, 2)] };
    let cycle = Digraph { node_count: 3, edges: vec![(0, 1), (1, 2), (2, 0)] };
    let hp = invariants(&path);
    let hc = invariants(&cycle);
    assert_ne!(hp, hc);
    assert_eq!(hc.len(), 1);
    assert_eq!(hp.values().copied().sum::<u64>(), 3);
}

#[test]
fn propagate_hashes_sorted_in_neighbour_labels() {
    let g = LabelledGraph { labels: vec![3, 9, 0], edges: vec![(0, 2), (1, 2)] };
    let h = LabelledGraph { labels: vec![3, 9, 0], edges: vec![(1, 2), (0, 2)] };
    let rg = propagate(&g);
    let rh = propagate(&h);
    assert_eq!(rg.edges, g.edges);
    assert_eq!(rg.labels.len(), 3);
    assert_eq!(rg.labels, rh.labels);
    assert_eq!(rg.labels[0], rg.labels[1]);
    assert_ne!(rg.labels[0], rg.labels[2]);
}

#[test]
fn histogram_counts_labels() {
    let h = histogram(&vec![5, 5, 7]);
    assert_eq!(h.len(), 2);
    assert_eq!(h[&5], 2);
    assert_eq!(h[&7], 1);
    assert!(histogram(&vec![]).is_empty());
}

#[test]
fn empty_graph_has_empty_histogram() {
    let g = Digraph { node_count: 0, edges: vec![] };
    assert!(invariants(&g).is_empty());
    let single = Digraph { node_count: 1, edges: vec![] };
    let h = invariants(&single);
    assert_eq!(h.get(&0), Some(&1));
}
