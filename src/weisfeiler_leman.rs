//! Colour refinement (one-dimensional Weisfeiler-Leman) on directed graphs:
//! each round relabels every node by a hash of the sorted labels of its
//! in-neighbours, and the invariant of a graph is the histogram of its labels.

use itertools::Itertools;
use std::collections::HashMap;
use std::hash::{DefaultHasher, Hash, Hasher};
use vstd::prelude::*;
use vstd::relations::{sorted_by, total_ordering};

verus! {

broadcast use vstd::std_specs::hash::group_hash_axioms;

/// A directed graph on the nodes `0..node_count`, given by its edges `(from, to)`.
pub struct Digraph {
    pub node_count: usize,
    pub edges: Vec<(usize, usize)>,
}

/// A directed graph whose node `v` carries the label `labels[v]`.
pub struct LabelledGraph {
    pub labels: Vec<u64>,
    pub edges: Vec<(usize, usize)>,
}

/// Every edge joins two of the nodes `0..n`.
pub open spec fn edges_within(edges: Seq<(usize, usize)>, n: nat) -> bool {
    forall|e: int| 0 <= e < edges.len() ==> edges[e].0 < n && edges[e].1 < n
}

/// The labels of the sources of the edges into `v`, one per edge, in edge order.
pub open spec fn in_labels(labels: Seq<u64>, edges: Seq<(usize, usize)>, v: int) -> Seq<u64>
    decreases edges.len(),
{
    if edges.len() == 0 {
        Seq::empty()
    } else {
        let rest = in_labels(labels, edges.drop_last(), v);
        if edges.last().1 == v {
            rest.push(labels[edges.last().0 as int])
        } else {
            rest
        }
    }
}

/// The order in which neighbour labels are hashed.
pub open spec fn label_leq() -> spec_fn(u64, u64) -> bool {
    |a: u64, b: u64| a <= b
}

/// `s` in ascending order.
pub open spec fn sorted_of(s: Seq<u64>) -> Seq<u64> {
    s.sort_by(label_leq())
}

/// The hash of a sequence of labels.
pub uninterp spec fn sequence_hash(s: Seq<u64>) -> u64;

/// One synchronous round: node `v` gets the hash of the sorted labels of its in-neighbours.
pub open spec fn refine_step(labels: Seq<u64>, edges: Seq<(usize, usize)>) -> Seq<u64> {
    Seq::new(labels.len(), |v: int| sequence_hash(sorted_of(in_labels(labels, edges, v))))
}

/// The labels after `rounds` rounds.
pub open spec fn refine(labels: Seq<u64>, edges: Seq<(usize, usize)>, rounds: nat) -> Seq<u64>
    decreases rounds,
{
    if rounds == 0 {
        labels
    } else {
        refine_step(refine(labels, edges, (rounds - 1) as nat), edges)
    }
}

/// The number of nodes that carry `label`.
pub open spec fn label_count(labels: Seq<u64>, label: u64) -> nat {
    labels.to_multiset().count(label)
}

/// `m` maps each label that occurs to the number of its occurrences, and
/// holds no other label.
pub open spec fn is_histogram(m: Map<u64, u64>, labels: Seq<u64>) -> bool {
    &&& forall|k: u64| m.contains_key(k) <==> labels.contains(k)
    &&& forall|k: u64| m.contains_key(k) ==> m[k] as nat == label_count(labels, k)
}

/// The labels of the graph of `node_count` nodes before the first round: all zero.
pub open spec fn initial_labels(node_count: nat) -> Seq<u64> {
    Seq::new(node_count, |v: int| 0u64)
}

/// Relies on `std::hash::DefaultHasher`: a hasher made by `DefaultHasher::new`
/// is fed every value in order through `Hash`, and `finish` gives the result,
/// which depends on the values alone.
#[verifier::external_body]
fn get_hash(values: &Vec<u64>) -> (r: u64)
    ensures
        r == sequence_hash(values@),
{
    let mut s = DefaultHasher::new();
    for value in values.iter() {
        value.hash(&mut s);
    }
    s.finish()
}

/// Relies on `itertools::Itertools::sorted`: the same values, ascending.
#[verifier::external_body]
fn sorted_labels(v: Vec<u64>) -> (r: Vec<u64>)
    ensures
        sorted_by(r@, label_leq()),
        r@.to_multiset() == v@.to_multiset(),
{
    v.into_iter().sorted().collect()
}

proof fn lemma_label_leq_total()
    ensures
        total_ordering(label_leq()),
{
}

fn copy_edges(v: &Vec<(usize, usize)>) -> (r: Vec<(usize, usize)>)
    ensures
        r@ == v@,
{
    let mut r: Vec<(usize, usize)> = Vec::new();
    let mut k: usize = 0;
    while k < v.len()
        invariant
            0 <= k <= v.len(),
            r@ == v@.take(k as int),
        decreases v.len() - k,
    {
        r.push(v[k]);
        k = k + 1;
        assert(r@ =~= v@.take(k as int));
    }
    assert(v@.take(k as int) =~= v@);
    r
}

/// The labels of the in-neighbours of `v`, one per edge.
fn collect_in_labels(graph: &LabelledGraph, v: usize) -> (r: Vec<u64>)
    requires
        edges_within(graph.edges@, graph.labels.len() as nat),
    ensures
        r@ == in_labels(graph.labels@, graph.edges@, v as int),
{
    let mut r: Vec<u64> = Vec::new();
    let mut k: usize = 0;
    assert(graph.edges@.take(0) =~= Seq::<(usize, usize)>::empty());
    while k < graph.edges.len()
        invariant
            edges_within(graph.edges@, graph.labels.len() as nat),
            0 <= k <= graph.edges.len(),
            r@ == in_labels(graph.labels@, graph.edges@.take(k as int), v as int),
        decreases graph.edges.len() - k,
    {
        let (from, to) = graph.edges[k];
        assert(graph.edges@.take(k + 1).drop_last() =~= graph.edges@.take(k as int));
        if to == v {
            r.push(graph.labels[from]);
        }
        k = k + 1;
    }
    assert(graph.edges@.take(k as int) =~= graph.edges@);
    r
}

/// One round of colour refinement: every node is relabelled, from the labels
/// before the round, by the hash of the sorted labels of its in-neighbours.
pub fn propagate(graph: &LabelledGraph) -> (r: LabelledGraph)
    requires
        edges_within(graph.edges@, graph.labels.len() as nat),
    ensures
        r.edges@ == graph.edges@,
        r.labels@ == refine_step(graph.labels@, graph.edges@),
{
    let mut labels: Vec<u64> = Vec::new();
    let mut v: usize = 0;
    while v < graph.labels.len()
        invariant
            edges_within(graph.edges@, graph.labels.len() as nat),
            0 <= v <= graph.labels.len(),
            labels.len() == v,
            forall|u: int| 0 <= u < v ==> labels@[u] == refine_step(graph.labels@, graph.edges@)[u],
        decreases graph.labels.len() - v,
    {
        let around = collect_in_labels(graph, v);
        let sorted = sorted_labels(around);
        proof {
            let s = in_labels(graph.labels@, graph.edges@, v as int);
            lemma_label_leq_total();
            s.lemma_sort_by_ensures(label_leq());
            vstd::seq_lib::lemma_sorted_unique(sorted@, sorted_of(s), label_leq());
        }
        labels.push(get_hash(&sorted));
        v = v + 1;
    }
    assert(labels@ =~= refine_step(graph.labels@, graph.edges@));
    LabelledGraph { labels, edges: copy_edges(&graph.edges) }
}

/// The histogram of `labels`: each label mapped to the number of nodes that carry it.
pub fn histogram(labels: &Vec<u64>) -> (r: HashMap<u64, u64>)
    ensures
        is_histogram(r@, labels@),
{
    broadcast use vstd::seq_lib::group_to_multiset_ensures;

    let mut m: HashMap<u64, u64> = HashMap::new();
    let mut k: usize = 0;
    assert(labels@.take(0) =~= Seq::<u64>::empty());
    while k < labels.len()
        invariant
            0 <= k <= labels.len(),
            is_histogram(m@, labels@.take(k as int)),
            forall|x: u64| label_count(labels@.take(k as int), x) <= k,
        decreases labels.len() - k,
    {
        let x = labels[k];
        let ghost before = labels@.take(k as int);
        let ghost after = labels@.take(k + 1);
        assert(after =~= before.push(x));
        let count: u64 = match m.get(&x) {
            Some(c) => *c,
            None => 0,
        };
        proof {
            before.to_multiset_ensures();
            assert(after.to_multiset() =~= before.to_multiset().insert(x));
        }
        assert(count as nat == label_count(before, x)) by {
            if !m@.contains_key(x) {
                assert(!before.contains(x));
                assert(before.to_multiset().count(x) == 0);
            }
        }
        m.insert(x, count + 1);
        k = k + 1;
        assert forall|y: u64| label_count(after, y) == if y == x {
            label_count(before, y) + 1
        } else {
            label_count(before, y)
        } by {}
        assert forall|y: u64| m@.contains_key(y) <==> after.contains(y) by {
            assert(after.contains(y) <==> (before.contains(y) || y == x)) by {
                if after.contains(y) {
                    let i = choose|i: int| 0 <= i < after.len() && after[i] == y;
                    if i < before.len() {
                        assert(before[i] == y);
                    }
                }
                if before.contains(y) {
                    let i = choose|i: int| 0 <= i < before.len() && before[i] == y;
                    assert(after[i] == y);
                }
                if y == x {
                    assert(after[before.len() as int] == y);
                }
            }
        }
    }
    assert(labels@.take(k as int) =~= labels@);
    m
}

/// The colour-refinement invariant of `graph`: all nodes start with the same
/// label, `node_count - 1` rounds are run, and the result is the histogram
/// of the final labels.
pub fn invariants(graph: &Digraph) -> (r: HashMap<u64, u64>)
    requires
        edges_within(graph.edges@, graph.node_count as nat),
    ensures
        is_histogram(
            r@,
            refine(
                initial_labels(graph.node_count as nat),
                graph.edges@,
                if graph.node_count == 0 {
                    0
                } else {
                    (graph.node_count - 1) as nat
                },
            ),
        ),
{
    let mut labels: Vec<u64> = Vec::new();
    let mut v: usize = 0;
    while v < graph.node_count
        invariant
            0 <= v <= graph.node_count,
            labels@ == initial_labels(v as nat),
        decreases graph.node_count - v,
    {
        labels.push(0);
        v = v + 1;
        assert(labels@ =~= initial_labels(v as nat));
    }
    let mut node_hash = LabelledGraph { labels, edges: copy_edges(&graph.edges) };
    let mut round: usize = 1;
    while round < graph.node_count
        invariant
            1 <= round,
            round <= graph.node_count || round == 1,
            node_hash.edges@ == graph.edges@,
            node_hash.labels.len() == graph.node_count,
            edges_within(graph.edges@, graph.node_count as nat),
            node_hash.labels@ == refine(
                initial_labels(graph.node_count as nat),
                graph.edges@,
                (round - 1) as nat,
            ),
        decreases graph.node_count - round,
    {
        node_hash = propagate(&node_hash);
        round = round + 1;
    }
    let ghost rounds: nat = if graph.node_count == 0 {
        0
    } else {
        (graph.node_count - 1) as nat
    };
    assert(round - 1 == rounds);
    assert(node_hash.labels@ == refine(initial_labels(graph.node_count as nat), graph.edges@, rounds));
    histogram(&node_hash.labels)
}

} // verus!
