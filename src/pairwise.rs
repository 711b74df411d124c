//! Pairwise invariants: monomials of two-index variables written as sequences
//! of index pairs, renumbered canonically, compared up to isomorphism of the
//! directed graphs they describe, and built degree by degree.

use petgraph::algo::is_isomorphic;
use petgraph::graph::DiGraph;
use vstd::prelude::*;

use std::collections::HashMap;

use crate::polynom::{Index, IndexModel, Monoid, PolyError, VariableModel};
use crate::weisfeiler_leman::{Digraph, edges_within, initial_labels, invariants, is_histogram, refine};

verus! {

/// Largest number of pairs an invariant may hold. Invariants describe
/// monomials of small degree; the bound keeps every index, at most twice the
/// number of pairs, and every count of nodes well inside `u32`.
pub const MAX_PAIRS: usize = 1048576;

/// A sequence of index pairs, each pair one variable.
#[derive(Debug)]
pub struct Invariant2d {
    indices: Vec<(u32, u32)>,
}

/// The sequence `a0, b0, a1, b1, ...` of the indices of the pairs.
pub open spec fn flatten(p: Seq<(u32, u32)>) -> Seq<u32> {
    Seq::new(2 * p.len(), |k: int| if k % 2 == 0 { p[k / 2].0 } else { p[k / 2].1 })
}

/// The pairs `(s[0], s[1]), (s[2], s[3]), ...`.
pub open spec fn unflatten(s: Seq<u32>) -> Seq<(u32, u32)> {
    Seq::new(s.len() / 2, |k: int| (s[2 * k], s[2 * k + 1]))
}

/// The position of `x` in `seen`.
pub open spec fn slot_of(seen: Seq<u32>, x: u32) -> int {
    choose|k: int| 0 <= k < seen.len() && seen[k] == x
}

/// Renumbers `s` by order of first appearance, continuing from the values
/// already met in `seen`: the `k`-th distinct value becomes `k`.
pub open spec fn renumber_from(s: Seq<u32>, seen: Seq<u32>) -> Seq<u32>
    decreases s.len(),
{
    if s.len() == 0 {
        Seq::empty()
    } else if seen.contains(s[0]) {
        seq![slot_of(seen, s[0]) as u32] + renumber_from(s.drop_first(), seen)
    } else {
        seq![seen.len() as u32] + renumber_from(s.drop_first(), seen.push(s[0]))
    }
}

/// The canonical form of a pair sequence: indices renumbered by first appearance.
pub open spec fn canonical_pairs(p: Seq<(u32, u32)>) -> Seq<(u32, u32)> {
    unflatten(renumber_from(flatten(p), Seq::empty()))
}

/// The largest index of `p`, zero for no pairs.
pub open spec fn max_index(p: Seq<(u32, u32)>) -> nat
    decreases p.len(),
{
    if p.len() == 0 {
        0
    } else {
        let m = max_index(p.drop_last());
        let a = p.last().0 as nat;
        let b = p.last().1 as nat;
        let top = if a < b { b } else { a };
        if m < top { top } else { m }
    }
}

/// The pair that `add(i, j)` appends to `p`.
pub open spec fn added_pair(p: Seq<(u32, u32)>, i: u32, j: u32) -> (u32, u32) {
    let size = max_index(p) + 1;
    let first = if i < size { i as nat } else { size };
    let size2 = if i == size { size + 1 } else { size };
    let second = if j > size2 { size2 } else { j as nat };
    (first as u32, second as u32)
}

/// Whether `p` has at most `MAX_PAIRS` pairs and no index above twice their number.
pub open spec fn bounded_pairs(p: Seq<(u32, u32)>) -> bool {
    &&& p.len() <= MAX_PAIRS
    &&& forall|k: int| 0 <= k < p.len() ==> p[k].0 <= 2 * p.len() && p[k].1 <= 2 * p.len()
}

/// Whether the two pair sequences, read as edge lists of directed graphs on
/// the nodes `0..=largest index` (a repeated pair giving a parallel edge),
/// are found isomorphic. For sequences without repeated pairs this is
/// isomorphism of directed graphs; sequences with repeats are multigraphs,
/// for which the test used gives no guarantee.
pub uninterp spec fn isomorphic(a: Seq<(u32, u32)>, b: Seq<(u32, u32)>) -> bool;

/// Relies on `petgraph::algo::is_isomorphic`, applied to the graphs that
/// `petgraph::graph::DiGraph::from_edges` builds from the two edge lists.
#[verifier::external_body]
fn edges_isomorphic(a: &Vec<(u32, u32)>, b: &Vec<(u32, u32)>) -> (r: bool)
    requires
        forall|k: int| 0 <= k < a.len() ==> a@[k].0 < u32::MAX && a@[k].1 < u32::MAX,
        forall|k: int| 0 <= k < b.len() ==> b@[k].0 < u32::MAX && b@[k].1 < u32::MAX,
    ensures
        r == isomorphic(a@, b@),
{
    let ga = DiGraph::<u32, ()>::from_edges(a);
    let gb = DiGraph::<u32, ()>::from_edges(b);
    is_isomorphic(&ga, &gb)
}

impl View for Invariant2d {
    type V = Seq<(u32, u32)>;

    closed spec fn view(&self) -> Seq<(u32, u32)> {
        self.indices@
    }
}

fn copy_pairs(v: &Vec<(u32, u32)>) -> (r: Vec<(u32, u32)>)
    ensures
        r@ == v@,
{
    let mut r: Vec<(u32, u32)> = Vec::new();
    let mut k: usize = 0;
    while k < v.len()
        invariant
            0 <= k <= v.len(),
            r@ == v@.take(k as int),
        decreases v.len() - k,
    {
        r.push(v[k]);
        k = k + 1;
        assert(r@ =~= v@.take(k as int));
    }
    assert(v@.take(k as int) =~= v@);
    r
}

impl Invariant2d {
    #[verifier::type_invariant]
    spec fn well_formed(self) -> bool {
        bounded_pairs(self.indices@)
    }

    /// The pairs, in order.
    pub fn pairs(&self) -> (r: Vec<(u32, u32)>)
        ensures
            r@ == self@,
            r@.len() <= MAX_PAIRS,
    {
        proof {
            use_type_invariant(self);
        }
        copy_pairs(&self.indices)
    }

    /// An invariant with the same pairs.
    pub fn duplicate(&self) -> (r: Invariant2d)
        ensures
            r@ == self@,
    {
        proof {
            use_type_invariant(self);
        }
        Invariant2d { indices: copy_pairs(&self.indices) }
    }

    /// Whether the pair `(i, j)` is present.
    pub fn contains_pair(&self, i: u32, j: u32) -> (r: bool)
        ensures
            r == self@.contains((i, j)),
    {
        let mut k: usize = 0;
        while k < self.indices.len()
            invariant
                0 <= k <= self.indices.len(),
                forall|l: int| 0 <= l < k ==> self@[l] != (i, j),
            decreases self.indices.len() - k,
        {
            if self.indices[k].0 == i && self.indices[k].1 == j {
                assert(self@[k as int] == (i, j));
                return true;
            }
            k = k + 1;
        }
        false
    }

    /// Whether the directed graphs of the two invariants are isomorphic.
    pub fn isomorphic_to(&self, other: &Invariant2d) -> (r: bool)
        ensures
            r == isomorphic(self@, other@),
    {
        proof {
            use_type_invariant(self);
            use_type_invariant(other);
        }
        edges_isomorphic(&self.indices, &other.indices)
    }
}

impl PartialEq for Invariant2d {
    fn eq(&self, other: &Invariant2d) -> (r: bool) {
        self.isomorphic_to(other)
    }
}

impl vstd::std_specs::cmp::PartialEqSpecImpl for Invariant2d {
    open spec fn obeys_eq_spec() -> bool {
        false
    }

    open spec fn eq_spec(&self, other: &Invariant2d) -> bool {
        isomorphic(self@, other@)
    }
}

impl Eq for Invariant2d {

}


/// The number that `x` gets after the values in `seen`: its position, or a
/// fresh one.
fn number(seen: &mut Vec<u32>, x: u32) -> (r: u32)
    requires
        old(seen)@.no_duplicates(),
        old(seen).len() < u32::MAX,
    ensures
        final(seen)@.no_duplicates(),
        old(seen)@.contains(x) ==> r == slot_of(old(seen)@, x) && final(seen)@ == old(seen)@,
        !old(seen)@.contains(x) ==> r == old(seen).len() && final(seen)@ == old(seen)@.push(x),
{
    let mut k: usize = 0;
    while k < seen.len()
        invariant
            0 <= k <= seen.len(),
            seen@ == old(seen)@,
            seen@.no_duplicates(),
            seen.len() < u32::MAX,
            forall|l: int| 0 <= l < k ==> seen@[l] != x,
        decreases seen.len() - k,
    {
        if seen[k] == x {
            proof {
                assert(seen@.contains(x));
                let c = slot_of(seen@, x);
                assert(seen@[c] == x);
                assert(c == k);
            }
            return k as u32;
        }
        k = k + 1;
    }
    let r = seen.len() as u32;
    seen.push(x);
    r
}

impl Invariant2d {
    /// The canonical form of `pairs`: indices renumbered by order of first
    /// appearance, the first index met becoming 0.
    pub fn from_pairs(pairs: &Vec<(u32, u32)>) -> (r: Invariant2d)
        requires
            pairs.len() <= MAX_PAIRS,
        ensures
            r@ == canonical_pairs(pairs@),
            r@.len() == pairs@.len(),
    {
        let ghost target = renumber_from(flatten(pairs@), Seq::empty());
        let mut seen: Vec<u32> = Vec::new();
        let mut out: Vec<(u32, u32)> = Vec::new();
        let mut k: usize = 0;
        assert(flatten(pairs@).skip(0) =~= flatten(pairs@));
        assert(flatten(out@) =~= Seq::<u32>::empty());
        while k < pairs.len()
            invariant
                pairs.len() <= MAX_PAIRS,
                0 <= k <= pairs.len(),
                out.len() == k,
                seen@.no_duplicates(),
                seen.len() <= 2 * k,
                forall|l: int| 0 <= l < k ==> out@[l].0 < seen.len() && out@[l].1 < seen.len(),
                flatten(out@) + renumber_from(flatten(pairs@).skip(2 * k), seen@) == target,
            decreases pairs.len() - k,
        {
            let ghost rest = flatten(pairs@).skip(2 * k);
            let ghost seen0 = seen@;
            let (i, j) = pairs[k];
            assert(rest[0] == i && rest[1] == j);
            let a = number(&mut seen, i);
            let ghost seen1 = seen@;
            let b = number(&mut seen, j);
            assert(rest.drop_first()[0] == j);
            assert(renumber_from(rest, seen0) == seq![a] + renumber_from(rest.drop_first(), seen1));
            assert(renumber_from(rest.drop_first(), seen1) == seq![b] + renumber_from(
                rest.drop_first().drop_first(),
                seen@,
            ));
            assert(rest.drop_first().drop_first() =~= flatten(pairs@).skip(2 * (k + 1)));
            let ghost old_out = out@;
            out.push((a, b));
            assert(flatten(out@) =~= flatten(old_out) + seq![a, b]);
            k = k + 1;
        }
        assert(flatten(pairs@).skip(2 * k) =~= Seq::<u32>::empty());
        assert(flatten(out@) =~= target);
        proof {
            lemma_unflatten_flatten(out@);
        }
        assert(out@.len() == pairs@.len());
        Invariant2d { indices: out }
    }
}

proof fn lemma_unflatten_flatten(p: Seq<(u32, u32)>)
    ensures
        unflatten(flatten(p)) == p,
{
    assert(unflatten(flatten(p)) =~= p);
}

proof fn lemma_flatten_unflatten(s: Seq<u32>)
    requires
        s.len() % 2 == 0,
    ensures
        flatten(unflatten(s)) == s,
{
    assert(flatten(unflatten(s)) =~= s);
}

/// `r` numbers values by first appearance, `c` numbers having been used before it.
pub open spec fn first_appearance_from(r: Seq<u32>, c: nat) -> bool
    decreases r.len(),
{
    r.len() == 0 || (r[0] <= c && first_appearance_from(
        r.drop_first(),
        if r[0] == c { c + 1 } else { c },
    ))
}

/// The numbers `0, 1, ..., c - 1`.
pub open spec fn first_numbers(c: nat) -> Seq<u32> {
    Seq::new(c, |k: int| k as u32)
}

proof fn lemma_renumber_shape(s: Seq<u32>, seen: Seq<u32>)
    requires
        seen.no_duplicates(),
        seen.len() + s.len() < u32::MAX,
    ensures
        renumber_from(s, seen).len() == s.len(),
        first_appearance_from(renumber_from(s, seen), seen.len()),
    decreases s.len(),
{
    if s.len() > 0 {
        let r = renumber_from(s, seen);
        if seen.contains(s[0]) {
            lemma_renumber_shape(s.drop_first(), seen);
            assert(r.drop_first() =~= renumber_from(s.drop_first(), seen));
        } else {
            lemma_renumber_shape(s.drop_first(), seen.push(s[0]));
            assert(r.drop_first() =~= renumber_from(s.drop_first(), seen.push(s[0])));
        }
    }
}

proof fn lemma_renumber_fixed(r: Seq<u32>, c: nat)
    requires
        first_appearance_from(r, c),
        c + r.len() < u32::MAX,
    ensures
        renumber_from(r, first_numbers(c)) == r,
    decreases r.len(),
{
    if r.len() > 0 {
        let seen = first_numbers(c);
        if r[0] < c {
            assert(seen[r[0] as int] == r[0]);
            assert(seen.contains(r[0]));
            let k = slot_of(seen, r[0]);
            assert(k == r[0]);
            lemma_renumber_fixed(r.drop_first(), c);
        } else {
            assert(!seen.contains(r[0]));
            assert(seen.push(r[0]) =~= first_numbers(c + 1));
            lemma_renumber_fixed(r.drop_first(), c + 1);
        }
        assert(renumber_from(r, seen) =~= r);
    }
}

/// Canonicalising a canonical pair sequence changes nothing.
pub proof fn lemma_canonical_idempotent(p: Seq<(u32, u32)>)
    requires
        p.len() <= MAX_PAIRS,
    ensures
        canonical_pairs(canonical_pairs(p)) == canonical_pairs(p),
{
    let r = renumber_from(flatten(p), Seq::empty());
    lemma_renumber_shape(flatten(p), Seq::empty());
    assert(r.len() % 2 == 0);
    lemma_flatten_unflatten(r);
    assert(first_numbers(0) =~= Seq::<u32>::empty());
    lemma_renumber_fixed(r, 0);
}


proof fn lemma_max_index_bound(p: Seq<(u32, u32)>, bound: nat)
    requires
        forall|k: int| 0 <= k < p.len() ==> p[k].0 <= bound && p[k].1 <= bound,
    ensures
        max_index(p) <= bound,
    decreases p.len(),
{
    if p.len() > 0 {
        lemma_max_index_bound(p.drop_last(), bound);
    }
}

/// The largest index of `p`.
fn largest_index(p: &Vec<(u32, u32)>) -> (r: u32)
    ensures
        r == max_index(p@),
{
    let mut m: u32 = 0;
    let mut k: usize = 0;
    assert(p@.take(0).len() == 0);
    while k < p.len()
        invariant
            0 <= k <= p.len(),
            m == max_index(p@.take(k as int)),
        decreases p.len() - k,
    {
        let (a, b) = p[k];
        let top = if a < b { b } else { a };
        if m < top {
            m = top;
        }
        assert(p@.take(k + 1).drop_last() =~= p@.take(k as int));
        k = k + 1;
    }
    assert(p@.take(k as int) =~= p@);
    m
}

impl Invariant2d {
    /// Appends the pair `(i, j)`, renumbered so that an index above the ones
    /// in use becomes the next fresh one.
    pub fn add(&mut self, i: u32, j: u32)
        requires
            old(self)@.len() < MAX_PAIRS,
        ensures
            final(self)@ == old(self)@.push(added_pair(old(self)@, i, j)),
    {
        proof {
            use_type_invariant(&*self);
            lemma_max_index_bound(self@, 2 * self@.len());
        }
        let mut max_size = largest_index(&self.indices);
        max_size = max_size + 1;
        let mut added: (u32, u32) = (if i < max_size { i } else { max_size }, j);
        if i == max_size {
            max_size = max_size + 1;
        }
        if j > max_size {
            added.1 = max_size;
        }
        let mut v = copy_pairs(&self.indices);
        v.push(added);
        *self = Invariant2d { indices: v };
    }
}

/// The views of a sequence of invariants.
pub open spec fn views(s: Seq<Invariant2d>) -> Seq<Seq<(u32, u32)>> {
    s.map_values(|x: Invariant2d| x@)
}

/// The bound below which the indices of a pair added to `q` are taken.
pub open spec fn window(q: Seq<(u32, u32)>, degree: u32, domain: u32) -> nat {
    let limit = if (domain as nat) < 2 * (degree as nat) {
        domain as nat
    } else {
        2 * (degree as nat)
    };
    if max_index(q) + 3 < limit {
        max_index(q) + 3
    } else {
        limit
    }
}

/// `q` with the pair `(i, j)` added.
pub open spec fn extended(q: Seq<(u32, u32)>, i: u32, j: u32) -> Seq<(u32, u32)> {
    q.push(added_pair(q, i, j))
}

/// `(i, j)` is a pair of the search window of `q` that `q` does not hold.
pub open spec fn is_extension(q: Seq<(u32, u32)>, degree: u32, domain: u32, i: u32, j: u32) -> bool {
    i < window(q, degree, domain) && j < window(q, degree, domain) && !q.contains((i, j))
}

/// Lexicographic order of `(b, i, j)` triples.
pub open spec fn before(x: (int, u32, u32), y: (int, u32, u32)) -> bool {
    x.0 < y.0 || (x.0 == y.0 && (x.1 < y.1 || (x.1 == y.1 && x.2 < y.2)))
}

/// Member `a` of `cur` is member `w[a].0` of `prev` extended by the pair
/// `(w[a].1, w[a].2)` of its window, and the triples `w` increase: the
/// members stand in the order in which the extensions are generated.
pub open spec fn generated_by(
    prev: Seq<Seq<(u32, u32)>>,
    cur: Seq<Seq<(u32, u32)>>,
    w: Seq<(int, u32, u32)>,
    degree: u32,
    domain: u32,
) -> bool {
    &&& w.len() == cur.len()
    &&& forall|a: int|
        0 <= a < cur.len() ==> 0 <= (#[trigger] w[a]).0 < prev.len() && is_extension(
            prev[w[a].0],
            degree,
            domain,
            w[a].1,
            w[a].2,
        ) && cur[a] == extended(prev[w[a].0], w[a].1, w[a].2)
    &&& forall|a: int, c: int| 0 <= a < c < cur.len() ==> before(#[trigger] w[a], #[trigger] w[c])
}

/// Member `a` of `cur` is the extension of `prev[b]` by `(i, j)`, or was
/// generated before it and is isomorphic to it.
pub open spec fn covers(
    prev: Seq<Seq<(u32, u32)>>,
    cur: Seq<Seq<(u32, u32)>>,
    w: Seq<(int, u32, u32)>,
    a: int,
    b: int,
    i: u32,
    j: u32,
) -> bool {
    0 <= a < cur.len() && (w[a] == (b, i, j) || (before(w[a], (b, i, j)) && isomorphic(
        cur[a],
        extended(prev[b], i, j),
    )))
}

/// The extension of `prev[b]` by `(i, j)` is kept, or an earlier kept member
/// is isomorphic to it.
pub open spec fn kept_or_covered(
    prev: Seq<Seq<(u32, u32)>>,
    cur: Seq<Seq<(u32, u32)>>,
    w: Seq<(int, u32, u32)>,
    b: int,
    i: u32,
    j: u32,
) -> bool {
    exists|a: int| #[trigger] covers(prev, cur, w, a, b, i, j)
}

/// No two members of `cur` are isomorphic, the earlier one taken first.
pub open spec fn pairwise_distinct(cur: Seq<Seq<(u32, u32)>>) -> bool {
    forall|a: int, c: int| 0 <= a < c < cur.len() ==> !isomorphic(cur[a], cur[c])
}

/// The invariants of one degree are built from those of the degree below:
/// the extensions of each member of `prev` by each pair of its window that
/// it does not hold are generated in order of member, then first index, then
/// second index; an extension is kept when no member kept before it is
/// isomorphic to it.
pub open spec fn extends(
    prev: Seq<Seq<(u32, u32)>>,
    cur: Seq<Seq<(u32, u32)>>,
    degree: u32,
    domain: u32,
) -> bool {
    exists|w: Seq<(int, u32, u32)>|
        {
            &&& generated_by(prev, cur, w, degree, domain)
            &&& forall|b: int, i: u32, j: u32|
                0 <= b < prev.len() && is_extension(prev[b], degree, domain, i, j)
                    ==> #[trigger] kept_or_covered(prev, cur, w, b, i, j)
            &&& pairwise_distinct(cur)
        }
}

/// The pairwise invariants of degree `degree` over a domain of `domain` values.
pub open spec fn is_level(degree: u32, domain: u32, cur: Seq<Seq<(u32, u32)>>) -> bool
    decreases degree,
{
    if degree == 0 || domain == 0 {
        cur == Seq::<Seq<(u32, u32)>>::empty()
    } else if domain == 1 {
        cur == seq![seq![(0u32, 0u32)]]
    } else if degree == 1 {
        cur == seq![seq![(0u32, 0u32)], seq![(0u32, 1u32)]]
    } else {
        exists|prev: Seq<Seq<(u32, u32)>>|
            is_level((degree - 1) as u32, domain, prev) && extends(prev, cur, degree, domain)
    }
}

/// Whether some member of `cur` is isomorphic to `x`, the member taken first.
fn contains_isomorphic(cur: &Vec<Invariant2d>, x: &Invariant2d) -> (r: bool)
    ensures
        r == exists|a: int| 0 <= a < cur.len() && isomorphic(#[trigger] cur@[a]@, x@),
{
    let mut k: usize = 0;
    while k < cur.len()
        invariant
            0 <= k <= cur.len(),
            forall|l: int| 0 <= l < k ==> !isomorphic(#[trigger] cur@[l]@, x@),
        decreases cur.len() - k,
    {
        if cur[k].isomorphic_to(x) {
            return true;
        }
        k = k + 1;
    }
    false
}

/// Every extension generated before `(b, i, j)` is kept or covered.
pub open spec fn done_before(
    prev: Seq<Seq<(u32, u32)>>,
    cur: Seq<Seq<(u32, u32)>>,
    w: Seq<(int, u32, u32)>,
    degree: u32,
    domain: u32,
    at: (int, u32, u32),
) -> bool {
    forall|b2: int, i2: u32, j2: u32|
        0 <= b2 < prev.len() && before((b2, i2, j2), at) && is_extension(
            prev[b2],
            degree,
            domain,
            i2,
            j2,
        ) ==> #[trigger] kept_or_covered(prev, cur, w, b2, i2, j2)
}

proof fn lemma_push_keeps(
    prev: Seq<Seq<(u32, u32)>>,
    cur: Seq<Seq<(u32, u32)>>,
    w: Seq<(int, u32, u32)>,
    x: Seq<(u32, u32)>,
    t: (int, u32, u32),
    degree: u32,
    domain: u32,
    at: (int, u32, u32),
)
    requires
        w.len() == cur.len(),
        done_before(prev, cur, w, degree, domain, at),
    ensures
        done_before(prev, cur.push(x), w.push(t), degree, domain, at),
{
    assert forall|b2: int, i2: u32, j2: u32|
        0 <= b2 < prev.len() && before((b2, i2, j2), at) && is_extension(
            prev[b2],
            degree,
            domain,
            i2,
            j2,
        ) implies #[trigger] kept_or_covered(prev, cur.push(x), w.push(t), b2, i2, j2) by {
        assert(0 <= b2 < prev.len() && before((b2, i2, j2), at) && is_extension(
            prev[b2],
            degree,
            domain,
            i2,
            j2,
        ));
        assert(kept_or_covered(prev, cur, w, b2, i2, j2));
        let a = choose|a: int| covers(prev, cur, w, a, b2, i2, j2);
        assert(cur.push(x)[a] == cur[a] && w.push(t)[a] == w[a]);
        assert(covers(prev, cur.push(x), w.push(t), a, b2, i2, j2));
    }
}

/// The invariants of degree `degree` obtained by extending each of `prev`,
/// those of the degree below, by one pair, one representative kept for each
/// isomorphism class, the first generated.
pub fn extend_level(prev: &Vec<Invariant2d>, degree: u32, domain_size: u32) -> (r: Vec<
    Invariant2d,
>)
    requires
        degree <= MAX_PAIRS,
        forall|b: int| 0 <= b < prev.len() ==> (#[trigger] prev@[b])@.len() < degree,
    ensures
        extends(views(prev@), views(r@), degree, domain_size),
        forall|a: int| 0 <= a < r.len() ==> (#[trigger] r@[a])@.len() <= degree,
{
    let ghost pv = views(prev@);
    let ghost mut w: Seq<(int, u32, u32)> = Seq::empty();
    let limit: u64 = if (domain_size as u64) < 2 * (degree as u64) {
        domain_size as u64
    } else {
        2 * (degree as u64)
    };
    let mut cur: Vec<Invariant2d> = Vec::new();
    let mut b: usize = 0;
    while b < prev.len()
        invariant
            pv == views(prev@),
            degree <= MAX_PAIRS,
            forall|c: int| 0 <= c < prev.len() ==> (#[trigger] prev@[c])@.len() < degree,
            limit == if (domain_size as nat) < 2 * (degree as nat) {
                domain_size as nat
            } else {
                2 * (degree as nat)
            },
            0 <= b <= prev.len(),
            generated_by(pv, views(cur@), w, degree, domain_size),
            forall|a: int| 0 <= a < w.len() ==> before(#[trigger] w[a], (b as int, 0u32, 0u32)),
            pairwise_distinct(views(cur@)),
            forall|a: int| 0 <= a < cur.len() ==> (#[trigger] cur@[a])@.len() <= degree,
            done_before(pv, views(cur@), w, degree, domain_size, (b as int, 0u32, 0u32)),
        decreases prev.len() - b,
    {
        let q = &prev[b];
        assert(q@ == pv[b as int]);
        let top = largest_index(&q.pairs()) as u64;
        let wd: u32 = if top + 3 < limit {
            (top + 3) as u32
        } else {
            limit as u32
        };
        assert(wd == window(q@, degree, domain_size));
        let mut i: u32 = 0;
        while i < wd
            invariant
                pv == views(prev@),
                degree <= MAX_PAIRS,
                forall|c: int| 0 <= c < prev.len() ==> (#[trigger] prev@[c])@.len() < degree,
                0 <= b < prev.len(),
                q == &prev@[b as int],
                q@ == pv[b as int],
                wd == window(q@, degree, domain_size),
                i <= wd,
                generated_by(pv, views(cur@), w, degree, domain_size),
                forall|a: int| 0 <= a < w.len() ==> before(#[trigger] w[a], (b as int, i, 0u32)),
                pairwise_distinct(views(cur@)),
                forall|a: int| 0 <= a < cur.len() ==> (#[trigger] cur@[a])@.len() <= degree,
                done_before(pv, views(cur@), w, degree, domain_size, (b as int, i, 0u32)),
            decreases wd - i,
        {
            let mut j: u32 = 0;
            while j < wd
                invariant
                    pv == views(prev@),
                    degree <= MAX_PAIRS,
                    forall|c: int| 0 <= c < prev.len() ==> (#[trigger] prev@[c])@.len() < degree,
                    0 <= b < prev.len(),
                    q == &prev@[b as int],
                    q@ == pv[b as int],
                    wd == window(q@, degree, domain_size),
                    i < wd,
                    j <= wd,
                    generated_by(pv, views(cur@), w, degree, domain_size),
                    forall|a: int| 0 <= a < w.len() ==> before(#[trigger] w[a], (b as int, i, j)),
                    pairwise_distinct(views(cur@)),
                    forall|a: int| 0 <= a < cur.len() ==> (#[trigger] cur@[a])@.len() <= degree,
                    done_before(pv, views(cur@), w, degree, domain_size, (b as int, i, j)),
                decreases wd - j,
            {
                let ghost here: (int, u32, u32) = (b as int, i, j);
                if !q.contains_pair(i, j) {
                    let mut candidate = q.duplicate();
                    candidate.add(i, j);
                    assert(candidate@ == extended(pv[b as int], i, j));
                    assert(is_extension(pv[b as int], degree, domain_size, i, j));
                    if !contains_isomorphic(&cur, &candidate) {
                        let ghost old_cur = views(cur@);
                        let ghost old_w = w;
                        cur.push(candidate);
                        proof {
                            w = w.push(here);
                        }
                        assert(views(cur@) =~= old_cur.push(candidate@));
                        proof {
                            lemma_push_keeps(
                                pv,
                                old_cur,
                                old_w,
                                candidate@,
                                here,
                                degree,
                                domain_size,
                                here,
                            );
                            let nv = views(cur@);
                            assert(nv[old_cur.len() as int] == extended(pv[b as int], i, j));
                            assert forall|a: int| 0 <= a < nv.len() implies 0 <= (#[trigger] w[a]).0
                                < pv.len() && is_extension(
                                pv[w[a].0],
                                degree,
                                domain_size,
                                w[a].1,
                                w[a].2,
                            ) && nv[a] == extended(pv[w[a].0], w[a].1, w[a].2) by {
                                if a < old_cur.len() {
                                    assert(nv[a] == old_cur[a] && w[a] == old_w[a]);
                                }
                            }
                            assert forall|a: int, c: int|
                                0 <= a < c < nv.len() implies before(#[trigger] w[a], #[trigger] w[c]) by {
                                assert(w[a] == old_w[a]);
                                if c < old_cur.len() {
                                    assert(w[c] == old_w[c]);
                                }
                            }
                            assert forall|a: int, c: int|
                                0 <= a < c < nv.len() implies !isomorphic(nv[a], nv[c]) by {
                                if c < old_cur.len() {
                                    assert(nv[a] == old_cur[a] && nv[c] == old_cur[c]);
                                } else {
                                    assert(nv[a] == cur@[a]@);
                                }
                            }
                            assert(w[old_cur.len() as int] == here);
                            assert(covers(pv, nv, w, old_cur.len() as int, b as int, i, j));
                        }
                    } else {
                        proof {
                            let a = choose|a: int|
                                0 <= a < cur.len() && isomorphic(#[trigger] cur@[a]@, candidate@);
                            assert(views(cur@)[a] == cur@[a]@);
                            assert(before(w[a], here));
                            assert(covers(pv, views(cur@), w, a, b as int, i, j));
                        }
                    }
                }
                assert(!is_extension(pv[b as int], degree, domain_size, i, j) || kept_or_covered(
                    pv,
                    views(cur@),
                    w,
                    b as int,
                    i,
                    j,
                ));
                assert(done_before(pv, views(cur@), w, degree, domain_size, here));
                j = j + 1;
                assert forall|b2: int, i2: u32, j2: u32|
                    0 <= b2 < pv.len() && before((b2, i2, j2), (b as int, i, j)) && is_extension(
                        pv[b2],
                        degree,
                        domain_size,
                        i2,
                        j2,
                    ) implies #[trigger] kept_or_covered(pv, views(cur@), w, b2, i2, j2) by {
                    if !before((b2, i2, j2), here) {
                        assert(b2 == b && i2 == i && j2 == j - 1);
                    }
                }
            }
            i = i + 1;
            assert forall|b2: int, i2: u32, j2: u32|
                0 <= b2 < pv.len() && before((b2, i2, j2), (b as int, i, 0u32)) && is_extension(
                    pv[b2],
                    degree,
                    domain_size,
                    i2,
                    j2,
                ) implies #[trigger] kept_or_covered(pv, views(cur@), w, b2, i2, j2) by {
                if !before((b2, i2, j2), (b as int, (i - 1) as u32, wd)) {
                    assert(b2 == b && i2 == i - 1 && j2 >= wd);
                }
            }
        }
        b = b + 1;
        assert forall|b2: int, i2: u32, j2: u32|
            0 <= b2 < pv.len() && before((b2, i2, j2), (b as int, 0u32, 0u32)) && is_extension(
                pv[b2],
                degree,
                domain_size,
                i2,
                j2,
            ) implies #[trigger] kept_or_covered(pv, views(cur@), w, b2, i2, j2) by {
            if !before((b2, i2, j2), (b - 1, wd, 0u32)) {
                assert(b2 == b - 1 && i2 >= wd);
            }
        }
    }
    assert forall|b2: int, i2: u32, j2: u32|
        0 <= b2 < pv.len() && is_extension(pv[b2], degree, domain_size, i2, j2) implies #[trigger] kept_or_covered(
        pv,
        views(cur@),
        w,
        b2,
        i2,
        j2,
    ) by {
        assert(before((b2, i2, j2), (b as int, 0u32, 0u32)));
    }
    assert(generated_by(pv, views(cur@), w, degree, domain_size));
    cur
}

/// The pairwise invariants of degree `degree` over a domain of
/// `domain_size` values, built degree by degree.
pub fn invarient2d(degree: u32, domain_size: u32) -> (r: Vec<Invariant2d>)
    requires
        degree <= MAX_PAIRS,
    ensures
        is_level(degree, domain_size, views(r@)),
        forall|a: int| 0 <= a < r.len() ==> (#[trigger] r@[a])@.len() <= degree,
    decreases degree,
{
    let mut invariants: Vec<Invariant2d> = Vec::new();
    if degree == 0 || domain_size == 0 {
        assert(views(invariants@) =~= Seq::<Seq<(u32, u32)>>::empty());
        return invariants;
    }
    let mut loop_pair: Vec<(u32, u32)> = Vec::new();
    loop_pair.push((0, 0));
    if domain_size == 1 {
        invariants.push(Invariant2d { indices: loop_pair });
        assert(views(invariants@) =~= seq![seq![(0u32, 0u32)]]);
        return invariants;
    }
    if degree == 1 {
        let mut edge_pair: Vec<(u32, u32)> = Vec::new();
        edge_pair.push((0, 1));
        invariants.push(Invariant2d { indices: loop_pair });
        invariants.push(Invariant2d { indices: edge_pair });
        assert(views(invariants@) =~= seq![seq![(0u32, 0u32)], seq![(0u32, 1u32)]]);
        return invariants;
    }
    let prev = invarient2d(degree - 1, domain_size);
    let r = extend_level(&prev, degree, domain_size);
    assert(is_level((degree - 1) as u32, domain_size, views(prev@)) && extends(views(prev@), views(r@), degree, domain_size));
    r
}


/// The domain value of a resolved index.
pub open spec fn constant_of(x: IndexModel) -> u32 {
    match x {
        IndexModel::Constant(c) => c,
        IndexModel::Named(_) => 0,
    }
}

/// The first two slots of every variable of `m` hold domain values.
pub open spec fn pairs_resolved(m: Seq<VariableModel>) -> bool {
    forall|k: int| 0 <= k < m.len() ==> m[k].indices[0] is Constant && m[k].indices[1] is Constant
}

/// The pair formed by the first two slots of each variable.
pub open spec fn monomial_pairs(m: Seq<VariableModel>) -> Seq<(u32, u32)> {
    m.map_values(|v: VariableModel| (constant_of(v.indices[0]), constant_of(v.indices[1])))
}

impl Invariant2d {
    /// The canonical invariant of a monomial of two-index variables whose
    /// slots are resolved; fails when one of them still holds a name.
    pub fn from_monoid(m: &Monoid) -> (r: Result<Invariant2d, PolyError>)
        requires
            m@.len() <= MAX_PAIRS,
            forall|k: int| 0 <= k < m@.len() ==> #[trigger] m@[k].indices.len() >= 2,
        ensures
            match r {
                Ok(inv) => pairs_resolved(m@) && inv@ == canonical_pairs(monomial_pairs(m@)),
                Err(e) => e == PolyError::UnresolvedIndex && !pairs_resolved(m@),
            },
    {
        let mut pairs: Vec<(u32, u32)> = Vec::new();
        let mut k: usize = 0;
        while k < m.variables.len()
            invariant
                m@.len() <= MAX_PAIRS,
                forall|l: int| 0 <= l < m@.len() ==> #[trigger] m@[l].indices.len() >= 2,
                0 <= k <= m.variables.len(),
                pairs@ == monomial_pairs(m@.take(k as int)),
                pairs_resolved(m@.take(k as int)),
            decreases m.variables.len() - k,
        {
            let var = &m.variables[k];
            assert(var@ == m@[k as int]);
            assert(m@[k as int].indices.len() >= 2);
            assert(var.indices@[0]@ == m@[k as int].indices[0]);
            assert(var.indices@[1]@ == m@[k as int].indices[1]);
            let i = match &var.indices[0] {
                Index::Constant(c) => *c,
                Index::Named(_) => {
                    assert(!(m@[k as int].indices[0] is Constant));
                    return Err(PolyError::UnresolvedIndex);
                },
            };
            let j = match &var.indices[1] {
                Index::Constant(c) => *c,
                Index::Named(_) => {
                    assert(!(m@[k as int].indices[1] is Constant));
                    return Err(PolyError::UnresolvedIndex);
                },
            };
            pairs.push((i, j));
            assert(m@.take(k + 1) =~= m@.take(k as int).push(m@[k as int]));
            assert(pairs@ =~= monomial_pairs(m@.take(k + 1)));
            k = k + 1;
        }
        assert(m@.take(k as int) =~= m@);
        Ok(Invariant2d::from_pairs(&pairs))
    }
}


/// The pairs as edges between nodes.
pub open spec fn node_edges(p: Seq<(u32, u32)>) -> Seq<(usize, usize)> {
    p.map_values(|e: (u32, u32)| (e.0 as usize, e.1 as usize))
}

/// The number of nodes of the graph of `p`: one more than its largest index,
/// none for no pairs.
pub open spec fn node_count_of(p: Seq<(u32, u32)>) -> nat {
    if p.len() == 0 {
        0
    } else {
        max_index(p) + 1
    }
}

proof fn lemma_max_index_covers(p: Seq<(u32, u32)>, k: int)
    requires
        0 <= k < p.len(),
    ensures
        p[k].0 <= max_index(p) && p[k].1 <= max_index(p),
    decreases p.len(),
{
    if k < p.len() - 1 {
        lemma_max_index_covers(p.drop_last(), k);
    }
}

impl Invariant2d {
    /// The colour-refinement histogram of the directed graph of the pairs.
    pub fn colours(&self) -> (r: HashMap<u64, u64>)
        ensures
            is_histogram(
                r@,
                refine(
                    initial_labels(node_count_of(self@)),
                    node_edges(self@),
                    if node_count_of(self@) == 0 {
                        0
                    } else {
                        (node_count_of(self@) - 1) as nat
                    },
                ),
            ),
    {
        proof {
            use_type_invariant(self);
            lemma_max_index_bound(self@, 2 * self@.len());
        }
        let node_count: usize = if self.indices.len() == 0 {
            0
        } else {
            largest_index(&self.indices) as usize + 1
        };
        let mut edges: Vec<(usize, usize)> = Vec::new();
        let mut k: usize = 0;
        while k < self.indices.len()
            invariant
                0 <= k <= self.indices.len(),
                node_count == node_count_of(self@),
                edges@ == node_edges(self@.take(k as int)),
                edges_within(edges@, node_count as nat),
            decreases self.indices.len() - k,
        {
            let (i, j) = self.indices[k];
            proof {
                lemma_max_index_covers(self@, k as int);
            }
            edges.push((i as usize, j as usize));
            k = k + 1;
            assert(edges@ =~= node_edges(self@.take(k as int)));
        }
        assert(self@.take(k as int) =~= self@);
        invariants(&Digraph { node_count, edges })
    }
}

} // verus!
