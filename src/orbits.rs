//! Orbit classes of multilinear monomials: every template of a given degree
//! and number of indices per variable is built from the free names
//! `i_0, i_1, ...`, and the distinct non-empty orbits are kept.

use itertools::Itertools;
use vstd::prelude::*;

use crate::polynom::{
    Index, IndexModel, Monoid, Variable, VariableModel, contains_monomial, in_orbit, is_relabeling,
    multilinear, same_monomial, subst_monomial,
};

verus! {

/// Some monomial of `b` is equivalent to `x`.
pub open spec fn has_equivalent(b: Seq<Monoid>, x: Seq<VariableModel>) -> bool {
    exists|j: int| 0 <= j < b.len() && same_monomial(#[trigger] b[j]@, x)
}

/// Every monomial of `a` is equivalent to one of `b`.
pub open spec fn orbit_within(a: Seq<Monoid>, b: Seq<Monoid>) -> bool {
    forall|i: int| 0 <= i < a.len() ==> has_equivalent(b, #[trigger] a[i]@)
}

/// `a` and `b` hold the same monomials.
pub open spec fn same_orbit(a: Seq<Monoid>, b: Seq<Monoid>) -> bool {
    orbit_within(a, b) && orbit_within(b, a)
}

/// `o` is the orbit of `t` over `0..n`: its members are in the orbit, every
/// relabeling of `t` is represented, and no monomial is represented twice.
pub open spec fn is_orbit(t: Seq<VariableModel>, n: u32, o: Seq<Monoid>) -> bool {
    &&& forall|i: int| 0 <= i < o.len() ==> in_orbit(t, n, #[trigger] o[i]@)
    &&& forall|f: Map<Seq<char>, u32>|
        is_relabeling(t, f, n) ==> #[trigger] has_equivalent(o, subst_monomial(t, f))
    &&& forall|i: int, j: int|
        0 <= i < j < o.len() ==> !same_monomial(#[trigger] o[i]@, #[trigger] o[j]@)
}

proof fn lemma_orbits_agree(t: Seq<VariableModel>, n: u32, a: Seq<Monoid>, b: Seq<Monoid>)
    requires
        is_orbit(t, n, a),
        is_orbit(t, n, b),
    ensures
        orbit_within(a, b),
        a.len() > 0 ==> b.len() > 0,
{
    assert forall|i: int| 0 <= i < a.len() implies has_equivalent(b, #[trigger] a[i]@) by {
        assert(in_orbit(t, n, a[i]@));
        let f = choose|f: Map<Seq<char>, u32>|
            is_relabeling(t, f, n) && same_monomial(a[i]@, subst_monomial(t, f));
        let s = subst_monomial(t, f);
        assert(has_equivalent(b, s));
        let j = choose|j: int| 0 <= j < b.len() && same_monomial(#[trigger] b[j]@, s);
        assert(same_monomial(b[j]@, a[i]@));
    }
    if a.len() > 0 {
        assert(in_orbit(t, n, a[0]@));
        let f = choose|f: Map<Seq<char>, u32>|
            is_relabeling(t, f, n) && same_monomial(a[0]@, subst_monomial(t, f));
        assert(has_equivalent(b, subst_monomial(t, f)));
    }
}

proof fn lemma_within_trans(a: Seq<Monoid>, b: Seq<Monoid>, c: Seq<Monoid>)
    requires
        orbit_within(a, b),
        orbit_within(b, c),
    ensures
        orbit_within(a, c),
{
    assert forall|i: int| 0 <= i < a.len() implies has_equivalent(c, #[trigger] a[i]@) by {
        assert(has_equivalent(b, a[i]@));
        let k = choose|k: int| 0 <= k < b.len() && same_monomial(#[trigger] b[k]@, a[i]@);
        assert(has_equivalent(c, b[k]@));
        let j = choose|j: int| 0 <= j < c.len() && same_monomial(#[trigger] c[j]@, b[k]@);
        assert(same_monomial(c[j]@, a[i]@));
    }
}

/// The name of the free index numbered `k`.
pub uninterp spec fn index_name_of(k: u32) -> Seq<char>;

/// The symbol of the variables of a template.
pub open spec fn term_name() -> Seq<char> {
    seq!['x']
}

/// `choice` picks, for each of `count` slots, one of `count` free names.
pub open spec fn choice_ok(choice: Seq<u32>, count: nat) -> bool {
    choice.len() == count && forall|k: int| 0 <= k < choice.len() ==> choice[k] < count
}

/// The template of `degree` variables of `m` slots each whose slots hold the
/// names that `choice` picks, in order.
pub open spec fn template_of(choice: Seq<u32>, degree: nat, m: nat) -> Seq<VariableModel> {
    Seq::new(
        degree,
        |v: int|
            VariableModel {
                name: term_name(),
                indices: Seq::new(m, |l: int| IndexModel::Named(index_name_of(choice[v * m + l]))),
            },
    )
}

/// Relies on `format!`: the free index numbered `k` is written `i_k`, `k`
/// in decimal digits, so distinct numbers give distinct names.
#[verifier::external_body]
fn index_name(k: u32) -> (r: String)
    ensures
        r@ == index_name_of(k),
        forall|j: u32| j != k ==> r@ != index_name_of(j),
{
    format!("i_{k}")
}

/// Relies on `itertools::Itertools::multi_cartesian_product` over `count`
/// copies of `0..count`: every sequence of `count` values below `count`,
/// and nothing else.
#[verifier::external_body]
fn all_choices(count: u32) -> (r: Vec<Vec<u32>>)
    ensures
        forall|i: int| 0 <= i < r.len() ==> choice_ok(#[trigger] r@[i]@, count as nat),
        forall|c: Seq<u32>| choice_ok(c, count as nat) ==> exists|i: int|
            0 <= i < r.len() && #[trigger] r@[i]@ == c,
{
    (0..count).map(|_| 0..count).multi_cartesian_product().collect()
}

/// Whether every monomial of `a` is equivalent to one of `b`.
fn within(a: &Vec<Monoid>, b: &Vec<Monoid>) -> (r: bool)
    ensures
        r == orbit_within(a@, b@),
{
    let mut k: usize = 0;
    while k < a.len()
        invariant
            0 <= k <= a.len(),
            forall|i: int| 0 <= i < k ==> has_equivalent(b@, #[trigger] a@[i]@),
        decreases a.len() - k,
    {
        if !contains_monomial(b, &a[k]) {
            assert(!has_equivalent(b@, a@[k as int]@));
            return false;
        }
        k = k + 1;
    }
    true
}

/// Whether some class of `classes` holds the same monomials as `o`.
fn contains_orbit(classes: &Vec<Vec<Monoid>>, o: &Vec<Monoid>) -> (r: bool)
    ensures
        r == exists|c: int|
            0 <= c < classes.len() && same_orbit(#[trigger] classes@[c]@, o@),
{
    let mut k: usize = 0;
    while k < classes.len()
        invariant
            0 <= k <= classes.len(),
            forall|c: int|
                0 <= c < k ==> !same_orbit(#[trigger] classes@[c]@, o@),
        decreases classes.len() - k,
    {
        if within(&classes[k], o) && within(o, &classes[k]) {
            return true;
        }
        k = k + 1;
    }
    false
}

/// The template whose slots hold the names that `choice` picks.
fn build_template(names: &Vec<String>, choice: &Vec<u32>, degree: u32, num_variables: u32) -> (r: Monoid)
    requires
        degree as nat * num_variables as nat <= u32::MAX,
        names.len() == degree * num_variables,
        forall|l: int| 0 <= l < names.len() ==> (#[trigger] names@[l])@ == index_name_of(l as u32),
        choice_ok(choice@, (degree * num_variables) as nat),
    ensures
        r@ == template_of(choice@, degree as nat, num_variables as nat),
{
    let ghost t = template_of(choice@, degree as nat, num_variables as nat);
    let count = degree * num_variables;
    let mut variables: Vec<Variable> = Vec::new();
    let mut v: u32 = 0;
    while v < degree
        invariant
            count == degree * num_variables,
            names.len() == count,
            forall|l: int| 0 <= l < count ==> (#[trigger] names@[l])@ == index_name_of(l as u32),
            choice_ok(choice@, count as nat),
            t == template_of(choice@, degree as nat, num_variables as nat),
            0 <= v <= degree,
            variables.len() == v,
            forall|a: int| 0 <= a < v ==> (#[trigger] variables@[a])@ == t[a],
        decreases degree - v,
    {
        let mut indices: Vec<Index> = Vec::new();
        let mut l: u32 = 0;
        while l < num_variables
            invariant
                count == degree * num_variables,
                names.len() == count,
                forall|l2: int| 0 <= l2 < count ==> (#[trigger] names@[l2])@ == index_name_of(l2 as u32),
                choice_ok(choice@, count as nat),
                t == template_of(choice@, degree as nat, num_variables as nat),
                0 <= v < degree,
                0 <= l <= num_variables,
                indices.len() == l,
                forall|b: int| 0 <= b < l ==> (#[trigger] indices@[b])@ == IndexModel::Named(
                    index_name_of(choice@[v * num_variables + b]),
                ),
            decreases num_variables - l,
        {
            proof {
                assert(v * num_variables + l < count) by (nonlinear_arith)
                    requires v < degree, l < num_variables, count == degree * num_variables;
            }
            let slot = (v * num_variables + l) as usize;
            let which = choice[slot] as usize;
            assert(names@[which as int]@ == index_name_of(choice@[slot as int]));
            indices.push(Index::Named(names[which].clone()));
            l = l + 1;
        }
        let name = "x".to_owned();
        proof {
            reveal_strlit("x");
        }
        let var = Variable::new(name, indices);
        assert(var@.indices =~= t[v as int].indices);
        assert(var@.name =~= term_name());
        variables.push(var);
        v = v + 1;
    }
    let template = Monoid { variables };
    assert(template@ =~= t);
    template
}

/// The orbit classes of the multilinear monomials of `degree` variables
/// named `x` with `num_variables` slots each, over a domain of
/// `domain_size` values: one class per distinct non-empty orbit, in the order
/// in which the templates are met.
pub fn enumerate_invariants(degree: u32, num_variables: u32, domain_size: u32) -> (r: Vec<Vec<Monoid>>)
    requires
        degree as nat * num_variables as nat <= u32::MAX,
    ensures
        forall|c: int| 0 <= c < r.len() ==> #[trigger] r@[c].len() > 0 && exists|choice: Seq<u32>|
            choice_ok(choice, (degree * num_variables) as nat)
                && multilinear(template_of(choice, degree as nat, num_variables as nat))
                && is_orbit(template_of(choice, degree as nat, num_variables as nat), domain_size, r@[c]@),
        forall|choice: Seq<u32>, o: Seq<Monoid>|
            choice_ok(choice, (degree * num_variables) as nat) && multilinear(
                template_of(choice, degree as nat, num_variables as nat),
            ) && #[trigger] is_orbit(
                template_of(choice, degree as nat, num_variables as nat),
                domain_size,
                o,
            ) && o.len() > 0 ==> exists|c: int| 0 <= c < r.len() && same_orbit(#[trigger] r@[c]@, o),
        forall|a: int, b: int|
            0 <= a < b < r.len() ==> !same_orbit(#[trigger] r@[a]@, #[trigger] r@[b]@),
{
    let count: u32 = degree * num_variables;
    let mut names: Vec<String> = Vec::new();
    let mut k: u32 = 0;
    while k < count
        invariant
            0 <= k <= count,
            names.len() == k,
            forall|l: int| 0 <= l < k ==> (#[trigger] names@[l])@ == index_name_of(l as u32),
        decreases count - k,
    {
        names.push(index_name(k));
        k = k + 1;
    }
    let choices = all_choices(count);
    let mut classes: Vec<Vec<Monoid>> = Vec::new();
    let mut q: usize = 0;
    while q < choices.len()
        invariant
            count == degree * num_variables,
            names.len() == count,
            forall|l: int| 0 <= l < count ==> (#[trigger] names@[l])@ == index_name_of(l as u32),
            forall|i: int| 0 <= i < choices.len() ==> choice_ok(#[trigger] choices@[i]@, count as nat),
            0 <= q <= choices.len(),
            forall|c: int| 0 <= c < classes.len() ==> #[trigger] classes@[c].len() > 0 && exists|choice: Seq<u32>|
                choice_ok(choice, count as nat)
                    && multilinear(template_of(choice, degree as nat, num_variables as nat))
                    && is_orbit(template_of(choice, degree as nat, num_variables as nat), domain_size, classes@[c]@),
            forall|a: int, b: int|
                0 <= a < b < classes.len() ==> !same_orbit(#[trigger] classes@[a]@, #[trigger] classes@[b]@),
            forall|p: int, o: Seq<Monoid>|
                0 <= p < q && multilinear(template_of(choices@[p]@, degree as nat, num_variables as nat))
                    && #[trigger] is_orbit(
                    template_of(#[trigger] choices@[p]@, degree as nat, num_variables as nat),
                    domain_size,
                    o,
                ) && o.len() > 0 ==> exists|c: int|
                    0 <= c < classes.len() && same_orbit(#[trigger] classes@[c]@, o),
        decreases choices.len() - q,
    {
        let choice = &choices[q];
        let ghost t = template_of(choice@, degree as nat, num_variables as nat);
        assert(choice_ok(choice@, count as nat));
        let template = build_template(&names, choice, degree, num_variables);
        let ghost old_classes = classes@;
        let ghost mut ghost_orbit: Seq<Monoid> = Seq::empty();
        let ml = template.is_multilinear();
        if ml {
            assert(multilinear(t));
            let orbit = template.orbital(domain_size);
            assert(is_orbit(t, domain_size, orbit@));
            proof {
                ghost_orbit = orbit@;
            }
            if orbit.len() > 0 && !contains_orbit(&classes, &orbit) {
                classes.push(orbit);
                proof {
                    assert(classes@[old_classes.len() as int] == orbit);
                    assert forall|c: int| 0 <= c < classes.len() implies #[trigger] classes@[c].len() > 0 && exists|choice: Seq<u32>|
                        choice_ok(choice, count as nat)
                            && multilinear(template_of(choice, degree as nat, num_variables as nat))
                            && is_orbit(template_of(choice, degree as nat, num_variables as nat), domain_size, classes@[c]@) by {
                        if c < old_classes.len() {
                            assert(classes@[c] == old_classes[c]);
                        } else {
                            assert(is_orbit(t, domain_size, classes@[c]@));
                        }
                    }
                    assert forall|a: int, b: int|
                        0 <= a < b < classes.len() implies !same_orbit(#[trigger] classes@[a]@, #[trigger] classes@[b]@) by {
                        assert(classes@[a] == old_classes[a]);
                        if b < old_classes.len() {
                            assert(classes@[b] == old_classes[b]);
                        }
                    }
                }
            }
        }
        proof {
            assert forall|p: int, o: Seq<Monoid>|
                0 <= p < q + 1 && multilinear(template_of(choices@[p]@, degree as nat, num_variables as nat))
                    && #[trigger] is_orbit(
                    template_of(#[trigger] choices@[p]@, degree as nat, num_variables as nat),
                    domain_size,
                    o,
                ) && o.len() > 0 implies exists|c: int|
                    0 <= c < classes.len() && same_orbit(#[trigger] classes@[c]@, o) by {
                if p < q {
                    assert(exists|c: int| 0 <= c < old_classes.len() && same_orbit(#[trigger] old_classes[c]@, o));
                    let c = choose|c: int| 0 <= c < old_classes.len() && same_orbit(#[trigger] old_classes[c]@, o);
                    assert(classes@[c] == old_classes[c]);
                } else {
                    assert(choices@[p] == choices@[q as int]);
                    assert(ml);
                    lemma_orbits_agree(t, domain_size, o, ghost_orbit);
                    lemma_orbits_agree(t, domain_size, ghost_orbit, o);
                    if classes@.len() > old_classes.len() {
                        assert(classes@[old_classes.len() as int]@ == ghost_orbit);
                        assert(same_orbit(classes@[old_classes.len() as int]@, o));
                    } else {
                        let c = choose|c: int| 0 <= c < classes.len() && same_orbit(#[trigger] classes@[c]@, ghost_orbit);
                        lemma_within_trans(classes@[c]@, ghost_orbit, o);
                        lemma_within_trans(o, ghost_orbit, classes@[c]@);
                    }
                }
            }
        }
        q = q + 1;
    }
    proof {
        assert forall|choice: Seq<u32>, o: Seq<Monoid>|
            choice_ok(choice, (degree * num_variables) as nat) && multilinear(
                template_of(choice, degree as nat, num_variables as nat),
            ) && #[trigger] is_orbit(
                template_of(choice, degree as nat, num_variables as nat),
                domain_size,
                o,
            ) && o.len() > 0 implies exists|c: int| 0 <= c < classes.len() && same_orbit(#[trigger] classes@[c]@, o) by {
            let p = choose|p: int| 0 <= p < choices.len() && #[trigger] choices@[p]@ == choice;
        }
    }
    classes
}

} // verus!
