//! Indices, variables and monomials, substitution of named indices, and the
//! orbit of a monomial under injective relabellings of its named indices.

use itertools::Itertools;
use vstd::prelude::*;

verus! {

/// One slot of a variable: a free name or an already resolved domain value.
#[derive(Debug, Clone, Hash, PartialEq, Eq, PartialOrd, Ord)]
pub enum Index {
    Named(String),
    Constant(u32),
}

/// A symbol with an ordered sequence of index slots.
#[derive(Debug, Clone, Hash, PartialEq, Eq, PartialOrd, Ord)]
pub struct Variable {
    pub name: String,
    pub indices: Vec<Index>,
}

/// A product of variables, kept sorted; the order of its variables carries no meaning.
#[derive(Debug, Clone, Hash)]
pub struct Monoid {
    pub variables: Vec<Variable>,
}

/// Errors of substitution.
#[derive(Debug, Clone, Copy, PartialEq, Eq)]
pub enum PolyError {
    /// A named index had no value in the assignment.
    UnresolvedIndex,
}

/// Mathematical value of an `Index`.
pub enum IndexModel {
    Named(Seq<char>),
    Constant(u32),
}

/// Mathematical value of a `Variable`.
pub struct VariableModel {
    pub name: Seq<char>,
    pub indices: Seq<IndexModel>,
}

impl View for Index {
    type V = IndexModel;

    open spec fn view(&self) -> IndexModel {
        match self {
            Index::Named(s) => IndexModel::Named(s@),
            Index::Constant(c) => IndexModel::Constant(*c),
        }
    }
}

impl View for Variable {
    type V = VariableModel;

    open spec fn view(&self) -> VariableModel {
        VariableModel { name: self.name@, indices: self.indices@.map_values(|i: Index| i@) }
    }
}

/// The models of a sequence of variables.
pub open spec fn models(s: Seq<Variable>) -> Seq<VariableModel> {
    s.map_values(|v: Variable| v@)
}

impl View for Monoid {
    type V = Seq<VariableModel>;

    open spec fn view(&self) -> Seq<VariableModel> {
        models(self.variables@)
    }
}

/// Monomial equality: each variable of one occurs in the other, without regard
/// to multiplicity.
pub open spec fn same_monomial(a: Seq<VariableModel>, b: Seq<VariableModel>) -> bool {
    a.to_set() == b.to_set()
}

/// No variable occurs twice.
pub open spec fn multilinear(m: Seq<VariableModel>) -> bool {
    forall|i: int, j: int| 0 <= i < j < m.len() ==> m[i] != m[j]
}

fn same_index(a: &Index, b: &Index) -> (r: bool)
    ensures
        r == (a@ == b@),
{
    match a {
        Index::Named(x) => match b {
            Index::Named(y) => {
                let r = *x == *y;
                assert(r == (x@ == y@));
                r
            },
            Index::Constant(_) => false,
        },
        Index::Constant(x) => match b {
            Index::Named(_) => false,
            Index::Constant(y) => *x == *y,
        },
    }
}

impl Variable {
    /// Builds a variable from its name and its index slots.
    pub fn new(name: String, indices: Vec<Index>) -> (r: Variable)
        ensures
            r.name == name,
            r.indices == indices,
    {
        Variable { name, indices }
    }

    /// Whether two variables have the same name and the same index sequence.
    pub fn same(&self, other: &Variable) -> (r: bool)
        ensures
            r == (self@ == other@),
    {
        if !(self.name == other.name) {
            return false;
        }
        if self.indices.len() != other.indices.len() {
            assert(self@.indices.len() != other@.indices.len());
            return false;
        }
        let mut k: usize = 0;
        while k < self.indices.len()
            invariant
                self.indices.len() == other.indices.len(),
                self.name@ == other.name@,
                0 <= k <= self.indices.len(),
                forall|l: int| 0 <= l < k ==> self.indices@[l]@ == other.indices@[l]@,
            decreases self.indices.len() - k,
        {
            if !same_index(&self.indices[k], &other.indices[k]) {
                assert(self@.indices[k as int] != other@.indices[k as int]);
                return false;
            }
            k = k + 1;
        }
        assert(self@.indices =~= other@.indices);
        true
    }
}

/// Whether `v` occurs in `s`.
fn contains_variable(s: &Vec<Variable>, v: &Variable) -> (r: bool)
    ensures
        r == models(s@).contains(v@),
{
    let mut k: usize = 0;
    while k < s.len()
        invariant
            0 <= k <= s.len(),
            forall|l: int| 0 <= l < k ==> s@[l]@ != v@,
        decreases s.len() - k,
    {
        if s[k].same(v) {
            assert(models(s@)[k as int] == v@);
            return true;
        }
        k = k + 1;
    }
    assert(!models(s@).contains(v@)) by {
        assert(forall|l: int| 0 <= l < s.len() ==> models(s@)[l] != v@);
    }
    false
}

impl Monoid {
    /// Whether no variable occurs twice.
    pub fn is_multilinear(&self) -> (r: bool)
        ensures
            r == multilinear(self@),
    {
        let n = self.variables.len();
        let mut i: usize = 0;
        while i < n
            invariant
                n == self.variables.len(),
                0 <= i <= n,
                forall|a: int, b: int| 0 <= a < i && a < b < n ==> self@[a] != self@[b],
            decreases n - i,
        {
            let mut j: usize = i + 1;
            while j < n
                invariant
                    n == self.variables.len(),
                    0 <= i < n,
                    i + 1 <= j <= n,
                    forall|a: int, b: int| 0 <= a < i && a < b < n ==> self@[a] != self@[b],
                    forall|b: int| i < b < j ==> self@[i as int] != self@[b],
                decreases n - j,
            {
                if self.variables[i].same(&self.variables[j]) {
                    assert(self@[i as int] == self@[j as int]);
                    return false;
                }
                j = j + 1;
            }
            i = i + 1;
        }
        true
    }
}


/// The value an assignment gives to `name`: its first entry with that name.
pub open spec fn lookup(a: Seq<(String, u32)>, name: Seq<char>) -> Option<u32>
    decreases a.len(),
{
    if a.len() == 0 {
        None
    } else if a[0].0@ == name {
        Some(a[0].1)
    } else {
        lookup(a.drop_first(), name)
    }
}

/// An assignment as a map from names to domain values.
pub open spec fn assignment_map(a: Seq<(String, u32)>) -> Map<Seq<char>, u32> {
    Map::new(|n: Seq<char>| lookup(a, n) is Some, |n: Seq<char>| lookup(a, n)->Some_0)
}

/// Whether `x` has a value under `f`.
pub open spec fn index_resolves(x: IndexModel, f: Map<Seq<char>, u32>) -> bool {
    match x {
        IndexModel::Named(n) => f.contains_key(n),
        IndexModel::Constant(_) => true,
    }
}

/// `x` with its name, if it has one, replaced by its value under `f`.
pub open spec fn subst_index(x: IndexModel, f: Map<Seq<char>, u32>) -> IndexModel {
    match x {
        IndexModel::Named(n) => IndexModel::Constant(f[n]),
        IndexModel::Constant(c) => IndexModel::Constant(c),
    }
}

pub open spec fn variable_resolves(v: VariableModel, f: Map<Seq<char>, u32>) -> bool {
    forall|k: int| 0 <= k < v.indices.len() ==> index_resolves(v.indices[k], f)
}

pub open spec fn subst_variable(v: VariableModel, f: Map<Seq<char>, u32>) -> VariableModel {
    VariableModel { name: v.name, indices: v.indices.map_values(|x: IndexModel| subst_index(x, f)) }
}

pub open spec fn monomial_resolves(m: Seq<VariableModel>, f: Map<Seq<char>, u32>) -> bool {
    forall|k: int| 0 <= k < m.len() ==> variable_resolves(m[k], f)
}

pub open spec fn subst_monomial(m: Seq<VariableModel>, f: Map<Seq<char>, u32>) -> Seq<VariableModel> {
    m.map_values(|v: VariableModel| subst_variable(v, f))
}

/// Whether `name` stands in some slot of `m`.
pub open spec fn named_in(m: Seq<VariableModel>, name: Seq<char>) -> bool {
    exists|k: int, l: int|
        0 <= k < m.len() && 0 <= l < m[k].indices.len() && m[k].indices[l]
            == IndexModel::Named(name)
}

proof fn lemma_lookup_suffix(a: Seq<(String, u32)>, i: int, name: Seq<char>)
    requires
        0 <= i < a.len(),
        forall|l: int| 0 <= l < i ==> a[l].0@ != name,
    ensures
        lookup(a, name) == lookup(a.subrange(i, a.len() as int), name),
    decreases i,
{
    if i > 0 {
        let b = a.drop_first();
        assert(forall|l: int| 0 <= l < i - 1 ==> b[l] == a[l + 1]);
        lemma_lookup_suffix(b, i - 1, name);
        assert(b.subrange(i - 1, b.len() as int) =~= a.subrange(i, a.len() as int));
    } else {
        assert(a.subrange(0, a.len() as int) =~= a);
    }
}

proof fn lemma_lookup_absent(a: Seq<(String, u32)>, name: Seq<char>)
    requires
        forall|l: int| 0 <= l < a.len() ==> a[l].0@ != name,
    ensures
        lookup(a, name) is None,
    decreases a.len(),
{
    if a.len() > 0 {
        let b = a.drop_first();
        assert(forall|l: int| 0 <= l < b.len() ==> b[l] == a[l + 1]);
        lemma_lookup_absent(b, name);
    }
}

/// The value that `assignment` gives to `name`.
fn find_value(assignment: &Vec<(String, u32)>, name: &String) -> (r: Option<u32>)
    ensures
        r == lookup(assignment@, name@),
{
    let mut k: usize = 0;
    while k < assignment.len()
        invariant
            0 <= k <= assignment.len(),
            forall|l: int| 0 <= l < k ==> assignment@[l].0@ != name@,
        decreases assignment.len() - k,
    {
        if assignment[k].0 == *name {
            proof {
                lemma_lookup_suffix(assignment@, k as int, name@);
                let t = assignment@.subrange(k as int, assignment@.len() as int);
                assert(t[0] == assignment@[k as int]);
            }
            return Some(assignment[k].1);
        }
        k = k + 1;
    }
    proof {
        lemma_lookup_absent(assignment@, name@);
    }
    None
}

impl Variable {
    /// Replaces every named index by its value under `assignment`; fails when
    /// a named index has none.
    pub fn eval(&self, assignment: &Vec<(String, u32)>) -> (r: Result<Variable, PolyError>)
        ensures
            match r {
                Ok(v) => variable_resolves(self@, assignment_map(assignment@)) && v@
                    == subst_variable(self@, assignment_map(assignment@)),
                Err(e) => e == PolyError::UnresolvedIndex && !variable_resolves(
                    self@,
                    assignment_map(assignment@),
                ),
            },
    {
        let ghost f = assignment_map(assignment@);
        let mut indices: Vec<Index> = Vec::new();
        let mut k: usize = 0;
        while k < self.indices.len()
            invariant
                0 <= k <= self.indices.len(),
                f == assignment_map(assignment@),
                indices.len() == k,
                forall|l: int| 0 <= l < k ==> index_resolves(self@.indices[l], f),
                forall|l: int| 0 <= l < k ==> indices@[l]@ == subst_index(self@.indices[l], f),
            decreases self.indices.len() - k,
        {
            match &self.indices[k] {
                Index::Named(name) => {
                    match find_value(assignment, name) {
                        Some(c) => {
                            indices.push(Index::Constant(c));
                        },
                        None => {
                            assert(!index_resolves(self@.indices[k as int], f));
                            return Err(PolyError::UnresolvedIndex);
                        },
                    }
                },
                Index::Constant(c) => {
                    indices.push(Index::Constant(*c));
                },
            }
            k = k + 1;
        }
        let r = Variable { name: self.name.clone(), indices };
        assert(r@.indices =~= subst_variable(self@, f).indices);
        Ok(r)
    }
}

/// Relies on `slice::sort`: the result holds the same variables, reordered.
#[verifier::external_body]
fn sort_variables(v: Vec<Variable>) -> (r: Vec<Variable>)
    ensures
        models(r@).to_multiset() == models(v@).to_multiset(),
{
    let mut v = v;
    v.sort();
    v
}

impl PartialEq for Monoid {
    fn eq(&self, other: &Monoid) -> (r: bool) {
        self.equivalent(other)
    }
}

impl vstd::std_specs::cmp::PartialEqSpecImpl for Monoid {
    open spec fn obeys_eq_spec() -> bool {
        true
    }

    open spec fn eq_spec(&self, other: &Monoid) -> bool {
        same_monomial(self@, other@)
    }
}

impl Eq for Monoid {

}

proof fn lemma_same_monomial(a: Seq<VariableModel>, b: Seq<VariableModel>)
    requires
        forall|k: int| 0 <= k < a.len() ==> b.contains(a[k]),
        forall|k: int| 0 <= k < b.len() ==> a.contains(b[k]),
    ensures
        same_monomial(a, b),
{
    assert(a.to_set() =~= b.to_set());
}

proof fn lemma_multiset_same(a: Seq<VariableModel>, b: Seq<VariableModel>)
    requires
        a.to_multiset() == b.to_multiset(),
    ensures
        same_monomial(a, b),
{
    broadcast use vstd::seq_lib::to_multiset_contains;

    assert forall|x: VariableModel| a.contains(x) <==> b.contains(x) by {
        assert(a.contains(x) <==> a.to_multiset().contains(x));
        assert(b.contains(x) <==> b.to_multiset().contains(x));
    }
    assert(a.to_set() =~= b.to_set());
}

impl Monoid {
    /// The monomial of the given variables, sorted.
    pub fn from_variables(variables: Vec<Variable>) -> (r: Monoid)
        ensures
            r@.to_multiset() == models(variables@).to_multiset(),
    {
        Monoid { variables: sort_variables(variables) }
    }

    /// Whether every variable of `self` occurs in `other`.
    pub fn contained_in(&self, other: &Monoid) -> (r: bool)
        ensures
            r == (forall|k: int| 0 <= k < self@.len() ==> other@.contains(self@[k])),
    {
        let mut k: usize = 0;
        while k < self.variables.len()
            invariant
                0 <= k <= self.variables.len(),
                forall|l: int| 0 <= l < k ==> other@.contains(self@[l]),
            decreases self.variables.len() - k,
        {
            assert(self@[k as int] == self.variables@[k as int]@);
            if !contains_variable(&other.variables, &self.variables[k]) {
                return false;
            }
            k = k + 1;
        }
        true
    }

    /// Whether the two monomials hold the same variables, multiplicity aside.
    pub fn equivalent(&self, other: &Monoid) -> (r: bool)
        ensures
            r == same_monomial(self@, other@),
    {
        let a = self.contained_in(other);
        let b = other.contained_in(self);
        if a && b {
            proof {
                lemma_same_monomial(self@, other@);
            }
            true
        } else {
            proof {
                if !a {
                    let k = choose|k: int| 0 <= k < self@.len() && !other@.contains(self@[k]);
                    assert(self@.to_set().contains(self@[k]));
                } else {
                    let k = choose|k: int| 0 <= k < other@.len() && !self@.contains(other@[k]);
                    assert(other@.to_set().contains(other@[k]));
                }
            }
            false
        }
    }

    /// Applies `assignment` to every variable and sorts the result; fails when
    /// a named index has no value.
    pub fn eval(&self, assignment: &Vec<(String, u32)>) -> (r: Result<Monoid, PolyError>)
        ensures
            match r {
                Ok(m) => monomial_resolves(self@, assignment_map(assignment@))
                    && m@.to_multiset() == subst_monomial(
                    self@,
                    assignment_map(assignment@),
                ).to_multiset(),
                Err(e) => e == PolyError::UnresolvedIndex && !monomial_resolves(
                    self@,
                    assignment_map(assignment@),
                ),
            },
    {
        let ghost f = assignment_map(assignment@);
        let mut variables: Vec<Variable> = Vec::new();
        let mut k: usize = 0;
        while k < self.variables.len()
            invariant
                0 <= k <= self.variables.len(),
                f == assignment_map(assignment@),
                variables.len() == k,
                forall|l: int| 0 <= l < k ==> variable_resolves(self@[l], f),
                forall|l: int| 0 <= l < k ==> variables@[l]@ == subst_variable(self@[l], f),
            decreases self.variables.len() - k,
        {
            assert(self@[k as int] == self.variables@[k as int]@);
            match self.variables[k].eval(assignment) {
                Ok(v) => variables.push(v),
                Err(e) => {
                    assert(!variable_resolves(self@[k as int], f));
                    return Err(e);
                },
            }
            k = k + 1;
        }
        assert(models(variables@) =~= subst_monomial(self@, f));
        let variables = sort_variables(variables);
        Ok(Monoid { variables })
    }
}


/// The views of a sequence of names.
pub open spec fn name_views(s: Seq<String>) -> Seq<Seq<char>> {
    s.map_values(|x: String| x@)
}

/// `name` stands in a slot of `m` before slot `l` of variable `k`.
pub open spec fn named_before(m: Seq<VariableModel>, k: int, l: int, name: Seq<char>) -> bool {
    exists|a: int, b: int|
        0 <= a < m.len() && 0 <= b < m[a].indices.len() && (a < k || (a == k && b < l))
            && m[a].indices[b] == IndexModel::Named(name)
}

/// `x` stands in some slot of `m` before which `y` stands nowhere.
pub open spec fn precedes(m: Seq<VariableModel>, x: Seq<char>, y: Seq<char>) -> bool {
    exists|k: int, l: int|
        0 <= k < m.len() && 0 <= l < m[k].indices.len() && m[k].indices[l] == IndexModel::Named(x)
            && !named_before(m, k, l, y)
}

/// `names` lists names of `m` in order of their first appearance, scanning
/// the variables in order and the slots of each in order.
pub open spec fn in_first_appearance_order(m: Seq<VariableModel>, names: Seq<Seq<char>>) -> bool {
    forall|a: int, b: int|
        0 <= a < b < names.len() ==> precedes(m, #[trigger] names[a], #[trigger] names[b])
}

proof fn lemma_named_before_mono(m: Seq<VariableModel>, k1: int, l1: int, k2: int, l2: int, x: Seq<char>)
    requires
        named_before(m, k1, l1, x),
        k1 < k2 || (k1 == k2 && l1 <= l2),
    ensures
        named_before(m, k2, l2, x),
{
    let (a, b) = choose|a: int, b: int|
        0 <= a < m.len() && 0 <= b < m[a].indices.len() && (a < k1 || (a == k1 && b < l1))
            && m[a].indices[b] == IndexModel::Named(x);
    assert(a < k2 || (a == k2 && b < l2));
}

/// A sequence of `k` distinct values below `n`.
pub open spec fn injective_below(p: Seq<u32>, k: nat, n: u32) -> bool {
    &&& p.len() == k
    &&& forall|i: int| 0 <= i < p.len() ==> p[i] < n
    &&& forall|i: int, j: int| 0 <= i < p.len() && 0 <= j < p.len() && i != j ==> p[i] != p[j]
}

/// `f` sends the free names of `m` injectively into `0..n`.
pub open spec fn is_relabeling(m: Seq<VariableModel>, f: Map<Seq<char>, u32>, n: u32) -> bool {
    &&& forall|x: Seq<char>| named_in(m, x) ==> f.contains_key(x) && f[x] < n
    &&& forall|x: Seq<char>, y: Seq<char>|
        named_in(m, x) && named_in(m, y) && f[x] == f[y] ==> x == y
}

/// `m` is, as a monomial, the image of the template `t` under a relabeling into `0..n`.
pub open spec fn in_orbit(t: Seq<VariableModel>, n: u32, m: Seq<VariableModel>) -> bool {
    exists|f: Map<Seq<char>, u32>| is_relabeling(t, f, n) && same_monomial(m, subst_monomial(t, f))
}

/// `m` holds the variables of `t` under some relabeling into `0..n`, each
/// as often, in some order.
pub open spec fn relabeled_from(t: Seq<VariableModel>, n: u32, m: Seq<VariableModel>) -> bool {
    exists|f: Map<Seq<char>, u32>|
        is_relabeling(t, f, n) && m.to_multiset() == subst_monomial(t, f).to_multiset()
}

/// The assignment that gives `p[k]` to `names[k]`.
pub open spec fn zip_assignment(names: Seq<String>, p: Seq<u32>) -> Seq<(String, u32)> {
    Seq::new(names.len(), |k: int| (names[k], p[k]))
}

/// Relies on `itertools::Itertools::permutations` over `0..n`: each sequence
/// of `k` distinct values below `n` is produced, and nothing else.
#[verifier::external_body]
fn k_permutations(n: u32, k: usize) -> (r: Vec<Vec<u32>>)
    ensures
        forall|i: int| 0 <= i < r.len() ==> injective_below(#[trigger] r@[i]@, k as nat, n),
        forall|p: Seq<u32>| injective_below(p, k as nat, n) ==> exists|i: int|
            0 <= i < r.len() && #[trigger] r@[i]@ == p,
{
    (0..n).permutations(k).collect()
}

proof fn lemma_lookup_at(a: Seq<(String, u32)>, k: int)
    requires
        0 <= k < a.len(),
        forall|l: int| 0 <= l < k ==> a[l].0@ != a[k].0@,
    ensures
        lookup(a, a[k].0@) == Some(a[k].1),
{
    lemma_lookup_suffix(a, k, a[k].0@);
    let t = a.subrange(k, a.len() as int);
    assert(t[0] == a[k]);
}

/// Whether `name` is among `names`.
fn contains_name(names: &Vec<String>, name: &String) -> (r: bool)
    ensures
        r == name_views(names@).contains(name@),
{
    let mut k: usize = 0;
    while k < names.len()
        invariant
            0 <= k <= names.len(),
            forall|l: int| 0 <= l < k ==> names@[l]@ != name@,
        decreases names.len() - k,
    {
        if names[k] == *name {
            assert(name_views(names@)[k as int] == name@);
            return true;
        }
        k = k + 1;
    }
    assert(forall|l: int| 0 <= l < names.len() ==> name_views(names@)[l] != name@);
    false
}

/// Whether some monomial of `ms` is equivalent to `m`.
pub(crate) fn contains_monomial(ms: &Vec<Monoid>, m: &Monoid) -> (r: bool)
    ensures
        r == exists|i: int| 0 <= i < ms.len() && same_monomial(#[trigger] ms@[i]@, m@),
{
    let mut k: usize = 0;
    while k < ms.len()
        invariant
            0 <= k <= ms.len(),
            forall|l: int| 0 <= l < k ==> !same_monomial(#[trigger] ms@[l]@, m@),
        decreases ms.len() - k,
    {
        if ms[k].equivalent(m) {
            return true;
        }
        k = k + 1;
    }
    false
}

/// The assignment that gives `values[k]` to `names[k]`.
fn zip_names(names: &Vec<String>, values: &Vec<u32>) -> (r: Vec<(String, u32)>)
    requires
        names.len() == values.len(),
    ensures
        r@ == zip_assignment(names@, values@),
{
    let mut r: Vec<(String, u32)> = Vec::new();
    let mut k: usize = 0;
    while k < names.len()
        invariant
            names.len() == values.len(),
            0 <= k <= names.len(),
            r@ == zip_assignment(names@.take(k as int), values@.take(k as int)),
        decreases names.len() - k,
    {
        r.push((names[k].clone(), values[k]));
        k = k + 1;
        assert(r@ =~= zip_assignment(names@.take(k as int), values@.take(k as int)));
    }
    assert(names@.take(k as int) =~= names@);
    assert(values@.take(k as int) =~= values@);
    r
}

/// Facts on the assignment built from distinct `names` and values `p`.
proof fn lemma_zip_lookup(names: Seq<String>, p: Seq<u32>, k: int)
    requires
        name_views(names).no_duplicates(),
        names.len() == p.len(),
        0 <= k < names.len(),
    ensures
        lookup(zip_assignment(names, p), names[k]@) == Some(p[k]),
        assignment_map(zip_assignment(names, p)).contains_key(names[k]@),
        assignment_map(zip_assignment(names, p))[names[k]@] == p[k],
{
    let a = zip_assignment(names, p);
    assert forall|l: int| 0 <= l < k implies a[l].0@ != a[k].0@ by {
        assert(name_views(names)[l] != name_views(names)[k]);
    }
    lemma_lookup_at(a, k);
}

/// The assignment built from the free names and an injective sequence is a
/// relabeling, and resolves the template.
proof fn lemma_zip_relabeling(t: Seq<VariableModel>, names: Seq<String>, p: Seq<u32>, n: u32)
    requires
        name_views(names).no_duplicates(),
        forall|x: Seq<char>| named_in(t, x) <==> name_views(names).contains(x),
        injective_below(p, names.len(), n),
    ensures
        is_relabeling(t, assignment_map(zip_assignment(names, p)), n),
        monomial_resolves(t, assignment_map(zip_assignment(names, p))),
{
    let f = assignment_map(zip_assignment(names, p));
    assert forall|x: Seq<char>| named_in(t, x) implies f.contains_key(x) && f[x] < n by {
        let k = choose|k: int| 0 <= k < names.len() && name_views(names)[k] == x;
        lemma_zip_lookup(names, p, k);
    }
    assert forall|x: Seq<char>, y: Seq<char>|
        named_in(t, x) && named_in(t, y) && f[x] == f[y] implies x == y by {
        let k = choose|k: int| 0 <= k < names.len() && name_views(names)[k] == x;
        let l = choose|l: int| 0 <= l < names.len() && name_views(names)[l] == y;
        lemma_zip_lookup(names, p, k);
        lemma_zip_lookup(names, p, l);
    }
    assert forall|a: int| 0 <= a < t.len() implies variable_resolves(t[a], f) by {
        assert forall|b: int| 0 <= b < t[a].indices.len() implies index_resolves(
            t[a].indices[b],
            f,
        ) by {
            if let IndexModel::Named(x) = t[a].indices[b] {
                assert(named_in(t, x));
            }
        }
    }
}

/// Two maps that agree on the free names of `t` substitute it alike.
proof fn lemma_subst_agree(t: Seq<VariableModel>, f: Map<Seq<char>, u32>, g: Map<Seq<char>, u32>)
    requires
        forall|x: Seq<char>| named_in(t, x) ==> f[x] == g[x],
    ensures
        subst_monomial(t, f) == subst_monomial(t, g),
{
    assert forall|a: int| 0 <= a < t.len() implies subst_variable(t[a], f) == subst_variable(
        t[a],
        g,
    ) by {
        assert forall|b: int| 0 <= b < t[a].indices.len() implies subst_index(t[a].indices[b], f)
            == subst_index(t[a].indices[b], g) by {
            if let IndexModel::Named(x) = t[a].indices[b] {
                assert(named_in(t, x));
            }
        }
        assert(subst_variable(t[a], f).indices =~= subst_variable(t[a], g).indices);
    }
    assert(subst_monomial(t, f) =~= subst_monomial(t, g));
}

/// Every relabeling of `t` is reached from the value sequence it gives the
/// free names.
proof fn lemma_relabeling_values(
    t: Seq<VariableModel>,
    names: Seq<String>,
    g: Map<Seq<char>, u32>,
    n: u32,
) -> (p: Seq<u32>)
    requires
        name_views(names).no_duplicates(),
        forall|x: Seq<char>| named_in(t, x) <==> name_views(names).contains(x),
        is_relabeling(t, g, n),
    ensures
        injective_below(p, names.len(), n),
        subst_monomial(t, assignment_map(zip_assignment(names, p))) == subst_monomial(t, g),
{
    let p = Seq::new(names.len(), |k: int| g[names[k]@]);
    assert forall|k: int| 0 <= k < p.len() implies p[k] < n by {
        assert(name_views(names)[k] == names[k]@);
        assert(named_in(t, names[k]@));
    }
    assert forall|i: int, j: int| 0 <= i < p.len() && 0 <= j < p.len() && i != j implies p[i]
        != p[j] by {
        assert(name_views(names)[i] == names[i]@);
        assert(name_views(names)[j] == names[j]@);
        assert(named_in(t, names[i]@));
        assert(named_in(t, names[j]@));
    }
    let f = assignment_map(zip_assignment(names, p));
    assert forall|x: Seq<char>| named_in(t, x) implies f[x] == g[x] by {
        let k = choose|k: int| 0 <= k < names.len() && name_views(names)[k] == x;
        lemma_zip_lookup(names, p, k);
    }
    lemma_subst_agree(t, f, g);
    p
}

impl Monoid {
    /// The distinct names that stand in the slots, in order of first appearance.
    pub fn collect_indices(&self) -> (r: Vec<String>)
        ensures
            name_views(r@).no_duplicates(),
            forall|x: Seq<char>| named_in(self@, x) <==> name_views(r@).contains(x),
            in_first_appearance_order(self@, name_views(r@)),
    {
        let mut names: Vec<String> = Vec::new();
        let mut k: usize = 0;
        while k < self.variables.len()
            invariant
                0 <= k <= self.variables.len(),
                name_views(names@).no_duplicates(),
                in_first_appearance_order(self@, name_views(names@)),
                forall|x: Seq<char>|
                    named_before(self@, k as int, 0, x) <==> name_views(names@).contains(x),
            decreases self.variables.len() - k,
        {
            let var = &self.variables[k];
            assert(var@ == self@[k as int]);
            let mut l: usize = 0;
            while l < var.indices.len()
                invariant
                    0 <= k < self.variables.len(),
                    var@ == self@[k as int],
                    0 <= l <= var.indices.len(),
                    name_views(names@).no_duplicates(),
                    in_first_appearance_order(self@, name_views(names@)),
                    forall|x: Seq<char>|
                        named_before(self@, k as int, l as int, x) <==> name_views(
                            names@,
                        ).contains(x),
                decreases var.indices.len() - l,
            {
                assert(var.indices@[l as int]@ == self@[k as int].indices[l as int]);
                let ghost before = names@;
                match &var.indices[l] {
                    Index::Named(name) => {
                        assert(self@[k as int].indices[l as int] == IndexModel::Named(name@));
                        if !contains_name(&names, name) {
                            names.push(name.clone());
                            assert(name_views(names@) =~= name_views(before).push(name@));
                            assert forall|x: Seq<char>|
                                name_views(names@).contains(x) <==> (name_views(before).contains(x)
                                    || x == name@) by {
                                if name_views(names@).contains(x) {
                                    let i = choose|i: int| 0 <= i < name_views(names@).len() && name_views(names@)[i] == x;
                                    if i < before.len() {
                                        assert(name_views(before)[i] == x);
                                    }
                                }
                                if name_views(before).contains(x) {
                                    let i = choose|i: int| 0 <= i < name_views(before).len() && name_views(before)[i] == x;
                                    assert(name_views(names@)[i] == x);
                                }
                                if x == name@ {
                                    assert(name_views(names@)[before.len() as int] == x);
                                }
                            }
                            assert(name_views(names@).no_duplicates());
                            let ghost nv = name_views(names@);
                            assert forall|a: int, b: int| 0 <= a < b < nv.len() implies precedes(
                                self@,
                                #[trigger] nv[a],
                                #[trigger] nv[b],
                            ) by {
                                if b < before.len() {
                                    assert(nv[a] == name_views(before)[a]);
                                    assert(nv[b] == name_views(before)[b]);
                                } else {
                                    let y = nv[a];
                                    assert(y == name_views(before)[a]);
                                    assert(name_views(before).contains(y));
                                    assert(named_before(self@, k as int, l as int, y));
                                    let (ka, la) = choose|ka: int, la: int|
                                        0 <= ka < self@.len() && 0 <= la < self@[ka].indices.len()
                                            && (ka < k || (ka == k && la < l))
                                            && self@[ka].indices[la] == IndexModel::Named(y);
                                    if named_before(self@, ka, la, name@) {
                                        lemma_named_before_mono(self@, ka, la, k as int, l as int, name@);
                                    }
                                    assert(nv[b] == name@);
                                }
                            }
                        }
                    },
                    Index::Constant(_) => {},
                }
                assert(forall|x: Seq<char>|
                    name_views(names@).contains(x) <==> (name_views(before).contains(x)
                        || self@[k as int].indices[l as int] == IndexModel::Named(x)));
                assert(forall|x: Seq<char>|
                    named_before(self@, k as int, l as int, x) <==> name_views(before).contains(x));
                l = l + 1;
                assert forall|x: Seq<char>|
                    named_before(self@, k as int, l as int, x) <==> (named_before(
                        self@,
                        k as int,
                        l - 1,
                        x,
                    ) || self@[k as int].indices[l - 1] == IndexModel::Named(x)) by {
                    if named_before(self@, k as int, l as int, x) {
                        let (a, b) = choose|a: int, b: int|
                            0 <= a < self@.len() && 0 <= b < self@[a].indices.len() && (a < k
                                || (a == k && b < l)) && self@[a].indices[b]
                                == IndexModel::Named(x);
                        if !(a == k && b == l - 1) {
                            assert(named_before(self@, k as int, l - 1, x));
                        }
                    }
                    if self@[k as int].indices[l - 1] == IndexModel::Named(x) {
                        assert(named_before(self@, k as int, l as int, x));
                    }
                    if named_before(self@, k as int, l - 1, x) {
                        let (a, b) = choose|a: int, b: int|
                            0 <= a < self@.len() && 0 <= b < self@[a].indices.len() && (a < k
                                || (a == k && b < l - 1)) && self@[a].indices[b]
                                == IndexModel::Named(x);
                        assert(named_before(self@, k as int, l as int, x));
                    }
                }
                assert forall|x: Seq<char>|
                    named_before(self@, k as int, l as int, x) <==> name_views(names@).contains(
                        x,
                    ) by {
                    assert(named_before(self@, k as int, l - 1, x) <==> name_views(before).contains(x));
                }
            }
            k = k + 1;
            assert forall|x: Seq<char>|
                named_before(self@, k as int, 0, x) <==> name_views(names@).contains(x) by {
                if named_before(self@, k as int, 0, x) {
                    let (a, b) = choose|a: int, b: int|
                        0 <= a < self@.len() && 0 <= b < self@[a].indices.len() && (a < k || (a
                            == k && b < 0)) && self@[a].indices[b] == IndexModel::Named(x);
                    assert(named_before(self@, k - 1, l as int, x));
                }
                if named_before(self@, k - 1, l as int, x) {
                    let (a, b) = choose|a: int, b: int|
                        0 <= a < self@.len() && 0 <= b < self@[a].indices.len() && (a < k - 1
                            || (a == k - 1 && b < l)) && self@[a].indices[b]
                            == IndexModel::Named(x);
                    assert(named_before(self@, k as int, 0, x));
                }
            }
        }
        assert forall|x: Seq<char>| named_in(self@, x) <==> named_before(self@, k as int, 0, x) by {
            if named_in(self@, x) {
                let (a, b) = choose|a: int, b: int|
                    0 <= a < self@.len() && 0 <= b < self@[a].indices.len() && self@[a].indices[b]
                        == IndexModel::Named(x);
                assert(a < k);
            }
        }
        names
    }

    /// The orbit of this template over the domain `0..domain_size`: one
    /// representative of each monomial obtained by an injective assignment of
    /// domain values to its free names.
    pub fn orbital(&self, domain_size: u32) -> (r: Vec<Monoid>)
        ensures
            forall|i: int| 0 <= i < r.len() ==> in_orbit(self@, domain_size, #[trigger] r@[i]@),
            forall|i: int|
                0 <= i < r.len() ==> relabeled_from(self@, domain_size, #[trigger] r@[i]@),
            forall|f: Map<Seq<char>, u32>|
                is_relabeling(self@, f, domain_size) ==> exists|i: int|
                    0 <= i < r.len() && same_monomial(
                        #[trigger] r@[i]@,
                        subst_monomial(self@, f),
                    ),
            forall|i: int, j: int|
                0 <= i < j < r.len() ==> !same_monomial(#[trigger] r@[i]@, #[trigger] r@[j]@),
    {
        let names = self.collect_indices();
        let perms = k_permutations(domain_size, names.len());
        let mut orbit: Vec<Monoid> = Vec::new();
        let mut j: usize = 0;
        while j < perms.len()
            invariant
                0 <= j <= perms.len(),
                name_views(names@).no_duplicates(),
                forall|x: Seq<char>| named_in(self@, x) <==> name_views(names@).contains(x),
                forall|i: int|
                    0 <= i < perms.len() ==> injective_below(
                        #[trigger] perms@[i]@,
                        names.len() as nat,
                        domain_size,
                    ),
                forall|i: int|
                    0 <= i < orbit.len() ==> in_orbit(self@, domain_size, #[trigger] orbit@[i]@),
                forall|i: int|
                    0 <= i < orbit.len() ==> relabeled_from(self@, domain_size, #[trigger] orbit@[i]@),
                forall|a: int, b: int|
                    0 <= a < b < orbit.len() ==> !same_monomial(
                        #[trigger] orbit@[a]@,
                        #[trigger] orbit@[b]@,
                    ),
                forall|q: int|
                    0 <= q < j ==> exists|i: int|
                        0 <= i < orbit.len() && same_monomial(
                            #[trigger] orbit@[i]@,
                            subst_monomial(
                                self@,
                                assignment_map(zip_assignment(names@, #[trigger] perms@[q]@)),
                            ),
                        ),
            decreases perms.len() - j,
        {
            let assignment = zip_names(&names, &perms[j]);
            let ghost f = assignment_map(assignment@);
            proof {
                lemma_zip_relabeling(self@, names@, perms@[j as int]@, domain_size);
            }
            match self.eval(&assignment) {
                Ok(m) => {
                    proof {
                        lemma_multiset_same(m@, subst_monomial(self@, f));
                        assert(in_orbit(self@, domain_size, m@));
                        assert(relabeled_from(self@, domain_size, m@));
                    }
                    if !contains_monomial(&orbit, &m) {
                        let ghost old_orbit = orbit@;
                        orbit.push(m);
                        assert forall|i: int|
                            0 <= i < orbit.len() implies relabeled_from(self@, domain_size, #[trigger] orbit@[i]@) by {
                            if i < old_orbit.len() {
                                assert(orbit@[i] == old_orbit[i]);
                            }
                        }
                        assert forall|q: int|
                            0 <= q < j + 1 implies exists|i: int|
                            0 <= i < orbit.len() && same_monomial(
                                #[trigger] orbit@[i]@,
                                subst_monomial(
                                    self@,
                                    assignment_map(zip_assignment(names@, #[trigger] perms@[q]@)),
                                ),
                            ) by {
                            if q < j {
                                let i = choose|i: int|
                                    0 <= i < old_orbit.len() && same_monomial(
                                        #[trigger] old_orbit[i]@,
                                        subst_monomial(
                                            self@,
                                            assignment_map(zip_assignment(names@, perms@[q]@)),
                                        ),
                                    );
                                assert(orbit@[i] == old_orbit[i]);
                            } else {
                                assert(orbit@[old_orbit.len() as int] == m);
                            }
                        }
                    } else {
                        assert forall|q: int|
                            0 <= q < j + 1 implies exists|i: int|
                            0 <= i < orbit.len() && same_monomial(
                                #[trigger] orbit@[i]@,
                                subst_monomial(
                                    self@,
                                    assignment_map(zip_assignment(names@, #[trigger] perms@[q]@)),
                                ),
                            ) by {
                            if q == j {
                                let i = choose|i: int|
                                    0 <= i < orbit.len() && same_monomial(
                                        #[trigger] orbit@[i]@,
                                        m@,
                                    );
                                assert(same_monomial(
                                    orbit@[i]@,
                                    subst_monomial(self@, f),
                                ));
                            }
                        }
                    }
                },
                Err(_) => {
                    assert(false);
                },
            }
            j = j + 1;
        }
        assert forall|g: Map<Seq<char>, u32>|
            is_relabeling(self@, g, domain_size) implies exists|i: int|
            0 <= i < orbit.len() && same_monomial(
                #[trigger] orbit@[i]@,
                subst_monomial(self@, g),
            ) by {
            let p = lemma_relabeling_values(self@, names@, g, domain_size);
            let q = choose|q: int| 0 <= q < perms.len() && #[trigger] perms@[q]@ == p;
            assert(perms@[q]@ == p);
        }
        orbit
    }
}


/// Every slot of `t` holds a free name.
pub open spec fn is_template(t: Seq<VariableModel>) -> bool {
    forall|k: int, l: int|
        0 <= k < t.len() && 0 <= l < t[k].indices.len() ==> t[k].indices[l] is Named
}

/// `sigma` is a permutation of `0..n`.
pub open spec fn is_domain_permutation(sigma: Seq<u32>, n: u32) -> bool {
    injective_below(sigma, n as nat, n)
}

/// `x` with its domain value `c` replaced by `sigma[c]`.
pub open spec fn relabel_index(x: IndexModel, sigma: Seq<u32>) -> IndexModel {
    match x {
        IndexModel::Constant(c) => if c < sigma.len() {
            IndexModel::Constant(sigma[c as int])
        } else {
            IndexModel::Constant(c)
        },
        IndexModel::Named(n) => IndexModel::Named(n),
    }
}

pub open spec fn relabel_variable(v: VariableModel, sigma: Seq<u32>) -> VariableModel {
    VariableModel {
        name: v.name,
        indices: v.indices.map_values(|x: IndexModel| relabel_index(x, sigma)),
    }
}

pub open spec fn relabel_monomial(m: Seq<VariableModel>, sigma: Seq<u32>) -> Seq<VariableModel> {
    m.map_values(|v: VariableModel| relabel_variable(v, sigma))
}

/// An orbit is closed under relabelling: permuting the domain values of a
/// monomial in the orbit of a template gives a monomial in the same orbit.
pub proof fn lemma_orbit_closed_under_relabeling(
    t: Seq<VariableModel>,
    n: u32,
    m: Seq<VariableModel>,
    sigma: Seq<u32>,
)
    requires
        is_template(t),
        in_orbit(t, n, m),
        is_domain_permutation(sigma, n),
    ensures
        in_orbit(t, n, relabel_monomial(m, sigma)),
{
    let f = choose|f: Map<Seq<char>, u32>|
        is_relabeling(t, f, n) && same_monomial(m, subst_monomial(t, f));
    let g = Map::new(|x: Seq<char>| f.contains_key(x), |x: Seq<char>| sigma[f[x] as int]);
    assert forall|x: Seq<char>| named_in(t, x) implies g.contains_key(x) && g[x] < n by {}
    assert forall|x: Seq<char>, y: Seq<char>|
        named_in(t, x) && named_in(t, y) && g[x] == g[y] implies x == y by {}
    let s = subst_monomial(t, f);
    let rel = |v: VariableModel| relabel_variable(v, sigma);
    assert forall|a: int| 0 <= a < t.len() implies relabel_variable(s[a], sigma)
        == subst_variable(t[a], g) by {
        assert forall|b: int| 0 <= b < t[a].indices.len() implies relabel_index(
            s[a].indices[b],
            sigma,
        ) == subst_index(t[a].indices[b], g) by {
            let x = t[a].indices[b]->Named_0;
            assert(named_in(t, x));
        }
        assert(relabel_variable(s[a], sigma).indices =~= subst_variable(t[a], g).indices);
    }
    assert(relabel_monomial(s, sigma) =~= subst_monomial(t, g));
    m.lemma_to_set_map_commutes(rel);
    s.lemma_to_set_map_commutes(rel);
    assert(relabel_monomial(m, sigma) == m.map_values(rel));
    assert(relabel_monomial(s, sigma) == s.map_values(rel));
    assert(same_monomial(relabel_monomial(m, sigma), subst_monomial(t, g)));
    assert(is_relabeling(t, g, n));
}


/// The monomial of the single variable `name` with the two given slots.
pub open spec fn single_pair(name: Seq<char>, a: IndexModel, b: IndexModel) -> Seq<VariableModel> {
    seq![VariableModel { name, indices: seq![a, b] }]
}

proof fn lemma_single_pair_subst(name: Seq<char>, i: Seq<char>, j: Seq<char>, f: Map<Seq<char>, u32>)
    ensures
        subst_monomial(single_pair(name, IndexModel::Named(i), IndexModel::Named(j)), f)
            == single_pair(name, IndexModel::Constant(f[i]), IndexModel::Constant(f[j])),
{
    let t = single_pair(name, IndexModel::Named(i), IndexModel::Named(j));
    assert(subst_variable(t[0], f).indices =~= seq![IndexModel::Constant(f[i]), IndexModel::Constant(f[j])]);
    assert(subst_monomial(t, f) =~= single_pair(name, IndexModel::Constant(f[i]), IndexModel::Constant(f[j])));
}

proof fn lemma_single_pair_names(name: Seq<char>, i: Seq<char>, j: Seq<char>, x: Seq<char>)
    ensures
        named_in(single_pair(name, IndexModel::Named(i), IndexModel::Named(j)), x) <==> (x == i || x == j),
{
    let t = single_pair(name, IndexModel::Named(i), IndexModel::Named(j));
    if x == i {
        assert(t[0].indices[0] == IndexModel::Named(x));
    }
    if x == j {
        assert(t[0].indices[1] == IndexModel::Named(x));
    }
}

/// The orbit of one variable whose two slots hold distinct names is made of
/// the monomials of that variable at every ordered pair of distinct domain
/// values, and of nothing else.
pub proof fn lemma_pair_orbit_distinct(name: Seq<char>, i: Seq<char>, j: Seq<char>, n: u32, m: Seq<VariableModel>)
    requires
        i != j,
    ensures
        in_orbit(single_pair(name, IndexModel::Named(i), IndexModel::Named(j)), n, m) <==> exists|a: u32, b: u32|
            a < n && b < n && a != b && same_monomial(
                m,
                single_pair(name, IndexModel::Constant(a), IndexModel::Constant(b)),
            ),
{
    let t = single_pair(name, IndexModel::Named(i), IndexModel::Named(j));
    assert forall|x: Seq<char>| named_in(t, x) <==> (x == i || x == j) by {
        lemma_single_pair_names(name, i, j, x);
    }
    if in_orbit(t, n, m) {
        let f = choose|f: Map<Seq<char>, u32>| is_relabeling(t, f, n) && same_monomial(m, subst_monomial(t, f));
        lemma_single_pair_subst(name, i, j, f);
        assert(named_in(t, i) && named_in(t, j));
        assert(f[i] < n && f[j] < n && f[i] != f[j]);
        assert(same_monomial(m, single_pair(name, IndexModel::Constant(f[i]), IndexModel::Constant(f[j]))));
    }
    if exists|a: u32, b: u32| a < n && b < n && a != b && same_monomial(
        m,
        single_pair(name, IndexModel::Constant(a), IndexModel::Constant(b)),
    ) {
        let (a, b) = choose|a: u32, b: u32| a < n && b < n && a != b && same_monomial(
            m,
            single_pair(name, IndexModel::Constant(a), IndexModel::Constant(b)),
        );
        let f = Map::<Seq<char>, u32>::empty().insert(i, a).insert(j, b);
        lemma_single_pair_subst(name, i, j, f);
        assert(is_relabeling(t, f, n));
    }
}

/// The orbit of one variable whose two slots hold the same name is made of
/// the monomials of that variable at every diagonal pair of domain values,
/// and of nothing else.
pub proof fn lemma_pair_orbit_repeated(name: Seq<char>, i: Seq<char>, n: u32, m: Seq<VariableModel>)
    ensures
        in_orbit(single_pair(name, IndexModel::Named(i), IndexModel::Named(i)), n, m) <==> exists|a: u32|
            a < n && same_monomial(m, single_pair(name, IndexModel::Constant(a), IndexModel::Constant(a))),
{
    let t = single_pair(name, IndexModel::Named(i), IndexModel::Named(i));
    assert forall|x: Seq<char>| named_in(t, x) <==> x == i by {
        lemma_single_pair_names(name, i, i, x);
    }
    if in_orbit(t, n, m) {
        let f = choose|f: Map<Seq<char>, u32>| is_relabeling(t, f, n) && same_monomial(m, subst_monomial(t, f));
        lemma_single_pair_subst(name, i, i, f);
        assert(named_in(t, i));
        assert(f[i] < n);
        assert(same_monomial(m, single_pair(name, IndexModel::Constant(f[i]), IndexModel::Constant(f[i]))));
    }
    if exists|a: u32| a < n && same_monomial(m, single_pair(name, IndexModel::Constant(a), IndexModel::Constant(a))) {
        let a = choose|a: u32| a < n && same_monomial(m, single_pair(name, IndexModel::Constant(a), IndexModel::Constant(a)));
        let f = Map::<Seq<char>, u32>::empty().insert(i, a);
        lemma_single_pair_subst(name, i, i, f);
        assert(is_relabeling(t, f, n));
    }
}

} // verus!
