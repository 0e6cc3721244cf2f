use vstd::prelude::*;

use crate::epoch::Epoch;
use crate::extract::PathEdge;

verus! {

/// One vendored build unit: a package name and an epoch.
#[derive(Clone, Debug, PartialEq, Eq, Hash, PartialOrd, Ord)]
pub struct ThirdPartyCrate {
    pub name: String,
    pub epoch: Epoch,
}

/// One package of the resolved dependency graph.
#[derive(Clone, Debug)]
pub struct ThirdPartyDep {
    pub package_name: String,
    pub epoch: Epoch,
    /// The exact version that was resolved.
    pub version: String,
    /// Whether the resolved source is the vendored copy.
    pub is_local: bool,
    /// The edges from the root of the graph to this package.
    pub dependency_path: Vec<PathEdge>,
}

/// The identity of a build unit: its name and its epoch.
pub type Identity = (Seq<char>, Epoch);

pub open spec fn crate_id(c: ThirdPartyCrate) -> Identity {
    (c.name@, c.epoch)
}

pub open spec fn dep_id(d: ThirdPartyDep) -> Identity {
    (d.package_name@, d.epoch)
}

pub open spec fn crate_ids(cs: Seq<ThirdPartyCrate>) -> Seq<Identity> {
    Seq::new(cs.len(), |i: int| crate_id(cs[i]))
}

pub open spec fn dep_ids(ds: Seq<ThirdPartyDep>) -> Seq<Identity> {
    Seq::new(ds.len(), |j: int| dep_id(ds[j]))
}

/// No identity occurs twice.
pub open spec fn unique_ids(ids: Seq<Identity>) -> bool {
    forall|i: int, j: int| 0 <= i < j < ids.len() ==> ids[i] != ids[j]
}

/// No vendored identity is reported twice by the resolver.
pub open spec fn no_vendored_repeats(v: Seq<Identity>, d: Seq<Identity>) -> bool {
    forall|i: int, j: int| 0 <= i < j < d.len() && d[i] == d[j] ==> !v.contains(d[i])
}

/// The positions `k < n` at which `p` holds, in increasing order.
pub open spec fn indices_where(n: nat, p: spec_fn(int) -> bool) -> Seq<int>
    decreases n,
{
    if n == 0 {
        Seq::empty()
    } else {
        let s = indices_where((n - 1) as nat, p);
        if p(n - 1) {
            s.push(n - 1)
        } else {
            s
        }
    }
}

pub open spec fn as_ints(s: Seq<usize>) -> Seq<int> {
    s.map_values(|x: usize| x as int)
}

/// A record is missing when its identity is not vendored; of several records
/// with one identity the first is kept.
pub open spec fn missing_pred(v: Seq<Identity>, d: Seq<Identity>) -> spec_fn(int) -> bool {
    |j: int| !v.contains(d[j]) && !d.take(j).contains(d[j])
}

/// A vendored crate is unused when no record has its identity.
pub open spec fn unused_pred(v: Seq<Identity>, d: Seq<Identity>) -> spec_fn(int) -> bool {
    |i: int| !d.contains(v[i])
}

/// A record is mismatched when it resolved to an upstream source.
pub open spec fn mismatched_pred(ds: Seq<ThirdPartyDep>) -> spec_fn(int) -> bool {
    |j: int| !ds[j].is_local
}

pub open spec fn missing_spec(v: Seq<Identity>, d: Seq<Identity>) -> Seq<int> {
    indices_where(d.len(), missing_pred(v, d))
}

pub open spec fn unused_spec(v: Seq<Identity>, d: Seq<Identity>) -> Seq<int> {
    indices_where(v.len(), unused_pred(v, d))
}

pub open spec fn mismatched_spec(ds: Seq<ThirdPartyDep>) -> Seq<int> {
    indices_where(ds.len(), mismatched_pred(ds))
}

/// The vendored crates, no two with the same identity.
pub struct CrateSet {
    crates: Vec<ThirdPartyCrate>,
}

impl View for CrateSet {
    type V = Seq<Identity>;

    open spec fn view(&self) -> Seq<Identity> {
        crate_ids(self.members())
    }
}

/// Whether `c` has the identity `(name, epoch)`.
fn crate_has_id(c: &ThirdPartyCrate, name: &String, epoch: Epoch) -> (r: bool)
    ensures
        r == (crate_id(*c) == (name@, epoch)),
{
    c.name == *name && c.epoch == epoch
}

/// The position of the crate with identity `(name, epoch)`, if there is one.
fn find_crate(crates: &Vec<ThirdPartyCrate>, name: &String, epoch: Epoch) -> (r: Option<usize>)
    ensures
        r matches Some(k) ==> k < crates@.len() && crate_ids(crates@)[k as int] == (name@, epoch),
        r is None ==> !crate_ids(crates@).contains((name@, epoch)),
{
    let ghost ids = crate_ids(crates@);
    let mut k: usize = 0;
    while k < crates.len()
        invariant
            k <= crates@.len(),
            ids == crate_ids(crates@),
            forall|i: int| 0 <= i < k ==> ids[i] != (name@, epoch),
        decreases crates@.len() - k,
    {
        if crate_has_id(&crates[k], name, epoch) {
            return Some(k);
        }
        k += 1;
    }
    None
}

impl CrateSet {
    /// The vendored crates; their identities are the view.
    pub closed spec fn members(&self) -> Seq<ThirdPartyCrate> {
        self.crates@
    }

    #[verifier::type_invariant]
    closed spec fn inv(self) -> bool {
        unique_ids(crate_ids(self.crates@))
    }

    /// Collects the vendored crates; none where two share an identity.
    pub fn new(crates: Vec<ThirdPartyCrate>) -> (r: Option<CrateSet>)
        ensures
            r is Some <==> unique_ids(crate_ids(crates@)),
            r matches Some(set) ==> set.members() == crates@,
    {
        let ghost ids = crate_ids(crates@);
        let mut j: usize = 0;
        while j < crates.len()
            invariant
                j <= crates@.len(),
                ids == crate_ids(crates@),
                forall|a: int, b: int| 0 <= a < b < j ==> ids[a] != ids[b],
            decreases crates@.len() - j,
        {
            let mut i: usize = 0;
            while i < j
                invariant
                    i <= j < crates@.len(),
                    ids == crate_ids(crates@),
                    forall|a: int| 0 <= a < i ==> ids[a] != ids[j as int],
                decreases j - i,
            {
                if crate_has_id(&crates[i], &crates[j].name, crates[j].epoch) {
                    assert(ids[i as int] == ids[j as int]);
                    return None;
                }
                i += 1;
            }
            j += 1;
        }
        Some(CrateSet { crates })
    }

    /// The vendored crates, in the order they were given.
    pub fn crates(&self) -> (r: &Vec<ThirdPartyCrate>)
        ensures
            r@ == self.members(),
    {
        &self.crates
    }
}

/// The diagnostics of one reconciliation, as positions into its inputs.
pub struct Reconciliation {
    /// Positions in the records of the packages that are needed but not vendored.
    pub missing: Vec<usize>,
    /// Positions in the vendored crates of those that no record needs.
    pub unused: Vec<usize>,
    /// Positions in the records of the packages resolved to an upstream source.
    pub mismatched: Vec<usize>,
}

proof fn lemma_as_ints_push(s: Seq<usize>, x: usize)
    ensures
        as_ints(s.push(x)) == as_ints(s).push(x as int),
{
    assert(as_ints(s.push(x)) =~= as_ints(s).push(x as int));
}

/// Whether a record before position `j` has the identity of record `j`.
fn seen_before(deps: &Vec<ThirdPartyDep>, j: usize) -> (r: bool)
    requires
        j < deps@.len(),
    ensures
        r == dep_ids(deps@).take(j as int).contains(dep_ids(deps@)[j as int]),
{
    let ghost d = dep_ids(deps@);
    let mut i: usize = 0;
    while i < j
        invariant
            i <= j < deps@.len(),
            d == dep_ids(deps@),
            forall|a: int| 0 <= a < i ==> d[a] != d[j as int],
        decreases j - i,
    {
        if deps[i].package_name == deps[j].package_name && deps[i].epoch == deps[j].epoch {
            assert(d.take(j as int)[i as int] == d[j as int]);
            return true;
        }
        i += 1;
    }
    assert(forall|a: int| 0 <= a < j ==> d.take(j as int)[a] != d[j as int]);
    false
}

/// Whether no vendored identity is reported by two records, which
/// `reconcile` asks of its input.
pub fn reported_once(vendored: &CrateSet, deps: &Vec<ThirdPartyDep>) -> (r: bool)
    ensures
        r == no_vendored_repeats(vendored@, dep_ids(deps@)),
{
    let crates = vendored.crates();
    let ghost v = vendored@;
    let ghost d = dep_ids(deps@);
    let mut j: usize = 0;
    while j < deps.len()
        invariant
            j <= deps@.len(),
            v == vendored@,
            v == crate_ids(crates@),
            d == dep_ids(deps@),
            forall|a: int, b: int| 0 <= a < b < j && d[a] == d[b] ==> !v.contains(d[a]),
        decreases deps@.len() - j,
    {
        if seen_before(deps, j) {
            if let Some(k) = find_crate(crates, &deps[j].package_name, deps[j].epoch) {
                proof {
                    let a = choose|a: int| 0 <= a < j && #[trigger] d.take(j as int)[a] == d[j as int];
                    assert(d[a] == d[j as int]);
                    assert(v[k as int] == d[a]);
                    assert(v.contains(d[a]));
                }
                return false;
            }
        }
        proof {
            assert forall|a: int, b: int| 0 <= a < b < j + 1 && d[a] == d[b] implies !v.contains(
                d[a],
            ) by {
                if b == j {
                    assert(d.take(j as int)[a] == d[j as int]);
                }
            }
        }
        j += 1;
    }
    true
}

/// Compares the vendored crates with the records that the resolver reported:
/// the records whose identity is not vendored (the first of each identity),
/// the vendored crates that no record has, and the records that resolved to
/// an upstream source.
pub fn reconcile(vendored: &CrateSet, deps: &Vec<ThirdPartyDep>) -> (r: Reconciliation)
    requires
        no_vendored_repeats(vendored@, dep_ids(deps@)),
    ensures
        reconciled(vendored@, deps@, r),
{
    proof {
        use_type_invariant(vendored);
    }
    let crates = vendored.crates();
    let ghost v = vendored@;
    let ghost d = dep_ids(deps@);
    let mut used: Vec<bool> = Vec::new();
    let mut k: usize = 0;
    while k < crates.len()
        invariant
            k <= crates@.len(),
            used@.len() == k,
            forall|i: int| 0 <= i < k ==> !used@[i],
        decreases crates@.len() - k,
    {
        used.push(false);
        k += 1;
    }
    assert(d.take(0) =~= Seq::<Identity>::empty());
    let mut missing: Vec<usize> = Vec::new();
    let mut j: usize = 0;
    while j < deps.len()
        invariant
            j <= deps@.len(),
            v == crate_ids(crates@),
            unique_ids(v),
            d == dep_ids(deps@),
            no_vendored_repeats(v, d),
            used@.len() == v.len(),
            forall|i: int| 0 <= i < v.len() ==> (used@[i] <==> d.take(j as int).contains(v[i])),
            as_ints(missing@) == indices_where(j as nat, missing_pred(v, d)),
        decreases deps@.len() - j,
    {
        let dep = &deps[j];
        let ghost before = used@;
        proof {
            assert(d.take(j + 1) =~= d.take(j as int).push(d[j as int]));
        }
        match find_crate(crates, &dep.package_name, dep.epoch) {
            Some(k) => {
                used[k] = true;
                proof {
                    assert(v.contains(d[j as int]));
                    assert forall|i: int| 0 <= i < v.len() implies (used@[i] <==> d.take(
                        j + 1,
                    ).contains(v[i])) by {
                        if i != k {
                            assert(v[i] != v[k as int]);
                            if d.take(j + 1).contains(v[i]) {
                                let a = choose|a: int|
                                    0 <= a < j + 1 && #[trigger] d.take(j + 1)[a] == v[i];
                                assert(a != j);
                                assert(d.take(j as int)[a] == v[i]);
                            }
                        } else {
                            assert(d.take(j + 1)[j as int] == v[i]);
                        }
                    }
                }
            },
            None => {
                if !seen_before(deps, j) {
                    proof {
                        lemma_as_ints_push(missing@, j);
                    }
                    missing.push(j);
                }
                proof {
                    assert forall|i: int| 0 <= i < v.len() implies (used@[i] <==> d.take(
                        j + 1,
                    ).contains(v[i])) by {
                        assert(v.contains(v[i]));
                        if d.take(j + 1).contains(v[i]) {
                            let a = choose|a: int|
                                0 <= a < j + 1 && #[trigger] d.take(j + 1)[a] == v[i];
                            assert(a != j);
                            assert(d.take(j as int)[a] == v[i]);
                        }
                    }
                }
            },
        }
        j += 1;
    }
    assert(d.take(deps@.len() as int) =~= d);
    let mut unused: Vec<usize> = Vec::new();
    let mut i: usize = 0;
    while i < crates.len()
        invariant
            i <= crates@.len(),
            v == crate_ids(crates@),
            used@.len() == v.len(),
            forall|a: int| 0 <= a < v.len() ==> (used@[a] <==> d.contains(v[a])),
            as_ints(unused@) == indices_where(i as nat, unused_pred(v, d)),
        decreases crates@.len() - i,
    {
        if !used[i] {
            proof {
                lemma_as_ints_push(unused@, i);
            }
            unused.push(i);
        }
        i += 1;
    }
    let mut mismatched: Vec<usize> = Vec::new();
    let mut j: usize = 0;
    while j < deps.len()
        invariant
            j <= deps@.len(),
            as_ints(mismatched@) == indices_where(j as nat, mismatched_pred(deps@)),
        decreases deps@.len() - j,
    {
        if !deps[j].is_local {
            proof {
                lemma_as_ints_push(mismatched@, j);
            }
            mismatched.push(j);
        }
        j += 1;
    }
    Reconciliation { missing, unused, mismatched }
}

/// `r` holds the diagnostics of the vendored identities `v` against the records `ds`.
pub open spec fn reconciled(v: Seq<Identity>, ds: Seq<ThirdPartyDep>, r: Reconciliation) -> bool {
    &&& as_ints(r.missing@) == missing_spec(v, dep_ids(ds))
    &&& as_ints(r.unused@) == unused_spec(v, dep_ids(ds))
    &&& as_ints(r.mismatched@) == mismatched_spec(ds)
}

proof fn lemma_as_ints_injective(a: Seq<usize>, b: Seq<usize>)
    requires
        as_ints(a) == as_ints(b),
    ensures
        a == b,
{
    assert(a.len() == as_ints(a).len());
    assert(b.len() == as_ints(b).len());
    assert forall|i: int| 0 <= i < a.len() implies a[i] == b[i] by {
        assert(as_ints(a)[i] == a[i] as int);
        assert(as_ints(b)[i] == b[i] as int);
    }
    assert(a =~= b);
}

/// Reconciling the same vendored crates against the same records twice gives
/// the same diagnostics.
pub proof fn lemma_reconcile_deterministic(
    v: Seq<Identity>,
    ds: Seq<ThirdPartyDep>,
    r1: Reconciliation,
    r2: Reconciliation,
)
    requires
        reconciled(v, ds, r1),
        reconciled(v, ds, r2),
    ensures
        r1.missing@ == r2.missing@,
        r1.unused@ == r2.unused@,
        r1.mismatched@ == r2.mismatched@,
{
    lemma_as_ints_injective(r1.missing@, r2.missing@);
    lemma_as_ints_injective(r1.unused@, r2.unused@);
    lemma_as_ints_injective(r1.mismatched@, r2.mismatched@);
}

/// A position is listed exactly when it is below `n` and `p` holds of it.
pub proof fn lemma_indices_where(n: nat, p: spec_fn(int) -> bool)
    ensures
        forall|k: int| indices_where(n, p).contains(k) <==> 0 <= k < n && p(k),
    decreases n,
{
    if n > 0 {
        lemma_indices_where((n - 1) as nat, p);
        let s = indices_where((n - 1) as nat, p);
        if p(n - 1) {
            assert forall|k: int| s.push(n - 1).contains(k) <==> (s.contains(k) || k == n - 1) by {
                if s.push(n - 1).contains(k) {
                    let a = choose|a: int| 0 <= a < s.len() + 1 && #[trigger] s.push(n - 1)[a] == k;
                    if a < s.len() {
                        assert(s[a] == k);
                    }
                }
                if s.contains(k) {
                    let a = choose|a: int| 0 <= a < s.len() && #[trigger] s[a] == k;
                    assert(s.push(n - 1)[a] == k);
                }
                if k == n - 1 {
                    assert(s.push(n - 1)[s.len() as int] == k);
                }
            }
            assert(indices_where(n, p) == s.push(n - 1));
        } else {
            assert(indices_where(n, p) == s);
        }
        assert forall|k: int| indices_where(n, p).contains(k) <==> 0 <= k < n && p(k) by {
            assert(s.contains(k) <==> 0 <= k < n - 1 && p(k));
        }
    } else {
        assert(indices_where(n, p) =~= Seq::<int>::empty());
        assert forall|k: int| indices_where(n, p).contains(k) <==> 0 <= k < n && p(k) by {
            if indices_where(n, p).contains(k) {
                let a = choose|a: int| 0 <= a < indices_where(n, p).len() && indices_where(n, p)[a] == k;
            }
        }
    }
}

proof fn lemma_first_occurrence(d: Seq<Identity>, x: Identity)
    requires
        d.contains(x),
    ensures
        exists|j: int| 0 <= j < d.len() && d[j] == x && !(#[trigger] d.take(j)).contains(x),
    decreases d.len(),
{
    let last = d.len() - 1;
    if d.drop_last().contains(x) {
        lemma_first_occurrence(d.drop_last(), x);
        let j = choose|j: int|
            0 <= j < d.drop_last().len() && d.drop_last()[j] == x && !(#[trigger] d.drop_last().take(
                j,
            )).contains(x);
        assert(d.drop_last().take(j) =~= d.take(j));
        assert(d[j] == x);
    } else {
        assert(d.take(last) =~= d.drop_last());
        let a = choose|a: int| 0 <= a < d.len() && d[a] == x;
        if a < last {
            assert(d.drop_last()[a] == x);
        }
        assert(d[last] == x);
    }
}

/// The unused crates are exactly the vendored identities that no record has,
/// and the missing records are exactly the reported identities that are not
/// vendored, each named once: together they split the symmetric difference of
/// the two sets of identities.
pub proof fn lemma_reconcile_partition(v: Seq<Identity>, d: Seq<Identity>)
    ensures
        forall|x: Identity|
            (exists|i: int| #[trigger] unused_spec(v, d).contains(i) && v[i] == x) <==> (
            v.contains(x) && !d.contains(x)),
        forall|x: Identity|
            (exists|j: int| #[trigger] missing_spec(v, d).contains(j) && d[j] == x) <==> (
            d.contains(x) && !v.contains(x)),
        forall|j1: int, j2: int|
            #![trigger missing_spec(v, d).contains(j1), missing_spec(v, d).contains(j2)]
            missing_spec(v, d).contains(j1) && missing_spec(v, d).contains(j2) && d[j1] == d[j2]
                ==> j1 == j2,
{
    lemma_indices_where(v.len(), unused_pred(v, d));
    lemma_indices_where(d.len(), missing_pred(v, d));
    assert forall|x: Identity|
        (exists|i: int| #[trigger] unused_spec(v, d).contains(i) && v[i] == x) <==> (v.contains(x)
            && !d.contains(x)) by {
        if v.contains(x) && !d.contains(x) {
            let i = choose|i: int| 0 <= i < v.len() && v[i] == x;
            assert(unused_spec(v, d).contains(i));
        }
    }
    assert forall|x: Identity|
        (exists|j: int| #[trigger] missing_spec(v, d).contains(j) && d[j] == x) <==> (d.contains(x)
            && !v.contains(x)) by {
        if exists|j: int| #[trigger] missing_spec(v, d).contains(j) && d[j] == x {
            let j = choose|j: int| #[trigger] missing_spec(v, d).contains(j) && d[j] == x;
            assert(d.contains(d[j]));
        }
        if d.contains(x) && !v.contains(x) {
            lemma_first_occurrence(d, x);
            let j = choose|j: int| 0 <= j < d.len() && d[j] == x && !(#[trigger] d.take(j)).contains(x);
            assert(missing_spec(v, d).contains(j));
        }
    }
    assert forall|j1: int, j2: int|
        #![trigger missing_spec(v, d).contains(j1), missing_spec(v, d).contains(j2)]
        missing_spec(v, d).contains(j1) && missing_spec(v, d).contains(j2) && d[j1] == d[j2]
            implies j1 == j2 by {
        if j1 < j2 {
            assert(d.take(j2)[j1] == d[j2]);
        } else if j2 < j1 {
            assert(d.take(j1)[j2] == d[j1]);
        }
    }
}

} // verus!
