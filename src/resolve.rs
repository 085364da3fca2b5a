//! The dependency resolver: from root packages, assembles the installation
//! plan, every package with the index of the repository it comes from, so
//! that every run dependency of a package of the plan is met by a package of
//! the plan.
//!
//! Errors do not stop the walk: all the failures of one resolution are
//! reported together.
use crate::install::{entry_of, find_installed};
use crate::package::{dependency_met, Dependency, DependencyView, InstalledPackage, Package, PackageView};
use crate::repository::{
    get_package_with_constraint, is_candidate, offered, repo_candidate,
    Repository,
};
use crate::text::same_text;
use crate::version::{satisfies, ConstraintView, Version, VersionConstraint};
use vstd::prelude::*;
use vstd::seq_lib::seq_to_set_is_finite;
use vstd::set::axiom_set_difference_finite;
use vstd::set::axiom_set_remove_len;
use vstd::set_lib::lemma_len_subset;

verus! {

/// A failure of dependency resolution.
#[derive(Clone, Debug, PartialEq, Eq)]
pub enum ResolveError {
    /// No repository offers a package that meets the dependency.
    NotFound {
        /// The name of the dependency.
        name: String,
        /// The version constraint of the dependency.
        version_constraint: VersionConstraint,
    },
    /// The package of the plan with the dependency's name does not satisfy
    /// the dependency's constraint.
    VersionConflict {
        /// The name of the dependency.
        name: String,
        /// The constraint of the dependency.
        required_version: VersionConstraint,
        /// The version of the package in the plan.
        other_version: Version,
    },
    /// The dependency leads back to a package that is being resolved.
    DependencyCycle {
        /// The names from the package resolved first to the dependency that
        /// closes the cycle.
        path: Vec<String>,
    },
}

/// Whether some package of the plan meets dependency `d`.
pub open spec fn met_in(m: Seq<(Package, usize)>, d: DependencyView) -> bool {
    exists|q: int|
        0 <= q < m.len() && (#[trigger] m[q]).0.name@ == d.name && satisfies(
            d.constraint,
            m[q].0.version@,
        )
}

/// Whether dependency `d` is met by a package of the plan or by an
/// installed package.
pub open spec fn met(m: Seq<(Package, usize)>, installed: Seq<InstalledPackage>, d: DependencyView) -> bool {
    met_in(m, d) || dependency_met(installed, d)
}

/// Whether every run dependency of `p` is met by a package of the plan or
/// by an installed package.
pub open spec fn deps_met(m: Seq<(Package, usize)>, installed: Seq<InstalledPackage>, p: Package) -> bool {
    forall|j: int| 0 <= j < p@.run_deps.len() ==> met(m, installed, #[trigger] p@.run_deps[j])
}

/// Whether every package of the plan has all its run dependencies met
/// within the plan or by installed packages.
pub open spec fn plan_closed(m: Seq<(Package, usize)>, installed: Seq<InstalledPackage>) -> bool {
    forall|k: int| 0 <= k < m.len() ==> deps_met(m, installed, (#[trigger] m[k]).0)
}

/// When nothing is installed, every run dependency of every package of a
/// closed plan is met by a package of the plan.
pub proof fn lemma_closed_plan_self_contained(m: Seq<(Package, usize)>)
    requires
        plan_closed(m, Seq::<InstalledPackage>::empty()),
    ensures
        forall|k: int, j: int|
            0 <= k < m.len() && 0 <= j < m[k].0@.run_deps.len() ==> met_in(m, #[trigger] m[k].0@.run_deps[j]),
{
    assert forall|k: int, j: int| 0 <= k < m.len() && 0 <= j < m[k].0@.run_deps.len() implies met_in(
        m,
        #[trigger] m[k].0@.run_deps[j],
    ) by {
        assert(deps_met(m, Seq::<InstalledPackage>::empty(), m[k].0));
        assert(met(m, Seq::<InstalledPackage>::empty(), m[k].0@.run_deps[j]));
    }
}

/// Whether entry `k` of the plan is a package that repository `m[k].1` of
/// `repos` holds.
pub open spec fn from_repos(repos: Seq<Repository>, m: Seq<(Package, usize)>, k: int) -> bool {
    &&& m[k].1 < repos.len()
    &&& exists|q: int|
        0 <= q < repos[m[k].1 as int].packages@.len() && (#[trigger] repos[m[k].1 as int].packages@[q])@
            == m[k].0@
}

/// Whether `q` is the package resolved first (`root`) or a package of the
/// plan.
pub open spec fn in_scope(root: PackageView, m: Seq<(Package, usize)>, q: PackageView) -> bool {
    q == root || exists|k: int| 0 <= k < m.len() && (#[trigger] m[k]).0@ == q
}

/// Whether `(name, c)` is a run dependency of `root` or of a package of the
/// plan.
pub open spec fn is_dep_of(root: PackageView, m: Seq<(Package, usize)>, name: Seq<char>, c: ConstraintView) -> bool {
    exists|q: PackageView, j: int|
        in_scope(root, m, q) && 0 <= j < q.run_deps.len() && #[trigger] q.run_deps[j] == (DependencyView {
            name,
            constraint: c,
        })
}

/// Whether a package named `a`, `root` or one of the plan, has a run
/// dependency named `b`.
pub open spec fn has_edge(root: PackageView, m: Seq<(Package, usize)>, a: Seq<char>, b: Seq<char>) -> bool {
    exists|q: PackageView, j: int|
        in_scope(root, m, q) && q.name == a && 0 <= j < q.run_deps.len() && (#[trigger] q.run_deps[j]).name
            == b
}

/// Whether a package of the plan or an installed package is named `name`
/// with version `v`.
pub open spec fn version_in(
    m: Seq<(Package, usize)>,
    installed: Seq<InstalledPackage>,
    name: Seq<char>,
    v: Seq<u32>,
) -> bool {
    (exists|k: int| 0 <= k < m.len() && (#[trigger] m[k]).0.name@ == name && m[k].0.version@ == v)
        || (exists|k: int|
        0 <= k < installed.len() && (#[trigger] installed[k]).desc.name@ == name
            && installed[k].desc.version@ == v)
}

/// Whether error `e` reports a real failure met while resolving from
/// `root` into the plan `m`:
/// - a missing dependency is a run dependency of `root` or of the plan, not
///   installed, and offered by no repository;
/// - a conflict names a run dependency of `root` or of the plan, and the
///   version of the plan or installed package of that name, which does not
///   satisfy it;
/// - a cycle starts at `root`, follows run dependencies, and ends with a
///   name that it already holds.
pub open spec fn justified(
    repos: Seq<Repository>,
    installed: Seq<InstalledPackage>,
    root: PackageView,
    m: Seq<(Package, usize)>,
    e: ResolveError,
) -> bool {
    match e {
        ResolveError::NotFound { name, version_constraint } => offered(
            repos,
            name@,
            Some(version_constraint@),
        ) is None && entry_of(installed, name@) is None && is_dep_of(root, m, name@, version_constraint@),
        ResolveError::VersionConflict { name, required_version, other_version } => !satisfies(
            required_version@,
            other_version@,
        ) && is_dep_of(root, m, name@, required_version@) && version_in(m, installed, name@, other_version@),
        ResolveError::DependencyCycle { path } => path@.len() >= 2 && path@[0]@ == root.name && (forall|k: int|
            0 <= k < path@.len() - 1 ==> has_edge(root, m, (#[trigger] path@[k])@, path@[k + 1]@)) && exists|k: int|
            0 <= k < path@.len() - 1 && (#[trigger] path@[k])@ == path@[path@.len() - 1]@,
    }
}

/// Whether error `e`, when it reports a missing dependency, names no
/// package of `base`, the plan as it was given.
pub open spec fn outside(e: ResolveError, base: Seq<(Package, usize)>) -> bool {
    match e {
        ResolveError::NotFound { name, .. } => forall|k: int|
            0 <= k < base.len() ==> (#[trigger] base[k]).0.name@ != name@,
        _ => true,
    }
}

/// Whether entry `k` of the plan is the package that the repositories offer
/// for a run dependency of `root` or of a package of the plan.
pub open spec fn brought_in(repos: Seq<Repository>, root: PackageView, m: Seq<(Package, usize)>, k: int) -> bool {
    exists|q: PackageView, j: int, i: int|
        in_scope(root, m, q) && 0 <= j < q.run_deps.len() && offered(
            repos,
            (#[trigger] q.run_deps[j]).name,
            Some(q.run_deps[j].constraint),
        ) == Some((m[k].1 as int, i)) && 0 <= i < repos[m[k].1 as int].packages@.len() && m[k].0@
            == (#[trigger] repos[m[k].1 as int].packages@[i])@
}

/// Whether the errors `e` of resolving from `root` have their own sources:
/// `root` itself or a plan entry from index `lo` on.
pub open spec fn has_sources(root: PackageView, m: Seq<(Package, usize)>, e: Seq<ResolveError>, lo: int) -> bool {
    exists|attr: Sources| #[trigger] attribution(root, m, e, 0, attr, -1, lo)
}

/// The sources of errors: pairs (package index, dependency index).
pub type Sources = Seq<(int, int)>;

/// Whether error `e` can come from run dependency `j` of package `q`: a
/// missing or conflicting dependency is that dependency, and a cycle ends
/// with the step from `q` along it.
pub open spec fn err_matches(e: ResolveError, q: PackageView, j: int) -> bool {
    0 <= j < q.run_deps.len() && match e {
        ResolveError::NotFound { name, version_constraint } => q.run_deps[j] == (DependencyView {
            name: name@,
            constraint: version_constraint@,
        }),
        ResolveError::VersionConflict { name, required_version, .. } => q.run_deps[j] == (DependencyView {
            name: name@,
            constraint: required_version@,
        }),
        ResolveError::DependencyCycle { path } => path@.len() >= 2 && q.name == path@[path@.len() - 2]@
            && q.run_deps[j].name == path@[path@.len() - 1]@,
    }
}

/// The package at index `k` of the plan, or `root` for a negative index.
pub open spec fn pkg_at(root: PackageView, m: Seq<(Package, usize)>, k: int) -> PackageView {
    if k < 0 {
        root
    } else {
        m[k].0@
    }
}

/// Whether `attr` gives each error from index `from` on its own source: a
/// pair (package, dependency index), no pair used twice, where the package
/// is `pidx` (the package resolved) or a plan entry from index `lo` on, and
/// the error can come from that dependency.
pub open spec fn attribution(
    root: PackageView,
    m: Seq<(Package, usize)>,
    errors: Seq<ResolveError>,
    from: int,
    attr: Seq<(int, int)>,
    pidx: int,
    lo: int,
) -> bool {
    &&& attr.len() == errors.len() - from
    &&& forall|a: int|
        0 <= a < attr.len() ==> ((#[trigger] attr[a]).0 == pidx || lo <= attr[a].0 < m.len()) && err_matches(
            errors[from + a],
            pkg_at(root, m, attr[a].0),
            attr[a].1,
        )
    &&& forall|a: int, b: int| 0 <= a < b < attr.len() ==> #[trigger] attr[a] != #[trigger] attr[b]
}

proof fn lemma_attr_push(
    root: PackageView,
    m: Seq<(Package, usize)>,
    errors: Seq<ResolveError>,
    e: ResolveError,
    from: int,
    attr: Seq<(int, int)>,
    pidx: int,
    lo: int,
    j: int,
)
    requires
        attribution(root, m, errors, from, attr, pidx, lo),
        forall|a: int| 0 <= a < attr.len() && (#[trigger] attr[a]).0 == pidx ==> attr[a].1 < j,
        pidx < lo,
        0 <= from <= errors.len(),
        err_matches(e, pkg_at(root, m, pidx), j),
    ensures
        attribution(root, m, errors.push(e), from, attr.push((pidx, j)), pidx, lo),
        forall|a: int| 0 <= a < attr.len() + 1 && (#[trigger] attr.push((pidx, j))[a]).0 == pidx ==> attr.push((pidx, j))[a].1 < j + 1,
{
    let na = attr.push((pidx, j));
    let ne = errors.push(e);
    assert forall|a: int| 0 <= a < na.len() implies ((#[trigger] na[a]).0 == pidx || lo <= na[a].0 < m.len()) && err_matches(
        ne[from + a],
        pkg_at(root, m, na[a].0),
        na[a].1,
    ) by {
        if a < attr.len() {
            assert(na[a] == attr[a]);
            assert(ne[from + a] == errors[from + a]);
        } else {
            assert(ne[from + a] == e);
        }
    }
    assert forall|a: int, b: int| 0 <= a < b < na.len() implies #[trigger] na[a] != #[trigger] na[b] by {
        if b == attr.len() {
            assert(na[a] == attr[a]);
        } else {
            assert(na[a] == attr[a] && na[b] == attr[b]);
        }
    }
}

proof fn lemma_attr_grow(
    root: PackageView,
    m: Seq<(Package, usize)>,
    m2: Seq<(Package, usize)>,
    errors: Seq<ResolveError>,
    from: int,
    attr: Seq<(int, int)>,
    pidx: int,
    lo: int,
)
    requires
        attribution(root, m, errors, from, attr, pidx, lo),
        is_prefix(m, m2),
        pidx < m.len(),
    ensures
        attribution(root, m2, errors, from, attr, pidx, lo),
        forall|a: int| 0 <= a < attr.len() ==> (#[trigger] attr[a]).0 < m.len(),
{
    assert forall|a: int| 0 <= a < attr.len() implies ((#[trigger] attr[a]).0 == pidx || lo <= attr[a].0 < m2.len()) && err_matches(
        errors[from + a],
        pkg_at(root, m2, attr[a].0),
        attr[a].1,
    ) by {
        if attr[a].0 >= 0 {
            assert(m2[attr[a].0] == m[attr[a].0]);
        }
    }
}

proof fn lemma_attr_append(
    root: PackageView,
    m: Seq<(Package, usize)>,
    eb: Seq<ResolveError>,
    errs: Seq<ResolveError>,
    from: int,
    attr: Seq<(int, int)>,
    cattr: Seq<(int, int)>,
    pidx: int,
    lo: int,
    mid: int,
)
    requires
        is_prefix(eb, errs),
        0 <= from <= eb.len(),
        attribution(root, m, eb, from, attr, pidx, lo),
        forall|a: int| 0 <= a < attr.len() ==> (#[trigger] attr[a]).0 < mid,
        attribution(root, m, errs, eb.len() as int, cattr, mid, mid + 1),
        pidx < lo <= mid < m.len(),
    ensures
        attribution(root, m, errs, from, attr + cattr, pidx, lo),
        forall|a: int| 0 <= a < cattr.len() ==> (#[trigger] cattr[a]).0 >= mid,
{
    let na = attr + cattr;
    assert forall|a: int| 0 <= a < na.len() implies ((#[trigger] na[a]).0 == pidx || lo <= na[a].0 < m.len()) && err_matches(
        errs[from + a],
        pkg_at(root, m, na[a].0),
        na[a].1,
    ) by {
        if a < attr.len() {
            assert(na[a] == attr[a]);
            assert(attr.len() == eb.len() - from);
            assert(errs[from + a] == eb[from + a]);
            assert(err_matches(eb[from + a], pkg_at(root, m, attr[a].0), attr[a].1));
        } else {
            let c = a - attr.len();
            assert(na[a] == cattr[c]);
            assert(attr.len() == eb.len() - from);
            assert(from + a == eb.len() + c);
            assert(cattr[c].0 == mid || mid + 1 <= cattr[c].0 < m.len());
            assert(err_matches(errs[eb.len() + c], pkg_at(root, m, cattr[c].0), cattr[c].1));
            assert(errs[from + a] == errs[eb.len() + c]);
            assert(lo <= na[a].0 < m.len());
        }
    }
    assert forall|a: int, b: int| 0 <= a < b < na.len() implies #[trigger] na[a] != #[trigger] na[b] by {
        if b < attr.len() {
            assert(na[a] == attr[a] && na[b] == attr[b]);
        } else if a >= attr.len() {
            assert(na[a] == cattr[a - attr.len()] && na[b] == cattr[b - attr.len()]);
        } else {
            assert(na[a] == attr[a] && na[b] == cattr[b - attr.len()]);
            assert(cattr[b - attr.len()].0 >= mid);
        }
    }
    assert forall|a: int| 0 <= a < cattr.len() implies (#[trigger] cattr[a]).0 >= mid by {
        assert(cattr[a].0 == mid || mid + 1 <= cattr[a].0);
    }
}

/// Whether every error from index `from` on is justified.
pub open spec fn all_justified(
    repos: Seq<Repository>,
    installed: Seq<InstalledPackage>,
    root: PackageView,
    m: Seq<(Package, usize)>,
    errors: Seq<ResolveError>,
    from: int,
) -> bool {
    forall|i: int| from <= i < errors.len() ==> justified(repos, installed, root, m, #[trigger] errors[i])
}

/// Whether the packages added to the plan from index `from` on have names
/// that no other package of the plan has.
pub open spec fn fresh_names(m: Seq<(Package, usize)>, from: int) -> bool {
    forall|a: int, b: int|
        0 <= a < b < m.len() && from <= b ==> (#[trigger] m[a]).0.name@ != (#[trigger] m[b]).0.name@
}

proof fn lemma_justified_mono(
    repos: Seq<Repository>,
    installed: Seq<InstalledPackage>,
    root: PackageView,
    m: Seq<(Package, usize)>,
    m2: Seq<(Package, usize)>,
    e: ResolveError,
)
    requires
        is_prefix(m, m2),
        justified(repos, installed, root, m, e),
    ensures
        justified(repos, installed, root, m2, e),
{
    assert forall|q: PackageView| in_scope(root, m, q) implies in_scope(root, m2, q) by {
        if q != root {
            let k = choose|k: int| 0 <= k < m.len() && (#[trigger] m[k]).0@ == q;
            assert(m2[k] == m[k]);
        }
    }
    match e {
        ResolveError::NotFound { name, version_constraint } => {
            let (q, j) = choose|q: PackageView, j: int|
                in_scope(root, m, q) && 0 <= j < q.run_deps.len() && #[trigger] q.run_deps[j] == (DependencyView {
                    name: name@,
                    constraint: version_constraint@,
                });
            assert(in_scope(root, m2, q));
        },
        ResolveError::VersionConflict { name, required_version, other_version } => {
            let (q, j) = choose|q: PackageView, j: int|
                in_scope(root, m, q) && 0 <= j < q.run_deps.len() && #[trigger] q.run_deps[j] == (DependencyView {
                    name: name@,
                    constraint: required_version@,
                });
            assert(in_scope(root, m2, q));
            if exists|k: int| 0 <= k < m.len() && (#[trigger] m[k]).0.name@ == name@ && m[k].0.version@ == other_version@ {
                let k = choose|k: int| 0 <= k < m.len() && (#[trigger] m[k]).0.name@ == name@ && m[k].0.version@ == other_version@;
                assert(m2[k] == m[k]);
            }
        },
        ResolveError::DependencyCycle { path } => {
            assert forall|k: int| 0 <= k < path@.len() - 1 implies has_edge(root, m2, (#[trigger] path@[k])@, path@[k + 1]@) by {
                assert(has_edge(root, m, path@[k]@, path@[k + 1]@));
                let (q, j) = choose|q: PackageView, j: int|
                    in_scope(root, m, q) && q.name == path@[k]@ && 0 <= j < q.run_deps.len() && (#[trigger] q.run_deps[j]).name
                        == path@[k + 1]@;
                assert(in_scope(root, m2, q));
            }
        },
    }
}

proof fn lemma_in_scope_mono(root: PackageView, m: Seq<(Package, usize)>, m2: Seq<(Package, usize)>, q: PackageView)
    requires
        is_prefix(m, m2),
        in_scope(root, m, q),
    ensures
        in_scope(root, m2, q),
{
    if q != root {
        let k = choose|k: int| 0 <= k < m.len() && (#[trigger] m[k]).0@ == q;
        assert(m2[k] == m[k]);
    }
}

proof fn lemma_has_edge_mono(root: PackageView, m: Seq<(Package, usize)>, m2: Seq<(Package, usize)>, a: Seq<char>, b: Seq<char>)
    requires
        is_prefix(m, m2),
        has_edge(root, m, a, b),
    ensures
        has_edge(root, m2, a, b),
{
    let (q, j) = choose|q: PackageView, j: int|
        in_scope(root, m, q) && q.name == a && 0 <= j < q.run_deps.len() && (#[trigger] q.run_deps[j]).name == b;
    lemma_in_scope_mono(root, m, m2, q);
}

proof fn lemma_brought_in_mono(repos: Seq<Repository>, root: PackageView, m: Seq<(Package, usize)>, m2: Seq<(Package, usize)>, k: int)
    requires
        is_prefix(m, m2),
        0 <= k < m.len(),
        brought_in(repos, root, m, k),
    ensures
        brought_in(repos, root, m2, k),
{
    let (q, j, i) = choose|q: PackageView, j: int, i: int|
        in_scope(root, m, q) && 0 <= j < q.run_deps.len() && offered(
            repos,
            (#[trigger] q.run_deps[j]).name,
            Some(q.run_deps[j].constraint),
        ) == Some((m[k].1 as int, i)) && 0 <= i < repos[m[k].1 as int].packages@.len() && m[k].0@
            == (#[trigger] repos[m[k].1 as int].packages@[i])@;
    lemma_in_scope_mono(root, m, m2, q);
    assert(m2[k] == m[k]);
}

proof fn lemma_all_justified_mono(
    repos: Seq<Repository>,
    installed: Seq<InstalledPackage>,
    root: PackageView,
    m: Seq<(Package, usize)>,
    m2: Seq<(Package, usize)>,
    errors: Seq<ResolveError>,
    from: int,
)
    requires
        is_prefix(m, m2),
        all_justified(repos, installed, root, m, errors, from),
    ensures
        all_justified(repos, installed, root, m2, errors, from),
{
    assert forall|i: int| from <= i < errors.len() implies justified(repos, installed, root, m2, #[trigger] errors[i]) by {
        lemma_justified_mono(repos, installed, root, m, m2, errors[i]);
    }
}

/// Whether no run dependency of `q` is named by an element of `names`.
pub open spec fn avoids(q: PackageView, names: Seq<String>) -> bool {
    forall|j: int, k: int|
        0 <= j < q.run_deps.len() && 0 <= k < names.len() ==> (#[trigger] q.run_deps[j]).name != (
        #[trigger] names[k])@
}

/// Whether `a` is a prefix of `b`.
pub open spec fn is_prefix<T>(a: Seq<T>, b: Seq<T>) -> bool {
    a.len() <= b.len() && forall|k: int| 0 <= k < a.len() ==> a[k] == b[k]
}

/// The names of all the packages of all the repositories.
pub open spec fn repo_names(repos: Seq<Repository>) -> Seq<Seq<char>>
    decreases repos.len(),
{
    if repos.len() == 0 {
        Seq::<Seq<char>>::empty()
    } else {
        repo_names(repos.drop_last()) + repos.last().packages@.map_values(|p: Package| p.name@)
    }
}

/// The names of the packages of the plan.
pub open spec fn plan_names(m: Seq<(Package, usize)>) -> Set<Seq<char>> {
    Set::new(|n: Seq<char>| exists|k: int| 0 <= k < m.len() && (#[trigger] m[k]).0.name@ == n)
}

/// How many names of the repositories the plan does not hold yet.
pub open spec fn unresolved(repos: Seq<Repository>, m: Seq<(Package, usize)>) -> nat {
    repo_names(repos).to_set().difference(plan_names(m)).len()
}

proof fn lemma_repo_name(repos: Seq<Repository>, i: int, k: int)
    requires
        0 <= i < repos.len(),
        0 <= k < repos[i].packages@.len(),
    ensures
        repo_names(repos).contains(repos[i].packages@[k].name@),
    decreases repos.len(),
{
    let last = repos.last().packages@.map_values(|p: Package| p.name@);
    if i == repos.len() - 1 {
        assert((repo_names(repos.drop_last()) + last)[repo_names(repos.drop_last()).len() + k]
            == repos[i].packages@[k].name@);
    } else {
        lemma_repo_name(repos.drop_last(), i, k);
        let j = choose|j: int|
            0 <= j < repo_names(repos.drop_last()).len() && repo_names(repos.drop_last())[j]
                == repos[i].packages@[k].name@;
        assert((repo_names(repos.drop_last()) + last)[j] == repos[i].packages@[k].name@);
    }
}

proof fn lemma_unresolved_shrinks(
    repos: Seq<Repository>,
    m: Seq<(Package, usize)>,
    m2: Seq<(Package, usize)>,
    n: Seq<char>,
)
    requires
        is_prefix(m, m2),
        repo_names(repos).contains(n),
        !plan_names(m).contains(n),
        plan_names(m2).contains(n),
    ensures
        unresolved(repos, m2) < unresolved(repos, m),
{
    let s = repo_names(repos).to_set();
    seq_to_set_is_finite(repo_names(repos));
    let a = s.difference(plan_names(m));
    let b = s.difference(plan_names(m2));
    axiom_set_difference_finite(s, plan_names(m));
    assert(b.subset_of(a.remove(n))) by {
        assert forall|x: Seq<char>| b.contains(x) implies a.remove(n).contains(x) by {
            if plan_names(m).contains(x) {
                let k = choose|k: int| 0 <= k < m.len() && (#[trigger] m[k]).0.name@ == x;
                assert(m2[k] == m[k]);
            }
        }
    }
    assert(s.contains(n));
    axiom_set_remove_len(a, n);
    lemma_len_subset(b, a.remove(n));
}

proof fn lemma_unresolved_mono(repos: Seq<Repository>, m: Seq<(Package, usize)>, m2: Seq<(Package, usize)>)
    requires
        is_prefix(m, m2),
    ensures
        unresolved(repos, m2) <= unresolved(repos, m),
{
    let s = repo_names(repos).to_set();
    seq_to_set_is_finite(repo_names(repos));
    let a = s.difference(plan_names(m));
    let b = s.difference(plan_names(m2));
    axiom_set_difference_finite(s, plan_names(m));
    assert(b.subset_of(a)) by {
        assert forall|x: Seq<char>| b.contains(x) implies a.contains(x) by {
            if plan_names(m).contains(x) {
                let k = choose|k: int| 0 <= k < m.len() && (#[trigger] m[k]).0.name@ == x;
                assert(m2[k] == m[k]);
            }
        }
    }
    lemma_len_subset(b, a);
}

proof fn lemma_met_mono(m: Seq<(Package, usize)>, m2: Seq<(Package, usize)>, d: DependencyView)
    requires
        is_prefix(m, m2),
        met_in(m, d),
    ensures
        met_in(m2, d),
{
    let q = choose|q: int|
        0 <= q < m.len() && (#[trigger] m[q]).0.name@ == d.name && satisfies(d.constraint, m[q].0.version@);
    assert(m2[q] == m[q]);
}

proof fn lemma_deps_met_mono(
    m: Seq<(Package, usize)>,
    m2: Seq<(Package, usize)>,
    installed: Seq<InstalledPackage>,
    p: Package,
)
    requires
        is_prefix(m, m2),
        deps_met(m, installed, p),
    ensures
        deps_met(m2, installed, p),
{
    assert forall|j: int| 0 <= j < p@.run_deps.len() implies met(m2, installed, #[trigger] p@.run_deps[j]) by {
        if met_in(m, p@.run_deps[j]) {
            lemma_met_mono(m, m2, p@.run_deps[j]);
        }
    }
}

/// Whether `name` is one of the names of `stack`.
fn on_stack(stack: &Vec<String>, name: &String) -> (r: bool)
    ensures
        r == exists|k: int| 0 <= k < stack@.len() && (#[trigger] stack@[k])@ == name@,
{
    let mut k: usize = 0;
    while k < stack.len()
        invariant
            k <= stack@.len(),
            forall|j: int| 0 <= j < k ==> (#[trigger] stack@[j])@ != name@,
        decreases stack@.len() - k,
    {
        if same_text(stack[k].as_str(), name.as_str()) {
            return true;
        }
        k = k + 1;
    }
    false
}

/// The index of the first package of the plan named `name`.
fn find_in_plan(m: &Vec<(Package, usize)>, name: &String) -> (r: Option<usize>)
    ensures
        match r {
            Some(q) => q < m@.len() && m@[q as int].0.name@ == name@,
            None => !plan_names(m@).contains(name@),
        },
{
    let mut q: usize = 0;
    while q < m.len()
        invariant
            q <= m@.len(),
            forall|j: int| 0 <= j < q ==> (#[trigger] m@[j]).0.name@ != name@,
        decreases m@.len() - q,
    {
        if same_text(m[q].0.name.as_str(), name.as_str()) {
            return Some(q);
        }
        q = q + 1;
    }
    None
}

/// Copies the names of the stack and appends `last`.
fn cycle_path(stack: &Vec<String>, last: &String) -> (r: Vec<String>)
    ensures
        r@.len() == stack@.len() + 1,
        forall|k: int| 0 <= k < stack@.len() ==> (#[trigger] r@[k])@ == stack@[k]@,
        r@[stack@.len() as int]@ == last@,
{
    let mut path: Vec<String> = Vec::new();
    let mut k: usize = 0;
    while k < stack.len()
        invariant
            k <= stack@.len(),
            path@.len() == k,
            forall|j: int| 0 <= j < k ==> (#[trigger] path@[j])@ == stack@[j]@,
        decreases stack@.len() - k,
    {
        path.push(stack[k].clone());
        k = k + 1;
    }
    path.push(last.clone());
    path
}

/// Resolves the run dependencies of `p`, adding to the plan `m` the packages
/// they lead to and to `errors` the failures met. `stack` holds the names of
/// the packages being resolved.
fn resolve_rec(
    p: &Package,
    repos: &Vec<Repository>,
    installed: &Vec<InstalledPackage>,
    m: &mut Vec<(Package, usize)>,
    stack: &mut Vec<String>,
    errors: &mut Vec<ResolveError>,
    Ghost(root): Ghost<PackageView>,
    Ghost(pidx): Ghost<int>,
) -> (attr_out: Ghost<Seq<(int, int)>>)
    requires
        (pidx == -1 && p@ == root) || (0 <= pidx < old(m)@.len() && old(m)@[pidx].0@ == p@),
        old(stack)@.len() >= 1,
        old(stack)@[0]@ == root.name,
        old(stack)@[old(stack)@.len() - 1]@ == p.name@,
        forall|k: int|
            0 <= k < old(stack)@.len() - 1 ==> has_edge(root, old(m)@, (#[trigger] old(stack)@[k])@, old(stack)@[k + 1]@),
        in_scope(root, old(m)@, p@),
    ensures
        attribution(root, final(m)@, final(errors)@, old(errors)@.len() as int, attr_out@, pidx, old(m)@.len() as int),
        is_prefix(old(m)@, final(m)@),
        is_prefix(old(errors)@, final(errors)@),
        all_justified(repos@, installed@, root, final(m)@, final(errors)@, old(errors)@.len() as int),
        forall|a: int, b: int|
            0 <= a < b < final(m)@.len() && old(m)@.len() <= b ==> (#[trigger] final(m)@[a]).0.name@ != (
            #[trigger] final(m)@[b]).0.name@,
        final(stack)@ == old(stack)@,
        p.run_deps@.len() == 0 ==> final(errors)@ == old(errors)@ && final(m)@ == old(m)@,
        forall|k: int| old(m)@.len() <= k < final(m)@.len() ==> from_repos(repos@, final(m)@, k),
        forall|k: int| old(m)@.len() <= k < final(m)@.len() ==> brought_in(repos@, root, final(m)@, k),
        forall|i: int|
            old(errors)@.len() <= i < final(errors)@.len() ==> outside(#[trigger] final(errors)@[i], old(m)@),
        final(errors)@.len() == old(errors)@.len() ==> avoids(p@, old(stack)@) && forall|k: int|
            old(m)@.len() <= k < final(m)@.len() ==> avoids((#[trigger] final(m)@[k]).0@, old(stack)@),
        final(errors)@.len() == old(errors)@.len() ==> deps_met(final(m)@, installed@, *p) && forall|k: int|
            old(m)@.len() <= k < final(m)@.len() ==> deps_met(final(m)@, installed@, (#[trigger] final(m)@[k]).0),
    decreases unresolved(repos@, old(m)@),
{
    let ghost m0 = m@;
    let ghost e0 = errors@;
    let n = p.run_deps.len();
    let ghost mut attr: Seq<(int, int)> = Seq::empty();
    let mut j: usize = 0;
    while j < n
        invariant
            n == p.run_deps@.len(),
            j <= n,
            is_prefix(m0, m@),
            is_prefix(e0, errors@),
            all_justified(repos@, installed@, root, m@, errors@, e0.len() as int),
            forall|a: int, b: int|
                0 <= a < b < m@.len() && m0.len() <= b ==> (#[trigger] m@[a]).0.name@ != (#[trigger] m@[b]).0.name@,
            stack@.len() >= 1,
            stack@[0]@ == root.name,
            stack@[stack@.len() - 1]@ == p.name@,
            forall|k: int|
                0 <= k < stack@.len() - 1 ==> has_edge(root, m@, (#[trigger] stack@[k])@, stack@[k + 1]@),
            in_scope(root, m@, p@),
            (pidx == -1 && p@ == root) || (0 <= pidx < m0.len() && m0[pidx].0@ == p@),
            attribution(root, m@, errors@, e0.len() as int, attr, pidx, m0.len() as int),
            forall|a: int| 0 <= a < attr.len() && (#[trigger] attr[a]).0 == pidx ==> attr[a].1 < j,
            stack@ == old(stack)@,
            m0 == old(m)@,
            e0 == old(errors)@,
            j == 0 ==> errors@ == e0 && m@ == m0,
            forall|k: int| m0.len() <= k < m@.len() ==> from_repos(repos@, m@, k),
            forall|k: int| m0.len() <= k < m@.len() ==> brought_in(repos@, root, m@, k),
            forall|i: int| e0.len() <= i < errors@.len() ==> outside(#[trigger] errors@[i], m0),
            errors@.len() == e0.len() ==> (forall|jj: int, k: int|
                0 <= jj < j && 0 <= k < stack@.len() ==> (#[trigger] p@.run_deps[jj]).name != (#[trigger] stack@[k])@)
                && forall|x: int| m0.len() <= x < m@.len() ==> avoids((#[trigger] m@[x]).0@, stack@),
            errors@.len() == e0.len() ==> (forall|jj: int| 0 <= jj < j ==> met(m@, installed@, #[trigger] p@.run_deps[jj]))
                && forall|k: int| m0.len() <= k < m@.len() ==> deps_met(m@, installed@, (#[trigger] m@[k]).0),
        decreases n - j,
    {
        let d: &Dependency = &p.run_deps[j];
        let ghost dv = p.run_deps@[j as int]@;
        let ghost eb0 = errors@;
        proof {
            if pidx >= 0 {
                assert(m@[pidx] == m0[pidx]);
            }
            assert(pkg_at(root, m@, pidx) == p@);
            assert(p@.run_deps[j as int] == dv);
            assert(is_dep_of(root, m@, dv.name, dv.constraint));
            assert(has_edge(root, m@, p.name@, dv.name));
        }
        if on_stack(stack, &d.name) {
            let path = cycle_path(stack, &d.name);
            let ghost e = ResolveError::DependencyCycle { path };
            proof {
                let k = choose|k: int| 0 <= k < stack@.len() && (#[trigger] stack@[k])@ == d.name@;
                assert(path@[k]@ == path@[path@.len() - 1]@);
                assert forall|i: int| 0 <= i < path@.len() - 1 implies has_edge(root, m@, (#[trigger] path@[i])@, path@[i + 1]@) by {
                    if i < stack@.len() - 1 {
                        assert(path@[i]@ == stack@[i]@ && path@[i + 1]@ == stack@[i + 1]@);
                    } else {
                        assert(path@[i]@ == p.name@);
                    }
                }
                assert(path@[0]@ == stack@[0]@);
                assert(justified(repos@, installed@, root, m@, e));
            }
            proof {
                assert(path@[path@.len() - 2]@ == stack@[stack@.len() - 1]@);
                assert(err_matches(e, pkg_at(root, m@, pidx), j as int));
            }
            errors.push(ResolveError::DependencyCycle { path });
            proof {
                lemma_attr_push(root, m@, eb0, e, e0.len() as int, attr, pidx, m0.len() as int, j as int);
                attr = attr.push((pidx, j as int));
                assert forall|i: int| e0.len() <= i < errors@.len() implies justified(repos@, installed@, root, m@, #[trigger] errors@[i]) by {
                    if i < eb0.len() {
                        assert(errors@[i] == eb0[i]);
                    }
                }
                assert forall|i: int| e0.len() <= i < errors@.len() implies outside(#[trigger] errors@[i], m0) by {
                    if i < eb0.len() {
                        assert(errors@[i] == eb0[i]);
                    } else if errors@[i] is NotFound {
                        assert forall|k: int| 0 <= k < m0.len() implies (#[trigger] m0[k]).0.name@ != d.name@ by {
                            assert(m0[k] == m@[k]);
                        }
                    }
                }
            }
        } else {
            match find_in_plan(m, &d.name) {
                Some(q) => {
                    if !d.version_constraint.is_valid(&m[q].0.version) {
                        let e = ResolveError::VersionConflict {
                            name: d.name.clone(),
                            required_version: d.version_constraint.duplicate(),
                            other_version: m[q].0.version.duplicate(),
                        };
                        proof {
                            assert(version_in(m@, installed@, d.name@, m@[q as int].0.version@));
                            assert(justified(repos@, installed@, root, m@, e));
                        }
                        proof {
                            assert(err_matches(e, pkg_at(root, m@, pidx), j as int));
                        }
                        errors.push(e);
                        proof {
                            lemma_attr_push(root, m@, eb0, e, e0.len() as int, attr, pidx, m0.len() as int, j as int);
                            attr = attr.push((pidx, j as int));
                            assert forall|i: int| e0.len() <= i < errors@.len() implies justified(repos@, installed@, root, m@, #[trigger] errors@[i]) by {
                                if i < eb0.len() {
                                    assert(errors@[i] == eb0[i]);
                                }
                            }
                            assert forall|i: int| e0.len() <= i < errors@.len() implies outside(#[trigger] errors@[i], m0) by {
                                if i < eb0.len() {
                                    assert(errors@[i] == eb0[i]);
                                } else if errors@[i] is NotFound {
                                    assert forall|k: int| 0 <= k < m0.len() implies (#[trigger] m0[k]).0.name@ != d.name@ by {
                                        assert(m0[k] == m@[k]);
                                    }
                                }
                            }
                        }
                    }
                },
                None => {
                    match find_installed(installed, d.name.as_str()) {
                        Some(q) => {
                            if !d.version_constraint.is_valid(&installed[q].desc.version) {
                                let e = ResolveError::VersionConflict {
                                    name: d.name.clone(),
                                    required_version: d.version_constraint.duplicate(),
                                    other_version: installed[q].desc.version.duplicate(),
                                };
                                proof {
                                    assert(version_in(m@, installed@, d.name@, installed@[q as int].desc.version@));
                                    assert(justified(repos@, installed@, root, m@, e));
                                }
                                proof {
                                    assert(err_matches(e, pkg_at(root, m@, pidx), j as int));
                                }
                                errors.push(e);
                                proof {
                                    lemma_attr_push(root, m@, eb0, e, e0.len() as int, attr, pidx, m0.len() as int, j as int);
                                    attr = attr.push((pidx, j as int));
                                    assert forall|i: int| e0.len() <= i < errors@.len() implies justified(repos@, installed@, root, m@, #[trigger] errors@[i]) by {
                                        if i < eb0.len() {
                                            assert(errors@[i] == eb0[i]);
                                        }
                                    }
                                    assert forall|i: int| e0.len() <= i < errors@.len() implies outside(#[trigger] errors@[i], m0) by {
                                        if i < eb0.len() {
                                            assert(errors@[i] == eb0[i]);
                                        } else if errors@[i] is NotFound {
                                            assert forall|k: int| 0 <= k < m0.len() implies (#[trigger] m0[k]).0.name@ != d.name@ by {
                                                assert(m0[k] == m@[k]);
                                            }
                                        }
                                    }
                                }
                            } else {
                                assert(dependency_met(installed@, dv)) by {
                                    assert(installed@[q as int].desc.name@ == dv.name);
                                }
                            }
                        },
                        None => {
                            match get_package_with_constraint(
                                repos,
                                d.name.as_str(),
                                Some(&d.version_constraint),
                            ) {
                                None => {
                                    let e = ResolveError::NotFound {
                                        name: d.name.clone(),
                                        version_constraint: d.version_constraint.duplicate(),
                                    };
                                    proof {
                                        assert(justified(repos@, installed@, root, m@, e));
                                    }
                                    proof {
                                        assert(err_matches(e, pkg_at(root, m@, pidx), j as int));
                                    }
                                    errors.push(e);
                                    proof {
                                        lemma_attr_push(root, m@, eb0, e, e0.len() as int, attr, pidx, m0.len() as int, j as int);
                                        attr = attr.push((pidx, j as int));
                                        assert forall|i: int| e0.len() <= i < errors@.len() implies justified(repos@, installed@, root, m@, #[trigger] errors@[i]) by {
                                            if i < eb0.len() {
                                                assert(errors@[i] == eb0[i]);
                                            }
                                        }
                                        assert forall|i: int| e0.len() <= i < errors@.len() implies outside(#[trigger] errors@[i], m0) by {
                                            if i < eb0.len() {
                                                assert(errors@[i] == eb0[i]);
                                            } else if errors@[i] is NotFound {
                                                assert forall|k: int| 0 <= k < m0.len() implies (#[trigger] m0[k]).0.name@ != d.name@ by {
                                                    assert(m0[k] == m@[k]);
                                                }
                                            }
                                        }
                                    }
                                },
                                Some((ri, found)) => {
                                    let ghost mb = m@;
                                    let ghost eb = errors@;
                                    proof {
                                        let k = choose|k: int|
                                            offered(repos@, d.name@, Some(d.version_constraint@)) == Some(
                                                (ri as int, k),
                                            ) && repo_candidate(repos@, d.name@, Some(d.version_constraint@), ri as int, k)
                                                && found@ == (#[trigger] repos@[ri as int].packages@[k])@;
                                        lemma_repo_name(repos@, ri as int, k);
                                        assert(found.name@ == d.name@);
                                    }
                                    let name_copy = found.name.clone();
                                    let next = found.duplicate();
                                    m.push((found, ri));
                                    let ghost mp = m@;
                                    proof {
                                        assert(plan_names(m@).contains(d.name@)) by {
                                            assert(m@[m@.len() - 1].0.name@ == d.name@);
                                        }
                                        lemma_unresolved_mono(repos@, m0, mb);
                                        lemma_unresolved_shrinks(repos@, mb, m@, d.name@);
                                        assert(from_repos(repos@, m@, mb.len() as int));
                                        let kk = choose|kk: int|
                                            offered(repos@, d.name@, Some(d.version_constraint@)) == Some(
                                                (ri as int, kk),
                                            ) && repo_candidate(repos@, d.name@, Some(d.version_constraint@), ri as int, kk)
                                                && m@[mb.len() as int].0@ == (#[trigger] repos@[ri as int].packages@[kk])@;
                                        lemma_in_scope_mono(root, mb, m@, p@);
                                        assert(p@.run_deps[j as int].name == d.name@);
                                        assert(p@.run_deps[j as int].constraint == d.version_constraint@);
                                        assert(brought_in(repos@, root, m@, mb.len() as int));
                                        assert forall|k: int| m0.len() <= k < m@.len() implies brought_in(repos@, root, m@, k) by {
                                            if k < mb.len() {
                                                lemma_brought_in_mono(repos@, root, mb, m@, k);
                                            }
                                        }
                                    }
                                    proof {
                                        lemma_all_justified_mono(repos@, installed@, root, mb, m@, errors@, e0.len() as int);
                                        assert(in_scope(root, m@, next@)) by {
                                            assert(m@[mb.len() as int].0@ == next@);
                                        }
                                        assert forall|a: int, b: int|
                                            0 <= a < b < m@.len() && m0.len() <= b implies (#[trigger] m@[a]).0.name@ != (
                                            #[trigger] m@[b]).0.name@ by {
                                            if b < mb.len() {
                                                assert(m@[a] == mb[a] && m@[b] == mb[b]);
                                            } else {
                                                assert(m@[a] == mb[a]);
                                                assert(!plan_names(mb).contains(d.name@));
                                                if mb[a].0.name@ == d.name@ {
                                                    assert(plan_names(mb).contains(d.name@));
                                                }
                                            }
                                        }
                                        assert forall|k: int| 0 <= k < stack@.len() - 1 implies has_edge(root, m@, (#[trigger] stack@[k])@, stack@[k + 1]@) by {
                                            lemma_has_edge_mono(root, mb, m@, stack@[k]@, stack@[k + 1]@);
                                        }
                                        lemma_has_edge_mono(root, mb, m@, p.name@, dv.name);
                                        lemma_in_scope_mono(root, mb, m@, p@);
                                    }
                                    let ghost sb = stack@;
                                    stack.push(name_copy);
                                    proof {
                                        assert forall|k: int| 0 <= k < stack@.len() - 1 implies has_edge(root, m@, (#[trigger] stack@[k])@, stack@[k + 1]@) by {
                                            if k < sb.len() - 1 {
                                                assert(stack@[k] == sb[k] && stack@[k + 1] == sb[k + 1]);
                                            } else {
                                                assert(stack@[k] == sb[k]);
                                            }
                                        }
                                    }
                                    let ghost sp = stack@;
                                    proof {
                                        lemma_attr_grow(root, mb, m@, errors@, e0.len() as int, attr, pidx, m0.len() as int);
                                    }
                                    let ghost mq = m@;
                                    let cattr = resolve_rec(&next, repos, installed, m, stack, errors, Ghost(root), Ghost(mb.len() as int));
                                    proof {
                                        lemma_attr_grow(root, mq, m@, eb, e0.len() as int, attr, pidx, m0.len() as int);
                                        lemma_attr_append(root, m@, eb, errors@, e0.len() as int, attr, cattr@, pidx, m0.len() as int, mb.len() as int);
                                        attr = attr + cattr@;
                                    }
                                    stack.pop();
                                    proof {
                                        assert(stack@ =~= sb);
                                        if errors@.len() == e0.len() {
                                            assert(errors@.len() == eb.len());
                                            assert forall|x: int| m0.len() <= x < m@.len() implies avoids((#[trigger] m@[x]).0@, stack@) by {
                                                if x < mb.len() {
                                                    assert(m@[x] == mb[x]);
                                                } else {
                                                    assert forall|jj: int, k: int|
                                                        0 <= jj < m@[x].0@.run_deps.len() && 0 <= k < stack@.len() implies (#[trigger] m@[x].0@.run_deps[jj]).name
                                                            != (#[trigger] stack@[k])@ by {
                                                        assert(stack@[k] == sp[k]);
                                                        if x == mb.len() {
                                                            assert(m@[x].0@ == next@);
                                                        }
                                                    }
                                                }
                                            }
                                        }
                                    }
                                    proof {
                                        assert forall|k: int| 0 <= k < stack@.len() - 1 implies has_edge(root, m@, (#[trigger] stack@[k])@, stack@[k + 1]@) by {
                                            lemma_has_edge_mono(root, mb, m@, stack@[k]@, stack@[k + 1]@);
                                        }
                                        lemma_in_scope_mono(root, mb, m@, p@);
                                        assert forall|a: int, b: int|
                                            0 <= a < b < m@.len() && m0.len() <= b implies (#[trigger] m@[a]).0.name@ != (
                                            #[trigger] m@[b]).0.name@ by {
                                            if b < mp.len() {
                                                assert(m@[a] == mp[a] && m@[b] == mp[b]);
                                            }
                                        }
                                    }
                                    proof {
                                        assert(stack@ =~= old(stack)@);
                                        assert(m@[mb.len() as int] == mp[mb.len() as int]);
                                        if errors@.len() == e0.len() {
                                            assert(errors@.len() == eb.len());
                                            assert(met_in(m@, dv)) by {
                                                assert(m@[mb.len() as int].0.name@ == dv.name);
                                            }
                                            assert forall|jj: int| 0 <= jj < j implies met(
                                                m@,
                                                installed@,
                                                #[trigger] p@.run_deps[jj],
                                            ) by {
                                                if met_in(mb, p@.run_deps[jj]) {
                                                    lemma_met_mono(mb, m@, p@.run_deps[jj]);
                                                }
                                            }
                                            assert forall|k: int| m0.len() <= k < m@.len() implies deps_met(
                                                m@,
                                                installed@,
                                                (#[trigger] m@[k]).0,
                                            ) by {
                                                if k < mb.len() {
                                                    assert(m@[k] == mb[k]);
                                                    lemma_deps_met_mono(mb, m@, installed@, mb[k].0);
                                                } else if k == mb.len() {
                                                    assert(m@[k].0@ == next@);
                                                    assert(deps_met(m@, installed@, next));
                                                }
                                            }
                                        }
                                        assert forall|k: int| m0.len() <= k < m@.len() implies from_repos(repos@, m@, k) by {
                                            if k < mb.len() {
                                                assert(from_repos(repos@, mb, k));
                                                assert(m@[k] == mb[k]);
                                            } else if k == mb.len() {
                                                assert(from_repos(repos@, mp, k));
                                                assert(m@[k] == mp[k]);
                                            }
                                        }
                                        assert forall|k: int| m0.len() <= k < m@.len() implies brought_in(repos@, root, m@, k) by {
                                            if k < mp.len() {
                                                lemma_brought_in_mono(repos@, root, mp, m@, k);
                                            }
                                        }
                                        assert forall|i: int| e0.len() <= i < errors@.len() implies outside(#[trigger] errors@[i], m0) by {
                                            if i < eb.len() {
                                                assert(errors@[i] == eb[i]);
                                            } else {
                                                assert(outside(errors@[i], mp));
                                                match errors@[i] {
                                                    ResolveError::NotFound { name, .. } => {
                                                        assert forall|k: int| 0 <= k < m0.len() implies (#[trigger] m0[k]).0.name@ != name@ by {
                                                            assert(m0[k] == mp[k]);
                                                        }
                                                    },
                                                    _ => {},
                                                }
                                            }
                                        }
                                    }
                                },
                            }
                        },
                    }
                },
            }
        }
        j = j + 1;
    }
    Ghost(attr)
}

impl Package {
    /// Resolves the run dependencies of the package against `repos`, adding
    /// to the plan `packages` the packages they lead to, each with the index
    /// of its repository.
    ///
    /// A dependency whose name is in the plan must be met by the package of
    /// the plan with that name; otherwise one whose name is installed must be
    /// met by the installed package, which stays as it is; otherwise the
    /// repositories are asked for the greatest version that meets it, and
    /// that package's dependencies are resolved in turn. On success every run
    /// dependency of the package and of every package added is met within the
    /// plan or by an installed package, and the packages added have names
    /// that no other package of the plan has. On failure every error names a
    /// run dependency met on the way, a conflicting version found in the plan
    /// or installed, or a cycle of run dependencies from the package; in
    /// particular, a dependency that leads back to the package is never
    /// resolved successfully.
    pub fn resolve_dependencies(
        &self,
        repos: &Vec<Repository>,
        installed: &Vec<InstalledPackage>,
        packages: &mut Vec<(Package, usize)>,
    ) -> (r: Result<(), Vec<ResolveError>>)
        ensures
            is_prefix(old(packages)@, final(packages)@),
            forall|k: int|
                old(packages)@.len() <= k < final(packages)@.len() ==> from_repos(
                    repos@,
                    final(packages)@,
                    k,
                ),
            forall|k: int|
                old(packages)@.len() <= k < final(packages)@.len() ==> brought_in(
                    repos@,
                    self@,
                    final(packages)@,
                    k,
                ),
            self.run_deps@.len() == 0 ==> r is Ok,
            match r {
                Ok(()) => deps_met(final(packages)@, installed@, *self) && forall|k: int|
                    old(packages)@.len() <= k < final(packages)@.len() ==> deps_met(
                        final(packages)@,
                        installed@,
                        (#[trigger] final(packages)@[k]).0,
                    ),
                Err(e) => e@.len() > 0 && has_sources(self@, final(packages)@, e@, old(packages)@.len() as int)
                    && all_justified(repos@, installed@, self@, final(packages)@, e@, 0)
                    && forall|i: int| 0 <= i < e@.len() ==> outside(#[trigger] e@[i], old(packages)@),
            },
            forall|a: int, b: int|
                0 <= a < b < final(packages)@.len() && old(packages)@.len() <= b ==> (
                #[trigger] final(packages)@[a]).0.name@ != (#[trigger] final(packages)@[b]).0.name@,
            r is Ok ==> (forall|j: int|
                0 <= j < self@.run_deps.len() ==> (#[trigger] self@.run_deps[j]).name != self.name@) && forall|
                k: int,
                j: int,
            |
                old(packages)@.len() <= k < final(packages)@.len() && 0 <= j < final(packages)@[k].0@.run_deps.len()
                    ==> (#[trigger] final(packages)@[k].0@.run_deps[j]).name != self.name@,
    {
        let mut stack: Vec<String> = Vec::new();
        stack.push(self.name.clone());
        let mut errors: Vec<ResolveError> = Vec::new();
        let ghost st = stack@;
        let ga = resolve_rec(self, repos, installed, packages, &mut stack, &mut errors, Ghost(self@), Ghost(-1int));
        proof {
            if errors@.len() == 0 {
                assert(st[0]@ == self.name@);
                assert forall|j: int| 0 <= j < self@.run_deps.len() implies (#[trigger] self@.run_deps[j]).name != self.name@ by {
                    assert(avoids(self@, st));
                    assert(self@.run_deps[j].name != st[0]@);
                }
                assert forall|k: int, j: int|
                    old(packages)@.len() <= k < packages@.len() && 0 <= j < packages@[k].0@.run_deps.len() implies (
                    #[trigger] packages@[k].0@.run_deps[j]).name != self.name@ by {
                    assert(avoids(packages@[k].0@, st));
                    assert(packages@[k].0@.run_deps[j].name != st[0]@);
                }
            }
        }
        if errors.len() == 0 {
            Ok(())
        } else {
            proof {
                assert(attribution(self@, packages@, errors@, 0, ga@, -1, old(packages)@.len() as int));
            }
            Err(errors)
        }
    }
}

/// Builds the installation plan of the root packages `roots`, each given
/// with the index of its repository: the roots, then the packages their run
/// dependencies lead to. The installed packages `installed` are kept as they
/// are and meet the dependencies they satisfy. On success, every run
/// dependency of every package of the plan is met by a package of the plan
/// or by an installed package, the packages added have names that no other
/// package of the plan has, and no dependency leads back to the root it was
/// reached from. On failure every error is justified from one of the roots:
/// a run dependency met on the way, a conflicting version found in the plan
/// or installed, or a cycle of run dependencies.
pub fn resolve(
    roots: Vec<(Package, usize)>,
    repos: &Vec<Repository>,
    installed: &Vec<InstalledPackage>,
) -> (r: Result<
    Vec<(Package, usize)>,
    Vec<ResolveError>,
>)
    ensures
        (forall|k: int| 0 <= k < roots@.len() ==> (#[trigger] roots@[k]).0.run_deps@.len() == 0) ==> r
            is Ok,
        match r {
            Ok(m) => is_prefix(roots@, m@) && plan_closed(m@, installed@) && (forall|k: int|
                roots@.len() <= k < m@.len() ==> from_repos(repos@, m@, k)) && fresh_names(m@, roots@.len() as int)
                && no_cycle_to_roots(roots@, m@) && forall|k: int|
                roots@.len() <= k < m@.len() ==> #[trigger] brought_in_from(repos@, roots@, m@, k),
            Err(e) => e@.len() > 0 && errors_justified(repos@, installed@, roots@, e@),
        },
{
    let ghost r0 = roots@;
    let ghost mut owner: Seq<int> = Seq::empty();
    let ghost mut gattr: Seq<(int, int)> = Seq::empty();
    let n = roots.len();
    let mut m = roots;
    let mut errors: Vec<ResolveError> = Vec::new();
    let mut i: usize = 0;
    while i < n
        invariant
            n == r0.len(),
            i <= n,
            is_prefix(r0, m@),
            forall|x: int| 0 <= x < errors@.len() ==> #[trigger] justified_in(repos@, installed@, r0, m@, errors@[x]),
            forall|x: int| 0 <= x < errors@.len() ==> outside(#[trigger] errors@[x], r0),
            plan_attribution(m@, errors@, gattr, i as int, r0.len() as int),
            forall|k: int| r0.len() <= k < m@.len() ==> #[trigger] brought_in_from(repos@, r0, m@, k),
            fresh_names(m@, r0.len() as int),
            owner.len() == m@.len() - r0.len(),
            errors@.len() == 0 ==> (forall|x: int, j: int|
                0 <= x < i && 0 <= j < r0[x].0@.run_deps.len() ==> (#[trigger] r0[x].0@.run_deps[j]).name
                    != r0[x].0.name@) && forall|k: int, j: int|
                r0.len() <= k < m@.len() ==> 0 <= #[trigger] owner[k - r0.len()] < i && (0 <= j
                    < m@[k].0@.run_deps.len() ==> (#[trigger] m@[k].0@.run_deps[j]).name != r0[owner[k
                    - r0.len()]].0.name@),
            forall|k: int| r0.len() <= k < m@.len() ==> from_repos(repos@, m@, k),
            (forall|k: int| 0 <= k < r0.len() ==> (#[trigger] r0[k]).0.run_deps@.len() == 0) ==> errors@.len() == 0 && m@ == r0,
            errors@.len() == 0 ==> (forall|k: int| 0 <= k < i ==> deps_met(m@, installed@, (#[trigger] m@[k]).0))
                && forall|k: int| r0.len() <= k < m@.len() ==> deps_met(m@, installed@, (#[trigger] m@[k]).0),
        decreases n - i,
    {
        let root = m[i].0.duplicate();
        proof {
            assert(root.run_deps@.len() == root@.run_deps.len());
            assert(m@[i as int].0.run_deps@.len() == m@[i as int].0@.run_deps.len());
        }
        let mut stack: Vec<String> = Vec::new();
        stack.push(root.name.clone());
        let ghost mb = m@;
        let ghost eb = errors@;
        proof {
            assert(in_scope(root@, m@, root@));
        }
        let ghost st = stack@;
        let ghost ob = owner;
        let ghost gb = gattr;
        let cattr = resolve_rec(&root, repos, installed, &mut m, &mut stack, &mut errors, Ghost(root@), Ghost(i as int));
        proof {
            lemma_plan_attr_append(root@, mb, m@, eb, errors@, gb, cattr@, i as int, r0.len() as int);
            gattr = gb + cattr@;
        }
        proof {
            assert forall|x: int| 0 <= x < errors@.len() implies outside(#[trigger] errors@[x], r0) by {
                if x < eb.len() {
                    assert(errors@[x] == eb[x]);
                } else {
                    assert(outside(errors@[x], mb));
                    match errors@[x] {
                        ResolveError::NotFound { name, .. } => {
                            assert forall|k: int| 0 <= k < r0.len() implies (#[trigger] r0[k]).0.name@ != name@ by {
                                assert(r0[k] == mb[k]);
                            }
                        },
                        _ => {},
                    }
                }
            }
            assert forall|k: int| r0.len() <= k < m@.len() implies #[trigger] brought_in_from(repos@, r0, m@, k) by {
                if k < mb.len() {
                    assert(brought_in_from(repos@, r0, mb, k));
                    let w = choose|w: int| 0 <= w < r0.len() && #[trigger] brought_in(repos@, r0[w].0@, mb, k);
                    lemma_brought_in_mono(repos@, r0[w].0@, mb, m@, k);
                } else {
                    assert(brought_in(repos@, root@, m@, k));
                    assert(r0[i as int] == mb[i as int] && mb[i as int] == m@[i as int]);
                    assert(root@ == r0[i as int].0@);
                    assert(brought_in(repos@, r0[i as int].0@, m@, k));
                }
            }
            owner = ob + Seq::new((m@.len() - mb.len()) as nat, |x: int| i as int);
            assert(st[0]@ == r0[i as int].0.name@) by {
                assert(r0[i as int] == mb[i as int]);
            }
            if errors@.len() == 0 {
                assert(eb.len() == 0);
                assert forall|x: int, j: int|
                    0 <= x < i + 1 && 0 <= j < r0[x].0@.run_deps.len() implies (#[trigger] r0[x].0@.run_deps[j]).name
                        != r0[x].0.name@ by {
                    if x == i {
                        assert(r0[x] == mb[x]);
                        assert(avoids(root@, st));
                        assert(root@.run_deps[j].name != st[0]@);
                    }
                }
                assert forall|k: int, j: int|
                    r0.len() <= k < m@.len() implies 0 <= #[trigger] owner[k - r0.len()] < i + 1 && (0 <= j
                        < m@[k].0@.run_deps.len() ==> (#[trigger] m@[k].0@.run_deps[j]).name != r0[owner[k
                        - r0.len()]].0.name@) by {
                    if k < mb.len() {
                        assert(m@[k] == mb[k]);
                        assert(owner[k - r0.len()] == ob[k - r0.len()]);
                    } else {
                        assert(owner[k - r0.len()] == i);
                        assert(avoids(m@[k].0@, st));
                        if 0 <= j < m@[k].0@.run_deps.len() {
                            assert(m@[k].0@.run_deps[j].name != st[0]@);
                        }
                    }
                }
            }
            assert forall|x: int| 0 <= x < errors@.len() implies #[trigger] justified_in(repos@, installed@, r0, m@, errors@[x]) by {
                if x < eb.len() {
                    assert(errors@[x] == eb[x]);
                    assert(justified_in(repos@, installed@, r0, mb, eb[x]));
                    let w = choose|w: int| 0 <= w < r0.len() && justified(repos@, installed@, (#[trigger] r0[w]).0@, mb, eb[x]);
                    lemma_justified_mono(repos@, installed@, r0[w].0@, mb, m@, eb[x]);
                } else {
                    assert(justified(repos@, installed@, root@, m@, errors@[x]));
                    assert(r0[i as int] == mb[i as int]);
                    assert(r0[i as int].0@ == root@);
                }
            }
            assert(fresh_names(m@, r0.len() as int)) by {
                assert forall|a: int, b: int| 0 <= a < b < m@.len() && r0.len() <= b implies (#[trigger] m@[a]).0.name@ != (#[trigger] m@[b]).0.name@ by {
                    if b < mb.len() {
                        assert(m@[a] == mb[a] && m@[b] == mb[b]);
                    }
                }
            }
            if errors@.len() == 0 {
                assert(eb.len() == 0);
                assert forall|k: int| 0 <= k < i + 1 implies deps_met(m@, installed@, (#[trigger] m@[k]).0) by {
                    assert(m@[k] == mb[k]);
                    if k < i {
                        lemma_deps_met_mono(mb, m@, installed@, mb[k].0);
                    } else {
                        assert(m@[k].0@ == root@);
                    }
                }
                assert forall|k: int| r0.len() <= k < m@.len() implies deps_met(m@, installed@, (#[trigger] m@[k]).0) by {
                    if k < mb.len() {
                        assert(m@[k] == mb[k]);
                        lemma_deps_met_mono(mb, m@, installed@, mb[k].0);
                    }
                }
            }
            assert forall|k: int| r0.len() <= k < m@.len() implies from_repos(repos@, m@, k) by {
                if k < mb.len() {
                    assert(from_repos(repos@, mb, k));
                    assert(m@[k] == mb[k]);
                }
            }
        }
        i = i + 1;
    }
    if errors.len() == 0 {
        proof {
            assert(no_cycle_to_roots(r0, m@));
            assert forall|k: int| 0 <= k < m@.len() implies deps_met(m@, installed@, (#[trigger] m@[k]).0) by {
                if k < n {
                }
            }
        }
        Ok(m)
    } else {
        proof {
            assert(errors_justified(repos@, installed@, r0, errors@)) by {
                assert(is_prefix(r0, m@));
            }
        }
        Err(errors)
    }
}

/// Whether every package added to the plan after the roots was reached
/// from one root (its `owner`) and no dependency leads back to that root: no
/// run dependency of a root, or of a package reached from it, names it.
pub open spec fn no_cycle_to_roots(roots: Seq<(Package, usize)>, m: Seq<(Package, usize)>) -> bool {
    (forall|i: int, j: int|
        0 <= i < roots.len() && 0 <= j < roots[i].0@.run_deps.len() ==> (#[trigger] roots[i].0@.run_deps[j]).name
            != roots[i].0.name@) && exists|owner: Seq<int>|
        owner.len() == m.len() - roots.len() && forall|k: int, j: int|
            roots.len() <= k < m.len() ==> 0 <= #[trigger] owner[k - roots.len()] < roots.len() && (0 <= j
                < m[k].0@.run_deps.len() ==> (#[trigger] m[k].0@.run_deps[j]).name != roots[owner[k
                - roots.len()]].0.name@)
}

/// Whether error `e` is justified when resolving from one of the roots
/// `roots` into the plan `m`.
pub open spec fn justified_in(
    repos: Seq<Repository>,
    installed: Seq<InstalledPackage>,
    roots: Seq<(Package, usize)>,
    m: Seq<(Package, usize)>,
    e: ResolveError,
) -> bool {
    exists|w: int| 0 <= w < roots.len() && justified(repos, installed, (#[trigger] roots[w]).0@, m, e)
}

/// Whether entry `k` of the plan was brought in for a run dependency met
/// while resolving from one of the roots `roots`.
pub open spec fn brought_in_from(
    repos: Seq<Repository>,
    roots: Seq<(Package, usize)>,
    m: Seq<(Package, usize)>,
    k: int,
) -> bool {
    exists|w: int| 0 <= w < roots.len() && #[trigger] brought_in(repos, roots[w].0@, m, k)
}

/// Whether the errors `e` are all justified, from the roots `roots`, in one
/// plan made of the roots and packages of the repositories (each added one
/// under a name no other package of the plan has), each from its own
/// dependency, and none reports
/// a missing dependency that a root is named after.
pub open spec fn errors_justified(
    repos: Seq<Repository>,
    installed: Seq<InstalledPackage>,
    roots: Seq<(Package, usize)>,
    e: Seq<ResolveError>,
) -> bool {
    exists|m: Seq<(Package, usize)>|
        #[trigger] is_prefix(roots, m) && (forall|k: int| roots.len() <= k < m.len() ==> from_repos(repos, m, k))
            && fresh_names(m, roots.len() as int)
            && (forall|i: int|
            0 <= i < e.len() ==> justified_in(repos, installed, roots, m, #[trigger] e[i]) && outside(e[i], roots))
            && has_plan_sources(m, e, roots.len() as int)
}

/// Whether the errors `e` have their own sources among the `nroots` roots
/// and the packages added after them.
pub open spec fn has_plan_sources(m: Seq<(Package, usize)>, e: Seq<ResolveError>, nroots: int) -> bool {
    exists|attr: Sources| #[trigger] plan_attribution(m, e, attr, nroots, nroots)
}

/// Whether `attr` gives each error its own source (plan entry, dependency
/// index), the entry being a root before `done` or a package added after
/// the `nroots` roots, and the error can come from that dependency.
pub open spec fn plan_attribution(
    m: Seq<(Package, usize)>,
    errors: Seq<ResolveError>,
    attr: Seq<(int, int)>,
    done: int,
    nroots: int,
) -> bool {
    &&& attr.len() == errors.len()
    &&& forall|a: int|
        0 <= a < attr.len() ==> ((0 <= (#[trigger] attr[a]).0 < done) || (nroots <= attr[a].0 < m.len()))
            && err_matches(errors[a], m[attr[a].0].0@, attr[a].1)
    &&& forall|a: int, b: int| 0 <= a < b < attr.len() ==> #[trigger] attr[a] != #[trigger] attr[b]
}

proof fn lemma_plan_attr_append(
    root: PackageView,
    mb: Seq<(Package, usize)>,
    m: Seq<(Package, usize)>,
    eb: Seq<ResolveError>,
    errs: Seq<ResolveError>,
    attr: Seq<(int, int)>,
    cattr: Seq<(int, int)>,
    i: int,
    nroots: int,
)
    requires
        is_prefix(mb, m),
        is_prefix(eb, errs),
        0 <= i < nroots <= mb.len(),
        plan_attribution(mb, eb, attr, i, nroots),
        attribution(root, m, errs, eb.len() as int, cattr, i, mb.len() as int),
    ensures
        plan_attribution(m, errs, attr + cattr, i + 1, nroots),
{
    let na = attr + cattr;
    assert forall|a: int| 0 <= a < na.len() implies ((0 <= (#[trigger] na[a]).0 < i + 1) || (nroots <= na[a].0 < m.len()))
        && err_matches(errs[a], m[na[a].0].0@, na[a].1) by {
        if a < attr.len() {
            assert(na[a] == attr[a]);
            assert(errs[a] == eb[a]);
            assert(m[attr[a].0] == mb[attr[a].0]);
        } else {
            let c = a - attr.len();
            assert(na[a] == cattr[c]);
            assert(a == eb.len() + c);
            assert(cattr[c].0 == i || mb.len() <= cattr[c].0 < m.len());
            assert(err_matches(errs[eb.len() + c], pkg_at(root, m, cattr[c].0), cattr[c].1));
        }
    }
    assert forall|a: int, b: int| 0 <= a < b < na.len() implies #[trigger] na[a] != #[trigger] na[b] by {
        if b < attr.len() {
            assert(na[a] == attr[a] && na[b] == attr[b]);
        } else if a >= attr.len() {
            assert(na[a] == cattr[a - attr.len()] && na[b] == cattr[b - attr.len()]);
        } else {
            assert(na[a] == attr[a] && na[b] == cattr[b - attr.len()]);
            assert(cattr[b - attr.len()].0 == i || mb.len() <= cattr[b - attr.len()].0);
        }
    }
}

} // verus!
