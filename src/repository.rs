//! Repositories: directories that hold, for each package name and version,
//! the package's descriptor (`desc`) and archive (`archive`) under
//! `<name>/<version>/`.
//!
//! A [`Repository`] value holds its root path, the remote it mirrors if any,
//! and the descriptors found in it.
use crate::package::Package;
use crate::remote::Remote;
use crate::text::same_text;
use crate::version::{cmp_versions, format_version, satisfies, ConstraintView, Version, VersionConstraint};
use vstd::prelude::*;
use vstd::string::*;

verus! {

/// A package repository.
#[derive(Clone, Debug)]
pub struct Repository {
    /// The path to the repository's root directory.
    pub path: String,
    /// The remote the repository mirrors, if any.
    pub remote: Option<Remote>,
    /// The descriptors of the packages that the repository holds.
    pub packages: Vec<Package>,
}

/// `base` followed by the path component `comp` (`comp` alone when `base`
/// is empty).
pub open spec fn join_path(base: Seq<char>, comp: Seq<char>) -> Seq<char> {
    if base.len() == 0 || base.last() == '/' {
        base + comp
    } else {
        base + seq!['/'] + comp
    }
}

/// The directory of version `version` of package `name` under `root`.
pub open spec fn package_dir(root: Seq<char>, name: Seq<char>, version: Seq<u32>) -> Seq<char> {
    join_path(join_path(root, name), format_version(version))
}

/// Appends the path component `comp` to `out`.
pub fn push_path(out: &mut String, comp: &str)
    ensures
        final(out)@ == join_path(old(out)@, comp@),
{
    let n = out.as_str().unicode_len();
    let ends_with_slash = n > 0 && out.as_str().get_char(n - 1) == '/';
    if n > 0 && !ends_with_slash {
        proof {
            reveal_strlit("/");
        }
        out.append("/");
    }
    out.append(comp);
}

/// Whether `p` is named `name` and satisfies `c` (any version when `c` is
/// `None`).
pub open spec fn is_candidate(p: Package, name: Seq<char>, c: Option<ConstraintView>) -> bool {
    p.name@ == name && match c {
        Some(c) => satisfies(c, p.version@),
        None => true,
    }
}

/// The index that a scan of the first `n` packages of `pkgs` settles on: a
/// candidate replaces the one kept so far when its version is greater.
pub open spec fn latest_among(
    pkgs: Seq<Package>,
    name: Seq<char>,
    c: Option<ConstraintView>,
    n: int,
) -> Option<int>
    decreases n,
{
    if n <= 0 {
        None
    } else {
        let prev = latest_among(pkgs, name, c, n - 1);
        if is_candidate(pkgs[n - 1], name, c) {
            match prev {
                None => Some(n - 1),
                Some(k) => if cmp_versions(pkgs[n - 1].version@, pkgs[k].version@) == 1 {
                    Some(n - 1)
                } else {
                    Some(k)
                },
            }
        } else {
            prev
        }
    }
}

/// The index of the package that `pkgs` offers for `name` and `c`.
pub open spec fn latest(pkgs: Seq<Package>, name: Seq<char>, c: Option<ConstraintView>) -> Option<
    int,
> {
    latest_among(pkgs, name, c, pkgs.len() as int)
}

pub open spec fn has_candidate(pkgs: Seq<Package>, name: Seq<char>, c: Option<ConstraintView>) -> bool {
    exists|q: int| 0 <= q < pkgs.len() && #[trigger] is_candidate(pkgs[q], name, c)
}

pub open spec fn opt_view(c: Option<&VersionConstraint>) -> Option<ConstraintView> {
    match c {
        Some(c) => Some(c@),
        None => None,
    }
}

/// Whether `p` is named `name` and satisfies `c`.
fn check_candidate(p: &Package, name: &str, c: Option<&VersionConstraint>) -> (r: bool)
    ensures
        r == is_candidate(*p, name@, opt_view(c)),
{
    if !same_text(p.name.as_str(), name) {
        return false;
    }
    match c {
        Some(c) => c.is_valid(&p.version),
        None => true,
    }
}

/// A version that is not above `a` is not above a version greater than `a`.
pub proof fn lemma_not_above(c: Seq<u32>, a: Seq<u32>, b: Seq<u32>)
    requires
        cmp_versions(c, a) <= 0,
        cmp_versions(b, a) == 1,
    ensures
        cmp_versions(c, b) <= 0,
{
    lemma_not_above_from(c, a, b, 0);
}

proof fn lemma_not_above_from(c: Seq<u32>, a: Seq<u32>, b: Seq<u32>, i: int)
    requires
        i >= 0,
        crate::version::cmp_from(c, a, i) <= 0,
        crate::version::cmp_from(b, a, i) == 1,
    ensures
        crate::version::cmp_from(c, b, i) <= 0,
    decreases a.len() - i,
{
    if i < c.len() && i < a.len() && i < b.len() && c[i] == a[i] && b[i] == a[i] {
        lemma_not_above_from(c, a, b, i + 1);
    }
}

/// Whether no candidate of `pkgs` has a version greater than index `k`'s,
/// itself a candidate.
pub open spec fn greatest_at(pkgs: Seq<Package>, name: Seq<char>, c: Option<ConstraintView>, k: int) -> bool {
    &&& 0 <= k < pkgs.len()
    &&& is_candidate(pkgs[k], name, c)
    &&& forall|q: int|
        0 <= q < pkgs.len() && #[trigger] is_candidate(pkgs[q], name, c) ==> cmp_versions(
            pkgs[q].version@,
            pkgs[k].version@,
        ) <= 0
}

/// The index of the package of `pkgs` named `name` that satisfies `c` with
/// the greatest version; among equal versions the one found first is kept.
pub fn latest_index(pkgs: &Vec<Package>, name: &str, c: Option<&VersionConstraint>) -> (r: Option<
    usize,
>)
    ensures
        match r {
            Some(k) => latest(pkgs@, name@, opt_view(c)) == Some(k as int) && greatest_at(
                pkgs@,
                name@,
                opt_view(c),
                k as int,
            ),
            None => latest(pkgs@, name@, opt_view(c)) is None && !has_candidate(pkgs@, name@, opt_view(c)),
        },
{
    let ghost cv = opt_view(c);
    let mut best: Option<usize> = None;
    let mut i: usize = 0;
    while i < pkgs.len()
        invariant
            i <= pkgs@.len(),
            cv == opt_view(c),
            match best {
                Some(k) => k < i && latest_among(pkgs@, name@, cv, i as int) == Some(k as int),
                None => latest_among(pkgs@, name@, cv, i as int) is None,
            },
        decreases pkgs@.len() - i,
    {
        if check_candidate(&pkgs[i], name, c) {
            match best {
                None => {
                    best = Some(i);
                },
                Some(k) => {
                    let o = pkgs[i].version.cmp(&pkgs[k].version);
                    if matches!(o, core::cmp::Ordering::Greater) {
                        best = Some(i);
                    }
                },
            }
        }
        i = i + 1;
    }
    proof {
        lemma_latest_is_greatest(pkgs@, name@, cv);
    }
    best
}

/// The package that `pkgs` offers for `name` and `c` is a candidate, and no
/// candidate has a greater version; there is none only when no package is a
/// candidate.
pub proof fn lemma_latest_is_greatest(pkgs: Seq<Package>, name: Seq<char>, c: Option<ConstraintView>)
    ensures
        match latest(pkgs, name, c) {
            Some(k) => greatest_at(pkgs, name, c, k),
            None => !has_candidate(pkgs, name, c),
        },
{
    lemma_latest_among_greatest(pkgs, name, c, pkgs.len() as int);
}

proof fn lemma_latest_among_greatest(pkgs: Seq<Package>, name: Seq<char>, c: Option<ConstraintView>, n: int)
    requires
        0 <= n <= pkgs.len(),
    ensures
        match latest_among(pkgs, name, c, n) {
            Some(k) => 0 <= k < n && is_candidate(pkgs[k], name, c) && forall|q: int|
                0 <= q < n && #[trigger] is_candidate(pkgs[q], name, c) ==> cmp_versions(
                    pkgs[q].version@,
                    pkgs[k].version@,
                ) <= 0,
            None => forall|q: int| 0 <= q < n ==> !#[trigger] is_candidate(pkgs[q], name, c),
        },
    decreases n,
{
    if n > 0 {
        lemma_latest_among_greatest(pkgs, name, c, n - 1);
        let last = pkgs[n - 1];
        if is_candidate(last, name, c) {
            crate::version::lemma_cmp_reflexive(last.version@);
            match latest_among(pkgs, name, c, n - 1) {
                None => {},
                Some(k) => {
                    crate::version::lemma_cmp_antisymmetric(last.version@, pkgs[k].version@);
                    if cmp_versions(last.version@, pkgs[k].version@) == 1 {
                        assert forall|q: int| 0 <= q < n && #[trigger] is_candidate(pkgs[q], name, c) implies cmp_versions(
                            pkgs[q].version@, last.version@) <= 0 by {
                            if q < n - 1 {
                                lemma_not_above(pkgs[q].version@, pkgs[k].version@, last.version@);
                            }
                        }
                    }
                },
            }
        }
    }
}

impl Repository {
    /// Creates the repository rooted at `path`, holding `packages`.
    pub fn load(path: String, remote: Option<Remote>, packages: Vec<Package>) -> (r: Repository)
        ensures
            r.path@ == path@,
            r.remote == remote,
            r.packages@ == packages@,
    {
        Repository { path, remote, packages }
    }

    /// Returns the remote associated with the repository.
    pub fn get_remote(&self) -> (r: Option<&Remote>)
        ensures
            match r {
                Some(x) => self.remote == Some(*x),
                None => self.remote is None,
            },
    {
        match &self.remote {
            Some(x) => Some(x),
            None => None,
        }
    }

    /// Returns the path to the descriptor of version `version` of package
    /// `name`.
    pub fn get_desc_path(&self, name: &str, version: &Version) -> (r: String)
        ensures
            r@ == join_path(package_dir(self.path@, name@, version@), "desc"@),
    {
        let mut out = self.path.clone();
        push_path(&mut out, name);
        let v = version.to_string();
        push_path(&mut out, v.as_str());
        push_path(&mut out, "desc");
        out
    }

    /// Returns the path to the archive of version `version` of package
    /// `name`.
    pub fn get_archive_path(&self, name: &str, version: &Version) -> (r: String)
        ensures
            r@ == join_path(package_dir(self.path@, name@, version@), "archive"@),
    {
        let mut out = self.path.clone();
        push_path(&mut out, name);
        let v = version.to_string();
        push_path(&mut out, v.as_str());
        push_path(&mut out, "archive");
        out
    }

    /// Returns version `version` of package `name`, if the repository holds
    /// it.
    pub fn get_package(&self, name: &str, version: &Version) -> (r: Option<Package>)
        ensures
            match r {
                Some(p) => exists|k: int|
                    0 <= k < self.packages@.len() && (#[trigger] self.packages@[k])@ == p@
                        && p.name@ == name@ && p.version@ == version@ && forall|j: int|
                        0 <= j < k ==> !((#[trigger] self.packages@[j]).name@ == name@
                            && self.packages@[j].version@ == version@),
                None => forall|k: int|
                    0 <= k < self.packages@.len() ==> !((#[trigger] self.packages@[k]).name@
                        == name@ && self.packages@[k].version@ == version@),
            },
    {
        let mut k: usize = 0;
        while k < self.packages.len()
            invariant
                k <= self.packages@.len(),
                forall|j: int|
                    0 <= j < k ==> !((#[trigger] self.packages@[j]).name@ == name@
                        && self.packages@[j].version@ == version@),
            decreases self.packages@.len() - k,
        {
            let p = &self.packages[k];
            if same_text(p.name.as_str(), name) && same_components(&p.version, version) {
                return Some(p.duplicate());
            }
            k = k + 1;
        }
        None
    }

    /// Returns the descriptors of all the packages of the repository.
    pub fn list_packages(&self) -> (r: Vec<Package>)
        ensures
            r@.len() == self.packages@.len(),
            forall|k: int| 0 <= k < r@.len() ==> (#[trigger] r@[k])@ == self.packages@[k]@,
    {
        let mut out: Vec<Package> = Vec::new();
        let mut k: usize = 0;
        while k < self.packages.len()
            invariant
                k <= self.packages@.len(),
                out@.len() == k,
                forall|j: int| 0 <= j < k ==> (#[trigger] out@[j])@ == self.packages@[j]@,
            decreases self.packages@.len() - k,
        {
            out.push(self.packages[k].duplicate());
            k = k + 1;
        }
        out
    }

    /// Returns the package named `name` with the greatest version that
    /// satisfies `version_constraint` (the greatest version at all when there
    /// is no constraint): no candidate has a greater version. Among equal
    /// versions the one listed first is taken.
    pub fn get_package_with_constraint(
        &self,
        name: &str,
        version_constraint: Option<&VersionConstraint>,
    ) -> (r: Option<Package>)
        ensures
            match r {
                Some(p) => exists|k: int|
                    latest(self.packages@, name@, opt_view(version_constraint)) == Some(k)
                        && greatest_at(self.packages@, name@, opt_view(version_constraint), k) && p@
                        == (#[trigger] self.packages@[k])@,
                None => latest(self.packages@, name@, opt_view(version_constraint)) is None
                    && !has_candidate(self.packages@, name@, opt_view(version_constraint)),
            },
    {
        match latest_index(&self.packages, name, version_constraint) {
            Some(k) => {
                proof {
                    lemma_latest_in_range(self.packages@, name@, opt_view(version_constraint), self.packages@.len() as int);
                }
                Some(self.packages[k].duplicate())
            },
            None => None,
        }
    }
}

/// Whether two versions have the same components.
pub fn same_components(a: &Version, b: &Version) -> (r: bool)
    ensures
        r == (a@ == b@),
{
    if a.components.len() != b.components.len() {
        return false;
    }
    let mut i: usize = 0;
    while i < a.components.len()
        invariant
            a@.len() == b@.len(),
            i <= a@.len(),
            forall|j: int| 0 <= j < i ==> a@[j] == b@[j],
        decreases a@.len() - i,
    {
        if a.components[i] != b.components[i] {
            return false;
        }
        i = i + 1;
    }
    assert(a@ =~= b@);
    true
}

/// Returns version `version` of package `name` from the first repository of
/// `repos` that holds it, with that repository's index.
pub fn get_package(repos: &Vec<Repository>, name: &str, version: &Version) -> (r: Option<
    (usize, Package),
>)
    ensures
        match r {
            Some((i, p)) => i < repos@.len() && p.name@ == name@ && p.version@ == version@
                && (exists|k: int|
                0 <= k < repos@[i as int].packages@.len() && (#[trigger] repos@[i as int].packages@[k])@
                    == p@) && forall|j: int, k: int|
                0 <= j < i && 0 <= k < repos@[j].packages@.len() ==> !((
                #[trigger] repos@[j].packages@[k]).name@ == name@ && repos@[j].packages@[k].version@
                == version@),
            None => forall|j: int, k: int|
                0 <= j < repos@.len() && 0 <= k < repos@[j].packages@.len() ==> !((
                #[trigger] repos@[j].packages@[k]).name@ == name@ && repos@[j].packages@[k].version@
                == version@),
        },
{
    let mut i: usize = 0;
    while i < repos.len()
        invariant
            i <= repos@.len(),
            forall|j: int, k: int|
                0 <= j < i && 0 <= k < repos@[j].packages@.len() ==> !((
                #[trigger] repos@[j].packages@[k]).name@ == name@ && repos@[j].packages@[k].version@
                == version@),
        decreases repos@.len() - i,
    {
        match repos[i].get_package(name, version) {
            Some(p) => {
                return Some((i, p));
            },
            None => {},
        }
        i = i + 1;
    }
    None
}

/// One step of the scan over the repositories: the package at index `k` of
/// repository `i` replaces the kept one when it is a candidate and has a
/// greater version.
pub open spec fn scan_step(
    repos: Seq<Repository>,
    name: Seq<char>,
    c: Option<ConstraintView>,
    acc: Option<(int, int)>,
    i: int,
    k: int,
) -> Option<(int, int)> {
    if is_candidate(repos[i].packages@[k], name, c) {
        match acc {
            None => Some((i, k)),
            Some((b, bk)) => if cmp_versions(
                repos[i].packages@[k].version@,
                repos[b].packages@[bk].version@,
            ) == 1 {
                Some((i, k))
            } else {
                acc
            },
        }
    } else {
        acc
    }
}

/// The scan over the first `n` packages of repository `i`, from `acc`.
pub open spec fn scan_repo(
    repos: Seq<Repository>,
    name: Seq<char>,
    c: Option<ConstraintView>,
    acc: Option<(int, int)>,
    i: int,
    n: int,
) -> Option<(int, int)>
    decreases n,
{
    if n <= 0 {
        acc
    } else {
        scan_step(repos, name, c, scan_repo(repos, name, c, acc, i, n - 1), i, n - 1)
    }
}

/// The scan over the first `n` repositories.
pub open spec fn offered_among(
    repos: Seq<Repository>,
    name: Seq<char>,
    c: Option<ConstraintView>,
    n: int,
) -> Option<(int, int)>
    decreases n,
{
    if n <= 0 {
        None
    } else {
        scan_repo(repos, name, c, offered_among(repos, name, c, n - 1), n - 1, repos[n - 1].packages@.len() as int)
    }
}

/// The repository index and package index of the package that `repos`
/// offer for `name` and `c`.
pub open spec fn offered(repos: Seq<Repository>, name: Seq<char>, c: Option<ConstraintView>) -> Option<
    (int, int),
> {
    offered_among(repos, name, c, repos.len() as int)
}

/// Whether `(j, q)` names a candidate package of the repositories.
pub open spec fn repo_candidate(repos: Seq<Repository>, name: Seq<char>, c: Option<ConstraintView>, j: int, q: int) -> bool {
    0 <= j < repos.len() && 0 <= q < repos[j].packages@.len() && is_candidate(repos[j].packages@[q], name, c)
}

/// Whether `acc` bounds every candidate of the repositories before index `k`
/// of repository `i`: it is a candidate and none of them is greater, or
/// there is none and `acc` is `None`.
pub open spec fn bounds(
    repos: Seq<Repository>,
    name: Seq<char>,
    c: Option<ConstraintView>,
    acc: Option<(int, int)>,
    i: int,
    k: int,
) -> bool {
    match acc {
        Some((b, bk)) => repo_candidate(repos, name, c, b, bk) && forall|j: int, q: int|
            (j < i || (j == i && q < k)) && #[trigger] repo_candidate(repos, name, c, j, q) ==> cmp_versions(
                repos[j].packages@[q].version@,
                repos[b].packages@[bk].version@,
            ) <= 0,
        None => forall|j: int, q: int|
            (j < i || (j == i && q < k)) ==> !#[trigger] repo_candidate(repos, name, c, j, q),
    }
}

proof fn lemma_scan_repo_bounds(
    repos: Seq<Repository>,
    name: Seq<char>,
    c: Option<ConstraintView>,
    acc: Option<(int, int)>,
    i: int,
    n: int,
)
    requires
        0 <= i < repos.len(),
        0 <= n <= repos[i].packages@.len(),
        bounds(repos, name, c, acc, i, 0),
    ensures
        bounds(repos, name, c, scan_repo(repos, name, c, acc, i, n), i, n),
    decreases n,
{
    if n > 0 {
        lemma_scan_repo_bounds(repos, name, c, acc, i, n - 1);
        let prev = scan_repo(repos, name, c, acc, i, n - 1);
        let x = repos[i].packages@[n - 1];
        if is_candidate(x, name, c) {
            crate::version::lemma_cmp_reflexive(x.version@);
            match prev {
                None => {
                    assert forall|j: int, q: int|
                        (j < i || (j == i && q < n)) && #[trigger] repo_candidate(repos, name, c, j, q) implies cmp_versions(
                        repos[j].packages@[q].version@,
                        x.version@,
                    ) <= 0 by {
                        if !(j == i && q == n - 1) {
                            assert(!repo_candidate(repos, name, c, j, q));
                        }
                    }
                },
                Some((b, bk)) => {
                    let vb = repos[b].packages@[bk].version@;
                    crate::version::lemma_cmp_antisymmetric(x.version@, vb);
                    if cmp_versions(x.version@, vb) == 1 {
                        assert forall|j: int, q: int|
                            (j < i || (j == i && q < n)) && #[trigger] repo_candidate(repos, name, c, j, q) implies cmp_versions(
                            repos[j].packages@[q].version@,
                            x.version@,
                        ) <= 0 by {
                            if !(j == i && q == n - 1) {
                                lemma_not_above(repos[j].packages@[q].version@, vb, x.version@);
                            }
                        }
                    }
                },
            }
        } else {
            assert forall|j: int, q: int|
                (j < i || (j == i && q < n)) && #[trigger] repo_candidate(repos, name, c, j, q) implies (j < i || (j == i && q < n - 1)) by {
            }
        }
    }
}

proof fn lemma_offered_among_bounds(repos: Seq<Repository>, name: Seq<char>, c: Option<ConstraintView>, n: int)
    requires
        0 <= n <= repos.len(),
    ensures
        bounds(repos, name, c, offered_among(repos, name, c, n), n, 0),
    decreases n,
{
    if n > 0 {
        lemma_offered_among_bounds(repos, name, c, n - 1);
        let acc = offered_among(repos, name, c, n - 1);
        lemma_scan_repo_bounds(repos, name, c, acc, n - 1, repos[n - 1].packages@.len() as int);
        let r = offered_among(repos, name, c, n);
        match r {
            Some((b, bk)) => {
                assert forall|j: int, q: int|
                    (j < n || (j == n && q < 0)) && #[trigger] repo_candidate(repos, name, c, j, q) implies cmp_versions(
                    repos[j].packages@[q].version@,
                    repos[b].packages@[bk].version@,
                ) <= 0 by {
                    if j == n - 1 {
                        assert(q < repos[n - 1].packages@.len());
                    }
                }
            },
            None => {
                assert forall|j: int, q: int| (j < n || (j == n && q < 0)) implies !#[trigger] repo_candidate(repos, name, c, j, q) by {
                    if j == n - 1 && repo_candidate(repos, name, c, j, q) {
                        assert(q < repos[n - 1].packages@.len());
                    }
                }
            },
        }
    }
}

/// The package that the repositories offer for `name` and `c` is a
/// candidate and no candidate of any repository has a greater version;
/// there is none only when no repository holds a candidate.
pub proof fn lemma_offered_is_greatest(repos: Seq<Repository>, name: Seq<char>, c: Option<ConstraintView>)
    ensures
        match offered(repos, name, c) {
            Some((b, bk)) => repo_candidate(repos, name, c, b, bk) && forall|j: int, q: int|
                #[trigger] repo_candidate(repos, name, c, j, q) ==> cmp_versions(
                    repos[j].packages@[q].version@,
                    repos[b].packages@[bk].version@,
                ) <= 0,
            None => forall|j: int, q: int| !#[trigger] repo_candidate(repos, name, c, j, q),
        },
{
    lemma_offered_among_bounds(repos, name, c, repos.len() as int);
}

/// The package that a scan settles on is a candidate among those scanned.
pub proof fn lemma_latest_in_range(pkgs: Seq<Package>, name: Seq<char>, c: Option<ConstraintView>, n: int)
    requires
        0 <= n <= pkgs.len(),
    ensures
        match latest_among(pkgs, name, c, n) {
            Some(k) => 0 <= k < n && is_candidate(pkgs[k], name, c),
            None => true,
        },
    decreases n,
{
    if n > 0 {
        lemma_latest_in_range(pkgs, name, c, n - 1);
    }
}

/// Returns the package named `name` with the greatest version satisfying
/// `version_constraint` over all the repositories of `repos`, with the index
/// of its repository: no candidate of any repository has a greater version.
/// Among equal versions the one found first is kept.
pub fn get_package_with_constraint(
    repos: &Vec<Repository>,
    name: &str,
    version_constraint: Option<&VersionConstraint>,
) -> (r: Option<(usize, Package)>)
    ensures
        match r {
            Some((i, p)) => exists|k: int|
                offered(repos@, name@, opt_view(version_constraint)) == Some((i as int, k))
                    && repo_candidate(repos@, name@, opt_view(version_constraint), i as int, k)
                    && p@ == (#[trigger] repos@[i as int].packages@[k])@ && forall|j: int, q: int|
                    #[trigger] repo_candidate(repos@, name@, opt_view(version_constraint), j, q)
                        ==> cmp_versions(repos@[j].packages@[q].version@, p.version@) <= 0,
            None => offered(repos@, name@, opt_view(version_constraint)) is None && forall|j: int, q: int|
                !#[trigger] repo_candidate(repos@, name@, opt_view(version_constraint), j, q),
        },
{
    let ghost cv = opt_view(version_constraint);
    let mut best: Option<(usize, usize)> = None;
    let mut i: usize = 0;
    while i < repos.len()
        invariant
            i <= repos@.len(),
            cv == opt_view(version_constraint),
            match best {
                Some((b, k)) => b < i && k < repos@[b as int].packages@.len() && offered_among(
                    repos@,
                    name@,
                    cv,
                    i as int,
                ) == Some((b as int, k as int)),
                None => offered_among(repos@, name@, cv, i as int) is None,
            },
        decreases repos@.len() - i,
    {
        let pkgs = &repos[i].packages;
        let ghost acc0 = offered_among(repos@, name@, cv, i as int);
        let mut k: usize = 0;
        while k < pkgs.len()
            invariant
                i < repos@.len(),
                pkgs == repos@[i as int].packages,
                k <= pkgs@.len(),
                cv == opt_view(version_constraint),
                acc0 == offered_among(repos@, name@, cv, i as int),
                match best {
                    Some((b, bk)) => b <= i && bk < repos@[b as int].packages@.len() && scan_repo(
                        repos@,
                        name@,
                        cv,
                        acc0,
                        i as int,
                        k as int,
                    ) == Some((b as int, bk as int)),
                    None => scan_repo(repos@, name@, cv, acc0, i as int, k as int) is None,
                },
            decreases pkgs@.len() - k,
        {
            if check_candidate(&pkgs[k], name, version_constraint) {
                match best {
                    None => {
                        best = Some((i, k));
                    },
                    Some((b, bk)) => {
                        let o = pkgs[k].version.cmp(&repos[b].packages[bk].version);
                        if matches!(o, core::cmp::Ordering::Greater) {
                            best = Some((i, k));
                        }
                    },
                }
            }
            k = k + 1;
        }
        i = i + 1;
    }
    proof {
        lemma_offered_is_greatest(repos@, name@, cv);
    }
    match best {
        Some((b, k)) => Some((b, repos[b].packages[k].duplicate())),
        None => None,
    }
}

} // verus!
