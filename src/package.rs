//! Package descriptors, their dependencies, and installed packages.
use crate::text::same_text;
use crate::version::{satisfies, ConstraintView, Version, VersionConstraint};
use vstd::prelude::*;
use vstd::string::*;

verus! {

/// Whether `c` may stand in a package name.
pub open spec fn is_name_char(c: char) -> bool {
    ('a' <= c && c <= 'z') || ('A' <= c && c <= 'Z') || ('0' <= c && c <= '9') || c == '-'
}

/// Whether every character of `s` may stand in a package name.
pub open spec fn valid_name(s: Seq<char>) -> bool {
    forall|i: int| 0 <= i < s.len() ==> is_name_char(#[trigger] s[i])
}

/// Tells whether the given package name is valid: every character is an
/// ASCII letter, an ASCII digit or `-`.
pub fn is_valid_name(name: &str) -> (r: bool)
    ensures
        r == valid_name(name@),
{
    let n = name.unicode_len();
    let mut i: usize = 0;
    while i < n
        invariant
            n == name@.len(),
            i <= n,
            forall|k: int| 0 <= k < i ==> is_name_char(#[trigger] name@[k]),
        decreases n - i,
    {
        let c = name.get_char(i);
        if !(('a' <= c && c <= 'z') || ('A' <= c && c <= 'Z') || ('0' <= c && c <= '9') || c
            == '-') {
            return false;
        }
        i = i + 1;
    }
    true
}

/// A dependency of a package on another package.
#[derive(Clone, Debug, PartialEq, Eq, Hash)]
pub struct Dependency {
    /// The name of the package depended on.
    pub name: String,
    /// The constraint on its version.
    pub version_constraint: VersionConstraint,
}

/// The mathematical form of a [`Dependency`].
pub struct DependencyView {
    pub name: Seq<char>,
    pub constraint: ConstraintView,
}

impl View for Dependency {
    type V = DependencyView;

    open spec fn view(&self) -> DependencyView {
        DependencyView { name: self.name@, constraint: self.version_constraint@ }
    }
}

/// A package descriptor. Its identity is its name and version.
#[derive(Clone, Debug, PartialEq, Eq, Hash)]
pub struct Package {
    /// The package's name.
    pub name: String,
    /// The package's version.
    pub version: Version,
    /// The package's description.
    pub description: String,
    /// Dependencies required to build the package.
    pub build_deps: Vec<Dependency>,
    /// Dependencies required to run the package.
    pub run_deps: Vec<Dependency>,
}

/// The mathematical form of a [`Package`].
pub struct PackageView {
    pub name: Seq<char>,
    pub version: Seq<u32>,
    pub description: Seq<char>,
    pub build_deps: Seq<DependencyView>,
    pub run_deps: Seq<DependencyView>,
}

impl View for Package {
    type V = PackageView;

    open spec fn view(&self) -> PackageView {
        PackageView {
            name: self.name@,
            version: self.version@,
            description: self.description@,
            build_deps: self.build_deps@.map_values(|d: Dependency| d@),
            run_deps: self.run_deps@.map_values(|d: Dependency| d@),
        }
    }
}

/// A package installed on a system, with the files it put there.
#[derive(Clone, Debug, PartialEq, Eq)]
pub struct InstalledPackage {
    /// The package's descriptor.
    pub desc: Package,
    /// The installed files, relative to the system root.
    pub files: Vec<String>,
}

/// The mathematical form of an [`InstalledPackage`].
pub struct InstalledView {
    pub desc: PackageView,
    pub files: Seq<Seq<char>>,
}

impl View for InstalledPackage {
    type V = InstalledView;

    open spec fn view(&self) -> InstalledView {
        InstalledView { desc: self.desc@, files: self.files@.map_values(|f: String| f@) }
    }
}

impl Version {
    /// A copy of the version.
    pub fn duplicate(&self) -> (r: Version)
        ensures
            r@ == self@,
    {
        let mut components: Vec<u32> = Vec::new();
        let mut i: usize = 0;
        while i < self.components.len()
            invariant
                i <= self@.len(),
                components@ == self@.subrange(0, i as int),
            decreases self@.len() - i,
        {
            components.push(self.components[i]);
            i = i + 1;
            assert(components@ =~= self@.subrange(0, i as int));
        }
        assert(self@.subrange(0, i as int) =~= self@);
        Version { components }
    }
}

impl VersionConstraint {
    /// A copy of the constraint.
    pub fn duplicate(&self) -> (r: VersionConstraint)
        ensures
            r@ == self@,
    {
        match self {
            VersionConstraint::Any => VersionConstraint::Any,
            VersionConstraint::Equal(v) => VersionConstraint::Equal(v.duplicate()),
            VersionConstraint::LessOrEqual(v) => VersionConstraint::LessOrEqual(v.duplicate()),
            VersionConstraint::Less(v) => VersionConstraint::Less(v.duplicate()),
            VersionConstraint::GreaterOrEqual(v) => VersionConstraint::GreaterOrEqual(
                v.duplicate(),
            ),
            VersionConstraint::Greater(v) => VersionConstraint::Greater(v.duplicate()),
        }
    }
}

/// A copy of a list of dependencies.
fn duplicate_deps(deps: &Vec<Dependency>) -> (r: Vec<Dependency>)
    ensures
        r@.map_values(|d: Dependency| d@) == deps@.map_values(|d: Dependency| d@),
{
    let mut out: Vec<Dependency> = Vec::new();
    let mut i: usize = 0;
    while i < deps.len()
        invariant
            i <= deps@.len(),
            out@.len() == i,
            forall|k: int| 0 <= k < i ==> (#[trigger] out@[k])@ == deps@[k]@,
        decreases deps@.len() - i,
    {
        out.push(deps[i].duplicate());
        i = i + 1;
    }
    assert(out@.map_values(|d: Dependency| d@) =~= deps@.map_values(|d: Dependency| d@));
    out
}

impl Dependency {
    /// Creates a dependency on the package `name` under `version_constraint`.
    pub fn new(name: String, version_constraint: VersionConstraint) -> (r: Dependency)
        ensures
            r@ == (DependencyView { name: name@, constraint: version_constraint@ }),
    {
        Dependency { name, version_constraint }
    }

    /// Returns the name of the package depended on.
    pub fn get_name(&self) -> (r: &String)
        ensures
            r@ == self.name@,
    {
        &self.name
    }

    /// Returns the constraint on the version.
    pub fn get_version_constraint(&self) -> (r: &VersionConstraint)
        ensures
            r@ == self.version_constraint@,
    {
        &self.version_constraint
    }

    /// A copy of the dependency.
    pub fn duplicate(&self) -> (r: Dependency)
        ensures
            r@ == self@,
    {
        Dependency {
            name: self.name.clone(),
            version_constraint: self.version_constraint.duplicate(),
        }
    }

    /// The text form of the dependency: `name: constraint`.
    pub fn to_string(&self) -> (r: String)
        ensures
            r@ == self.name@ + seq![':', ' '] + crate::version::format_constraint(
                self.version_constraint@,
            ),
    {
        let mut out = self.name.clone();
        proof {
            reveal_strlit(": ");
        }
        out.append(": ");
        let c = self.version_constraint.to_string();
        out.append(c.as_str());
        out
    }
}

impl Package {
    /// Creates a package descriptor.
    pub fn new(
        name: String,
        version: Version,
        description: String,
        build_deps: Vec<Dependency>,
        run_deps: Vec<Dependency>,
    ) -> (r: Package)
        ensures
            r.name@ == name@,
            r.version@ == version@,
            r.description@ == description@,
            r.build_deps@ == build_deps@,
            r.run_deps@ == run_deps@,
    {
        Package { name, version, description, build_deps, run_deps }
    }

    /// Returns the name of the package.
    pub fn get_name(&self) -> (r: &str)
        ensures
            r@ == self.name@,
    {
        self.name.as_str()
    }

    /// Returns the version of the package.
    pub fn get_version(&self) -> (r: &Version)
        ensures
            r@ == self.version@,
    {
        &self.version
    }

    /// Returns the description of the package.
    pub fn get_description(&self) -> (r: &str)
        ensures
            r@ == self.description@,
    {
        self.description.as_str()
    }

    /// Returns the list of build dependencies.
    pub fn get_build_deps(&self) -> (r: &Vec<Dependency>)
        ensures
            r@ == self.build_deps@,
    {
        &self.build_deps
    }

    /// Returns the list of run dependencies.
    pub fn get_run_deps(&self) -> (r: &Vec<Dependency>)
        ensures
            r@ == self.run_deps@,
    {
        &self.run_deps
    }

    /// A copy of the package descriptor.
    pub fn duplicate(&self) -> (r: Package)
        ensures
            r@ == self@,
    {
        Package {
            name: self.name.clone(),
            version: self.version.duplicate(),
            description: self.description.clone(),
            build_deps: duplicate_deps(&self.build_deps),
            run_deps: duplicate_deps(&self.run_deps),
        }
    }
}

/// Whether some package of `db` is named `d.name` with a version that
/// satisfies `d`'s constraint.
pub open spec fn dependency_met(db: Seq<InstalledPackage>, d: DependencyView) -> bool {
    exists|q: int|
        0 <= q < db.len() && (#[trigger] db[q]).desc.name@ == d.name && satisfies(
            d.constraint,
            db[q].desc.version@,
        )
}

/// Whether the pair `(i, j)` names the `j`-th run dependency of the `i`-th
/// package of `db`, and no package of `db` meets it.
pub open spec fn is_unmatched(db: Seq<InstalledPackage>, i: int, j: int) -> bool {
    &&& 0 <= i < db.len()
    &&& 0 <= j < db[i].desc.run_deps@.len()
    &&& !dependency_met(db, db[i].desc.run_deps@[j]@)
}

/// The lexicographic order of index pairs.
pub open spec fn pair_lt(a: (usize, usize), b: (usize, usize)) -> bool {
    a.0 < b.0 || (a.0 == b.0 && a.1 < b.1)
}

/// Whether some package of `db` is named `name` and its version satisfies
/// `constraint`.
pub fn find_matching(db: &Vec<InstalledPackage>, name: &String, constraint: &VersionConstraint) -> (r:
    bool)
    ensures
        r == dependency_met(db@, DependencyView { name: name@, constraint: constraint@ }),
{
    let mut q: usize = 0;
    while q < db.len()
        invariant
            q <= db@.len(),
            forall|k: int|
                0 <= k < q ==> !((#[trigger] db@[k]).desc.name@ == name@ && satisfies(
                    constraint@,
                    db@[k].desc.version@,
                )),
        decreases db@.len() - q,
    {
        if same_text(db[q].desc.name.as_str(), name.as_str()) && constraint.is_valid(
            &db[q].desc.version,
        ) {
            return true;
        }
        q = q + 1;
    }
    false
}

/// For the given list of installed packages, returns the run dependencies
/// that no package of the list meets, as pairs (index of the package, index
/// of the dependency in its run dependencies), in increasing order.
pub fn list_unmatched_dependencies(pkgs: &Vec<InstalledPackage>) -> (r: Vec<(usize, usize)>)
    ensures
        forall|k: int| 0 <= k < r@.len() ==> is_unmatched(pkgs@, (#[trigger] r@[k]).0 as int, r@[k].1 as int),
        forall|i: int, j: int| #[trigger] is_unmatched(pkgs@, i, j) ==> r@.contains((i as usize, j as usize)),
        forall|a: int, b: int| 0 <= a < b < r@.len() ==> pair_lt(#[trigger] r@[a], #[trigger] r@[b]),
{
    let mut out: Vec<(usize, usize)> = Vec::new();
    let mut i: usize = 0;
    while i < pkgs.len()
        invariant
            i <= pkgs@.len(),
            forall|k: int| 0 <= k < out@.len() ==> is_unmatched(pkgs@, (#[trigger] out@[k]).0 as int, out@[k].1 as int),
            forall|k: int| 0 <= k < out@.len() ==> (#[trigger] out@[k]).0 < i,
            forall|a: int, b: int| 0 <= a < b < out@.len() ==> pair_lt(#[trigger] out@[a], #[trigger] out@[b]),
            forall|x: int, j: int| 0 <= x < i && #[trigger] is_unmatched(pkgs@, x, j) ==> out@.contains((x as usize, j as usize)),
        decreases pkgs@.len() - i,
    {
        let deps = &pkgs[i].desc.run_deps;
        let mut j: usize = 0;
        let ghost start = out@.len();
        while j < deps.len()
            invariant
                i < pkgs@.len(),
                deps == pkgs@[i as int].desc.run_deps,
                j <= deps@.len(),
                start <= out@.len(),
                forall|k: int| 0 <= k < out@.len() ==> is_unmatched(pkgs@, (#[trigger] out@[k]).0 as int, out@[k].1 as int),
                forall|k: int| 0 <= k < start ==> (#[trigger] out@[k]).0 < i,
                forall|k: int| start <= k < out@.len() ==> (#[trigger] out@[k]).0 == i && out@[k].1 < j,
                forall|a: int, b: int| 0 <= a < b < out@.len() ==> pair_lt(#[trigger] out@[a], #[trigger] out@[b]),
                forall|x: int, y: int| 0 <= x < i && #[trigger] is_unmatched(pkgs@, x, y) ==> out@.contains((x as usize, y as usize)),
                forall|y: int| 0 <= y < j && #[trigger] is_unmatched(pkgs@, i as int, y) ==> out@.contains((i, y as usize)),
            decreases deps@.len() - j,
        {
            let d = &deps[j];
            let met = find_matching(pkgs, &d.name, &d.version_constraint);
            if !met {
                let ghost before = out@;
                out.push((i, j));
                proof {
                    assert forall|x: int, y: int| 0 <= x < i && #[trigger] is_unmatched(pkgs@, x, y) implies out@.contains((x as usize, y as usize)) by {
                        let w = choose|w: int| 0 <= w < before.len() && before[w] == (x as usize, y as usize);
                        assert(out@[w] == before[w]);
                    }
                    assert forall|y: int| 0 <= y < j && #[trigger] is_unmatched(pkgs@, i as int, y) implies out@.contains((i, y as usize)) by {
                        let w = choose|w: int| 0 <= w < before.len() && before[w] == (i, y as usize);
                        assert(out@[w] == before[w]);
                    }
                    assert(out@[out@.len() - 1] == (i, j));
                }
            }
            j = j + 1;
        }
        i = i + 1;
    }
    out
}

} // verus!
