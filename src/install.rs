//! The environment of a system root and its database of installed packages.
//!
//! The database is a list of [`InstalledPackage`] entries; installing a
//! package replaces the entry with its name, or adds one.
use crate::package::{Dependency, DependencyView, InstalledPackage, Package};
use crate::paths::{concat, concat_paths, data_path, data_paths, installed_files, is_safe_member, InstallError};
use crate::text::same_text;
use crate::version::{satisfies, Version};
use vstd::multiset::Multiset;
use vstd::prelude::*;
use vstd::string::*;

verus! {

/// The first index among the first `n` entries of `db` named `name`.
pub open spec fn first_named(db: Seq<InstalledPackage>, name: Seq<char>, n: int) -> Option<int>
    decreases n,
{
    if n <= 0 {
        None
    } else {
        match first_named(db, name, n - 1) {
            Some(k) => Some(k),
            None => if db[n - 1].desc.name@ == name {
                Some(n - 1)
            } else {
                None
            },
        }
    }
}

/// The index of the entry of `db` named `name`, if any.
pub open spec fn entry_of(db: Seq<InstalledPackage>, name: Seq<char>) -> Option<int> {
    first_named(db, name, db.len() as int)
}

/// The database after recording `e`: the entry with `e`'s name is replaced,
/// or `e` is added at the end.
pub open spec fn upsert(db: Seq<InstalledPackage>, e: InstalledPackage) -> Seq<InstalledPackage> {
    match entry_of(db, e.desc.name@) {
        Some(k) => db.update(k, e),
        None => db.push(e),
    }
}

/// The entries of `db` not named `name`.
pub open spec fn without(db: Seq<InstalledPackage>, name: Seq<char>) -> Seq<InstalledPackage>
    decreases db.len(),
{
    if db.len() == 0 {
        db
    } else {
        let prev = without(db.drop_last(), name);
        if db.last().desc.name@ == name {
            prev
        } else {
            prev.push(db.last())
        }
    }
}

proof fn lemma_first_named_props(db: Seq<InstalledPackage>, name: Seq<char>, n: int)
    requires
        0 <= n <= db.len(),
    ensures
        match first_named(db, name, n) {
            Some(k) => 0 <= k < n && db[k].desc.name@ == name && forall|j: int|
                0 <= j < k ==> (#[trigger] db[j]).desc.name@ != name,
            None => forall|j: int| 0 <= j < n ==> (#[trigger] db[j]).desc.name@ != name,
        },
    decreases n,
{
    if n > 0 {
        lemma_first_named_props(db, name, n - 1);
    }
}

proof fn lemma_first_named_char(db: Seq<InstalledPackage>, name: Seq<char>, n: int, k: int)
    requires
        0 <= k < n <= db.len(),
        db[k].desc.name@ == name,
        forall|j: int| 0 <= j < k ==> (#[trigger] db[j]).desc.name@ != name,
    ensures
        first_named(db, name, n) == Some(k),
    decreases n,
{
    if n - 1 > k {
        lemma_first_named_char(db, name, n - 1, k);
    } else {
        lemma_first_named_props(db, name, n - 1);
    }
}

/// After recording `e`, the entry of the database with `e`'s name is `e`.
pub proof fn lemma_upsert_records(db: Seq<InstalledPackage>, e: InstalledPackage)
    ensures
        entry_of(upsert(db, e), e.desc.name@) is Some,
        upsert(db, e)[entry_of(upsert(db, e), e.desc.name@)->Some_0] == e,
{
    let name = e.desc.name@;
    lemma_first_named_props(db, name, db.len() as int);
    let u = upsert(db, e);
    match entry_of(db, name) {
        Some(k) => {
            assert forall|j: int| 0 <= j < k implies (#[trigger] u[j]).desc.name@ != name by {
                assert(u[j] == db[j]);
            }
            lemma_first_named_char(u, name, u.len() as int, k);
        },
        None => {
            assert forall|j: int| 0 <= j < db.len() implies (#[trigger] u[j]).desc.name@ != name by {
                assert(u[j] == db[j]);
            }
            lemma_first_named_char(u, name, u.len() as int, db.len() as int);
        },
    }
}

/// After recording a package installed from an archive whose members are
/// `entries`, the files of the database entry with the package's name are,
/// as a set, the members under `data/` with that prefix removed.
pub proof fn lemma_recorded_files(
    db: Seq<InstalledPackage>,
    e: InstalledPackage,
    entries: Seq<Seq<char>>,
    f: Seq<char>,
)
    requires
        e.files@.map_values(|x: String| x@) == data_paths(entries),
    ensures
        entry_of(upsert(db, e), e.desc.name@) is Some,
        upsert(db, e)[entry_of(upsert(db, e), e.desc.name@)->Some_0].files@.map_values(|x: String| x@).contains(f)
            <==> exists|k: int| 0 <= k < entries.len() && data_path(#[trigger] entries[k]) == Some(f),
{
    lemma_upsert_records(db, e);
    crate::paths::lemma_data_paths_members(entries, f);
}

/// Recording the same package twice leaves the database with as many
/// entries as recording it once.
pub proof fn lemma_upsert_twice_same_size(db: Seq<InstalledPackage>, e: InstalledPackage)
    ensures
        upsert(upsert(db, e), e).len() == upsert(db, e).len(),
{
    lemma_upsert_records(db, e);
    let u = upsert(db, e);
    lemma_first_named_props(u, e.desc.name@, u.len() as int);
}

/// Whether no two entries of the database have the same name.
pub open spec fn unique_names(db: Seq<InstalledPackage>) -> bool {
    forall|a: int, b: int|
        0 <= a < b < db.len() ==> (#[trigger] db[a]).desc.name@ != (#[trigger] db[b]).desc.name@
}

/// Recording `e` in a database whose names are unique keeps them unique,
/// and leaves exactly one entry with `e`'s name: `e` itself.
pub proof fn lemma_upsert_unique(db: Seq<InstalledPackage>, e: InstalledPackage)
    requires
        unique_names(db),
    ensures
        unique_names(upsert(db, e)),
        forall|k: int|
            0 <= k < upsert(db, e).len() && (#[trigger] upsert(db, e)[k]).desc.name@ == e.desc.name@
                ==> upsert(db, e)[k] == e,
{
    let name = e.desc.name@;
    lemma_first_named_props(db, name, db.len() as int);
    let u = upsert(db, e);
    match entry_of(db, name) {
        Some(k) => {
            assert forall|a: int, b: int| 0 <= a < b < u.len() implies (#[trigger] u[a]).desc.name@ != (
            #[trigger] u[b]).desc.name@ by {
                if a == k {
                    assert(db[b].desc.name@ != db[k].desc.name@);
                } else if b == k {
                    assert(db[a].desc.name@ != db[k].desc.name@);
                }
            }
            assert forall|j: int| 0 <= j < u.len() && (#[trigger] u[j]).desc.name@ == name implies u[j] == e by {
                if j != k {
                    if j < k {
                        assert(db[j].desc.name@ != db[k].desc.name@);
                    } else {
                        assert(db[k].desc.name@ != db[j].desc.name@);
                    }
                }
            }
        },
        None => {
            assert forall|a: int, b: int| 0 <= a < b < u.len() implies (#[trigger] u[a]).desc.name@ != (
            #[trigger] u[b]).desc.name@ by {
                if b == db.len() {
                    assert(u[a] == db[a]);
                }
            }
        },
    }
}

/// The entries left after dropping those named `name` come from the
/// database, none has that name, and their names stay unique.
pub proof fn lemma_without_unique(db: Seq<InstalledPackage>, name: Seq<char>)
    requires
        unique_names(db),
    ensures
        unique_names(without(db, name)),
        forall|k: int|
            0 <= k < without(db, name).len() ==> (#[trigger] without(db, name)[k]).desc.name@ != name
                && db.contains(without(db, name)[k]),
    decreases db.len(),
{
    if db.len() > 0 {
        let p = db.drop_last();
        assert(unique_names(p)) by {
            assert forall|a: int, b: int| 0 <= a < b < p.len() implies (#[trigger] p[a]).desc.name@ != (
            #[trigger] p[b]).desc.name@ by {
                assert(p[a] == db[a] && p[b] == db[b]);
            }
        }
        lemma_without_unique(p, name);
        let w = without(p, name);
        assert forall|k: int| 0 <= k < w.len() implies db.contains(#[trigger] w[k]) by {
            let j = choose|j: int| 0 <= j < p.len() && p[j] == w[k];
            assert(db[j] == w[k]);
        }
        if db.last().desc.name@ != name {
            let r = w.push(db.last());
            assert forall|a: int, b: int| 0 <= a < b < r.len() implies (#[trigger] r[a]).desc.name@ != (
            #[trigger] r[b]).desc.name@ by {
                if b == w.len() {
                    let j = choose|j: int| 0 <= j < p.len() && p[j] == w[a];
                    assert(db[j] == w[a]);
                    assert(db[j].desc.name@ != db[db.len() - 1].desc.name@);
                }
            }
            assert forall|k: int| 0 <= k < r.len() implies (#[trigger] r[k]).desc.name@ != name && db.contains(r[k]) by {
                if k == w.len() {
                    assert(db[db.len() - 1] == r[k]);
                }
            }
        }
    }
}

/// Returns the index of the entry of `db` named `name`.
pub fn find_installed(db: &Vec<InstalledPackage>, name: &str) -> (r: Option<usize>)
    ensures
        match r {
            Some(k) => k < db@.len() && entry_of(db@, name@) == Some(k as int) && db@[k as int].desc.name@
                == name@,
            None => entry_of(db@, name@) is None,
        },
{
    let mut k: usize = 0;
    while k < db.len()
        invariant
            k <= db@.len(),
            first_named(db@, name@, k as int) is None,
        decreases db@.len() - k,
    {
        if same_text(db[k].desc.name.as_str(), name) {
            proof {
                lemma_first_named_props(db@, name@, k as int);
                lemma_first_named_char(db@, name@, db@.len() as int, k as int);
            }
            return Some(k);
        }
        k = k + 1;
    }
    None
}

/// Returns the descriptor of the installed package named `name`, if any.
pub fn get_installed(db: &Vec<InstalledPackage>, name: &str) -> (r: Option<Package>)
    ensures
        match entry_of(db@, name@) {
            Some(k) => 0 <= k < db@.len() && r is Some && r->Some_0@ == db@[k].desc@,
            None => r is None,
        },
{
    match find_installed(db, name) {
        Some(k) => Some(db[k].desc.duplicate()),
        None => None,
    }
}

/// Tells whether a package named `name` is installed. The version is not
/// checked.
pub fn is_installed(db: &Vec<InstalledPackage>, name: &str) -> (r: bool)
    ensures
        r == entry_of(db@, name@) is Some,
{
    find_installed(db, name).is_some()
}

/// Records `entry` in the database: it replaces the entry with the same
/// name, or is added at the end.
pub fn insert_installed(db: &mut Vec<InstalledPackage>, entry: InstalledPackage)
    requires
        unique_names(old(db)@),
    ensures
        final(db)@ == upsert(old(db)@, entry),
        unique_names(final(db)@),
        forall|k: int|
            0 <= k < final(db)@.len() && (#[trigger] final(db)@[k]).desc.name@ == entry.desc.name@
                ==> final(db)@[k] == entry,
{
    proof {
        lemma_upsert_unique(db@, entry);
    }
    match find_installed(db, entry.desc.name.as_str()) {
        Some(k) => {
            db.set(k, entry);
        },
        None => {
            db.push(entry);
        },
    }
}

/// Removes the entries named `name` from the database.
pub fn remove_installed(db: &mut Vec<InstalledPackage>, name: &str)
    ensures
        final(db)@ == without(old(db)@, name@),
        unique_names(old(db)@) ==> unique_names(final(db)@),
{
    proof {
        if unique_names(db@) {
            lemma_without_unique(db@, name@);
        }
    }
    let ghost orig = db@;
    let mut i: usize = 0;
    let ghost mut j: int = 0;
    proof {
        assert(orig.subrange(0, 0) =~= Seq::<InstalledPackage>::empty());
        assert(db@.subrange(0, 0) =~= Seq::<InstalledPackage>::empty());
    }
    while i < db.len()
        invariant
            0 <= j <= orig.len(),
            i <= db@.len(),
            db@.len() - i == orig.len() - j,
            db@.subrange(0, i as int) == without(orig.subrange(0, j), name@),
            db@.subrange(i as int, db@.len() as int) == orig.subrange(j, orig.len() as int),
        decreases db@.len() - i,
    {
        let ghost before = db@;
        proof {
            assert(before.subrange(i as int, before.len() as int)[0] == orig.subrange(j, orig.len() as int)[0]);
            assert(before[i as int] == orig[j]);
            assert(orig.subrange(0, j + 1).drop_last() =~= orig.subrange(0, j));
            assert(orig.subrange(0, j + 1).last() == orig[j]);
        }
        if same_text(db[i].desc.name.as_str(), name) {
            db.remove(i);
            proof {
                let bl = before.len() as int;
                let ol = orig.len() as int;
                assert(before.subrange(i as int, bl).subrange(1, bl - i) =~= before.subrange(i + 1, bl));
                assert(orig.subrange(j, ol).subrange(1, ol - j) =~= orig.subrange(j + 1, ol));
                assert(db@.subrange(i as int, db@.len() as int) =~= before.subrange(i + 1, bl));
                assert(db@.subrange(0, i as int) =~= before.subrange(0, i as int));
                assert(db@.subrange(i as int, db@.len() as int) =~= orig.subrange(j + 1, orig.len() as int));
                j = j + 1;
            }
        } else {
            i = i + 1;
            proof {
                let bl = before.len() as int;
                let ol = orig.len() as int;
                assert(before.subrange(i - 1, bl).subrange(1, bl - i + 1) =~= before.subrange(i as int, bl));
                assert(orig.subrange(j, ol).subrange(1, ol - j) =~= orig.subrange(j + 1, ol));
                assert(db@.subrange(0, i as int) =~= before.subrange(0, i - 1).push(orig[j]));
                assert(db@.subrange(i as int, db@.len() as int) =~= orig.subrange(j + 1, orig.len() as int));
                j = j + 1;
            }
        }
    }
    proof {
        assert(db@.subrange(0, i as int) =~= db@);
        assert(orig.subrange(j, orig.len() as int).len() == 0);
        assert(orig.subrange(0, j) =~= orig);
    }
}

/// The failures of a removal request.
#[derive(Clone, Debug, PartialEq, Eq)]
pub enum RemoveError {
    /// No installed package has the name.
    NotFound {
        /// The requested name.
        name: String,
    },
    /// A package that stays installed depends on one that would be removed.
    DependencyBreakage {
        /// The name of the package whose dependency would break.
        package: String,
        /// The name of the dependency that would no longer be met.
        dependency: String,
    },
}

/// Whether `name` is one of `names`.
pub open spec fn listed(names: Seq<String>, name: Seq<char>) -> bool {
    exists|k: int| 0 <= k < names.len() && (#[trigger] names[k])@ == name
}

fn is_listed(names: &Vec<String>, name: &str) -> (r: bool)
    ensures
        r == listed(names@, name@),
{
    let mut k: usize = 0;
    while k < names.len()
        invariant
            k <= names@.len(),
            forall|j: int| 0 <= j < k ==> (#[trigger] names@[j])@ != name@,
        decreases names@.len() - k,
    {
        if same_text(names[k].as_str(), name) {
            return true;
        }
        k = k + 1;
    }
    false
}

/// Whether entry `q` of `db` stays when the packages named `names` are
/// removed.
pub open spec fn kept(db: Seq<InstalledPackage>, names: Seq<String>, q: int) -> bool {
    !listed(names, db[q].desc.name@)
}

/// Whether some entry of `db` that stays meets dependency `d`.
pub open spec fn met_by_kept(db: Seq<InstalledPackage>, names: Seq<String>, d: DependencyView) -> bool {
    exists|q: int|
        0 <= q < db.len() && kept(db, names, q) && (#[trigger] db[q]).desc.name@ == d.name && satisfies(
            d.constraint,
            db[q].desc.version@,
        )
}

/// Whether run dependency `j` of entry `i` of `db`, which stays, is no
/// longer met once the packages named `names` are removed.
pub open spec fn breaks(db: Seq<InstalledPackage>, names: Seq<String>, i: int, j: int) -> bool {
    &&& 0 <= i < db.len()
    &&& kept(db, names, i)
    &&& 0 <= j < db[i].desc.run_deps@.len()
    &&& !met_by_kept(db, names, db[i].desc.run_deps@[j]@)
}

fn is_met_by_kept(db: &Vec<InstalledPackage>, names: &Vec<String>, d: &Dependency) -> (r: bool)
    ensures
        r == met_by_kept(db@, names@, d@),
{
    let mut q: usize = 0;
    while q < db.len()
        invariant
            q <= db@.len(),
            forall|k: int|
                0 <= k < q ==> !(kept(db@, names@, k) && (#[trigger] db@[k]).desc.name@ == d.name@
                    && satisfies(d.version_constraint@, db@[k].desc.version@)),
        decreases db@.len() - q,
    {
        if same_text(db[q].desc.name.as_str(), d.name.as_str()) && !is_listed(
            names,
            db[q].desc.name.as_str(),
        ) && d.version_constraint.is_valid(&db[q].desc.version) {
            return true;
        }
        q = q + 1;
    }
    false
}

/// Checks that the packages named `names` can be removed from `db`: every
/// run dependency of the packages that stay is still met by a package that
/// stays, and each name is installed.
///
/// Fails with `DependencyBreakage` for the first dependency that would
/// break; when nothing breaks, with `NotFound` for the first name that is not
/// installed.
pub fn check_removal(db: &Vec<InstalledPackage>, names: &Vec<String>) -> (r: Result<(), RemoveError>)
    ensures
        match r {
            Ok(()) => (forall|k: int| 0 <= k < names@.len() ==> entry_of(db@, (#[trigger] names@[k])@) is Some)
                && forall|i: int, j: int| !#[trigger] breaks(db@, names@, i, j),
            Err(RemoveError::NotFound { name }) => (forall|i: int, j: int| !#[trigger] breaks(db@, names@, i, j))
                && entry_of(db@, name@) is None && listed(names@, name@),
            Err(RemoveError::DependencyBreakage { package, dependency }) => exists|i: int, j: int|
                #[trigger] breaks(db@, names@, i, j) && db@[i].desc.name@ == package@
                    && db@[i].desc.run_deps@[j].name@ == dependency@,
        },
{
    let mut i: usize = 0;
    while i < db.len()
        invariant
            i <= db@.len(),
            forall|x: int, y: int| x < i ==> !#[trigger] breaks(db@, names@, x, y),
        decreases db@.len() - i,
    {
        if !is_listed(names, db[i].desc.name.as_str()) {
            let deps = &db[i].desc.run_deps;
            let mut j: usize = 0;
            while j < deps.len()
                invariant
                    i < db@.len(),
                    deps == db@[i as int].desc.run_deps,
                    kept(db@, names@, i as int),
                    j <= deps@.len(),
                    forall|x: int, y: int| x < i ==> !#[trigger] breaks(db@, names@, x, y),
                    forall|y: int| y < j ==> !#[trigger] breaks(db@, names@, i as int, y),
                decreases deps@.len() - j,
            {
                if !is_met_by_kept(db, names, &deps[j]) {
                    assert(breaks(db@, names@, i as int, j as int));
                    return Err(
                        RemoveError::DependencyBreakage {
                            package: db[i].desc.name.clone(),
                            dependency: deps[j].name.clone(),
                        },
                    );
                }
                j = j + 1;
            }
        }
        i = i + 1;
    }
    let mut k: usize = 0;
    while k < names.len()
        invariant
            k <= names@.len(),
            forall|x: int, y: int| !#[trigger] breaks(db@, names@, x, y),
            forall|j: int| 0 <= j < k ==> entry_of(db@, (#[trigger] names@[j])@) is Some,
        decreases names@.len() - k,
    {
        if !is_installed(db, names[k].as_str()) {
            return Err(RemoveError::NotFound { name: names[k].clone() });
        }
        k = k + 1;
    }
    Ok(())
}

impl InstalledPackage {
    /// Records `desc` as installed with the files `files`.
    pub fn new(desc: Package, files: Vec<String>) -> (r: InstalledPackage)
        ensures
            r.desc == desc,
            r.files == files,
    {
        InstalledPackage { desc, files }
    }
}

/// An environment: a system root managed by the package manager. An
/// environment exists only while its lockfile is held.
#[derive(Debug)]
pub struct Environment {
    /// The path to the system root.
    pub sysroot: String,
}

/// The order of texts from index `i` on: -1, 0 or 1, character by
/// character, a proper prefix coming first.
pub open spec fn text_cmp_from(a: Seq<char>, b: Seq<char>, i: int) -> int
    decreases a.len() + b.len() - 2 * i,
{
    if i < 0 || (i >= a.len() && i >= b.len()) {
        0
    } else if i >= a.len() {
        -1
    } else if i >= b.len() {
        1
    } else if (a[i] as u32) < (b[i] as u32) {
        -1
    } else if (a[i] as u32) > (b[i] as u32) {
        1
    } else {
        text_cmp_from(a, b, i + 1)
    }
}

/// The lexicographic order of texts: -1, 0 or 1.
pub open spec fn text_cmp(a: Seq<char>, b: Seq<char>) -> int {
    text_cmp_from(a, b, 0)
}

proof fn lemma_text_cmp_from(a: Seq<char>, b: Seq<char>, c: Seq<char>, i: int)
    requires
        i >= 0,
    ensures
        text_cmp_from(a, b, i) == -text_cmp_from(b, a, i),
        text_cmp_from(a, b, i) <= 0 && text_cmp_from(b, c, i) <= 0 ==> text_cmp_from(a, c, i) <= 0,
    decreases a.len() + b.len() - 2 * i,
{
    if i < a.len() && i < b.len() && (a[i] as u32) == (b[i] as u32) {
        lemma_text_cmp_from(a, b, c, i + 1);
    }
}

/// A path comes after every proper prefix of it in the order of texts.
pub proof fn lemma_extension_after(p: Seq<char>, q: Seq<char>)
    requires
        p.len() < q.len(),
        q.subrange(0, p.len() as int) == p,
    ensures
        text_cmp(q, p) == 1,
{
    lemma_extension_after_from(p, q, 0);
}

proof fn lemma_extension_after_from(p: Seq<char>, q: Seq<char>, i: int)
    requires
        0 <= i <= p.len(),
        p.len() < q.len(),
        q.subrange(0, p.len() as int) == p,
    ensures
        text_cmp_from(q, p, i) == 1,
    decreases p.len() - i,
{
    if i < p.len() {
        assert(q[i] == q.subrange(0, p.len() as int)[i]);
        lemma_extension_after_from(p, q, i + 1);
    }
}

/// Compares two texts in the order of [`text_cmp`].
pub fn compare_text(a: &str, b: &str) -> (r: i8)
    ensures
        r as int == text_cmp(a@, b@),
{
    let n = a.unicode_len();
    let m = b.unicode_len();
    let mut i: usize = 0;
    while i < n && i < m
        invariant
            n == a@.len(),
            m == b@.len(),
            i <= n,
            i <= m,
            text_cmp(a@, b@) == text_cmp_from(a@, b@, i as int),
        decreases n - i,
    {
        let x = a.get_char(i) as u32;
        let y = b.get_char(i) as u32;
        if x < y {
            return -1;
        }
        if x > y {
            return 1;
        }
        proof {
            assert(a@[i as int] as u32 == b@[i as int] as u32);
        }
        i = i + 1;
    }
    if i < n {
        1
    } else if i < m {
        -1
    } else {
        0
    }
}

/// Whether `v`, seen as texts, is in decreasing order.
pub open spec fn decreasing(v: Seq<String>) -> bool {
    forall|a: int, b: int| 0 <= a < b < v.len() ==> text_cmp(#[trigger] v[a]@, #[trigger] v[b]@) >= 0
}

/// Returns the paths `files` in decreasing order, so that every path comes
/// before the directories that hold it.
pub fn removal_order(files: &Vec<String>) -> (r: Vec<String>)
    ensures
        r@.to_multiset() == files@.to_multiset(),
        decreasing(r@),
{
    let mut rest: Vec<String> = Vec::new();
    let mut i: usize = 0;
    while i < files.len()
        invariant
            i <= files@.len(),
            rest@ == files@.subrange(0, i as int),
        decreases files@.len() - i,
    {
        rest.push(files[i].clone());
        i = i + 1;
        assert(rest@ =~= files@.subrange(0, i as int));
    }
    assert(files@.subrange(0, i as int) =~= files@);
    let mut out: Vec<String> = Vec::new();
    proof {
        vstd::seq_lib::to_multiset_len(out@);
        vstd::multiset::lemma_multiset_empty_len(out@.to_multiset());
        assert(out@.to_multiset().add(rest@.to_multiset()) =~= rest@.to_multiset());
    }
    while rest.len() > 0
        invariant
            out@.to_multiset().add(rest@.to_multiset()) == files@.to_multiset(),
            decreasing(out@),
            forall|a: int, b: int|
                0 <= a < out@.len() && 0 <= b < rest@.len() ==> text_cmp(#[trigger] out@[a]@, #[trigger] rest@[b]@)
                    >= 0,
        decreases rest@.len(),
    {
        let mut best: usize = 0;
        let mut j: usize = 1;
        proof {
            lemma_text_refl(rest@[0]@, 0);
        }
        while j < rest.len()
            invariant
                0 < rest@.len(),
                best < rest@.len(),
                1 <= j <= rest@.len(),
                forall|b: int| 0 <= b < j ==> text_cmp(rest@[best as int]@, #[trigger] rest@[b]@) >= 0,
            decreases rest@.len() - j,
        {
            proof {
                lemma_text_cmp_from(rest@[best as int]@, rest@[j as int]@, rest@[j as int]@, 0);
            }
            if compare_text(rest[j].as_str(), rest[best].as_str()) > 0 {
                proof {
                    assert forall|b: int| 0 <= b < j + 1 implies text_cmp(rest@[j as int]@, #[trigger] rest@[b]@) >= 0 by {
                        lemma_text_cmp_from(rest@[b]@, rest@[best as int]@, rest@[j as int]@, 0);
                        lemma_text_cmp_from(rest@[j as int]@, rest@[best as int]@, rest@[b]@, 0);
                        lemma_text_cmp_from(rest@[b]@, rest@[j as int]@, rest@[j as int]@, 0);
                        if b < j {
                            lemma_text_cmp_from(rest@[best as int]@, rest@[b]@, rest@[b]@, 0);
                        }
                        if b == j {
                            lemma_text_refl(rest@[j as int]@, 0);
                        }
                    }
                }
                best = j;
            } else {
                proof {
                    lemma_text_cmp_from(rest@[j as int]@, rest@[best as int]@, rest@[best as int]@, 0);
                }
            }
            j = j + 1;
        }
        let ghost before_rest = rest@;
        let ghost before_out = out@;
        let x = rest.remove(best);
        out.push(x);
        proof {
            vstd::seq_lib::to_multiset_remove(before_rest, best as int);
            vstd::seq_lib::to_multiset_build(before_out, x);
            assert(rest@ == before_rest.remove(best as int));
            assert(out@ == before_out.push(x));
            assert(before_rest.to_multiset().count(x) > 0) by {
                assert(before_rest[best as int] == x);
                assert(before_rest.contains(x));
                vstd::seq_lib::to_multiset_contains(before_rest, x);
            }
            assert(out@.to_multiset().add(rest@.to_multiset()) =~= files@.to_multiset());
            assert forall|a: int, b: int| 0 <= a < b < out@.len() implies text_cmp(#[trigger] out@[a]@, #[trigger] out@[b]@) >= 0 by {
                if b == out@.len() - 1 {
                    assert(out@[b] == before_rest[best as int]);
                    assert(out@[a] == before_out[a]);
                } else {
                    assert(out@[a] == before_out[a]);
                    assert(out@[b] == before_out[b]);
                }
            }
            assert forall|a: int, b: int| 0 <= a < out@.len() && 0 <= b < rest@.len() implies text_cmp(#[trigger] out@[a]@, #[trigger] rest@[b]@) >= 0 by {
                let ob = if b < best { b } else { b + 1 };
                assert(rest@[b] == before_rest[ob]);
                if a == out@.len() - 1 {
                    assert(out@[a] == before_rest[best as int]);
                } else {
                    assert(out@[a] == before_out[a]);
                }
            }
        }
    }
    proof {
        vstd::seq_lib::to_multiset_len(rest@);
        vstd::multiset::lemma_multiset_empty_len(rest@.to_multiset());
        assert(rest@.to_multiset() =~= Multiset::<String>::empty());
        assert(out@.to_multiset().add(Multiset::<String>::empty()) =~= out@.to_multiset());
    }
    out
}

proof fn lemma_text_facts(a: Seq<char>, b: Seq<char>, c: Seq<char>)
    ensures
        text_cmp(a, b) == -text_cmp(b, a),
        text_cmp(a, c) == -text_cmp(c, a),
        text_cmp(b, c) == -text_cmp(c, b),
        text_cmp(a, b) <= 0 && text_cmp(b, c) <= 0 ==> text_cmp(a, c) <= 0,
        text_cmp(c, b) <= 0 && text_cmp(b, a) <= 0 ==> text_cmp(c, a) <= 0,
        text_cmp(b, a) <= 0 && text_cmp(a, c) <= 0 ==> text_cmp(b, c) <= 0,
        text_cmp(c, a) <= 0 && text_cmp(a, b) <= 0 ==> text_cmp(c, b) <= 0,
        text_cmp(a, c) <= 0 && text_cmp(c, b) <= 0 ==> text_cmp(a, b) <= 0,
        text_cmp(b, c) <= 0 && text_cmp(c, a) <= 0 ==> text_cmp(b, a) <= 0,
        text_cmp(a, a) == 0,
{
    lemma_text_cmp_from(a, b, c, 0);
    lemma_text_cmp_from(c, b, a, 0);
    lemma_text_cmp_from(b, a, c, 0);
    lemma_text_cmp_from(c, a, b, 0);
    lemma_text_cmp_from(a, c, b, 0);
    lemma_text_cmp_from(b, c, a, 0);
    lemma_text_refl(a, 0);
}

/// The name of plan entry `i`.
pub open spec fn entry_name(plan: Seq<(Package, usize)>, i: usize) -> Seq<char> {
    plan[i as int].0.name@
}

/// The order in which the packages of a plan are installed: the indices of
/// the plan sorted by package name, entries of one name in plan order.
pub fn install_order(plan: &Vec<(Package, usize)>) -> (r: Vec<usize>)
    ensures
        r@.to_multiset() == Seq::new(plan@.len(), |i: int| i as usize).to_multiset(),
        forall|k: int| 0 <= k < r@.len() ==> #[trigger] r@[k] < plan@.len(),
        forall|a: int, b: int|
            0 <= a < b < r@.len() ==> text_cmp(entry_name(plan@, #[trigger] r@[a]), entry_name(plan@, #[trigger] r@[b])) <= 0,
{
    let ghost all = Seq::new(plan@.len(), |i: int| i as usize);
    let mut rest: Vec<usize> = Vec::new();
    let mut i: usize = 0;
    while i < plan.len()
        invariant
            i <= plan@.len(),
            all == Seq::new(plan@.len(), |i: int| i as usize),
            rest@ == all.subrange(0, i as int),
        decreases plan@.len() - i,
    {
        rest.push(i);
        i = i + 1;
        assert(rest@ =~= all.subrange(0, i as int));
    }
    assert(all.subrange(0, i as int) =~= all);
    let mut out: Vec<usize> = Vec::new();
    proof {
        vstd::seq_lib::to_multiset_len(out@);
        vstd::multiset::lemma_multiset_empty_len(out@.to_multiset());
        assert(out@.to_multiset().add(rest@.to_multiset()) =~= rest@.to_multiset());
    }
    while rest.len() > 0
        invariant
            out@.to_multiset().add(rest@.to_multiset()) == all.to_multiset(),
            forall|k: int| 0 <= k < rest@.len() ==> #[trigger] rest@[k] < plan@.len(),
            forall|k: int| 0 <= k < out@.len() ==> #[trigger] out@[k] < plan@.len(),
            forall|a: int, b: int|
                0 <= a < b < out@.len() ==> text_cmp(entry_name(plan@, #[trigger] out@[a]), entry_name(plan@, #[trigger] out@[b])) <= 0,
            forall|a: int, b: int|
                0 <= a < out@.len() && 0 <= b < rest@.len() ==> text_cmp(entry_name(plan@, #[trigger] out@[a]), entry_name(plan@, #[trigger] rest@[b])) <= 0,
        decreases rest@.len(),
    {
        let mut best: usize = 0;
        let mut j: usize = 1;
        proof {
            lemma_text_refl(entry_name(plan@, rest@[0]), 0);
        }
        while j < rest.len()
            invariant
                0 < rest@.len(),
                best < rest@.len(),
                1 <= j <= rest@.len(),
                forall|k: int| 0 <= k < rest@.len() ==> #[trigger] rest@[k] < plan@.len(),
                forall|b: int| 0 <= b < j ==> text_cmp(entry_name(plan@, rest@[best as int]), entry_name(plan@, #[trigger] rest@[b])) <= 0,
            decreases rest@.len() - j,
        {
            let ghost nb = entry_name(plan@, rest@[best as int]);
            let ghost nj = entry_name(plan@, rest@[j as int]);
            if compare_text(plan[rest[j]].0.name.as_str(), plan[rest[best]].0.name.as_str()) < 0 {
                proof {
                    assert forall|b: int| 0 <= b < j + 1 implies text_cmp(nj, entry_name(plan@, #[trigger] rest@[b])) <= 0 by {
                        lemma_text_facts(nj, nb, entry_name(plan@, rest@[b]));
                    }
                }
                best = j;
            } else {
                proof {
                    lemma_text_facts(nb, nj, nj);
                }
            }
            j = j + 1;
        }
        let ghost before_rest = rest@;
        let ghost before_out = out@;
        let x = rest.remove(best);
        out.push(x);
        proof {
            vstd::seq_lib::to_multiset_remove(before_rest, best as int);
            vstd::seq_lib::to_multiset_build(before_out, x);
            assert(rest@ == before_rest.remove(best as int));
            assert(out@ == before_out.push(x));
            assert(before_rest.to_multiset().count(x) > 0) by {
                assert(before_rest[best as int] == x);
                assert(before_rest.contains(x));
                vstd::seq_lib::to_multiset_contains(before_rest, x);
            }
            assert(out@.to_multiset().add(rest@.to_multiset()) =~= all.to_multiset());
            assert forall|k: int| 0 <= k < rest@.len() implies #[trigger] rest@[k] < plan@.len() by {
                let ob = if k < best { k } else { k + 1 };
                assert(rest@[k] == before_rest[ob]);
            }
            assert forall|k: int| 0 <= k < out@.len() implies #[trigger] out@[k] < plan@.len() by {
                if k < before_out.len() {
                    assert(out@[k] == before_out[k]);
                }
            }
            assert forall|a: int, b: int| 0 <= a < b < out@.len() implies text_cmp(entry_name(plan@, #[trigger] out@[a]), entry_name(plan@, #[trigger] out@[b])) <= 0 by {
                if b == out@.len() - 1 {
                    assert(out@[b] == before_rest[best as int]);
                    assert(out@[a] == before_out[a]);
                } else {
                    assert(out@[a] == before_out[a]);
                    assert(out@[b] == before_out[b]);
                }
            }
            assert forall|a: int, b: int| 0 <= a < out@.len() && 0 <= b < rest@.len() implies text_cmp(entry_name(plan@, #[trigger] out@[a]), entry_name(plan@, #[trigger] rest@[b])) <= 0 by {
                let ob = if b < best { b } else { b + 1 };
                assert(rest@[b] == before_rest[ob]);
                if a == out@.len() - 1 {
                    assert(out@[a] == before_rest[best as int]);
                } else {
                    assert(out@[a] == before_out[a]);
                }
            }
        }
    }
    proof {
        vstd::seq_lib::to_multiset_len(rest@);
        vstd::multiset::lemma_multiset_empty_len(rest@.to_multiset());
        assert(rest@.to_multiset() =~= Multiset::<usize>::empty());
        assert(out@.to_multiset().add(Multiset::<usize>::empty()) =~= out@.to_multiset());
    }
    out
}

proof fn lemma_text_refl(a: Seq<char>, i: int)
    requires
        i >= 0,
    ensures
        text_cmp_from(a, a, i) == 0,
    decreases a.len() + a.len() - 2 * i,
{
    if i < a.len() {
        lemma_text_refl(a, i + 1);
    }
}

impl Environment {
    /// The environment of the (canonical) system root `sysroot`, when its
    /// lockfile could be created (`lock_acquired`); `None` when another
    /// instance holds it.
    pub fn with_root(sysroot: String, lock_acquired: bool) -> (r: Option<Environment>)
        ensures
            r is Some == lock_acquired,
            r matches Some(env) ==> env.sysroot@ == sysroot@,
    {
        if lock_acquired {
            Some(Environment { sysroot })
        } else {
            None
        }
    }

    /// Returns the system root of the environment.
    pub fn sysroot(&self) -> (r: &str)
        ensures
            r@ == self.sysroot@,
    {
        self.sysroot.as_str()
    }

    /// Returns the path to the lockfile of the environment.
    pub fn lockfile_path(&self) -> (r: String)
        ensures
            r@ == concat(self.sysroot@, "var/lib/blimp/.lock"@),
    {
        concat_paths(self.sysroot.as_str(), "var/lib/blimp/.lock")
    }

    /// Returns the path to the installed-package database of the environment.
    pub fn installed_db_path(&self) -> (r: String)
        ensures
            r@ == concat(self.sysroot@, "var/lib/blimp/installed"@),
    {
        concat_paths(self.sysroot.as_str(), "var/lib/blimp/installed")
    }

    /// Returns the path to the list of remotes of the environment.
    pub fn remotes_list_path(&self) -> (r: String)
        ensures
            r@ == concat(self.sysroot@, "var/lib/blimp/remotes_list"@),
    {
        concat_paths(self.sysroot.as_str(), "var/lib/blimp/remotes_list")
    }

    /// Returns the installed version of the package named `name`.
    pub fn get_installed_version(&self, db: &Vec<InstalledPackage>, name: &str) -> (r: Option<Version>)
        ensures
            match entry_of(db@, name@) {
                Some(k) => 0 <= k < db@.len() && r is Some && r->Some_0@ == db@[k].desc.version@,
                None => r is None,
            },
    {
        match find_installed(db, name) {
            Some(k) => Some(db[k].desc.version.duplicate()),
            None => None,
        }
    }

    /// Returns the paths, under the system root, of the files of `pkg` in
    /// the order they are removed: the tracked paths in decreasing order, so
    /// that a file comes before the directories that hold it.
    pub fn removal_paths(&self, pkg: &InstalledPackage) -> (r: Vec<String>)
        ensures
            exists|order: Seq<String>|
                #[trigger] order.to_multiset() == pkg.files@.to_multiset() && decreasing(order)
                    && r@.len() == order.len() && forall|k: int|
                    0 <= k < order.len() ==> (#[trigger] r@[k])@ == concat(self.sysroot@, order[k]@),
    {
        let order = removal_order(&pkg.files);
        let mut out: Vec<String> = Vec::new();
        let mut k: usize = 0;
        while k < order.len()
            invariant
                k <= order@.len(),
                out@.len() == k,
                forall|j: int| 0 <= j < k ==> (#[trigger] out@[j])@ == concat(self.sysroot@, order@[j]@),
            decreases order@.len() - k,
        {
            out.push(concat_paths(self.sysroot.as_str(), order[k].as_str()));
            k = k + 1;
        }
        out
    }

    /// Records in the database that `pkg` was installed from an archive whose
    /// members are `entries`: the installed files are the members under
    /// `data/`, with that prefix removed. The entry of the same name, if any,
    /// is replaced. Fails with `UnsafePath`, leaving the database as it was,
    /// when a member would land outside the system root.
    pub fn record_install(
        &self,
        db: &mut Vec<InstalledPackage>,
        pkg: Package,
        entries: &Vec<String>,
    ) -> (r: Result<(), InstallError>)
        requires
            unique_names(old(db)@),
        ensures
            unique_names(final(db)@),
            r is Ok ==> (exists|k: int| 0 <= k < final(db)@.len() && (#[trigger] final(db)@[k]).desc.name@ == pkg.name@)
                && forall|k: int|
                0 <= k < final(db)@.len() && (#[trigger] final(db)@[k]).desc.name@ == pkg.name@ ==> final(db)@[k].desc == pkg && final(db)@[k].files@.map_values(
                    |f: String| f@,
                ) == data_paths(entries@.map_values(|x: String| x@)),
            match r {
                Ok(()) => exists|e: InstalledPackage|
                    final(db)@ == #[trigger] upsert(old(db)@, e) && e.desc == pkg && e.files@.map_values(
                        |f: String| f@,
                    ) == data_paths(entries@.map_values(|x: String| x@)),
                Err(_) => final(db)@ == old(db)@ && exists|k: int|
                    0 <= k < entries@.len() && !is_safe_member(#[trigger] entries@[k]@),
            },
    {
        match installed_files(entries) {
            Ok(files) => {
                let e = InstalledPackage { desc: pkg, files };
                let ghost eg = e;
                insert_installed(db, e);
                assert(eg.files@.map_values(|f: String| f@) == data_paths(
                    entries@.map_values(|x: String| x@),
                ));
                proof {
                    lemma_upsert_records(old(db)@, eg);
                    let k = entry_of(db@, pkg.name@)->Some_0;
                    lemma_first_named_props(db@, pkg.name@, db@.len() as int);
                    assert(db@[k].desc.name@ == pkg.name@);
                }
                Ok(())
            },
            Err(err) => Err(err),
        }
    }

    /// Records in the database that `pkg` replaced the installed package of
    /// the same name, from an archive whose members are `entries`: every
    /// entry with that name is dropped and the new one is added. Fails with
    /// `UnsafePath`, leaving the database as it was, when a member would land
    /// outside the system root.
    pub fn update(
        &self,
        db: &mut Vec<InstalledPackage>,
        pkg: Package,
        entries: &Vec<String>,
    ) -> (r: Result<(), InstallError>)
        requires
            unique_names(old(db)@),
        ensures
            unique_names(final(db)@),
            r is Ok ==> (exists|k: int| 0 <= k < final(db)@.len() && (#[trigger] final(db)@[k]).desc.name@ == pkg.name@)
                && forall|k: int|
                0 <= k < final(db)@.len() && (#[trigger] final(db)@[k]).desc.name@ == pkg.name@ ==> final(db)@[k].desc == pkg && final(db)@[k].files@.map_values(
                    |f: String| f@,
                ) == data_paths(entries@.map_values(|x: String| x@)),
            match r {
                Ok(()) => exists|e: InstalledPackage|
                    final(db)@ == #[trigger] without(old(db)@, pkg.name@).push(e) && e.desc == pkg
                        && e.files@.map_values(|f: String| f@) == data_paths(
                        entries@.map_values(|x: String| x@),
                    ),
                Err(_) => final(db)@ == old(db)@ && exists|k: int|
                    0 <= k < entries@.len() && !is_safe_member(#[trigger] entries@[k]@),
            },
    {
        match installed_files(entries) {
            Ok(files) => {
                let ghost pname = pkg.name@;
                remove_installed(db, pkg.name.as_str());
                proof {
                    lemma_without_unique(old(db)@, pname);
                }
                let ghost w = db@;
                let e = InstalledPackage { desc: pkg, files };
                let ghost eg = e;
                db.push(e);
                proof {
                    assert forall|a: int, b: int| 0 <= a < b < db@.len() implies (#[trigger] db@[a]).desc.name@
                        != (#[trigger] db@[b]).desc.name@ by {
                        if b == w.len() {
                            assert(db@[a] == w[a]);
                        } else {
                            assert(db@[a] == w[a] && db@[b] == w[b]);
                        }
                    }
                    assert forall|k: int| 0 <= k < db@.len() && (#[trigger] db@[k]).desc.name@ == pname implies k == w.len() by {
                        if k < w.len() {
                            assert(db@[k] == w[k]);
                        }
                    }
                    assert(db@[w.len() as int].desc.name@ == pname);
                }
                assert(eg.files@.map_values(|f: String| f@) == data_paths(
                    entries@.map_values(|x: String| x@),
                ));
                Ok(())
            },
            Err(err) => Err(err),
        }
    }
}

} // verus!
