use blimp::package::{Dependency, InstalledPackage, Package};
use blimp::repository::{get_package, get_package_with_constraint, Repository};
use blimp::remote::Remote;
use blimp::resolve::{resolve, ResolveError};
use blimp::version::{Version, VersionConstraint};

fn v(s: &str) -> Version {
    Version::parse(s).unwrap()
}

fn dep(name: &str, c: &str) -> Dependency {
    Dependency::new(name.to_string(), VersionConstraint::parse(c).unwrap())
}

fn pkg(name: &str, version: &str, deps: Vec<Dependency>) -> Package {
    Package::new(name.to_string(), v(version), String::new(), vec![], deps)
}

fn repo(path: &str, packages: Vec<Package>) -> Repository {
    Repository::load(path.to_string(), None, packages)
}

#[test]
fn latest_selection_is_numeric() {
    let r = repo("/repo", vec![pkg("foo", "1.2.3", vec![]), pkg("foo", "1.10.0", vec![])]);
    let p = r.get_package_with_constraint("foo", None).unwrap();
    assert_eq!(p.version, v("1.10.0"));
}

#[test]
fn latest_selection_under_constraint() {
    let r = repo(
        "/repo",
        vec![pkg("foo", "1.2.3", vec![]), pkg("foo", "1.10.0", vec![]), pkg("bar", "9", vec![])],
    );
    let c = VersionConstraint::parse("<1.5").unwrap();
    let p = r.get_package_with_constraint("foo", Some(&c)).unwrap();
    assert_eq!(p.version, v("1.2.3"));
    let c = VersionConstraint::parse(">2").unwrap();
    assert!(r.get_package_with_constraint("foo", Some(&c)).is_none());
    assert!(r.get_package_with_constraint("baz", None).is_none());
}

#[test]
fn latest_over_repositories() {
    let repos = vec![
        repo("/a", vec![pkg("foo", "1.2", vec![])]),
        repo("/b", vec![pkg("foo", "1.3", vec![])]),
        repo("/c", vec![pkg("foo", "1.1", vec![])]),
    ];
    let (i, p) = get_package_with_constraint(&repos, "foo", None).unwrap();
    assert_eq!(i, 1);
    assert_eq!(p.version, v("1.3"));
    let (i, p) = get_package(&repos, "foo", &v("1.1")).unwrap();
    assert_eq!(i, 2);
    assert_eq!(p.name, "foo");
    assert!(get_package(&repos, "foo", &v("2")).is_none());
}

#[test]
fn repository_paths() {
    let r = repo("/srv/repo", vec![]);
    assert_eq!(r.get_desc_path("libc", &v("2.31")), "/srv/repo/libc/2.31/desc");
    assert_eq!(r.get_archive_path("libc", &v("2.31")), "/srv/repo/libc/2.31/archive");
    let r = repo("/srv/repo/", vec![]);
    assert_eq!(r.get_archive_path("x", &v("1")), "/srv/repo/x/1/archive");
}

#[test]
fn resolve_transitive_plan_is_closed() {
    let repos = vec![repo(
        "/repo",
        vec![
            pkg("app", "1.0", vec![dep("lib", ">=1.0")]),
            pkg("lib", "1.0", vec![dep("base", "*")]),
            pkg("lib", "1.5", vec![dep("base", "*")]),
            pkg("base", "3", vec![]),
        ],
    )];
    let root = pkg("app", "1.0", vec![dep("lib", ">=1.0")]);
    let plan = resolve(vec![(root, 0)], &repos, &vec![]).ok().unwrap();
    let names: Vec<(String, String)> =
        plan.iter().map(|(p, _)| (p.name.clone(), p.version.to_string())).collect();
    assert_eq!(
        names,
        vec![
            ("app".to_string(), "1.0".to_string()),
            ("lib".to_string(), "1.5".to_string()),
            ("base".to_string(), "3".to_string()),
        ]
    );
    for (p, _) in &plan {
        for d in &p.run_deps {
            assert!(plan.iter().any(|(q, _)| q.name == d.name && d.version_constraint.is_valid(&q.version)));
        }
    }
}

#[test]
fn resolve_reports_cycle() {
    let a = pkg("a", "1", vec![dep("b", "*")]);
    let b = pkg("b", "1", vec![dep("a", "*")]);
    let repos = vec![repo("/repo", vec![a.clone(), b])];
    let errors = resolve(vec![(a, 0)], &repos, &vec![]).err().unwrap();
    assert_eq!(
        errors,
        vec![ResolveError::DependencyCycle {
            path: vec!["a".to_string(), "b".to_string(), "a".to_string()],
        }]
    );
}

#[test]
fn resolve_reports_conflict() {
    let a = pkg("a", "1.0", vec![dep("c", "=1.0")]);
    let b = pkg("b", "1.0", vec![dep("c", "=2.0")]);
    let repos = vec![repo(
        "/repo",
        vec![a.clone(), b.clone(), pkg("c", "1.0", vec![]), pkg("c", "2.0", vec![])],
    )];
    let errors = resolve(vec![(a, 0), (b, 0)], &repos, &vec![]).err().unwrap();
    assert_eq!(
        errors,
        vec![ResolveError::VersionConflict {
            name: "c".to_string(),
            required_version: VersionConstraint::Equal(v("2.0")),
            other_version: v("1.0"),
        }]
    );
}

#[test]
fn resolve_reports_missing() {
    let a = pkg("a", "1", vec![dep("zz", ">=4"), dep("yy", "*")]);
    let repos = vec![repo("/repo", vec![pkg("zz", "3", vec![])])];
    let errors = resolve(vec![(a, 0)], &repos, &vec![]).err().unwrap();
    assert_eq!(
        errors,
        vec![
            ResolveError::NotFound {
                name: "zz".to_string(),
                version_constraint: VersionConstraint::GreaterOrEqual(v("4")),
            },
            ResolveError::NotFound { name: "yy".to_string(), version_constraint: VersionConstraint::Any },
        ]
    );
}

#[test]
fn resolve_dependencies_extends_plan() {
    let repos = vec![repo("/repo", vec![pkg("x", "2", vec![])])];
    let root = pkg("r", "1", vec![dep("x", "2")]);
    let mut plan = vec![(root.clone(), 0)];
    assert!(root.resolve_dependencies(&repos, &vec![], &mut plan).is_ok());
    assert_eq!(plan.len(), 2);
    assert_eq!(plan[1].0.name, "x");
    assert_eq!(plan[1].1, 0);
}

#[test]
fn repository_listing_and_remote() {
    let r = Repository::load(
        "/r".to_string(),
        Some(Remote::new("mirror.example".to_string())),
        vec![pkg("a", "1", vec![]), pkg("b", "2", vec![])],
    );
    assert_eq!(r.get_remote().unwrap().host, "mirror.example");
    let names: Vec<String> = r.list_packages().into_iter().map(|p| p.name).collect();
    assert_eq!(names, vec!["a".to_string(), "b".to_string()]);
    assert_eq!(r.get_package("b", &v("2")).unwrap().name, "b");
    assert!(r.get_package("b", &v("2.0")).is_none());
}

#[test]
fn installed_packages_are_pinned() {
    let repos = vec![repo("/repo", vec![pkg("libc", "2.40", vec![])])];
    let installed = vec![InstalledPackage::new(pkg("libc", "2.31", vec![]), vec![])];
    let ok = pkg("gcc", "10.0", vec![dep("libc", ">=2.30")]);
    let plan = resolve(vec![(ok, 0)], &repos, &installed).ok().unwrap();
    assert_eq!(plan.len(), 1);
    let newer = pkg("tool", "1", vec![dep("libc", ">=2.32")]);
    let errors = resolve(vec![(newer, 0)], &repos, &installed).err().unwrap();
    assert_eq!(
        errors,
        vec![ResolveError::VersionConflict {
            name: "libc".to_string(),
            required_version: VersionConstraint::GreaterOrEqual(v("2.32")),
            other_version: v("2.31"),
        }]
    );
}

#[test]
fn greatest_version_despite_shared_prefixes() {
    let r = repo("/repo", vec![pkg("x", "1.0.5", vec![]), pkg("x", "1.0", vec![]), pkg("x", "1.0.3", vec![])]);
    assert_eq!(r.get_package_with_constraint("x", None).unwrap().version, v("1.0.5"));
    let repos = vec![
        repo("/a", vec![pkg("x", "1.0.5", vec![])]),
        repo("/b", vec![pkg("x", "1.0", vec![])]),
        repo("/c", vec![pkg("x", "1.0.3", vec![])]),
    ];
    let (i, p) = get_package_with_constraint(&repos, "x", None).unwrap();
    assert_eq!(i, 0);
    assert_eq!(p.version, v("1.0.5"));
}

#[test]
fn resolve_dependencies_reports_cycle() {
    let a = pkg("a", "1", vec![dep("b", "*")]);
    let repos = vec![repo("/repo", vec![pkg("b", "1", vec![dep("a", "*")])])];
    let mut plan = vec![];
    let errors = a.resolve_dependencies(&repos, &vec![], &mut plan).err().unwrap();
    assert_eq!(
        errors,
        vec![ResolveError::DependencyCycle { path: vec!["a".to_string(), "b".to_string(), "a".to_string()] }]
    );
}

#[test]
fn resolve_dependencies_single_conflict() {
    let a = pkg("a", "1.0", vec![dep("c", "=1.0")]);
    let b = pkg("b", "1.0", vec![dep("c", "=2.0")]);
    let c1 = pkg("c", "1.0", vec![]);
    let repos = vec![repo("/repo", vec![a.clone(), b.clone(), c1.clone(), pkg("c", "2.0", vec![])])];
    let mut plan = vec![(a, 0), (b.clone(), 0), (c1, 0)];
    let before = plan.clone();
    let errors = b.resolve_dependencies(&repos, &vec![], &mut plan).err().unwrap();
    assert_eq!(
        errors,
        vec![ResolveError::VersionConflict {
            name: "c".to_string(),
            required_version: VersionConstraint::Equal(v("2.0")),
            other_version: v("1.0"),
        }]
    );
    assert_eq!(plan, before);
}
