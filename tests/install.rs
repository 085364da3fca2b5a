use blimp::install::{
    check_removal, find_installed, install_order, removal_order, get_installed, insert_installed, is_installed, remove_installed,
    Environment, RemoveError,
};
use blimp::package::{list_unmatched_dependencies, Dependency, InstalledPackage, Package};
use blimp::paths::{concat_paths, data_member_path, installed_files, InstallError};
use blimp::version::{Version, VersionConstraint};

fn v(s: &str) -> Version {
    Version::parse(s).unwrap()
}

fn dep(name: &str, c: &str) -> Dependency {
    Dependency::new(name.to_string(), VersionConstraint::parse(c).unwrap())
}

fn pkg(name: &str, version: &str, deps: Vec<Dependency>) -> Package {
    Package::new(name.to_string(), v(version), String::new(), vec![], deps)
}

fn installed(name: &str, version: &str, deps: Vec<Dependency>, files: &[&str]) -> InstalledPackage {
    InstalledPackage::new(pkg(name, version, deps), files.iter().map(|f| f.to_string()).collect())
}

fn strings(v: &[&str]) -> Vec<String> {
    v.iter().map(|s| s.to_string()).collect()
}

#[test]
fn concat_keeps_absolute_paths_under_base() {
    assert_eq!(concat_paths("/sysroot", "/usr/lib"), "/sysroot/usr/lib");
    assert_eq!(concat_paths("/sysroot/", "usr"), "/sysroot/usr");
    assert_eq!(concat_paths("build", "//src"), "build/src");
    assert_eq!(concat_paths("", "x"), "x");
    assert_eq!(concat_paths("", "/x"), "x");
}

#[test]
fn data_members_are_stripped() {
    assert_eq!(data_member_path("data/usr/lib/libm.so"), Ok(Some("usr/lib/libm.so".to_string())));
    assert_eq!(data_member_path("data/"), Ok(None));
    assert_eq!(data_member_path("package.json"), Ok(None));
    assert_eq!(data_member_path("pre-install-hook"), Ok(None));
}

#[test]
fn unsafe_members_are_rejected() {
    assert_eq!(data_member_path("/data/etc/passwd"), Err(InstallError::UnsafePath));
    assert_eq!(data_member_path("data/../../etc/passwd"), Err(InstallError::UnsafePath));
    assert_eq!(data_member_path("data/a/.."), Err(InstallError::UnsafePath));
    assert_eq!(data_member_path("data/a..b"), Ok(Some("a..b".to_string())));
}

#[test]
fn install_single_package_records_files() {
    let env = Environment::with_root("/sysroot".to_string(), true).unwrap();
    let mut db = Vec::new();
    let entries = strings(&["package.json", "data/", "data/usr/lib/libm.so"]);
    env.record_install(&mut db, pkg("libm", "1.0.0", vec![]), &entries).unwrap();
    assert_eq!(db.len(), 1);
    assert_eq!(db[0].desc.name, "libm");
    assert_eq!(db[0].files, strings(&["usr/lib/libm.so"]));
    assert_eq!(installed_files(&entries), Ok(strings(&["usr/lib/libm.so"])));
}

#[test]
fn install_twice_keeps_db_size() {
    let env = Environment::with_root("/".to_string(), true).unwrap();
    let mut db = vec![installed("other", "1", vec![], &[])];
    let entries = strings(&["data/bin/hello"]);
    env.record_install(&mut db, pkg("hello", "0.1", vec![]), &entries).unwrap();
    assert_eq!(db.len(), 2);
    env.record_install(&mut db, pkg("hello", "0.2", vec![]), &entries).unwrap();
    assert_eq!(db.len(), 2);
    assert_eq!(db[1].desc.version, v("0.2"));
}

#[test]
fn install_with_unsafe_member_leaves_db() {
    let env = Environment::with_root("/".to_string(), true).unwrap();
    let mut db = vec![installed("other", "1", vec![], &["x"])];
    let before = db.clone();
    let entries = strings(&["data/ok", "data/../escape"]);
    assert_eq!(env.record_install(&mut db, pkg("bad", "1", vec![]), &entries), Err(InstallError::UnsafePath));
    assert_eq!(db, before);
}

#[test]
fn database_queries() {
    let mut db = vec![installed("a", "1", vec![], &[]), installed("b", "2.1", vec![], &[])];
    assert_eq!(find_installed(&db, "b"), Some(1));
    assert!(is_installed(&db, "a"));
    assert!(!is_installed(&db, "c"));
    assert_eq!(get_installed(&db, "b").unwrap().version, v("2.1"));
    let env = Environment::with_root("/".to_string(), true).unwrap();
    assert_eq!(env.get_installed_version(&db, "a"), Some(v("1")));
    assert_eq!(env.get_installed_version(&db, "zz"), None);
    insert_installed(&mut db, installed("a", "3", vec![], &["f"]));
    assert_eq!(db.len(), 2);
    assert_eq!(db[0].desc.version, v("3"));
    insert_installed(&mut db, installed("c", "1", vec![], &[]));
    assert_eq!(db.len(), 3);
    remove_installed(&mut db, "a");
    let names: Vec<&str> = db.iter().map(|e| e.desc.name.as_str()).collect();
    assert_eq!(names, vec!["b", "c"]);
    remove_installed(&mut db, "nothing");
    assert_eq!(db.len(), 2);
}

#[test]
fn lock_busy_gives_no_environment() {
    assert!(Environment::with_root("/".to_string(), false).is_none());
    let env = Environment::with_root("/mnt/root".to_string(), true).unwrap();
    assert_eq!(env.sysroot(), "/mnt/root");
    assert_eq!(env.lockfile_path(), "/mnt/root/var/lib/blimp/.lock");
    assert_eq!(env.installed_db_path(), "/mnt/root/var/lib/blimp/installed");
    assert_eq!(env.remotes_list_path(), "/mnt/root/var/lib/blimp/remotes_list");
}

#[test]
fn remove_with_breakage() {
    let db = vec![
        installed("gcc", "10.0", vec![dep("libc", ">=2.30")], &["usr/bin/gcc"]),
        installed("libc", "2.31", vec![], &["usr/lib/libc.so"]),
    ];
    let before = db.clone();
    assert_eq!(
        check_removal(&db, &strings(&["libc"])),
        Err(RemoveError::DependencyBreakage { package: "gcc".to_string(), dependency: "libc".to_string() })
    );
    assert_eq!(db, before);
    assert_eq!(check_removal(&db, &strings(&["gcc"])), Ok(()));
    assert_eq!(check_removal(&db, &strings(&["gcc", "libc"])), Ok(()));
}

#[test]
fn remove_missing_package() {
    let db = vec![installed("a", "1", vec![], &[])];
    assert_eq!(
        check_removal(&db, &strings(&["b"])),
        Err(RemoveError::NotFound { name: "b".to_string() })
    );
}

#[test]
fn unmatched_dependencies_listed() {
    let db = vec![
        installed("gcc", "10.0", vec![dep("libc", ">=2.30"), dep("binutils", "*")], &[]),
        installed("libc", "2.29", vec![], &[]),
        installed("make", "4", vec![dep("gcc", "*")], &[]),
    ];
    assert_eq!(list_unmatched_dependencies(&db), vec![(0, 0), (0, 1)]);
}

#[test]
fn removal_goes_deepest_first() {
    let files = strings(&["usr", "usr/lib/libm.so", "usr/lib", "etc/conf", "etc"]);
    assert_eq!(removal_order(&files), strings(&["usr/lib/libm.so", "usr/lib", "usr", "etc/conf", "etc"]));
    let env = Environment::with_root("/root".to_string(), true).unwrap();
    let p = installed("m", "1", vec![], &["usr", "usr/lib", "usr/lib/libm.so"]);
    assert_eq!(
        env.removal_paths(&p),
        strings(&["/root/usr/lib/libm.so", "/root/usr/lib", "/root/usr"])
    );
}

#[test]
fn update_replaces_entry() {
    let env = Environment::with_root("/".to_string(), true).unwrap();
    let mut db = vec![installed("hello", "0.1", vec![], &["bin/hello"]), installed("x", "1", vec![], &[])];
    let entries = strings(&["package.json", "data/bin/hello", "data/share/hello.txt"]);
    env.update(&mut db, pkg("hello", "0.2", vec![]), &entries).unwrap();
    assert_eq!(db.len(), 2);
    assert_eq!(db[0].desc.name, "x");
    assert_eq!(db[1].desc.version, v("0.2"));
    assert_eq!(db[1].files, strings(&["bin/hello", "share/hello.txt"]));
}

#[test]
fn insert_keeps_one_entry_per_name() {
    let mut db = vec![installed("a", "1", vec![], &[]), installed("b", "1", vec![], &[])];
    insert_installed(&mut db, installed("b", "2", vec![], &["x"]));
    insert_installed(&mut db, installed("b", "3", vec![], &["y"]));
    let named_b: Vec<&InstalledPackage> = db.iter().filter(|e| e.desc.name == "b").collect();
    assert_eq!(named_b.len(), 1);
    assert_eq!(named_b[0].desc.version, v("3"));
    assert_eq!(db.len(), 2);
}

#[test]
fn install_order_by_name() {
    let plan = vec![(pkg("zlib", "1", vec![]), 0), (pkg("app", "2", vec![]), 0), (pkg("libm", "1", vec![]), 1)];
    assert_eq!(install_order(&plan), vec![1, 2, 0]);
}

#[test]
fn breakage_reported_before_missing_names() {
    let db = vec![installed("gcc", "10.0", vec![dep("libc", ">=2.30")], &[])];
    assert_eq!(
        check_removal(&db, &strings(&["foo"])),
        Err(RemoveError::DependencyBreakage { package: "gcc".to_string(), dependency: "libc".to_string() })
    );
}
