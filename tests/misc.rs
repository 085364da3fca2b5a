use blimp::archive::{detect_format, format_for_mime, ArchiveError, ArchiveFormat};
use blimp::builder::{
    build_hook_env, choose_build_triplet, jobs_count, BuildDescriptor, BuildProcess, FetchAction,
    FetchError, JobsError, Source, SourceRemote,
};
use blimp::cache::{checksum_file_name, checksum_matches, compute_checksum, encoded_key, is_cached};
use blimp::package::{is_valid_name, Dependency, Package};
use blimp::confirm::answer;
use blimp::download::DownloadProgress;
use blimp::remote::{add_remote, format_remotes, parse_remotes, remove_remote, Remote};
use blimp::repository::Repository;
use blimp::server::{is_correct_name, package_archive, package_info, root_text, Config, JobStatus};
use blimp::version::{Version, VersionConstraint};

fn v(s: &str) -> Version {
    Version::parse(s).unwrap()
}

fn pkg(name: &str, version: &str) -> Package {
    Package::new(name.to_string(), v(version), "a test".to_string(), vec![], vec![])
}

fn hex(b: &[u8]) -> String {
    b.iter().map(|x| format!("{:02x}", x)).collect()
}

#[test]
fn checksum_is_sha256() {
    assert_eq!(
        hex(&compute_checksum(b"abc")),
        "ba7816bf8f01cfea414140de5dae2223b00361a396177a9cb410ff61f20015ad"
    );
    assert_eq!(compute_checksum(b"").len(), 32);
}

#[test]
fn cache_validity() {
    let data = b"some bytes".to_vec();
    assert!(!is_cached(&data, None));
    let sum = compute_checksum(&data);
    assert!(is_cached(&data, Some(&sum)));
    assert!(!is_cached(b"other bytes", Some(&sum)));
    assert!(!is_cached(&data, Some(&sum[..31])));
    assert!(checksum_matches(&sum, Some(&sum)));
    assert!(!checksum_matches(&sum, None));
}

#[test]
fn cache_file_names() {
    assert_eq!(encoded_key(b"hello"), "aGVsbG8=");
    assert_eq!(encoded_key(b"https://example.com/a.tar.gz"), "aHR0cHM6Ly9leGFtcGxlLmNvbS9hLnRhci5neg==");
    assert_eq!(checksum_file_name("aGVsbG8="), "aGVsbG8=.checksum");
}

#[test]
fn archive_format_detection() {
    assert_eq!(detect_format(&[0x1f, 0x8b, 0x08, 0, 0, 0, 0, 0]), Ok(ArchiveFormat::Gzip));
    assert_eq!(detect_format(&[0xfd, 0x37, 0x7a, 0x58, 0x5a, 0x00, 0x00]), Ok(ArchiveFormat::Xz));
    assert_eq!(detect_format(b"BZh91AY&SY"), Ok(ArchiveFormat::Bzip2));
    assert_eq!(detect_format(b"plain text"), Err(ArchiveError::UnsupportedFormat));
    assert_eq!(detect_format(&[]), Err(ArchiveError::UnsupportedFormat));
    assert_eq!(format_for_mime(Some("application/zip")), Err(ArchiveError::UnsupportedFormat));
    assert_eq!(format_for_mime(Some("application/x-xz")), Ok(ArchiveFormat::Xz));
}

#[test]
fn fetch_actions() {
    let local = Source {
        inner: SourceRemote::Local { path: "/src/hello".to_string() },
        location: "/hello".to_string(),
    };
    assert_eq!(
        local.fetch_action("/tmp/build", false),
        Ok(FetchAction::Local { path: "/src/hello".to_string(), dest: "/tmp/build/hello".to_string() })
    );
    let url = Source {
        inner: SourceRemote::Url { url: "https://x/y.tar.gz".to_string() },
        location: "y".to_string(),
    };
    assert_eq!(url.fetch_action("/b", false), Err(FetchError::NetworkDisabled));
    assert_eq!(
        url.fetch_action("/b", true),
        Ok(FetchAction::Download { url: "https://x/y.tar.gz".to_string(), dest: "/b/y".to_string() })
    );
    let git = Source {
        inner: SourceRemote::Git { git_url: "https://g/r.git".to_string(), branch: Some("dev".to_string()) },
        location: "r".to_string(),
    };
    let expected: Vec<String> = ["clone", "--depth", "1", "--single-branch", "-b", "dev", "https://g/r.git", "/b/r"]
        .iter()
        .map(|s| s.to_string())
        .collect();
    assert_eq!(git.fetch_action("/b", true), Ok(FetchAction::GitClone { args: expected }));
    assert_eq!(git.fetch_action("/b", false), Err(FetchError::NetworkDisabled));
}

#[test]
fn build_triplet_choice() {
    assert_eq!(choose_build_triplet(Some("aarch64-linux-musl".to_string()), Some("x")), "aarch64-linux-musl");
    assert_eq!(choose_build_triplet(None, Some("x86_64-pc-linux-gnu\n")), "x86_64-pc-linux-gnu");
    assert_eq!(choose_build_triplet(None, None), "x86_64-linux-gnu");
}

#[test]
fn jobs_from_environment() {
    assert_eq!(jobs_count(Some("8"), Some(2)), Ok(8));
    assert_eq!(jobs_count(None, Some(6)), Ok(6));
    assert_eq!(jobs_count(None, None), Ok(1));
    assert_eq!(jobs_count(Some("0"), Some(2)), Err(JobsError::InvalidJobs));
    assert_eq!(jobs_count(Some("four"), Some(2)), Err(JobsError::InvalidJobs));
    assert_eq!(jobs_count(Some(""), Some(2)), Err(JobsError::InvalidJobs));
    assert_eq!(jobs_count(Some("99999999999999999999999"), None), Err(JobsError::InvalidJobs));
}

#[test]
fn hook_environment() {
    let p = pkg("hello", "0.1");
    let env = build_hook_env("/in", "b-t", "h-t", "t-t", "/stage", &p, 12);
    let expected: Vec<(String, String)> = [
        ("DESC_PATH", "/in"),
        ("BUILD", "b-t"),
        ("HOST", "h-t"),
        ("TARGET", "t-t"),
        ("SYSROOT", "/stage"),
        ("PKG_NAME", "hello"),
        ("PKG_VERSION", "0.1"),
        ("PKG_DESC", "a test"),
        ("JOBS", "12"),
    ]
    .iter()
    .map(|(a, b)| (a.to_string(), b.to_string()))
    .collect();
    assert_eq!(env, expected);
}

#[test]
fn build_process_paths() {
    let desc = BuildDescriptor { sources: vec![], package: pkg("hello", "0.1") };
    let bp = BuildProcess::new("/in".to_string(), desc.clone(), "/w/b".to_string(), "/w/s".to_string());
    assert_eq!(bp.get_build_dir(), "/w/b");
    assert_eq!(bp.get_sysroot(), "/w/s");
    assert_eq!(bp.build_desc_path(), "/in/package.json");
    assert_eq!(bp.build_hook_path(), "/in/build-hook");
    assert_eq!(bp.get_build_desc().get_package().name, "hello");
    let list = vec![("/p/a".to_string(), desc.clone()), ("/p/b".to_string(), desc)];
    assert_eq!(BuildDescriptor::server_get(&list, "hello", &v("0.1")), Some(0));
    assert_eq!(BuildDescriptor::server_get(&list, "hello", &v("0.2")), None);
}

#[test]
fn names() {
    assert!(is_valid_name("gcc-10"));
    assert!(!is_valid_name("gcc_10"));
    assert!(!is_valid_name("a/b"));
    assert!(!is_correct_name("gcc_10"));
    assert!(is_correct_name("gcc-10"));
    assert!(!is_correct_name("gcc 10"));
}

#[test]
fn server_answers() {
    let repo = Repository::load("/srv".to_string(), None, vec![pkg("foo", "1.0")]);
    assert_eq!(package_info(&repo, "foo", "1.0").unwrap().name, "foo");
    assert_eq!(package_info(&repo, "foo", "2.0"), Err(404));
    assert_eq!(package_info(&repo, "f/o", "1.0"), Err(400));
    assert_eq!(package_info(&repo, "foo", "x"), Err(400));
    assert_eq!(package_archive(&repo, "foo", "1.0"), Ok("/srv/foo/1.0/archive".to_string()));
    assert_eq!(package_archive(&repo, "bar", "1.0"), Err(404));
    assert_eq!(root_text("0.1.0"), "Blimp server version 0.1.0");
    let c = Config::default();
    assert_eq!(c.port, 80);
    assert!(JobStatus::Pending.can_run());
    assert!(!JobStatus::Success.can_run());
}

#[test]
fn remote_urls_and_list() {
    let r = Remote::new("blimp.example.org:8080".to_string());
    assert_eq!(r.get_host(), "blimp.example.org:8080");
    assert_eq!(
        r.download_url(&pkg("libc", "2.31")),
        "https://blimp.example.org:8080/package/libc/version/2.31/archive"
    );
    assert_eq!(r.motd_url(), "https://blimp.example.org:8080/motd");
    assert_eq!(r.list_url(), "https://blimp.example.org:8080/package");
    let mut list = vec![];
    assert!(add_remote(&mut list, Remote::new("a".to_string())));
    assert!(add_remote(&mut list, Remote::new("b".to_string())));
    assert!(!add_remote(&mut list, Remote::new("a".to_string())));
    assert_eq!(list.len(), 2);
    assert!(remove_remote(&mut list, "a"));
    assert!(!remove_remote(&mut list, "a"));
    assert_eq!(list, vec![Remote::new("b".to_string())]);
}

#[test]
fn dependency_text() {
    let d = Dependency::new("libc".to_string(), VersionConstraint::parse(">=2.30").unwrap());
    assert_eq!(d.to_string(), "libc: >=2.30");
    assert_eq!(d.get_name(), "libc");
}

#[test]
fn remotes_file_text() {
    let list = parse_remotes("a.example\n\nb.example:8080\nc");
    let hosts: Vec<&str> = list.iter().map(|r| r.get_host()).collect();
    assert_eq!(hosts, vec!["a.example", "b.example:8080", "c"]);
    assert_eq!(format_remotes(&list), "a.example\nb.example:8080\nc\n");
    assert!(parse_remotes("").is_empty());
    assert_eq!(parse_remotes(&format_remotes(&list)), list);
}

#[test]
fn download_progress_is_terminal() {
    let mut p = DownloadProgress::new(Some(10));
    assert_eq!(p.advance(Some(4)), 4);
    assert_eq!(p.advance(Some(6)), 6);
    assert_eq!(p.current_size, 10);
    assert_eq!(p.advance(None), 0);
    assert!(p.finished);
    assert_eq!(p.advance(Some(3)), 0);
    assert_eq!(p.current_size, 10);
    assert_eq!(p.total_size, Some(10));
}

#[test]
fn confirmation_answers() {
    for yes in ["", "\n", "y", "Y", "ye", "yes\n", "YES", " Yes "] {
        assert_eq!(answer(yes), Some(true), "{yes:?}");
    }
    for no in ["n", "N\n", "no", "NO"] {
        assert_eq!(answer(no), Some(false), "{no:?}");
    }
    for other in ["maybe", "yess", "nope", "y e s"] {
        assert_eq!(answer(other), None, "{other:?}");
    }
}

#[test]
fn remotes_list_is_a_set() {
    let list = parse_remotes("a\nb\na\n\nb\nc\n");
    let hosts: Vec<&str> = list.iter().map(|r| r.get_host()).collect();
    assert_eq!(hosts, vec!["a", "b", "c"]);
}

#[test]
fn empty_chunk_ends_download() {
    let mut p = DownloadProgress::new(None);
    assert_eq!(p.advance(Some(5)), 5);
    assert_eq!(p.advance(Some(0)), 0);
    assert!(p.finished);
    assert_eq!(p.advance(Some(7)), 0);
    assert_eq!(p.current_size, 5);
}
