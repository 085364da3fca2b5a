//! Building packages: build descriptors, where their sources come from, and
//! the settings handed to the build hook.
use crate::package::Package;
use crate::paths::{concat, concat_paths};
use crate::repository::same_components;
use crate::text::{decimal, push_decimal, same_text, trim, trim_bounds};
use crate::version::{format_version, Version};
use vstd::prelude::*;
use vstd::string::*;

verus! {

/// Where the sources of a package come from.
#[derive(Clone, Debug, PartialEq, Eq, Hash)]
pub enum SourceRemote {
    /// An archive to download.
    Url {
        /// The address of the archive.
        url: String,
    },
    /// A Git repository to clone.
    Git {
        /// The address of the repository.
        git_url: String,
        /// The branch to clone, if not the default one.
        branch: Option<String>,
    },
    /// A local directory to copy, or a local archive to unpack.
    Local {
        /// The path to the directory or archive.
        path: String,
    },
}

/// A source of a package and where to put it.
#[derive(Clone, Debug, PartialEq, Eq)]
pub struct Source {
    /// Where the source comes from.
    pub inner: SourceRemote,
    /// Where to put it, relative to the build directory.
    pub location: String,
}

/// What a package is built from.
#[derive(Clone, Debug, PartialEq, Eq)]
pub struct BuildDescriptor {
    /// The sources of the package.
    pub sources: Vec<Source>,
    /// The package's descriptor.
    pub package: Package,
}

impl BuildDescriptor {
    /// Returns the sources of the package.
    pub fn get_sources(&self) -> (r: &Vec<Source>)
        ensures
            r == &self.sources,
    {
        &self.sources
    }

    /// Returns the descriptor of the package.
    pub fn get_package(&self) -> (r: &Package)
        ensures
            r == &self.package,
    {
        &self.package
    }

    /// Returns the index of the first of the build descriptors `descs`, each
    /// given with the path of its directory, that is for version `version`
    /// of package `name`.
    pub fn server_get(descs: &Vec<(String, BuildDescriptor)>, name: &str, version: &Version) -> (r:
        Option<usize>)
        ensures
            match r {
                Some(k) => k < descs@.len() && descs@[k as int].1.package.name@ == name@
                    && descs@[k as int].1.package.version@ == version@ && forall|j: int|
                    0 <= j < k ==> !((#[trigger] descs@[j]).1.package.name@ == name@
                        && descs@[j].1.package.version@ == version@),
                None => forall|j: int|
                    0 <= j < descs@.len() ==> !((#[trigger] descs@[j]).1.package.name@ == name@
                        && descs@[j].1.package.version@ == version@),
            },
    {
        let mut k: usize = 0;
        while k < descs.len()
            invariant
                k <= descs@.len(),
                forall|j: int|
                    0 <= j < k ==> !((#[trigger] descs@[j]).1.package.name@ == name@
                        && descs@[j].1.package.version@ == version@),
            decreases descs@.len() - k,
        {
            let p = &descs[k].1.package;
            if same_text(p.name.as_str(), name) && same_components(&p.version, version) {
                return Some(k);
            }
            k = k + 1;
        }
        None
    }
}

/// What fetching a source amounts to.
#[derive(Clone, Debug, PartialEq, Eq)]
pub enum FetchAction {
    /// Copy the directory at `path` to `dest`, or unpack the archive at
    /// `path` into `dest`, depending on what `path` is.
    Local { path: String, dest: String },
    /// Download the archive at `url` and unpack it into `dest`.
    Download { url: String, dest: String },
    /// Run `git` with the arguments `args`.
    GitClone { args: Vec<String> },
}

/// The failures of fetching a source.
#[derive(Clone, Copy, Debug, PartialEq, Eq)]
pub enum FetchError {
    /// The source is remote and network access is disabled.
    NetworkDisabled,
}

/// The arguments of `git` that clone `url` (at `branch`, if any) into
/// `dest`, fetching only the last commit of one branch.
pub open spec fn git_clone_args(url: Seq<char>, branch: Option<Seq<char>>, dest: Seq<char>) -> Seq<
    Seq<char>,
> {
    let head = seq!["clone"@, "--depth"@, "1"@, "--single-branch"@];
    let with_branch = match branch {
        Some(b) => head + seq!["-b"@, b],
        None => head,
    };
    with_branch + seq![url, dest]
}

pub open spec fn strings_view(v: Seq<String>) -> Seq<Seq<char>> {
    v.map_values(|s: String| s@)
}

impl Source {
    /// Returns what fetching the source into the build directory `build_dir`
    /// amounts to. The source lands at its location under `build_dir`, even
    /// when that location is absolute. Fails with `NetworkDisabled` for a
    /// remote source when `network` is false.
    pub fn fetch_action(&self, build_dir: &str, network: bool) -> (r: Result<FetchAction, FetchError>)
        ensures
            match self.inner {
                SourceRemote::Local { path } => r matches Ok(FetchAction::Local { path: p, dest })
                    && p@ == path@ && dest@ == concat(build_dir@, self.location@),
                SourceRemote::Url { url } => if network {
                    r matches Ok(FetchAction::Download { url: u, dest }) && u@ == url@ && dest@
                        == concat(build_dir@, self.location@)
                } else {
                    r == Err::<FetchAction, FetchError>(FetchError::NetworkDisabled)
                },
                SourceRemote::Git { git_url, branch } => if network {
                    r matches Ok(FetchAction::GitClone { args }) && strings_view(args@)
                        == git_clone_args(
                        git_url@,
                        match branch {
                            Some(b) => Some(b@),
                            None => None,
                        },
                        concat(build_dir@, self.location@),
                    )
                } else {
                    r == Err::<FetchAction, FetchError>(FetchError::NetworkDisabled)
                },
            },
    {
        let dest = concat_paths(build_dir, self.location.as_str());
        match &self.inner {
            SourceRemote::Local { path } => Ok(FetchAction::Local { path: path.clone(), dest }),
            SourceRemote::Url { url } => {
                if !network {
                    return Err(FetchError::NetworkDisabled);
                }
                Ok(FetchAction::Download { url: url.clone(), dest })
            },
            SourceRemote::Git { git_url, branch } => {
                if !network {
                    return Err(FetchError::NetworkDisabled);
                }
                let mut args: Vec<String> = Vec::new();
                args.push(String::from_str("clone"));
                args.push(String::from_str("--depth"));
                args.push(String::from_str("1"));
                args.push(String::from_str("--single-branch"));
                match branch {
                    Some(b) => {
                        args.push(String::from_str("-b"));
                        args.push(b.clone());
                    },
                    None => {},
                }
                args.push(git_url.clone());
                args.push(dest);
                let ghost bv = match branch {
                    Some(b) => Some(b@),
                    None => None::<Seq<char>>,
                };
                assert(strings_view(args@) =~= git_clone_args(
                    git_url@,
                    bv,
                    concat(build_dir@, self.location@),
                ));
                Ok(FetchAction::GitClone { args })
            },
        }
    }
}

/// The triplet that stands when none can be found.
pub open spec fn default_triplet() -> Seq<char> {
    "x86_64-linux-gnu"@
}

/// Returns the build triplet: the value of `BUILD` when set
/// (`env_build`), else the trimmed output of the compiler's
/// `-dumpmachine` (`cc_output`) when there is one, else
/// `x86_64-linux-gnu`.
pub fn choose_build_triplet(env_build: Option<String>, cc_output: Option<&str>) -> (r: String)
    ensures
        r@ == match env_build {
            Some(b) => b@,
            None => match cc_output {
                Some(o) => trim(o@),
                None => default_triplet(),
            },
        },
{
    match env_build {
        Some(b) => b,
        None => match cc_output {
            Some(o) => {
                let (start, end) = trim_bounds(o);
                String::from_str(o.substring_char(start, end))
            },
            None => String::from_str("x86_64-linux-gnu"),
        },
    }
}

/// The failures of reading the number of jobs.
#[derive(Clone, Copy, Debug, PartialEq, Eq)]
pub enum JobsError {
    /// The text is not a positive decimal number that fits in a `usize`.
    InvalidJobs,
}

/// Returns the number of concurrent build jobs: the value of `JOBS` when set
/// (`env_jobs`), which must be a positive decimal number; otherwise the
/// available parallelism, or 1 when it is unknown.
pub fn jobs_count(env_jobs: Option<&str>, available: Option<usize>) -> (r: Result<usize, JobsError>)
    ensures
        match env_jobs {
            Some(s) => match r {
                Ok(n) => n > 0 && crate::text::all_digits(s@) && s@.len() > 0
                    && crate::text::digits_value(s@) == n,
                Err(_) => !(crate::text::all_digits(s@) && s@.len() > 0 && 0 < crate::text::digits_value(s@)
                    <= usize::MAX),
            },
            None => r == Ok::<usize, JobsError>(
                match available {
                    Some(a) => a,
                    None => 1,
                },
            ),
        },
{
    match env_jobs {
        None => match available {
            Some(a) => Ok(a),
            None => Ok(1),
        },
        Some(s) => {
            let n = s.unicode_len();
            if n == 0 {
                return Err(JobsError::InvalidJobs);
            }
            let mut value: usize = 0;
            let mut i: usize = 0;
            while i < n
                invariant
                    env_jobs == Some(s),
                    n == s@.len(),
                    i <= n,
                    crate::text::all_digits(s@.subrange(0, i as int)),
                    value == crate::text::digits_value(s@.subrange(0, i as int)),
                decreases n - i,
            {
                let c = s.get_char(i);
                proof {
                    let p = s@.subrange(0, i + 1);
                    assert(p.drop_last() =~= s@.subrange(0, i as int));
                    assert(p.last() == c);
                }
                if !('0' <= c && c <= '9') {
                    proof {
                        assert(!crate::text::is_digit(s@[i as int]));
                    }
                    return Err(JobsError::InvalidJobs);
                }
                let d = (c as u32 - '0' as u32) as usize;
                if value > (usize::MAX - d) / 10 {
                    proof {
                        lemma_digits_grow(s@, i as int + 1);
                        assert(crate::text::digits_value(s@.subrange(0, i + 1)) == value * 10 + d);
                        assert(value * 10 + d > usize::MAX) by (nonlinear_arith)
                            requires value > (usize::MAX - d) / 10, d <= 9;
                        lemma_digits_mono(s@, i as int + 1, n as int);
                        assert(s@.subrange(0, n as int) =~= s@);
                    }
                    return Err(JobsError::InvalidJobs);
                }
                value = value * 10 + d;
                proof {
                    let p = s@.subrange(0, i + 1);
                    assert forall|k: int| 0 <= k < p.len() implies crate::text::is_digit(#[trigger] p[k]) by {
                        if k < i {
                            assert(p[k] == s@.subrange(0, i as int)[k]);
                        }
                    }
                }
                i = i + 1;
            }
            proof {
                assert(s@.subrange(0, n as int) =~= s@);
            }
            if value == 0 {
                return Err(JobsError::InvalidJobs);
            }
            Ok(value)
        },
    }
}

/// A longer prefix has at least the value of a shorter one.
proof fn lemma_digits_mono(s: Seq<char>, i: int, j: int)
    requires
        0 <= i <= j <= s.len(),
    ensures
        crate::text::digits_value(s.subrange(0, j)) >= crate::text::digits_value(s.subrange(0, i)),
    decreases j - i,
{
    if j > i {
        lemma_digits_mono(s, i, j - 1);
        assert(s.subrange(0, j).drop_last() =~= s.subrange(0, j - 1));
    }
}

/// Once the value of a prefix of digits exceeds a bound, so does the value
/// of every longer prefix.
proof fn lemma_digits_grow(s: Seq<char>, i: int)
    requires
        0 < i <= s.len(),
    ensures
        crate::text::digits_value(s.subrange(0, i)) >= crate::text::digits_value(s.subrange(0, i - 1)) * 10,
{
    assert(s.subrange(0, i).drop_last() =~= s.subrange(0, i - 1));
}

/// Whether `env` is the environment handed to the build hook.
pub open spec fn hook_env(
    env: Seq<(Seq<char>, Seq<char>)>,
    desc_path: Seq<char>,
    build: Seq<char>,
    host: Seq<char>,
    target: Seq<char>,
    sysroot: Seq<char>,
    pkg: Package,
    jobs: u32,
) -> bool {
    env == seq![
        ("DESC_PATH"@, desc_path),
        ("BUILD"@, build),
        ("HOST"@, host),
        ("TARGET"@, target),
        ("SYSROOT"@, sysroot),
        ("PKG_NAME"@, pkg.name@),
        ("PKG_VERSION"@, format_version(pkg.version@)),
        ("PKG_DESC"@, pkg.description@),
        ("JOBS"@, decimal(jobs as nat)),
    ]
}

pub open spec fn pairs_view(v: Seq<(String, String)>) -> Seq<(Seq<char>, Seq<char>)> {
    v.map_values(|p: (String, String)| (p.0@, p.1@))
}

/// Returns the environment variables handed to the build hook: the absolute
/// path of the input directory, the three triplets, the staging root, the
/// package's name, version and description, and the number of jobs.
pub fn build_hook_env(
    desc_path: &str,
    build: &str,
    host: &str,
    target: &str,
    sysroot: &str,
    pkg: &Package,
    jobs: u32,
) -> (r: Vec<(String, String)>)
    ensures
        hook_env(pairs_view(r@), desc_path@, build@, host@, target@, sysroot@, *pkg, jobs),
{
    let mut env: Vec<(String, String)> = Vec::new();
    env.push((String::from_str("DESC_PATH"), String::from_str(desc_path)));
    env.push((String::from_str("BUILD"), String::from_str(build)));
    env.push((String::from_str("HOST"), String::from_str(host)));
    env.push((String::from_str("TARGET"), String::from_str(target)));
    env.push((String::from_str("SYSROOT"), String::from_str(sysroot)));
    env.push((String::from_str("PKG_NAME"), pkg.name.clone()));
    env.push((String::from_str("PKG_VERSION"), pkg.version.to_string()));
    env.push((String::from_str("PKG_DESC"), pkg.description.clone()));
    let mut jobs_text = String::new();
    push_decimal(&mut jobs_text, jobs);
    env.push((String::from_str("JOBS"), jobs_text));
    assert(pairs_view(env@) =~= seq![
        ("DESC_PATH"@, desc_path@),
        ("BUILD"@, build@),
        ("HOST"@, host@),
        ("TARGET"@, target@),
        ("SYSROOT"@, sysroot@),
        ("PKG_NAME"@, pkg.name@),
        ("PKG_VERSION"@, format_version(pkg.version@)),
        ("PKG_DESC"@, pkg.description@),
        ("JOBS"@, decimal(jobs as nat)),
    ]);
    env
}

/// A package being built: its input directory, its build descriptor, the
/// build directory and the staging root that the build hook installs into.
#[derive(Debug)]
pub struct BuildProcess {
    /// The directory that holds `package.json` and `build-hook`.
    pub input_path: String,
    /// The build descriptor.
    pub build_desc: BuildDescriptor,
    /// The build directory.
    pub build_dir: String,
    /// The staging root.
    pub sysroot: String,
}

impl BuildProcess {
    /// Creates the build of the package described by `build_desc`, read from
    /// `input_path`, with the build directory `build_dir` and the staging
    /// root `sysroot`.
    pub fn new(input_path: String, build_desc: BuildDescriptor, build_dir: String, sysroot: String) -> (r:
        BuildProcess)
        ensures
            r.input_path == input_path,
            r.build_desc == build_desc,
            r.build_dir == build_dir,
            r.sysroot == sysroot,
    {
        BuildProcess { input_path, build_desc, build_dir, sysroot }
    }

    /// Returns the build descriptor.
    pub fn get_build_desc(&self) -> (r: &BuildDescriptor)
        ensures
            r == &self.build_desc,
    {
        &self.build_desc
    }

    /// Returns the path to the build directory.
    pub fn get_build_dir(&self) -> (r: &str)
        ensures
            r@ == self.build_dir@,
    {
        self.build_dir.as_str()
    }

    /// Returns the path to the staging root.
    pub fn get_sysroot(&self) -> (r: &str)
        ensures
            r@ == self.sysroot@,
    {
        self.sysroot.as_str()
    }

    /// Returns the path to the build descriptor in the input directory.
    pub fn build_desc_path(&self) -> (r: String)
        ensures
            r@ == concat(self.input_path@, "package.json"@),
    {
        concat_paths(self.input_path.as_str(), "package.json")
    }

    /// Returns the path to the build hook in the input directory.
    pub fn build_hook_path(&self) -> (r: String)
        ensures
            r@ == concat(self.input_path@, "build-hook"@),
    {
        concat_paths(self.input_path.as_str(), "build-hook")
    }
}

} // verus!
