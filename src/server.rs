//! The decisions of the package server: which request is served with what.
use crate::package::{is_valid_name, valid_name, Package};
use crate::repository::{join_path, package_dir, Repository};
use crate::version::{parse_version, Version};
use vstd::prelude::*;
use vstd::string::*;

verus! {

/// Tells whether `name` is a correct package name for the server: every
/// character is an ASCII letter, an ASCII digit or `-`.
pub fn is_correct_name(name: &str) -> (r: bool)
    ensures
        r == valid_name(name@),
{
    is_valid_name(name)
}

/// The status of a request whose package name is not valid or whose
/// version does not parse.
pub const BAD_REQUEST: u16 = 400;

/// The status of a request for a package or version that is absent.
pub const NOT_FOUND: u16 = 404;

/// Answers a request for version `version` of package `name`: the package,
/// or the status of the failure (400 when the name is not valid or the
/// version does not parse, 404 when the repository does not hold it).
pub fn package_info(repo: &Repository, name: &str, version: &str) -> (r: Result<Package, u16>)
    ensures
        !valid_name(name@) ==> r == Err::<Package, u16>(400),
        valid_name(name@) && parse_version(version@) is None ==> r == Err::<Package, u16>(400),
        valid_name(name@) && parse_version(version@) is Some ==> match r {
            Ok(p) => p.name@ == name@ && p.version@ == parse_version(version@)->Some_0
                && exists|k: int|
                0 <= k < repo.packages@.len() && (#[trigger] repo.packages@[k])@ == p@,
            Err(s) => s == 404 && forall|k: int|
                0 <= k < repo.packages@.len() ==> !((#[trigger] repo.packages@[k]).name@ == name@
                    && repo.packages@[k].version@ == parse_version(version@)->Some_0),
        },
{
    if !is_valid_name(name) {
        return Err(BAD_REQUEST);
    }
    let v = match Version::parse(version) {
        Ok(v) => v,
        Err(_) => {
            return Err(BAD_REQUEST);
        },
    };
    match repo.get_package(name, &v) {
        Some(p) => Ok(p),
        None => Err(NOT_FOUND),
    }
}

/// Answers a request for the archive of version `version` of package
/// `name`: the path of the archive, or the status of the failure, as for
/// [`package_info`].
pub fn package_archive(repo: &Repository, name: &str, version: &str) -> (r: Result<String, u16>)
    ensures
        !valid_name(name@) ==> r == Err::<String, u16>(400),
        valid_name(name@) && parse_version(version@) is None ==> r == Err::<String, u16>(400),
        valid_name(name@) && parse_version(version@) is Some ==> match r {
            Ok(path) => path@ == join_path(
                package_dir(repo.path@, name@, parse_version(version@)->Some_0),
                "archive"@,
            ) && exists|k: int|
                0 <= k < repo.packages@.len() && (#[trigger] repo.packages@[k]).name@ == name@
                    && repo.packages@[k].version@ == parse_version(version@)->Some_0,
            Err(s) => s == 404 && forall|k: int|
                0 <= k < repo.packages@.len() ==> !((#[trigger] repo.packages@[k]).name@ == name@
                    && repo.packages@[k].version@ == parse_version(version@)->Some_0),
        },
{
    if !is_valid_name(name) {
        return Err(BAD_REQUEST);
    }
    let v = match Version::parse(version) {
        Ok(v) => v,
        Err(_) => {
            return Err(BAD_REQUEST);
        },
    };
    match repo.get_package(name, &v) {
        Some(_) => Ok(repo.get_archive_path(name, &v)),
        None => Err(NOT_FOUND),
    }
}

/// Returns the text served at the root of the server.
pub fn root_text(version: &str) -> (r: String)
    ensures
        r@ == "Blimp server version "@ + version@,
{
    let mut out = String::from_str("Blimp server version ");
    out.append(version);
    out
}

/// The server's configuration.
#[derive(Clone, Debug, PartialEq, Eq)]
pub struct Config {
    /// The server's port.
    pub port: u16,
    /// The server's message of the day.
    pub motd: String,
    /// The path to the repository that the server serves.
    pub repo_path: String,
}

impl Default for Config {
    fn default() -> (r: Config)
        ensures
            r.port == 80,
            r.motd@ == "This is a dummy blimp server"@,
            r.repo_path@ == "."@,
    {
        Config {
            port: 80,
            motd: String::from_str("This is a dummy blimp server"),
            repo_path: String::from_str("."),
        }
    }
}

/// What every request handler of the server shares.
#[derive(Debug)]
pub struct Context {
    /// The repository that the server serves.
    pub repo: Repository,
    /// The server's message of the day.
    pub motd: String,
}

/// The answer to a request for the size of a package.
#[derive(Clone, Copy, Debug, PartialEq, Eq)]
pub struct PackageSizeResponse {
    /// The size of the package's archive, in bytes.
    pub size: u64,
}

/// The answer to a request for the list of packages.
#[derive(Clone, Debug, PartialEq, Eq)]
pub struct PackageListResponse {
    /// The packages of the server.
    pub packages: Vec<Package>,
}

/// The state of a build job.
#[derive(Clone, Copy, Debug, PartialEq, Eq)]
pub enum JobStatus {
    /// The job waits for others to finish.
    Pending,
    /// The job is running.
    InProgress,
    /// The job ended successfully.
    Success,
    /// The job failed.
    Failed,
    /// The job was aborted.
    Aborted,
}

/// The description of a build job.
#[derive(Clone, Debug, PartialEq, Eq)]
pub struct JobDesc {
    /// The job's identifier.
    pub id: String,
    /// The name of the package built.
    pub package: String,
    /// The version of the package built.
    pub version: Version,
    /// The job's state.
    pub status: JobStatus,
}

impl JobStatus {
    /// Whether a job in this state may be started.
    pub fn can_run(&self) -> (r: bool)
        ensures
            r == (*self == JobStatus::Pending),
    {
        match self {
            JobStatus::Pending => true,
            _ => false,
        }
    }
}

} // verus!
