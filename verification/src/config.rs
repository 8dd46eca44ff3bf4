//! Configuration the tool runs with, as plain values; loading it from
//! a file or the environment happens outside the library.

use vstd::prelude::*;
use vstd::string::StringExecFns;

verus! {

/// The settings the tool consumes.
pub struct Config {
    /// Directory all working copies live under.
    pub projects_path: String,
    /// File the index is stored in.
    pub db_path: String,
    /// Most ranked results to compute and render per query.
    pub max_find_items: usize,
    /// Program invoked for version-control work.
    pub git_command: String,
    /// Remote name registered for each repository.
    pub git_remote_name: String,
}

/// Where working copies live by default: `projects` under the home
/// directory.
pub fn default_projects_path(home: &str) -> (r: String)
    ensures
        r@ == home@ + "/projects"@,
{
    let mut p = String::new();
    p.append(home);
    p.append("/projects");
    proof {
        assert(p@ =~= home@ + "/projects"@);
    }
    p
}

/// Where the index is stored by default: `.gorg-db` under the default
/// projects directory.
pub fn default_db_path(home: &str) -> (r: String)
    ensures
        r@ == home@ + "/projects/.gorg-db"@,
{
    let mut p = String::new();
    p.append(home);
    p.append("/projects/.gorg-db");
    proof {
        assert(p@ =~= home@ + "/projects/.gorg-db"@);
    }
    p
}

/// How many ranked results are shown unless configured otherwise.
pub fn default_max_find_items() -> (r: usize)
    ensures
        r == 10,
{
    10
}

/// The version-control program used unless configured otherwise.
pub fn default_git_command() -> (r: String)
    ensures
        r@ == "git"@,
{
    let mut p = String::new();
    p.append("git");
    proof {
        assert(p@ =~= "git"@);
    }
    p
}

/// The remote name registered unless configured otherwise.
pub fn default_git_remote_name() -> (r: String)
    ensures
        r@ == "origin"@,
{
    let mut p = String::new();
    p.append("origin");
    proof {
        assert(p@ =~= "origin"@);
    }
    p
}

impl Config {
    /// The default configuration for the given home directory.
    pub fn with_home(home: &str) -> (r: Config)
        ensures
            r.projects_path@ == home@ + "/projects"@,
            r.db_path@ == home@ + "/projects/.gorg-db"@,
            r.max_find_items == 10,
            r.git_command@ == "git"@,
            r.git_remote_name@ == "origin"@,
    {
        Config {
            projects_path: default_projects_path(home),
            db_path: default_db_path(home),
            max_find_items: default_max_find_items(),
            git_command: default_git_command(),
            git_remote_name: default_git_remote_name(),
        }
    }
}

} // verus!
