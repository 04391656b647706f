//! What the program is asked to do.
use vstd::prelude::*;
use vstd::string::*;

use crate::filter::texts;

verus! {

/// Where the configuration is looked for if nothing else is asked.
pub const DEFAULT_CONFIG: &'static str = "~/.config/bksync/config.toml";

/// The profile that is used if no other is asked for.
pub const DEFAULT_PROFILE: &'static str = "default";

/// The command line.
pub struct Cli {
    pub config: String,
    pub profile: String,
    pub verbose: u8,
    pub dry_run: bool,
    pub summary: bool,
    pub concurrency: Option<usize>,
    pub command: Commands,
}

/// The operations. Each can be limited to the keys that begin with `path` and to those that
/// patterns let through, and can be asked to delete what is missing on the other side.
pub enum Commands {
    /// Download from the bucket to the local directory.
    Pull { path: Option<String>, includes: Vec<String>, excludes: Vec<String>, delete: bool },
    /// Upload from the local directory to the bucket.
    Push { path: Option<String>, includes: Vec<String>, excludes: Vec<String>, delete: bool },
    /// Synchronize in both directions.
    Sync { path: Option<String>, includes: Vec<String>, excludes: Vec<String>, delete: bool },
    /// Synchronize continuously.
    Daemon {
        path: Option<String>,
        includes: Vec<String>,
        excludes: Vec<String>,
        delete: bool,
        refresh_minutes: u64,
        debounce_ms: u64,
    },
}

/// What an operation is limited to, and whether it deletes.
#[verifier::ext_equal]
pub struct Scope {
    pub path: Option<Seq<char>>,
    pub includes: Seq<Seq<char>>,
    pub excludes: Seq<Seq<char>>,
    pub delete: bool,
}

/// A text that may be missing.
pub open spec fn path_view(path: Option<String>) -> Option<Seq<char>> {
    match path {
        Some(p) => Some(p@),
        None => None,
    }
}

impl Commands {
    /// What the operation is limited to, and whether it deletes.
    pub open spec fn scope(&self) -> Scope {
        match self {
            Commands::Pull { path, includes, excludes, delete } => Scope {
                path: path_view(*path),
                includes: texts(includes@),
                excludes: texts(excludes@),
                delete: *delete,
            },
            Commands::Push { path, includes, excludes, delete } => Scope {
                path: path_view(*path),
                includes: texts(includes@),
                excludes: texts(excludes@),
                delete: *delete,
            },
            Commands::Sync { path, includes, excludes, delete } => Scope {
                path: path_view(*path),
                includes: texts(includes@),
                excludes: texts(excludes@),
                delete: *delete,
            },
            Commands::Daemon { path, includes, excludes, delete, .. } => Scope {
                path: path_view(*path),
                includes: texts(includes@),
                excludes: texts(excludes@),
                delete: *delete,
            },
        }
    }

    /// The patterns that take keys in.
    pub fn includes(&self) -> (patterns: &Vec<String>)
        ensures
            texts(patterns@) == self.scope().includes,
    {
        match self {
            Commands::Pull { includes, .. } => includes,
            Commands::Push { includes, .. } => includes,
            Commands::Sync { includes, .. } => includes,
            Commands::Daemon { includes, .. } => includes,
        }
    }

    /// The patterns that leave keys out.
    pub fn excludes(&self) -> (patterns: &Vec<String>)
        ensures
            texts(patterns@) == self.scope().excludes,
    {
        match self {
            Commands::Pull { excludes, .. } => excludes,
            Commands::Push { excludes, .. } => excludes,
            Commands::Sync { excludes, .. } => excludes,
            Commands::Daemon { excludes, .. } => excludes,
        }
    }

    /// Whether the operation deletes.
    pub fn delete(&self) -> (yes: bool)
        ensures
            yes == self.scope().delete,
    {
        match self {
            Commands::Pull { delete, .. } => *delete,
            Commands::Push { delete, .. } => *delete,
            Commands::Sync { delete, .. } => *delete,
            Commands::Daemon { delete, .. } => *delete,
        }
    }

    /// What the keys begin with that the operation is limited to.
    pub fn path(&self) -> (path: Option<String>)
        ensures
            path_view(path) == self.scope().path,
    {
        let path = match self {
            Commands::Pull { path, .. } => path,
            Commands::Push { path, .. } => path,
            Commands::Sync { path, .. } => path,
            Commands::Daemon { path, .. } => path,
        };
        match path {
            Some(p) => Some(p.clone()),
            None => None,
        }
    }
}

/// Every operation goes by the path, the patterns and the wish to delete that it is given.
pub proof fn law_operation_goes_by_what_it_is_given(
    path: Option<String>,
    includes: Vec<String>,
    excludes: Vec<String>,
    delete: bool,
    refresh_minutes: u64,
    debounce_ms: u64,
)
    ensures
        ({
            let scope = Scope {
                path: match path {
                    Some(p) => Some(p@),
                    None => None,
                },
                includes: texts(includes@),
                excludes: texts(excludes@),
                delete,
            };
            &&& (Commands::Pull { path, includes, excludes, delete }).scope() == scope
            &&& (Commands::Push { path, includes, excludes, delete }).scope() == scope
            &&& (Commands::Sync { path, includes, excludes, delete }).scope() == scope
            &&& (Commands::Daemon {
                path,
                includes,
                excludes,
                delete,
                refresh_minutes,
                debounce_ms,
            }).scope() == scope
        }),
{
}

} // verus!
