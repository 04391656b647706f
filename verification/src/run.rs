//! From the command line and the configuration to an operation, and what it comes to.
use vstd::prelude::*;
use vstd::string::*;

use crate::cli::{path_view, Cli};
use crate::config::{Config, Profile};
use crate::error::SyncError;
use crate::filter::{
    bad_pattern, effective_include, texts, Filter, FilterError, FilterFault, Patterns,
};
use crate::text::{decimal_nat, join, unsigned_text};

verus! {

/// How much is logged: more with every `-v`.
pub fn log_directive(verbose: u8) -> (directive: &'static str)
    ensures
        directive@ == if verbose == 0 {
            "bksync=info"@
        } else if verbose == 1 {
            "bksync=debug"@
        } else {
            "bksync=trace"@
        },
{
    if verbose == 0 {
        "bksync=info"
    } else if verbose == 1 {
        "bksync=debug"
    } else {
        "bksync=trace"
    }
}

/// The patterns that count: those of the command line, or where it has none those of the
/// profile. They are never mixed.
pub open spec fn merged(
    config_patterns: Seq<Seq<char>>,
    cli_patterns: Seq<Seq<char>>,
) -> Seq<Seq<char>> {
    if cli_patterns.len() == 0 {
        config_patterns
    } else {
        cli_patterns
    }
}

/// Another list of the same texts.
fn copy_texts(list: &[String]) -> (copy: Vec<String>)
    ensures
        texts(copy@) == texts(list@),
{
    let mut copy: Vec<String> = Vec::new();
    let ghost all = texts(list@);
    let mut i: usize = 0;
    assert(texts(copy@) =~= all.take(0));
    while i < list.len()
        invariant
            i <= list@.len(),
            all == texts(list@),
            texts(copy@) == all.take(i as int),
        decreases list@.len() - i,
    {
        let ghost held = copy@;
        copy.push(list[i].clone());
        assert(texts(copy@) =~= texts(held).push(all[i as int]));
        assert(all.take(i + 1) =~= all.take(i as int).push(all[i as int]));
        i = i + 1;
    }
    assert(all.take(i as int) =~= all);
    copy
}

/// The patterns that count: those of the command line, or where it has none those of the
/// profile.
pub fn merge_filters(config_patterns: &[String], cli_patterns: &[String]) -> (patterns: Vec<String>)
    ensures
        texts(patterns@) == merged(texts(config_patterns@), texts(cli_patterns@)),
{
    if cli_patterns.len() == 0 {
        copy_texts(config_patterns)
    } else {
        copy_texts(cli_patterns)
    }
}

/// The seconds between two looks at the bucket.
pub fn refresh_secs(minutes: u64) -> (secs: u64)
    requires
        minutes * 60 <= u64::MAX,
    ensures
        secs == minutes * 60,
{
    minutes * 60
}

/// What an operation goes by.
pub struct Run {
    pub concurrency: usize,
    pub includes: Vec<String>,
    pub excludes: Vec<String>,
    pub filter: Filter,
    pub delete: bool,
    pub prefix: Option<String>,
}

/// Why no operation can be started.
pub enum RunError {
    /// There is no profile with this name.
    NoProfile { name: String },
    /// The patterns make no filter.
    Filter { cause: FilterError },
}

/// The profile with the name `name`.
pub fn find_profile<'a>(config: &'a Config, name: &str) -> (found: Result<&'a Profile, RunError>)
    ensures
        match found {
            Ok(profile) => config.profile@.contains_key(name@) && profile@
                == config.profile@[name@],
            Err(e) => !config.profile@.contains_key(name@) && (e matches RunError::NoProfile {
                name: missing,
            } && missing@ == name@),
        },
{
    match config.profile.get(name) {
        Some(profile) => Ok(profile),
        None => Err(RunError::NoProfile { name: name.to_owned() }),
    }
}

/// What is said about a profile that is missing.
pub fn missing_profile(name: &str) -> (text: String)
    ensures
        text@ == "Profile '"@ + name@ + "' not found in config"@,
{
    let mut text: String = join("Profile '", name);
    text.append("' not found in config");
    text
}

/// What an operation goes by, given what came of making its filter out of the patterns that
/// count. What the command line says counts; where it says nothing, the profile does.
pub fn assemble(
    cli: &Cli,
    profile: &Profile,
    includes: Vec<String>,
    excludes: Vec<String>,
    made: Result<Filter, FilterError>,
) -> (prepared: Result<Run, RunError>)
    ensures
        match made {
            Err(cause) => prepared == Err::<Run, _>(RunError::Filter { cause }),
            Ok(filter) => {
                &&& prepared matches Ok(run)
                &&& run.concurrency == (match cli.concurrency {
                    Some(n) => n,
                    None => profile@.concurrency,
                })
                &&& run.includes == includes
                &&& run.excludes == excludes
                &&& run.filter == filter
                &&& run.delete == cli.command.scope().delete
                &&& path_view(run.prefix) == cli.command.scope().path
            },
        },
{
    match made {
        Err(cause) => Err(RunError::Filter { cause }),
        Ok(filter) => {
            let concurrency: usize = match cli.concurrency {
                Some(n) => n,
                None => profile.concurrency,
            };
            Ok(
                Run {
                    concurrency,
                    includes,
                    excludes,
                    filter,
                    delete: cli.command.delete(),
                    prefix: cli.command.path(),
                },
            )
        },
    }
}

/// What the operation that the command line asks for goes by, with this profile.
pub fn prepare(cli: &Cli, profile: &Profile) -> (prepared: Result<Run, RunError>)
    ensures
        ({
            let scope = cli.command.scope();
            let includes = merged(profile@.includes, scope.includes);
            let excludes = merged(profile@.excludes, scope.excludes);
            match prepared {
                Err(e) => e matches RunError::Filter { cause } && match bad_pattern(
                    includes,
                    excludes,
                ) {
                    Some(pattern) => cause@ == FilterFault::Pattern(pattern),
                    None => cause@ is Include || (cause@ is Exclude && excludes.len() > 0),
                },
                Ok(run) => {
                    &&& bad_pattern(includes, excludes) is None
                    &&& run.concurrency == (match cli.concurrency {
                        Some(n) => n,
                        None => profile@.concurrency,
                    })
                    &&& texts(run.includes@) == includes
                    &&& texts(run.excludes@) == excludes
                    &&& run.filter@ == (Patterns {
                        includes: effective_include(includes),
                        excludes,
                    })
                    &&& run.delete == scope.delete
                    &&& path_view(run.prefix) == scope.path
                },
            }
        }),
{
    let includes: Vec<String> = merge_filters(
        profile.includes.as_slice(),
        cli.command.includes().as_slice(),
    );
    let excludes: Vec<String> = merge_filters(
        profile.excludes.as_slice(),
        cli.command.excludes().as_slice(),
    );
    let made = Filter::new(includes.as_slice(), excludes.as_slice());
    assemble(cli, profile, includes, excludes, made)
}

/// What an operation comes to: it fails if anything in it failed, and says how often.
pub fn outcome(errors: &Vec<SyncError>) -> (result: Result<(), String>)
    ensures
        match result {
            Ok(_) => errors@.len() == 0,
            Err(text) => errors@.len() > 0 && text@ == "Sync completed with "@ + decimal_nat(
                errors@.len(),
            ) + " errors"@,
        },
{
    if errors.len() == 0 {
        return Ok(());
    }
    let mut text: String = join(
        "Sync completed with ",
        unsigned_text(errors.len() as u64).as_str(),
    );
    text.append(" errors");
    Err(text)
}

/// Patterns on the command line override those of the profile entirely: which keys take part
/// does not depend on the profile's then.
pub proof fn law_command_line_overrides(
    profile: Seq<Seq<char>>,
    other: Seq<Seq<char>>,
    command_line: Seq<Seq<char>>,
)
    requires
        command_line.len() > 0,
    ensures
        merged(profile, command_line) == command_line,
        merged(profile, command_line) == merged(other, command_line),
        merged(profile, Seq::empty()) == profile,
{
}

} // verus!
