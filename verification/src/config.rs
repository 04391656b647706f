//! Profiles, and the file that they come from.
use vstd::prelude::*;
use vstd::string::*;

use crate::filter::texts;
use crate::keys::KeyMap;
use crate::text::{join, starts_with};

verus! {

/// What a new configuration file holds.
pub const DEFAULT_CONFIG_TEMPLATE: &'static str = "[profile.default]
endpoint = \"https://rustfs.example.com\"
region = \"us-east-1\"
bucket = \"my-bucket\"
access_key = \"YOUR_ACCESS_KEY\"
secret_key = \"YOUR_SECRET_KEY\"
local_dir = \"/home/user/s3sync\"
concurrency = 10
include = [\"**/*\"]
exclude = [\".DS_Store\", \"*.tmp\", \"*.log\", \".git/\"]
# disable_path_normalization = true  # for S3-compatible stores that don't handle double encoding
";

/// Where a bucket is and how to reach it, the local directory that goes with it, and how they
/// are synchronized.
pub struct Profile {
    pub endpoint: String,
    pub region: String,
    pub bucket: String,
    pub access_key: String,
    pub secret_key: String,
    pub local_dir: String,
    pub concurrency: usize,
    pub includes: Vec<String>,
    pub excludes: Vec<String>,
    pub disable_path_normalization: bool,
}

/// What a [`Profile`] says.
#[verifier::ext_equal]
pub struct ProfileView {
    pub endpoint: Seq<char>,
    pub region: Seq<char>,
    pub bucket: Seq<char>,
    pub access_key: Seq<char>,
    pub secret_key: Seq<char>,
    pub local_dir: Seq<char>,
    pub concurrency: usize,
    pub includes: Seq<Seq<char>>,
    pub excludes: Seq<Seq<char>>,
    pub disable_path_normalization: bool,
}

impl View for Profile {
    type V = ProfileView;

    open spec fn view(&self) -> ProfileView {
        ProfileView {
            endpoint: self.endpoint@,
            region: self.region@,
            bucket: self.bucket@,
            access_key: self.access_key@,
            secret_key: self.secret_key@,
            local_dir: self.local_dir@,
            concurrency: self.concurrency,
            includes: texts(self.includes@),
            excludes: texts(self.excludes@),
            disable_path_normalization: self.disable_path_normalization,
        }
    }
}

/// The profiles by name.
pub struct Config {
    pub profile: KeyMap<Profile>,
}

/// How many transfers go on at a time where the profile does not say.
pub fn default_concurrency() -> (n: usize)
    ensures
        n == 10,
{
    10
}

/// The patterns that take keys in where the profile has none: all keys.
pub fn default_include() -> (patterns: Vec<String>)
    ensures
        texts(patterns@) == seq!["**/*"@],
{
    let mut patterns: Vec<String> = Vec::new();
    patterns.push("**/*".to_owned());
    assert(texts(patterns@) =~= seq!["**/*"@]);
    patterns
}

/// Why there is no configuration.
pub enum ConfigError {
    /// The path is below the home directory, which is not known.
    NoHome,
    /// The directory for a new file could not be made.
    NoDirectory { directory: String, cause: String },
    /// A new file could not be written.
    NotWritten { path: String, cause: String },
    /// There was no file; a new one was written, and is to be filled in.
    Created { path: String },
    /// The file could not be read.
    NotRead { path: String, cause: String },
    /// The file is not in order.
    NotParsed { path: String, cause: String },
}

/// What a [`ConfigError`] says.
pub enum ConfigFault {
    NoHome,
    NoDirectory { directory: Seq<char>, cause: Seq<char> },
    NotWritten { path: Seq<char>, cause: Seq<char> },
    Created { path: Seq<char> },
    NotRead { path: Seq<char>, cause: Seq<char> },
    NotParsed { path: Seq<char>, cause: Seq<char> },
}

impl View for ConfigError {
    type V = ConfigFault;

    open spec fn view(&self) -> ConfigFault {
        match self {
            ConfigError::NoHome => ConfigFault::NoHome,
            ConfigError::NoDirectory { directory, cause } => ConfigFault::NoDirectory {
                directory: directory@,
                cause: cause@,
            },
            ConfigError::NotWritten { path, cause } => ConfigFault::NotWritten {
                path: path@,
                cause: cause@,
            },
            ConfigError::Created { path } => ConfigFault::Created { path: path@ },
            ConfigError::NotRead { path, cause } => ConfigFault::NotRead {
                path: path@,
                cause: cause@,
            },
            ConfigError::NotParsed { path, cause } => ConfigFault::NotParsed {
                path: path@,
                cause: cause@,
            },
        }
    }
}

/// A sentence about a path, with the cause of what it says.
pub open spec fn sentence(
    lead: Seq<char>,
    path: Seq<char>,
    cause: Seq<char>,
) -> Seq<char> {
    lead + " '"@ + path + "': "@ + cause
}

/// A sentence about a path, with the cause of what it says.
fn write_sentence(lead: &str, path: &str, cause: &str) -> (text: String)
    ensures
        text@ == sentence(lead@, path@, cause@),
{
    let mut text: String = join(lead, " '");
    text.append(path);
    text.append("': ");
    text.append(cause);
    text
}

impl ConfigFault {
    /// The reason in words.
    pub open spec fn message(self) -> Seq<char> {
        match self {
            ConfigFault::NoHome => "HOME environment variable not set"@,
            ConfigFault::NoDirectory { directory, cause } => sentence(
                "Failed to create config directory"@,
                directory,
                cause,
            ),
            ConfigFault::NotWritten { path, cause } => sentence(
                "Failed to write default config to"@,
                path,
                cause,
            ),
            ConfigFault::Created { path } => "Default config created at '"@ + path
                + "'. Edit it with your credentials and run again."@,
            ConfigFault::NotRead { path, cause } => sentence(
                "Failed to read config file"@,
                path,
                cause,
            ),
            ConfigFault::NotParsed { path, cause } => sentence(
                "Failed to parse config file"@,
                path,
                cause,
            ),
        }
    }
}

impl ConfigError {
    /// The reason in words.
    pub fn message(&self) -> (text: String)
        ensures
            text@ == self@.message(),
    {
        match self {
            ConfigError::NoHome => "HOME environment variable not set".to_owned(),
            ConfigError::NoDirectory { directory, cause } => write_sentence(
                "Failed to create config directory",
                directory.as_str(),
                cause.as_str(),
            ),
            ConfigError::NotWritten { path, cause } => write_sentence(
                "Failed to write default config to",
                path.as_str(),
                cause.as_str(),
            ),
            ConfigError::Created { path } => {
                let mut text: String = join("Default config created at '", path.as_str());
                text.append("'. Edit it with your credentials and run again.");
                text
            },
            ConfigError::NotRead { path, cause } => write_sentence(
                "Failed to read config file",
                path.as_str(),
                cause.as_str(),
            ),
            ConfigError::NotParsed { path, cause } => write_sentence(
                "Failed to parse config file",
                path.as_str(),
                cause.as_str(),
            ),
        }
    }
}

/// Whether a path is below the home directory.
pub open spec fn below_home(path: Seq<char>) -> bool {
    path.len() > 0 && path.first() == '~'
}

/// A path with the home directory in place of a leading tilde.
pub open spec fn expanded(path: Seq<char>, home: Seq<char>) -> Seq<char> {
    if below_home(path) {
        home + path.drop_first()
    } else {
        path
    }
}

/// A path with the home directory in place of a leading tilde, if that is known.
pub fn expand_path(path: &str, home: Option<&str>) -> (result: Result<String, ConfigError>)
    ensures
        match result {
            Ok(text) => (below_home(path@) ==> home is Some) && text@ == expanded(
                path@,
                match home {
                    Some(h) => h@,
                    None => Seq::empty(),
                },
            ),
            Err(e) => below_home(path@) && home is None && e@ == ConfigFault::NoHome,
        },
{
    proof {
        reveal_strlit("~");
    }
    if starts_with(path, "~") {
        assert(path@.take(1)[0] == '~');
        match home {
            Some(h) => {
                let rest = path.substring_char(1, path.unicode_len());
                assert(rest@ =~= path@.drop_first());
                Ok(join(h, rest))
            },
            None => Err(ConfigError::NoHome),
        }
    } else {
        proof {
            if below_home(path@) {
                assert(path@.take(1) =~= "~"@);
            }
        }
        Ok(path.to_owned())
    }
}

/// What came of looking for the configuration file.
pub enum Found {
    /// There is none, and the directory for a new one could not be made.
    NoDirectory { directory: String, cause: String },
    /// There is none, and a new one could not be written.
    NotWritten { cause: String },
    /// There was none, and a new one was written.
    Created,
    /// It could not be read.
    NotRead { cause: String },
    /// It could be read, but is not in order.
    NotParsed { cause: String },
    /// It holds these profiles.
    Parsed(Config),
}

impl Config {
    /// The configuration, given what came of looking for its file at `path`.
    pub fn load(path: &str, found: Found) -> (result: Result<Config, ConfigError>)
        ensures
            match found {
                Found::NoDirectory { directory, cause } => result matches Err(e) && e@
                    == (ConfigFault::NoDirectory { directory: directory@, cause: cause@ }),
                Found::NotWritten { cause } => result matches Err(e) && e@
                    == (ConfigFault::NotWritten { path: path@, cause: cause@ }),
                Found::Created => result matches Err(e) && e@ == (ConfigFault::Created {
                    path: path@,
                }),
                Found::NotRead { cause } => result matches Err(e) && e@ == (ConfigFault::NotRead {
                    path: path@,
                    cause: cause@,
                }),
                Found::NotParsed { cause } => result matches Err(e) && e@
                    == (ConfigFault::NotParsed { path: path@, cause: cause@ }),
                Found::Parsed(config) => result == Ok::<Config, ConfigError>(config),
            },
    {
        match found {
            Found::NoDirectory { directory, cause } => Err(
                ConfigError::NoDirectory { directory, cause },
            ),
            Found::NotWritten { cause } => Err(
                ConfigError::NotWritten { path: path.to_owned(), cause },
            ),
            Found::Created => Err(ConfigError::Created { path: path.to_owned() }),
            Found::NotRead { cause } => Err(ConfigError::NotRead { path: path.to_owned(), cause }),
            Found::NotParsed { cause } => Err(
                ConfigError::NotParsed { path: path.to_owned(), cause },
            ),
            Found::Parsed(config) => Ok(config),
        }
    }
}

/// A leading tilde stands for the home directory, and any other path for itself.
pub proof fn law_tilde_stands_for_home(rest: Seq<char>, path: Seq<char>, home: Seq<char>)
    ensures
        expanded(seq!['~'] + rest, home) == home + rest,
        (path.len() > 0 ==> path[0] != '~') ==> expanded(path, home) == path && !below_home(path),
        below_home(seq!['~'] + rest),
{
    assert((seq!['~'] + rest).drop_first() =~= rest);
}

/// The reason in words ends with the cause where there is one, and names the path before it.
pub proof fn law_message_tells_path_and_cause(lead: Seq<char>, path: Seq<char>, cause: Seq<char>)
    ensures
        ({
            let said = sentence(lead, path, cause);
            let before = lead.len() + 2;
            &&& said.len() == before + path.len() + 3 + cause.len()
            &&& said.take(lead.len() as int) == lead
            &&& said.subrange(before as int, (before + path.len()) as int) == path
            &&& said.skip((before + path.len() + 3) as int) == cause
        }),
{
    reveal_strlit(" '");
    reveal_strlit("': ");
    let said = sentence(lead, path, cause);
    let before = lead.len() + 2;
    assert(said.take(lead.len() as int) =~= lead);
    assert(said.subrange(before as int, (before + path.len()) as int) =~= path);
    assert(said.skip((before + path.len() + 3) as int) =~= cause);
}

} // verus!
