//! Resolving raw invocation arguments into a search configuration.

use vstd::prelude::*;

use crate::text::str_eq;

verus! {

/// The ways resolving invocation arguments can fail.
#[derive(Clone, Copy, Debug, PartialEq, Eq, Structural)]
pub enum ConfigError {
    /// Fewer than three tokens were given.
    NotEnoughArguments,
    /// Four tokens whose second is not a recognized flag, or five or more.
    InvalidArguments,
}

impl ConfigError {
    /// The static description of the error, as it is reported to a caller.
    pub fn message(&self) -> (r: &'static str)
        ensures
            *self == ConfigError::NotEnoughArguments ==> r@ == "Not enough arguments"@,
            *self == ConfigError::InvalidArguments ==> r@ == "Invalid arguments"@,
    {
        match self {
            ConfigError::NotEnoughArguments => "Not enough arguments",
            ConfigError::InvalidArguments => "Invalid arguments",
        }
    }
}

/// A resolved invocation: what to search for, in which file, and whether the
/// match is case-insensitive.
#[derive(Debug)]
pub struct Config {
    /// The substring being searched for.
    pub query: String,
    /// Location of the text to search.
    pub file_path: String,
    /// Whether lines are matched ignoring case.
    pub ignore_case: bool,
}

/// Whether a token is one of the two spellings of the case-insensitivity
/// flag.
pub open spec fn is_ignore_case_flag(token: Seq<char>) -> bool {
    token == "-i"@ || token == "--ignore-case"@
}

impl Config {
    /// Resolves raw invocation tokens into a configuration. The first token
    /// is the program's own name and is ignored. With exactly three tokens,
    /// the second is the query and the third the file path, and
    /// case-insensitivity comes from `env_ignore_case`, the caller's ambient
    /// default. With exactly four tokens whose second is the
    /// case-insensitivity flag, the third is the query, the fourth the file
    /// path, and case-insensitivity is forced on. Every other shape is
    /// rejected, and no partial configuration is ever returned.
    pub fn build(args: &[String], env_ignore_case: bool) -> (r: Result<Config, ConfigError>)
        ensures
            args@.len() < 3 ==> r == Err::<Config, ConfigError>(ConfigError::NotEnoughArguments),
            args@.len() == 3 ==> (r matches Ok(c) && c.query@ == args@[1]@ && c.file_path@
                == args@[2]@ && c.ignore_case == env_ignore_case),
            args@.len() == 4 && is_ignore_case_flag(args@[1]@) ==> (r matches Ok(c) && c.query@
                == args@[2]@ && c.file_path@ == args@[3]@ && c.ignore_case),
            args@.len() == 4 && !is_ignore_case_flag(args@[1]@) ==> r == Err::<Config, ConfigError>(
                ConfigError::InvalidArguments,
            ),
            args@.len() > 4 ==> r == Err::<Config, ConfigError>(ConfigError::InvalidArguments),
    {
        if args.len() < 3 {
            Err(ConfigError::NotEnoughArguments)
        } else if args.len() == 3 {
            Ok(
                Config {
                    query: args[1].clone(),
                    file_path: args[2].clone(),
                    ignore_case: env_ignore_case,
                },
            )
        } else if args.len() == 4 && (str_eq(args[1].as_str(), "-i") || str_eq(
            args[1].as_str(),
            "--ignore-case",
        )) {
            Ok(Config { query: args[2].clone(), file_path: args[3].clone(), ignore_case: true })
        } else {
            Err(ConfigError::InvalidArguments)
        }
    }
}

} // verus!
