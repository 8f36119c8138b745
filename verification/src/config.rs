//! The user's configuration, checked.
use vstd::prelude::*;
use crate::verbosity::{Verbosity, verbosity_named};

verus! {

/// The checked configuration.
#[derive(Debug, Clone)]
pub struct Config {
    /// Where the configuration was read from
    pub path: Option<String>,
    pub verbosity: Option<Verbosity>,
    pub long_running_warning_ms: Option<u64>,
}

/// The configuration as written in the file.
#[derive(Debug, Clone)]
pub struct RawConfig {
    pub verbosity: Option<String>,
    pub long_running_warning_ms: Option<u64>,
}

/// Why a configuration is refused.
#[derive(Debug)]
pub enum ConfigError {
    /// The verbosity names no level; the message says which text
    Verbosity(String),
    /// The warning threshold is 0
    ZeroWarningThreshold,
}

impl ConfigError {
    /// The message that describes the error.
    pub fn message(&self) -> (r: String)
        ensures
            r@ == match self {
                ConfigError::Verbosity(m) => m@,
                ConfigError::ZeroWarningThreshold => "long_running_warning_ms must be greater than 0"@,
            },
    {
        match self {
            ConfigError::Verbosity(m) => m.clone(),
            ConfigError::ZeroWarningThreshold => "long_running_warning_ms must be greater than 0".to_owned(),
        }
    }
}

impl Default for Config {
    fn default() -> (r: Config)
        ensures
            r.path is None,
            r.verbosity is None,
            r.long_running_warning_ms is None,
    {
        Config { path: None, verbosity: None, long_running_warning_ms: None }
    }
}

impl Config {
    /// Checks a raw configuration: the verbosity must name a level, and the
    /// warning threshold must not be 0. The path is left unset.
    pub fn try_from(raw: RawConfig) -> (r: Result<Config, ConfigError>)
        ensures
            match raw.verbosity {
                Some(v) if verbosity_named(v@) is None => r matches Err(ConfigError::Verbosity(m))
                    && m@ == "unknown verbosity: "@ + v@,
                _ => if raw.long_running_warning_ms == Some(0u64) {
                    r matches Err(ConfigError::ZeroWarningThreshold)
                } else {
                    r matches Ok(c) && c.path is None && c.long_running_warning_ms
                        == raw.long_running_warning_ms && c.verbosity == match raw.verbosity {
                        Some(v) => verbosity_named(v@),
                        None => None,
                    }
                },
            },
    {
        let verbosity = match &raw.verbosity {
            Some(v) => match Verbosity::from_str(v.as_str()) {
                Ok(level) => Some(level),
                Err(e) => {
                    return Err(ConfigError::Verbosity(e));
                },
            },
            None => None,
        };
        if raw.long_running_warning_ms == Some(0u64) {
            return Err(ConfigError::ZeroWarningThreshold);
        }
        Ok(Config { path: None, verbosity, long_running_warning_ms: raw.long_running_warning_ms })
    }
}

/// Where the configuration is read from, and whether it must exist: the
/// path given on the command line (which must); else, in a shell that cade
/// activated, the path it recorded, when not empty; else the default path.
pub fn config_source(
    given: Option<String>,
    active: bool,
    recorded: Option<String>,
    default_path: Option<String>,
) -> (r: Option<(String, bool)>)
    ensures
        match given {
            Some(p) => r matches Some((q, strict)) && q@ == p@ && strict,
            None => match recorded {
                Some(p) if active && p@.len() > 0 => r matches Some((q, strict)) && q@ == p@ && !strict,
                _ => match default_path {
                    Some(p) => r matches Some((q, strict)) && q@ == p@ && !strict,
                    None => r is None,
                },
            },
        },
{
    if let Some(p) = given {
        return Some((p, true));
    }
    if active {
        if let Some(p) = recorded {
            if crate::text::chars_of(p.as_str()).len() > 0 {
                return Some((p, false));
            }
        }
    }
    match default_path {
        Some(p) => Some((p, false)),
        None => None,
    }
}

/// The long-running warning threshold: a positive number in
/// `CADE_LONG_RUNNING_WARNING_MS`, else the configured one.
pub fn long_running_warning_ms(env_value: Option<&str>, configured: Option<u64>) -> (r: Option<u64>)
    ensures
        r == match env_value {
            Some(t) => match crate::text::u64_text_value(t@) {
                Some(n) if n > 0 => Some(n),
                _ => configured,
            },
            None => configured,
        },
{
    if let Some(t) = env_value {
        if let Some(n) = crate::text::parse_u64(t) {
            if n > 0 {
                return Some(n);
            }
        }
    }
    configured
}

} // verus!
