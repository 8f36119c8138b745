//! How much cade reports on stderr.
use vstd::prelude::*;
use crate::external::{lowercase, to_lowercase};
use crate::text::{chars_of, concat, str_is, string_of_range, trim, trim_range};

verus! {

/// The levels of diagnostic output, from least to most.
#[derive(Clone, Copy, Debug, PartialEq, Eq, PartialOrd, Ord, Structural)]
pub enum Verbosity {
    Quiet,
    Normal,
    Vars,
    Trace,
}

impl Verbosity {
    /// The position of the level, from `Quiet` up.
    pub open spec fn rank(self) -> nat {
        match self {
            Verbosity::Quiet => 0,
            Verbosity::Normal => 1,
            Verbosity::Vars => 2,
            Verbosity::Trace => 3,
        }
    }

    /// The position of the level, from `Quiet` up.
    pub fn level(&self) -> (r: u8)
        ensures
            r == self.rank(),
    {
        match self {
            Verbosity::Quiet => 0,
            Verbosity::Normal => 1,
            Verbosity::Vars => 2,
            Verbosity::Trace => 3,
        }
    }

    /// Parses a level: a number from 0 to 3 or one of its names, trimmed and
    /// compared without case.
    pub fn from_str(raw: &str) -> (r: Result<Verbosity, String>)
        ensures
            match r {
                Ok(v) => verbosity_named(raw@) == Some(v),
                Err(msg) => verbosity_named(raw@) is None && msg@ == "unknown verbosity: "@
                    + raw@,
            },
    {
        let v = chars_of(raw);
        let (a, b) = trim_range(v.as_slice(), 0, v.len());
        assert(v@.subrange(0, v@.len() as int) =~= v@);
        let t = string_of_range(v.as_slice(), a, b);
        let l = to_lowercase(t.as_str());
        let l = l.as_str();
        if str_is(l, "0") || str_is(l, "quiet") || str_is(l, "silent") || str_is(l, "none") {
            Ok(Verbosity::Quiet)
        } else if str_is(l, "1") || str_is(l, "normal") || str_is(l, "lifecycle") || str_is(
            l,
            "default",
        ) {
            Ok(Verbosity::Normal)
        } else if str_is(l, "2") || str_is(l, "vars") || str_is(l, "variables") {
            Ok(Verbosity::Vars)
        } else if str_is(l, "3") || str_is(l, "trace") || str_is(l, "debug") || str_is(l, "all") {
            Ok(Verbosity::Trace)
        } else {
            Err(concat("unknown verbosity: ", raw))
        }
    }
}

/// The level a text names: trimmed and lowercased, a number from 0 to 3 or
/// one of the level's names.
pub open spec fn verbosity_named(raw: Seq<char>) -> Option<Verbosity> {
    let l = lowercase(trim(raw));
    if l == "0"@ || l == "quiet"@ || l == "silent"@ || l == "none"@ {
        Some(Verbosity::Quiet)
    } else if l == "1"@ || l == "normal"@ || l == "lifecycle"@ || l == "default"@ {
        Some(Verbosity::Normal)
    } else if l == "2"@ || l == "vars"@ || l == "variables"@ {
        Some(Verbosity::Vars)
    } else if l == "3"@ || l == "trace"@ || l == "debug"@ || l == "all"@ {
        Some(Verbosity::Trace)
    } else {
        None
    }
}

/// Whether output at `level` shows when the configured level is `current`.
pub fn enabled(current: Verbosity, level: Verbosity) -> (r: bool)
    ensures
        r == (current.rank() >= level.rank()),
{
    current.level() >= level.level()
}

/// The verbosity as the command line names it.
#[derive(Clone, Copy, Debug, PartialEq, Eq, Structural)]
pub enum CliVerbosity {
    Quiet,
    Normal,
    Vars,
    Trace,
}

impl CliVerbosity {
    /// The level of the same name.
    pub open spec fn spec_level(self) -> Verbosity {
        match self {
            CliVerbosity::Quiet => Verbosity::Quiet,
            CliVerbosity::Normal => Verbosity::Normal,
            CliVerbosity::Vars => Verbosity::Vars,
            CliVerbosity::Trace => Verbosity::Trace,
        }
    }

    /// The level of the same name.
    pub fn to_verbosity(self) -> (r: Verbosity)
        ensures
            r == self.spec_level(),
    {
        match self {
            CliVerbosity::Quiet => Verbosity::Quiet,
            CliVerbosity::Normal => Verbosity::Normal,
            CliVerbosity::Vars => Verbosity::Vars,
            CliVerbosity::Trace => Verbosity::Trace,
        }
    }
}

/// The verbosity in effect: the one given on the command line, else the
/// level `CADE_VERBOSITY` names, else the configured one, else `Normal`.
pub fn resolve(given: Option<Verbosity>, env_value: Option<&str>, configured: Option<Verbosity>) -> (r:
    Verbosity)
    ensures
        r == match given {
            Some(v) => v,
            None => match env_value {
                Some(t) if verbosity_named(t@) is Some => verbosity_named(t@)->0,
                _ => match configured {
                    Some(c) => c,
                    None => Verbosity::Normal,
                },
            },
        },
{
    if let Some(v) = given {
        return v;
    }
    if let Some(t) = env_value {
        if let Ok(v) = Verbosity::from_str(t) {
            return v;
        }
    }
    match configured {
        Some(c) => c,
        None => Verbosity::Normal,
    }
}

} // verus!
