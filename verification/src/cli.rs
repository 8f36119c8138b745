//! The command line: its actions and options, and the editor command that
//! `edit` runs.
use vstd::prelude::*;
use crate::external::{shell_words, split_words};
use crate::verbosity::CliVerbosity;

verus! {

/// What cade is asked to do.
#[derive(Debug)]
pub enum CliAction {
    Enter { shell: String },
    Exit { shell: String },
    Reload { shell: String },
    Allow,
    Disallow,
    Edit,
    Hook { shell: String },
    Status,
}

/// The command line.
#[derive(Debug)]
pub struct Cli {
    /// Strictly read this TOML config file instead of the XDG default.
    pub config: Option<String>,
    /// Diagnostic verbosity: quiet, normal, vars, or trace.
    pub verbosity: Option<CliVerbosity>,
    pub action: CliAction,
}

/// Why the editor cannot be run.
#[derive(Debug, Clone, Copy, PartialEq, Eq, Structural)]
pub enum EditorError {
    /// Its quoting is unbalanced
    Unparsable,
    /// It names no program
    Empty,
}

impl EditorError {
    /// The message that describes the error.
    pub fn message(&self) -> (r: String)
        ensures
            r@ == match self {
                EditorError::Unparsable => "parse EDITOR variable"@,
                EditorError::Empty => "EDITOR variable is empty"@,
            },
    {
        match self {
            EditorError::Unparsable => "parse EDITOR variable".to_owned(),
            EditorError::Empty => "EDITOR variable is empty".to_owned(),
        }
    }
}

/// The program and arguments that `$EDITOR` names, split as a shell splits
/// words; `.cade` is given to it as its last argument.
pub fn editor_command(editor: &str) -> (r: Result<(String, Vec<String>), EditorError>)
    ensures
        match shell_words(editor@) {
            None => r == Err::<(String, Vec<String>), EditorError>(EditorError::Unparsable),
            Some(w) => if w.len() == 0 {
                r == Err::<(String, Vec<String>), EditorError>(EditorError::Empty)
            } else {
                r matches Ok((p, args)) && p@ == w[0] && args.deep_view() == w.drop_first().push(
                    ".cade"@,
                )
            },
        },
{
    let parts = match split_words(editor) {
        Some(p) => p,
        None => {
            return Err(EditorError::Unparsable);
        },
    };
    if parts.len() == 0 {
        return Err(EditorError::Empty);
    }
    let program = parts[0].clone();
    let mut args: Vec<String> = Vec::new();
    let mut i: usize = 1;
    while i < parts.len()
        invariant
            1 <= i <= parts@.len(),
            args.deep_view() == parts.deep_view().subrange(1, i as int),
        decreases parts@.len() - i,
    {
        let ghost before = args.deep_view();
        args.push(parts[i].clone());
        assert(args.deep_view() =~= before.push(parts@[i as int]@));
        assert(args.deep_view() =~= parts.deep_view().subrange(1, i + 1));
        i += 1;
    }
    let ghost before = args.deep_view();
    args.push(".cade".to_owned());
    assert(before =~= parts.deep_view().drop_first());
    assert(args.deep_view() =~= parts.deep_view().drop_first().push(".cade"@));
    Ok((program, args))
}

} // verus!
