//! Compatibility with direnv `.envrc` files.
//!
//! cade does not execute `.envrc` as a shell script. Instead it recognizes the
//! declarative subset of the direnv stdlib that maps cleanly onto cade's own
//! loaders (`use flake`, `use nix`, `dotenv`, `watch_file`, plus literal
//! `export`/`PATH_add`) and warns about any line it can't faithfully
//! reproduce.
use vstd::prelude::*;
use crate::assoc::entry_prepend;
use crate::external::{shell_words, split_words};
use crate::shells::{is_valid_key, valid_key};
use crate::text::{
    append, append_char, chars_of, find_char, lemma_split_once_range, line_ranges, lines,
    ranges_are, split, split_once, split_range, starts_with, str_is, str_starts_with,
    string_of_range, trim, trim_range,
};
use crate::types::EnvSet;

verus! {

/// A recognized `.envrc` line.
#[derive(Debug, PartialEq, Eq)]
pub enum Directive {
    /// `use flake` / `use flake .` / `use flake .#output`
    UseFlake(Option<String>),
    /// `use nix [file]`
    UseNix(String),
    /// `dotenv [file]` / `dotenv_if_exists [file]`
    Dotenv { file: String, if_exists: bool },
    /// `export KEY=VALUE` with a literal (unexpanded) value
    Export(String, String),
    /// `PATH_add DIR...`: directories to prepend to PATH
    PathAdd(Vec<String>),
    /// `watch_file FILE...`
    WatchFile(Vec<String>),
    /// A line cade can't faithfully map; carried so we can warn about it.
    Unhandled(String),
}

/// What a recognized `.envrc` line says.
pub ghost enum DirectiveModel {
    UseFlake(Option<Seq<char>>),
    UseNix(Seq<char>),
    Dotenv(Seq<char>, bool),
    Export(Seq<char>, Seq<char>),
    PathAdd(Seq<Seq<char>>),
    WatchFile(Seq<Seq<char>>),
    Unhandled(Seq<char>),
}

impl Directive {
    /// What this directive says.
    pub open spec fn model(&self) -> DirectiveModel {
        match self {
            Directive::UseFlake(o) => DirectiveModel::UseFlake(
                match o {
                    Some(s) => Some(s@),
                    None => None,
                },
            ),
            Directive::UseNix(f) => DirectiveModel::UseNix(f@),
            Directive::Dotenv { file, if_exists } => DirectiveModel::Dotenv(file@, *if_exists),
            Directive::Export(k, v) => DirectiveModel::Export(k@, v@),
            Directive::PathAdd(d) => DirectiveModel::PathAdd(d.deep_view()),
            Directive::WatchFile(w) => DirectiveModel::WatchFile(w.deep_view()),
            Directive::Unhandled(l) => DirectiveModel::Unhandled(l@),
        }
    }
}

/// No shell expansion can take place in the value.
pub open spec fn literal_value(v: Seq<char>) -> bool {
    !v.contains('$') && !v.contains('`')
}

/// Ensure no shell expansion is taking place
pub fn is_literal_value(v: &str) -> (r: bool)
    ensures
        r == literal_value(v@),
{
    let c = chars_of(v);
    let r = find_char(c.as_slice(), 0, c.len(), '$').is_none() && find_char(
        c.as_slice(),
        0,
        c.len(),
        '`',
    ).is_none();
    proof {
        if c@.contains('$') {
            let j = choose|j: int| 0 <= j < c@.len() && c@[j] == '$';
            assert(c@[j] == '$');
        }
        if c@.contains('`') {
            let j = choose|j: int| 0 <= j < c@.len() && c@[j] == '`';
            assert(c@[j] == '`');
        }
    }
    r
}

/// An argument that looks like a flag.
pub open spec fn is_flag(s: Seq<char>) -> bool {
    s.len() > 0 && s[0] == '-'
}

/// Some argument looks like a flag.
pub open spec fn has_flag(args: Seq<Seq<char>>) -> bool {
    exists|i: int| 0 <= i < args.len() && is_flag(#[trigger] args[i])
}

/// The first argument, or the empty text.
pub open spec fn first_or_empty(args: Seq<Seq<char>>) -> Seq<char> {
    if args.len() > 0 {
        args[0]
    } else {
        Seq::empty()
    }
}

/// What a line of an `.envrc` says: nothing for a blank or comment line,
/// a recognized directive, or a line flagged as unhandled.
pub open spec fn envrc_line(raw: Seq<char>) -> Option<DirectiveModel> {
    let line = trim(raw);
    let unhandled = Some(DirectiveModel::Unhandled(line));
    if line.len() == 0 || line[0] == '#' {
        None
    } else {
        match shell_words(line) {
            None => unhandled,
            Some(tokens) => if tokens.len() == 0 {
                None
            } else {
                let cmd = tokens[0];
                let rest = tokens.skip(1);
                if cmd == "use"@ {
                    if rest.len() > 0 && rest[0] == "flake"@ {
                        let args = rest.skip(1);
                        // don't honor flags or multiple installables
                        if has_flag(args) || args.len() > 1 {
                            unhandled
                        } else if args.len() == 0 || args[0] == "."@ {
                            Some(DirectiveModel::UseFlake(None))
                        } else if starts_with(args[0], ".#"@) {
                            Some(DirectiveModel::UseFlake(Some(args[0].skip(2))))
                        } else {
                            // remote refs / absolute paths aren't supported
                            unhandled
                        }
                    } else if rest.len() > 0 && rest[0] == "nix"@ {
                        let args = rest.skip(1);
                        if has_flag(args) {
                            unhandled
                        } else {
                            Some(DirectiveModel::UseNix(first_or_empty(args)))
                        }
                    } else {
                        unhandled
                    }
                } else if cmd == "dotenv"@ {
                    Some(DirectiveModel::Dotenv(first_or_empty(rest), false))
                } else if cmd == "dotenv_if_exists"@ {
                    Some(DirectiveModel::Dotenv(first_or_empty(rest), true))
                } else if cmd == "PATH_add"@ && rest.len() > 0 {
                    Some(DirectiveModel::PathAdd(rest))
                } else if cmd == "watch_file"@ && rest.len() > 0 {
                    Some(DirectiveModel::WatchFile(rest))
                } else if cmd == "export"@ {
                    match if rest.len() > 0 {
                        split_once(rest[0], '=')
                    } else {
                        None
                    } {
                        Some((k, v)) => if literal_value(v) && valid_key(k) {
                            Some(DirectiveModel::Export(k, v))
                        } else {
                            unhandled
                        },
                        None => unhandled,
                    }
                } else {
                    unhandled
                }
            },
        }
    }
}

/// Whether some of `tokens[from..]` looks like a flag.
fn any_flag(tokens: &Vec<String>, from: usize) -> (r: bool)
    requires
        from <= tokens@.len(),
    ensures
        r == has_flag(tokens.deep_view().skip(from as int)),
{
    let ghost args = tokens.deep_view().skip(from as int);
    let mut i = from;
    while i < tokens.len()
        invariant
            from <= i <= tokens@.len(),
            args == tokens.deep_view().skip(from as int),
            forall|j: int| 0 <= j < i - from ==> !is_flag(#[trigger] args[j]),
        decreases tokens@.len() - i,
    {
        assert(args[i - from] == tokens@[i as int]@);
        let c = chars_of(tokens[i].as_str());
        if c.len() > 0 && c[0] == '-' {
            assert(is_flag(args[i - from]));
            return true;
        }
        i += 1;
    }
    false
}

/// The first of `tokens[from..]`, or the empty text.
fn first_or_new(tokens: &Vec<String>, from: usize) -> (r: String)
    requires
        from <= tokens@.len(),
    ensures
        r@ == first_or_empty(tokens.deep_view().skip(from as int)),
{
    if from < tokens.len() {
        tokens[from].clone()
    } else {
        String::new()
    }
}

/// The strings `tokens[from..]`.
fn tail_strings(tokens: &Vec<String>, from: usize) -> (r: Vec<String>)
    requires
        from <= tokens@.len(),
    ensures
        r.deep_view() == tokens.deep_view().skip(from as int),
{
    let mut r: Vec<String> = Vec::new();
    let mut i = from;
    while i < tokens.len()
        invariant
            from <= i <= tokens@.len(),
            r.deep_view() == tokens.deep_view().subrange(from as int, i as int),
        decreases tokens@.len() - i,
    {
        let ghost before = r.deep_view();
        let t = tokens[i].clone();
        assert(t@ == tokens.deep_view()[i as int]);
        r.push(t);
        assert(r.deep_view() =~= before.push(t@));
        assert(tokens.deep_view().subrange(from as int, i + 1) =~= tokens.deep_view().subrange(
            from as int,
            i as int,
        ).push(tokens.deep_view()[i as int]));
        i += 1;
    }
    assert(tokens.deep_view().subrange(from as int, tokens@.len() as int) =~= tokens.deep_view().skip(
        from as int,
    ));
    r
}

/// Recognizes one line of an `.envrc`.
pub fn parse_line(raw: &str) -> (r: Option<Directive>)
    ensures
        match r {
            Some(d) => envrc_line(raw@) == Some(d.model()),
            None => envrc_line(raw@) is None,
        },
{
    let v = chars_of(raw);
    let (a, b) = trim_range(v.as_slice(), 0, v.len());
    assert(v@.subrange(0, v@.len() as int) =~= v@);
    if a == b || v[a] == '#' {
        return None;
    }
    let line = string_of_range(v.as_slice(), a, b);
    let tokens = match split_words(line.as_str()) {
        None => {
            return Some(Directive::Unhandled(line));
        },
        Some(t) => t,
    };
    if tokens.len() == 0 {
        return None;
    }
    let ghost rest = tokens.deep_view().skip(1);
    let cmd = tokens[0].as_str();
    if str_is(cmd, "use") {
        if tokens.len() > 1 && str_is(tokens[1].as_str(), "flake") {
            assert(rest[0] == tokens@[1]@);
            assert(rest.skip(1) =~= tokens.deep_view().skip(2));
            if any_flag(&tokens, 2) || tokens.len() > 3 {
                Some(Directive::Unhandled(line))
            } else if tokens.len() == 2 || str_is(tokens[2].as_str(), ".") {
                Some(Directive::UseFlake(None))
            } else if str_starts_with(tokens[2].as_str(), ".#") {
                let s = chars_of(tokens[2].as_str());
                proof {
                    reveal_strlit(".#");
                }
                let out = string_of_range(s.as_slice(), 2, s.len());
                assert(s@.subrange(2, s@.len() as int) =~= s@.skip(2));
                Some(Directive::UseFlake(Some(out)))
            } else {
                Some(Directive::Unhandled(line))
            }
        } else if tokens.len() > 1 && str_is(tokens[1].as_str(), "nix") {
            assert(rest[0] == tokens@[1]@);
            assert(rest.skip(1) =~= tokens.deep_view().skip(2));
            if any_flag(&tokens, 2) {
                Some(Directive::Unhandled(line))
            } else {
                Some(Directive::UseNix(first_or_new(&tokens, 2)))
            }
        } else {
            Some(Directive::Unhandled(line))
        }
    } else if str_is(cmd, "dotenv") {
        Some(Directive::Dotenv { file: first_or_new(&tokens, 1), if_exists: false })
    } else if str_is(cmd, "dotenv_if_exists") {
        Some(Directive::Dotenv { file: first_or_new(&tokens, 1), if_exists: true })
    } else if str_is(cmd, "PATH_add") && tokens.len() > 1 {
        Some(Directive::PathAdd(tail_strings(&tokens, 1)))
    } else if str_is(cmd, "watch_file") && tokens.len() > 1 {
        Some(Directive::WatchFile(tail_strings(&tokens, 1)))
    } else if str_is(cmd, "export") {
        if tokens.len() < 2 {
            return Some(Directive::Unhandled(line));
        }
        assert(rest[0] == tokens@[1]@);
        let t = chars_of(tokens[1].as_str());
        let found = find_char(t.as_slice(), 0, t.len(), '=');
        proof {
            lemma_split_once_range(t@, 0, t@.len() as int, '=', found);
            assert(t@.subrange(0, t@.len() as int) =~= t@);
        }
        match found {
            None => Some(Directive::Unhandled(line)),
            Some(i) => {
                let k = string_of_range(t.as_slice(), 0, i);
                let val = string_of_range(t.as_slice(), i + 1, t.len());
                if is_literal_value(val.as_str()) && is_valid_key(k.as_str()) {
                    Some(Directive::Export(k, val))
                } else {
                    Some(Directive::Unhandled(line))
                }
            },
        }
    } else {
        Some(Directive::Unhandled(line))
    }
}

/// The directives of the lines `ls`, blank and comment lines left out.
pub open spec fn envrc_directives(ls: Seq<Seq<char>>) -> Seq<DirectiveModel>
    decreases ls.len(),
{
    if ls.len() == 0 {
        Seq::empty()
    } else {
        envrc_directives(ls.drop_last()) + match envrc_line(ls.last()) {
            Some(d) => seq![d],
            None => Seq::empty(),
        }
    }
}

/// The models of a list of directives.
pub open spec fn models(ds: Seq<Directive>) -> Seq<DirectiveModel> {
    ds.map_values(|d: Directive| d.model())
}

/// The directives of an `.envrc`, one per recognized or flagged line.
pub fn parse(contents: &str) -> (r: Vec<Directive>)
    ensures
        models(r@) == envrc_directives(lines(contents@)),
{
    let v = chars_of(contents);
    let ranges = line_ranges(v.as_slice());
    let ghost ls = lines(v@);
    let mut out: Vec<Directive> = Vec::new();
    let mut i: usize = 0;
    assert(ls.take(0) =~= Seq::<Seq<char>>::empty());
    assert(models(out@) =~= Seq::<DirectiveModel>::empty());
    while i < ranges.len()
        invariant
            0 <= i <= ranges@.len(),
            v@ == contents@,
            ls == lines(v@),
            ranges_are(v@, ranges@, ls),
            models(out@) == envrc_directives(ls.take(i as int)),
        decreases ranges@.len() - i,
    {
        let (a, b) = ranges[i];
        proof {
            assert(ls.take(i + 1).drop_last() =~= ls.take(i as int));
            assert(ls.take(i + 1).last() == ls[i as int]);
        }
        let line = string_of_range(v.as_slice(), a, b);
        let ghost before = out@;
        match parse_line(line.as_str()) {
            Some(d) => {
                out.push(d);
                assert(models(out@) =~= models(before).push(out@.last().model()));
            },
            None => {},
        }
        proof {
            assert(models(out@) =~= envrc_directives(ls.take(i + 1)));
        }
        i += 1;
    }
    assert(ls.take(ranges@.len() as int) =~= ls);
    out
}

/// `p` resolved against the directory `dir`, as `Path::join` resolves it on
/// Unix: an absolute `p` replaces `dir`, otherwise a separator goes between
/// them unless `dir` is empty or ends with one.
pub open spec fn join_path(dir: Seq<char>, p: Seq<char>) -> Seq<char> {
    if p.len() > 0 && p[0] == '/' {
        p
    } else if dir.len() > 0 && dir.last() != '/' {
        dir + seq!['/'] + p
    } else {
        dir + p
    }
}

/// `p` resolved against the directory `dir`.
pub fn join(dir: &str, p: &str) -> (r: String)
    ensures
        r@ == join_path(dir@, p@),
{
    let pv = chars_of(p);
    if pv.len() > 0 && pv[0] == '/' {
        return string_of(pv.as_slice());
    }
    let dv = chars_of(dir);
    let mut out = string_of(dv.as_slice());
    if dv.len() > 0 && dv[dv.len() - 1] != '/' {
        append_char(&mut out, '/');
    }
    append(&mut out, p);
    out
}

use crate::text::string_of;

/// `name`, or `default` when `name` is empty.
pub open spec fn or_default(name: Seq<char>, default: Seq<char>) -> Seq<char> {
    if name.len() == 0 {
        default
    } else {
        name
    }
}

/// The `.envrc` file a layer names, in `dir`.
pub fn envrc_path(dir: &str, filename: &str) -> (r: String)
    ensures
        r@ == join_path(dir@, or_default(filename@, ".envrc"@)),
{
    if chars_of(filename).len() == 0 {
        join(dir, ".envrc")
    } else {
        join(dir, filename)
    }
}

/// The `.env` file a `dotenv` line names, in `dir`.
pub fn dotenv_path(dir: &str, file: &str) -> (r: String)
    ensures
        r@ == join_path(dir@, or_default(file@, ".env"@)),
{
    if chars_of(file).len() == 0 {
        join(dir, ".env")
    } else {
        join(dir, file)
    }
}

/// The nix shell file a layer names, in `dir` (`shell.nix` when it names
/// none).
pub fn shell_file_path(dir: &str, file: &str) -> (r: String)
    ensures
        r@ == join_path(dir@, or_default(file@, "shell.nix"@)),
{
    if chars_of(file).len() == 0 {
        join(dir, "shell.nix")
    } else {
        join(dir, file)
    }
}

/// The flake installable of a layer: its directory, then `#` and the output
/// when one is named.
pub open spec fn installable(dir: Seq<char>, output: Option<Seq<char>>) -> Seq<char> {
    match output {
        Some(o) => if o.len() > 0 {
            dir + "#"@ + o
        } else {
            dir
        },
        None => dir,
    }
}

/// The flake installable of a layer.
pub fn flake_installable(dir: &str, output: Option<&str>) -> (r: String)
    ensures
        r@ == installable(dir@, match output {
            Some(o) => Some(o@),
            None => None,
        }),
{
    let mut out = dir.to_owned();
    match output {
        Some(o) => {
            if chars_of(o).len() > 0 {
                crate::text::append(&mut out, "#");
                crate::text::append(&mut out, o);
            }
        },
        None => {},
    }
    out
}

/// A loader an `.envrc` directive asks for.
#[derive(Debug)]
pub enum EnvrcLoad {
    Flake(Option<String>),
    Nix(String),
    Dotenv { file: String, if_exists: bool },
}

/// The directories of `PATH_add`, resolved against `dir`.
pub open spec fn resolved(dir: Seq<char>, ds: Seq<Seq<char>>) -> Seq<Seq<char>> {
    ds.map_values(|d: Seq<char>| join_path(dir, d))
}

/// Applies what an `.envrc` directive sets by itself to `out`: a literal
/// export extends its variable with the colon-split value, `PATH_add`
/// puts the resolved directories in front of `PATH`, an unhandled line is
/// kept as a warning. A directive that needs a loader is handed back.
pub fn apply_directive(
    out: &mut EnvSet,
    dir: &str,
    directive: Directive,
    warnings: &mut Vec<String>,
) -> (r: Option<EnvrcLoad>)
    requires
        old(out).wf(),
    ensures
        final(out).wf(),
        final(out).hard_set() == old(out).hard_set(),
        final(out).vars_map() == match directive.model() {
            DirectiveModel::Export(k, v) => old(out).vars_map().insert(
                k,
                if old(out).vars_map().dom().contains(k) {
                    old(out).vars_map()[k] + split(v, ':')
                } else {
                    split(v, ':')
                },
            ),
            DirectiveModel::PathAdd(ds) => old(out).vars_map().insert(
                "PATH"@,
                if old(out).vars_map().dom().contains("PATH"@) {
                    resolved(dir@, ds) + old(out).vars_map()["PATH"@]
                } else {
                    resolved(dir@, ds)
                },
            ),
            _ => old(out).vars_map(),
        },
        final(warnings).deep_view() == match directive.model() {
            DirectiveModel::Unhandled(l) => old(warnings).deep_view().push(l),
            _ => old(warnings).deep_view(),
        },
        match directive {
            Directive::UseFlake(o) => r matches Some(EnvrcLoad::Flake(p)) && p == o,
            Directive::UseNix(f) => r matches Some(EnvrcLoad::Nix(g)) && g == f,
            Directive::Dotenv { file, if_exists } => r matches Some(
                EnvrcLoad::Dotenv { file: f, if_exists: e },
            ) && f == file && e == if_exists,
            _ => r is None,
        },
{
    match directive {
        Directive::UseFlake(output) => Some(EnvrcLoad::Flake(output)),
        Directive::UseNix(file) => Some(EnvrcLoad::Nix(file)),
        Directive::Dotenv { file, if_exists } => Some(EnvrcLoad::Dotenv { file, if_exists }),
        Directive::Export(key, value) => {
            let vc = chars_of(value.as_str());
            let parts = split_range(vc.as_slice(), 0, vc.len(), ':');
            assert(vc@.subrange(0, vc@.len() as int) =~= vc@);
            out.extend_var(key, parts);
            None
        },
        Directive::PathAdd(dirs) => {
            // direnv PATH_add prepends, resolved against the .envrc's dir
            let mut prefix: Vec<String> = Vec::new();
            let mut i: usize = 0;
            while i < dirs.len()
                invariant
                    0 <= i <= dirs@.len(),
                    prefix.deep_view() == resolved(dir@, dirs.deep_view().take(i as int)),
                decreases dirs@.len() - i,
            {
                let j = join(dir, dirs[i].as_str());
                let ghost before = prefix.deep_view();
                prefix.push(j);
                assert(prefix.deep_view() =~= before.push(j@));
                assert(dirs.deep_view().take(i + 1) =~= dirs.deep_view().take(i as int).push(
                    dirs.deep_view()[i as int],
                ));
                assert(resolved(dir@, dirs.deep_view().take(i + 1)) =~= resolved(
                    dir@,
                    dirs.deep_view().take(i as int),
                ).push(join_path(dir@, dirs.deep_view()[i as int])));
                i += 1;
            }
            assert(dirs.deep_view().take(dirs@.len() as int) =~= dirs.deep_view());
            entry_prepend(&mut out.vars, "PATH".to_owned(), prefix);
            None
        },
        Directive::WatchFile(_) => None,
        Directive::Unhandled(line) => {
            let ghost before = warnings.deep_view();
            warnings.push(line);
            assert(warnings.deep_view() =~= before.push(warnings@.last()@));
            None
        },
    }
}

/// The files an `.envrc` layer depends on, from the directives of its
/// text.
pub open spec fn directive_files(dir: Seq<char>, ds: Seq<DirectiveModel>) -> Seq<Seq<char>>
    decreases ds.len(),
{
    if ds.len() == 0 {
        Seq::empty()
    } else {
        directive_files(dir, ds.drop_last()) + match ds.last() {
            DirectiveModel::UseFlake(_) => seq![
                join_path(dir, "flake.nix"@),
                join_path(dir, "flake.lock"@),
            ],
            DirectiveModel::UseNix(f) => seq![join_path(dir, or_default(f, "shell.nix"@))],
            DirectiveModel::Dotenv(f, _) => seq![join_path(dir, or_default(f, ".env"@))],
            DirectiveModel::WatchFile(ws) => resolved(dir, ws),
            _ => Seq::empty(),
        }
    }
}

/// Files an .envrc layer depends on: the `.envrc` itself and, when its text
/// could be read, the files its directives load or watch.
pub fn envrc_watch_files(dir: &str, filename: &str, contents: Option<&str>) -> (r: Vec<String>)
    ensures
        r.deep_view() == seq![join_path(dir@, or_default(filename@, ".envrc"@))] + match contents {
            Some(c) => directive_files(dir@, envrc_directives(lines(c@))),
            None => Seq::empty(),
        },
{
    let mut files: Vec<String> = Vec::new();
    files.push(envrc_path(dir, filename));
    let ghost first = files.deep_view();
    match contents {
        None => {
            assert(files.deep_view() =~= first + Seq::<Seq<char>>::empty());
            files
        },
        Some(c) => {
            let ds = parse(c);
            let mut i: usize = 0;
            assert(models(ds@).take(0) =~= Seq::<DirectiveModel>::empty());
            assert(first + directive_files(dir@, Seq::<DirectiveModel>::empty()) =~= first);
            while i < ds.len()
                invariant
                    0 <= i <= ds@.len(),
                    files.deep_view() == first + directive_files(dir@, models(ds@).take(i as int)),
                decreases ds@.len() - i,
            {
                let ghost before = files.deep_view();
                let ghost m = models(ds@);
                proof {
                    assert(m.take(i + 1).drop_last() =~= m.take(i as int));
                    assert(m.take(i + 1).last() == ds@[i as int].model());
                }
                let mut extra: Vec<String> = Vec::new();
                match &ds[i] {
                    Directive::UseFlake(_) => {
                        extra.push(join(dir, "flake.nix"));
                        extra.push(join(dir, "flake.lock"));
                    },
                    Directive::UseNix(f) => {
                        if chars_of(f.as_str()).len() == 0 {
                            extra.push(join(dir, "shell.nix"));
                        } else {
                            extra.push(join(dir, f.as_str()));
                        }
                    },
                    Directive::Dotenv { file, .. } => {
                        extra.push(dotenv_path(dir, file.as_str()));
                    },
                    Directive::WatchFile(ws) => {
                        let mut j: usize = 0;
                        while j < ws.len()
                            invariant
                                0 <= j <= ws@.len(),
                                extra.deep_view() == resolved(dir@, ws.deep_view().take(j as int)),
                            decreases ws@.len() - j,
                        {
                            let ghost b2 = extra.deep_view();
                            let f = join(dir, ws[j].as_str());
                            extra.push(f);
                            assert(extra.deep_view() =~= b2.push(f@));
                            assert(ws.deep_view().take(j + 1) =~= ws.deep_view().take(
                                j as int,
                            ).push(ws.deep_view()[j as int]));
                            assert(resolved(dir@, ws.deep_view().take(j + 1)) =~= resolved(
                                dir@,
                                ws.deep_view().take(j as int),
                            ).push(join_path(dir@, ws.deep_view()[j as int])));
                            j += 1;
                        }
                        assert(ws.deep_view().take(ws@.len() as int) =~= ws.deep_view());
                    },
                    _ => {},
                }
                proof {
                    let d = ds@[i as int].model();
                    assert(extra.deep_view() =~= match d {
                        DirectiveModel::UseFlake(_) => seq![
                            join_path(dir@, "flake.nix"@),
                            join_path(dir@, "flake.lock"@),
                        ],
                        DirectiveModel::UseNix(f) => seq![join_path(dir@, or_default(f, "shell.nix"@))],
                        DirectiveModel::Dotenv(f, _) => seq![join_path(dir@, or_default(f, ".env"@))],
                        DirectiveModel::WatchFile(ws) => resolved(dir@, ws),
                        _ => Seq::<Seq<char>>::empty(),
                    });
                }
                crate::assoc::extend_strings(&mut files, &extra);
                proof {
                    assert(files.deep_view() =~= first + directive_files(
                        dir@,
                        models(ds@).take(i + 1),
                    ));
                }
                i += 1;
            }
            assert(models(ds@).take(ds@.len() as int) =~= models(ds@));
            files
        },
    }
}

/// The warning lines about the unsupported lines of an `.envrc` at `path`,
/// which were skipped: a header, then each line indented; none when there
/// were none.
pub fn unsupported_report(path: &str, warnings: &Vec<String>) -> (r: Vec<String>)
    ensures
        warnings@.len() == 0 ==> r@.len() == 0,
        warnings@.len() > 0 ==> r.deep_view() == seq![
            "cade: ignored "@ + crate::text::decimal(warnings@.len() as nat) + " unsupported line(s) in "@
                + path@ + " (not executed):"@,
        ] + warnings.deep_view().map_values(|w: Seq<char>| "    "@ + w),
{
    let mut out: Vec<String> = Vec::new();
    if warnings.len() == 0 {
        return out;
    }
    let mut head = "cade: ignored ".to_owned();
    append(&mut head, crate::text::decimal_text(warnings.len() as u128).as_str());
    append(&mut head, " unsupported line(s) in ");
    append(&mut head, path);
    append(&mut head, " (not executed):");
    out.push(head);
    let ghost first = out.deep_view();
    let mut i: usize = 0;
    while i < warnings.len()
        invariant
            0 <= i <= warnings@.len(),
            out.deep_view() == first + warnings.deep_view().take(i as int).map_values(
                |w: Seq<char>| "    "@ + w,
            ),
        decreases warnings@.len() - i,
    {
        let mut line = "    ".to_owned();
        append(&mut line, warnings[i].as_str());
        let ghost before = out.deep_view();
        out.push(line);
        proof {
            assert(out.deep_view() =~= before.push("    "@ + warnings.deep_view()[i as int]));
            assert(warnings.deep_view().take(i + 1).map_values(|w: Seq<char>| "    "@ + w) =~= warnings.deep_view().take(
                i as int,
            ).map_values(|w: Seq<char>| "    "@ + w).push("    "@ + warnings.deep_view()[i as int]));
        }
        i += 1;
    }
    assert(warnings.deep_view().take(warnings@.len() as int) =~= warnings.deep_view());
    out
}

/// A `dotenv` line loads the file its first argument names, and the
/// default file when it names none; `dotenv_if_exists` does the same when
/// the file exists. The words are the line's shell words.
pub proof fn law_dotenv_names_its_file(raw: Seq<char>, ws: Seq<Seq<char>>)
    requires
        trim(raw).len() > 0,
        trim(raw)[0] != '#',
        shell_words(trim(raw)) == Some(ws),
        ws.len() > 0,
        ws[0] == "dotenv"@ || ws[0] == "dotenv_if_exists"@,
    ensures
        envrc_line(raw) == Some(
            DirectiveModel::Dotenv(
                if ws.len() > 1 {
                    ws[1]
                } else {
                    Seq::<char>::empty()
                },
                ws[0] == "dotenv_if_exists"@,
            ),
        ),
{
    reveal_strlit("dotenv");
    reveal_strlit("dotenv_if_exists");
    reveal_strlit("use");
    assert(ws[0] != "use"@) by {
        if ws[0] == "use"@ {
            assert(ws[0][0] == 'u');
        }
    }
    assert("dotenv"@ != "dotenv_if_exists"@) by {
        assert("dotenv"@.len() != "dotenv_if_exists"@.len());
    }
    if ws.len() > 1 {
        assert(ws.skip(1)[0] == ws[1]);
    }
}

/// The other directives of an `.envrc` line, by its first shell word:
/// `PATH_add` and `watch_file` take all the arguments after them; `use nix`
/// without flags loads the file its first argument names (the default when
/// none); `use flake` alone or on `.` loads the directory's flake, and on
/// `.#out` the output `out`.
pub proof fn law_envrc_directives(raw: Seq<char>, ws: Seq<Seq<char>>)
    requires
        trim(raw).len() > 0,
        trim(raw)[0] != '#',
        shell_words(trim(raw)) == Some(ws),
        ws.len() > 1,
    ensures
        ws[0] == "PATH_add"@ ==> envrc_line(raw) == Some(DirectiveModel::PathAdd(ws.skip(1))),
        ws[0] == "watch_file"@ ==> envrc_line(raw) == Some(DirectiveModel::WatchFile(ws.skip(1))),
        ws[0] == "use"@ && ws[1] == "nix"@ && ws.len() == 2 ==> envrc_line(raw) == Some(
            DirectiveModel::UseNix(Seq::<char>::empty()),
        ),
        ws[0] == "use"@ && ws[1] == "nix"@ && ws.len() > 2 && !(ws[2].len() > 0 && ws[2][0] == '-')
            && ws.len() == 3 ==> envrc_line(raw) == Some(DirectiveModel::UseNix(ws[2])),
        ws[0] == "use"@ && ws[1] == "flake"@ && (ws.len() == 2 || (ws.len() == 3 && ws[2]
            == "."@)) ==> envrc_line(raw) == Some(DirectiveModel::UseFlake(None)),
        ws[0] == "use"@ && ws[1] == "flake"@ && ws.len() == 3 && ws[2].len() >= 2 && ws[2][0] == '.'
            && ws[2][1] == '#' ==> envrc_line(raw) == Some(
            DirectiveModel::UseFlake(Some(ws[2].skip(2))),
        ),
{
    reveal_strlit("use");
    reveal_strlit("nix");
    reveal_strlit("flake");
    reveal_strlit("dotenv");
    reveal_strlit("dotenv_if_exists");
    reveal_strlit("PATH_add");
    reveal_strlit("watch_file");
    reveal_strlit(".");
    reveal_strlit(".#");
    let rest = ws.skip(1);
    assert(rest[0] == ws[1]);
    assert(rest.skip(1) =~= ws.skip(2));
    assert("use"@[0] != "PATH_add"@[0] && "use"@[0] != "watch_file"@[0] && "use"@[0] != "dotenv"@[0]
        && "use"@[0] != "dotenv_if_exists"@[0]);
    assert("PATH_add"@[0] != "watch_file"@[0] && "PATH_add"@[0] != "dotenv"@[0]
        && "PATH_add"@[0] != "dotenv_if_exists"@[0]);
    assert("watch_file"@[0] != "dotenv"@[0] && "watch_file"@[0] != "dotenv_if_exists"@[0]);
    assert("nix"@[0] != "flake"@[0]);
    if ws.len() == 3 {
        let args = ws.skip(2);
        assert(args[0] == ws[2]);
        assert(args.len() == 1);
        if ws[2].len() >= 2 && ws[2][0] == '.' && ws[2][1] == '#' {
            assert(starts_with(ws[2], ".#"@)) by {
                assert(ws[2].take(2) =~= ".#"@);
            }
            assert(ws[2] != "."@);
        }
        if !(ws[2].len() > 0 && ws[2][0] == '-') {
            assert(!has_flag(args)) by {
                if has_flag(args) {
                    let i = choose|i: int| 0 <= i < args.len() && is_flag(#[trigger] args[i]);
                    assert(i == 0);
                }
            }
        }
    }
    if ws.len() == 2 {
        assert(ws.skip(2).len() == 0);
        assert(!has_flag(ws.skip(2)));
    }
}

} // verus!
