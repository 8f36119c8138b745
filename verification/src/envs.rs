//! Variable sets from `.env` text (`KEY=value` lines) and from a
//! development shell's JSON.
use vstd::prelude::*;
use crate::text::{
    chars_of, cut_ws, find_char, lemma_split_once_range, line_ranges, lines, range_starts_with,
    skip_ws, split, split_once, split_range, starts_with, string_of_range, trim, trim_end,
    trim_range, trim_start,
};
use crate::assoc::{entry_set, keys_distinct, lemma_to_map_empty, to_map};
use crate::external::{json_document, lowercase, parse_json, to_lowercase};
use crate::text::{contains_seq, ends_with, str_contains, str_ends_with, str_is, str_starts_with};
use crate::types::EnvSet;

verus! {

/// A `.env` line that is neither blank, a comment, nor an assignment.
#[derive(Debug)]
pub struct EnvsError {
    /// The offending line, after any `export ` prefix
    pub line: String,
}

/// `i` starts an inline comment (` #`) in `v`.
pub open spec fn comment_at(v: Seq<char>, i: int) -> bool {
    0 <= i && i + 1 < v.len() && v[i] == ' ' && v[i + 1] == '#'
}

/// `i` starts the first inline comment in `v`.
pub open spec fn first_comment_at(v: Seq<char>, i: int) -> bool {
    comment_at(v, i) && forall|j: int| 0 <= j < i ==> !comment_at(v, j)
}

/// Normalize a raw .env value: trimmed, one pair of enclosing quotes
/// removed, or else a trailing ` #` comment cut off.
pub open spec fn clean_env_value(raw: Seq<char>) -> Seq<char> {
    let v = trim(raw);
    if v.len() >= 2 && ((v[0] == '"' && v.last() == '"') || (v[0] == '\'' && v.last() == '\'')) {
        v.subrange(1, v.len() - 1)
    } else if exists|i: int| first_comment_at(v, i) {
        trim_end(v.take(choose|i: int| first_comment_at(v, i)))
    } else {
        v
    }
}

/// What one line of `.env` text says: nothing (blank or comment), an
/// assignment of values to a key (with whether it is a hard `:=`), or an
/// error naming the line.
pub open spec fn env_line(raw: Seq<char>) -> Option<Result<(Seq<char>, bool, Seq<Seq<char>>), Seq<char>>> {
    let line = trim(raw);
    if line.len() == 0 || line[0] == '#' {
        None
    } else {
        let line = if starts_with(line, "export "@) {
            trim_start(line.skip("export "@.len() as int))
        } else {
            line
        };
        match split_once(line, '=') {
            None => Some(Err(line)),
            Some((raw_key, raw_value)) => {
                let hard = raw_key.len() > 0 && raw_key.last() == ':';
                let key = trim(
                    if hard {
                        raw_key.drop_last()
                    } else {
                        raw_key
                    },
                );
                Some(Ok((key, hard, split(clean_env_value(raw_value), ':'))))
            },
        }
    }
}

/// The variables and hard keys of the lines `ls`, or the first bad line.
/// A key seen again has its values appended.
pub open spec fn envs_state(ls: Seq<Seq<char>>) -> Result<
    (Map<Seq<char>, Seq<Seq<char>>>, Set<Seq<char>>),
    Seq<char>,
>
    decreases ls.len(),
{
    if ls.len() == 0 {
        Ok((Map::empty(), Set::empty()))
    } else {
        match envs_state(ls.drop_last()) {
            Err(e) => Err(e),
            Ok((vars, hard)) => match env_line(ls.last()) {
                None => Ok((vars, hard)),
                Some(Err(l)) => Err(l),
                Some(Ok((k, h, vals))) => Ok(
                    (
                        vars.insert(
                            k,
                            if vars.dom().contains(k) {
                                vars[k] + vals
                            } else {
                                vals
                            },
                        ),
                        if h {
                            hard.insert(k)
                        } else {
                            hard
                        },
                    ),
                ),
            },
        }
    }
}

/// The range of `v[from..to]` that `clean_env_value` keeps.
fn clean_range(v: &[char], from: usize, to: usize) -> (r: (usize, usize))
    requires
        from <= to <= v@.len(),
    ensures
        r.0 <= r.1 <= v@.len(),
        v@.subrange(r.0 as int, r.1 as int) == clean_env_value(
            v@.subrange(from as int, to as int),
        ),
{
    let (a, b) = trim_range(v, from, to);
    let ghost t = v@.subrange(a as int, b as int);
    if b - a >= 2 && ((v[a] == '"' && v[b - 1] == '"') || (v[a] == '\'' && v[b - 1] == '\'')) {
        assert(t[0] == v@[a as int] && t.last() == v@[b - 1]);
        assert(t.subrange(1, t.len() - 1) =~= v@.subrange(a + 1, b - 1));
        return (a + 1, b - 1);
    }
    let mut i = a;
    while b - i > 1
        invariant
            a <= i <= b <= v@.len(),
            i < b || a == b,
            t == v@.subrange(a as int, b as int),
            t == trim(v@.subrange(from as int, to as int)),
            !(t.len() >= 2 && ((t[0] == '"' && t.last() == '"') || (t[0] == '\'' && t.last()
                == '\''))),
            forall|j: int| 0 <= j < i - a ==> !comment_at(t, j),
        decreases b - i,
    {
        if v[i] == ' ' && v[i + 1] == '#' {
            proof {
                assert(comment_at(t, i - a));
                assert(first_comment_at(t, i - a));
                let c = choose|c: int| first_comment_at(t, c);
                if c < i - a {
                    assert(!comment_at(t, c));
                } else if c > i - a {
                    assert(!comment_at(t, i - a));
                }
                assert(c == i - a);
            }
            let hi = cut_ws(v, a, i);
            assert(t.take(i - a) =~= v@.subrange(a as int, i as int));
            return (a, hi);
        }
        assert(!comment_at(t, i - a));
        i += 1;
    }
    assert forall|j: int| !first_comment_at(t, j) by {
        if 0 <= j < i - a {
        } else if comment_at(t, j) {
            assert(j + 1 < t.len());
        }
    }
    (a, b)
}

/// One parsed line of `.env` text.
enum LineParse {
    Blank,
    Entry(String, bool, Vec<String>),
    Bad(String),
}

/// Parses the line `v[from..to]`.
fn parse_env_line(v: &[char], from: usize, to: usize, export: &Vec<char>) -> (r: LineParse)
    requires
        from <= to <= v@.len(),
        export@ == "export "@,
    ensures
        match r {
            LineParse::Blank => env_line(v@.subrange(from as int, to as int)) is None,
            LineParse::Entry(k, h, vals) => env_line(v@.subrange(from as int, to as int)) == Some(
                Ok::<_, Seq<char>>((k@, h, vals.deep_view())),
            ),
            LineParse::Bad(l) => env_line(v@.subrange(from as int, to as int)) == Some(
                Err::<(Seq<char>, bool, Seq<Seq<char>>), _>(l@),
            ),
        },
{
    let ghost raw = v@.subrange(from as int, to as int);
    let (a, b) = trim_range(v, from, to);
    if a == b || v[a] == '#' {
        return LineParse::Blank;
    }
    let mut lo = a;
    if range_starts_with(v, a, b, export.as_slice()) {
        lo = skip_ws(v, a + export.len(), b);
        assert(v@.subrange(a as int, b as int).skip(export@.len() as int) =~= v@.subrange(
            a + export@.len(),
            b as int,
        ));
    }
    let ghost line = v@.subrange(lo as int, b as int);
    let found = find_char(v, lo, b, '=');
    proof {
        lemma_split_once_range(v@, lo as int, b as int, '=', found);
    }
    match found {
        None => LineParse::Bad(string_of_range(v, lo, b)),
        Some(i) => {
            let hard = i > lo && v[i - 1] == ':';
            let key_end = if hard {
                i - 1
            } else {
                i
            };
            proof {
                if hard {
                    assert(v@.subrange(lo as int, i as int).drop_last() =~= v@.subrange(
                        lo as int,
                        key_end as int,
                    ));
                }
            }
            let (ka, kb) = trim_range(v, lo, key_end);
            let key = string_of_range(v, ka, kb);
            let (ca, cb) = clean_range(v, i + 1, b);
            let values = split_range(v, ca, cb, ':');
            LineParse::Entry(key, hard, values)
        },
    }
}

/// An error in some lines stays the error of all the lines.
pub proof fn lemma_envs_err_stays(ls: Seq<Seq<char>>, k: int)
    requires
        0 <= k <= ls.len(),
        envs_state(ls.take(k)) is Err,
    ensures
        envs_state(ls) == envs_state(ls.take(k)),
    decreases ls.len() - k,
{
    if k == ls.len() {
        assert(ls.take(k) =~= ls);
    } else {
        assert(ls.take(k + 1).drop_last() =~= ls.take(k));
        lemma_envs_err_stays(ls, k + 1);
    }
}

impl EnvSet {
    /// Parses `.env` text: blank lines and `#` comments are skipped, a
    /// leading `export ` is tolerated, `KEY:=value` marks a hard replace,
    /// and values split at `:` into lists; a key seen again has its values
    /// appended. A line without `=` is an error.
    pub fn from_envs(text: &str) -> (r: Result<EnvSet, EnvsError>)
        ensures
            match r {
                Ok(env) => env.wf() && envs_state(lines(text@)) == Ok::<_, Seq<char>>(
                    (env.vars_map(), env.hard_set()),
                ),
                Err(e) => envs_state(lines(text@)) == Err::<
                    (Map<Seq<char>, Seq<Seq<char>>>, Set<Seq<char>>),
                    _,
                >(e.line@),
            },
    {
        let v = chars_of(text);
        let ranges = line_ranges(v.as_slice());
        let ghost ls = lines(v@);
        let export = chars_of("export ");
        let mut env = EnvSet::new();
        let mut i: usize = 0;
        assert(ls.take(0) =~= Seq::<Seq<char>>::empty());
        while i < ranges.len()
            invariant
                0 <= i <= ranges@.len(),
                v@ == text@,
                ls == lines(v@),
                crate::text::ranges_are(v@, ranges@, ls),
                export@ == "export "@,
                env.wf(),
                envs_state(ls.take(i as int)) == Ok::<_, Seq<char>>(
                    (env.vars_map(), env.hard_set()),
                ),
            decreases ranges@.len() - i,
        {
            let (a, b) = ranges[i];
            proof {
                assert(ls.take(i + 1).drop_last() =~= ls.take(i as int));
                assert(ls.take(i + 1).last() == ls[i as int]);
                assert(ranges@[i as int].0 <= ranges@[i as int].1 <= v@.len());
            }
            match parse_env_line(v.as_slice(), a, b, &export) {
                LineParse::Blank => {},
                LineParse::Bad(line) => {
                    proof {
                        lemma_envs_err_stays(ls, i + 1);
                    }
                    return Err(EnvsError { line });
                },
                LineParse::Entry(key, hard, values) => {
                    let ghost k = key@;
                    let ghost vs = values.deep_view();
                    let ghost h0 = env.hard_set();
                    if hard {
                        crate::assoc::names_insert(&mut env.hard, key.clone());
                    }
                    assert(env.hard_set() == if hard {
                        h0.insert(k)
                    } else {
                        h0
                    });
                    env.extend_var(key, values);
                },
            }
            i += 1;
        }
        assert(ls.take(ranges@.len() as int) =~= ls);
        Ok(env)
    }
}

// ---- variables from a development shell's JSON ----

/// A JSON value.
#[derive(Debug)]
pub enum JsonValue {
    Null,
    Bool(bool),
    /// A number, as written
    Number(String),
    Text(String),
    Array(Vec<JsonValue>),
    /// The members of an object, in order
    Object(Vec<(String, JsonValue)>),
}

/// The first member named `key`.
pub open spec fn member(fields: Seq<(String, JsonValue)>, key: Seq<char>) -> Option<JsonValue>
    decreases fields.len(),
{
    if fields.len() == 0 {
        None
    } else if fields[0].0@ == key {
        Some(fields[0].1)
    } else {
        member(fields.drop_first(), key)
    }
}

proof fn lemma_member_skip(fields: Seq<(String, JsonValue)>, key: Seq<char>, i: int)
    requires
        0 <= i <= fields.len(),
        forall|j: int| 0 <= j < i ==> (#[trigger] fields[j]).0@ != key,
    ensures
        member(fields, key) == member(fields.skip(i), key),
    decreases i,
{
    if i > 0 {
        assert forall|j: int| 0 <= j < i - 1 implies (#[trigger] fields.drop_first()[j]).0@ != key by {
            assert(fields.drop_first()[j] == fields[j + 1]);
        }
        lemma_member_skip(fields.drop_first(), key, i - 1);
        assert(fields.drop_first().skip(i - 1) =~= fields.skip(i));
        assert(fields[0].0@ != key);
    } else {
        assert(fields.skip(0) =~= fields);
    }
}

/// The first member named `key`.
fn find_member<'a>(fields: &'a Vec<(String, JsonValue)>, key: &str) -> (r: Option<&'a JsonValue>)
    ensures
        match r {
            Some(v) => member(fields@, key@) == Some(*v),
            None => member(fields@, key@) is None,
        },
{
    let mut i: usize = 0;
    while i < fields.len()
        invariant
            0 <= i <= fields@.len(),
            forall|j: int| 0 <= j < i ==> (#[trigger] fields@[j]).0@ != key@,
        decreases fields@.len() - i,
    {
        if str_is(fields[i].0.as_str(), key) {
            proof {
                lemma_member_skip(fields@, key@, i as int);
                assert(fields@.skip(i as int)[0] == fields@[i as int]);
            }
            return Some(&fields[i].1);
        }
        i += 1;
    }
    proof {
        lemma_member_skip(fields@, key@, i as int);
        assert(fields@.skip(i as int).len() == 0);
    }
    None
}

/// Names of the build environment that are no layer variables, part 1.
pub open spec fn build_internal_1(n: Seq<char>) -> bool {
    ||| n == "SHELL"@
    ||| n == "pkg"@
    ||| n == "prefix"@
    ||| n == "guess"@
    ||| n == "_substituteStream_has_warned_replace_deprecation"@
    ||| n == "LINENO"@
    ||| n == "OPTERROR"@
    ||| n == "OLDPWD"@
    ||| n == "BASH"@
    ||| n == "IFS"@
    ||| n == "PS4"@
    ||| n == "initialPath"@
    ||| n == "out"@
    ||| n == "shell"@
    ||| n == "STRINGS"@
    ||| n == "stdenv"@
}

/// Names of the build environment that are no layer variables, part 2.
pub open spec fn build_internal_2(n: Seq<char>) -> bool {
    ||| n == "builder"@
    ||| n == "PWD"@
    ||| n == "SOURCE_DATE_EPOCH"@
    ||| n == "CXX"@
    ||| n == "TEMPDIR"@
    ||| n == "system"@
    ||| n == "HOST_PATH"@
    ||| n == "doInstallCheck"@
    ||| n == "buildCommandPath"@
    ||| n == "LS_COLORS"@
    ||| n == "cmakeFlakes"@
    ||| n == "TMPDIR"@
    ||| n == "LD"@
    ||| n == "READELF"@
    ||| n == "doCheck"@
    ||| n == "SIZE"@
}

/// Names of the build environment that are no layer variables, part 3.
pub open spec fn build_internal_3(n: Seq<char>) -> bool {
    ||| n == "propagatedNativeBuildInputs"@
    ||| n == "strictDeps"@
    ||| n == "AR"@
    ||| n == "AS"@
    ||| n == "TEMP"@
    ||| n == "SHLVL"@
    ||| n == "NM"@
    ||| n == "patches"@
    ||| n == "passAsFile"@
    ||| n == "buildInputs"@
    ||| n == "SSL_CERT_FILE"@
    ||| n == "OBJCOPY"@
    ||| n == "STRIP"@
    ||| n == "TMP"@
    ||| n == "OBJDUMP"@
    ||| n == "propagatedBuildInputs"@
}

/// Names of the build environment that are no layer variables, part 4.
pub open spec fn build_internal_4(n: Seq<char>) -> bool {
    ||| n == "CC"@
    ||| n == "__ETC_PROFILE_SOURCED"@
    ||| n == "CONFIG_SHELL"@
    ||| n == "__structuredAttrs"@
    ||| n == "RANLIB"@
    ||| n == "nativeBuildInputs"@
    ||| n == "name"@
    ||| n == "TEST"@
    ||| n == "TZ"@
    ||| n == "HOME"@
    ||| n == "GZIP_NO_TIMESTAMPS"@
    ||| n == "cmakeFlags"@
    ||| n == "TERM"@
    ||| n == "buildCommand"@
    ||| n == "preferLocalBuild"@
    ||| n == "dontAddDisableDepTrack"@
}

/// Names of the build environment that are no layer variables.
pub open spec fn build_internal(n: Seq<char>) -> bool {
    ||| build_internal_1(n)
    ||| build_internal_2(n)
    ||| build_internal_3(n)
    ||| build_internal_4(n)
}

/// A name of the build environment that is no layer variable: nix's own,
/// outputs, dependencies, switches, inputs, flags, types, phases, and a
/// list of the builder's variables.
pub open spec fn skipped_var(n: Seq<char>) -> bool {
    ||| starts_with(n, "NIX_"@)
    ||| starts_with(n, "output"@)
    ||| starts_with(n, "deps"@)
    ||| starts_with(n, "enable"@)
    ||| ends_with(n, "Inputs"@)
    ||| ends_with(n, "Flags"@)
    ||| ends_with(n, "TYPE"@)
    ||| contains_seq(lowercase(n), "phase"@)
    ||| build_internal(n)
}

fn is_build_internal_1(n: &str) -> (r: bool)
    ensures
        r == build_internal_1(n@),
{
    str_is(n, "SHELL")
        || str_is(n, "pkg")
        || str_is(n, "prefix")
        || str_is(n, "guess")
        || str_is(n, "_substituteStream_has_warned_replace_deprecation")
        || str_is(n, "LINENO")
        || str_is(n, "OPTERROR")
        || str_is(n, "OLDPWD")
        || str_is(n, "BASH")
        || str_is(n, "IFS")
        || str_is(n, "PS4")
        || str_is(n, "initialPath")
        || str_is(n, "out")
        || str_is(n, "shell")
        || str_is(n, "STRINGS")
        || str_is(n, "stdenv")
}

fn is_build_internal_2(n: &str) -> (r: bool)
    ensures
        r == build_internal_2(n@),
{
    str_is(n, "builder")
        || str_is(n, "PWD")
        || str_is(n, "SOURCE_DATE_EPOCH")
        || str_is(n, "CXX")
        || str_is(n, "TEMPDIR")
        || str_is(n, "system")
        || str_is(n, "HOST_PATH")
        || str_is(n, "doInstallCheck")
        || str_is(n, "buildCommandPath")
        || str_is(n, "LS_COLORS")
        || str_is(n, "cmakeFlakes")
        || str_is(n, "TMPDIR")
        || str_is(n, "LD")
        || str_is(n, "READELF")
        || str_is(n, "doCheck")
        || str_is(n, "SIZE")
}

fn is_build_internal_3(n: &str) -> (r: bool)
    ensures
        r == build_internal_3(n@),
{
    str_is(n, "propagatedNativeBuildInputs")
        || str_is(n, "strictDeps")
        || str_is(n, "AR")
        || str_is(n, "AS")
        || str_is(n, "TEMP")
        || str_is(n, "SHLVL")
        || str_is(n, "NM")
        || str_is(n, "patches")
        || str_is(n, "passAsFile")
        || str_is(n, "buildInputs")
        || str_is(n, "SSL_CERT_FILE")
        || str_is(n, "OBJCOPY")
        || str_is(n, "STRIP")
        || str_is(n, "TMP")
        || str_is(n, "OBJDUMP")
        || str_is(n, "propagatedBuildInputs")
}

fn is_build_internal_4(n: &str) -> (r: bool)
    ensures
        r == build_internal_4(n@),
{
    str_is(n, "CC")
        || str_is(n, "__ETC_PROFILE_SOURCED")
        || str_is(n, "CONFIG_SHELL")
        || str_is(n, "__structuredAttrs")
        || str_is(n, "RANLIB")
        || str_is(n, "nativeBuildInputs")
        || str_is(n, "name")
        || str_is(n, "TEST")
        || str_is(n, "TZ")
        || str_is(n, "HOME")
        || str_is(n, "GZIP_NO_TIMESTAMPS")
        || str_is(n, "cmakeFlags")
        || str_is(n, "TERM")
        || str_is(n, "buildCommand")
        || str_is(n, "preferLocalBuild")
        || str_is(n, "dontAddDisableDepTrack")
}

fn is_build_internal(n: &str) -> (r: bool)
    ensures
        r == build_internal(n@),
{
    is_build_internal_1(n)
        || is_build_internal_2(n)
        || is_build_internal_3(n)
        || is_build_internal_4(n)
}

fn is_skipped_var(n: &str) -> (r: bool)
    ensures
        r == skipped_var(n@),
{
    str_starts_with(n, "NIX_") || str_starts_with(n, "output") || str_starts_with(n, "deps")
        || str_starts_with(n, "enable") || str_ends_with(n, "Inputs") || str_ends_with(n, "Flags")
        || str_ends_with(n, "TYPE") || str_contains(to_lowercase(n).as_str(), "phase")
        || is_build_internal(n)
}

/// The string under `value` of a variable's entry, if it has one.
pub open spec fn var_value(v: JsonValue) -> Option<Seq<char>> {
    match v {
        JsonValue::Object(fields) => match member(fields@, "value"@) {
            Some(JsonValue::Text(s)) => Some(s@),
            _ => None,
        },
        _ => None,
    }
}

/// The layer variables of the members of `variables`: each that is not
/// skipped and has a string value, split at `:`; a later one of a name
/// replaces an earlier.
pub open spec fn dev_vars(vs: Seq<(String, JsonValue)>) -> Map<Seq<char>, Seq<Seq<char>>>
    decreases vs.len(),
{
    if vs.len() == 0 {
        Map::empty()
    } else {
        let m = dev_vars(vs.drop_last());
        let n = vs.last().0@;
        match var_value(vs.last().1) {
            Some(s) => if skipped_var(n) {
                m
            } else {
                m.insert(n, split(s, ':'))
            },
            None => m,
        }
    }
}

/// Why a development shell's JSON gives no variables.
#[derive(Debug, Clone, Copy, PartialEq, Eq, Structural)]
pub enum JsonEnvError {
    /// Not a JSON document
    NotJson,
    /// Not an object with a `variables` member
    NoVariables,
    /// `variables` is not an object
    VariablesNotObject,
}

impl JsonEnvError {
    /// The message that describes the error.
    pub fn message(&self) -> (r: String)
        ensures
            r@ == match self {
                JsonEnvError::NotJson => "parsing json"@,
                JsonEnvError::NoVariables => "failed to parse values from JSON output"@,
                JsonEnvError::VariablesNotObject => "collecting env vars"@,
            },
    {
        match self {
            JsonEnvError::NotJson => "parsing json".to_owned(),
            JsonEnvError::NoVariables => "failed to parse values from JSON output".to_owned(),
            JsonEnvError::VariablesNotObject => "collecting env vars".to_owned(),
        }
    }
}

/// The variables a development shell's JSON gives, or why it gives none.
pub open spec fn json_env(json: JsonValue) -> Result<Map<Seq<char>, Seq<Seq<char>>>, JsonEnvError> {
    match json {
        JsonValue::Object(fields) => match member(fields@, "variables"@) {
            Some(JsonValue::Object(vs)) => Ok(dev_vars(vs@)),
            Some(_) => Err(JsonEnvError::VariablesNotObject),
            None => Err(JsonEnvError::NoVariables),
        },
        _ => Err(JsonEnvError::NoVariables),
    }
}

impl EnvSet {
    /// The variables of the JSON that a development shell prints (`nix
    /// print-dev-env --json`), from its bytes: an error when they are not a
    /// JSON document, else the variables of the document.
    pub fn from_json(raw: &[u8]) -> (r: Result<EnvSet, JsonEnvError>)
        ensures
            match json_document(raw@) {
                None => r matches Err(JsonEnvError::NotJson),
                Some(j) => match r {
                    Ok(e) => e.wf() && e.hard_set() == Set::<Seq<char>>::empty() && json_env(j) == Ok::<
                        Map<Seq<char>, Seq<Seq<char>>>,
                        JsonEnvError,
                    >(e.vars_map()),
                    Err(err) => json_env(j) == Err::<Map<Seq<char>, Seq<Seq<char>>>, JsonEnvError>(err),
                },
            },
    {
        match parse_json(raw) {
            Some(j) => EnvSet::from_json_value(&j),
            None => Err(JsonEnvError::NotJson),
        }
    }

    /// The variables of a development shell's JSON document: the string
    /// values of the members of its `variables`, split at `:`, but for the
    /// build environment's own.
    pub fn from_json_value(json: &JsonValue) -> (r: Result<EnvSet, JsonEnvError>)
        ensures
            match r {
                Ok(e) => e.wf() && e.hard_set() == Set::<Seq<char>>::empty() && json_env(*json) == Ok::<
                    Map<Seq<char>, Seq<Seq<char>>>,
                    JsonEnvError,
                >(e.vars_map()),
                Err(err) => json_env(*json) == Err::<Map<Seq<char>, Seq<Seq<char>>>, JsonEnvError>(err),
            },
    {
        let fields = match json {
            JsonValue::Object(fields) => fields,
            _ => {
                return Err(JsonEnvError::NoVariables);
            },
        };
        let vs = match find_member(fields, "variables") {
            Some(JsonValue::Object(vs)) => vs,
            Some(_) => {
                return Err(JsonEnvError::VariablesNotObject);
            },
            None => {
                return Err(JsonEnvError::NoVariables);
            },
        };
        let mut vars: Vec<(String, Vec<String>)> = Vec::new();
        proof {
            lemma_to_map_empty();
        }
        let mut i: usize = 0;
        while i < vs.len()
            invariant
                0 <= i <= vs@.len(),
                keys_distinct(vars.deep_view()),
                to_map(vars.deep_view()) == dev_vars(vs@.take(i as int)),
            decreases vs@.len() - i,
        {
            proof {
                assert(vs@.take(i + 1).drop_last() =~= vs@.take(i as int));
                assert(vs@.take(i + 1).last() == vs@[i as int]);
            }
            let value = match &vs[i].1 {
                JsonValue::Object(entry) => match find_member(entry, "value") {
                    Some(JsonValue::Text(s)) => Some(s),
                    _ => None,
                },
                _ => None,
            };
            match value {
                Some(s) => {
                    if !is_skipped_var(vs[i].0.as_str()) {
                        let sc = chars_of(s.as_str());
                        let parts = split_range(sc.as_slice(), 0, sc.len(), ':');
                        assert(sc@.subrange(0, sc@.len() as int) =~= s@);
                        entry_set(&mut vars, vs[i].0.clone(), parts);
                    }
                },
                None => {},
            }
            i += 1;
        }
        assert(vs@.take(vs@.len() as int) =~= vs@);
        Ok(EnvSet::from_vars(vars))
    }
}

proof fn lemma_dev_vars_lacks(vs: Seq<(String, JsonValue)>, n: Seq<char>)
    requires
        skipped_var(n),
    ensures
        !dev_vars(vs).dom().contains(n),
    decreases vs.len(),
{
    if vs.len() > 0 {
        lemma_dev_vars_lacks(vs.drop_last(), n);
    }
}

/// A development shell's JSON never gives the variables of the build
/// environment itself (the builder's shell, its temporary directories,
/// compilers and tools, `HOME`, `PWD`, `TERM` and the rest named here), so
/// activating a layer loaded from it leaves the user's own alone.
pub proof fn law_builder_vars_skipped(vs: Seq<(String, JsonValue)>, json: JsonValue, n: Seq<char>)
    requires
        n == "SHELL"@ || n == "pkg"@ || n == "prefix"@ || n == "guess"@
            || n == "_substituteStream_has_warned_replace_deprecation"@ || n == "LINENO"@
            || n == "OPTERROR"@ || n == "OLDPWD"@ || n == "BASH"@ || n == "IFS"@ || n == "PS4"@
            || n == "initialPath"@ || n == "out"@ || n == "shell"@ || n == "STRINGS"@
            || n == "stdenv"@ || n == "builder"@ || n == "PWD"@ || n == "SOURCE_DATE_EPOCH"@
            || n == "CXX"@ || n == "TEMPDIR"@ || n == "system"@ || n == "HOST_PATH"@
            || n == "doInstallCheck"@ || n == "buildCommandPath"@ || n == "LS_COLORS"@
            || n == "cmakeFlakes"@ || n == "TMPDIR"@ || n == "LD"@ || n == "READELF"@
            || n == "doCheck"@ || n == "SIZE"@ || n == "propagatedNativeBuildInputs"@
            || n == "strictDeps"@ || n == "AR"@ || n == "AS"@ || n == "TEMP"@ || n == "SHLVL"@
            || n == "NM"@ || n == "patches"@ || n == "passAsFile"@ || n == "buildInputs"@
            || n == "SSL_CERT_FILE"@ || n == "OBJCOPY"@ || n == "STRIP"@ || n == "TMP"@
            || n == "OBJDUMP"@ || n == "propagatedBuildInputs"@ || n == "CC"@
            || n == "__ETC_PROFILE_SOURCED"@ || n == "CONFIG_SHELL"@
            || n == "__structuredAttrs"@ || n == "RANLIB"@ || n == "nativeBuildInputs"@
            || n == "name"@ || n == "TEST"@ || n == "TZ"@ || n == "HOME"@
            || n == "GZIP_NO_TIMESTAMPS"@ || n == "cmakeFlags"@ || n == "TERM"@
            || n == "buildCommand"@ || n == "preferLocalBuild"@
            || n == "dontAddDisableDepTrack"@,
    ensures
        !dev_vars(vs).dom().contains(n),
        json_env(json) matches Ok(m) ==> !m.dom().contains(n),
{
    assert(build_internal(n));
    lemma_dev_vars_lacks(vs, n);
    if let JsonValue::Object(fields) = json {
        if let Some(JsonValue::Object(vars)) = member(fields@, "variables"@) {
            lemma_dev_vars_lacks(vars@, n);
        }
    }
}

/// Nor does it give nix's own variables (`NIX_` names), outputs, inputs,
/// flags, switches, types and dependency lists, by the shape of their names.
pub proof fn law_build_shapes_skipped(vs: Seq<(String, JsonValue)>, json: JsonValue, n: Seq<char>)
    requires
        starts_with(n, "NIX_"@) || starts_with(n, "output"@) || starts_with(n, "deps"@)
            || starts_with(n, "enable"@) || ends_with(n, "Inputs"@) || ends_with(n, "Flags"@)
            || ends_with(n, "TYPE"@),
    ensures
        !dev_vars(vs).dom().contains(n),
        json_env(json) matches Ok(m) ==> !m.dom().contains(n),
{
    lemma_dev_vars_lacks(vs, n);
    if let JsonValue::Object(fields) = json {
        if let Some(JsonValue::Object(vars)) = member(fields@, "variables"@) {
            lemma_dev_vars_lacks(vars@, n);
        }
    }
}

} // verus!
