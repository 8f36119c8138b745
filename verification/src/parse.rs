//! `.cade` lines into directives.
use vstd::prelude::*;
use vstd::utf8::{decode_utf8, encode_utf8, is_char_boundary};
use crate::envs::envs_state;
use crate::external::{lowercase, shell_words, split_words, to_lowercase};
use crate::text::{
    chars_of, cut_ws, lemma_trim_start_idem, find_char, lemma_split_once_range, lines, skip_ws, split_once,
    str_is, string_of_range, trim, trim_end, trim_range, trim_start, word_end, word_len,
    words, words_range,
};
use crate::types::{EnvSet, HookType, InnerHook, Keyword, Loadable};

verus! {

broadcast use {vstd::utf8::encode_utf8_valid_utf8, vstd::utf8::encode_utf8_decode_utf8};

/// Why a `.cade` line is not a directive.
#[derive(Debug, Clone, Copy, PartialEq, Eq, Structural)]
pub enum ParseError {
    InvalidKeyword,
    UnknownLoadable,
    TooManyOptions,
    TooFewOptions,
    InvalidQuoting,
    EmptyLine,
}

impl ParseError {
    /// The message that describes the error.
    pub open spec fn message_text(self) -> Seq<char> {
        match self {
            ParseError::InvalidKeyword => "invalid keyword"@,
            ParseError::UnknownLoadable => "unknown loadable"@,
            ParseError::TooManyOptions => "too many options"@,
            ParseError::TooFewOptions => "too few options"@,
            ParseError::InvalidQuoting => "unbalanced quotes"@,
            ParseError::EmptyLine => "empty line"@,
        }
    }

    /// The message that describes the error.
    pub fn message(&self) -> (r: String)
        ensures
            r@ == self.message_text(),
    {
        match self {
            ParseError::InvalidKeyword => "invalid keyword".to_owned(),
            ParseError::UnknownLoadable => "unknown loadable".to_owned(),
            ParseError::TooManyOptions => "too many options".to_owned(),
            ParseError::TooFewOptions => "too few options".to_owned(),
            ParseError::InvalidQuoting => "unbalanced quotes".to_owned(),
            ParseError::EmptyLine => "empty line".to_owned(),
        }
    }
}

/// What a `load` directive names.
pub ghost enum LoadableModel {
    Default,
    Flake(Seq<char>),
    Shell(Seq<char>),
    Env(Seq<char>),
    Envrc(Seq<char>),
}

/// What a directive says.
pub ghost enum KeywordModel {
    Pure,
    Call(Seq<Seq<char>>),
    Load(LoadableModel),
    Hook(Seq<char>, HookType),
    Clear(Seq<Seq<char>>),
    Watch(Seq<Seq<char>>),
    Concat(Seq<Seq<char>>),
    Assign(Map<Seq<char>, Seq<Seq<char>>>, Set<Seq<char>>),
}

impl Loadable {
    /// What this loadable names.
    pub open spec fn model(&self) -> LoadableModel {
        match self {
            Loadable::Default => LoadableModel::Default,
            Loadable::Flake(f) => LoadableModel::Flake(f@),
            Loadable::Shell(f) => LoadableModel::Shell(f@),
            Loadable::Env(f) => LoadableModel::Env(f@),
            Loadable::Envrc(f) => LoadableModel::Envrc(f@),
        }
    }
}

impl Keyword {
    /// What this directive says.
    pub open spec fn model(&self) -> KeywordModel {
        match self {
            Keyword::Pure => KeywordModel::Pure,
            Keyword::Call(v) => KeywordModel::Call(v.deep_view()),
            Keyword::Load(l) => KeywordModel::Load(l.model()),
            Keyword::Hook(h) => KeywordModel::Hook(h.content@, h.kind),
            Keyword::Clear(v) => KeywordModel::Clear(v.deep_view()),
            Keyword::Watch(v) => KeywordModel::Watch(v.deep_view()),
            Keyword::Concat(v) => KeywordModel::Concat(v.deep_view()),
            Keyword::Assign(e) => KeywordModel::Assign(e.vars_map(), e.hard_set()),
        }
    }

    /// A variable set inside the directive is well formed.
    pub open spec fn wf(&self) -> bool {
        match self {
            Keyword::Assign(e) => e.wf(),
            _ => true,
        }
    }
}

/// An all-caps env var identifier like `FOO_BAR`, used to tell a bare
/// assignment apart from the lowercase directive keywords.
pub open spec fn assignment_key(k: Seq<char>) -> bool {
    &&& k.len() > 0
    &&& (('A' <= k[0] && k[0] <= 'Z') || k[0] == '_')
    &&& forall|i: int|
        1 <= i < k.len() ==> ('A' <= #[trigger] k[i] && k[i] <= 'Z') || ('0' <= k[i] && k[i]
            <= '9') || k[i] == '_'
}

/// Whether `v[from..to]` is an all-caps identifier.
fn assignment_key_range(v: &[char], from: usize, to: usize) -> (r: bool)
    requires
        from <= to <= v@.len(),
    ensures
        r == assignment_key(v@.subrange(from as int, to as int)),
{
    let ghost k = v@.subrange(from as int, to as int);
    if from == to {
        return false;
    }
    let c = v[from];
    if !(('A' <= c && c <= 'Z') || c == '_') {
        assert(k[0] == c);
        return false;
    }
    let mut i = from + 1;
    while i < to
        invariant
            from < i <= to <= v@.len(),
            k == v@.subrange(from as int, to as int),
            ('A' <= k[0] && k[0] <= 'Z') || k[0] == '_',
            forall|j: int|
                1 <= j < i - from ==> ('A' <= #[trigger] k[j] && k[j] <= 'Z') || ('0' <= k[j]
                    && k[j] <= '9') || k[j] == '_',
        decreases to - i,
    {
        let c = v[i];
        assert(k[i - from] == c);
        if !(('A' <= c && c <= 'Z') || ('0' <= c && c <= '9') || c == '_') {
            return false;
        }
        i += 1;
    }
    true
}

/// an all-caps env var identifier like `FOO_BAR`
pub fn is_assignment_key(k: &str) -> (r: bool)
    ensures
        r == assignment_key(k@),
{
    let v = chars_of(k);
    let r = assignment_key_range(v.as_slice(), 0, v.len());
    assert(v@.subrange(0, v@.len() as int) =~= v@);
    r
}

/// A trimmed line that is a bare `KEY=value` (or `KEY:=value`) assignment:
/// the text before the first `=`, without one trailing `:` and trailing
/// whitespace, is an all-caps identifier.
pub open spec fn assignment_line(t: Seq<char>) -> bool {
    match split_once(t, '=') {
        Some((lhs, _)) => assignment_key(
            trim_end(
                if lhs.len() > 0 && lhs.last() == ':' {
                    lhs.drop_last()
                } else {
                    lhs
                },
            ),
        ),
        None => false,
    }
}

/// The first word of a trimmed line.
pub open spec fn first_word(t: Seq<char>) -> Seq<char> {
    t.take(word_len(t) as int)
}

/// The directive keyword of a line: its first word, lowercased.
pub open spec fn keyword_of(line: Seq<char>) -> Seq<char> {
    lowercase(first_word(trim(line)))
}

/// The length in bytes of a text, as `str::len` reports it.
pub open spec fn byte_len(s: Seq<char>) -> int {
    encode_utf8(s).len() as usize as int
}

/// The line is blank, a comment or an assignment, or the byte length of its
/// lowercased keyword falls on a character boundary of the trimmed line, so
/// that the rest of the line can be cut there.
pub open spec fn keyword_cut_fits(line: Seq<char>) -> bool {
    let t = trim(line);
    ||| t.len() == 0
    ||| t[0] == '#'
    ||| assignment_line(t)
    ||| is_char_boundary(encode_utf8(t), byte_len(keyword_of(line)))
}

/// The arguments of a directive: the trimmed line after as many bytes as
/// its lowercased keyword has, without leading whitespace.
pub open spec fn keyword_rest(line: Seq<char>) -> Seq<char> {
    let t = trim(line);
    let b = encode_utf8(t);
    trim_start(decode_utf8(b.subrange(byte_len(keyword_of(line)), b.len() as int)))
}

/// A `load` directive with the arguments `rest`.
pub open spec fn load_model(rest: Seq<char>) -> Result<KeywordModel, ParseError> {
    let ws = words(rest);
    if ws.len() > 2 {
        Err(ParseError::TooManyOptions)
    } else if ws.len() == 0 {
        Ok(KeywordModel::Load(LoadableModel::Default))
    } else {
        let kind = lowercase(ws[0]);
        let arg = if ws.len() == 2 {
            ws[1]
        } else {
            Seq::empty()
        };
        if kind == "shell"@ {
            Ok(KeywordModel::Load(LoadableModel::Shell(arg)))
        } else if kind == "flake"@ {
            Ok(KeywordModel::Load(LoadableModel::Flake(arg)))
        } else if kind == "env"@ {
            Ok(KeywordModel::Load(LoadableModel::Env(arg)))
        } else if kind == "envrc"@ {
            Ok(KeywordModel::Load(LoadableModel::Envrc(arg)))
        } else {
            Err(ParseError::UnknownLoadable)
        }
    }
}

/// The phase word of a `hook` directive and the command after it.
pub open spec fn hook_split(rest: Seq<char>) -> (Seq<char>, Seq<char>) {
    let n = word_len(rest);
    if n < rest.len() {
        (rest.take(n as int), trim_start(rest.skip(n + 1int)))
    } else {
        (rest, Seq::empty())
    }
}

/// A `hook` directive with the arguments `rest`: a known phase word selects
/// the phase of the command after it; without one the whole of `rest` is a
/// post-load command.
pub open spec fn hook_model(rest: Seq<char>) -> Result<KeywordModel, ParseError> {
    let (phase, command) = hook_split(rest);
    let p = lowercase(phase);
    let (kind, content) = if p == "preload"@ {
        (HookType::LoadPre, command)
    } else if p == "load"@ {
        (HookType::LoadPost, command)
    } else if p == "preunload"@ {
        (HookType::UnloadPre, command)
    } else if p == "unload"@ {
        (HookType::UnloadPost, command)
    } else {
        (HookType::LoadPost, rest)
    };
    if content.len() == 0 {
        Err(ParseError::TooFewOptions)
    } else {
        Ok(KeywordModel::Hook(content, kind))
    }
}

/// A directive whose arguments are shell words.
pub open spec fn quoted_model(rest: Seq<char>, call: bool) -> Result<KeywordModel, ParseError> {
    match shell_words(rest) {
        None => Err(ParseError::InvalidQuoting),
        Some(ws) => if ws.len() == 0 {
            Err(ParseError::TooFewOptions)
        } else if call {
            Ok(KeywordModel::Call(ws))
        } else {
            Ok(KeywordModel::Watch(ws))
        },
    }
}

/// A directive whose arguments are whitespace-separated names.
pub open spec fn names_model(rest: Seq<char>, clear: bool) -> Result<KeywordModel, ParseError> {
    let ws = words(rest);
    if ws.len() == 0 {
        Err(ParseError::TooFewOptions)
    } else if clear {
        Ok(KeywordModel::Clear(ws))
    } else {
        Ok(KeywordModel::Concat(ws))
    }
}

/// What a `.cade` line says.
pub open spec fn parse_keyword(line: Seq<char>) -> Result<KeywordModel, ParseError> {
    let t = trim(line);
    if t.len() == 0 || t[0] == '#' {
        Err(ParseError::EmptyLine)
    } else if assignment_line(t) {
        match envs_state(lines(t)) {
            Ok((vars, hard)) => Ok(KeywordModel::Assign(vars, hard)),
            Err(_) => Err(ParseError::InvalidKeyword),
        }
    } else {
        let kw = keyword_of(line);
        let rest = keyword_rest(line);
        if kw == "pure"@ {
            Ok(KeywordModel::Pure)
        } else if kw == "call"@ {
            quoted_model(rest, true)
        } else if kw == "load"@ {
            load_model(rest)
        } else if kw == "hook"@ {
            hook_model(rest)
        } else if kw == "clear"@ {
            names_model(rest, true)
        } else if kw == "watch"@ {
            quoted_model(rest, false)
        } else if kw == "concat"@ {
            names_model(rest, false)
        } else {
            Err(ParseError::InvalidKeyword)
        }
    }
}

/// A parse result and the model of a line agree.
pub open spec fn parsed_as(r: Result<Keyword, ParseError>, m: Result<KeywordModel, ParseError>) -> bool {
    match r {
        Ok(k) => k.wf() && m == Ok::<KeywordModel, ParseError>(k.model()),
        Err(e) => m == Err::<KeywordModel, ParseError>(e),
    }
}

/// The trimmed range of `s`, whether it is blank or a comment, and whether
/// it is an assignment.
fn line_head(v: &Vec<char>) -> (r: (usize, usize, bool, bool))
    ensures
        r.0 <= r.1 <= v@.len(),
        v@.subrange(r.0 as int, r.1 as int) == trim(v@),
        r.2 == (trim(v@).len() == 0 || trim(v@)[0] == '#'),
        !r.2 ==> r.3 == assignment_line(trim(v@)),
{
    let (a, b) = trim_range(v.as_slice(), 0, v.len());
    assert(v@.subrange(0, v@.len() as int) =~= v@);
    let ghost t = v@.subrange(a as int, b as int);
    if a == b || v[a] == '#' {
        return (a, b, true, false);
    }
    let found = find_char(v.as_slice(), a, b, '=');
    proof {
        lemma_split_once_range(v@, a as int, b as int, '=', found);
    }
    match found {
        None => (a, b, false, false),
        Some(i) => {
            let lhs_end = if i > a && v[i - 1] == ':' {
                i - 1
            } else {
                i
            };
            proof {
                if i > a && v@[i - 1] == ':' {
                    assert(v@.subrange(a as int, i as int).drop_last() =~= v@.subrange(
                        a as int,
                        lhs_end as int,
                    ));
                }
            }
            let key_end = cut_ws(v.as_slice(), a, lhs_end);
            (a, b, false, assignment_key_range(v.as_slice(), a, key_end))
        },
    }
}

/// Whether the rest of the line can be cut after its lowercased keyword.
pub fn keyword_cut_ok(s: &str) -> (r: bool)
    ensures
        r == keyword_cut_fits(s@),
{
    let v = chars_of(s);
    let (a, b, blank, assign) = line_head(&v);
    if blank || assign {
        return true;
    }
    let we = word_end(v.as_slice(), a, b);
    let w = string_of_range(v.as_slice(), a, we);
    assert(w@ == first_word(trim(s@))) by {
        assert(v@.subrange(a as int, b as int).take(we - a) =~= v@.subrange(a as int, we as int));
    }
    let kw = to_lowercase(w.as_str());
    let t = string_of_range(v.as_slice(), a, b);
    let n = kw.as_str().len();
    t.as_str().is_char_boundary(n)
}

impl Keyword {
    /// Parses one `.cade` line. A bare `KEY=value` (or `KEY:=value`) with an
    /// all-caps key is an assignment; otherwise the first word, lowercased,
    /// selects the directive and the rest of the line holds its arguments.
    pub fn from_str(s: &str) -> (r: Result<Keyword, ParseError>)
        requires
            keyword_cut_fits(s@),
        ensures
            parsed_as(r, parse_keyword(s@)),
    {
        let v = chars_of(s);
        let (a, b, blank, assign) = line_head(&v);
        if blank {
            return Err(ParseError::EmptyLine);
        }
        let t = string_of_range(v.as_slice(), a, b);
        if assign {
            return match EnvSet::from_envs(t.as_str()) {
                Ok(env) => Ok(Keyword::Assign(env)),
                Err(_) => Err(ParseError::InvalidKeyword),
            };
        }
        let we = word_end(v.as_slice(), a, b);
        let w = string_of_range(v.as_slice(), a, we);
        assert(w@ == first_word(trim(s@))) by {
            assert(v@.subrange(a as int, b as int).take(we - a) =~= v@.subrange(
                a as int,
                we as int,
            ));
        }
        let kw = to_lowercase(w.as_str());
        let n = kw.as_str().len();
        assert(t@ == trim(s@));
        assert(n as int == byte_len(keyword_of(s@)));
        let (_, tail) = t.as_str().split_at(n);
        let tv = chars_of(tail);
        let r0 = skip_ws(tv.as_slice(), 0, tv.len());
        proof {
            assert(tv@.subrange(0, tv@.len() as int) =~= tv@);
            assert(decode_utf8(encode_utf8(tail@)) == tail@);
            assert(encode_utf8(tail@) == encode_utf8(trim(s@)).subrange(
                n as int,
                encode_utf8(trim(s@)).len() as int,
            ));
            assert(tv@.subrange(r0 as int, tv@.len() as int) == keyword_rest(s@));
        }
        let ghost rest = keyword_rest(s@);
        proof {
            lemma_trim_start_idem(
                decode_utf8(
                    encode_utf8(trim(s@)).subrange(
                        byte_len(keyword_of(s@)),
                        encode_utf8(trim(s@)).len() as int,
                    ),
                ),
            );
        }
        let kw = kw.as_str();
        if str_is(kw, "pure") {
            Ok(Keyword::Pure)
        } else if str_is(kw, "call") {
            quoted_directive(&tv, r0, true)
        } else if str_is(kw, "load") {
            load_directive(&tv, r0)
        } else if str_is(kw, "hook") {
            hook_directive(&tv, r0)
        } else if str_is(kw, "clear") {
            names_directive(&tv, r0, true)
        } else if str_is(kw, "watch") {
            quoted_directive(&tv, r0, false)
        } else if str_is(kw, "concat") {
            names_directive(&tv, r0, false)
        } else {
            Err(ParseError::InvalidKeyword)
        }
    }

    /// Parses one `.cade` line, or gives `None` for a line whose rest cannot
    /// be cut after its lowercased keyword.
    pub fn try_from_str(s: &str) -> (r: Option<Result<Keyword, ParseError>>)
        ensures
            match r {
                Some(p) => keyword_cut_fits(s@) && parsed_as(p, parse_keyword(s@)),
                None => !keyword_cut_fits(s@),
            },
    {
        if keyword_cut_ok(s) {
            Some(Keyword::from_str(s))
        } else {
            None
        }
    }
}

/// A `call` or `watch` directive with arguments `tv[r0..]`, split at shell
/// words.
fn quoted_directive(tv: &Vec<char>, r0: usize, call: bool) -> (r: Result<Keyword, ParseError>)
    requires
        r0 <= tv@.len(),
    ensures
        parsed_as(r, quoted_model(tv@.subrange(r0 as int, tv@.len() as int), call)),
{
    let rs = string_of_range(tv.as_slice(), r0, tv.len());
    // split respecting shell quoting
    match split_words(rs.as_str()) {
        None => Err(ParseError::InvalidQuoting),
        Some(target) => {
            if target.len() == 0 {
                Err(ParseError::TooFewOptions)
            } else if call {
                Ok(Keyword::Call(target))
            } else {
                Ok(Keyword::Watch(target))
            }
        },
    }
}

/// A `clear` or `concat` directive with arguments `tv[r0..]`, split at
/// whitespace.
fn names_directive(tv: &Vec<char>, r0: usize, clear: bool) -> (r: Result<Keyword, ParseError>)
    requires
        r0 <= tv@.len(),
    ensures
        parsed_as(r, names_model(tv@.subrange(r0 as int, tv@.len() as int), clear)),
{
    let vars = words_range(tv.as_slice(), r0, tv.len());
    if vars.len() == 0 {
        Err(ParseError::TooFewOptions)
    } else if clear {
        Ok(Keyword::Clear(vars))
    } else {
        Ok(Keyword::Concat(vars))
    }
}

/// The `load` directive with arguments `tv[r0..]`.
fn load_directive(tv: &Vec<char>, r0: usize) -> (r: Result<Keyword, ParseError>)
    requires
        r0 <= tv@.len(),
    ensures
        parsed_as(r, load_model(tv@.subrange(r0 as int, tv@.len() as int))),
{
    let rest = words_range(tv.as_slice(), r0, tv.len());
    if rest.len() > 2 {
        return Err(ParseError::TooManyOptions);
    }
    if rest.len() == 0 {
        return Ok(Keyword::Load(Loadable::Default));
    }
    let kind = to_lowercase(rest[0].as_str());
    let arg = if rest.len() == 2 {
        rest[1].clone()
    } else {
        String::new()
    };
    let kind = kind.as_str();
    if str_is(kind, "shell") {
        Ok(Keyword::Load(Loadable::Shell(arg)))
    } else if str_is(kind, "flake") {
        Ok(Keyword::Load(Loadable::Flake(arg)))
    } else if str_is(kind, "env") {
        Ok(Keyword::Load(Loadable::Env(arg)))
    } else if str_is(kind, "envrc") {
        Ok(Keyword::Load(Loadable::Envrc(arg)))
    } else {
        Err(ParseError::UnknownLoadable)
    }
}

/// The `hook` directive with arguments `tv[r0..]`.
fn hook_directive(tv: &Vec<char>, r0: usize) -> (r: Result<Keyword, ParseError>)
    requires
        r0 <= tv@.len(),
        tv@.subrange(r0 as int, tv@.len() as int) == trim_start(
            tv@.subrange(r0 as int, tv@.len() as int),
        ),
    ensures
        parsed_as(r, hook_model(tv@.subrange(r0 as int, tv@.len() as int))),
{
    let ghost rest = tv@.subrange(r0 as int, tv@.len() as int);
    let len = tv.len();
    let pe = word_end(tv.as_slice(), r0, len);
    // first token is the lifecycle phase, rest is the command
    let (phase, cs) = if pe < len {
        let cs = skip_ws(tv.as_slice(), pe + 1, len);
        assert(rest.take(pe - r0) =~= tv@.subrange(r0 as int, pe as int));
        assert(rest.skip(pe - r0 + 1) =~= tv@.subrange(pe + 1, len as int));
        (string_of_range(tv.as_slice(), r0, pe), cs)
    } else {
        (string_of_range(tv.as_slice(), r0, len), len)
    };
    assert(phase@ == hook_split(rest).0);
    assert(tv@.subrange(cs as int, len as int) == hook_split(rest).1);
    let p = to_lowercase(phase.as_str());
    let p = p.as_str();
    let (kind, from) = if str_is(p, "preload") {
        (HookType::LoadPre, cs)
    } else if str_is(p, "load") {
        (HookType::LoadPost, cs)
    } else if str_is(p, "preunload") {
        (HookType::UnloadPre, cs)
    } else if str_is(p, "unload") {
        (HookType::UnloadPost, cs)
    } else {
        // no phase given, treat the whole line as a post-load command
        (HookType::LoadPost, r0)
    };
    if from == len {
        return Err(ParseError::TooFewOptions);
    }
    let content = string_of_range(tv.as_slice(), from, len);
    Ok(Keyword::Hook(InnerHook { kind, content }))
}

/// A `hook` directive's phase word picks when its command runs, in any
/// case of its letters: `preload` before the load, `load` after it,
/// `preunload` before the unload and `unload` after it; the command is the
/// text after the phase word and its whitespace. Any other first word is
/// part of a command that runs after the load.
pub proof fn law_hook_phases(phase: Seq<char>, sep: char, cmd: Seq<char>)
    requires
        phase.len() > 0,
        forall|i: int| 0 <= i < phase.len() ==> !crate::text::is_ws(#[trigger] phase[i]),
        crate::text::is_ws(sep),
        trim_start(cmd).len() > 0,
    ensures
        lowercase(phase) == "preload"@ ==> hook_model(phase + seq![sep] + cmd) == Ok::<
            KeywordModel,
            ParseError,
        >(KeywordModel::Hook(trim_start(cmd), HookType::LoadPre)),
        lowercase(phase) == "load"@ ==> hook_model(phase + seq![sep] + cmd) == Ok::<
            KeywordModel,
            ParseError,
        >(KeywordModel::Hook(trim_start(cmd), HookType::LoadPost)),
        lowercase(phase) == "preunload"@ ==> hook_model(phase + seq![sep] + cmd) == Ok::<
            KeywordModel,
            ParseError,
        >(KeywordModel::Hook(trim_start(cmd), HookType::UnloadPre)),
        lowercase(phase) == "unload"@ ==> hook_model(phase + seq![sep] + cmd) == Ok::<
            KeywordModel,
            ParseError,
        >(KeywordModel::Hook(trim_start(cmd), HookType::UnloadPost)),
        lowercase(phase) != "preload"@ && lowercase(phase) != "load"@ && lowercase(phase)
            != "preunload"@ && lowercase(phase) != "unload"@ ==> hook_model(phase + seq![sep] + cmd)
            == Ok::<KeywordModel, ParseError>(
            KeywordModel::Hook(phase + seq![sep] + cmd, HookType::LoadPost),
        ),
{
    reveal_strlit("preload");
    reveal_strlit("load");
    reveal_strlit("preunload");
    reveal_strlit("unload");
    let s = phase + seq![sep] + cmd;
    let n = phase.len() as int;
    assert forall|j: int| 0 <= j < n implies !crate::text::is_ws(#[trigger] s[j]) by {
        assert(s[j] == phase[j]);
    }
    assert(s[n] == sep);
    crate::text::lemma_word_len(s, n);
    assert(s.take(n) =~= phase);
    assert(s.skip(n + 1) =~= cmd);
    assert(hook_split(s) == (phase, trim_start(cmd)));
    assert("load"@.len() == 4 && "preload"@.len() == 7 && "unload"@.len() == 6
        && "preunload"@.len() == 9);
}

/// The keyword of a directive line (its first word, in any case) picks the
/// directive: `pure`; `hook` and `load` with their arguments; `clear` and
/// `concat` with the names after them; `call` and `watch` with the shell
/// words after them.
pub proof fn law_keyword_dispatch(line: Seq<char>)
    requires
        trim(line).len() > 0,
        trim(line)[0] != '#',
        !assignment_line(trim(line)),
    ensures
        keyword_of(line) == "pure"@ ==> parse_keyword(line) == Ok::<KeywordModel, ParseError>(
            KeywordModel::Pure,
        ),
        keyword_of(line) == "hook"@ ==> parse_keyword(line) == hook_model(keyword_rest(line)),
        keyword_of(line) == "load"@ ==> parse_keyword(line) == load_model(keyword_rest(line)),
        keyword_of(line) == "clear"@ && words(keyword_rest(line)).len() > 0 ==> parse_keyword(line)
            == Ok::<KeywordModel, ParseError>(KeywordModel::Clear(words(keyword_rest(line)))),
        keyword_of(line) == "concat"@ && words(keyword_rest(line)).len() > 0 ==> parse_keyword(line)
            == Ok::<KeywordModel, ParseError>(KeywordModel::Concat(words(keyword_rest(line)))),
        keyword_of(line) == "call"@ ==> match shell_words(keyword_rest(line)) {
            Some(ws) => ws.len() > 0 ==> parse_keyword(line) == Ok::<KeywordModel, ParseError>(
                KeywordModel::Call(ws),
            ),
            None => parse_keyword(line) == Err::<KeywordModel, ParseError>(ParseError::InvalidQuoting),
        },
        keyword_of(line) == "watch"@ ==> match shell_words(keyword_rest(line)) {
            Some(ws) => ws.len() > 0 ==> parse_keyword(line) == Ok::<KeywordModel, ParseError>(
                KeywordModel::Watch(ws),
            ),
            None => parse_keyword(line) == Err::<KeywordModel, ParseError>(ParseError::InvalidQuoting),
        },
{
    reveal_strlit("pure");
    reveal_strlit("call");
    reveal_strlit("load");
    reveal_strlit("hook");
    reveal_strlit("clear");
    reveal_strlit("watch");
    reveal_strlit("concat");
    assert("pure"@[0] != "call"@[0] && "pure"@[0] != "load"@[0] && "pure"@[0] != "hook"@[0]);
    assert("call"@[0] != "load"@[0] && "call"@[0] != "hook"@[0] && "load"@[0] != "hook"@[0]);
    assert("clear"@[1] != "call"@[1] && "concat"@[1] != "call"@[1] && "concat"@[1] != "clear"@[1]);
    assert("watch"@.len() == 5 && "clear"@.len() == 5 && "concat"@.len() == 6);
    assert("watch"@[0] != "clear"@[0]);
}

} // verus!
