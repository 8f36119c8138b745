//! `.cade` files: their bytes into directives, a directory's directives,
//! what each directive asks of a layer, and the files a layer depends on.
use vstd::prelude::*;
use vstd::slice::slice_subrange;
use vstd::utf8::{decode_utf8, valid_utf8};
use crate::envrc::{dotenv_path, envrc_path, envrc_watch_files, join, join_path, or_default};
use crate::external::utf8_text;
use crate::parse::{KeywordModel, ParseError, keyword_cut_fits, parse_keyword};
use crate::text::{append, chars_of, decimal, decimal_text, lines};
use crate::types::{CadeAction, Keyword, Loadable};

verus! {

// ---- lines of bytes ----

/// The length of the first line of `raw`: up to its first `\n`, or all of it.
pub open spec fn line_len(raw: Seq<u8>) -> nat
    decreases raw.len(),
{
    if raw.len() == 0 || raw[0] == 10 {
        0
    } else {
        1 + line_len(raw.drop_first())
    }
}

proof fn lemma_line_len(raw: Seq<u8>, m: int)
    requires
        0 <= m <= raw.len(),
        forall|j: int| 0 <= j < m ==> #[trigger] raw[j] != 10,
        m == raw.len() || raw[m] == 10,
    ensures
        line_len(raw) == m,
    decreases m,
{
    if m > 0 {
        assert forall|j: int| 0 <= j < m - 1 implies #[trigger] raw.drop_first()[j] != 10 by {
            assert(raw.drop_first()[j] == raw[j + 1]);
        }
        lemma_line_len(raw.drop_first(), m - 1);
    }
}

/// A line without one trailing `\r`.
pub open spec fn strip_cr_bytes(line: Seq<u8>) -> Seq<u8> {
    if line.len() > 0 && line.last() == 13 {
        line.drop_last()
    } else {
        line
    }
}

// ---- the directives of a file ----

/// Why a `.cade` file is refused, and at which line (counted from 1).
#[derive(Debug)]
pub struct CadeFileError {
    pub line: usize,
    pub kind: CadeLineError,
}

/// What is wrong with a line of a `.cade` file.
#[derive(Debug)]
pub enum CadeLineError {
    /// The line is not UTF-8; the text describes where
    NotUtf8(String),
    /// The line is no directive
    Parse(ParseError),
}

/// What reading a `.cade` file comes to: its directives; a refusal at a
/// line; or a line whose rest cannot be cut after its lowercased keyword
/// (where the keyword parser stops).
pub ghost enum CadeOutcome {
    Directives(Seq<KeywordModel>),
    NotUtf8(nat),
    Refused(nat, ParseError),
    Stuck,
}

/// What reading the text from `raw` on comes to, its first line being
/// line `n`.
pub open spec fn cade_outcome(raw: Seq<u8>, n: nat) -> CadeOutcome
    decreases raw.len(),
{
    let k = line_len(raw);
    if k > raw.len() {
        CadeOutcome::Stuck
    } else {
        let line = strip_cr_bytes(raw.take(k as int));
        let rest = if k < raw.len() {
            cade_outcome(raw.skip(k + 1int), n + 1)
        } else {
            CadeOutcome::Directives(Seq::empty())
        };
        if !valid_utf8(line) {
            CadeOutcome::NotUtf8(n)
        } else if !keyword_cut_fits(decode_utf8(line)) {
            CadeOutcome::Stuck
        } else {
            match parse_keyword(decode_utf8(line)) {
                Ok(m) => match rest {
                    CadeOutcome::Directives(ms) => CadeOutcome::Directives(seq![m] + ms),
                    other => other,
                },
                Err(ParseError::EmptyLine) => rest,
                Err(e) => CadeOutcome::Refused(n, e),
            }
        }
    }
}

/// What reading a `.cade` file's bytes comes to.
pub open spec fn cade_file(raw: Seq<u8>) -> CadeOutcome {
    cade_outcome(raw, 1)
}

/// The directives found before an outcome.
pub open spec fn after(ms: Seq<KeywordModel>, o: CadeOutcome) -> CadeOutcome {
    match o {
        CadeOutcome::Directives(rest) => CadeOutcome::Directives(ms + rest),
        other => other,
    }
}

/// What the directives say.
pub open spec fn keyword_models(ks: Seq<Keyword>) -> Seq<KeywordModel> {
    ks.map_values(|k: Keyword| k.model())
}

/// The outcome a result of reading stands for.
pub open spec fn read_as(r: Result<Vec<Keyword>, CadeFileError>, o: CadeOutcome) -> bool {
    match r {
        Ok(ks) => (forall|i: int| 0 <= i < ks@.len() ==> (#[trigger] ks@[i]).wf())
            && o == CadeOutcome::Directives(keyword_models(ks@)),
        Err(e) => match e.kind {
            CadeLineError::NotUtf8(_) => o == CadeOutcome::NotUtf8(e.line as nat),
            CadeLineError::Parse(p) => o == CadeOutcome::Refused(e.line as nat, p),
        },
    }
}

/// Reads the directives of a `.cade` file's bytes, line by line: a line
/// that is not UTF-8 or not a directive refuses the file; blank lines and
/// comments are skipped; a `\r` before a line's end is dropped. `None`
/// where a line's rest cannot be cut after its lowercased keyword.
pub fn try_parse_cade_file(contents: &[u8]) -> (r: Option<Result<Vec<Keyword>, CadeFileError>>)
    requires
        contents@.len() < usize::MAX,
    ensures
        match r {
            Some(p) => read_as(p, cade_file(contents@)),
            None => cade_file(contents@) is Stuck,
        },
{
    let mut accum: Vec<Keyword> = Vec::new();
    let mut start: usize = 0;
    let mut n: usize = 1;
    assert(contents@.skip(0) =~= contents@);
    loop
        invariant
            start <= contents@.len(),
            1 <= n <= start + 1,
            forall|i: int| 0 <= i < accum@.len() ==> (#[trigger] accum@[i]).wf(),
            contents@.len() < usize::MAX,
            cade_file(contents@) == after(
                keyword_models(accum@),
                cade_outcome(contents@.skip(start as int), n as nat),
            ),
        decreases contents@.len() - start,
    {
        let ghost rest = contents@.skip(start as int);
        let mut end = start;
        while end < contents.len() && contents[end] != 10
            invariant
                start <= end <= contents@.len(),
                forall|j: int| start <= j < end ==> #[trigger] contents@[j] != 10,
            decreases contents@.len() - end,
        {
            end += 1;
        }
        proof {
            assert forall|j: int| 0 <= j < end - start implies #[trigger] rest[j] != 10 by {
                assert(rest[j] == contents@[start + j]);
            }
            if end < contents@.len() {
                assert(rest[end - start] == contents@[end as int]);
            }
            lemma_line_len(rest, end - start);
            assert(rest.take(end - start) =~= contents@.subrange(start as int, end as int));
            if end < contents@.len() {
                assert(rest.skip(end - start + 1) =~= contents@.skip(end + 1));
            }
        }
        let line_end = if end > start && contents[end - 1] == 13 {
            end - 1
        } else {
            end
        };
        let raw = slice_subrange(contents, start, line_end);
        proof {
            let whole = contents@.subrange(start as int, end as int);
            if end > start && contents@[end - 1] == 13 {
                assert(whole.last() == contents@[end - 1]);
                assert(raw@ =~= whole.drop_last());
            } else {
                assert(raw@ =~= whole);
            }
            assert(raw@ == strip_cr_bytes(whole));
        }
        let ghost k = (end - start) as nat;
        let ghost next = if end < contents@.len() {
            cade_outcome(contents@.skip(end + 1), (n + 1) as nat)
        } else {
            CadeOutcome::Directives(Seq::empty())
        };
        assert(line_len(rest) == k);
        assert(cade_outcome(rest, n as nat) == {
            let line = strip_cr_bytes(rest.take(k as int));
            if !valid_utf8(line) {
                CadeOutcome::NotUtf8(n as nat)
            } else if !keyword_cut_fits(decode_utf8(line)) {
                CadeOutcome::Stuck
            } else {
                match parse_keyword(decode_utf8(line)) {
                    Ok(m) => match next {
                        CadeOutcome::Directives(ms) => CadeOutcome::Directives(seq![m] + ms),
                        other => other,
                    },
                    Err(ParseError::EmptyLine) => next,
                    Err(e) => CadeOutcome::Refused(n as nat, e),
                }
            }
        });
        let text = match utf8_text(raw) {
            Ok(t) => t,
            Err(detail) => {
                return Some(Err(CadeFileError { line: n, kind: CadeLineError::NotUtf8(detail) }));
            },
        };
        match Keyword::try_from_str(text.as_str()) {
            None => {
                return None;
            },
            Some(Ok(kw)) => {
                let ghost before = accum@;
                accum.push(kw);
                proof {
                    assert(keyword_models(accum@) =~= keyword_models(before).push(kw.model()));
                    match next {
                        CadeOutcome::Directives(ms) => {
                            assert(keyword_models(before) + (seq![kw.model()] + ms) =~= keyword_models(accum@) + ms);
                        },
                        _ => {},
                    }
                    assert forall|i: int| 0 <= i < accum@.len() implies (#[trigger] accum@[i]).wf() by {
                        if i < before.len() {
                            assert(accum@[i] == before[i]);
                        }
                    }
                }
            },
            Some(Err(ParseError::EmptyLine)) => {},
            Some(Err(e)) => {
                return Some(Err(CadeFileError { line: n, kind: CadeLineError::Parse(e) }));
            },
        }
        if end >= contents.len() {
            proof {
                assert(keyword_models(accum@) + Seq::<KeywordModel>::empty() =~= keyword_models(accum@));
            }
            return Some(Ok(accum));
        }
        start = end + 1;
        n = n + 1;
    }
}

impl CadeFileError {
    /// The message for the file at `path`.
    pub fn message(&self, path: &str) -> (r: String)
        ensures
            r@ == "parse cade file at "@ + path@ + ": line "@ + decimal(self.line as nat) + match self.kind {
                CadeLineError::NotUtf8(d) => " is not valid UTF-8: "@ + d@,
                CadeLineError::Parse(e) => ": "@ + e.message_text(),
            },
    {
        let mut out = "parse cade file at ".to_owned();
        append(&mut out, path);
        append(&mut out, ": line ");
        append(&mut out, decimal_text(self.line as u128).as_str());
        match &self.kind {
            CadeLineError::NotUtf8(d) => {
                append(&mut out, " is not valid UTF-8: ");
                append(&mut out, d.as_str());
            },
            CadeLineError::Parse(e) => {
                append(&mut out, ": ");
                append(&mut out, e.message().as_str());
            },
        }
        out
    }
}

/// The directives of a directory: those of its `.cade` file when it has
/// one (its bytes given), else an implicit `load envrc`.
pub fn config_keywords(cade_bytes: Option<&[u8]>) -> (r: Option<Result<Vec<Keyword>, CadeFileError>>)
    requires
        cade_bytes matches Some(b) ==> b@.len() < usize::MAX,
    ensures
        match cade_bytes {
            Some(b) => match r {
                Some(p) => read_as(p, cade_file(b@)),
                None => cade_file(b@) is Stuck,
            },
            None => r matches Some(Ok(ks)) && ks@.len() == 1 && (ks@[0] matches Keyword::Load(
                Loadable::Envrc(f),
            ) && f@ == Seq::<char>::empty()),
        },
{
    match cade_bytes {
        Some(b) => try_parse_cade_file(b),
        None => {
            let mut ks: Vec<Keyword> = Vec::new();
            ks.push(Keyword::Load(Loadable::Envrc(String::new())));
            Some(Ok(ks))
        },
    }
}

// ---- what a directive asks of its layer ----

/// A load of variables that the caller performs for a layer.
#[derive(Debug)]
pub enum LoadRequest {
    /// The flake of the layer's directory, with an output if one is named
    Flake(Option<String>),
    /// A nix shell file (empty: the default)
    Shell(String),
    /// A `.env` file (empty: the default)
    Env(String),
    /// An `.envrc` file (empty: the default)
    Envrc(String),
    /// The output of a command
    Call(Vec<String>),
}

/// What a directive asks of its layer: an action it gives by itself, a
/// load whose variables the caller adds to the layer, or nothing.
#[derive(Debug)]
pub enum LayerStep {
    Act(CadeAction),
    Load(LoadRequest),
    Skip,
}

/// What a directive asks of its layer: `pure`, hooks, clears, list-like
/// marks and assignments act by themselves; `call` and `load` ask for a
/// load; `watch` only names files to watch.
pub fn plan_keyword(kw: Keyword) -> (r: LayerStep)
    ensures
        match kw {
            Keyword::Pure => r matches LayerStep::Act(CadeAction::Purify),
            Keyword::Call(argv) => r matches LayerStep::Load(LoadRequest::Call(a)) && a@ == argv@,
            Keyword::Load(Loadable::Default) => r matches LayerStep::Load(LoadRequest::Flake(None)),
            Keyword::Load(Loadable::Flake(o)) => r matches LayerStep::Load(
                LoadRequest::Flake(Some(p)),
            ) && p@ == o@,
            Keyword::Load(Loadable::Shell(f)) => r matches LayerStep::Load(LoadRequest::Shell(g))
                && g@ == f@,
            Keyword::Load(Loadable::Env(f)) => r matches LayerStep::Load(LoadRequest::Env(g)) && g@
                == f@,
            Keyword::Load(Loadable::Envrc(f)) => r matches LayerStep::Load(LoadRequest::Envrc(g))
                && g@ == f@,
            Keyword::Hook(h) => r matches LayerStep::Act(CadeAction::Hook(g)) && g == h,
            Keyword::Clear(v) => r matches LayerStep::Act(CadeAction::Clear(w)) && w == v,
            Keyword::Concat(v) => r matches LayerStep::Act(CadeAction::Concat(w)) && w == v,
            Keyword::Assign(e) => r matches LayerStep::Act(CadeAction::Environ(f)) && f == e,
            Keyword::Watch(_) => r is Skip,
        },
{
    match kw {
        Keyword::Pure => LayerStep::Act(CadeAction::Purify),
        Keyword::Call(argv) => LayerStep::Load(LoadRequest::Call(argv)),
        Keyword::Load(loadable) => match loadable {
            Loadable::Default => LayerStep::Load(LoadRequest::Flake(None)),
            Loadable::Flake(output) => LayerStep::Load(LoadRequest::Flake(Some(output))),
            Loadable::Shell(filename) => LayerStep::Load(LoadRequest::Shell(filename)),
            Loadable::Env(filename) => LayerStep::Load(LoadRequest::Env(filename)),
            Loadable::Envrc(filename) => LayerStep::Load(LoadRequest::Envrc(filename)),
        },
        Keyword::Hook(hook) => LayerStep::Act(CadeAction::Hook(hook)),
        Keyword::Clear(vars) => LayerStep::Act(CadeAction::Clear(vars)),
        Keyword::Concat(vars) => LayerStep::Act(CadeAction::Concat(vars)),
        Keyword::Assign(env) => LayerStep::Act(CadeAction::Environ(env)),
        Keyword::Watch(_) => LayerStep::Skip,
    }
}

// ---- the files a layer depends on ----

/// The `.envrc` file each directive would have read for its watches, if it
/// loads one.
pub open spec fn envrc_read(dir: Seq<char>, kw: KeywordModel) -> Option<Seq<char>> {
    match kw {
        KeywordModel::Load(crate::parse::LoadableModel::Envrc(f)) => Some(
            join_path(dir, or_default(f, ".envrc"@)),
        ),
        _ => None,
    }
}

/// The `.envrc` files the directives load, one entry per directive.
pub fn envrc_reads(dir: &str, keywords: &Vec<Keyword>) -> (r: Vec<Option<String>>)
    ensures
        r@.len() == keywords@.len(),
        forall|i: int|
            0 <= i < r@.len() ==> match #[trigger] r@[i] {
                Some(p) => envrc_read(dir@, keywords@[i].model()) == Some(p@),
                None => envrc_read(dir@, keywords@[i].model()) is None,
            },
{
    let mut out: Vec<Option<String>> = Vec::new();
    let mut i: usize = 0;
    while i < keywords.len()
        invariant
            0 <= i <= keywords@.len(),
            out@.len() == i,
            forall|j: int|
                0 <= j < i ==> match #[trigger] out@[j] {
                    Some(p) => envrc_read(dir@, keywords@[j].model()) == Some(p@),
                    None => envrc_read(dir@, keywords@[j].model()) is None,
                },
        decreases keywords@.len() - i,
    {
        let e = match &keywords[i] {
            Keyword::Load(Loadable::Envrc(f)) => Some(envrc_path(dir, f.as_str())),
            _ => None,
        };
        out.push(e);
        i += 1;
    }
    out
}

/// The files one directive makes its layer depend on; an `.envrc` load
/// depends on what its text (when it could be read) loads or watches.
pub open spec fn keyword_files(dir: Seq<char>, kw: KeywordModel, envrc_text: Option<Seq<char>>) -> Seq<
    Seq<char>,
> {
    match kw {
        KeywordModel::Load(l) => match l {
            crate::parse::LoadableModel::Default => seq![
                join_path(dir, "flake.nix"@),
                join_path(dir, "flake.lock"@),
            ],
            crate::parse::LoadableModel::Flake(_) => seq![
                join_path(dir, "flake.nix"@),
                join_path(dir, "flake.lock"@),
            ],
            crate::parse::LoadableModel::Shell(f) => seq![join_path(dir, or_default(f, "shell.nix"@))],
            crate::parse::LoadableModel::Env(f) => seq![join_path(dir, or_default(f, ".env"@))],
            crate::parse::LoadableModel::Envrc(f) => seq![join_path(dir, or_default(f, ".envrc"@))]
                + match envrc_text {
                Some(c) => crate::envrc::directive_files(dir, crate::envrc::envrc_directives(lines(c))),
                None => Seq::empty(),
            },
        },
        KeywordModel::Watch(ws) => crate::envrc::resolved(dir, ws),
        _ => Seq::empty(),
    }
}

/// The files the directives make their layer depend on, in order.
pub open spec fn keywords_files(
    dir: Seq<char>,
    kws: Seq<KeywordModel>,
    texts: Seq<Option<Seq<char>>>,
) -> Seq<Seq<char>>
    decreases kws.len(),
{
    if kws.len() == 0 {
        Seq::empty()
    } else {
        keywords_files(dir, kws.drop_last(), texts) + keyword_files(
            dir,
            kws.last(),
            texts[kws.len() - 1],
        )
    }
}

/// The text that may be absent, as a value.
pub open spec fn opt_view(o: Option<String>) -> Option<Seq<char>> {
    match o {
        Some(s) => Some(s@),
        None => None,
    }
}

/// The files a layer depends on: its `.cade` file, then those of each
/// directive. `envrc_texts` holds, for each directive, the text of the
/// `.envrc` it loads when that could be read.
pub fn watched_files(dir: &str, keywords: &Vec<Keyword>, envrc_texts: &Vec<Option<String>>) -> (r: Vec<
    String,
>)
    requires
        envrc_texts@.len() == keywords@.len(),
    ensures
        r.deep_view() == seq![join_path(dir@, ".cade"@)] + keywords_files(
            dir@,
            keyword_models(keywords@),
            envrc_texts@.map_values(|o: Option<String>| opt_view(o)),
        ),
{
    let ghost texts = envrc_texts@.map_values(|o: Option<String>| opt_view(o));
    let ghost kms = keyword_models(keywords@);
    let mut files: Vec<String> = Vec::new();
    files.push(join(dir, ".cade"));
    let ghost first = files.deep_view();
    assert(first + keywords_files(dir@, kms.take(0), texts) =~= first);
    let mut i: usize = 0;
    while i < keywords.len()
        invariant
            0 <= i <= keywords@.len(),
            envrc_texts@.len() == keywords@.len(),
            texts == envrc_texts@.map_values(|o: Option<String>| opt_view(o)),
            kms == keyword_models(keywords@),
            files.deep_view() == first + keywords_files(dir@, kms.take(i as int), texts),
        decreases keywords@.len() - i,
    {
        proof {
            assert(kms.take(i + 1).drop_last() =~= kms.take(i as int));
            assert(kms.take(i + 1).last() == keywords@[i as int].model());
        }
        let mut extra: Vec<String> = Vec::new();
        match &keywords[i] {
            Keyword::Load(l) => match l {
                Loadable::Default | Loadable::Flake(_) => {
                    extra.push(join(dir, "flake.nix"));
                    extra.push(join(dir, "flake.lock"));
                },
                Loadable::Shell(f) => {
                    if chars_of(f.as_str()).len() == 0 {
                        extra.push(join(dir, "shell.nix"));
                    } else {
                        extra.push(join(dir, f.as_str()));
                    }
                },
                Loadable::Env(f) => {
                    extra.push(dotenv_path(dir, f.as_str()));
                },
                Loadable::Envrc(f) => {
                    let text = match &envrc_texts[i] {
                        Some(t) => Some(t.as_str()),
                        None => None,
                    };
                    extra = envrc_watch_files(dir, f.as_str(), text);
                },
            },
            Keyword::Watch(ws) => {
                let mut j: usize = 0;
                while j < ws.len()
                    invariant
                        0 <= j <= ws@.len(),
                        extra.deep_view() == crate::envrc::resolved(dir@, ws.deep_view().take(j as int)),
                    decreases ws@.len() - j,
                {
                    let ghost b2 = extra.deep_view();
                    let f = join(dir, ws[j].as_str());
                    extra.push(f);
                    assert(extra.deep_view() =~= b2.push(f@));
                    assert(ws.deep_view().take(j + 1) =~= ws.deep_view().take(j as int).push(
                        ws.deep_view()[j as int],
                    ));
                    assert(crate::envrc::resolved(dir@, ws.deep_view().take(j + 1)) =~= crate::envrc::resolved(
                        dir@,
                        ws.deep_view().take(j as int),
                    ).push(join_path(dir@, ws.deep_view()[j as int])));
                    j += 1;
                }
                assert(ws.deep_view().take(ws@.len() as int) =~= ws.deep_view());
            },
            _ => {},
        }
        proof {
            assert(texts[i as int] == opt_view(envrc_texts@[i as int]));
            assert(extra.deep_view() =~= keyword_files(dir@, kms[i as int], texts[i as int]));
        }
        crate::assoc::extend_strings(&mut files, &extra);
        proof {
            assert(files.deep_view() =~= first + keywords_files(dir@, kms.take(i + 1), texts));
        }
        i += 1;
    }
    assert(kms.take(keywords@.len() as int) =~= kms);
    files
}

} // verus!
