//! Shell output: statements that set and unset variables and run hooks,
//! with keys checked and values quoted so that nothing is expanded.
use vstd::prelude::*;
use crate::external::{
    hex_digit, json_escape_char, json_escaped, json_string, json_text, lowercase, to_lowercase,
};
use crate::text::{append, append_char, chars_of, concat, str_is};

verus! {

/// An ASCII letter.
pub open spec fn is_ascii_alpha(c: char) -> bool {
    ('a' <= c && c <= 'z') || ('A' <= c && c <= 'Z')
}

/// An ASCII letter or digit.
pub open spec fn is_ascii_alnum(c: char) -> bool {
    is_ascii_alpha(c) || ('0' <= c && c <= '9')
}

/// A valid env var identifier: a letter or `_`, then letters, digits and `_`.
pub open spec fn valid_key(k: Seq<char>) -> bool {
    &&& k.len() > 0
    &&& (is_ascii_alpha(k[0]) || k[0] == '_')
    &&& forall|i: int| 1 <= i < k.len() ==> is_ascii_alnum(#[trigger] k[i]) || k[i] == '_'
}

/// A valid env var identifier. Prevents breakout
pub fn is_valid_key(key: &str) -> (r: bool)
    ensures
        r == valid_key(key@),
{
    let v = chars_of(key);
    if v.len() == 0 {
        return false;
    }
    let c = v[0];
    if !(('a' <= c && c <= 'z') || ('A' <= c && c <= 'Z') || c == '_') {
        return false;
    }
    let mut i: usize = 1;
    while i < v.len()
        invariant
            1 <= i <= v@.len(),
            v@ == key@,
            forall|j: int| 1 <= j < i ==> is_ascii_alnum(#[trigger] v@[j]) || v@[j] == '_',
        decreases v@.len() - i,
    {
        let c = v[i];
        if !(('a' <= c && c <= 'z') || ('A' <= c && c <= 'Z') || ('0' <= c && c <= '9') || c
            == '_') {
            return false;
        }
        i += 1;
    }
    true
}

/// How a quoting style writes each character of a value.
#[derive(Clone, Copy)]
pub enum Escape {
    /// POSIX single quotes: `'` becomes `'\''`
    Posix,
    /// fish single quotes: `\` and `'` get a backslash
    Fish,
    /// elvish single quotes: `'` is doubled
    Elvish,
    /// murex single quotes: `'` is dropped
    Drop,
}

/// The text that stands for `c` inside quotes of style `e`.
pub open spec fn escape_char(e: Escape, c: char) -> Seq<char> {
    match e {
        Escape::Posix => if c == '\'' {
            seq!['\'', '\\', '\'', '\'']
        } else {
            seq![c]
        },
        Escape::Fish => if c == '\\' {
            seq!['\\', '\\']
        } else if c == '\'' {
            seq!['\\', '\'']
        } else {
            seq![c]
        },
        Escape::Elvish => if c == '\'' {
            seq!['\'', '\'']
        } else {
            seq![c]
        },
        Escape::Drop => if c == '\'' {
            Seq::empty()
        } else {
            seq![c]
        },
    }
}

/// Each character of `s` written in quote style `e`.
pub open spec fn escape(e: Escape, s: Seq<char>) -> Seq<char>
    decreases s.len(),
{
    if s.len() == 0 {
        Seq::empty()
    } else {
        escape(e, s.drop_last()) + escape_char(e, s.last())
    }
}

/// `s` in POSIX single quotes.
pub open spec fn posix_quote(s: Seq<char>) -> Seq<char> {
    seq!['\''] + escape(Escape::Posix, s) + seq!['\'']
}

/// Each character of `s` written in quote style `e`.
pub fn escape_with(e: Escape, s: &str) -> (r: String)
    ensures
        r@ == escape(e, s@),
{
    let v = chars_of(s);
    let mut out = String::new();
    let mut i: usize = 0;
    while i < v.len()
        invariant
            0 <= i <= v@.len(),
            v@ == s@,
            out@ == escape(e, v@.take(i as int)),
        decreases v@.len() - i,
    {
        let c = v[i];
        let ghost before = out@;
        match e {
            Escape::Posix => {
                if c == '\'' {
                    append_char(&mut out, '\'');
                    append_char(&mut out, '\\');
                    append_char(&mut out, '\'');
                    append_char(&mut out, '\'');
                } else {
                    append_char(&mut out, c);
                }
            },
            Escape::Fish => {
                if c == '\\' {
                    append_char(&mut out, '\\');
                    append_char(&mut out, '\\');
                } else if c == '\'' {
                    append_char(&mut out, '\\');
                    append_char(&mut out, '\'');
                } else {
                    append_char(&mut out, c);
                }
            },
            Escape::Elvish => {
                if c == '\'' {
                    append_char(&mut out, '\'');
                    append_char(&mut out, '\'');
                } else {
                    append_char(&mut out, c);
                }
            },
            Escape::Drop => {
                if c != '\'' {
                    append_char(&mut out, c);
                }
            },
        }
        proof {
            assert(v@.take(i + 1).drop_last() =~= v@.take(i as int));
            assert(out@ =~= before + escape_char(e, c));
        }
        i += 1;
    }
    assert(v@.take(v@.len() as int) =~= v@);
    out
}

/// wrap single quote in '...', encoding embedded quotes with backslash
pub fn posix_single_quote(s: &str) -> (r: String)
    ensures
        r@ == posix_quote(s@),
{
    let body = escape_with(Escape::Posix, s);
    let mut out = String::new();
    append_char(&mut out, '\'');
    append(&mut out, body.as_str());
    append_char(&mut out, '\'');
    assert(out@ =~= posix_quote(s@));
    out
}

/// Escaping distributes over concatenation.
pub proof fn lemma_escape_concat(e: Escape, a: Seq<char>, b: Seq<char>)
    ensures
        escape(e, a + b) == escape(e, a) + escape(e, b),
    decreases b.len(),
{
    if b.len() == 0 {
        assert(a + b =~= a);
        assert(escape(e, a) + escape(e, b) =~= escape(e, a));
    } else {
        lemma_escape_concat(e, a, b.drop_last());
        assert((a + b).drop_last() =~= a + b.drop_last());
        assert((a + b).last() == b.last());
        assert(escape(e, a + b) =~= escape(e, a) + escape(e, b));
    }
}

/// The value a POSIX shell reads from a word made only of single-quoted
/// runs and backslash-escaped characters (`quoted` tells whether a quote is
/// open); `None` when the word holds anything else outside quotes, which
/// could expand, or leaves a quote open.
pub open spec fn read_posix_word(w: Seq<char>, quoted: bool) -> Option<Seq<char>>
    decreases w.len(),
{
    if w.len() == 0 {
        if quoted {
            None
        } else {
            Some(Seq::empty())
        }
    } else if quoted {
        if w[0] == '\'' {
            read_posix_word(w.drop_first(), false)
        } else {
            match read_posix_word(w.drop_first(), true) {
                Some(r) => Some(seq![w[0]] + r),
                None => None,
            }
        }
    } else if w[0] == '\'' {
        read_posix_word(w.drop_first(), true)
    } else if w[0] == '\\' && w.len() >= 2 {
        match read_posix_word(w.skip(2), false) {
            Some(r) => Some(seq![w[1]] + r),
            None => None,
        }
    } else {
        None
    }
}

proof fn lemma_read_posix_escaped(s: Seq<char>, rest: Seq<char>)
    ensures
        read_posix_word(escape(Escape::Posix, s) + rest, true) == match read_posix_word(
            rest,
            true,
        ) {
            Some(r) => Some(s + r),
            None => None::<Seq<char>>,
        },
    decreases s.len(),
{
    if s.len() == 0 {
        assert(escape(Escape::Posix, s) + rest =~= rest);
        if let Some(r) = read_posix_word(rest, true) {
            assert(s + r =~= r);
        }
    } else {
        let c = s[0];
        let t = s.drop_first();
        assert(s =~= seq![c] + t);
        lemma_escape_concat(Escape::Posix, seq![c], t);
        assert(escape(Escape::Posix, seq![c]) =~= escape_char(Escape::Posix, c)) by {
            assert(seq![c].drop_last() =~= Seq::<char>::empty());
            assert(seq![c].last() == c);
            assert(escape(Escape::Posix, Seq::<char>::empty()) =~= Seq::<char>::empty());
        }
        lemma_read_posix_escaped(t, rest);
        let w = escape(Escape::Posix, s) + rest;
        let tail = escape(Escape::Posix, t) + rest;
        if c == '\'' {
            assert(w =~= seq!['\'', '\\', '\'', '\''] + tail);
            let w1 = w.drop_first();
            assert(w1 =~= seq!['\\', '\'', '\''] + tail);
            let w2 = w1.skip(2);
            assert(w2 =~= seq!['\''] + tail);
            assert(w2.drop_first() =~= tail);
            assert(read_posix_word(w2, false) == read_posix_word(tail, true));
            assert(read_posix_word(w1, false) == match read_posix_word(w2, false) {
                Some(r) => Some(seq!['\''] + r),
                None => None::<Seq<char>>,
            });
            assert(read_posix_word(w, true) == read_posix_word(w1, false));
        } else {
            assert(w =~= seq![c] + tail);
            assert(w.drop_first() =~= tail);
            assert(read_posix_word(w, true) == match read_posix_word(tail, true) {
                Some(r) => Some(seq![c] + r),
                None => None::<Seq<char>>,
            });
        }
        if let Some(r) = read_posix_word(rest, true) {
            assert(seq![c] + (t + r) =~= s + r);
        }
    }
}

/// A value in POSIX single quotes reads back as exactly that value, and
/// nothing in it stands outside quotes where the shell could expand it.
pub proof fn law_posix_quote_reads_back(s: Seq<char>)
    ensures
        read_posix_word(posix_quote(s), false) == Some(s),
{
    let w = posix_quote(s);
    let q = seq!['\''];
    assert(w.drop_first() =~= escape(Escape::Posix, s) + q);
    lemma_read_posix_escaped(s, q);
    assert(q.drop_first() =~= Seq::<char>::empty());
    assert(read_posix_word(Seq::<char>::empty(), false) == Some(Seq::<char>::empty()));
    assert(read_posix_word(q, true) == read_posix_word(Seq::<char>::empty(), false));
    assert(s + Seq::<char>::empty() =~= s);
    assert(read_posix_word(w, false) == read_posix_word(w.drop_first(), true));
}

/// The shells cade writes for.
#[derive(Debug, Clone, Copy, PartialEq, Eq, Structural)]
pub enum ShellName {
    Fish,
    Bash,
    Zsh,
    Nushell,
    Elvish,
    Murex,
}

/// The shell a name stands for, compared without case.
pub open spec fn shell_named(s: Seq<char>) -> Option<ShellName> {
    let l = lowercase(s);
    if l == "fish"@ {
        Some(ShellName::Fish)
    } else if l == "bash"@ {
        Some(ShellName::Bash)
    } else if l == "zsh"@ {
        Some(ShellName::Zsh)
    } else if l == "nushell"@ || l == "nu"@ {
        Some(ShellName::Nushell)
    } else if l == "elvish"@ {
        Some(ShellName::Elvish)
    } else if l == "murex"@ {
        Some(ShellName::Murex)
    } else {
        None
    }
}

impl ShellName {
    /// The name of the shell.
    pub open spec fn name_text(self) -> Seq<char> {
        match self {
            ShellName::Fish => "fish"@,
            ShellName::Bash => "bash"@,
            ShellName::Zsh => "zsh"@,
            ShellName::Nushell => "nushell"@,
            ShellName::Elvish => "elvish"@,
            ShellName::Murex => "murex"@,
        }
    }

    /// The name of the shell.
    pub fn name(&self) -> (r: String)
        ensures
            r@ == self.name_text(),
    {
        match self {
            ShellName::Fish => "fish".to_owned(),
            ShellName::Bash => "bash".to_owned(),
            ShellName::Zsh => "zsh".to_owned(),
            ShellName::Nushell => "nushell".to_owned(),
            ShellName::Elvish => "elvish".to_owned(),
            ShellName::Murex => "murex".to_owned(),
        }
    }

    /// The shell named `s` (`nu` also names nushell), compared without case.
    pub fn parse(s: &str) -> (r: Result<ShellName, String>)
        ensures
            match r {
                Ok(n) => shell_named(s@) == Some(n),
                Err(msg) => shell_named(s@) is None && msg@ == "unknown shell: "@ + s@,
            },
    {
        let l = to_lowercase(s);
        let l = l.as_str();
        if str_is(l, "fish") {
            Ok(ShellName::Fish)
        } else if str_is(l, "bash") {
            Ok(ShellName::Bash)
        } else if str_is(l, "zsh") {
            Ok(ShellName::Zsh)
        } else if str_is(l, "nushell") || str_is(l, "nu") {
            Ok(ShellName::Nushell)
        } else if str_is(l, "elvish") {
            Ok(ShellName::Elvish)
        } else if str_is(l, "murex") {
            Ok(ShellName::Murex)
        } else {
            Err(concat("unknown shell: ", s))
        }
    }

    /// The writer of statements for this shell. What it writes is what
    /// the shell name itself writes through its own `ShellOutput` impl.
    pub fn get_output(&self) -> Box<dyn ShellOutput> {
        match self {
            ShellName::Fish => Box::new(Fish),
            ShellName::Bash => Box::new(Bash),
            ShellName::Zsh => Box::new(Zsh),
            ShellName::Nushell => Box::new(Nushell),
            ShellName::Elvish => Box::new(Elvish),
            ShellName::Murex => Box::new(Murex),
        }
    }
}

/// A shell name writes the statements of its shell.
impl ShellOutput for ShellName {
    open spec fn spec_set_env(&self, key: Seq<char>, value: Seq<char>) -> Seq<char> {
        match *self {
            ShellName::Fish => Fish.spec_set_env(key, value),
            ShellName::Bash => Bash.spec_set_env(key, value),
            ShellName::Zsh => Zsh.spec_set_env(key, value),
            ShellName::Nushell => Nushell.spec_set_env(key, value),
            ShellName::Elvish => Elvish.spec_set_env(key, value),
            ShellName::Murex => Murex.spec_set_env(key, value),
        }
    }

    open spec fn spec_unset_env(&self, key: Seq<char>) -> Seq<char> {
        match *self {
            ShellName::Fish => Fish.spec_unset_env(key),
            ShellName::Bash => Bash.spec_unset_env(key),
            ShellName::Zsh => Zsh.spec_unset_env(key),
            ShellName::Nushell => Nushell.spec_unset_env(key),
            ShellName::Elvish => Elvish.spec_unset_env(key),
            ShellName::Murex => Murex.spec_unset_env(key),
        }
    }

    open spec fn spec_emit_hook(&self, command: Seq<char>) -> Seq<char> {
        match *self {
            ShellName::Fish => Fish.spec_emit_hook(command),
            ShellName::Bash => Bash.spec_emit_hook(command),
            ShellName::Zsh => Zsh.spec_emit_hook(command),
            ShellName::Nushell => Nushell.spec_emit_hook(command),
            ShellName::Elvish => Elvish.spec_emit_hook(command),
            ShellName::Murex => Murex.spec_emit_hook(command),
        }
    }

    open spec fn spec_hook_init(&self) -> Seq<char> {
        match *self {
            ShellName::Fish => Fish.spec_hook_init(),
            ShellName::Bash => Bash.spec_hook_init(),
            ShellName::Zsh => Zsh.spec_hook_init(),
            ShellName::Nushell => Nushell.spec_hook_init(),
            ShellName::Elvish => Elvish.spec_hook_init(),
            ShellName::Murex => Murex.spec_hook_init(),
        }
    }

    fn set_env(&self, key: &str, value: &str) -> (r: String) {
        match self {
            ShellName::Fish => Fish.set_env(key, value),
            ShellName::Bash => Bash.set_env(key, value),
            ShellName::Zsh => Zsh.set_env(key, value),
            ShellName::Nushell => Nushell.set_env(key, value),
            ShellName::Elvish => Elvish.set_env(key, value),
            ShellName::Murex => Murex.set_env(key, value),
        }
    }

    fn unset_env(&self, key: &str) -> (r: String) {
        match self {
            ShellName::Fish => Fish.unset_env(key),
            ShellName::Bash => Bash.unset_env(key),
            ShellName::Zsh => Zsh.unset_env(key),
            ShellName::Nushell => Nushell.unset_env(key),
            ShellName::Elvish => Elvish.unset_env(key),
            ShellName::Murex => Murex.unset_env(key),
        }
    }

    fn emit_hook(&self, command: &str) -> (r: String) {
        match self {
            ShellName::Fish => Fish.emit_hook(command),
            ShellName::Bash => Bash.emit_hook(command),
            ShellName::Zsh => Zsh.emit_hook(command),
            ShellName::Nushell => Nushell.emit_hook(command),
            ShellName::Elvish => Elvish.emit_hook(command),
            ShellName::Murex => Murex.emit_hook(command),
        }
    }

    fn hook_init(&self) -> (r: String) {
        match self {
            ShellName::Fish => Fish.hook_init(),
            ShellName::Bash => Bash.hook_init(),
            ShellName::Zsh => Zsh.hook_init(),
            ShellName::Nushell => Nushell.hook_init(),
            ShellName::Elvish => Elvish.hook_init(),
            ShellName::Murex => Murex.hook_init(),
        }
    }
}

/// In every shell, an invalid key produces no statement at all, so a key
/// can never break out of the statement it stands in.
pub proof fn law_invalid_key_is_silent(shell: ShellName, key: Seq<char>, value: Seq<char>)
    requires
        !valid_key(key),
    ensures
        shell.spec_set_env(key, value) == Seq::<char>::empty(),
        shell.spec_unset_env(key) == Seq::<char>::empty(),
{
}

/// Writes shell statements.
pub trait ShellOutput {
    /// The statement that sets `key` to `value`.
    spec fn spec_set_env(&self, key: Seq<char>, value: Seq<char>) -> Seq<char>;

    /// The statement that unsets `key`.
    spec fn spec_unset_env(&self, key: Seq<char>) -> Seq<char>;

    /// The statement that runs `command`.
    spec fn spec_emit_hook(&self, command: Seq<char>) -> Seq<char>;

    /// The code that installs the prompt hook.
    spec fn spec_hook_init(&self) -> Seq<char>;

    fn set_env(&self, key: &str, value: &str) -> (r: String)
        ensures
            r@ == self.spec_set_env(key@, value@),
    ;

    fn unset_env(&self, key: &str) -> (r: String)
        ensures
            r@ == self.spec_unset_env(key@),
    ;

    fn emit_hook(&self, command: &str) -> (r: String)
        ensures
            r@ == self.spec_emit_hook(command@),
    ;

    fn hook_init(&self) -> (r: String)
        ensures
            r@ == self.spec_hook_init(),
    ;
}

/// `prefix key middle value suffix` when `key` is valid, else nothing.
pub open spec fn keyed(
    key: Seq<char>,
    prefix: Seq<char>,
    middle: Seq<char>,
    value: Seq<char>,
    suffix: Seq<char>,
) -> Seq<char> {
    if valid_key(key) {
        prefix + key + middle + value + suffix
    } else {
        Seq::empty()
    }
}

/// Builds `prefix key middle value suffix` when `key` is valid, else nothing.
fn keyed_line(key: &str, prefix: &str, middle: &str, value: &str, suffix: &str) -> (r: String)
    ensures
        r@ == keyed(key@, prefix@, middle@, value@, suffix@),
{
    if !is_valid_key(key) {
        return String::new();
    }
    let mut out = prefix.to_owned();
    append(&mut out, key);
    append(&mut out, middle);
    append(&mut out, value);
    append(&mut out, suffix);
    out
}

// --- Fish ---

pub struct Fish;

impl ShellOutput for Fish {
    open spec fn spec_set_env(&self, key: Seq<char>, value: Seq<char>) -> Seq<char> {
        keyed(key, "set -gx "@, " '"@, escape(Escape::Fish, value), "';"@)
    }

    open spec fn spec_unset_env(&self, key: Seq<char>) -> Seq<char> {
        keyed(key, "set -e "@, ""@, ""@, ";"@)
    }

    open spec fn spec_emit_hook(&self, command: Seq<char>) -> Seq<char> {
        command + ";"@
    }

    open spec fn spec_hook_init(&self) -> Seq<char> {
        FISH_HOOK@
    }

    fn set_env(&self, key: &str, value: &str) -> (r: String) {
        // fish single-quotes escape only `\'` and `\\`; everything else is literal
        let val = escape_with(Escape::Fish, value);
        keyed_line(key, "set -gx ", " '", val.as_str(), "';")
    }

    fn unset_env(&self, key: &str) -> (r: String) {
        keyed_line(key, "set -e ", "", "", ";")
    }

    fn emit_hook(&self, command: &str) -> (r: String) {
        concat(command, ";")
    }

    fn hook_init(&self) -> (r: String) {
        FISH_HOOK.to_owned()
    }
}

// --- Bash ---

pub struct Bash;

impl ShellOutput for Bash {
    open spec fn spec_set_env(&self, key: Seq<char>, value: Seq<char>) -> Seq<char> {
        keyed(key, "export "@, "="@, posix_quote(value), ";"@)
    }

    open spec fn spec_unset_env(&self, key: Seq<char>) -> Seq<char> {
        keyed(key, "unset "@, ""@, ""@, ";"@)
    }

    open spec fn spec_emit_hook(&self, command: Seq<char>) -> Seq<char> {
        command + ";"@
    }

    open spec fn spec_hook_init(&self) -> Seq<char> {
        BASH_HOOK@
    }

    fn set_env(&self, key: &str, value: &str) -> (r: String) {
        let val = posix_single_quote(value);
        keyed_line(key, "export ", "=", val.as_str(), ";")
    }

    fn unset_env(&self, key: &str) -> (r: String) {
        keyed_line(key, "unset ", "", "", ";")
    }

    fn emit_hook(&self, command: &str) -> (r: String) {
        concat(command, ";")
    }

    fn hook_init(&self) -> (r: String) {
        BASH_HOOK.to_owned()
    }
}

// --- Zsh ---

pub struct Zsh;

impl ShellOutput for Zsh {
    open spec fn spec_set_env(&self, key: Seq<char>, value: Seq<char>) -> Seq<char> {
        keyed(key, "export "@, "="@, posix_quote(value), ";"@)
    }

    open spec fn spec_unset_env(&self, key: Seq<char>) -> Seq<char> {
        keyed(key, "unset "@, ""@, ""@, ";"@)
    }

    open spec fn spec_emit_hook(&self, command: Seq<char>) -> Seq<char> {
        command + ";"@
    }

    open spec fn spec_hook_init(&self) -> Seq<char> {
        ZSH_HOOK@
    }

    fn set_env(&self, key: &str, value: &str) -> (r: String) {
        let val = posix_single_quote(value);
        keyed_line(key, "export ", "=", val.as_str(), ";")
    }

    fn unset_env(&self, key: &str) -> (r: String) {
        keyed_line(key, "unset ", "", "", ";")
    }

    fn emit_hook(&self, command: &str) -> (r: String) {
        concat(command, ";")
    }

    fn hook_init(&self) -> (r: String) {
        ZSH_HOOK.to_owned()
    }
}

// --- Nushell ---

/// A one-line JSON record `{"tag":payload}`.
pub open spec fn json_record(tag: Seq<char>, payload: Seq<char>) -> Seq<char> {
    "{\""@ + tag + "\":"@ + payload + "}\n"@
}

pub struct Nushell;

impl ShellOutput for Nushell {
    // Nushell can't `source` a per-shell file (source needs a const path) and
    // `nu -c` loses env, so cade emits NDJSON directives that the prompt closure
    // applies in-scope with `load-env`/`hide-env`. No shared file, so no races.
    open spec fn spec_set_env(&self, key: Seq<char>, value: Seq<char>) -> Seq<char> {
        if valid_key(key) {
            json_record("s"@, "{"@ + json_text(key) + ":"@ + json_text(value) + "}"@)
        } else {
            Seq::empty()
        }
    }

    open spec fn spec_unset_env(&self, key: Seq<char>) -> Seq<char> {
        if valid_key(key) {
            json_record("u"@, json_text(key))
        } else {
            Seq::empty()
        }
    }

    open spec fn spec_emit_hook(&self, command: Seq<char>) -> Seq<char> {
        json_record("h"@, json_text(command))
    }

    open spec fn spec_hook_init(&self) -> Seq<char> {
        NUSHELL_HOOK@
    }

    fn set_env(&self, key: &str, value: &str) -> (r: String) {
        if !is_valid_key(key) {
            return String::new();
        }
        let k = json_string(key);
        let v = json_string(value);
        let mut payload = "{".to_owned();
        append(&mut payload, k.as_str());
        append(&mut payload, ":");
        append(&mut payload, v.as_str());
        append(&mut payload, "}");
        record("s", payload.as_str())
    }

    fn unset_env(&self, key: &str) -> (r: String) {
        if !is_valid_key(key) {
            return String::new();
        }
        let k = json_string(key);
        record("u", k.as_str())
    }

    fn emit_hook(&self, command: &str) -> (r: String) {
        let c = json_string(command);
        record("h", c.as_str())
    }

    fn hook_init(&self) -> (r: String) {
        NUSHELL_HOOK.to_owned()
    }
}

/// Builds the one-line JSON record `{"tag":payload}`.
fn record(tag: &str, payload: &str) -> (r: String)
    ensures
        r@ == json_record(tag@, payload@),
{
    let mut out = "{\"".to_owned();
    append(&mut out, tag);
    append(&mut out, "\":");
    append(&mut out, payload);
    append(&mut out, "}\n");
    out
}

// --- Elvish ---

pub struct Elvish;

impl ShellOutput for Elvish {
    // Elvish single-quoted strings escape an embedded quote by doubling it.
    open spec fn spec_set_env(&self, key: Seq<char>, value: Seq<char>) -> Seq<char> {
        keyed(key, "set-env "@, " '"@, escape(Escape::Elvish, value), "';"@)
    }

    open spec fn spec_unset_env(&self, key: Seq<char>) -> Seq<char> {
        keyed(key, "unset-env "@, ""@, ""@, ";"@)
    }

    open spec fn spec_emit_hook(&self, command: Seq<char>) -> Seq<char> {
        command + ";"@
    }

    open spec fn spec_hook_init(&self) -> Seq<char> {
        ELVISH_HOOK@
    }

    fn set_env(&self, key: &str, value: &str) -> (r: String) {
        let val = escape_with(Escape::Elvish, value);
        keyed_line(key, "set-env ", " '", val.as_str(), "';")
    }

    fn unset_env(&self, key: &str) -> (r: String) {
        keyed_line(key, "unset-env ", "", "", ";")
    }

    fn emit_hook(&self, command: &str) -> (r: String) {
        concat(command, ";")
    }

    fn hook_init(&self) -> (r: String) {
        ELVISH_HOOK.to_owned()
    }
}

// --- Murex ---

pub struct Murex;

impl ShellOutput for Murex {
    // murex single-quotes are fully literal (inert), but can't contain a
    // single quote, so any embedded quote is dropped.
    open spec fn spec_set_env(&self, key: Seq<char>, value: Seq<char>) -> Seq<char> {
        keyed(key, "export "@, "='"@, escape(Escape::Drop, value), "'\n"@)
    }

    open spec fn spec_unset_env(&self, key: Seq<char>) -> Seq<char> {
        keyed(key, "!export "@, ""@, ""@, "\n"@)
    }

    open spec fn spec_emit_hook(&self, command: Seq<char>) -> Seq<char> {
        command + "\n"@
    }

    open spec fn spec_hook_init(&self) -> Seq<char> {
        MUREX_HOOK@
    }

    fn set_env(&self, key: &str, value: &str) -> (r: String) {
        let val = escape_with(Escape::Drop, value);
        keyed_line(key, "export ", "='", val.as_str(), "'\n")
    }

    fn unset_env(&self, key: &str) -> (r: String) {
        keyed_line(key, "!export ", "", "", "\n")
    }

    fn emit_hook(&self, command: &str) -> (r: String) {
        concat(command, "\n")
    }

    fn hook_init(&self) -> (r: String) {
        MUREX_HOOK.to_owned()
    }
}

pub const FISH_HOOK: &'static str = "function __cade_hook --on-event fish_prompt
    if test \"$PWD\" != \"$__cade_last_pwd\"; or set -q __CADE_LAYERS
        cade reload --shell fish | source
        set -g __cade_last_pwd $PWD
    end
end
";

pub const BASH_HOOK: &'static str = "_cade_hook() {
    local previous_exit_status=$?
    if [[ \"$PWD\" != \"$__cade_last_pwd\" || -n \"${__CADE_LAYERS:-}\" ]]; then
        eval \"$(cade reload --shell bash)\"
        __cade_last_pwd=\"$PWD\"
    fi
    return $previous_exit_status
}
if [[ \";${PROMPT_COMMAND[*]:-};\" != *\";_cade_hook;\"* ]]; then
    PROMPT_COMMAND=\"_cade_hook;${PROMPT_COMMAND:-}\"
fi
";

pub const ZSH_HOOK: &'static str = "_cade_hook() {
    if [[ \"$PWD\" != \"$__cade_last_pwd\" || -n \"${__CADE_LAYERS:-}\" ]]; then
        eval \"$(cade reload --shell zsh)\"
        __cade_last_pwd=\"$PWD\"
    fi
}
typeset -ag precmd_functions
if (( ! ${precmd_functions[(I)_cade_hook]} )); then
    precmd_functions=(_cade_hook $precmd_functions)
fi
typeset -ag chpwd_functions
if (( ! ${chpwd_functions[(I)_cade_hook]} )); then
    chpwd_functions=(_cade_hook $chpwd_functions)
fi
";

pub const NUSHELL_HOOK: &'static str = "$env.config.hooks.pre_prompt = (
    ($env.config.hooks?.pre_prompt? | default [])
    | append {||
        if ($env.PWD != ($env.__cade_last_pwd? | default \"\")) or (\"__CADE_LAYERS\" in $env) {
            for line in (cade reload --shell nushell | lines) {
                if ($line | str trim | is-empty) { continue }
                let m = ($line | from json)
                if \"s\" in $m { load-env $m.s }
                if \"u\" in $m { hide-env --ignore-errors $m.u }
                if \"h\" in $m {
                    # no in-scope eval, so run the hook in a child nu and diff
                    # its env before/after to propagate vars it set or unset.
                    let prog = (\"let __pre = $env\\n\" + $m.h + \"\\nlet __post = $env\\nlet __set = ($__post | transpose k v | where {|r| ($r.v | describe) == \\\"string\\\" and $r.k not-in [PWD OLDPWD] and (($__pre | get -i $r.k) != $r.v)} | reduce -f {} {|r, a| $a | upsert $r.k $r.v}); {set: $__set, unset: ($__pre | columns | where {|k| $k not-in ($__post | columns)})} | to json\")
                    let d = (nu --no-config-file --commands $prog | from json)
                    load-env $d.set
                    for k in $d.unset { hide-env --ignore-errors $k }
                }
            }
            $env.__cade_last_pwd = $env.PWD
        }
    }
)
";

pub const ELVISH_HOOK: &'static str = "var cade-last-pwd = ''
set edit:before-readline = [
    {||
        if (or (not-eq $pwd $cade-last-pwd) (has-env __CADE_LAYERS)) {
            eval (cade reload --shell elvish | slurp)
            set cade-last-pwd = $pwd
        }
    }
]
";

// murex runs cade on every prompt (no PWD-change fast-path): its
// conditional syntax made the guard unreliable. Correct, just not cheap.
pub const MUREX_HOOK: &'static str = "event onPrompt cade=before {
    cade reload --shell murex -> source
}
";

/// What fish reads inside single quotes, up to the closing quote: `\\` and
/// `\'` stand for `\` and `'`, anything else for itself. The value and what
/// follows the closing quote, or `None` when no quote closes.
pub open spec fn read_fish_quoted(w: Seq<char>) -> Option<(Seq<char>, Seq<char>)>
    decreases w.len(),
{
    if w.len() == 0 {
        None
    } else if w[0] == '\'' {
        Some((Seq::empty(), w.drop_first()))
    } else if w[0] == '\\' && w.len() >= 2 && (w[1] == '\\' || w[1] == '\'') {
        match read_fish_quoted(w.skip(2)) {
            Some((v, rest)) => Some((seq![w[1]] + v, rest)),
            None => None,
        }
    } else {
        match read_fish_quoted(w.drop_first()) {
            Some((v, rest)) => Some((seq![w[0]] + v, rest)),
            None => None,
        }
    }
}

/// What elvish reads inside single quotes, up to the closing quote: `''`
/// stands for `'`, anything else for itself.
pub open spec fn read_elvish_quoted(w: Seq<char>) -> Option<(Seq<char>, Seq<char>)>
    decreases w.len(),
{
    if w.len() == 0 {
        None
    } else if w[0] == '\'' {
        if w.len() >= 2 && w[1] == '\'' {
            match read_elvish_quoted(w.skip(2)) {
                Some((v, rest)) => Some((seq!['\''] + v, rest)),
                None => None,
            }
        } else {
            Some((Seq::empty(), w.drop_first()))
        }
    } else {
        match read_elvish_quoted(w.drop_first()) {
            Some((v, rest)) => Some((seq![w[0]] + v, rest)),
            None => None,
        }
    }
}

proof fn lemma_escape_cons(e: Escape, c: char, t: Seq<char>)
    ensures
        escape(e, seq![c] + t) == escape_char(e, c) + escape(e, t),
{
    lemma_escape_concat(e, seq![c], t);
    assert(seq![c].drop_last() =~= Seq::<char>::empty());
    assert(seq![c].last() == c);
    assert(escape(e, Seq::<char>::empty()) == Seq::<char>::empty());
    assert(escape(e, seq![c]) == escape(e, seq![c].drop_last()) + escape_char(e, c));
    assert(escape(e, seq![c]) =~= escape_char(e, c));
}

/// A value that cade writes in fish single quotes reads back as exactly that
/// value, and the quote cade closes it with is where fish ends it.
pub proof fn law_fish_quote_reads_back(s: Seq<char>, rest: Seq<char>)
    ensures
        read_fish_quoted(escape(Escape::Fish, s) + seq!['\''] + rest) == Some((s, rest)),
    decreases s.len(),
{
    if s.len() == 0 {
        let w = escape(Escape::Fish, s) + seq!['\''] + rest;
        assert(w =~= seq!['\''] + rest);
        assert(w.drop_first() =~= rest);
    } else {
        let c = s[0];
        let t = s.drop_first();
        assert(s =~= seq![c] + t);
        lemma_escape_cons(Escape::Fish, c, t);
        law_fish_quote_reads_back(t, rest);
        let tail = escape(Escape::Fish, t) + seq!['\''] + rest;
        let w = escape(Escape::Fish, s) + seq!['\''] + rest;
        if c == '\\' || c == '\'' {
            assert(w =~= seq!['\\', c] + tail);
            assert(w.skip(2) =~= tail);
        } else {
            assert(w =~= seq![c] + tail);
            assert(w.drop_first() =~= tail);
        }
        assert(seq![c] + t =~= s);
    }
}

/// A value that cade writes in elvish single quotes reads back as exactly
/// that value, and the quote cade closes it with is where elvish ends it
/// (unless another quote follows it at once, which cade never writes).
pub proof fn law_elvish_quote_reads_back(s: Seq<char>, rest: Seq<char>)
    requires
        !(rest.len() > 0 && rest[0] == '\''),
    ensures
        read_elvish_quoted(escape(Escape::Elvish, s) + seq!['\''] + rest) == Some((s, rest)),
    decreases s.len(),
{
    if s.len() == 0 {
        let w = escape(Escape::Elvish, s) + seq!['\''] + rest;
        assert(w =~= seq!['\''] + rest);
        assert(w.drop_first() =~= rest);
        if w.len() >= 2 {
            assert(w[1] == rest[0]);
        }
    } else {
        let c = s[0];
        let t = s.drop_first();
        assert(s =~= seq![c] + t);
        lemma_escape_cons(Escape::Elvish, c, t);
        law_elvish_quote_reads_back(t, rest);
        let tail = escape(Escape::Elvish, t) + seq!['\''] + rest;
        let w = escape(Escape::Elvish, s) + seq!['\''] + rest;
        if c == '\'' {
            assert(w =~= seq!['\'', '\''] + tail);
            assert(w.skip(2) =~= tail);
        } else {
            assert(w =~= seq![c] + tail);
            assert(w.drop_first() =~= tail);
        }
        assert(seq![c] + t =~= s);
    }
}

/// The value of a hexadecimal digit, in either case.
pub open spec fn hex_value(d: char) -> Option<int> {
    if '0' <= d && d <= '9' {
        Some(d as int - '0' as int)
    } else if 'a' <= d && d <= 'f' {
        Some(d as int - 'a' as int + 10)
    } else if 'A' <= d && d <= 'F' {
        Some(d as int - 'A' as int + 10)
    } else {
        None
    }
}

/// The character of the four hexadecimal digits of a `\u` escape, when
/// they name one outside the surrogate range.
pub open spec fn unicode_escape(a: char, b: char, c: char, d: char) -> Option<char> {
    match (hex_value(a), hex_value(b), hex_value(c), hex_value(d)) {
        (Some(x), Some(y), Some(z), Some(t)) => {
            let n = 4096 * x + 256 * y + 16 * z + t;
            if 0xD800 <= n && n <= 0xDFFF {
                None
            } else {
                Some((n as u32) as char)
            }
        },
        _ => None,
    }
}

/// The character that a one-letter JSON escape `\e` stands for.
pub open spec fn json_short_escape(e: char) -> Option<char> {
    if e == '"' {
        Some('"')
    } else if e == '\\' {
        Some('\\')
    } else if e == '/' {
        Some('/')
    } else if e == 'b' {
        Some('\x08')
    } else if e == 'f' {
        Some('\x0C')
    } else if e == 'n' {
        Some('\n')
    } else if e == 'r' {
        Some('\r')
    } else if e == 't' {
        Some('\t')
    } else {
        None
    }
}

/// What a JSON reader takes from the inside of a string, up to the closing
/// quote: the escapes of the JSON grammar (a `\u` escape naming a surrogate
/// half is not read), and any other character but a control character as
/// itself. The value and what follows the closing quote, or `None`.
pub open spec fn read_json_quoted(w: Seq<char>) -> Option<(Seq<char>, Seq<char>)>
    decreases w.len(),
{
    if w.len() == 0 {
        None
    } else if w[0] == '"' {
        Some((Seq::empty(), w.drop_first()))
    } else if w[0] == '\\' {
        if w.len() >= 6 && w[1] == 'u' {
            match unicode_escape(w[2], w[3], w[4], w[5]) {
                Some(c) => match read_json_quoted(w.skip(6)) {
                    Some((v, rest)) => Some((seq![c] + v, rest)),
                    None => None,
                },
                None => None,
            }
        } else if w.len() >= 2 && json_short_escape(w[1]) is Some {
            match read_json_quoted(w.skip(2)) {
                Some((v, rest)) => Some((seq![json_short_escape(w[1])->0] + v, rest)),
                None => None,
            }
        } else {
            None
        }
    } else if (w[0] as u32) < 0x20 {
        None
    } else {
        match read_json_quoted(w.drop_first()) {
            Some((v, rest)) => Some((seq![w[0]] + v, rest)),
            None => None,
        }
    }
}

proof fn lemma_json_escaped_concat(a: Seq<char>, b: Seq<char>)
    ensures
        json_escaped(a + b) == json_escaped(a) + json_escaped(b),
    decreases b.len(),
{
    if b.len() == 0 {
        assert(a + b =~= a);
        assert(json_escaped(a) + json_escaped(b) =~= json_escaped(a));
    } else {
        lemma_json_escaped_concat(a, b.drop_last());
        assert((a + b).drop_last() =~= a + b.drop_last());
        assert((a + b).last() == b.last());
        assert(json_escaped(a + b) =~= json_escaped(a) + json_escaped(b));
    }
}

proof fn lemma_hex_digit_value(k: int)
    requires
        0 <= k < 16,
    ensures
        hex_value(hex_digit(k)) == Some(k),
{
    let digits = seq!['0', '1', '2', '3', '4', '5', '6', '7', '8', '9', 'a', 'b', 'c', 'd', 'e', 'f'];
    assert(hex_digit(k) == digits[k]);
}

/// A text that cade writes inside a JSON string reads back as exactly that
/// text, and the quote cade closes it with is where JSON ends it.
pub proof fn law_json_quote_reads_back(s: Seq<char>, rest: Seq<char>)
    ensures
        read_json_quoted(json_escaped(s) + seq!['"'] + rest) == Some((s, rest)),
    decreases s.len(),
{
    let w = json_escaped(s) + seq!['"'] + rest;
    if s.len() == 0 {
        assert(w =~= seq!['"'] + rest);
        assert(w.drop_first() =~= rest);
    } else {
        let c = s[0];
        let t = s.drop_first();
        assert(s =~= seq![c] + t);
        lemma_json_escaped_concat(seq![c], t);
        assert(seq![c].drop_last() =~= Seq::<char>::empty());
        assert(seq![c].last() == c);
        assert(json_escaped(Seq::<char>::empty()) == Seq::<char>::empty());
        assert(json_escaped(seq![c]) == json_escaped(seq![c].drop_last()) + json_escape_char(c));
        assert(json_escaped(seq![c]) =~= json_escape_char(c));
        law_json_quote_reads_back(t, rest);
        let tail = json_escaped(t) + seq!['"'] + rest;
        let e = json_escape_char(c);
        assert(w =~= e + tail);
        if c == '"' || c == '\\' || c == '\x08' || c == '\t' || c == '\n' || c == '\x0C' || c
            == '\r' {
            assert(w.skip(2) =~= tail);
            assert(w[0] == '\\');
            assert(w[1] == e[1]);
        } else if (c as u32) < 0x20 {
            let n = (c as u32) as int;
            assert(0 <= n < 32);
            assert(0 <= n / 16 < 16 && 0 <= n % 16 < 16 && 16 * (n / 16) + n % 16 == n) by (
            nonlinear_arith)
                requires
                    0 <= n < 32,
            ;
            lemma_hex_digit_value(n / 16);
            lemma_hex_digit_value(n % 16);
            assert(w.skip(6) =~= tail);
            assert(w[2] == '0' && w[3] == '0');
            assert(hex_value('0') == Some(0int));
            assert(4096 * 0 + 256 * 0 + 16 * (n / 16) + n % 16 == n);
            vstd::utf8::char_u32_cast(c, c as u32);
            assert(((n as u32) as char) == c);
        } else {
            assert(w.drop_first() =~= tail);
        }
        assert(seq![c] + t =~= s);
    }
}

/// A variable that cade writes for nushell is a record whose key and value,
/// each in a JSON string, read back as exactly the name and value, each
/// string ending at the quote cade closes it with.
pub proof fn law_nushell_record_reads_back(key: Seq<char>, value: Seq<char>)
    requires
        valid_key(key),
    ensures
        Nushell.spec_set_env(key, value) == "{\"s\":{\""@ + json_escaped(key) + "\":\""@
            + json_escaped(value) + "\"}}\n"@,
        read_json_quoted(json_escaped(key) + "\":\""@ + json_escaped(value) + "\"}}\n"@) == Some(
            (key, ":\""@ + json_escaped(value) + "\"}}\n"@),
        ),
        read_json_quoted(json_escaped(value) + "\"}}\n"@) == Some((value, "}}\n"@)),
{
    reveal_strlit("{\"");
    reveal_strlit("\":");
    reveal_strlit("}\n");
    reveal_strlit("s");
    reveal_strlit("{");
    reveal_strlit(":");
    reveal_strlit("}");
    reveal_strlit("{\"s\":{\"");
    reveal_strlit("\":\"");
    reveal_strlit("\"}}\n");
    reveal_strlit(":\"");
    reveal_strlit("}}\n");
    assert(Nushell.spec_set_env(key, value) =~= "{\"s\":{\""@ + json_escaped(key) + "\":\""@
        + json_escaped(value) + "\"}}\n"@);
    let r1 = ":\""@ + json_escaped(value) + "\"}}\n"@;
    law_json_quote_reads_back(key, r1);
    assert(json_escaped(key) + seq!['"'] + r1 =~= json_escaped(key) + "\":\""@ + json_escaped(value)
        + "\"}}\n"@);
    law_json_quote_reads_back(value, "}}\n"@);
    assert(json_escaped(value) + seq!['"'] + "}}\n"@ =~= json_escaped(value) + "\"}}\n"@);
}

/// The characters of `s` but its single quotes.
pub open spec fn without_quotes(s: Seq<char>) -> Seq<char> {
    s.filter(|c: char| c != '\'')
}

/// A value cade writes in murex single quotes is the value without its
/// single quotes, so no quote inside can end the literal early.
pub proof fn law_murex_value_is_literal(s: Seq<char>)
    ensures
        escape(Escape::Drop, s) == without_quotes(s),
        !escape(Escape::Drop, s).contains('\''),
    decreases s.len(),
{
    if s.len() > 0 {
        law_murex_value_is_literal(s.drop_last());
        s.drop_last().lemma_filter_push(s.last(), |c: char| c != '\'');
        assert(s.drop_last().push(s.last()) =~= s);
        let e = escape(Escape::Drop, s);
        let d = escape(Escape::Drop, s.drop_last());
        if e.contains('\'') {
            let i = choose|i: int| 0 <= i < e.len() && e[i] == '\'';
            if i < d.len() {
                assert(d[i] == '\'');
            }
        }
    } else {
        assert(s.filter(|c: char| c != '\'') =~= Seq::<char>::empty());
    }
}

} // verus!
