//! Calls into std and outside crates: Unicode lowercasing and shell-word
//! splitting, whose results this crate names rather than restates, JSON
//! string encoding and UTF-8 decoding.
use vstd::prelude::*;
use vstd::utf8::{decode_utf8, valid_utf8};
use crate::envs::JsonValue;

verus! {

/// The Unicode lowercase mapping of a text, as `str::to_lowercase` computes it.
pub uninterp spec fn lowercase(s: Seq<char>) -> Seq<char>;

/// The lowercase hexadecimal digit of `d`, for `0 <= d < 16`.
pub open spec fn hex_digit(d: int) -> char {
    seq!['0', '1', '2', '3', '4', '5', '6', '7', '8', '9', 'a', 'b', 'c', 'd', 'e', 'f'][d]
}

/// How a character is written inside a JSON string: `"` and `\` after a
/// backslash; backspace, tab, line feed, form feed and carriage return as
/// `\b`, `\t`, `\n`, `\f`, `\r`; the other characters below U+0020 as
/// `\u00` and two lowercase hexadecimal digits; any other as itself.
pub open spec fn json_escape_char(c: char) -> Seq<char> {
    if c == '"' {
        seq!['\\', '"']
    } else if c == '\\' {
        seq!['\\', '\\']
    } else if c == '\x08' {
        seq!['\\', 'b']
    } else if c == '\t' {
        seq!['\\', 't']
    } else if c == '\n' {
        seq!['\\', 'n']
    } else if c == '\x0C' {
        seq!['\\', 'f']
    } else if c == '\r' {
        seq!['\\', 'r']
    } else if (c as u32) < 0x20 {
        seq!['\\', 'u', '0', '0', hex_digit(((c as u32) / 16) as int), hex_digit(((c as u32) % 16) as int)]
    } else {
        seq![c]
    }
}

/// Each character of `s` written as inside a JSON string.
pub open spec fn json_escaped(s: Seq<char>) -> Seq<char>
    decreases s.len(),
{
    if s.len() == 0 {
        Seq::empty()
    } else {
        json_escaped(s.drop_last()) + json_escape_char(s.last())
    }
}

/// The JSON string literal for a text: its characters, escaped, in double
/// quotes.
pub open spec fn json_text(s: Seq<char>) -> Seq<char> {
    seq!['"'] + json_escaped(s) + seq!['"']
}

/// The words of a line under POSIX shell quoting rules, or `None` when the
/// quoting is unbalanced, as `shlex::split` computes them.
pub uninterp spec fn shell_words(s: Seq<char>) -> Option<Seq<Seq<char>>>;

/// Every character is an ASCII lowercase letter.
pub open spec fn ascii_lower_letters(s: Seq<char>) -> bool {
    forall|i: int| 0 <= i < s.len() ==> 'a' <= #[trigger] s[i] && s[i] <= 'z'
}

/// Every character is ASCII.
pub open spec fn ascii_text(s: Seq<char>) -> bool {
    forall|i: int| 0 <= i < s.len() ==> (#[trigger] s[i] as u32) < 0x80
}

/// The ASCII lowercase of a character: `A` to `Z` become `a` to `z`, any
/// other stays.
pub open spec fn ascii_lower_char(c: char) -> char {
    if 'A' <= c && c <= 'Z' {
        ((c as u32) + 32) as u32 as char
    } else {
        c
    }
}

/// Calls `str::to_lowercase`. The contract claims that the result is the
/// lowercase mapping of the argument, a function of the argument alone;
/// that text made of ASCII lowercase letters maps to itself; and that ASCII
/// text maps character by character, `A` to `Z` to `a` to `z`.
#[verifier::external_body]
pub(crate) fn to_lowercase(s: &str) -> (r: String)
    ensures
        r@ == lowercase(s@),
        ascii_lower_letters(s@) ==> r@ == s@,
        ascii_text(s@) ==> r@ == s@.map_values(|c: char| ascii_lower_char(c)),
{
    s.to_lowercase()
}

/// Calls `serde_json::to_string` on a string. The contract claims that the
/// result is the string in double quotes with the escapes of `serde_json`'s
/// escape table (`json_escape_char`); serializing a string into memory
/// cannot fail.
#[verifier::external_body]
pub(crate) fn json_string(s: &str) -> (r: String)
    ensures
        r@ == json_text(s@),
{
    match serde_json::to_string(s) {
        Ok(t) => t,
        Err(_) => String::new(),
    }
}

/// A parsed JSON document, as `serde_json` holds it.
#[verifier::external_type_specification]
#[verifier::external_body]
pub struct ExJsonDocument(serde_json::Value);

/// The JSON document that bytes hold, or `None` when they are not one, as
/// `serde_json::from_slice` parses them into a `serde_json::Value`.
pub uninterp spec fn json_document(raw: Seq<u8>) -> Option<JsonValue>;

/// Turns `serde_json`'s value into the library's, variant for variant: a
/// number as the text `serde_json` writes for it, an object's members in
/// the order `serde_json` holds them.
#[verifier::external_body]
fn json_of(v: serde_json::Value) -> JsonValue {
    match v {
        serde_json::Value::Null => JsonValue::Null,
        serde_json::Value::Bool(b) => JsonValue::Bool(b),
        serde_json::Value::Number(n) => JsonValue::Number(n.to_string()),
        serde_json::Value::String(t) => JsonValue::Text(t),
        serde_json::Value::Array(a) => JsonValue::Array(a.into_iter().map(json_of).collect()),
        serde_json::Value::Object(o) => JsonValue::Object(o.into_iter().map(|(k, x)| (k, json_of(x))).collect()),
    }
}

/// Calls `serde_json::from_slice` into a `serde_json::Value` and converts
/// the value. The contract claims only that the result is the document the
/// bytes hold, a function of the bytes alone, or `None` where the call
/// fails; which bytes parse, and into what, is left to that name.
#[verifier::external_body]
pub(crate) fn parse_json(raw: &[u8]) -> (r: Option<JsonValue>)
    ensures
        r == json_document(raw@),
{
    serde_json::from_slice::<serde_json::Value>(raw).ok().map(json_of)
}

/// Calls `shlex::split`. The contract claims only that the result is the
/// shell-word splitting of the argument, a function of the argument alone.
#[verifier::external_body]
pub(crate) fn split_words(s: &str) -> (r: Option<Vec<String>>)
    ensures
        match r {
            Some(w) => shell_words(s@) == Some(w.deep_view()),
            None => shell_words(s@) is None,
        },
{
    shlex::split(s)
}

/// Calls `std::str::from_utf8` and copies the text out, or the error's
/// description. The contract claims what the documentation states: the
/// call succeeds exactly when the bytes are valid UTF-8, and the text is
/// then the one they encode. Nothing is claimed of the description.
#[verifier::external_body]
pub(crate) fn utf8_text(bytes: &[u8]) -> (r: Result<String, String>)
    ensures
        match r {
            Ok(s) => valid_utf8(bytes@) && s@ == decode_utf8(bytes@),
            Err(_) => !valid_utf8(bytes@),
        },
{
    match std::str::from_utf8(bytes) {
        Ok(s) => Ok(s.to_owned()),
        Err(e) => Err(e.to_string()),
    }
}

} // verus!
