use cade::shells::{is_valid_key, Bash, Elvish, Fish, Nushell, ShellOutput};

const HOSTILE: &str = r#"$(touch /tmp/pwned)`id`;rm -rf ~ "quote' end"#;

#[test]
fn valid_keys() {
    assert!(is_valid_key("PATH"));
    assert!(is_valid_key("_x9"));
    assert!(is_valid_key("A_B_C"));
    assert!(!is_valid_key(""));
    assert!(!is_valid_key("9bad"));
    assert!(!is_valid_key("has space"));
    assert!(!is_valid_key("x;rm -rf"));
    assert!(!is_valid_key("a=b"));
    assert!(!is_valid_key("a$b"));
}

#[test]
fn bash_value_is_single_quoted_and_inert() {
    let out = Bash.set_env("EVIL", HOSTILE);
    // No unescaped `$(`, backtick, or double-quote context that bash expands.
    assert!(out.starts_with("export EVIL='"));
    assert!(out.ends_with("';"));
    // the only way out of a single-quoted string is `'\''`
    let body = out
        .strip_prefix("export EVIL=")
        .unwrap()
        .strip_suffix(';')
        .unwrap();
    // decode `'\''` and strip the wrapping quotes to recover the original
    let inner = &body[1..body.len() - 1];
    let decoded = inner.replace("'\\''", "'");
    assert_eq!(decoded, HOSTILE);
}

#[test]
fn bash_rejects_hostile_keys() {
    assert_eq!(Bash.set_env("x;rm -rf ~", "v"), "");
    assert_eq!(Bash.unset_env("a b"), "");
}

#[test]
fn fish_escapes_quote_and_backslash() {
    let out = Fish.set_env("X", r"a'b\c");
    assert_eq!(out, r"set -gx X 'a\'b\\c';");
}

#[test]
fn elvish_doubles_quotes() {
    assert_eq!(Elvish.set_env("X", "a'b"), "set-env X 'a''b';");
}

#[test]
fn nushell_emits_json_data_not_code() {
    let out = Nushell.set_env("X", r#"$(id)"x"#);
    // a JSON directive parsed with `from json`, never run as nu code
    let v: serde_json::Value = serde_json::from_str(out.trim()).unwrap();
    assert_eq!(v["s"]["X"], "$(id)\"x");
}

#[test]
fn nushell_writes_serde_json_escapes() {
    assert_eq!(
        Nushell.set_env("A", "x\"y\\\n\t\u{1}\u{1f}é/"),
        "{\"s\":{\"A\":\"x\\\"y\\\\\\n\\t\\u0001\\u001fé/\"}}\n"
    );
    assert_eq!(Nushell.unset_env("A"), "{\"u\":\"A\"}\n");
    assert_eq!(Nushell.set_env("=x", "v"), "");
}
