use cade::cli::{editor_command, EditorError};
use cade::config::{config_source, long_running_warning_ms};
use cade::envs::{JsonEnvError, JsonValue};
use cade::envrc::{flake_installable, shell_file_path};
use cade::envrc::{apply_directive, parse_line, unsupported_report, EnvrcLoad};
use cade::parse::is_assignment_key;
use cade::session::is_valid_session;
use cade::shells::ShellName;
use cade::text::{decimal_text, parse_u64};
use cade::types::EnvSet;
use cade::verbosity::{resolve, Verbosity};

fn text(s: &str) -> JsonValue {
    JsonValue::Text(s.to_string())
}

fn var_entry(v: &str) -> JsonValue {
    JsonValue::Object(vec![("type".to_string(), text("exported")), ("value".to_string(), text(v))])
}

#[test]
fn dev_shell_json_keeps_layer_variables() {
    let vars = JsonValue::Object(vec![
        ("PATH".to_string(), var_entry("/a:/b")),
        ("NIX_CFLAGS".to_string(), var_entry("x")),
        ("buildPhase".to_string(), var_entry("make")),
        ("HOME".to_string(), var_entry("/homeless")),
        ("nativeBuildInputs".to_string(), var_entry("gcc")),
        ("MY_VAR".to_string(), var_entry("1")),
        ("ARRAY".to_string(), JsonValue::Object(vec![("value".to_string(), JsonValue::Array(vec![]))])),
    ]);
    let json = JsonValue::Object(vec![("variables".to_string(), vars)]);
    let env = EnvSet::from_json_value(&json).unwrap();
    assert_eq!(env.len(), 2);
    assert_eq!(env.get("PATH").unwrap(), &vec!["/a".to_string(), "/b".to_string()]);
    assert_eq!(env.get("MY_VAR").unwrap(), &vec!["1".to_string()]);
}

#[test]
fn dev_shell_json_errors() {
    let not_obj = JsonValue::Array(vec![]);
    assert_eq!(EnvSet::from_json_value(&not_obj).unwrap_err(), JsonEnvError::NoVariables);
    let no_vars = JsonValue::Object(vec![("x".to_string(), JsonValue::Null)]);
    assert_eq!(EnvSet::from_json_value(&no_vars).unwrap_err(), JsonEnvError::NoVariables);
    let bad = JsonValue::Object(vec![("variables".to_string(), JsonValue::Bool(true))]);
    let e = EnvSet::from_json_value(&bad).unwrap_err();
    assert_eq!(e, JsonEnvError::VariablesNotObject);
    assert_eq!(e.message(), "collecting env vars");
    assert_eq!(JsonEnvError::NoVariables.message(), "failed to parse values from JSON output");
}

#[test]
fn session_ids_stay_in_the_snapshot_dir() {
    assert!(is_valid_session("123-456"));
    assert!(!is_valid_session(""));
    assert!(!is_valid_session("a/b"));
    assert!(!is_valid_session("a\\b"));
    assert!(!is_valid_session("x..y"));
    assert!(is_valid_session("x.y"));
}

#[test]
fn editor_command_splits_words() {
    let (p, args) = editor_command("code --wait 'my dir'").unwrap();
    assert_eq!(p, "code");
    assert_eq!(args, vec!["--wait".to_string(), "my dir".to_string(), ".cade".to_string()]);
    assert_eq!(editor_command("   ").unwrap_err(), EditorError::Empty);
    assert_eq!(editor_command("vim 'open").unwrap_err(), EditorError::Unparsable);
    assert_eq!(EditorError::Empty.message(), "EDITOR variable is empty");
}

#[test]
fn verbosity_resolution_order() {
    assert_eq!(resolve(Some(Verbosity::Trace), Some("quiet"), None), Verbosity::Trace);
    assert_eq!(resolve(None, Some(" QUIET "), Some(Verbosity::Vars)), Verbosity::Quiet);
    assert_eq!(resolve(None, Some("loud"), Some(Verbosity::Vars)), Verbosity::Vars);
    assert_eq!(resolve(None, None, None), Verbosity::Normal);
    assert_eq!(Verbosity::from_str("Loud").unwrap_err(), "unknown verbosity: Loud");
}

#[test]
fn config_source_order() {
    assert_eq!(
        config_source(Some("/given".into()), true, Some("/rec".into()), Some("/def".into())),
        Some(("/given".to_string(), true))
    );
    assert_eq!(
        config_source(None, true, Some("/rec".into()), Some("/def".into())),
        Some(("/rec".to_string(), false))
    );
    assert_eq!(
        config_source(None, true, Some(String::new()), Some("/def".into())),
        Some(("/def".to_string(), false))
    );
    assert_eq!(
        config_source(None, false, Some("/rec".into()), None),
        None
    );
}

#[test]
fn shell_names_parse_without_case() {
    assert_eq!(ShellName::parse("BASH").unwrap(), ShellName::Bash);
    assert_eq!(ShellName::parse("nu").unwrap(), ShellName::Nushell);
    assert_eq!(ShellName::parse("tcsh").unwrap_err(), "unknown shell: tcsh");
    assert_eq!(ShellName::Elvish.name(), "elvish");
}

#[test]
fn decimal_notation() {
    assert_eq!(decimal_text(0), "0");
    assert_eq!(decimal_text(7), "7");
    assert_eq!(decimal_text(1234567890123), "1234567890123");
    assert_eq!(decimal_text(u128::MAX), u128::MAX.to_string());
}

#[test]
fn envrc_literal_export_and_path_add() {
    let mut out = EnvSet::new();
    let mut warnings = Vec::new();
    let d = parse_line("export PLAIN=ok").unwrap();
    assert!(apply_directive(&mut out, "/p", d, &mut warnings).is_none());
    let d = parse_line("PATH_add ./bin").unwrap();
    assert!(apply_directive(&mut out, "/p", d, &mut warnings).is_none());
    let d = parse_line("export BAD=$HOME/x").unwrap();
    assert!(apply_directive(&mut out, "/p", d, &mut warnings).is_none());
    let d = parse_line("dotenv").unwrap();
    assert!(matches!(
        apply_directive(&mut out, "/p", d, &mut warnings),
        Some(EnvrcLoad::Dotenv { file, if_exists: false }) if file.is_empty()
    ));
    assert_eq!(out.get("PLAIN").unwrap(), &vec!["ok".to_string()]);
    assert_eq!(out.get("PATH").unwrap(), &vec!["/p/./bin".to_string()]);
    assert!(out.get("BAD").is_none());
    assert_eq!(warnings, vec!["export BAD=$HOME/x".to_string()]);
}

#[test]
fn envrc_unsupported_lines_warn_and_are_skipped() {
    let lines = unsupported_report("/p/.envrc", &vec!["export BAD=$HOME/x".to_string()]);
    assert_eq!(
        lines,
        vec![
            "cade: ignored 1 unsupported line(s) in /p/.envrc (not executed):".to_string(),
            "    export BAD=$HOME/x".to_string(),
        ]
    );
    assert!(unsupported_report("/p/.envrc", &vec![]).is_empty());
}

#[test]
fn warning_threshold_prefers_positive_environment_value() {
    assert_eq!(long_running_warning_ms(Some("250"), Some(9)), Some(250));
    assert_eq!(long_running_warning_ms(Some("0"), Some(9)), Some(9));
    assert_eq!(long_running_warning_ms(Some("soon"), None), None);
    assert_eq!(long_running_warning_ms(None, Some(9)), Some(9));
    assert_eq!(parse_u64("+42"), Some(42));
    assert_eq!(parse_u64("18446744073709551615"), Some(u64::MAX));
    assert_eq!(parse_u64("18446744073709551616"), None);
    assert_eq!(parse_u64(""), None);
    assert_eq!(parse_u64(" 1"), None);
}

#[test]
fn assignment_keys_are_all_caps() {
    assert!(is_assignment_key("FOO_BAR"));
    assert!(is_assignment_key("_X1"));
    assert!(!is_assignment_key("Foo"));
    assert!(!is_assignment_key(""));
}

#[test]
fn dev_shell_json_bytes() {
    let raw = br#"{"variables":{"PATH":{"type":"exported","value":"/a:/b"},"NIX_CFLAGS":{"type":"exported","value":"x"},"buildPhase":{"type":"var","value":"make"},"MY_VAR":{"type":"exported","value":"1"},"ARR":{"type":"array","value":["x"]}}}"#;
    let env = EnvSet::from_json(raw).unwrap();
    assert_eq!(env.len(), 2);
    assert_eq!(env.get("PATH").unwrap(), &vec!["/a".to_string(), "/b".to_string()]);
    assert_eq!(env.get("MY_VAR").unwrap(), &vec!["1".to_string()]);
    let e = EnvSet::from_json(b"{\"variables\":").unwrap_err();
    assert_eq!(e, JsonEnvError::NotJson);
    assert_eq!(e.message(), "parsing json");
    assert_eq!(EnvSet::from_json(b"[]").unwrap_err(), JsonEnvError::NoVariables);
    assert_eq!(EnvSet::from_json(br#"{"variables":3}"#).unwrap_err(), JsonEnvError::VariablesNotObject);
}

#[test]
fn layer_loader_arguments() {
    assert_eq!(flake_installable("/p", None), "/p");
    assert_eq!(flake_installable("/p", Some("")), "/p");
    assert_eq!(flake_installable("/p", Some("dev")), "/p#dev");
    assert_eq!(shell_file_path("/p", ""), "/p/shell.nix");
    assert_eq!(shell_file_path("/p", "other.nix"), "/p/other.nix");
}
