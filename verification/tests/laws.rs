//! The laws of the library on concrete values.
use std::collections::HashMap;

use cade::compose::rollup_envs;
use cade::script::{activation_commands, restore_commands, ActivationContext, ShellCommand};
use cade::session::{
    ambient_snapshot, parse_snapshot, read_keylist, render_snapshot, snapshot_lookup, write_keylist,
};
use cade::control::layer_key;
use cade::shells::{is_valid_key, posix_single_quote, Elvish, Fish, ShellName, ShellOutput};
use cade::types::{CadeAction, CadeLayer, EnvSet, HookType, InnerHook};

/// What a shell does with the statements (hooks change nothing here).
fn apply(env: &mut HashMap<String, String>, cmds: &[ShellCommand]) {
    for c in cmds {
        match c {
            ShellCommand::SetVar(k, v) if is_valid_key(k) => {
                env.insert(k.clone(), v.clone());
            }
            ShellCommand::UnsetVar(k) if is_valid_key(k) => {
                env.remove(k);
            }
            _ => {}
        }
    }
}

fn var(env: &HashMap<String, String>, k: &str) -> String {
    env.get(k).cloned().unwrap_or_default()
}

/// Activates `layers` in a shell with `ambient` variables, then exits, the
/// way cade reads its own state back; returns the shell's variables.
fn activate_then_exit(ambient: &[(&str, &str)], layers: Vec<CadeLayer>) -> HashMap<String, String> {
    let vars: Vec<(String, String)> = ambient.iter().map(|(k, v)| (k.to_string(), v.to_string())).collect();
    let mut env: HashMap<String, String> = vars.iter().cloned().collect();
    let snapshot_text = render_snapshot(&ambient_snapshot(&vars));
    let baseline = parse_snapshot(&snapshot_text);
    let r = rollup_envs(layers);
    let cx = ActivationContext {
        new_session: Some("1-2".to_string()),
        baseline,
        live_keys: vars.iter().map(|(k, _)| k.clone()).collect(),
        layer_paths: vec!["/a".to_string(), "/a/b".to_string()],
        state_dir: "/s".to_string(),
        config_path: Some("/c.toml".to_string()),
        hooks_json: "[]".to_string(),
        watches_json: "{}".to_string(),
    };
    apply(&mut env, &activation_commands(&r, &cx));
    let prev = parse_snapshot(&snapshot_text);
    let set = read_keylist(&var(&env, "__CADE_SET"));
    let unset = read_keylist(&var(&env, "__CADE_UNSET"));
    let pure = var(&env, "__CADE_PURE") == "1";
    let hooks = vec![InnerHook { content: "echo bye".to_string(), kind: HookType::UnloadPost }];
    apply(&mut env, &restore_commands(&prev, &set, &unset, pure, &hooks, true));
    env
}

fn layer(text: &str, purify: bool, clears: &[&str]) -> CadeLayer {
    let mut l = CadeLayer::new(0, "/a");
    l.push_action(CadeAction::Environ(EnvSet::from_envs(text).unwrap()));
    if purify {
        l.push_action(CadeAction::Purify);
    }
    if !clears.is_empty() {
        l.push_action(CadeAction::Clear(clears.iter().map(|s| s.to_string()).collect()));
    }
    l
}

const AMBIENT: &[(&str, &str)] = &[
    ("PATH", "/usr/bin:/bin"),
    ("EDITOR", "nano"),
    ("HOME", "/home/u"),
    ("PWD", "/home/u/p"),
    ("DROPPED", "x"),
    ("KEEP", "k=v"),
];

#[test]
fn exit_restores_ambient_after_plain_activation() {
    let layers = vec![
        layer("PATH=/a/bin\nEDITOR=vim\nNEW=1\n", false, &[]),
        layer("PATH=/b/bin\nMORE=2\n", false, &["DROPPED"]),
    ];
    let env = activate_then_exit(AMBIENT, layers);
    let before: HashMap<String, String> =
        AMBIENT.iter().map(|(k, v)| (k.to_string(), v.to_string())).collect();
    assert_eq!(env, before);
}

#[test]
fn exit_restores_ambient_after_pure_activation() {
    let layers = vec![
        layer("PATH=/a/bin\nEDITOR=vim\n", false, &["KEEP"]),
        layer("NEW=1\n", true, &[]),
    ];
    let env = activate_then_exit(AMBIENT, layers);
    let before: HashMap<String, String> =
        AMBIENT.iter().map(|(k, v)| (k.to_string(), v.to_string())).collect();
    assert_eq!(env, before);
}

#[test]
fn activation_gives_composed_values() {
    let vars: Vec<(String, String)> = vec![("PATH".into(), "/usr/bin".into())];
    let r = rollup_envs(vec![layer("PATH=/a\nX=1:2\n", false, &[])]);
    let cx = ActivationContext {
        new_session: None,
        baseline: vars.clone(),
        live_keys: vec!["PATH".into()],
        layer_paths: vec![],
        state_dir: String::new(),
        config_path: None,
        hooks_json: String::new(),
        watches_json: String::new(),
    };
    let mut env: HashMap<String, String> = vars.into_iter().collect();
    apply(&mut env, &activation_commands(&r, &cx));
    assert_eq!(var(&env, "PATH"), "/a:/usr/bin");
    assert_eq!(var(&env, "X"), "1:2");
}

#[test]
fn snapshot_text_round_trips() {
    let e = vec![
        ("A".to_string(), "1".to_string()),
        ("B".to_string(), "x=y:z".to_string()),
        ("C".to_string(), String::new()),
    ];
    assert_eq!(parse_snapshot(&render_snapshot(&e)), e);
    assert_eq!(render_snapshot(&e), "A=1\u{1f}B=x=y:z\u{1f}C=");
    assert_eq!(parse_snapshot(&render_snapshot(&vec![])), vec![]);
}

#[test]
fn snapshot_lookup_takes_last_pair() {
    let e = parse_snapshot("A=1\u{1f}junk\u{1f}A=2\u{1f}B=3");
    assert_eq!(e.len(), 3);
    assert_eq!(snapshot_lookup(&e, "A"), Some("2".to_string()));
    assert_eq!(snapshot_lookup(&e, "B"), Some("3".to_string()));
    assert_eq!(snapshot_lookup(&e, "C"), None);
}

#[test]
fn ambient_snapshot_drops_cade_state() {
    let vars = vec![
        ("__CADE_SESSION".to_string(), "1".to_string()),
        ("PATH".to_string(), "/bin".to_string()),
    ];
    assert_eq!(ambient_snapshot(&vars), vec![("PATH".to_string(), "/bin".to_string())]);
}

#[test]
fn keylist_round_trips() {
    let keys = vec!["A".to_string(), "B_2".to_string()];
    assert_eq!(write_keylist(&keys), "A\u{1f}B_2");
    assert_eq!(read_keylist(&write_keylist(&keys)), keys);
    assert_eq!(read_keylist(""), Vec::<String>::new());
    assert_eq!(read_keylist("\u{1f}A\u{1f}\u{1f}"), vec!["A".to_string()]);
}

#[test]
fn posix_quote_reads_back() {
    let s = "it's $(x) \\ `y`";
    let q = posix_single_quote(s);
    assert_eq!(q, "'it'\\''s $(x) \\ `y`'");
    let inner = &q[1..q.len() - 1];
    assert_eq!(inner.replace("'\\''", "'"), s);
}

#[test]
fn invalid_key_writes_nothing_in_any_shell() {
    for shell in [
        ShellName::Fish,
        ShellName::Bash,
        ShellName::Zsh,
        ShellName::Nushell,
        ShellName::Elvish,
        ShellName::Murex,
    ] {
        assert_eq!(shell.set_env("a b", "v"), "");
        assert_eq!(shell.unset_env("1x"), "");
    }
}

#[test]
fn exit_keeps_mid_session_changes() {
    let vars: Vec<(String, String)> = vec![("EDITOR".into(), "nano".into())];
    let mut env: HashMap<String, String> = vars.iter().cloned().collect();
    let snapshot_text = render_snapshot(&ambient_snapshot(&vars));
    let r = rollup_envs(vec![layer("NEW=1\n", false, &[])]);
    let cx = ActivationContext {
        new_session: Some("s".into()),
        baseline: parse_snapshot(&snapshot_text),
        live_keys: vec!["EDITOR".into()],
        layer_paths: vec!["/a".into()],
        state_dir: "/s".into(),
        config_path: None,
        hooks_json: "[]".into(),
        watches_json: "{}".into(),
    };
    apply(&mut env, &activation_commands(&r, &cx));
    // the user changes things mid-session
    env.insert("MINE".into(), "1".into());
    env.insert("EDITOR".into(), "emacs".into());
    let set = read_keylist(&var(&env, "__CADE_SET"));
    let unset = read_keylist(&var(&env, "__CADE_UNSET"));
    apply(
        &mut env,
        &restore_commands(&parse_snapshot(&snapshot_text), &set, &unset, false, &vec![], true),
    );
    assert_eq!(var(&env, "MINE"), "1");
    assert_eq!(var(&env, "EDITOR"), "emacs");
    assert!(!env.contains_key("NEW"));
    assert!(!env.keys().any(|k| k.starts_with("__CADE_")));
}

/// What fish reads inside single quotes.
fn read_fish(quoted: &str) -> String {
    let mut out = String::new();
    let mut it = quoted.chars().peekable();
    while let Some(c) = it.next() {
        if c == '\\' && matches!(it.peek(), Some('\\') | Some('\'')) {
            out.push(it.next().unwrap());
        } else {
            out.push(c);
        }
    }
    out
}

#[test]
fn fish_and_elvish_quotes_read_back() {
    let v = "it's a \\ test \\n 'x'";
    let f = Fish.set_env("X", v);
    let body = f.strip_prefix("set -gx X '").unwrap().strip_suffix("';").unwrap();
    assert_eq!(read_fish(body), v);
    let e = Elvish.set_env("X", v);
    let body = e.strip_prefix("set-env X '").unwrap().strip_suffix("';").unwrap();
    assert_eq!(body.replace("''", "'"), v);
}

#[test]
fn layer_key_differs_when_a_file_changes() {
    let a = vec![("/p/.cade".to_string(), Some((1u128, 2u64)))];
    let b = vec![("/p/.cade".to_string(), Some((1u128, 3u64)))];
    let gone = vec![("/p/.cade".to_string(), None)];
    assert_ne!(layer_key(&a), layer_key(&b));
    assert_ne!(layer_key(&a), layer_key(&gone));
    assert_eq!(layer_key(&gone), "");
}

#[test]
fn reload_then_exit_restores_ambient() {
    let vars: Vec<(String, String)> =
        AMBIENT.iter().map(|(k, v)| (k.to_string(), v.to_string())).collect();
    let mut env: HashMap<String, String> = vars.iter().cloned().collect();
    let snapshot_text = render_snapshot(&ambient_snapshot(&vars));
    let context = |env: &HashMap<String, String>, session: Option<&str>| ActivationContext {
        new_session: session.map(|s| s.to_string()),
        baseline: parse_snapshot(&snapshot_text),
        live_keys: env.keys().cloned().collect(),
        layer_paths: vec!["/a".into()],
        state_dir: "/s".into(),
        config_path: None,
        hooks_json: "[]".into(),
        watches_json: "{}".into(),
    };
    let exit = |env: &mut HashMap<String, String>, finalise: bool| {
        let set = read_keylist(&var(env, "__CADE_SET"));
        let unset = read_keylist(&var(env, "__CADE_UNSET"));
        let pure = var(env, "__CADE_PURE") == "1";
        let cmds = restore_commands(&parse_snapshot(&snapshot_text), &set, &unset, pure, &vec![], finalise);
        apply(env, &cmds);
    };
    let first = rollup_envs(vec![layer("PATH=/a/bin\nEDITOR=vim\n", false, &["DROPPED"])]);
    let cx = context(&env, Some("9-9"));
    apply(&mut env, &activation_commands(&first, &cx));
    assert_eq!(var(&env, "PATH"), "/a/bin:/usr/bin:/bin");
    // the reload: a quiet restore that keeps the session, then a new tree
    exit(&mut env, false);
    assert_eq!(var(&env, "__CADE_SESSION"), "9-9");
    let second = rollup_envs(vec![layer("PATH=/b/bin\nOTHER=1\n", true, &["KEEP"])]);
    let cx = context(&env, None);
    apply(&mut env, &activation_commands(&second, &cx));
    assert_eq!(var(&env, "PATH"), "/b/bin");
    assert!(!env.contains_key("EDITOR"), "pure drops the ambient EDITOR");
    exit(&mut env, true);
    let before: HashMap<String, String> =
        AMBIENT.iter().map(|(k, v)| (k.to_string(), v.to_string())).collect();
    assert_eq!(env, before);
}

#[test]
fn murex_value_drops_quotes() {
    let out = cade::shells::Murex.set_env("X", "it's");
    assert_eq!(out, "export X='its'\n");
}
