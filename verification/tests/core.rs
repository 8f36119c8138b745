use cade::compose::{is_pure_preserved_key, is_shell_managed, rollup_envs};
use cade::session::session_from_environ;
use cade::types::{CadeAction, CadeLayer, EnvSet};

fn env_layer(pairs: &[(&str, &str)]) -> CadeLayer {
    let mut layer = CadeLayer::new(0, "/");
    let vars: Vec<(String, Vec<String>)> = pairs
        .iter()
        .map(|(k, v)| (k.to_string(), vec![v.to_string()]))
        .collect();
    layer.push_action(CadeAction::Environ(EnvSet::from_vars(vars)));
    layer
}

fn strings(v: &[&str]) -> Vec<String> {
    v.iter().map(|s| s.to_string()).collect()
}

#[test]
fn path_like_vars_concat_child_first() {
    let parent = env_layer(&[("PATH", "/parent/bin"), ("ONLY_PARENT", "p")]);
    let child = env_layer(&[("PATH", "/child/bin"), ("ONLY_CHILD", "c")]);
    let r = rollup_envs(vec![parent, child]);
    // PATH is path-like: child prepends, so child wins (child : parent)
    assert_eq!(r.get("PATH").unwrap(), &strings(&["/child/bin", "/parent/bin"]));
    assert!(r.absorbs("PATH"), "PATH should absorb ambient");
    // non-path scalars replace, not concat
    assert_eq!(r.get("ONLY_PARENT").unwrap(), &strings(&["p"]));
    assert_eq!(r.get("ONLY_CHILD").unwrap(), &strings(&["c"]));
    assert!(!r.absorbs("ONLY_PARENT"));
    assert!(!r.purified);
}

#[test]
fn scalar_var_replaces_child_wins() {
    // EDITOR is not path-like: the inner layer replaces, no concatenation
    let parent = env_layer(&[("EDITOR", "nano")]);
    let child = env_layer(&[("EDITOR", "vim")]);
    let r = rollup_envs(vec![parent, child]);
    assert_eq!(r.get("EDITOR").unwrap(), &strings(&["vim"]));
    assert!(!r.absorbs("EDITOR"));
}

#[test]
fn hard_replace_overrides_concat_default() {
    let parent = env_layer(&[("PATH", "/parent/bin")]);
    let mut child = CadeLayer::new(1, "/");
    child.push_action(CadeAction::Environ(EnvSet {
        vars: vec![("PATH".to_string(), strings(&["/only/child"]))],
        hard: strings(&["PATH"]),
    }));
    let r = rollup_envs(vec![parent, child]);
    // `:=` hard replace: drops the parent value and won't absorb ambient
    assert_eq!(r.get("PATH").unwrap(), &strings(&["/only/child"]));
    assert!(!r.absorbs("PATH"), "hard replace must not absorb ambient");
}

#[test]
fn concat_directive_marks_custom_var() {
    let mut parent = env_layer(&[("MYLIST", "/p")]);
    parent.push_action(CadeAction::Concat(vec!["MYLIST".to_string()]));
    let child = env_layer(&[("MYLIST", "/c")]);
    let r = rollup_envs(vec![parent, child]);
    // marked concat in the parent -> applies inward, child prepends
    assert_eq!(r.get("MYLIST").unwrap(), &strings(&["/c", "/p"]));
    assert!(r.absorbs("MYLIST"));
}

#[test]
fn clear_removes_inherited_and_is_reported_as_unset() {
    let parent = env_layer(&[("DROP_ME", "x"), ("KEEP", "y")]);
    let mut child = CadeLayer::new(1, "/");
    child.push_action(CadeAction::Clear(vec!["DROP_ME".into()]));
    let r = rollup_envs(vec![parent, child]);
    assert!(r.get("DROP_ME").is_none());
    assert!(r.get("KEEP").is_some());
    assert_eq!(r.unset, vec!["DROP_ME".to_string()]);
}

#[test]
fn clear_then_reset_in_later_layer_cancels_unset() {
    let l1 = env_layer(&[("X", "1")]);
    let mut l2 = CadeLayer::new(1, "/");
    l2.push_action(CadeAction::Clear(vec!["X".into()]));
    let l3 = env_layer(&[("X", "2")]);
    let r = rollup_envs(vec![l1, l2, l3]);
    assert_eq!(r.get("X").unwrap(), &strings(&["2"]));
    assert!(r.unset.is_empty(), "X was re-set, so it must not be unset");
}

#[test]
fn pure_flag_does_not_drop_inherited_layers() {
    let parent = env_layer(&[("FROM_PARENT", "kept")]);
    let mut child = CadeLayer::new(1, "/");
    child.push_action(CadeAction::Purify);
    child.push_action(CadeAction::Environ(EnvSet::from_vars(vec![(
        "FROM_CHILD".to_string(),
        vec!["c".to_string()],
    )])));
    let r = rollup_envs(vec![parent, child]);
    assert!(r.purified);
    // inherited parent-layer var survives pure (pure only discards ambient)
    assert_eq!(r.get("FROM_PARENT").unwrap(), &strings(&["kept"]));
    assert_eq!(r.get("FROM_CHILD").unwrap(), &strings(&["c"]));
}

#[test]
fn shell_managed_classification() {
    for k in [
        "PWD",
        "OLDPWD",
        "SHLVL",
        "_",
        "LAST_EXIT_CODE",
        "__CADE_PREV",
        "__CADE_SET",
    ] {
        assert!(is_shell_managed(k), "{k} should be shell-managed");
    }
    for k in ["PATH", "HOME", "MY_VAR"] {
        assert!(!is_shell_managed(k), "{k} should not be shell-managed");
    }
    assert!(is_pure_preserved_key("HOME"));
}

#[test]
fn extracts_live_session_from_proc_environ() {
    let raw = b"PATH=/bin\0__CADE_SESSION=123-456\0HOME=/tmp\0";
    assert_eq!(session_from_environ(raw), Some("123-456".to_string()));
}

#[test]
fn ignores_invalid_proc_session_values() {
    assert_eq!(session_from_environ(b"__CADE_SESSION=../bad\0"), None);
    assert_eq!(session_from_environ(b"__CADE_SESSION=\xff\0"), None);
}
