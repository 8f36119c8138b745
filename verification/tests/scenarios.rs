//! Activation and exit as a shell sees them: the statements written for
//! concrete layers, snapshots and recorded state.
use cade::cadefile::{plan_keyword, LayerStep};
use cade::compose::{rollup_envs, RollupResult};
use cade::control::{approved_run, NOT_PERMITTED};
use cade::script::{activation_commands, render, restore_commands, ActivationContext};
use cade::session::{parse_snapshot, read_keylist};
use cade::shells::ShellName;
use cade::types::{CadeAction, CadeLayer, EnvSet, Keyword};

fn layer_from_env(text: &str) -> CadeLayer {
    let mut layer = CadeLayer::new(0, "/p");
    layer.push_action(CadeAction::Environ(EnvSet::from_envs(text).unwrap()));
    layer
}

fn context(baseline: Vec<(String, String)>, live: &[&str], session: Option<&str>) -> ActivationContext {
    ActivationContext {
        new_session: session.map(|s| s.to_string()),
        baseline,
        live_keys: live.iter().map(|s| s.to_string()).collect(),
        layer_paths: vec!["/p".to_string()],
        state_dir: "/state".to_string(),
        config_path: None,
        hooks_json: "[]".to_string(),
        watches_json: "{}".to_string(),
    }
}

fn activate_bash(r: &RollupResult, cx: &ActivationContext) -> String {
    render(&ShellName::Bash, &activation_commands(r, cx))
}

fn pairs(v: &[(&str, &str)]) -> Vec<(String, String)> {
    v.iter().map(|(k, x)| (k.to_string(), x.to_string())).collect()
}

#[test]
fn nested_layers_compose_child_first() {
    let parent = layer_from_env("A=1\nPATH=/parent/bin\n");
    let child = layer_from_env("B=2\nPATH=/child/bin\n");
    let r = rollup_envs(vec![parent, child]);
    let s = activate_bash(&r, &context(vec![], &[], None));
    assert!(s.contains("export A='1';"), "missing A: {s}");
    assert!(s.contains("export B='2';"), "missing B: {s}");
    assert!(s.contains("export PATH='/child/bin:/parent/bin'"), "PATH not child-first: {s}");
}

#[test]
fn pure_discards_ambient_but_keeps_inherited_layers() {
    let parent = layer_from_env("INHERITED=1\n");
    let mut child = layer_from_env("CHILD=2\n");
    child.push_action(CadeAction::Purify);
    let r = rollup_envs(vec![parent, child]);
    let s = activate_bash(&r, &context(vec![], &["AMBIENT_TEST", "PWD", "HOME"], None));
    assert!(s.contains("unset AMBIENT_TEST;"), "ambient not purged: {s}");
    assert!(s.contains("export INHERITED='1';"), "inherited dropped: {s}");
    assert!(s.contains("export CHILD='2';"), "child missing: {s}");
    assert!(!s.contains("unset PWD;"), "must not purge PWD: {s}");
    assert!(!s.contains("unset HOME;"), "must not purge HOME: {s}");
    assert!(s.contains("export __CADE_PURE='1';"));
}

#[test]
fn hostile_env_value_is_single_quoted_and_inert() {
    let r = rollup_envs(vec![layer_from_env("EVIL=$(touch /tmp/cade_pwned)\n")]);
    let s = activate_bash(&r, &context(vec![], &[], None));
    assert!(s.contains("export EVIL='$(touch /tmp/cade_pwned)';"), "value not single-quoted: {s}");
    assert!(!s.contains("EVIL=\""), "double-quoted form present: {s}");
}

#[test]
fn first_activation_emits_session_id_not_an_env_blob() {
    let r = rollup_envs(vec![layer_from_env("A=1\n")]);
    let s = activate_bash(&r, &context(vec![], &["SOMESECRET"], Some("42-7")));
    assert!(s.contains("export __CADE_SESSION='42-7';"), "no session id: {s}");
    assert!(!s.contains("SOMESECRET"), "ambient must not be duplicated into the env: {s}");
    assert!(s.contains("export __CADE_LAYERS='/p';"));
    assert!(s.contains("export __CADE_STATE_DIR='/state';"));
    assert!(s.contains("export __CADE_SET='A';"));
    assert!(s.contains("export __CADE_UNSET='';"));
    assert!(s.contains("export __CADE_PURE='0';"));
    assert!(!s.contains("__CADE_CONFIG_PATH"));
}

#[test]
fn layer_cannot_set_cade_internal_or_shell_managed_vars() {
    let layer = layer_from_env(
        "__CADE_SESSION=../../evil\n__CADE_LAYERS=x\nPWD=/evil\nSHLVL=99\nGOOD=ok\n",
    );
    let r = rollup_envs(vec![layer]);
    let s = activate_bash(&r, &context(vec![], &[], None));
    assert!(s.contains("export GOOD='ok';"), "{s}");
    assert!(!s.contains("evil"), "session/traversal value leaked: {s}");
    assert!(!s.contains("export PWD="), "PWD must not be layer-set: {s}");
    assert!(!s.contains("export SHLVL="), "SHLVL must not be layer-set: {s}");
    assert!(!s.contains("export __CADE_LAYERS='x';"), "{s}");
}

#[test]
fn path_like_var_concats_with_ambient_layer_first() {
    let r = rollup_envs(vec![layer_from_env("PATH=/layer/bin\n")]);
    let s = activate_bash(&r, &context(pairs(&[("PATH", "/usr/bin")]), &["PATH"], None));
    assert!(s.contains("export PATH='/layer/bin:/usr/bin';"), "{s}");
}

#[test]
fn hard_replace_drops_ambient() {
    let r = rollup_envs(vec![layer_from_env("PATH:=/only/this\n")]);
    let s = activate_bash(&r, &context(pairs(&[("PATH", "/usr/bin")]), &["PATH"], None));
    assert!(s.contains("export PATH='/only/this';"), "hard replace should drop ambient: {s}");
}

#[test]
fn scalar_var_replaces_ambient() {
    let r = rollup_envs(vec![layer_from_env("EDITOR=vim\n")]);
    let s = activate_bash(&r, &context(pairs(&[("EDITOR", "nano")]), &["EDITOR"], None));
    assert!(s.contains("export EDITOR='vim';"), "{s}");
    assert!(!s.contains("EDITOR='nano:vim'") && !s.contains("EDITOR='vim:nano'"), "{s}");
}

#[test]
fn concat_uses_snapshot_ambient_so_reloads_dont_grow() {
    let baseline = parse_snapshot("PATH=/orig");
    let r = rollup_envs(vec![layer_from_env("PATH=/layer/bin\n")]);
    // the live PATH already holds the layer's value from an earlier activation
    let s = activate_bash(&r, &context(baseline, &["PATH"], None));
    assert!(s.contains("export PATH='/layer/bin:/orig';"), "concat must use snapshot ambient: {s}");
}

#[test]
fn inline_assignment_sets_a_var() {
    let kw = Keyword::from_str("SOMEVAR=SOMEVAL").unwrap();
    let mut layer = CadeLayer::new(0, "/p");
    match plan_keyword(kw) {
        LayerStep::Act(a) => layer.push_action(a),
        other => panic!("expected an action, got {other:?}"),
    }
    let r = rollup_envs(vec![layer]);
    let s = activate_bash(&r, &context(vec![], &[], None));
    assert!(s.contains("export SOMEVAR='SOMEVAL';"), "{s}");
}

#[test]
fn restore_reverts_only_cade_keys_and_leaves_pwd_alone() {
    let prev = parse_snapshot("A=old\u{1f}PWD=/somewhere");
    let set = read_keylist("A\u{1f}B");
    let s = render(&ShellName::Bash, &restore_commands(&prev, &set, &vec![], false, &vec![], true));
    assert!(s.contains("export A='old';"), "A not restored: {s}");
    assert!(s.contains("unset B;"), "B not unset: {s}");
    assert!(!s.contains("PWD"), "restore touched PWD: {s}");
    assert!(s.contains("unset __CADE_SESSION;"));
    assert!(s.contains("unset __CADE_LAYERS;"));
}

#[test]
fn restore_after_pure_brings_back_ambient() {
    let prev = parse_snapshot("AMBIENT=val\u{1f}PWD=/old");
    let set = read_keylist("LAYERVAR");
    let s = render(&ShellName::Bash, &restore_commands(&prev, &set, &vec![], true, &vec![], true));
    assert!(s.contains("export AMBIENT='val';"), "ambient not restored: {s}");
    assert!(s.contains("unset LAYERVAR;"), "layer var not removed: {s}");
    assert!(!s.contains("PWD"), "restore touched PWD: {s}");
}

#[test]
fn restore_tolerates_missing_prev_snapshot() {
    let set = read_keylist("A\u{1f}B");
    let s = render(&ShellName::Bash, &restore_commands(&vec![], &set, &vec![], false, &vec![], false));
    assert!(s.contains("unset A;"));
    assert!(s.contains("unset B;"));
    assert!(s.contains("unset __CADE_LAYERS;"));
    assert!(!s.contains("__CADE_SESSION"), "a reload keeps the session: {s}");
}

#[test]
fn exit_restores_cleared_variables() {
    let prev = parse_snapshot("GONE=back\u{1f}OTHER=x");
    let unset = read_keylist("GONE\u{1f}NEVER");
    let s = render(&ShellName::Bash, &restore_commands(&prev, &vec![], &unset, false, &vec![], true));
    assert!(s.contains("export GONE='back';"), "{s}");
    assert!(!s.contains("NEVER"), "{s}");
    assert!(!s.contains("OTHER"), "{s}");
}

#[test]
fn nested_shells_share_session_without_corrupting_restore() {
    let prev = parse_snapshot("PATH=/orig");
    let set = read_keylist("PATH");
    let cmds = restore_commands(&prev, &set, &vec![], false, &vec![], false);
    let s = render(&ShellName::Bash, &cmds);
    assert!(s.contains("export PATH='/orig';"), "child restore: {s}");
    // the snapshot stays, so the parent's later restore works the same way
    let again = render(&ShellName::Bash, &restore_commands(&prev, &set, &vec![], false, &vec![], true));
    assert!(again.contains("export PATH='/orig';"), "parent restore: {again}");
}

#[test]
fn inline_assignment_hard_replace_drops_ambient() {
    let kw = Keyword::from_str("PATH:=/only/this").unwrap();
    let mut layer = CadeLayer::new(0, "/p");
    match plan_keyword(kw) {
        LayerStep::Act(a) => layer.push_action(a),
        other => panic!("expected an action, got {other:?}"),
    }
    let r = rollup_envs(vec![layer]);
    let s = activate_bash(&r, &context(pairs(&[("PATH", "/usr/bin")]), &["PATH"], None));
    assert!(s.contains("export PATH='/only/this';"), "hard replace should drop ambient: {s}");
}

#[test]
fn disallowing_a_layer_caps_the_run_below_it() {
    // tip first: the sub directory is allowed, its parent is not
    let run = approved_run(&vec![true, false]);
    assert_eq!(run, 1);
    let layers = vec![layer_from_env("A=1\n"), layer_from_env("B=2\n")];
    // parent-first for the rollup: only the layers of the run compose
    let composed: Vec<CadeLayer> = layers.into_iter().skip(2 - run).collect();
    let s = activate_bash(&rollup_envs(composed), &context(vec![], &[], None));
    assert!(s.contains("export B='2';"), "{s}");
    assert!(!s.contains("export A="), "disallowed parent must be excluded: {s}");
    // activating at the disallowed parent composes nothing and is refused
    assert_eq!(approved_run(&vec![false]), 0);
}

#[test]
fn activation_requires_permission() {
    assert_eq!(approved_run(&vec![false]), 0);
    assert!(NOT_PERMITTED.contains("not permitted"), "{NOT_PERMITTED}");
}

#[test]
fn unreadable_names_do_not_stop_the_restore() {
    // a `.env` line `=x` gives an empty name; the shell never sees it, and
    // the other variables are still put back on exit
    let layer = layer_from_env("=x\nPATH=/layer\n");
    let r = rollup_envs(vec![layer]);
    let baseline = parse_snapshot("PATH=/orig");
    let s = activate_bash(&r, &context(baseline.clone(), &["PATH"], None));
    assert!(s.contains("export PATH='/layer:/orig';"), "{s}");
    assert!(s.contains("export __CADE_SET='\u{1f}PATH';"), "{s}");
    assert!(!s.contains("export ="), "{s}");
    let set = read_keylist("\u{1f}PATH");
    let back = render(&ShellName::Bash, &restore_commands(&baseline, &set, &vec![], false, &vec![], true));
    assert!(back.contains("export PATH='/orig';"), "{back}");
}
