use cade::types::EnvSet;

fn strings(v: &[&str]) -> Vec<String> {
    v.iter().map(|s| s.to_string()).collect()
}

#[test]
fn parses_kv_skips_comments_and_blanks() {
    let env = EnvSet::from_envs("# comment\n\nFOO=bar\n  BAZ=qux  \n").unwrap();
    assert_eq!(env.get("FOO").unwrap(), &strings(&["bar"]));
    assert_eq!(env.get("BAZ").unwrap(), &strings(&["qux"]));
    assert_eq!(env.len(), 2);
    assert!(env.hard_is_empty());
}

#[test]
fn splits_colon_lists_and_merges_duplicate_keys() {
    let env = EnvSet::from_envs("PATH=/a:/b\nPATH=/c").unwrap();
    assert_eq!(env.get("PATH").unwrap(), &strings(&["/a", "/b", "/c"]));
}

#[test]
fn hard_replace_notation_is_recorded() {
    let env = EnvSet::from_envs("PATH:=/only/this\nFOO=bar").unwrap();
    assert_eq!(env.get("PATH").unwrap(), &strings(&["/only/this"]));
    assert!(env.is_hard("PATH"), "PATH:= should be hard");
    assert!(!env.is_hard("FOO"), "FOO= should not be hard");
}

#[test]
fn handles_export_prefix_quotes_and_inline_comments() {
    let env = EnvSet::from_envs(
        "export FOO=bar\nQUOTED=\"hello world\"\nSQ='a b'\nWITH=val # trailing note\n",
    )
    .unwrap();
    assert_eq!(env.get("FOO").unwrap(), &strings(&["bar"]));
    assert_eq!(env.get("QUOTED").unwrap(), &strings(&["hello world"]));
    assert_eq!(env.get("SQ").unwrap(), &strings(&["a b"]));
    assert_eq!(env.get("WITH").unwrap(), &strings(&["val"]));
}

#[test]
fn hash_inside_quotes_is_kept() {
    let env = EnvSet::from_envs("TOKEN=\"a#b\"\nFRAG=x#y\n").unwrap();
    assert_eq!(env.get("TOKEN").unwrap(), &strings(&["a#b"]));
    // a `#` without a preceding space is part of the value, not a comment
    assert_eq!(env.get("FRAG").unwrap(), &strings(&["x#y"]));
}

#[test]
fn errors_on_line_without_equals() {
    assert!(EnvSet::from_envs("NOT_A_PAIR").is_err());
}

#[test]
fn preserves_hostile_value_verbatim() {
    // parsing must not interpret shell metacharacters; quoting is the emitter's job
    let env = EnvSet::from_envs("EVIL=$(touch /tmp/pwned)").unwrap();
    assert_eq!(env.get("EVIL").unwrap(), &strings(&["$(touch /tmp/pwned)"]));
}
