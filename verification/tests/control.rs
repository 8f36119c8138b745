use cade::control::{
    allowed_message, approved_run, build_watch_state, cade_chain_len, find_cade_root, gap_fill,
    hook_label, hook_log_message, key_list_message, layer_key, loaded_message, permission_message,
    reload_plan, restore_needed, roots_in_same_cade_tree, snapshot_file_name, snapshot_session,
    status_report, unload_message, watches_are_stale, Announce, DISALLOWED_REMINDER,
};
use cade::types::{HookType, InnerHook};
use cade::control::{snapshot_collectable, SNAPSHOT_MAX_AGE_SECS};

fn strings(v: &[&str]) -> Vec<String> {
    v.iter().map(|s| s.to_string()).collect()
}

#[test]
fn find_cade_root_walks_up_to_innermost() {
    // from a/b/c: c and b have none, a has one
    assert_eq!(find_cade_root(&vec![false, false, true, true]), Some(2));
    assert_eq!(find_cade_root(&vec![true, true]), Some(0));
    assert_eq!(find_cade_root(&vec![false, false]), None);
}

#[test]
fn chain_stops_at_first_unconfigured_parent() {
    assert_eq!(cade_chain_len(&vec![false, true, true, false, true], 1), 2);
    assert_eq!(cade_chain_len(&vec![true, true], 0), 2);
}

#[test]
fn run_caps_at_unapproved_ancestor() {
    assert_eq!(approved_run(&vec![true, false, true]), 1);
    assert_eq!(approved_run(&vec![true, true]), 2);
    assert_eq!(approved_run(&vec![false, true]), 0);
}

#[test]
fn allow_gap_fills_up_to_the_approved_base() {
    // tip, mid unapproved; base approved: both tip and mid get approved
    assert_eq!(gap_fill(&vec![false, false, true]), 2);
    // nothing approved yet: only the tip
    assert_eq!(gap_fill(&vec![false, false]), 1);
    // tip already approved
    assert_eq!(gap_fill(&vec![true, false]), 0);
    assert_eq!(gap_fill(&vec![]), 0);
}

#[test]
fn reload_of_inactive_shell() {
    let p = reload_plan(false, false, Some(true), false);
    assert!(!p.restore && p.activate == Some(Announce::Loaded) && !p.remind);
    let p = reload_plan(false, false, Some(false), false);
    assert!(!p.restore && p.activate.is_none() && p.remind);
    let p = reload_plan(false, false, None, false);
    assert!(!p.restore && p.activate.is_none() && !p.remind);
}

#[test]
fn reload_of_fresh_activation_does_nothing() {
    let p = reload_plan(true, false, Some(true), true);
    assert!(!p.restore && p.activate.is_none() && !p.remind);
}

#[test]
fn reload_of_stale_activation() {
    // same tree, permitted: quiet restore, then announced as a reload
    let p = reload_plan(true, true, Some(true), true);
    assert!(p.restore && !p.finalise && !p.announce_unload);
    assert_eq!(p.activate, Some(Announce::Reloaded));
    // another tree: the unload is announced and the new tree loads
    let p = reload_plan(true, true, Some(true), false);
    assert!(p.restore && !p.finalise && p.announce_unload);
    assert_eq!(p.activate, Some(Announce::Loaded));
    // left the tree: full teardown, no reminder
    let p = reload_plan(true, true, None, false);
    assert!(p.restore && p.finalise && p.announce_unload && p.activate.is_none() && !p.remind);
    // moved to a root that may not load: teardown and reminder
    let p = reload_plan(true, true, Some(false), true);
    assert!(p.restore && p.finalise && p.announce_unload && p.activate.is_none() && p.remind);
}

#[test]
fn exit_with_no_cade_state_is_a_noop() {
    assert!(!restore_needed(false, false, false));
    assert!(restore_needed(false, true, false));
}

#[test]
fn stale_watches() {
    let state = build_watch_state(
        "/p",
        strings(&["/p", "/"]),
        &vec![
            ("/p/.cade".to_string(), Some((5, 10))),
            ("/p/.env".to_string(), None),
            ("/p/flake.nix".to_string(), Some((7, 1))),
        ],
    );
    assert_eq!(state.files.len(), 2);
    let paths = strings(&["/p", "/"]);
    let same = vec![Some((5u128, 10u64)), Some((7u128, 1u64))];
    assert!(!watches_are_stale(&state, Some("/p"), &paths, &same));
    assert!(watches_are_stale(&state, None, &paths, &same), "left the tree");
    assert!(watches_are_stale(&state, Some("/q"), &paths, &same), "another root");
    assert!(watches_are_stale(&state, Some("/p"), &strings(&["/p"]), &same), "layer set changed");
    assert!(watches_are_stale(&state, Some("/p"), &paths, &vec![Some((5, 10)), Some((8, 1))]));
    assert!(watches_are_stale(&state, Some("/p"), &paths, &vec![Some((5, 10)), None]));
}

#[test]
fn same_tree_roots() {
    let state = build_watch_state("/a/b", strings(&["/a/b", "/a"]), &vec![]);
    assert!(roots_in_same_cade_tree(&state, "/a/b", &vec![]));
    assert!(roots_in_same_cade_tree(&state, "/a", &strings(&["/a"])));
    assert!(roots_in_same_cade_tree(&state, "/a/b/c", &strings(&["/a/b/c", "/a/b", "/a"])));
    assert!(!roots_in_same_cade_tree(&state, "/x", &strings(&["/x"])));
}

#[test]
fn layer_key_changes_with_files() {
    let files = vec![
        ("/p/.cade".to_string(), Some((123u128, 4u64))),
        ("/p/.env".to_string(), None),
        ("/p/x".to_string(), Some((0u128, 0u64))),
    ];
    assert_eq!(layer_key(&files), "/p/.cade:123:4\n/p/x:0:0");
    let changed = vec![("/p/.cade".to_string(), Some((124u128, 4u64)))];
    assert_ne!(layer_key(&files), layer_key(&changed));
}

#[test]
fn log_lines() {
    assert_eq!(hook_label(&HookType::LoadPre), "preload");
    assert_eq!(hook_label(&HookType::UnloadPost), "unload");
    let h = InnerHook { content: "echo hi".to_string(), kind: HookType::UnloadPre };
    assert_eq!(hook_log_message(&h), "cade: running preunload hook: echo hi");
    assert_eq!(
        key_list_message("set", &strings(&["B", "", "A", "B"])),
        Some("cade: set A, B.".to_string())
    );
    assert_eq!(key_list_message("cleared", &strings(&["", ""])), None);
    assert_eq!(loaded_message(Announce::Loaded, "/p", 3), "cade: loaded /p (+2 parent layer(s)).");
    assert_eq!(loaded_message(Announce::Reloaded, "/p", 1), "cade: reloaded /p.");
    assert_eq!(
        unload_message("/a\u{1f}/a/b"),
        Some("cade: unloaded /a/b (+1 parent layer(s)).".to_string())
    );
    assert_eq!(unload_message(""), None);
    assert_eq!(
        allowed_message("/p", 3),
        "cade is now allowed in /p (+2 parent layer(s), up to the approved base)."
    );
    assert_eq!(allowed_message("/p", 1), "cade is now allowed in /p.");
    assert_eq!(permission_message("/p", false), "cade is now disallowed in /p.");
    assert_eq!(DISALLOWED_REMINDER, "cade: disallowed - use \"cade allow\" to load this shell.");
    assert_eq!(Announce::Reloaded.verb(), "reloaded");
}

#[test]
fn status_reports_permission_and_layers() {
    let layers = vec![
        ("/a/b".to_string(), true),
        ("/a".to_string(), false),
        ("/".to_string(), true),
    ];
    let s = status_report("/a/b/c", Some("/a/b"), &layers, true, &strings(&["A", "B"]), &vec![]);
    assert_eq!(
        s,
        "cwd:     /a/b/c\nroot:    /a/b\nlayers (inner \u{2192} outer):\n  /a/b  [allowed, composed]\n  /a  [not allowed  (run 'cade allow' here)]\n  /  [allowed, but excluded (a lower layer is not allowed)]\nactive:  yes\nset:     A, B\n"
    );
    let s = status_report("/x", None, &vec![], false, &vec![], &vec![]);
    assert_eq!(s, "cwd:     /x\nroot:    none (not in a cade project)\nactive:  no\n");
}

#[test]
fn snapshot_file_names() {
    assert_eq!(snapshot_file_name("12-34"), "12-34.env");
    assert_eq!(snapshot_session("12-34.env"), Some("12-34".to_string()));
    assert_eq!(snapshot_session("notes.txt"), None);
}

#[test]
fn snapshots_of_live_or_recent_sessions_are_kept() {
    let live = strings(&["1-2"]);
    let old = Some((SNAPSHOT_MAX_AGE_SECS + 1, 0));
    assert!(!snapshot_collectable("1-2.env", &live, old));
    assert!(snapshot_collectable("3-4.env", &live, old));
    assert!(!snapshot_collectable("3-4.env", &live, Some((SNAPSHOT_MAX_AGE_SECS, 0))));
    assert!(snapshot_collectable("3-4.env", &live, Some((SNAPSHOT_MAX_AGE_SECS, 1))));
    assert!(!snapshot_collectable("3-4.env", &live, None));
    assert!(snapshot_collectable("notes.txt", &live, old));
    assert_eq!(SNAPSHOT_MAX_AGE_SECS, 30 * 24 * 3600);
}
