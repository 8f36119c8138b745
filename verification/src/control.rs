//! The decisions around an activation: which directories hold the layers
//! and which of them are approved, what a reload does, when the recorded
//! watches are stale, and what cade reports.
use vstd::prelude::*;
use crate::order::{sorted_names, sorted_of};
use crate::session::{keylist, nonempty_pieces, read_keylist};
use crate::text::{append, chars_of, concat, decimal, decimal_text, join, join_with, str_is};
use crate::types::{HookType, InnerHook};

verus! {

// ---- announcements and log lines ----

/// Whether an activation is a first load or a reload, so that a reload is
/// not reported as an unload and a load.
#[derive(Clone, Copy, Debug, PartialEq, Eq, Structural)]
pub enum Announce {
    Loaded,
    Reloaded,
}

impl Announce {
    /// The verb of the announcement.
    pub open spec fn verb_text(self) -> Seq<char> {
        match self {
            Announce::Loaded => "loaded"@,
            Announce::Reloaded => "reloaded"@,
        }
    }

    /// The verb of the announcement.
    pub fn verb(self) -> (r: &'static str)
        ensures
            r@ == self.verb_text(),
    {
        match self {
            Announce::Loaded => "loaded",
            Announce::Reloaded => "reloaded",
        }
    }
}

/// The name of the phase a hook runs in.
pub open spec fn hook_label_text(kind: HookType) -> Seq<char> {
    match kind {
        HookType::LoadPre => "preload"@,
        HookType::LoadPost => "load"@,
        HookType::UnloadPre => "preunload"@,
        HookType::UnloadPost => "unload"@,
    }
}

/// The name of the phase a hook runs in.
pub fn hook_label(kind: &HookType) -> (r: &'static str)
    ensures
        r@ == hook_label_text(*kind),
{
    match kind {
        HookType::LoadPre => "preload",
        HookType::LoadPost => "load",
        HookType::UnloadPre => "preunload",
        HookType::UnloadPost => "unload",
    }
}

/// The trace line for a hook about to run.
pub fn hook_log_message(hook: &InnerHook) -> (r: String)
    ensures
        r@ == "cade: running "@ + hook_label_text(hook.kind) + " hook: "@ + hook.content@,
{
    let mut out = "cade: running ".to_owned();
    append(&mut out, hook_label(&hook.kind));
    append(&mut out, " hook: ");
    append(&mut out, hook.content.as_str());
    out
}

/// The reminder shown where cade may not load.
pub const DISALLOWED_REMINDER: &'static str = "cade: disallowed - use \"cade allow\" to load this shell.";

/// The error of an activation that no allowed layer permits.
pub const NOT_PERMITTED: &'static str = "cade: not permitted here - use \"cade allow\" to load this shell.";

/// The names listed in a log line: the non-empty ones, sorted, each once.
pub open spec fn listed_names(keys: Seq<Seq<char>>) -> Seq<Seq<char>> {
    sorted_of(nonempty_pieces(keys).to_set())
}

/// The line that lists variable names under a label, when there are any:
/// `cade: <label> <names>.`, the names sorted and comma-separated.
pub open spec fn key_list_text(label: Seq<char>, keys: Seq<Seq<char>>) -> Option<Seq<char>> {
    let names = listed_names(keys);
    if names.len() == 0 {
        None
    } else {
        Some("cade: "@ + label + " "@ + join(names, ", "@) + "."@)
    }
}

/// The line that lists variable names under a label, when there are any.
pub fn key_list_message(label: &str, keys: &Vec<String>) -> (r: Option<String>)
    ensures
        match r {
            Some(t) => key_list_text(label@, keys.deep_view()) == Some(t@),
            None => key_list_text(label@, keys.deep_view()) is None,
        },
{
    let ghost k = keys.deep_view();
    let mut present: Vec<String> = Vec::new();
    let mut i: usize = 0;
    while i < keys.len()
        invariant
            0 <= i <= keys@.len(),
            k == keys.deep_view(),
            present.deep_view() == nonempty_pieces(k.take(i as int)),
        decreases keys@.len() - i,
    {
        proof {
            assert(k.take(i + 1).drop_last() =~= k.take(i as int));
            assert(k.take(i + 1).last() == keys@[i as int]@);
        }
        if chars_of(keys[i].as_str()).len() > 0 {
            let ghost before = present.deep_view();
            present.push(keys[i].clone());
            assert(present.deep_view() =~= before.push(keys@[i as int]@));
        }
        i += 1;
    }
    assert(k.take(keys@.len() as int) =~= k);
    let names = sorted_names(&present);
    if names.len() == 0 {
        return None;
    }
    let mut out = "cade: ".to_owned();
    append(&mut out, label);
    append(&mut out, " ");
    let joined = join_with(&names, ", ");
    append(&mut out, joined.as_str());
    append(&mut out, ".");
    Some(out)
}

/// ` (+<n> parent layer(s))` when `n` is positive.
pub open spec fn parent_note(n: nat) -> Seq<char> {
    if n > 0 {
        " (+"@ + decimal(n) + " parent layer(s))"@
    } else {
        Seq::empty()
    }
}

fn parent_note_text(n: usize) -> (r: String)
    ensures
        r@ == parent_note(n as nat),
{
    if n > 0 {
        let mut out = " (+".to_owned();
        append(&mut out, decimal_text(n as u128).as_str());
        append(&mut out, " parent layer(s))");
        out
    } else {
        String::new()
    }
}

/// The line that reports an activation of `layers` layers rooted at `root`.
pub fn loaded_message(announce: Announce, root: &str, layers: usize) -> (r: String)
    ensures
        r@ == "cade: "@ + announce.verb_text() + " "@ + root@ + parent_note(
            if layers > 0 {
                (layers - 1) as nat
            } else {
                0
            },
        ) + "."@,
{
    let mut out = "cade: ".to_owned();
    append(&mut out, announce.verb());
    append(&mut out, " ");
    append(&mut out, root);
    let extra = if layers > 0 {
        layers - 1
    } else {
        0
    };
    append(&mut out, parent_note_text(extra).as_str());
    append(&mut out, ".");
    out
}

/// The line that reports an unload, from the layer list cade recorded:
/// the innermost layer and how many parents it had, if any layer is listed.
pub open spec fn unload_text(layers_raw: Seq<char>) -> Option<Seq<char>> {
    let paths = keylist(layers_raw);
    if paths.len() == 0 {
        None
    } else {
        Some("cade: unloaded "@ + paths.last() + parent_note((paths.len() - 1) as nat) + "."@)
    }
}

/// The line that reports an unload, from the layer list cade recorded.
pub fn unload_message(layers_raw: &str) -> (r: Option<String>)
    ensures
        match r {
            Some(t) => unload_text(layers_raw@) == Some(t@),
            None => unload_text(layers_raw@) is None,
        },
{
    let paths = read_keylist(layers_raw);
    if paths.len() == 0 {
        return None;
    }
    let n = paths.len();
    let mut out = "cade: unloaded ".to_owned();
    append(&mut out, paths[n - 1].as_str());
    append(&mut out, parent_note_text(n - 1).as_str());
    append(&mut out, ".");
    assert(paths.deep_view().last() == paths@[n - 1]@);
    Some(out)
}

/// The line that reports a grant of permission at `root`, which also
/// approved the `upto - 1` parent layers below the approved base.
pub fn allowed_message(root: &str, upto: usize) -> (r: String)
    ensures
        r@ == "cade is now allowed in "@ + root@ + (if upto > 1 {
            " (+"@ + decimal((upto - 1) as nat) + " parent layer(s), up to the approved base)"@
        } else {
            Seq::empty()
        }) + "."@,
{
    let mut out = "cade is now allowed in ".to_owned();
    append(&mut out, root);
    if upto > 1 {
        append(&mut out, " (+");
        append(&mut out, decimal_text((upto - 1) as u128).as_str());
        append(&mut out, " parent layer(s), up to the approved base)");
    }
    append(&mut out, ".");
    out
}

/// The line that reports a permission set on one directory.
pub fn permission_message(path: &str, permission: bool) -> (r: String)
    ensures
        r@ == "cade is now "@ + (if permission {
            "allowed"@
        } else {
            "disallowed"@
        }) + " in "@ + path@ + "."@,
{
    let mut out = "cade is now ".to_owned();
    append(&mut out, if permission {
        "allowed"
    } else {
        "disallowed"
    });
    append(&mut out, " in ");
    append(&mut out, path);
    append(&mut out, ".");
    out
}

// ---- the directories that hold layers ----

/// The innermost directory with a configuration, among a directory and its
/// ancestors (`has_config[0]` is the directory itself, then its parent,
/// and so on): the first index that has one.
pub fn find_cade_root(has_config: &Vec<bool>) -> (r: Option<usize>)
    ensures
        match r {
            Some(i) => i < has_config@.len() && has_config@[i as int] && forall|j: int|
                0 <= j < i ==> !#[trigger] has_config@[j],
            None => forall|j: int| 0 <= j < has_config@.len() ==> !#[trigger] has_config@[j],
        },
{
    let mut i: usize = 0;
    while i < has_config.len()
        invariant
            0 <= i <= has_config@.len(),
            forall|j: int| 0 <= j < i ==> !#[trigger] has_config@[j],
        decreases has_config@.len() - i,
    {
        if has_config[i] {
            return Some(i);
        }
        i += 1;
    }
    None
}

/// How many of `flags`, from `from` on, hold before the first that does not.
pub fn leading_run(flags: &Vec<bool>, from: usize) -> (r: usize)
    requires
        from <= flags@.len(),
    ensures
        from + r <= flags@.len(),
        forall|j: int| from <= j < from + r ==> #[trigger] flags@[j],
        from + r == flags@.len() || !flags@[from + r],
{
    let mut i = from;
    while i < flags.len() && flags[i]
        invariant
            from <= i <= flags@.len(),
            forall|j: int| from <= j < i ==> #[trigger] flags@[j],
        decreases flags@.len() - i,
    {
        i += 1;
    }
    i - from
}

/// The layer directories from the root upward (tip first): the root and
/// each parent after it for as long as they have a configuration.
/// `has_config[root]` is the root itself, then its ancestors.
pub fn cade_chain_len(has_config: &Vec<bool>, root: usize) -> (r: usize)
    requires
        root <= has_config@.len(),
    ensures
        root + r <= has_config@.len(),
        forall|j: int| root <= j < root + r ==> #[trigger] has_config@[j],
        root + r == has_config@.len() || !has_config@[root + r],
{
    leading_run(has_config, root)
}

/// How many layers compose, tip first: the approved layers up to the first
/// that is not approved, which caps the run.
pub fn approved_run(approved: &Vec<bool>) -> (r: usize)
    ensures
        r <= approved@.len(),
        forall|j: int| 0 <= j < r ==> #[trigger] approved@[j],
        r == approved@.len() || !approved@[r as int],
{
    leading_run(approved, 0)
}

/// How many layers, tip first, a grant approves: up to (not including) the
/// nearest already approved one, the base; only the tip when none is
/// approved; none when there is no layer.
pub fn gap_fill(approved: &Vec<bool>) -> (r: usize)
    ensures
        r <= approved@.len(),
        forall|j: int| 0 <= j < r ==> !#[trigger] approved@[j],
        (exists|j: int| 0 <= j < approved@.len() && #[trigger] approved@[j]) ==> approved@[r as int],
        !(exists|j: int| 0 <= j < approved@.len() && #[trigger] approved@[j]) ==> r == if approved@.len() == 0 {
            0usize
        } else {
            1usize
        },
{
    match find_cade_root(approved) {
        Some(i) => i,
        None => if approved.len() == 0 {
            0
        } else {
            1
        },
    }
}

// ---- reloads ----

/// What a reload does, in order: a restore (finalised or not, announced or
/// not), then an activation or the reminder that cade is not allowed here.
#[derive(Debug)]
pub struct ReloadPlan {
    pub restore: bool,
    pub finalise: bool,
    pub announce_unload: bool,
    pub activate: Option<Announce>,
    pub remind: bool,
}

/// What a reload does. `active`: the shell has an activation; `stale`: its
/// recorded watches no longer hold (or cannot be read); `root_permitted`:
/// the permission of the current root, if there is one; `in_same_tree`:
/// the recorded root and the current one belong to one chain of layers.
///
/// An inactive shell activates where it may, and is reminded where it may
/// not. An active shell whose watches hold is left alone. Otherwise the
/// old activation is restored; where the new root may load, it is restored
/// without finalising and reloaded (announced as a reload within one tree),
/// else it is finalised and the reminder follows where there is a root.
pub fn reload_plan(active: bool, stale: bool, root_permitted: Option<bool>, in_same_tree: bool) -> (r:
    ReloadPlan)
    ensures
        !active ==> {
            &&& !r.restore
            &&& r.activate == if root_permitted == Some(true) {
                Some(Announce::Loaded)
            } else {
                None
            }
            &&& r.remind == (root_permitted == Some(false))
        },
        active && !stale ==> !r.restore && r.activate is None && !r.remind,
        active && stale ==> {
            let reactivating = root_permitted == Some(true);
            let same_tree = reactivating && in_same_tree;
            &&& r.restore
            &&& r.finalise == !reactivating
            &&& r.announce_unload == (!reactivating || !same_tree)
            &&& r.activate == if reactivating {
                Some(
                    if same_tree {
                        Announce::Reloaded
                    } else {
                        Announce::Loaded
                    },
                )
            } else {
                None
            }
            &&& r.remind == (!reactivating && root_permitted is Some)
        },
{
    let mut plan = ReloadPlan {
        restore: false,
        finalise: false,
        announce_unload: false,
        activate: None,
        remind: false,
    };
    if active {
        if stale {
            let reactivating = match root_permitted {
                Some(p) => p,
                None => false,
            };
            let same_tree = reactivating && in_same_tree;
            plan.restore = true;
            plan.finalise = !reactivating;
            plan.announce_unload = !reactivating || !same_tree;
            if reactivating {
                plan.activate = Some(
                    if same_tree {
                        Announce::Reloaded
                    } else {
                        Announce::Loaded
                    },
                );
            } else {
                plan.remind = root_permitted.is_some();
            }
        }
    } else {
        match root_permitted {
            Some(true) => {
                plan.activate = Some(Announce::Loaded);
            },
            Some(false) => {
                plan.remind = true;
            },
            None => {},
        }
    }
    plan
}

/// Whether a restore has anything to undo: some of cade's state is set.
pub fn restore_needed(has_layers: bool, has_session: bool, has_set: bool) -> (r: bool)
    ensures
        r == (has_layers || has_session || has_set),
{
    has_layers || has_session || has_set
}

// ---- watches ----

/// A watched file as recorded: its path, modification time in nanoseconds
/// since the epoch, and size.
#[derive(Debug, Clone)]
pub struct WatchEntry {
    pub path: String,
    pub mtime: u128,
    pub size: u64,
}

/// What an activation recorded to tell later whether it is stale.
#[derive(Debug, Clone)]
pub struct WatchState {
    /// Activation root: the innermost config directory in the hierarchy.
    pub root: String,
    pub cade_paths: Vec<String>,
    pub files: Vec<WatchEntry>,
}

/// The entries recorded for the files that could be read: for each file
/// with a modification time and size, its entry.
pub open spec fn watch_entries(files: Seq<(String, Option<(u128, u64)>)>) -> Seq<(Seq<char>, u128, u64)>
    decreases files.len(),
{
    if files.len() == 0 {
        Seq::empty()
    } else {
        let rest = watch_entries(files.drop_last());
        match files.last().1 {
            Some((m, z)) => rest.push((files.last().0@, m, z)),
            None => rest,
        }
    }
}

/// The recorded entries, as values.
pub open spec fn entries_view(e: Seq<WatchEntry>) -> Seq<(Seq<char>, u128, u64)> {
    e.map_values(|w: WatchEntry| (w.path@, w.mtime, w.size))
}

/// The watch state of an activation at `root` over the layer directories
/// `cade_paths`, from the files and what could be read of them.
pub fn build_watch_state(root: &str, cade_paths: Vec<String>, files: &Vec<(String, Option<(u128, u64)>)>) -> (r:
    WatchState)
    ensures
        r.root@ == root@,
        r.cade_paths.deep_view() == cade_paths.deep_view(),
        entries_view(r.files@) == watch_entries(files@),
{
    let mut entries: Vec<WatchEntry> = Vec::new();
    let mut i: usize = 0;
    while i < files.len()
        invariant
            0 <= i <= files@.len(),
            entries_view(entries@) == watch_entries(files@.take(i as int)),
        decreases files@.len() - i,
    {
        proof {
            assert(files@.take(i + 1).drop_last() =~= files@.take(i as int));
            assert(files@.take(i + 1).last() == files@[i as int]);
        }
        match files[i].1 {
            Some((m, z)) => {
                let ghost before = entries@;
                entries.push(WatchEntry { path: files[i].0.clone(), mtime: m, size: z });
                assert(entries_view(entries@) =~= entries_view(before).push((files@[i as int].0@, m, z)));
            },
            None => {},
        }
        i += 1;
    }
    assert(files@.take(files@.len() as int) =~= files@);
    WatchState { root: root.to_owned(), cade_paths, files: entries }
}

/// Whether two lists of strings are the same.
fn same_strings(a: &Vec<String>, b: &Vec<String>) -> (r: bool)
    ensures
        r == (a.deep_view() == b.deep_view()),
{
    if a.len() != b.len() {
        assert(a.deep_view().len() != b.deep_view().len());
        return false;
    }
    let mut i: usize = 0;
    while i < a.len()
        invariant
            a@.len() == b@.len(),
            0 <= i <= a@.len(),
            forall|j: int| 0 <= j < i ==> a@[j]@ == #[trigger] b@[j]@,
        decreases a@.len() - i,
    {
        if !str_is(a[i].as_str(), b[i].as_str()) {
            assert(a.deep_view()[i as int] != b.deep_view()[i as int]);
            return false;
        }
        i += 1;
    }
    assert(a.deep_view() =~= b.deep_view());
    true
}

/// Whether `key` is among the strings `v`.
fn has_string(v: &Vec<String>, key: &str) -> (r: bool)
    ensures
        r == v.deep_view().contains(key@),
{
    let mut i: usize = 0;
    while i < v.len()
        invariant
            0 <= i <= v@.len(),
            forall|j: int| 0 <= j < i ==> #[trigger] v.deep_view()[j] != key@,
        decreases v@.len() - i,
    {
        if str_is(v[i].as_str(), key) {
            assert(v.deep_view()[i as int] == key@);
            return true;
        }
        i += 1;
    }
    false
}

/// Whether the recorded watches are stale, given the current root (the
/// innermost directory with a configuration, if any), the current layer
/// directories from it upward, and what can be read now of each recorded
/// file (its modification time and size). They are stale when the shell
/// left the tree or moved to another root, when a configuration was added
/// or removed among the layer directories, or when a file disappeared or
/// changed.
pub fn watches_are_stale(
    state: &WatchState,
    current_root: Option<&str>,
    current_paths: &Vec<String>,
    stats: &Vec<Option<(u128, u64)>>,
) -> (r: bool)
    requires
        stats@.len() == state.files@.len(),
    ensures
        r == match current_root {
            None => true,
            Some(root) => root@ != state.root@ || current_paths.deep_view()
                != state.cade_paths.deep_view() || exists|i: int|
                0 <= i < stats@.len() && #[trigger] stats@[i] != Some(
                    (state.files@[i].mtime, state.files@[i].size),
                ),
        },
{
    let root = match current_root {
        Some(r) => r,
        None => {
            return true;
        },
    };
    if !str_is(root, state.root.as_str()) {
        return true;
    }
    if !same_strings(current_paths, &state.cade_paths) {
        return true;
    }
    let mut i: usize = 0;
    while i < stats.len()
        invariant
            stats@.len() == state.files@.len(),
            0 <= i <= stats@.len(),
            forall|j: int| 0 <= j < i ==> #[trigger] stats@[j] == Some(
                (state.files@[j].mtime, state.files@[j].size),
            ),
        decreases stats@.len() - i,
    {
        match stats[i] {
            Some((m, z)) => {
                if m != state.files[i].mtime || z != state.files[i].size {
                    return true;
                }
            },
            None => {
                return true;
            },
        }
        i += 1;
    }
    false
}

/// Whether the recorded root and the current one belong to one chain of
/// layers: the same root, or either among the other's layer directories.
pub fn roots_in_same_cade_tree(state: &WatchState, current_root: &str, current_paths: &Vec<String>) -> (r:
    bool)
    ensures
        r == (state.root@ == current_root@ || state.cade_paths.deep_view().contains(current_root@)
            || current_paths.deep_view().contains(state.root@)),
{
    str_is(state.root.as_str(), current_root) || has_string(&state.cade_paths, current_root)
        || has_string(current_paths, state.root.as_str())
}

/// The text `<path>:<mtime>:<size>` of a watched file.
pub open spec fn stamp_text(path: Seq<char>, mtime: u128, size: u64) -> Seq<char> {
    path + ":"@ + decimal(mtime as nat) + ":"@ + decimal(size as nat)
}

/// The stamps of the files that could be read.
pub open spec fn stamps(files: Seq<(String, Option<(u128, u64)>)>) -> Seq<Seq<char>>
    decreases files.len(),
{
    if files.len() == 0 {
        Seq::empty()
    } else {
        let rest = stamps(files.drop_last());
        match files.last().1 {
            Some((m, z)) => rest.push(stamp_text(files.last().0@, m, z)),
            None => rest,
        }
    }
}

/// The key a cached layer is stored under: the stamps of its watched files
/// that could be read, one per line. Any change to them makes a new key.
pub fn layer_key(files: &Vec<(String, Option<(u128, u64)>)>) -> (r: String)
    ensures
        r@ == join(stamps(files@), "\n"@),
{
    let mut parts: Vec<String> = Vec::new();
    let mut i: usize = 0;
    while i < files.len()
        invariant
            0 <= i <= files@.len(),
            parts.deep_view() == stamps(files@.take(i as int)),
        decreases files@.len() - i,
    {
        proof {
            assert(files@.take(i + 1).drop_last() =~= files@.take(i as int));
            assert(files@.take(i + 1).last() == files@[i as int]);
        }
        match files[i].1 {
            Some((m, z)) => {
                let mut t = files[i].0.clone();
                append(&mut t, ":");
                append(&mut t, decimal_text(m).as_str());
                append(&mut t, ":");
                append(&mut t, decimal_text(z as u128).as_str());
                let ghost before = parts.deep_view();
                parts.push(t);
                assert(parts.deep_view() =~= before.push(stamp_text(files@[i as int].0@, m, z)));
            },
            None => {},
        }
        i += 1;
    }
    assert(files@.take(files@.len() as int) =~= files@);
    join_with(&parts, "\n")
}

/// The file name of a session's snapshot.
pub fn snapshot_file_name(session: &str) -> (r: String)
    ensures
        r@ == session@ + ".env"@,
{
    concat(session, ".env")
}

/// The session a snapshot file belongs to, from its name.
pub fn snapshot_session(file_name: &str) -> (r: Option<String>)
    ensures
        match r {
            Some(s) => crate::text::ends_with(file_name@, ".env"@) && s@ + ".env"@ == file_name@,
            None => !crate::text::ends_with(file_name@, ".env"@),
        },
{
    if !crate::text::str_ends_with(file_name, ".env") {
        return None;
    }
    let v = chars_of(file_name);
    let suffix = chars_of(".env");
    let s = crate::text::string_of_range(v.as_slice(), 0, v.len() - suffix.len());
    proof {
        assert(s@ + ".env"@ =~= file_name@);
    }
    Some(s)
}

/// How long, in seconds, a snapshot that no live shell uses is kept after
/// its last change: thirty days.
pub const SNAPSHOT_MAX_AGE_SECS: u64 = 2592000;

/// Whether a live shell's session owns the snapshot file of that name.
pub open spec fn snapshot_in_use(file_name: Seq<char>, live: Seq<Seq<char>>) -> bool {
    exists|i: int| 0 <= i < live.len() && #[trigger] live[i] + ".env"@ == file_name
}

/// Whether an age (seconds and nanoseconds, when known) is over the limit.
pub open spec fn past_max_age(age: Option<(u64, u32)>) -> bool {
    match age {
        Some((secs, nanos)) => secs > SNAPSHOT_MAX_AGE_SECS || (secs == SNAPSHOT_MAX_AGE_SECS
            && nanos > 0),
        None => false,
    }
}

/// Whether a snapshot file is collected: no live shell's session owns it,
/// and it is known to be older than the limit.
pub fn snapshot_collectable(file_name: &str, live_sessions: &Vec<String>, age: Option<(u64, u32)>) -> (r: bool)
    ensures
        r == (!snapshot_in_use(file_name@, live_sessions.deep_view()) && past_max_age(age)),
{
    let ghost live = live_sessions.deep_view();
    let in_use = match snapshot_session(file_name) {
        Some(session) => {
            let mut found = false;
            let mut i: usize = 0;
            while i < live_sessions.len()
                invariant
                    0 <= i <= live_sessions@.len(),
                    live == live_sessions.deep_view(),
                    session@ + ".env"@ == file_name@,
                    found == exists|j: int| 0 <= j < i && #[trigger] live[j] + ".env"@ == file_name@,
                decreases live_sessions@.len() - i,
            {
                let same = str_is(live_sessions[i].as_str(), session.as_str());
                proof {
                    assert(live[i as int] == live_sessions@[i as int]@);
                    if live[i as int] + ".env"@ == file_name@ {
                        assert(live[i as int] =~= (live[i as int] + ".env"@).take(live[i as int].len() as int));
                        assert(session@ =~= (session@ + ".env"@).take(session@.len() as int));
                    }
                }
                if same {
                    found = true;
                }
                i += 1;
            }
            found
        },
        None => {
            proof {
                reveal_strlit(".env");
                if snapshot_in_use(file_name@, live) {
                    let j = choose|j: int| 0 <= j < live.len() && #[trigger] live[j] + ".env"@ == file_name@;
                    assert((live[j] + ".env"@).skip(live[j].len() as int) =~= ".env"@);
                }
            }
            false
        },
    };
    if in_use {
        return false;
    }
    match age {
        Some((secs, nanos)) => secs > SNAPSHOT_MAX_AGE_SECS || (secs == SNAPSHOT_MAX_AGE_SECS && nanos > 0),
        None => false,
    }
}

// ---- status ----

/// How the status report marks a layer directory: not allowed; allowed but
/// cut off by a layer below it that is not allowed; or composed.
pub open spec fn layer_mark(allowed: bool, capped: bool) -> Seq<char> {
    if !allowed {
        "not allowed  (run 'cade allow' here)"@
    } else if capped {
        "allowed, but excluded (a lower layer is not allowed)"@
    } else {
        "allowed, composed"@
    }
}

/// The lines of the layer directories, tip first, each with its mark.
pub open spec fn layer_lines(ls: Seq<(String, bool)>) -> Seq<char>
    decreases ls.len(),
{
    if ls.len() == 0 {
        Seq::empty()
    } else {
        let capped = exists|j: int| 0 <= j < ls.len() && !(#[trigger] ls[j]).1;
        layer_lines(ls.drop_last()) + "  "@ + ls.last().0@ + "  ["@ + layer_mark(ls.last().1, capped)
            + "]\n"@
    }
}

/// A line `<label><names>` with the names comma-separated, when there are
/// any.
pub open spec fn names_line(label: Seq<char>, names: Seq<Seq<char>>) -> Seq<char> {
    if names.len() > 0 {
        label + join(names, ", "@) + "\n"@
    } else {
        Seq::empty()
    }
}

/// The status report: the working directory; the root and its layer
/// directories with their marks, or that there is none; whether an
/// activation is on, and then the variables it set and cleared.
pub open spec fn status_text(
    cwd: Seq<char>,
    root: Option<Seq<char>>,
    layers: Seq<(String, bool)>,
    active: bool,
    set: Seq<Seq<char>>,
    unset: Seq<Seq<char>>,
) -> Seq<char> {
    "cwd:     "@ + cwd + "\n"@ + match root {
        Some(r) => "root:    "@ + r + "\n"@ + "layers (inner \u{2192} outer):\n"@ + layer_lines(layers),
        None => "root:    none (not in a cade project)\n"@,
    } + "active:  "@ + (if active {
        "yes"@
    } else {
        "no"@
    }) + "\n"@ + if active {
        names_line("set:     "@, set) + names_line("cleared: "@, unset)
    } else {
        Seq::empty()
    }
}

fn names_line_text(label: &str, names: &Vec<String>) -> (r: String)
    ensures
        r@ == names_line(label@, names.deep_view()),
{
    if names.len() > 0 {
        let mut out = label.to_owned();
        append(&mut out, join_with(names, ", ").as_str());
        append(&mut out, "\n");
        out
    } else {
        String::new()
    }
}

/// The status report.
pub fn status_report(
    cwd: &str,
    root: Option<&str>,
    layers: &Vec<(String, bool)>,
    active: bool,
    set: &Vec<String>,
    unset: &Vec<String>,
) -> (r: String)
    ensures
        r@ == status_text(
            cwd@,
            match root {
                Some(x) => Some(x@),
                None => None,
            },
            layers@,
            active,
            set.deep_view(),
            unset.deep_view(),
        ),
{
    let mut out = "cwd:     ".to_owned();
    append(&mut out, cwd);
    append(&mut out, "\n");
    let ghost head = out@;
    match root {
        Some(r) => {
            append(&mut out, "root:    ");
            append(&mut out, r);
            append(&mut out, "\n");
            append(&mut out, "layers (inner \u{2192} outer):\n");
            let ghost start = out@;
            let mut capped = false;
            let mut i: usize = 0;
            while i < layers.len()
                invariant
                    0 <= i <= layers@.len(),
                    out@ == start + layer_lines(layers@.take(i as int)),
                    capped == exists|j: int| 0 <= j < i && !(#[trigger] layers@[j]).1,
                decreases layers@.len() - i,
            {
                let allowed = layers[i].1;
                if !allowed {
                    capped = true;
                }
                let mark = if !allowed {
                    "not allowed  (run 'cade allow' here)"
                } else if capped {
                    "allowed, but excluded (a lower layer is not allowed)"
                } else {
                    "allowed, composed"
                };
                append(&mut out, "  ");
                append(&mut out, layers[i].0.as_str());
                append(&mut out, "  [");
                append(&mut out, mark);
                append(&mut out, "]\n");
                proof {
                    let t = layers@.take(i + 1);
                    assert(t.drop_last() =~= layers@.take(i as int));
                    assert(t.last() == layers@[i as int]);
                    assert(capped == exists|j: int| 0 <= j < t.len() && !(#[trigger] t[j]).1) by {
                        if capped {
                            if !allowed {
                                assert(!t[i as int].1);
                            } else {
                                let j = choose|j: int| 0 <= j < i && !(#[trigger] layers@[j]).1;
                                assert(!t[j].1);
                            }
                        }
                        if exists|j: int| 0 <= j < t.len() && !(#[trigger] t[j]).1 {
                            let j = choose|j: int| 0 <= j < t.len() && !(#[trigger] t[j]).1;
                            assert(t[j] == layers@[j]);
                        }
                    }
                    assert(out@ =~= start + layer_lines(t));
                }
                i += 1;
            }
            assert(layers@.take(layers@.len() as int) =~= layers@);
        },
        None => {
            append(&mut out, "root:    none (not in a cade project)\n");
        },
    }
    append(&mut out, "active:  ");
    append(&mut out, if active {
        "yes"
    } else {
        "no"
    });
    append(&mut out, "\n");
    if active {
        append(&mut out, names_line_text("set:     ", set).as_str());
        append(&mut out, names_line_text("cleared: ", unset).as_str());
    }
    out
}

/// The mark of the layer at `i`: whether it, or a layer below it, is not
/// allowed.
pub open spec fn mark_at(ls: Seq<(String, bool)>, i: int) -> Seq<char> {
    layer_mark(ls[i].1, exists|j: int| 0 <= j <= i && !(#[trigger] ls[j]).1)
}

/// The line of the layer at `i` in the status report.
pub open spec fn layer_line(ls: Seq<(String, bool)>, i: int) -> Seq<char> {
    "  "@ + ls[i].0@ + "  ["@ + mark_at(ls, i) + "]\n"@
}

/// The status report lists exactly the layers that an activation composes:
/// with `run` the number of layers `approved_run` composes from the same
/// flags (tip first), the report's lines are the layers' lines in order, and
/// the line of a layer reads "allowed, composed" exactly when the layer is
/// among those `run`, "not allowed" exactly when it is not allowed, and
/// "allowed, but excluded" otherwise.
pub proof fn law_status_marks_composed(ls: Seq<(String, bool)>, run: int, i: int)
    requires
        0 <= run <= ls.len(),
        forall|j: int| 0 <= j < run ==> (#[trigger] ls[j]).1,
        run == ls.len() || !ls[run].1,
        0 <= i < ls.len(),
    ensures
        layer_lines(ls.take(i + 1)) == layer_lines(ls.take(i)) + layer_line(ls, i),
        (mark_at(ls, i) == "allowed, composed"@) <==> i < run,
        (mark_at(ls, i) == "not allowed  (run 'cade allow' here)"@) <==> !ls[i].1,
        (mark_at(ls, i) == "allowed, but excluded (a lower layer is not allowed)"@) <==> (ls[i].1
            && run < i),
        layer_lines(ls.take(ls.len() as int)) == layer_lines(ls),
{
    reveal_strlit("allowed, composed");
    reveal_strlit("not allowed  (run 'cade allow' here)");
    reveal_strlit("allowed, but excluded (a lower layer is not allowed)");
    let t = ls.take(i + 1);
    assert(t.drop_last() =~= ls.take(i));
    assert(t.last() == ls[i]);
    assert((exists|j: int| 0 <= j < t.len() && !(#[trigger] t[j]).1) == (exists|j: int|
        0 <= j <= i && !(#[trigger] ls[j]).1)) by {
        if exists|j: int| 0 <= j < t.len() && !(#[trigger] t[j]).1 {
            let j = choose|j: int| 0 <= j < t.len() && !(#[trigger] t[j]).1;
            assert(ls[j] == t[j]);
        }
        if exists|j: int| 0 <= j <= i && !(#[trigger] ls[j]).1 {
            let j = choose|j: int| 0 <= j <= i && !(#[trigger] ls[j]).1;
            assert(ls[j] == t[j]);
        }
    }
    let capped = exists|j: int| 0 <= j <= i && !(#[trigger] ls[j]).1;
    if i < run {
        assert(!capped);
    } else {
        if ls[i].1 {
            assert(i != run);
            assert(!ls[run].1);
            assert(capped);
        }
    }
    assert(ls.take(ls.len() as int) =~= ls);
}

proof fn lemma_decimal_no_break(n: nat)
    ensures
        !decimal(n).contains('\n'),
    decreases n,
{
    if n >= 10 {
        lemma_decimal_no_break(n / 10);
        let d = decimal(n / 10);
        let c = crate::text::digit_char(n % 10);
        if d.push(c).contains('\n') {
            let i = choose|i: int| 0 <= i < d.push(c).len() && d.push(c)[i] == '\n';
            if i < d.len() {
                assert(d[i] == '\n');
            }
        }
    } else {
        let c = crate::text::digit_char(n);
        if seq![c].contains('\n') {
            let i = choose|i: int| 0 <= i < seq![c].len() && seq![c][i] == '\n';
        }
    }
}

proof fn lemma_stamps_lines(files: Seq<(String, Option<(u128, u64)>)>)
    requires
        forall|i: int| 0 <= i < files.len() ==> !(#[trigger] files[i]).0@.contains('\n'),
    ensures
        forall|i: int|
            0 <= i < stamps(files).len() ==> (#[trigger] stamps(files)[i]).len() > 0 && !stamps(
                files,
            )[i].contains('\n'),
    decreases files.len(),
{
    reveal_strlit(":");
    if files.len() > 0 {
        let d = files.drop_last();
        assert forall|i: int| 0 <= i < d.len() implies !(#[trigger] d[i]).0@.contains('\n') by {
            assert(d[i] == files[i]);
        }
        lemma_stamps_lines(d);
        let last = files.last();
        assert(last == files[files.len() - 1]);
        match last.1 {
            Some((m, z)) => {
                lemma_decimal_no_break(m as nat);
                lemma_decimal_no_break(z as nat);
                let t = stamp_text(last.0@, m, z);
                let p = last.0@;
                let a = decimal(m as nat);
                let b = decimal(z as nat);
                assert(t == p + seq![':'] + a + seq![':'] + b);
                if t.contains('\n') {
                    let i = choose|i: int| 0 <= i < t.len() && t[i] == '\n';
                    if i < p.len() {
                        assert(p[i] == '\n');
                    } else if i == p.len() {
                    } else if i < p.len() + 1 + a.len() {
                        assert(a[i - p.len() - 1] == '\n');
                    } else if i == p.len() + 1 + a.len() {
                    } else {
                        assert(b[i - p.len() - 2 - a.len()] == '\n');
                    }
                }
                let r = stamps(d);
                assert forall|i: int| 0 <= i < r.push(t).len() implies (#[trigger] r.push(t)[i]).len()
                    > 0 && !r.push(t)[i].contains('\n') by {
                    if i < r.len() {
                        assert(r.push(t)[i] == r[i]);
                    }
                }
            },
            None => {},
        }
    }
}

/// A cached layer is found again only while its watched files stand as
/// they were: different stamps (a file that appeared, disappeared, or
/// changed its modification time or size) give different keys, when no
/// path holds a line break.
pub proof fn law_layer_key_distinguishes(
    a: Seq<(String, Option<(u128, u64)>)>,
    b: Seq<(String, Option<(u128, u64)>)>,
)
    requires
        forall|i: int| 0 <= i < a.len() ==> !(#[trigger] a[i]).0@.contains('\n'),
        forall|i: int| 0 <= i < b.len() ==> !(#[trigger] b[i]).0@.contains('\n'),
        stamps(a) != stamps(b),
    ensures
        join(stamps(a), "\n"@) != join(stamps(b), "\n"@),
{
    reveal_strlit("\n");
    lemma_stamps_lines(a);
    lemma_stamps_lines(b);
    let sa = stamps(a);
    let sb = stamps(b);
    assert("\n"@ =~= seq!['\n']);
    if join(sa, "\n"@) == join(sb, "\n"@) {
        if sa.len() > 0 && sb.len() > 0 {
            crate::text::lemma_split_join(sa, '\n');
            crate::text::lemma_split_join(sb, '\n');
        } else if sa.len() == 0 && sb.len() == 0 {
            assert(sa =~= sb);
        } else {
            let ne = if sa.len() > 0 {
                sa
            } else {
                sb
            };
            crate::text::lemma_split_join(ne, '\n');
            crate::text::lemma_split_once(Seq::<char>::empty(), '\n');
            assert(crate::text::split(Seq::<char>::empty(), '\n') == seq![Seq::<char>::empty()]);
            assert(ne[0].len() > 0);
        }
    }
}

} // verus!
