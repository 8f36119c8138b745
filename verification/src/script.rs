//! The statements cade writes when it activates the layers and when it
//! restores the environment on exit: as commands, as their effect on an
//! environment, and as text for a shell.
use vstd::prelude::*;
use crate::assoc::{Entries, has_key, to_map};
use crate::compose::{RollupResult, pure_preserved, shell_managed};
use crate::order::{lemma_sorted_of_seq, sorted_names, sorted_of};
use crate::session::{
    UNIT_SEPARATOR, ambient_pairs, keylist, keylist_text, lemma_ambient_pairs_map,
    lemma_ambient_pairs_storable, law_keylist_keeps, lemma_pairs_map_dom, lemma_snapshot_pairs_storable,
    law_snapshot_round_trip, pairs_keys, pairs_map, pairs_view, render_pairs, snapshot_lookup,
    snapshot_pairs, storable_pair, write_keylist,
};
use crate::shells::{ShellOutput, is_ascii_alnum, valid_key};
use crate::text::{append, append_char, chars_of, join, join_with, starts_with};
use crate::types::{HookType, InnerHook};

verus! {

/// One statement for the shell.
pub enum ShellCommand {
    /// Set a variable to a value
    SetVar(String, String),
    /// Unset a variable
    UnsetVar(String),
    /// Run a hook command
    Hook(String),
}

/// What a statement stands for.
pub ghost enum Command {
    SetVar(Seq<char>, Seq<char>),
    UnsetVar(Seq<char>),
    Hook(Seq<char>),
}

impl ShellCommand {
    /// What the statement stands for.
    pub open spec fn model(&self) -> Command {
        match self {
            ShellCommand::SetVar(k, v) => Command::SetVar(k@, v@),
            ShellCommand::UnsetVar(k) => Command::UnsetVar(k@),
            ShellCommand::Hook(c) => Command::Hook(c@),
        }
    }
}

/// What the statements stand for.
pub open spec fn models(c: Seq<ShellCommand>) -> Seq<Command> {
    c.map_values(|x: ShellCommand| x.model())
}

// ---- effect on an environment ----

/// A variable's value, if it is set.
pub open spec fn value_of(env: Map<Seq<char>, Seq<char>>, x: Seq<char>) -> Option<Seq<char>> {
    if env.dom().contains(x) {
        Some(env[x])
    } else {
        None
    }
}

/// The environment after one statement. A statement with a key that is not
/// a valid name is never written, so it changes nothing; a hook is taken to
/// change no variable.
pub open spec fn step(env: Map<Seq<char>, Seq<char>>, c: Command) -> Map<Seq<char>, Seq<char>> {
    match c {
        Command::SetVar(k, v) => if valid_key(k) {
            env.insert(k, v)
        } else {
            env
        },
        Command::UnsetVar(k) => if valid_key(k) {
            env.remove(k)
        } else {
            env
        },
        Command::Hook(_) => env,
    }
}

/// The environment after the statements, in order.
pub open spec fn apply(env: Map<Seq<char>, Seq<char>>, cs: Seq<Command>) -> Map<
    Seq<char>,
    Seq<char>,
>
    decreases cs.len(),
{
    if cs.len() == 0 {
        env
    } else {
        step(apply(env, cs.drop_last()), cs.last())
    }
}

/// What a statement does to `x`: nothing (`None`), or leaves it with the
/// value (`Some(Some(v))`) or unset (`Some(None)`).
pub open spec fn touch(c: Command, x: Seq<char>) -> Option<Option<Seq<char>>> {
    match c {
        Command::SetVar(k, v) => if k == x {
            Some(Some(v))
        } else {
            None
        },
        Command::UnsetVar(k) => if k == x {
            Some(None)
        } else {
            None
        },
        Command::Hook(_) => None,
    }
}

/// What the last statement that concerns `x` leaves it as, if any does.
pub open spec fn last_touch(cs: Seq<Command>, x: Seq<char>) -> Option<Option<Seq<char>>>
    decreases cs.len(),
{
    if cs.len() == 0 {
        None
    } else {
        match touch(cs.last(), x) {
            Some(t) => Some(t),
            None => last_touch(cs.drop_last(), x),
        }
    }
}

/// A variable ends as the last statement about it leaves it.
pub proof fn lemma_apply_value(env: Map<Seq<char>, Seq<char>>, cs: Seq<Command>, x: Seq<char>)
    ensures
        value_of(apply(env, cs), x) == if valid_key(x) {
            match last_touch(cs, x) {
                Some(t) => t,
                None => value_of(env, x),
            }
        } else {
            value_of(env, x)
        },
    decreases cs.len(),
{
    if cs.len() > 0 {
        lemma_apply_value(env, cs.drop_last(), x);
    }
}

/// The last statement about `x` in `a + b` is in `b` when `b` has one.
pub proof fn lemma_last_touch_concat(a: Seq<Command>, b: Seq<Command>, x: Seq<char>)
    ensures
        last_touch(a + b, x) == match last_touch(b, x) {
            Some(t) => Some(t),
            None => last_touch(a, x),
        },
    decreases b.len(),
{
    if b.len() == 0 {
        assert(a + b =~= a);
    } else {
        assert((a + b).drop_last() =~= a + b.drop_last());
        assert((a + b).last() == b.last());
        lemma_last_touch_concat(a, b.drop_last(), x);
    }
}

pub proof fn lemma_last_touch_push(a: Seq<Command>, c: Command, x: Seq<char>)
    ensures
        last_touch(a.push(c), x) == match touch(c, x) {
            Some(t) => Some(t),
            None => last_touch(a, x),
        },
{
    assert(a.push(c).drop_last() =~= a);
}

// ---- text for a shell ----

/// The text of one statement.
pub open spec fn statement_text<S: ShellOutput>(shell: &S, c: Command) -> Seq<char> {
    match c {
        Command::SetVar(k, v) => shell.spec_set_env(k, v),
        Command::UnsetVar(k) => shell.spec_unset_env(k),
        Command::Hook(h) => shell.spec_emit_hook(h),
    }
}

/// The text of the statements, in order.
pub open spec fn script_text<S: ShellOutput>(shell: &S, cs: Seq<Command>) -> Seq<char>
    decreases cs.len(),
{
    if cs.len() == 0 {
        Seq::empty()
    } else {
        script_text(shell, cs.drop_last()) + statement_text(shell, cs.last())
    }
}

/// The text of the statements for a shell.
pub fn render<S: ShellOutput>(shell: &S, cmds: &Vec<ShellCommand>) -> (r: String)
    ensures
        r@ == script_text(shell, models(cmds@)),
{
    let ghost m = models(cmds@);
    let mut out = String::new();
    let mut i: usize = 0;
    while i < cmds.len()
        invariant
            0 <= i <= cmds@.len(),
            m == models(cmds@),
            out@ == script_text(shell, m.take(i as int)),
        decreases cmds@.len() - i,
    {
        proof {
            assert(m.take(i + 1).drop_last() =~= m.take(i as int));
            assert(m.take(i + 1).last() == cmds@[i as int].model());
        }
        let text = match &cmds[i] {
            ShellCommand::SetVar(k, v) => shell.set_env(k.as_str(), v.as_str()),
            ShellCommand::UnsetVar(k) => shell.unset_env(k.as_str()),
            ShellCommand::Hook(c) => shell.emit_hook(c.as_str()),
        };
        append(&mut out, text.as_str());
        i += 1;
    }
    assert(m.take(cmds@.len() as int) =~= m);
    out
}

// ---- activation ----

/// A text that may be absent.
pub open spec fn opt_text(o: Option<String>) -> Option<Seq<char>> {
    match o {
        Some(s) => Some(s@),
        None => None,
    }
}

/// The hooks of one phase, in order.
pub open spec fn hook_commands(hooks: Seq<InnerHook>, kind: HookType) -> Seq<Command>
    decreases hooks.len(),
{
    if hooks.len() == 0 {
        Seq::empty()
    } else {
        let rest = hook_commands(hooks.drop_last(), kind);
        if hooks.last().kind == kind {
            rest.push(Command::Hook(hooks.last().content@))
        } else {
            rest
        }
    }
}

/// What `pure` does to the shell's variables: it unsets all of them but
/// those it keeps.
pub open spec fn purge_commands(live: Seq<Seq<char>>) -> Seq<Command>
    decreases live.len(),
{
    if live.len() == 0 {
        Seq::empty()
    } else {
        let rest = purge_commands(live.drop_last());
        if pure_preserved(live.last()) {
            rest
        } else {
            rest.push(Command::UnsetVar(live.last()))
        }
    }
}

/// Unsets each of the keys.
pub open spec fn unset_commands(keys: Seq<Seq<char>>) -> Seq<Command>
    decreases keys.len(),
{
    if keys.len() == 0 {
        Seq::empty()
    } else {
        unset_commands(keys.drop_last()).push(Command::UnsetVar(keys.last()))
    }
}

/// The value a composed variable is given: its values joined with `:`,
/// followed by `:` and its ambient value when it absorbs a non-empty one
/// (never under `pure`).
pub open spec fn layered_value(
    k: Seq<char>,
    vals: Seq<Seq<char>>,
    absorb: Set<Seq<char>>,
    purified: bool,
    baseline: Map<Seq<char>, Seq<char>>,
) -> Seq<char> {
    let v = join(vals, seq![':']);
    if !purified && absorb.contains(k) && baseline.dom().contains(k) && baseline[k].len() > 0 {
        v + seq![':'] + baseline[k]
    } else {
        v
    }
}

/// Sets each composed variable.
pub open spec fn env_commands(
    env: Entries,
    absorb: Set<Seq<char>>,
    purified: bool,
    baseline: Map<Seq<char>, Seq<char>>,
) -> Seq<Command>
    decreases env.len(),
{
    if env.len() == 0 {
        Seq::empty()
    } else {
        env_commands(env.drop_last(), absorb, purified, baseline).push(
            Command::SetVar(
                env.last().0,
                layered_value(env.last().0, env.last().1, absorb, purified, baseline),
            ),
        )
    }
}

/// Records a new session id.
pub open spec fn session_commands(session: Option<Seq<char>>) -> Seq<Command> {
    match session {
        Some(s) => seq![Command::SetVar("__CADE_SESSION"@, s)],
        None => Seq::empty(),
    }
}

/// The flag that records `pure`.
pub open spec fn pure_flag(purified: bool) -> Seq<char> {
    if purified {
        "1"@
    } else {
        "0"@
    }
}

/// The state cade keeps in its own variables for the restore.
pub open spec fn state_commands(
    layers: Seq<Seq<char>>,
    state_dir: Seq<char>,
    config_path: Option<Seq<char>>,
    set_keys: Seq<Seq<char>>,
    unset: Seq<Seq<char>>,
    purified: bool,
    hooks_json: Seq<char>,
    watches_json: Seq<char>,
) -> Seq<Command> {
    seq![
        Command::SetVar("__CADE_LAYERS"@, keylist_text(layers)),
        Command::SetVar("__CADE_STATE_DIR"@, state_dir),
    ] + match config_path {
        Some(p) => seq![Command::SetVar("__CADE_CONFIG_PATH"@, p)],
        None => Seq::empty(),
    } + seq![
        Command::SetVar("__CADE_SET"@, keylist_text(set_keys)),
        Command::SetVar("__CADE_UNSET"@, keylist_text(unset)),
        Command::SetVar("__CADE_PURE"@, pure_flag(purified)),
        Command::SetVar("__CADE_HOOKS"@, hooks_json),
        Command::SetVar("__CADE_WATCHES"@, watches_json),
    ]
}

/// What an activation writes: the load-pre hooks; the new session id; under
/// `pure`, the unsetting of the shell's variables; the unsetting of the
/// cleared variables; the composed variables; the load hooks; and the state
/// for the restore, with the composed variables' names sorted.
pub open spec fn activation_spec(
    env: Entries,
    absorb: Set<Seq<char>>,
    unset: Seq<Seq<char>>,
    hooks: Seq<InnerHook>,
    purified: bool,
    baseline: Map<Seq<char>, Seq<char>>,
    session: Option<Seq<char>>,
    live: Seq<Seq<char>>,
    layers: Seq<Seq<char>>,
    state_dir: Seq<char>,
    config_path: Option<Seq<char>>,
    hooks_json: Seq<char>,
    watches_json: Seq<char>,
) -> Seq<Command> {
    hook_commands(hooks, HookType::LoadPre) + session_commands(session) + (if purified {
        purge_commands(live)
    } else {
        Seq::empty()
    }) + unset_commands(unset) + env_commands(env, absorb, purified, baseline) + hook_commands(
        hooks,
        HookType::LoadPost,
    ) + state_commands(
        layers,
        state_dir,
        config_path,
        sorted_of(to_map(env).dom()),
        unset,
        purified,
        hooks_json,
        watches_json,
    )
}

/// What an activation needs besides the composed layers.
pub struct ActivationContext {
    /// A new session id to record, when the shell has none yet
    pub new_session: Option<String>,
    /// The ambient environment that list-like variables extend
    pub baseline: Vec<(String, String)>,
    /// The names of the variables the shell has now
    pub live_keys: Vec<String>,
    /// The layer directories, parent first
    pub layer_paths: Vec<String>,
    pub state_dir: String,
    pub config_path: Option<String>,
    /// The hooks, encoded for the restore
    pub hooks_json: String,
    /// The watched files, encoded for the reload check
    pub watches_json: String,
}

/// Appends the hooks of one phase.
fn push_hooks(out: &mut Vec<ShellCommand>, hooks: &Vec<InnerHook>, kind: HookType)
    ensures
        models(final(out)@) == models(old(out)@) + hook_commands(hooks@, kind),
{
    let ghost start = models(out@);
    let mut i: usize = 0;
    while i < hooks.len()
        invariant
            0 <= i <= hooks@.len(),
            models(out@) == start + hook_commands(hooks@.take(i as int), kind),
        decreases hooks@.len() - i,
    {
        proof {
            assert(hooks@.take(i + 1).drop_last() =~= hooks@.take(i as int));
        }
        if hooks[i].kind == kind {
            let ghost before = out@;
            out.push(ShellCommand::Hook(hooks[i].content.clone()));
            assert(models(out@) =~= models(before).push(Command::Hook(hooks@[i as int].content@)));
        }
        i += 1;
    }
    assert(hooks@.take(hooks@.len() as int) =~= hooks@);
}

/// Appends the unsetting of each of the keys.
fn push_unsets(out: &mut Vec<ShellCommand>, keys: &Vec<String>)
    ensures
        models(final(out)@) == models(old(out)@) + unset_commands(keys.deep_view()),
{
    let ghost start = models(out@);
    let mut i: usize = 0;
    while i < keys.len()
        invariant
            0 <= i <= keys@.len(),
            models(out@) == start + unset_commands(keys.deep_view().take(i as int)),
        decreases keys@.len() - i,
    {
        proof {
            assert(keys.deep_view().take(i + 1).drop_last() =~= keys.deep_view().take(i as int));
        }
        let ghost before = out@;
        out.push(ShellCommand::UnsetVar(keys[i].clone()));
        assert(models(out@) =~= models(before).push(Command::UnsetVar(keys.deep_view()[i as int])));
        i += 1;
    }
    assert(keys.deep_view().take(keys@.len() as int) =~= keys.deep_view());
}

/// Appends what `pure` does to the shell's variables.
fn push_purge(out: &mut Vec<ShellCommand>, live: &Vec<String>)
    ensures
        models(final(out)@) == models(old(out)@) + purge_commands(live.deep_view()),
{
    let ghost start = models(out@);
    let mut i: usize = 0;
    while i < live.len()
        invariant
            0 <= i <= live@.len(),
            models(out@) == start + purge_commands(live.deep_view().take(i as int)),
        decreases live@.len() - i,
    {
        proof {
            assert(live.deep_view().take(i + 1).drop_last() =~= live.deep_view().take(i as int));
        }
        if !crate::compose::is_pure_preserved_key(live[i].as_str()) {
            let ghost before = out@;
            out.push(ShellCommand::UnsetVar(live[i].clone()));
            assert(models(out@) =~= models(before).push(
                Command::UnsetVar(live.deep_view()[i as int]),
            ));
        }
        i += 1;
    }
    assert(live.deep_view().take(live@.len() as int) =~= live.deep_view());
}

/// A text of one character.
fn char_text(c: char) -> (r: String)
    ensures
        r@ == seq![c],
{
    let mut s = String::new();
    append_char(&mut s, c);
    assert(s@ =~= seq![c]);
    s
}

/// The value a composed variable is given.
fn layered(
    k: &String,
    vals: &Vec<String>,
    rollup: &RollupResult,
    baseline: &Vec<(String, String)>,
) -> (r: String)
    ensures
        r@ == layered_value(
            k@,
            vals.deep_view(),
            rollup.absorb_set(),
            rollup.purified,
            pairs_map(pairs_view(baseline@)),
        ),
{
    let colon = char_text(':');
    let mut value = join_with(vals, colon.as_str());
    if !rollup.purified && rollup.absorbs(k.as_str()) {
        match snapshot_lookup(baseline, k.as_str()) {
            Some(amb) => {
                if chars_of(amb.as_str()).len() > 0 {
                    append_char(&mut value, ':');
                    append(&mut value, amb.as_str());
                }
            },
            None => {},
        }
    }
    value
}

/// Appends the setting of each composed variable.
fn push_env(out: &mut Vec<ShellCommand>, rollup: &RollupResult, baseline: &Vec<(String, String)>)
    ensures
        models(final(out)@) == models(old(out)@) + env_commands(
            rollup.env.deep_view(),
            rollup.absorb_set(),
            rollup.purified,
            pairs_map(pairs_view(baseline@)),
        ),
{
    let ghost start = models(out@);
    let ghost e = rollup.env.deep_view();
    let ghost bm = pairs_map(pairs_view(baseline@));
    let mut i: usize = 0;
    while i < rollup.env.len()
        invariant
            0 <= i <= rollup.env@.len(),
            e == rollup.env.deep_view(),
            bm == pairs_map(pairs_view(baseline@)),
            models(out@) == start + env_commands(e.take(i as int), rollup.absorb_set(), rollup.purified, bm),
        decreases rollup.env@.len() - i,
    {
        proof {
            assert(e.take(i + 1).drop_last() =~= e.take(i as int));
            assert(e.take(i + 1).last() == e[i as int]);
        }
        let value = layered(&rollup.env[i].0, &rollup.env[i].1, rollup, baseline);
        let ghost before = out@;
        out.push(ShellCommand::SetVar(rollup.env[i].0.clone(), value));
        assert(models(out@) =~= models(before).push(
            Command::SetVar(
                e[i as int].0,
                layered_value(e[i as int].0, e[i as int].1, rollup.absorb_set(), rollup.purified, bm),
            ),
        ));
        i += 1;
    }
    assert(e.take(rollup.env@.len() as int) =~= e);
}

/// The names of the composed variables, sorted.
fn set_key_list(rollup: &RollupResult) -> (r: Vec<String>)
    ensures
        r.deep_view() == sorted_of(to_map(rollup.env.deep_view()).dom()),
{
    let ghost e = rollup.env.deep_view();
    let mut keys: Vec<String> = Vec::new();
    let mut i: usize = 0;
    while i < rollup.env.len()
        invariant
            0 <= i <= rollup.env@.len(),
            e == rollup.env.deep_view(),
            keys@.len() == i,
            forall|j: int| 0 <= j < i ==> (#[trigger] keys.deep_view()[j]) == e[j].0,
        decreases rollup.env@.len() - i,
    {
        let ghost before = keys.deep_view();
        keys.push(rollup.env[i].0.clone());
        assert(keys.deep_view() =~= before.push(e[i as int].0));
        i += 1;
    }
    proof {
        let kd = keys.deep_view();
        assert forall|x: Seq<char>| kd.to_set().contains(x) <==> to_map(e).dom().contains(x) by {
            if kd.contains(x) {
                let j = choose|j: int| 0 <= j < kd.len() && kd[j] == x;
                assert(e[j].0 == x);
                assert(has_key(e, x));
            }
            if has_key(e, x) {
                let j = choose|j: int| 0 <= j < e.len() && #[trigger] e[j].0 == x;
                assert(kd[j] == x);
            }
        }
        assert(kd.to_set() =~= to_map(e).dom());
    }
    sorted_names(&keys)
}

/// The statements of an activation, for the composed layers and the
/// context.
pub fn activation_commands(rollup: &RollupResult, cx: &ActivationContext) -> (r: Vec<ShellCommand>)
    ensures
        models(r@) == activation_spec(
            rollup.env.deep_view(),
            rollup.absorb_set(),
            rollup.unset.deep_view(),
            rollup.hooks@,
            rollup.purified,
            pairs_map(pairs_view(cx.baseline@)),
            opt_text(cx.new_session),
            cx.live_keys.deep_view(),
            cx.layer_paths.deep_view(),
            cx.state_dir@,
            opt_text(cx.config_path),
            cx.hooks_json@,
            cx.watches_json@,
        ),
{
    let mut out: Vec<ShellCommand> = Vec::new();
    assert(models(out@) =~= Seq::<Command>::empty());
    push_hooks(&mut out, &rollup.hooks, HookType::LoadPre);
    let ghost a = models(out@);
    match &cx.new_session {
        Some(s) => {
            out.push(ShellCommand::SetVar("__CADE_SESSION".to_owned(), s.clone()));
        },
        None => {},
    }
    assert(models(out@) =~= a + session_commands(opt_text(cx.new_session)));
    let ghost b = models(out@);
    if rollup.purified {
        push_purge(&mut out, &cx.live_keys);
    }
    assert(models(out@) =~= b + (if rollup.purified {
        purge_commands(cx.live_keys.deep_view())
    } else {
        Seq::empty()
    }));
    push_unsets(&mut out, &rollup.unset);
    push_env(&mut out, rollup, &cx.baseline);
    push_hooks(&mut out, &rollup.hooks, HookType::LoadPost);
    let ghost c = models(out@);
    out.push(ShellCommand::SetVar("__CADE_LAYERS".to_owned(), write_keylist(&cx.layer_paths)));
    out.push(ShellCommand::SetVar("__CADE_STATE_DIR".to_owned(), cx.state_dir.clone()));
    match &cx.config_path {
        Some(p) => {
            out.push(ShellCommand::SetVar("__CADE_CONFIG_PATH".to_owned(), p.clone()));
        },
        None => {},
    }
    let set_keys = set_key_list(rollup);
    out.push(ShellCommand::SetVar("__CADE_SET".to_owned(), write_keylist(&set_keys)));
    out.push(ShellCommand::SetVar("__CADE_UNSET".to_owned(), write_keylist(&rollup.unset)));
    let flag = if rollup.purified {
        "1".to_owned()
    } else {
        "0".to_owned()
    };
    out.push(ShellCommand::SetVar("__CADE_PURE".to_owned(), flag));
    out.push(ShellCommand::SetVar("__CADE_HOOKS".to_owned(), cx.hooks_json.clone()));
    out.push(ShellCommand::SetVar("__CADE_WATCHES".to_owned(), cx.watches_json.clone()));
    assert(models(out@) =~= c + state_commands(
        cx.layer_paths.deep_view(),
        cx.state_dir@,
        opt_text(cx.config_path),
        sorted_of(to_map(rollup.env.deep_view()).dom()),
        rollup.unset.deep_view(),
        rollup.purified,
        cx.hooks_json@,
        cx.watches_json@,
    ));
    out
}

// ---- restore ----

/// Under `pure`, every variable of the snapshot but the shell's own is set
/// back.
pub open spec fn pure_restore_commands(prev: Seq<(Seq<char>, Seq<char>)>) -> Seq<Command>
    decreases prev.len(),
{
    if prev.len() == 0 {
        Seq::empty()
    } else {
        let rest = pure_restore_commands(prev.drop_last());
        if shell_managed(prev.last().0) {
            rest
        } else {
            rest.push(Command::SetVar(prev.last().0, prev.last().1))
        }
    }
}

/// Under `pure`, the variables cade set that the snapshot lacks are unset.
pub open spec fn drop_commands(set_keys: Seq<Seq<char>>, prev: Map<Seq<char>, Seq<char>>) -> Seq<
    Command,
>
    decreases set_keys.len(),
{
    if set_keys.len() == 0 {
        Seq::empty()
    } else {
        let rest = drop_commands(set_keys.drop_last(), prev);
        let k = set_keys.last();
        if prev.dom().contains(k) || shell_managed(k) {
            rest
        } else {
            rest.push(Command::UnsetVar(k))
        }
    }
}

/// Otherwise each variable cade set goes back to its snapshot value, or is
/// unset when the snapshot lacks it.
pub open spec fn revert_commands(set_keys: Seq<Seq<char>>, prev: Map<Seq<char>, Seq<char>>) -> Seq<
    Command,
>
    decreases set_keys.len(),
{
    if set_keys.len() == 0 {
        Seq::empty()
    } else {
        let rest = revert_commands(set_keys.drop_last(), prev);
        let k = set_keys.last();
        if shell_managed(k) {
            rest
        } else if prev.dom().contains(k) {
            rest.push(Command::SetVar(k, prev[k]))
        } else {
            rest.push(Command::UnsetVar(k))
        }
    }
}

/// The variables cade cleared get their snapshot values back.
pub open spec fn recover_commands(unset_keys: Seq<Seq<char>>, prev: Map<Seq<char>, Seq<char>>) -> Seq<
    Command,
>
    decreases unset_keys.len(),
{
    if unset_keys.len() == 0 {
        Seq::empty()
    } else {
        let rest = recover_commands(unset_keys.drop_last(), prev);
        let k = unset_keys.last();
        if !shell_managed(k) && prev.dom().contains(k) {
            rest.push(Command::SetVar(k, prev[k]))
        } else {
            rest
        }
    }
}

/// The variables that hold cade's state, and the session.
pub open spec fn state_unsets(finalise: bool) -> Seq<Command> {
    seq![
        Command::UnsetVar("__CADE_LAYERS"@),
        Command::UnsetVar("__CADE_SET"@),
        Command::UnsetVar("__CADE_UNSET"@),
        Command::UnsetVar("__CADE_PURE"@),
        Command::UnsetVar("__CADE_WATCHES"@),
        Command::UnsetVar("__CADE_HOOKS"@),
        Command::UnsetVar("__CADE_STATE_DIR"@),
        Command::UnsetVar("__CADE_CONFIG_PATH"@),
    ] + if finalise {
        seq![Command::UnsetVar("__CADE_SESSION"@)]
    } else {
        Seq::empty()
    }
}

/// What a restore writes, from the snapshot `prev` and the state an
/// activation left: the unload-pre hooks; the variables cade set put back
/// (under `pure`, the whole snapshot); the cleared variables put back; the
/// state variables unset (and the session, when finalising); the unload
/// hooks.
pub open spec fn restore_spec(
    prev: Seq<(Seq<char>, Seq<char>)>,
    set_keys: Seq<Seq<char>>,
    unset_keys: Seq<Seq<char>>,
    pure: bool,
    hooks: Seq<InnerHook>,
    finalise: bool,
) -> Seq<Command> {
    let pm = pairs_map(prev);
    hook_commands(hooks, HookType::UnloadPre) + (if pure {
        pure_restore_commands(prev) + drop_commands(set_keys, pm)
    } else {
        revert_commands(set_keys, pm)
    }) + recover_commands(unset_keys, pm) + state_unsets(finalise) + hook_commands(
        hooks,
        HookType::UnloadPost,
    )
}

/// Appends the setting back of the snapshot's variables but the shell's own.
fn push_pure_restore(out: &mut Vec<ShellCommand>, prev: &Vec<(String, String)>)
    ensures
        models(final(out)@) == models(old(out)@) + pure_restore_commands(pairs_view(prev@)),
{
    let ghost start = models(out@);
    let ghost p = pairs_view(prev@);
    let mut i: usize = 0;
    while i < prev.len()
        invariant
            0 <= i <= prev@.len(),
            p == pairs_view(prev@),
            models(out@) == start + pure_restore_commands(p.take(i as int)),
        decreases prev@.len() - i,
    {
        proof {
            assert(p.take(i + 1).drop_last() =~= p.take(i as int));
            assert(p.take(i + 1).last() == p[i as int]);
        }
        if !crate::compose::is_shell_managed(prev[i].0.as_str()) {
            let ghost before = out@;
            out.push(ShellCommand::SetVar(prev[i].0.clone(), prev[i].1.clone()));
            assert(models(out@) =~= models(before).push(Command::SetVar(p[i as int].0, p[i as int].1)));
        }
        i += 1;
    }
    assert(p.take(prev@.len() as int) =~= p);
}

/// Appends, for each key, what the snapshot says of it: under `pure`
/// (`dropping`), an unset where the snapshot lacks it; otherwise its
/// snapshot value or an unset.
fn push_reverts(
    out: &mut Vec<ShellCommand>,
    set_keys: &Vec<String>,
    prev: &Vec<(String, String)>,
    dropping: bool,
)
    ensures
        models(final(out)@) == models(old(out)@) + if dropping {
            drop_commands(set_keys.deep_view(), pairs_map(pairs_view(prev@)))
        } else {
            revert_commands(set_keys.deep_view(), pairs_map(pairs_view(prev@)))
        },
{
    let ghost start = models(out@);
    let ghost ks = set_keys.deep_view();
    let ghost pm = pairs_map(pairs_view(prev@));
    let mut i: usize = 0;
    while i < set_keys.len()
        invariant
            0 <= i <= set_keys@.len(),
            ks == set_keys.deep_view(),
            pm == pairs_map(pairs_view(prev@)),
            models(out@) == start + if dropping {
                drop_commands(ks.take(i as int), pm)
            } else {
                revert_commands(ks.take(i as int), pm)
            },
        decreases set_keys@.len() - i,
    {
        proof {
            assert(ks.take(i + 1).drop_last() =~= ks.take(i as int));
            assert(ks.take(i + 1).last() == ks[i as int]);
        }
        let k = &set_keys[i];
        let ghost before = out@;
        if !crate::compose::is_shell_managed(k.as_str()) {
            match snapshot_lookup(prev, k.as_str()) {
                Some(v) => {
                    if !dropping {
                        out.push(ShellCommand::SetVar(k.clone(), v));
                        assert(models(out@) =~= models(before).push(Command::SetVar(ks[i as int], pm[ks[i as int]])));
                    }
                },
                None => {
                    out.push(ShellCommand::UnsetVar(k.clone()));
                    assert(models(out@) =~= models(before).push(Command::UnsetVar(ks[i as int])));
                },
            }
        }
        i += 1;
    }
    assert(ks.take(set_keys@.len() as int) =~= ks);
}

/// Appends the setting back of the cleared variables the snapshot has.
fn push_recovers(out: &mut Vec<ShellCommand>, unset_keys: &Vec<String>, prev: &Vec<(String, String)>)
    ensures
        models(final(out)@) == models(old(out)@) + recover_commands(
            unset_keys.deep_view(),
            pairs_map(pairs_view(prev@)),
        ),
{
    let ghost start = models(out@);
    let ghost ks = unset_keys.deep_view();
    let ghost pm = pairs_map(pairs_view(prev@));
    let mut i: usize = 0;
    while i < unset_keys.len()
        invariant
            0 <= i <= unset_keys@.len(),
            ks == unset_keys.deep_view(),
            pm == pairs_map(pairs_view(prev@)),
            models(out@) == start + recover_commands(ks.take(i as int), pm),
        decreases unset_keys@.len() - i,
    {
        proof {
            assert(ks.take(i + 1).drop_last() =~= ks.take(i as int));
            assert(ks.take(i + 1).last() == ks[i as int]);
        }
        let k = &unset_keys[i];
        if !crate::compose::is_shell_managed(k.as_str()) {
            match snapshot_lookup(prev, k.as_str()) {
                Some(v) => {
                    let ghost before = out@;
                    out.push(ShellCommand::SetVar(k.clone(), v));
                    assert(models(out@) =~= models(before).push(Command::SetVar(ks[i as int], pm[ks[i as int]])));
                },
                None => {},
            }
        }
        i += 1;
    }
    assert(ks.take(unset_keys@.len() as int) =~= ks);
}

/// The statements of a restore, from the snapshot `prev` and the state an
/// activation left in cade's variables.
pub fn restore_commands(
    prev: &Vec<(String, String)>,
    set_keys: &Vec<String>,
    unset_keys: &Vec<String>,
    pure: bool,
    hooks: &Vec<InnerHook>,
    finalise: bool,
) -> (r: Vec<ShellCommand>)
    ensures
        models(r@) == restore_spec(
            pairs_view(prev@),
            set_keys.deep_view(),
            unset_keys.deep_view(),
            pure,
            hooks@,
            finalise,
        ),
{
    let ghost pm = pairs_map(pairs_view(prev@));
    let mut out: Vec<ShellCommand> = Vec::new();
    assert(models(out@) =~= Seq::<Command>::empty());
    push_hooks(&mut out, hooks, HookType::UnloadPre);
    let ghost a = models(out@);
    if pure {
        push_pure_restore(&mut out, prev);
        push_reverts(&mut out, set_keys, prev, true);
    } else {
        push_reverts(&mut out, set_keys, prev, false);
    }
    assert(models(out@) =~= a + (if pure {
        pure_restore_commands(pairs_view(prev@)) + drop_commands(set_keys.deep_view(), pm)
    } else {
        revert_commands(set_keys.deep_view(), pm)
    }));
    push_recovers(&mut out, unset_keys, prev);
    let ghost b = models(out@);
    out.push(ShellCommand::UnsetVar("__CADE_LAYERS".to_owned()));
    out.push(ShellCommand::UnsetVar("__CADE_SET".to_owned()));
    out.push(ShellCommand::UnsetVar("__CADE_UNSET".to_owned()));
    out.push(ShellCommand::UnsetVar("__CADE_PURE".to_owned()));
    out.push(ShellCommand::UnsetVar("__CADE_WATCHES".to_owned()));
    out.push(ShellCommand::UnsetVar("__CADE_HOOKS".to_owned()));
    out.push(ShellCommand::UnsetVar("__CADE_STATE_DIR".to_owned()));
    out.push(ShellCommand::UnsetVar("__CADE_CONFIG_PATH".to_owned()));
    if finalise {
        out.push(ShellCommand::UnsetVar("__CADE_SESSION".to_owned()));
    }
    assert(models(out@) =~= b + state_unsets(finalise));
    push_hooks(&mut out, hooks, HookType::UnloadPost);
    out
}

// ---- what each part of a script does to one variable ----

pub proof fn lemma_hooks_touch(hooks: Seq<InnerHook>, kind: HookType, x: Seq<char>)
    ensures
        last_touch(hook_commands(hooks, kind), x) is None,
    decreases hooks.len(),
{
    if hooks.len() > 0 {
        lemma_hooks_touch(hooks.drop_last(), kind, x);
        let rest = hook_commands(hooks.drop_last(), kind);
        if hooks.last().kind == kind {
            lemma_last_touch_push(rest, Command::Hook(hooks.last().content@), x);
        }
    }
}

pub proof fn lemma_purge_touch(live: Seq<Seq<char>>, x: Seq<char>)
    ensures
        last_touch(purge_commands(live), x) == if live.contains(x) && !pure_preserved(x) {
            Some(None::<Seq<char>>)
        } else {
            None
        },
    decreases live.len(),
{
    if live.len() > 0 {
        let d = live.drop_last();
        lemma_purge_touch(d, x);
        assert(live =~= d.push(live.last()));
        assert(live.contains(x) <==> d.contains(x) || live.last() == x) by {
            if live.contains(x) && live.last() != x {
                let i = choose|i: int| 0 <= i < live.len() && live[i] == x;
                assert(d[i] == x);
            }
            if d.contains(x) {
                let i = choose|i: int| 0 <= i < d.len() && d[i] == x;
                assert(live[i] == x);
            }
            if live.last() == x {
                assert(live[live.len() - 1] == x);
            }
        }
        if !pure_preserved(live.last()) {
            lemma_last_touch_push(purge_commands(d), Command::UnsetVar(live.last()), x);
        }
    }
}

pub proof fn lemma_unsets_touch(keys: Seq<Seq<char>>, x: Seq<char>)
    ensures
        last_touch(unset_commands(keys), x) == if keys.contains(x) {
            Some(None::<Seq<char>>)
        } else {
            None
        },
    decreases keys.len(),
{
    if keys.len() > 0 {
        let d = keys.drop_last();
        lemma_unsets_touch(d, x);
        assert(keys.contains(x) <==> d.contains(x) || keys.last() == x) by {
            if keys.contains(x) && keys.last() != x {
                let i = choose|i: int| 0 <= i < keys.len() && keys[i] == x;
                assert(d[i] == x);
            }
            if d.contains(x) {
                let i = choose|i: int| 0 <= i < d.len() && d[i] == x;
                assert(keys[i] == x);
            }
            if keys.last() == x {
                assert(keys[keys.len() - 1] == x);
            }
        }
        lemma_last_touch_push(unset_commands(d), Command::UnsetVar(keys.last()), x);
    }
}

pub proof fn lemma_env_touch(
    env: Entries,
    absorb: Set<Seq<char>>,
    purified: bool,
    baseline: Map<Seq<char>, Seq<char>>,
    x: Seq<char>,
)
    requires
        crate::assoc::keys_distinct(env),
    ensures
        last_touch(env_commands(env, absorb, purified, baseline), x) == if has_key(env, x) {
            Some(Some(layered_value(x, to_map(env)[x], absorb, purified, baseline)))
        } else {
            None
        },
    decreases env.len(),
{
    if env.len() > 0 {
        let d = env.drop_last();
        let n = env.len() - 1;
        assert(env.last() == env[n]);
        assert forall|i: int, j: int| 0 <= i < d.len() && 0 <= j < d.len() && i != j implies #[trigger] d[i].0
            != #[trigger] d[j].0 by {
            assert(d[i] == env[i] && d[j] == env[j]);
        }
        lemma_env_touch(d, absorb, purified, baseline, x);
        lemma_last_touch_push(
            env_commands(d, absorb, purified, baseline),
            Command::SetVar(env.last().0, layered_value(env.last().0, env.last().1, absorb, purified, baseline)),
            x,
        );
        if env.last().0 == x {
            crate::assoc::lemma_to_map_at(env, n);
            assert(has_key(env, x));
        } else {
            assert(has_key(env, x) <==> has_key(d, x)) by {
                if has_key(env, x) {
                    let i = choose|i: int| 0 <= i < env.len() && #[trigger] env[i].0 == x;
                    assert(i != n);
                    assert(d[i].0 == x);
                }
                if has_key(d, x) {
                    let i = choose|i: int| 0 <= i < d.len() && #[trigger] d[i].0 == x;
                    assert(env[i].0 == x);
                }
            }
            if has_key(d, x) {
                let i = choose|i: int| 0 <= i < d.len() && #[trigger] d[i].0 == x;
                crate::assoc::lemma_to_map_at(d, i);
                assert(env[i] == d[i]);
                crate::assoc::lemma_to_map_at(env, i);
            }
        }
    }
}

pub proof fn lemma_pure_restore_touch(prev: Seq<(Seq<char>, Seq<char>)>, x: Seq<char>)
    ensures
        last_touch(pure_restore_commands(prev), x) == if !shell_managed(x) && pairs_map(
            prev,
        ).dom().contains(x) {
            Some(Some(pairs_map(prev)[x]))
        } else {
            None
        },
    decreases prev.len(),
{
    if prev.len() > 0 {
        let d = prev.drop_last();
        lemma_pure_restore_touch(d, x);
        if !shell_managed(prev.last().0) {
            lemma_last_touch_push(
                pure_restore_commands(d),
                Command::SetVar(prev.last().0, prev.last().1),
                x,
            );
        }
    }
}

pub proof fn lemma_drop_touch(set_keys: Seq<Seq<char>>, pm: Map<Seq<char>, Seq<char>>, x: Seq<char>)
    ensures
        last_touch(drop_commands(set_keys, pm), x) == if set_keys.contains(x) && !pm.dom().contains(x)
            && !shell_managed(x) {
            Some(None::<Seq<char>>)
        } else {
            None
        },
    decreases set_keys.len(),
{
    if set_keys.len() > 0 {
        let d = set_keys.drop_last();
        lemma_drop_touch(d, pm, x);
        assert(set_keys.contains(x) <==> d.contains(x) || set_keys.last() == x) by {
            if set_keys.contains(x) && set_keys.last() != x {
                let i = choose|i: int| 0 <= i < set_keys.len() && set_keys[i] == x;
                assert(d[i] == x);
            }
            if d.contains(x) {
                let i = choose|i: int| 0 <= i < d.len() && d[i] == x;
                assert(set_keys[i] == x);
            }
            if set_keys.last() == x {
                assert(set_keys[set_keys.len() - 1] == x);
            }
        }
        let k = set_keys.last();
        if !(pm.dom().contains(k) || shell_managed(k)) {
            lemma_last_touch_push(drop_commands(d, pm), Command::UnsetVar(k), x);
        }
    }
}

pub proof fn lemma_revert_touch(set_keys: Seq<Seq<char>>, pm: Map<Seq<char>, Seq<char>>, x: Seq<char>)
    ensures
        last_touch(revert_commands(set_keys, pm), x) == if set_keys.contains(x) && !shell_managed(x) {
            Some(value_of(pm, x))
        } else {
            None
        },
    decreases set_keys.len(),
{
    if set_keys.len() > 0 {
        let d = set_keys.drop_last();
        lemma_revert_touch(d, pm, x);
        assert(set_keys.contains(x) <==> d.contains(x) || set_keys.last() == x) by {
            if set_keys.contains(x) && set_keys.last() != x {
                let i = choose|i: int| 0 <= i < set_keys.len() && set_keys[i] == x;
                assert(d[i] == x);
            }
            if d.contains(x) {
                let i = choose|i: int| 0 <= i < d.len() && d[i] == x;
                assert(set_keys[i] == x);
            }
            if set_keys.last() == x {
                assert(set_keys[set_keys.len() - 1] == x);
            }
        }
        let k = set_keys.last();
        if !shell_managed(k) {
            if pm.dom().contains(k) {
                lemma_last_touch_push(revert_commands(d, pm), Command::SetVar(k, pm[k]), x);
            } else {
                lemma_last_touch_push(revert_commands(d, pm), Command::UnsetVar(k), x);
            }
        }
    }
}

pub proof fn lemma_recover_touch(unset_keys: Seq<Seq<char>>, pm: Map<Seq<char>, Seq<char>>, x: Seq<char>)
    ensures
        last_touch(recover_commands(unset_keys, pm), x) == if unset_keys.contains(x) && !shell_managed(x)
            && pm.dom().contains(x) {
            Some(Some(pm[x]))
        } else {
            None
        },
    decreases unset_keys.len(),
{
    if unset_keys.len() > 0 {
        let d = unset_keys.drop_last();
        lemma_recover_touch(d, pm, x);
        assert(unset_keys.contains(x) <==> d.contains(x) || unset_keys.last() == x) by {
            if unset_keys.contains(x) && unset_keys.last() != x {
                let i = choose|i: int| 0 <= i < unset_keys.len() && unset_keys[i] == x;
                assert(d[i] == x);
            }
            if d.contains(x) {
                let i = choose|i: int| 0 <= i < d.len() && d[i] == x;
                assert(unset_keys[i] == x);
            }
            if unset_keys.last() == x {
                assert(unset_keys[unset_keys.len() - 1] == x);
            }
        }
        let k = unset_keys.last();
        if !shell_managed(k) && pm.dom().contains(k) {
            lemma_last_touch_push(recover_commands(d, pm), Command::SetVar(k, pm[k]), x);
        }
    }
}

/// A script whose statements all leave `x` alone leaves it alone.
pub proof fn lemma_no_touch(cs: Seq<Command>, x: Seq<char>)
    requires
        forall|i: int| 0 <= i < cs.len() ==> (#[trigger] touch(cs[i], x)) is None,
    ensures
        last_touch(cs, x) is None,
    decreases cs.len(),
{
    if cs.len() > 0 {
        let d = cs.drop_last();
        assert forall|i: int| 0 <= i < d.len() implies (#[trigger] touch(d[i], x)) is None by {
            assert(d[i] == cs[i]);
        }
        lemma_no_touch(d, x);
        assert(touch(cs[cs.len() - 1], x) is None);
    }
}

/// The last statement about `x` decides it.
pub proof fn lemma_touch_at(cs: Seq<Command>, i: int, x: Seq<char>)
    requires
        0 <= i < cs.len(),
        touch(cs[i], x) is Some,
        forall|j: int| i < j < cs.len() ==> (#[trigger] touch(cs[j], x)) is None,
    ensures
        last_touch(cs, x) == touch(cs[i], x),
    decreases cs.len(),
{
    if i < cs.len() - 1 {
        let d = cs.drop_last();
        assert(d[i] == cs[i]);
        assert forall|j: int| i < j < d.len() implies (#[trigger] touch(d[j], x)) is None by {
            assert(d[j] == cs[j]);
        }
        lemma_touch_at(d, i, x);
        assert(touch(cs[cs.len() - 1], x) is None);
    }
}

/// A valid name is not empty and holds neither `=` nor the unit separator.
pub proof fn lemma_valid_key_plain(x: Seq<char>)
    requires
        valid_key(x),
    ensures
        x.len() > 0,
        !x.contains(UNIT_SEPARATOR),
        !x.contains('='),
{
    if x.contains(UNIT_SEPARATOR) || x.contains('=') {
        let i = choose|i: int| 0 <= i < x.len() && (x[i] == UNIT_SEPARATOR || x[i] == '=');
        if i > 0 {
            assert(is_ascii_alnum(x[i]) || x[i] == '_');
        }
    }
}

/// A variable of cade's own: its name begins with `__CADE_`.
pub open spec fn cade_var(x: Seq<char>) -> bool {
    starts_with(x, "__CADE_"@)
}

/// The names of cade's state variables are its own, and distinct.
pub proof fn lemma_cade_names()
    ensures
        cade_var("__CADE_LAYERS"@),
        cade_var("__CADE_STATE_DIR"@),
        cade_var("__CADE_CONFIG_PATH"@),
        cade_var("__CADE_SET"@),
        cade_var("__CADE_UNSET"@),
        cade_var("__CADE_PURE"@),
        cade_var("__CADE_HOOKS"@),
        cade_var("__CADE_WATCHES"@),
        cade_var("__CADE_SESSION"@),
        valid_key("__CADE_SET"@),
        valid_key("__CADE_UNSET"@),
        valid_key("__CADE_PURE"@),
        valid_key("__CADE_SESSION"@),
        "__CADE_UNSET"@ != "__CADE_HOOKS"@,
        "__CADE_SET"@.len() == 10,
        "__CADE_UNSET"@.len() == 12,
        "__CADE_PURE"@.len() == 11,
        "__CADE_HOOKS"@.len() == 12,
        "__CADE_WATCHES"@.len() == 14,
        "1"@ != "0"@,
{
    reveal_strlit("__CADE_");
    reveal_strlit("__CADE_LAYERS");
    reveal_strlit("__CADE_STATE_DIR");
    reveal_strlit("__CADE_CONFIG_PATH");
    reveal_strlit("__CADE_SET");
    reveal_strlit("__CADE_UNSET");
    reveal_strlit("__CADE_PURE");
    reveal_strlit("__CADE_HOOKS");
    reveal_strlit("__CADE_WATCHES");
    reveal_strlit("__CADE_SESSION");
    reveal_strlit("1");
    reveal_strlit("0");
    assert("__CADE_LAYERS"@.take(7) =~= "__CADE_"@);
    assert("__CADE_STATE_DIR"@.take(7) =~= "__CADE_"@);
    assert("__CADE_CONFIG_PATH"@.take(7) =~= "__CADE_"@);
    assert("__CADE_SET"@.take(7) =~= "__CADE_"@);
    assert("__CADE_UNSET"@.take(7) =~= "__CADE_"@);
    assert("__CADE_PURE"@.take(7) =~= "__CADE_"@);
    assert("__CADE_HOOKS"@.take(7) =~= "__CADE_"@);
    assert("__CADE_WATCHES"@.take(7) =~= "__CADE_"@);
    assert("__CADE_SESSION"@.take(7) =~= "__CADE_"@);
    assert("__CADE_UNSET"@[7] != "__CADE_HOOKS"@[7]);
    assert("1"@[0] != "0"@[0]);
}

pub proof fn lemma_state_touch(
    layers: Seq<Seq<char>>,
    state_dir: Seq<char>,
    config_path: Option<Seq<char>>,
    set_keys: Seq<Seq<char>>,
    unset: Seq<Seq<char>>,
    purified: bool,
    hooks_json: Seq<char>,
    watches_json: Seq<char>,
    x: Seq<char>,
)
    ensures
        !cade_var(x) ==> last_touch(
            state_commands(layers, state_dir, config_path, set_keys, unset, purified, hooks_json, watches_json),
            x,
        ) is None,
        last_touch(
            state_commands(layers, state_dir, config_path, set_keys, unset, purified, hooks_json, watches_json),
            "__CADE_SET"@,
        ) == Some(Some(keylist_text(set_keys))),
        last_touch(
            state_commands(layers, state_dir, config_path, set_keys, unset, purified, hooks_json, watches_json),
            "__CADE_UNSET"@,
        ) == Some(Some(keylist_text(unset))),
        last_touch(
            state_commands(layers, state_dir, config_path, set_keys, unset, purified, hooks_json, watches_json),
            "__CADE_PURE"@,
        ) == Some(Some(pure_flag(purified))),
{
    lemma_cade_names();
    let a = seq![
        Command::SetVar("__CADE_LAYERS"@, keylist_text(layers)),
        Command::SetVar("__CADE_STATE_DIR"@, state_dir),
    ];
    let b = match config_path {
        Some(p) => seq![Command::SetVar("__CADE_CONFIG_PATH"@, p)],
        None => Seq::<Command>::empty(),
    };
    let c = seq![
        Command::SetVar("__CADE_SET"@, keylist_text(set_keys)),
        Command::SetVar("__CADE_UNSET"@, keylist_text(unset)),
        Command::SetVar("__CADE_PURE"@, pure_flag(purified)),
        Command::SetVar("__CADE_HOOKS"@, hooks_json),
        Command::SetVar("__CADE_WATCHES"@, watches_json),
    ];
    let all = state_commands(layers, state_dir, config_path, set_keys, unset, purified, hooks_json, watches_json);
    assert(all == a + b + c);
    lemma_last_touch_concat(a + b, c, x);
    lemma_last_touch_concat(a, b, x);
    if !cade_var(x) {
        lemma_no_touch(a, x);
        lemma_no_touch(b, x);
        lemma_no_touch(c, x);
    }
    lemma_last_touch_concat(a + b, c, "__CADE_SET"@);
    lemma_last_touch_concat(a + b, c, "__CADE_UNSET"@);
    lemma_last_touch_concat(a + b, c, "__CADE_PURE"@);
    lemma_touch_at(c, 0, "__CADE_SET"@);
    lemma_touch_at(c, 1, "__CADE_UNSET"@);
    lemma_touch_at(c, 2, "__CADE_PURE"@);
}

pub proof fn lemma_session_touch(session: Option<Seq<char>>, x: Seq<char>)
    ensures
        !cade_var(x) ==> last_touch(session_commands(session), x) is None,
{
    lemma_cade_names();
    if !cade_var(x) {
        lemma_no_touch(session_commands(session), x);
    }
}

pub proof fn lemma_state_unsets_touch(finalise: bool, x: Seq<char>)
    ensures
        !cade_var(x) ==> last_touch(state_unsets(finalise), x) is None,
{
    lemma_cade_names();
    if !cade_var(x) {
        lemma_no_touch(state_unsets(finalise), x);
    }
}

// ---- activation, then exit ----

/// A variable's text, empty when it is unset, as cade reads its own state.
pub open spec fn text_of(env: Map<Seq<char>, Seq<char>>, k: Seq<char>) -> Seq<char> {
    if env.dom().contains(k) {
        env[k]
    } else {
        Seq::empty()
    }
}

/// The environment after the first activation in a shell whose variables
/// are `ambient`: cade snapshots them (all but its own), reads the snapshot
/// back as its baseline, records a new session, and writes the activation
/// of the composed layers.
pub open spec fn first_activation(
    ambient: Seq<(Seq<char>, Seq<char>)>,
    env: Entries,
    absorb: Set<Seq<char>>,
    unset: Seq<Seq<char>>,
    hooks: Seq<InnerHook>,
    purified: bool,
    session: Seq<char>,
    layers: Seq<Seq<char>>,
    state_dir: Seq<char>,
    config_path: Option<Seq<char>>,
    hooks_json: Seq<char>,
    watches_json: Seq<char>,
) -> Map<Seq<char>, Seq<char>> {
    let snapshot = snapshot_pairs(render_pairs(ambient_pairs(ambient)));
    apply(
        pairs_map(ambient),
        activation_spec(
            env,
            absorb,
            unset,
            hooks,
            purified,
            pairs_map(snapshot),
            Some(session),
            pairs_keys(ambient),
            layers,
            state_dir,
            config_path,
            hooks_json,
            watches_json,
        ),
    )
}

/// The environment after exiting an activated shell `active`: the restore
/// from the snapshot's text and from the state cade left in its variables.
pub open spec fn exit_env(
    active: Map<Seq<char>, Seq<char>>,
    snapshot_text: Seq<char>,
    hooks: Seq<InnerHook>,
) -> Map<Seq<char>, Seq<char>> {
    apply(
        active,
        restore_spec(
            snapshot_pairs(snapshot_text),
            keylist(text_of(active, "__CADE_SET"@)),
            keylist(text_of(active, "__CADE_UNSET"@)),
            text_of(active, "__CADE_PURE"@) == "1"@,
            hooks,
            true,
        ),
    )
}

/// The names of the entries, in order.
pub open spec fn entry_names(env: Entries) -> Seq<Seq<char>> {
    env.map_values(|e: (Seq<char>, Seq<Seq<char>>)| e.0)
}

proof fn lemma_entry_names(env: Entries)
    ensures
        entry_names(env).to_set() == to_map(env).dom(),
{
    let k = entry_names(env);
    assert forall|x: Seq<char>| k.contains(x) <==> has_key(env, x) by {
        if k.contains(x) {
            let j = choose|j: int| 0 <= j < k.len() && k[j] == x;
            assert(env[j].0 == x);
        }
        if has_key(env, x) {
            let j = choose|j: int| 0 <= j < env.len() && #[trigger] env[j].0 == x;
            assert(k[j] == x);
        }
    }
    assert(k.to_set() =~= to_map(env).dom());
}

/// The snapshot that cade writes of the variables `ambient` reads `x` back
/// as it stood: with its value, or unset if it was unset.
pub open spec fn snapshot_keeps(ambient: Seq<(Seq<char>, Seq<char>)>, x: Seq<char>) -> bool {
    value_of(pairs_map(snapshot_pairs(render_pairs(ambient_pairs(ambient)))), x) == value_of(
        pairs_map(ambient),
        x,
    )
}

/// The snapshot reads back every variable but cade's own when the names and
/// values survive its text format: no `=` in a name, and no unit separator
/// in a name or value.
pub proof fn law_snapshot_keeps_storable(ambient: Seq<(Seq<char>, Seq<char>)>, x: Seq<char>)
    requires
        forall|i: int| 0 <= i < ambient.len() ==> storable_pair(#[trigger] ambient[i]),
        !cade_var(x),
    ensures
        snapshot_keeps(ambient, x),
{
    lemma_ambient_pairs_storable(ambient);
    law_snapshot_round_trip(ambient_pairs(ambient));
    lemma_ambient_pairs_map(ambient, x);
}

/// Exiting gives back the environment the shell had before its first
/// activation: every variable that is neither the shell's own nor cade's
/// own, and that the snapshot reads back as it stood, ends with the value
/// it had, or unset if it was unset, whatever the composed layers set,
/// cleared or purified, and whatever names they hold, provided the hooks
/// change no variable.
pub proof fn law_exit_restores_ambient(
    ambient: Seq<(Seq<char>, Seq<char>)>,
    env: Entries,
    absorb: Set<Seq<char>>,
    unset: Seq<Seq<char>>,
    hooks: Seq<InnerHook>,
    purified: bool,
    session: Seq<char>,
    layers: Seq<Seq<char>>,
    state_dir: Seq<char>,
    config_path: Option<Seq<char>>,
    hooks_json: Seq<char>,
    watches_json: Seq<char>,
    exit_hooks: Seq<InnerHook>,
    x: Seq<char>,
)
    requires
        crate::assoc::keys_distinct(env),
        snapshot_keeps(ambient, x),
        !shell_managed(x),
    ensures
        value_of(
            exit_env(
                first_activation(
                    ambient,
                    env,
                    absorb,
                    unset,
                    hooks,
                    purified,
                    session,
                    layers,
                    state_dir,
                    config_path,
                    hooks_json,
                    watches_json,
                ),
                render_pairs(ambient_pairs(ambient)),
                exit_hooks,
            ),
            x,
        ) == value_of(pairs_map(ambient), x),
{
    let s = snapshot_pairs(render_pairs(ambient_pairs(ambient)));
    let pm = pairs_map(s);
    let a0 = pairs_map(ambient);
    let live = pairs_keys(ambient);
    lemma_entry_names(env);
    lemma_sorted_of_seq(entry_names(env));
    let sk = sorted_of(to_map(env).dom());
    let rk = keylist(keylist_text(sk));
    let ru = keylist(keylist_text(unset));
    lemma_cade_names();
    let h1 = hook_commands(hooks, HookType::LoadPre);
    let sc = session_commands(Some(session));
    let pg: Seq<Command> = if purified {
        purge_commands(live)
    } else {
        Seq::empty()
    };
    let uc = unset_commands(unset);
    let ec = env_commands(env, absorb, purified, pm);
    let h2 = hook_commands(hooks, HookType::LoadPost);
    let st = state_commands(layers, state_dir, config_path, sk, unset, purified, hooks_json, watches_json);
    let act = activation_spec(
        env,
        absorb,
        unset,
        hooks,
        purified,
        pm,
        Some(session),
        live,
        layers,
        state_dir,
        config_path,
        hooks_json,
        watches_json,
    );
    assert(act == h1 + sc + pg + uc + ec + h2 + st);
    let e1 = apply(a0, act);
    assert(e1 == first_activation(
        ambient,
        env,
        absorb,
        unset,
        hooks,
        purified,
        session,
        layers,
        state_dir,
        config_path,
        hooks_json,
        watches_json,
    ));
    // what cade reads back from its state variables
    lemma_state_touch(layers, state_dir, config_path, sk, unset, purified, hooks_json, watches_json, x);
    lemma_last_touch_concat(h1 + sc + pg + uc + ec + h2, st, "__CADE_SET"@);
    lemma_last_touch_concat(h1 + sc + pg + uc + ec + h2, st, "__CADE_UNSET"@);
    lemma_last_touch_concat(h1 + sc + pg + uc + ec + h2, st, "__CADE_PURE"@);
    lemma_apply_value(a0, act, "__CADE_SET"@);
    lemma_apply_value(a0, act, "__CADE_UNSET"@);
    lemma_apply_value(a0, act, "__CADE_PURE"@);
    assert(text_of(e1, "__CADE_SET"@) == keylist_text(sk));
    assert(text_of(e1, "__CADE_UNSET"@) == keylist_text(unset));
    assert(text_of(e1, "__CADE_PURE"@) == pure_flag(purified));
    assert((pure_flag(purified) == "1"@) == purified);
    let rest = restore_spec(s, rk, ru, purified, exit_hooks, true);
    assert(exit_env(e1, render_pairs(ambient_pairs(ambient)), exit_hooks) == apply(e1, rest));
    lemma_apply_value(e1, rest, x);
    lemma_apply_value(a0, act, x);
    if valid_key(x) {
        lemma_valid_key_plain(x);
        if sk.contains(x) {
            law_keylist_keeps(sk, x);
        }
        if unset.contains(x) {
            law_keylist_keeps(unset, x);
        }
        // the activation
        lemma_hooks_touch(hooks, HookType::LoadPre, x);
        lemma_session_touch(Some(session), x);
        lemma_purge_touch(live, x);
        lemma_unsets_touch(unset, x);
        lemma_env_touch(env, absorb, purified, pm, x);
        lemma_hooks_touch(hooks, HookType::LoadPost, x);
        lemma_last_touch_concat(h1, sc, x);
        lemma_last_touch_concat(h1 + sc, pg, x);
        lemma_last_touch_concat(h1 + sc + pg, uc, x);
        lemma_last_touch_concat(h1 + sc + pg + uc, ec, x);
        lemma_last_touch_concat(h1 + sc + pg + uc + ec, h2, x);
        lemma_last_touch_concat(h1 + sc + pg + uc + ec + h2, st, x);
        if !purified {
            assert(last_touch(pg, x) is None);
        }
        // the restore
        let r1 = hook_commands(exit_hooks, HookType::UnloadPre);
        let r2: Seq<Command> = if purified {
            pure_restore_commands(s) + drop_commands(rk, pm)
        } else {
            revert_commands(rk, pm)
        };
        let r3 = recover_commands(ru, pm);
        let r4 = state_unsets(true);
        let r5 = hook_commands(exit_hooks, HookType::UnloadPost);
        assert(rest == r1 + r2 + r3 + r4 + r5);
        lemma_hooks_touch(exit_hooks, HookType::UnloadPre, x);
        lemma_hooks_touch(exit_hooks, HookType::UnloadPost, x);
        lemma_pure_restore_touch(s, x);
        lemma_drop_touch(rk, pm, x);
        lemma_revert_touch(rk, pm, x);
        lemma_recover_touch(ru, pm, x);
        lemma_state_unsets_touch(true, x);
        lemma_last_touch_concat(pure_restore_commands(s), drop_commands(rk, pm), x);
        lemma_last_touch_concat(r1, r2, x);
        lemma_last_touch_concat(r1 + r2, r3, x);
        lemma_last_touch_concat(r1 + r2 + r3, r4, x);
        lemma_last_touch_concat(r1 + r2 + r3 + r4, r5, x);
        // the snapshot agrees with the ambient environment on `x`
        lemma_pairs_map_dom(ambient, x);
        assert(value_of(pm, x) == value_of(a0, x));
        assert(sk.to_set() == entry_names(env).to_set());
        assert(sk.to_set().contains(x) == sk.contains(x));
        assert(to_map(env).dom().contains(x) == has_key(env, x));
        assert(sk.contains(x) == has_key(env, x));
    }
}

/// A restore leaves alone every variable that the shell owns (`PWD`,
/// `OLDPWD`, `SHLVL`, `_`, `LAST_EXIT_CODE`): of the shell-managed
/// variables it touches only cade's own.
pub proof fn law_restore_leaves_shell_vars(
    before: Map<Seq<char>, Seq<char>>,
    prev: Seq<(Seq<char>, Seq<char>)>,
    set_keys: Seq<Seq<char>>,
    unset_keys: Seq<Seq<char>>,
    pure: bool,
    hooks: Seq<InnerHook>,
    finalise: bool,
    x: Seq<char>,
)
    requires
        shell_managed(x),
        !cade_var(x),
    ensures
        value_of(apply(before, restore_spec(prev, set_keys, unset_keys, pure, hooks, finalise)), x)
            == value_of(before, x),
{
    let pm = pairs_map(prev);
    let r1 = hook_commands(hooks, HookType::UnloadPre);
    let r2: Seq<Command> = if pure {
        pure_restore_commands(prev) + drop_commands(set_keys, pm)
    } else {
        revert_commands(set_keys, pm)
    };
    let r3 = recover_commands(unset_keys, pm);
    let r4 = state_unsets(finalise);
    let r5 = hook_commands(hooks, HookType::UnloadPost);
    let rest = restore_spec(prev, set_keys, unset_keys, pure, hooks, finalise);
    assert(rest == r1 + r2 + r3 + r4 + r5);
    lemma_hooks_touch(hooks, HookType::UnloadPre, x);
    lemma_hooks_touch(hooks, HookType::UnloadPost, x);
    lemma_pure_restore_touch(prev, x);
    lemma_drop_touch(set_keys, pm, x);
    lemma_revert_touch(set_keys, pm, x);
    lemma_recover_touch(unset_keys, pm, x);
    lemma_state_unsets_touch(finalise, x);
    lemma_last_touch_concat(pure_restore_commands(prev), drop_commands(set_keys, pm), x);
    lemma_last_touch_concat(r1, r2, x);
    lemma_last_touch_concat(r1 + r2, r3, x);
    lemma_last_touch_concat(r1 + r2 + r3, r4, x);
    lemma_last_touch_concat(r1 + r2 + r3 + r4, r5, x);
    lemma_apply_value(before, rest, x);
}

/// An activation of composed layers (which never hold a variable the shell
/// owns) leaves alone every variable that the shell owns; `pure` keeps them
/// too.
pub proof fn law_activation_leaves_shell_vars(
    before: Map<Seq<char>, Seq<char>>,
    env: Entries,
    absorb: Set<Seq<char>>,
    unset: Seq<Seq<char>>,
    hooks: Seq<InnerHook>,
    purified: bool,
    baseline: Map<Seq<char>, Seq<char>>,
    session: Option<Seq<char>>,
    live: Seq<Seq<char>>,
    layers: Seq<Seq<char>>,
    state_dir: Seq<char>,
    config_path: Option<Seq<char>>,
    hooks_json: Seq<char>,
    watches_json: Seq<char>,
    x: Seq<char>,
)
    requires
        crate::assoc::keys_distinct(env),
        forall|i: int| 0 <= i < env.len() ==> !shell_managed(#[trigger] env[i].0),
        forall|i: int| 0 <= i < unset.len() ==> !shell_managed(#[trigger] unset[i]),
        shell_managed(x),
        !cade_var(x),
    ensures
        value_of(
            apply(
                before,
                activation_spec(
                    env,
                    absorb,
                    unset,
                    hooks,
                    purified,
                    baseline,
                    session,
                    live,
                    layers,
                    state_dir,
                    config_path,
                    hooks_json,
                    watches_json,
                ),
            ),
            x,
        ) == value_of(before, x),
{
    let sk = sorted_of(to_map(env).dom());
    let h1 = hook_commands(hooks, HookType::LoadPre);
    let sc = session_commands(session);
    let pg: Seq<Command> = if purified {
        purge_commands(live)
    } else {
        Seq::empty()
    };
    let uc = unset_commands(unset);
    let ec = env_commands(env, absorb, purified, baseline);
    let h2 = hook_commands(hooks, HookType::LoadPost);
    let st = state_commands(layers, state_dir, config_path, sk, unset, purified, hooks_json, watches_json);
    let act = activation_spec(
        env,
        absorb,
        unset,
        hooks,
        purified,
        baseline,
        session,
        live,
        layers,
        state_dir,
        config_path,
        hooks_json,
        watches_json,
    );
    assert(act == h1 + sc + pg + uc + ec + h2 + st);
    lemma_hooks_touch(hooks, HookType::LoadPre, x);
    lemma_session_touch(session, x);
    lemma_purge_touch(live, x);
    lemma_unsets_touch(unset, x);
    lemma_env_touch(env, absorb, purified, baseline, x);
    lemma_hooks_touch(hooks, HookType::LoadPost, x);
    lemma_state_touch(layers, state_dir, config_path, sk, unset, purified, hooks_json, watches_json, x);
    if unset.contains(x) {
        let i = choose|i: int| 0 <= i < unset.len() && unset[i] == x;
        assert(!shell_managed(unset[i]));
    }
    if has_key(env, x) {
        let i = choose|i: int| 0 <= i < env.len() && #[trigger] env[i].0 == x;
        assert(!shell_managed(env[i].0));
    }
    if !purified {
        assert(last_touch(pg, x) is None);
    }
    lemma_last_touch_concat(h1, sc, x);
    lemma_last_touch_concat(h1 + sc, pg, x);
    lemma_last_touch_concat(h1 + sc + pg, uc, x);
    lemma_last_touch_concat(h1 + sc + pg + uc, ec, x);
    lemma_last_touch_concat(h1 + sc + pg + uc + ec, h2, x);
    lemma_last_touch_concat(h1 + sc + pg + uc + ec + h2, st, x);
    lemma_apply_value(before, act, x);
}

/// After an activation, each composed variable with a valid name has its
/// layered value: its values joined with `:`, followed by the ambient value
/// when it absorbs one.
pub proof fn law_activation_sets_composed(
    before: Map<Seq<char>, Seq<char>>,
    env: Entries,
    absorb: Set<Seq<char>>,
    unset: Seq<Seq<char>>,
    hooks: Seq<InnerHook>,
    purified: bool,
    baseline: Map<Seq<char>, Seq<char>>,
    session: Option<Seq<char>>,
    live: Seq<Seq<char>>,
    layers: Seq<Seq<char>>,
    state_dir: Seq<char>,
    config_path: Option<Seq<char>>,
    hooks_json: Seq<char>,
    watches_json: Seq<char>,
    x: Seq<char>,
)
    requires
        crate::assoc::keys_distinct(env),
        to_map(env).dom().contains(x),
        valid_key(x),
        !cade_var(x),
    ensures
        value_of(
            apply(
                before,
                activation_spec(
                    env,
                    absorb,
                    unset,
                    hooks,
                    purified,
                    baseline,
                    session,
                    live,
                    layers,
                    state_dir,
                    config_path,
                    hooks_json,
                    watches_json,
                ),
            ),
            x,
        ) == Some(layered_value(x, to_map(env)[x], absorb, purified, baseline)),
{
    let sk = sorted_of(to_map(env).dom());
    let h1 = hook_commands(hooks, HookType::LoadPre);
    let sc = session_commands(session);
    let pg: Seq<Command> = if purified {
        purge_commands(live)
    } else {
        Seq::empty()
    };
    let uc = unset_commands(unset);
    let ec = env_commands(env, absorb, purified, baseline);
    let h2 = hook_commands(hooks, HookType::LoadPost);
    let st = state_commands(layers, state_dir, config_path, sk, unset, purified, hooks_json, watches_json);
    let act = activation_spec(
        env,
        absorb,
        unset,
        hooks,
        purified,
        baseline,
        session,
        live,
        layers,
        state_dir,
        config_path,
        hooks_json,
        watches_json,
    );
    assert(act == h1 + sc + pg + uc + ec + h2 + st);
    lemma_env_touch(env, absorb, purified, baseline, x);
    lemma_hooks_touch(hooks, HookType::LoadPost, x);
    lemma_state_touch(layers, state_dir, config_path, sk, unset, purified, hooks_json, watches_json, x);
    lemma_last_touch_concat(h1 + sc + pg + uc, ec, x);
    lemma_last_touch_concat(h1 + sc + pg + uc + ec, h2, x);
    lemma_last_touch_concat(h1 + sc + pg + uc + ec + h2, st, x);
    lemma_apply_value(before, act, x);
}

/// A restore leaves alone every variable that cade neither set nor cleared
/// (not its own either), so a variable changed mid-session keeps the
/// change; after `pure`, this holds of the variables the snapshot lacks,
/// the snapshot's being brought back.
pub proof fn law_restore_leaves_untouched_vars(
    before: Map<Seq<char>, Seq<char>>,
    prev: Seq<(Seq<char>, Seq<char>)>,
    set_keys: Seq<Seq<char>>,
    unset_keys: Seq<Seq<char>>,
    pure: bool,
    hooks: Seq<InnerHook>,
    finalise: bool,
    x: Seq<char>,
)
    requires
        !set_keys.contains(x),
        !unset_keys.contains(x),
        !cade_var(x),
        pure ==> !pairs_map(prev).dom().contains(x),
    ensures
        value_of(apply(before, restore_spec(prev, set_keys, unset_keys, pure, hooks, finalise)), x)
            == value_of(before, x),
{
    let pm = pairs_map(prev);
    let r1 = hook_commands(hooks, HookType::UnloadPre);
    let r2: Seq<Command> = if pure {
        pure_restore_commands(prev) + drop_commands(set_keys, pm)
    } else {
        revert_commands(set_keys, pm)
    };
    let r3 = recover_commands(unset_keys, pm);
    let r4 = state_unsets(finalise);
    let r5 = hook_commands(hooks, HookType::UnloadPost);
    let rest = restore_spec(prev, set_keys, unset_keys, pure, hooks, finalise);
    assert(rest == r1 + r2 + r3 + r4 + r5);
    lemma_hooks_touch(hooks, HookType::UnloadPre, x);
    lemma_hooks_touch(hooks, HookType::UnloadPost, x);
    lemma_pure_restore_touch(prev, x);
    lemma_drop_touch(set_keys, pm, x);
    lemma_revert_touch(set_keys, pm, x);
    lemma_recover_touch(unset_keys, pm, x);
    lemma_state_unsets_touch(finalise, x);
    lemma_last_touch_concat(pure_restore_commands(prev), drop_commands(set_keys, pm), x);
    lemma_last_touch_concat(r1, r2, x);
    lemma_last_touch_concat(r1 + r2, r3, x);
    lemma_last_touch_concat(r1 + r2 + r3, r4, x);
    lemma_last_touch_concat(r1 + r2 + r3 + r4, r5, x);
    lemma_apply_value(before, rest, x);
}

// ---- activation, then restore, for any state ----

/// The environment after the statements `activation_commands(r, cx)`, in a
/// shell whose variables are `before`.
pub open spec fn activated(before: Map<Seq<char>, Seq<char>>, r: RollupResult, cx: ActivationContext) -> Map<
    Seq<char>,
    Seq<char>,
> {
    apply(
        before,
        activation_spec(
            r.env.deep_view(),
            r.absorb_set(),
            r.unset.deep_view(),
            r.hooks@,
            r.purified,
            pairs_map(pairs_view(cx.baseline@)),
            opt_text(cx.new_session),
            cx.live_keys.deep_view(),
            cx.layer_paths.deep_view(),
            cx.state_dir@,
            opt_text(cx.config_path),
            cx.hooks_json@,
            cx.watches_json@,
        ),
    )
}

/// The environment after a restore of the activated shell `active`, from
/// the snapshot's text and the state cade left in its variables.
pub open spec fn restored(
    active: Map<Seq<char>, Seq<char>>,
    snapshot_text: Seq<char>,
    hooks: Seq<InnerHook>,
    finalise: bool,
) -> Map<Seq<char>, Seq<char>> {
    apply(
        active,
        restore_spec(
            snapshot_pairs(snapshot_text),
            keylist(text_of(active, "__CADE_SET"@)),
            keylist(text_of(active, "__CADE_UNSET"@)),
            text_of(active, "__CADE_PURE"@) == "1"@,
            hooks,
            finalise,
        ),
    )
}

proof fn lemma_session_unsets(finalise: bool)
    ensures
        last_touch(state_unsets(finalise), "__CADE_SESSION"@) == if finalise {
            Some(None::<Seq<char>>)
        } else {
            None
        },
{
    reveal_strlit("__CADE_LAYERS");
    reveal_strlit("__CADE_STATE_DIR");
    reveal_strlit("__CADE_CONFIG_PATH");
    reveal_strlit("__CADE_SET");
    reveal_strlit("__CADE_UNSET");
    reveal_strlit("__CADE_PURE");
    reveal_strlit("__CADE_HOOKS");
    reveal_strlit("__CADE_WATCHES");
    reveal_strlit("__CADE_SESSION");
    let x = "__CADE_SESSION"@;
    let a = seq![
        Command::UnsetVar("__CADE_LAYERS"@),
        Command::UnsetVar("__CADE_SET"@),
        Command::UnsetVar("__CADE_UNSET"@),
        Command::UnsetVar("__CADE_PURE"@),
        Command::UnsetVar("__CADE_WATCHES"@),
        Command::UnsetVar("__CADE_HOOKS"@),
        Command::UnsetVar("__CADE_STATE_DIR"@),
        Command::UnsetVar("__CADE_CONFIG_PATH"@),
    ];
    let b: Seq<Command> = if finalise {
        seq![Command::UnsetVar(x)]
    } else {
        Seq::empty()
    };
    assert(state_unsets(finalise) == a + b);
    assert("__CADE_WATCHES"@[7] != x[7]);
    assert(x.len() == 14);
    assert("__CADE_LAYERS"@.len() == 13);
    assert("__CADE_SET"@.len() == 10);
    assert("__CADE_UNSET"@.len() == 12);
    assert("__CADE_PURE"@.len() == 11);
    assert("__CADE_HOOKS"@.len() == 12);
    assert("__CADE_STATE_DIR"@.len() == 16);
    assert("__CADE_CONFIG_PATH"@.len() == 18);
    assert("__CADE_WATCHES"@ != x);
    assert forall|i: int| 0 <= i < a.len() implies (#[trigger] touch(a[i], x)) is None by {
        assert(a[0] == Command::UnsetVar("__CADE_LAYERS"@));
        assert(a[1] == Command::UnsetVar("__CADE_SET"@));
        assert(a[2] == Command::UnsetVar("__CADE_UNSET"@));
        assert(a[3] == Command::UnsetVar("__CADE_PURE"@));
        assert(a[4] == Command::UnsetVar("__CADE_WATCHES"@));
        assert(a[5] == Command::UnsetVar("__CADE_HOOKS"@));
        assert(a[6] == Command::UnsetVar("__CADE_STATE_DIR"@));
        assert(a[7] == Command::UnsetVar("__CADE_CONFIG_PATH"@));
    }
    lemma_no_touch(a, x);
    lemma_last_touch_concat(a, b, x);
    if finalise {
        assert(b.drop_last() =~= Seq::<Command>::empty());
    }
}

/// A restore reads nothing of the shell but cade's three state variables,
/// so two shells that share a session and an activation (a shell and one
/// nested in it) are given the same statements from the same snapshot; a
/// restore that does not finalise leaves the session variable as it was,
/// and one that finalises unsets it.
pub proof fn law_restore_repeats(
    a1: Map<Seq<char>, Seq<char>>,
    a2: Map<Seq<char>, Seq<char>>,
    snapshot_text: Seq<char>,
    hooks: Seq<InnerHook>,
    finalise: bool,
)
    requires
        text_of(a1, "__CADE_SET"@) == text_of(a2, "__CADE_SET"@),
        text_of(a1, "__CADE_UNSET"@) == text_of(a2, "__CADE_UNSET"@),
        text_of(a1, "__CADE_PURE"@) == text_of(a2, "__CADE_PURE"@),
    ensures
        restore_spec(
            snapshot_pairs(snapshot_text),
            keylist(text_of(a1, "__CADE_SET"@)),
            keylist(text_of(a1, "__CADE_UNSET"@)),
            text_of(a1, "__CADE_PURE"@) == "1"@,
            hooks,
            finalise,
        ) == restore_spec(
            snapshot_pairs(snapshot_text),
            keylist(text_of(a2, "__CADE_SET"@)),
            keylist(text_of(a2, "__CADE_UNSET"@)),
            text_of(a2, "__CADE_PURE"@) == "1"@,
            hooks,
            finalise,
        ),
        !finalise ==> value_of(restored(a1, snapshot_text, hooks, finalise), "__CADE_SESSION"@)
            == value_of(a1, "__CADE_SESSION"@),
        finalise ==> !restored(a1, snapshot_text, hooks, finalise).dom().contains("__CADE_SESSION"@),
{
    lemma_cade_names();
    let x = "__CADE_SESSION"@;
    let prev = snapshot_pairs(snapshot_text);
    let pm = pairs_map(prev);
    let sk = keylist(text_of(a1, "__CADE_SET"@));
    let uk = keylist(text_of(a1, "__CADE_UNSET"@));
    let pure = text_of(a1, "__CADE_PURE"@) == "1"@;
    let r1 = hook_commands(hooks, HookType::UnloadPre);
    let r2: Seq<Command> = if pure {
        pure_restore_commands(prev) + drop_commands(sk, pm)
    } else {
        revert_commands(sk, pm)
    };
    let r3 = recover_commands(uk, pm);
    let r4 = state_unsets(finalise);
    let r5 = hook_commands(hooks, HookType::UnloadPost);
    let rest = restore_spec(prev, sk, uk, pure, hooks, finalise);
    assert(rest == r1 + r2 + r3 + r4 + r5);
    lemma_hooks_touch(hooks, HookType::UnloadPre, x);
    lemma_hooks_touch(hooks, HookType::UnloadPost, x);
    lemma_pure_restore_touch(prev, x);
    lemma_drop_touch(sk, pm, x);
    lemma_revert_touch(sk, pm, x);
    lemma_recover_touch(uk, pm, x);
    lemma_session_unsets(finalise);
    lemma_last_touch_concat(pure_restore_commands(prev), drop_commands(sk, pm), x);
    lemma_last_touch_concat(r1, r2, x);
    lemma_last_touch_concat(r1 + r2, r3, x);
    lemma_last_touch_concat(r1 + r2 + r3, r4, x);
    lemma_last_touch_concat(r1 + r2 + r3 + r4, r5, x);
    lemma_apply_value(a1, rest, x);
}

/// A restore undoes an activation: a variable that is neither the shell's
/// nor cade's own, and whose value the snapshot (the activation's baseline)
/// records as it stood, ends as it stood, whatever the composition set,
/// cleared or purified and whatever names it holds, provided the hooks
/// change no variable. A baseline read from a snapshot's text always has
/// storable pairs (`lemma_snapshot_pairs_storable`).
pub proof fn law_restore_undoes_activation(
    before: Map<Seq<char>, Seq<char>>,
    r: RollupResult,
    cx: ActivationContext,
    hooks: Seq<InnerHook>,
    finalise: bool,
    x: Seq<char>,
)
    requires
        crate::assoc::keys_distinct(r.env.deep_view()),
        forall|i: int|
            0 <= i < pairs_view(cx.baseline@).len() ==> storable_pair(
                #[trigger] pairs_view(cx.baseline@)[i],
            ),
        !shell_managed(x),
        value_of(pairs_map(pairs_view(cx.baseline@)), x) == value_of(before, x),
        cx.live_keys.deep_view().contains(x) == before.dom().contains(x),
    ensures
        value_of(
            restored(activated(before, r, cx), render_pairs(pairs_view(cx.baseline@)), hooks, finalise),
            x,
        ) == value_of(before, x),
{
    let s = pairs_view(cx.baseline@);
    let env = r.env.deep_view();
    let unset = r.unset.deep_view();
    let absorb = r.absorb_set();
    let purified = r.purified;
    let live = cx.live_keys.deep_view();
    let session = opt_text(cx.new_session);
    law_snapshot_round_trip(s);
    let pm = pairs_map(s);
    lemma_entry_names(env);
    lemma_sorted_of_seq(entry_names(env));
    let sk = sorted_of(to_map(env).dom());
    let rk = keylist(keylist_text(sk));
    let ru = keylist(keylist_text(unset));
    lemma_cade_names();
    let h1 = hook_commands(r.hooks@, HookType::LoadPre);
    let sc = session_commands(session);
    let pg: Seq<Command> = if purified {
        purge_commands(live)
    } else {
        Seq::empty()
    };
    let uc = unset_commands(unset);
    let ec = env_commands(env, absorb, purified, pm);
    let h2 = hook_commands(r.hooks@, HookType::LoadPost);
    let st = state_commands(
        cx.layer_paths.deep_view(),
        cx.state_dir@,
        opt_text(cx.config_path),
        sk,
        unset,
        purified,
        cx.hooks_json@,
        cx.watches_json@,
    );
    let act = activation_spec(
        env,
        absorb,
        unset,
        r.hooks@,
        purified,
        pm,
        session,
        live,
        cx.layer_paths.deep_view(),
        cx.state_dir@,
        opt_text(cx.config_path),
        cx.hooks_json@,
        cx.watches_json@,
    );
    assert(act == h1 + sc + pg + uc + ec + h2 + st);
    let e1 = apply(before, act);
    assert(e1 == activated(before, r, cx));
    lemma_state_touch(
        cx.layer_paths.deep_view(),
        cx.state_dir@,
        opt_text(cx.config_path),
        sk,
        unset,
        purified,
        cx.hooks_json@,
        cx.watches_json@,
        x,
    );
    lemma_last_touch_concat(h1 + sc + pg + uc + ec + h2, st, "__CADE_SET"@);
    lemma_last_touch_concat(h1 + sc + pg + uc + ec + h2, st, "__CADE_UNSET"@);
    lemma_last_touch_concat(h1 + sc + pg + uc + ec + h2, st, "__CADE_PURE"@);
    lemma_apply_value(before, act, "__CADE_SET"@);
    lemma_apply_value(before, act, "__CADE_UNSET"@);
    lemma_apply_value(before, act, "__CADE_PURE"@);
    assert(text_of(e1, "__CADE_SET"@) == keylist_text(sk));
    assert(text_of(e1, "__CADE_UNSET"@) == keylist_text(unset));
    assert(text_of(e1, "__CADE_PURE"@) == pure_flag(purified));
    assert((pure_flag(purified) == "1"@) == purified);
    let rest = restore_spec(s, rk, ru, purified, hooks, finalise);
    assert(restored(e1, render_pairs(s), hooks, finalise) == apply(e1, rest));
    lemma_apply_value(e1, rest, x);
    lemma_apply_value(before, act, x);
    if valid_key(x) {
        lemma_valid_key_plain(x);
        if sk.contains(x) {
            law_keylist_keeps(sk, x);
        }
        if unset.contains(x) {
            law_keylist_keeps(unset, x);
        }
        lemma_hooks_touch(r.hooks@, HookType::LoadPre, x);
        lemma_session_touch(session, x);
        lemma_purge_touch(live, x);
        lemma_unsets_touch(unset, x);
        lemma_env_touch(env, absorb, purified, pm, x);
        lemma_hooks_touch(r.hooks@, HookType::LoadPost, x);
        lemma_last_touch_concat(h1, sc, x);
        lemma_last_touch_concat(h1 + sc, pg, x);
        lemma_last_touch_concat(h1 + sc + pg, uc, x);
        lemma_last_touch_concat(h1 + sc + pg + uc, ec, x);
        lemma_last_touch_concat(h1 + sc + pg + uc + ec, h2, x);
        lemma_last_touch_concat(h1 + sc + pg + uc + ec + h2, st, x);
        if !purified {
            assert(last_touch(pg, x) is None);
        }
        let r1 = hook_commands(hooks, HookType::UnloadPre);
        let r2: Seq<Command> = if purified {
            pure_restore_commands(s) + drop_commands(rk, pm)
        } else {
            revert_commands(rk, pm)
        };
        let r3 = recover_commands(ru, pm);
        let r4 = state_unsets(finalise);
        let r5 = hook_commands(hooks, HookType::UnloadPost);
        assert(rest == r1 + r2 + r3 + r4 + r5);
        lemma_hooks_touch(hooks, HookType::UnloadPre, x);
        lemma_hooks_touch(hooks, HookType::UnloadPost, x);
        lemma_pure_restore_touch(s, x);
        lemma_drop_touch(rk, pm, x);
        lemma_revert_touch(rk, pm, x);
        lemma_recover_touch(ru, pm, x);
        lemma_state_unsets_touch(finalise, x);
        lemma_last_touch_concat(pure_restore_commands(s), drop_commands(rk, pm), x);
        lemma_last_touch_concat(r1, r2, x);
        lemma_last_touch_concat(r1 + r2, r3, x);
        lemma_last_touch_concat(r1 + r2 + r3, r4, x);
        lemma_last_touch_concat(r1 + r2 + r3 + r4, r5, x);
        assert(sk.to_set() == entry_names(env).to_set());
        assert(sk.to_set().contains(x) == sk.contains(x));
        assert(to_map(env).dom().contains(x) == has_key(env, x));
        assert(sk.contains(x) == has_key(env, x));
    }
}

/// Reloading keeps the ambient environment: after a first activation from
/// the snapshot of the shell's variables, a reload (a restore that keeps the
/// session, then an activation of a possibly different composition from the
/// same snapshot, with the shell's variables at that point) and an exit,
/// every variable that is neither the shell's nor cade's own, and that the
/// snapshot reads back as it stood, is as it was before the first
/// activation, whatever names the compositions hold.
pub proof fn law_reload_keeps_ambient(
    ambient: Seq<(Seq<char>, Seq<char>)>,
    r1: RollupResult,
    cx1: ActivationContext,
    r2: RollupResult,
    cx2: ActivationContext,
    hooks1: Seq<InnerHook>,
    hooks2: Seq<InnerHook>,
    x: Seq<char>,
)
    requires
        crate::assoc::keys_distinct(r1.env.deep_view()),
        crate::assoc::keys_distinct(r2.env.deep_view()),
        pairs_view(cx1.baseline@) == snapshot_pairs(render_pairs(ambient_pairs(ambient))),
        snapshot_keeps(ambient, x),
        cx1.live_keys.deep_view() == pairs_keys(ambient),
        pairs_view(cx2.baseline@) == pairs_view(cx1.baseline@),
        cx2.live_keys.deep_view().contains(x) == restored(
            activated(pairs_map(ambient), r1, cx1),
            render_pairs(pairs_view(cx1.baseline@)),
            hooks1,
            false,
        ).dom().contains(x),
        !shell_managed(x),
    ensures
        value_of(
            restored(
                activated(
                    restored(
                        activated(pairs_map(ambient), r1, cx1),
                        render_pairs(pairs_view(cx1.baseline@)),
                        hooks1,
                        false,
                    ),
                    r2,
                    cx2,
                ),
                render_pairs(pairs_view(cx2.baseline@)),
                hooks2,
                true,
            ),
            x,
        ) == value_of(pairs_map(ambient), x),
{
    let s = pairs_view(cx1.baseline@);
    lemma_snapshot_pairs_storable(render_pairs(ambient_pairs(ambient)));
    lemma_pairs_map_dom(ambient, x);
    assert(value_of(pairs_map(s), x) == value_of(pairs_map(ambient), x));
    law_restore_undoes_activation(pairs_map(ambient), r1, cx1, hooks1, false, x);
    let e2 = restored(activated(pairs_map(ambient), r1, cx1), render_pairs(s), hooks1, false);
    law_restore_undoes_activation(e2, r2, cx2, hooks2, true, x);
}

} // verus!
