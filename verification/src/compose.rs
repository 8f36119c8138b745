//! Layer construction and the composition of layers into one environment.
use vstd::prelude::*;
use crate::assoc::{
    entry_prepend, entry_remove, entry_set, find_key, keys_distinct, lemma_to_map_empty,
    lemma_to_map_at, names_contain, names_insert, names_remove, to_map, clone_strings,
};
use crate::order::{sorted_names, strictly_sorted};
use crate::text::{starts_with, str_is, str_starts_with};
use crate::types::{
    CadeAction, CadeLayer, EnvSet, InnerHook, lemma_take_key_absent, lemma_take_push_distinct,
    merge_vars,
};

verus! {

/// Keys cade must never set from a layer: the shell owns them, or they are
/// cade's own bookkeeping.
pub open spec fn shell_managed(k: Seq<char>) -> bool {
    ||| k == "PWD"@
    ||| k == "OLDPWD"@
    ||| k == "SHLVL"@
    ||| k == "_"@
    ||| k == "LAST_EXIT_CODE"@
    ||| starts_with(k, "__CADE_"@)
}

/// Keys that `pure` keeps from the ambient environment.
pub open spec fn pure_preserved(k: Seq<char>) -> bool {
    ||| shell_managed(k)
    ||| k == "HOME"@
    ||| k == "CADE_VERBOSITY"@
    ||| k == "CADE_LONG_RUNNING_WARNING_MS"@
}

/// Whether the shell or cade itself owns `key`.
pub fn is_shell_managed(key: &str) -> (r: bool)
    ensures
        r == shell_managed(key@),
{
    str_is(key, "PWD") || str_is(key, "OLDPWD") || str_is(key, "SHLVL") || str_is(key, "_")
        || str_is(key, "LAST_EXIT_CODE") || str_starts_with(key, "__CADE_")
}

/// Whether `pure` keeps `key` from the ambient environment.
pub fn is_pure_preserved_key(key: &str) -> (r: bool)
    ensures
        r == pure_preserved(key@),
{
    is_shell_managed(key) || str_is(key, "HOME") || str_is(key, "CADE_VERBOSITY") || str_is(
        key,
        "CADE_LONG_RUNNING_WARNING_MS",
    )
}

/// Variables that concatenate by default.
pub open spec fn path_like() -> Set<Seq<char>> {
    set![
        "PATH"@,
        "MANPATH"@,
        "INFOPATH"@,
        "CDPATH"@,
        "LD_LIBRARY_PATH"@,
        "DYLD_LIBRARY_PATH"@,
        "DYLD_FALLBACK_LIBRARY_PATH"@,
        "LIBRARY_PATH"@,
        "CPATH"@,
        "C_INCLUDE_PATH"@,
        "CPLUS_INCLUDE_PATH"@,
        "OBJC_INCLUDE_PATH"@,
        "PKG_CONFIG_PATH"@,
        "CMAKE_PREFIX_PATH"@,
        "ACLOCAL_PATH"@,
        "XDG_DATA_DIRS"@,
        "XDG_CONFIG_DIRS"@,
        "TERMINFO_DIRS"@,
    ]
}

/// The variables that concatenate by default, as a name list.
pub fn path_like_names() -> (r: Vec<String>)
    ensures
        r.deep_view().no_duplicates(),
        r.deep_view().to_set() == path_like(),
{
    let mut r: Vec<String> = Vec::new();
    assert(r.deep_view().to_set() =~= Set::<Seq<char>>::empty());
    names_insert(&mut r, "PATH".to_owned());
    names_insert(&mut r, "MANPATH".to_owned());
    names_insert(&mut r, "INFOPATH".to_owned());
    names_insert(&mut r, "CDPATH".to_owned());
    names_insert(&mut r, "LD_LIBRARY_PATH".to_owned());
    names_insert(&mut r, "DYLD_LIBRARY_PATH".to_owned());
    names_insert(&mut r, "DYLD_FALLBACK_LIBRARY_PATH".to_owned());
    names_insert(&mut r, "LIBRARY_PATH".to_owned());
    names_insert(&mut r, "CPATH".to_owned());
    names_insert(&mut r, "C_INCLUDE_PATH".to_owned());
    names_insert(&mut r, "CPLUS_INCLUDE_PATH".to_owned());
    names_insert(&mut r, "OBJC_INCLUDE_PATH".to_owned());
    names_insert(&mut r, "PKG_CONFIG_PATH".to_owned());
    names_insert(&mut r, "CMAKE_PREFIX_PATH".to_owned());
    names_insert(&mut r, "ACLOCAL_PATH".to_owned());
    names_insert(&mut r, "XDG_DATA_DIRS".to_owned());
    names_insert(&mut r, "XDG_CONFIG_DIRS".to_owned());
    names_insert(&mut r, "TERMINFO_DIRS".to_owned());
    r
}

impl CadeLayer {
    /// Each variable, clear and concat name occurs once.
    pub open spec fn wf(&self) -> bool {
        &&& self.envs.wf()
        &&& self.clears.deep_view().no_duplicates()
        &&& self.concat.deep_view().no_duplicates()
    }

    /// The variables this layer unsets.
    pub open spec fn clears_set(&self) -> Set<Seq<char>> {
        self.clears.deep_view().to_set()
    }

    /// The variables this layer marks list-like.
    pub open spec fn concat_set(&self) -> Set<Seq<char>> {
        self.concat.deep_view().to_set()
    }

    /// An empty layer.
    pub fn new(_layer: usize, _origin: &str) -> (r: CadeLayer)
        ensures
            r.wf(),
            r.envs.vars_map() == Map::<Seq<char>, Seq<Seq<char>>>::empty(),
            r.envs.hard_set() == Set::<Seq<char>>::empty(),
            r.hooks@ == Seq::<InnerHook>::empty(),
            !r.purify,
            r.clears_set() == Set::<Seq<char>>::empty(),
            r.concat_set() == Set::<Seq<char>>::empty(),
    {
        let r = CadeLayer {
            envs: EnvSet::new(),
            hooks: Vec::new(),
            purify: false,
            clears: Vec::new(),
            concat: Vec::new(),
        };
        assert(r.clears_set() =~= Set::<Seq<char>>::empty());
        assert(r.concat_set() =~= Set::<Seq<char>>::empty());
        r
    }

    /// Applies one directive to the layer.
    pub fn push_action(&mut self, action: CadeAction)
        requires
            old(self).wf(),
            action matches CadeAction::Environ(e) ==> e.wf(),
        ensures
            final(self).wf(),
            final(self).purify == (old(self).purify || action is Purify),
            final(self).envs.vars_map() == match action {
                CadeAction::Environ(e) => merge_vars(old(self).envs.vars_map(), e.vars_map()),
                _ => old(self).envs.vars_map(),
            },
            final(self).envs.hard_set() == match action {
                CadeAction::Environ(e) => old(self).envs.hard_set() + e.hard_set(),
                _ => old(self).envs.hard_set(),
            },
            final(self).hooks@ == match action {
                CadeAction::Hook(h) => old(self).hooks@.push(h),
                _ => old(self).hooks@,
            },
            final(self).clears_set() == match action {
                CadeAction::Clear(v) => old(self).clears_set() + v.deep_view().to_set(),
                _ => old(self).clears_set(),
            },
            final(self).concat_set() == match action {
                CadeAction::Concat(v) => old(self).concat_set() + v.deep_view().to_set(),
                _ => old(self).concat_set(),
            },
    {
        match action {
            CadeAction::Purify => {
                self.purify = true;
            },
            CadeAction::Environ(env) => {
                self.envs.merge(env);
            },
            CadeAction::Hook(hook) => {
                self.hooks.push(hook);
            },
            CadeAction::Clear(vars) => {
                add_names(&mut self.clears, &vars);
            },
            CadeAction::Concat(vars) => {
                add_names(&mut self.concat, &vars);
            },
        }
    }
}

/// Adds the names of `extra` to the name set `names`.
pub fn add_names(names: &mut Vec<String>, extra: &Vec<String>)
    requires
        old(names).deep_view().no_duplicates(),
    ensures
        final(names).deep_view().no_duplicates(),
        final(names).deep_view().to_set() == old(names).deep_view().to_set()
            + extra.deep_view().to_set(),
{
    let mut j: usize = 0;
    while j < extra.len()
        invariant
            0 <= j <= extra@.len(),
            names.deep_view().no_duplicates(),
            names.deep_view().to_set() == old(names).deep_view().to_set() + extra.deep_view().take(
                j as int,
            ).to_set(),
        decreases extra@.len() - j,
    {
        names_insert(names, extra[j].clone());
        proof {
            let t = extra.deep_view().take(j as int);
            let x = extra.deep_view()[j as int];
            assert(extra.deep_view().take(j + 1) =~= t.push(x));
            t.lemma_push_to_set_commute(x);
            assert(names.deep_view().to_set() =~= old(names).deep_view().to_set() + extra.deep_view().take(
                j + 1,
            ).to_set());
        }
        j += 1;
    }
    assert(extra.deep_view().take(extra@.len() as int) =~= extra.deep_view());
}

/// The composed state after some layers: variables, the variables that
/// absorb ambient values, the cleared variables, the list-like variables,
/// whether `pure` was seen, and the hooks.
pub type Roll = (
    Map<Seq<char>, Seq<Seq<char>>>,
    Set<Seq<char>>,
    Set<Seq<char>>,
    Set<Seq<char>>,
    bool,
    Seq<InnerHook>,
);

/// The names of `s` that cade may set.
pub open spec fn settable(s: Set<Seq<char>>) -> Set<Seq<char>> {
    s.filter(|k: Seq<char>| !shell_managed(k))
}

/// A variable concatenates unless it was hard-assigned.
pub open spec fn concats(k: Seq<char>, hard: Set<Seq<char>>, concat: Set<Seq<char>>) -> bool {
    concat.contains(k) && !hard.contains(k)
}

/// The variables after a layer sets the variables `keys` of `vars`: a
/// list-like one puts its values in front of the inherited ones, any other
/// one replaces them.
pub open spec fn set_vars(
    env: Map<Seq<char>, Seq<Seq<char>>>,
    vars: Map<Seq<char>, Seq<Seq<char>>>,
    keys: Set<Seq<char>>,
    hard: Set<Seq<char>>,
    concat: Set<Seq<char>>,
) -> Map<Seq<char>, Seq<Seq<char>>> {
    Map::new(
        |k: Seq<char>| env.dom().contains(k) || keys.contains(k),
        |k: Seq<char>|
            if keys.contains(k) {
                if concats(k, hard, concat) {
                    vars[k] + if env.dom().contains(k) {
                        env[k]
                    } else {
                        Seq::<Seq<char>>::empty()
                    }
                } else {
                    vars[k]
                }
            } else {
                env[k]
            },
    )
}

/// The absorbing variables after a layer sets the variables `keys`.
pub open spec fn set_absorb(
    absorb: Set<Seq<char>>,
    keys: Set<Seq<char>>,
    hard: Set<Seq<char>>,
    concat: Set<Seq<char>>,
) -> Set<Seq<char>> {
    Set::new(
        |k: Seq<char>|
            if keys.contains(k) {
                concats(k, hard, concat)
            } else {
                absorb.contains(k)
            },
    )
}

/// The state before any layer.
pub open spec fn roll_start() -> Roll {
    (Map::empty(), Set::empty(), Set::empty(), path_like(), false, Seq::empty())
}

/// The state after one more layer: its list-like marks first, then its
/// clears, then its variables.
pub open spec fn roll_step(r: Roll, l: CadeLayer) -> Roll {
    let concat = r.3 + l.concat_set();
    let c = settable(l.clears_set());
    let env1 = r.0.remove_keys(c);
    let absorb1 = r.1 - c;
    let cleared1 = r.2 + c;
    let keys = settable(l.envs.vars_map().dom());
    (
        set_vars(env1, l.envs.vars_map(), keys, l.envs.hard_set(), concat),
        set_absorb(absorb1, keys, l.envs.hard_set(), concat),
        cleared1 - keys,
        concat,
        r.4 || l.purify,
        r.5 + l.hooks@,
    )
}

/// The state after the layers `ls`, parent first.
pub open spec fn roll(ls: Seq<CadeLayer>) -> Roll
    decreases ls.len(),
{
    if ls.len() == 0 {
        roll_start()
    } else {
        roll_step(roll(ls.drop_last()), ls.last())
    }
}

/// The composition of all layers.
pub struct RollupResult {
    pub env: Vec<(String, Vec<String>)>,
    /// vars that concatenate ambient values rather than clobbering them
    pub absorb: Vec<String>,
    pub unset: Vec<String>,
    pub hooks: Vec<InnerHook>,
    pub purified: bool,
}

impl RollupResult {
    /// The composed variables.
    pub open spec fn env_map(&self) -> Map<Seq<char>, Seq<Seq<char>>> {
        to_map(self.env.deep_view())
    }

    /// The variables that keep ambient values after theirs.
    pub open spec fn absorb_set(&self) -> Set<Seq<char>> {
        self.absorb.deep_view().to_set()
    }

    /// The values of `key`, if it is set.
    pub fn get(&self, key: &str) -> (r: Option<&Vec<String>>)
        requires
            keys_distinct(self.env.deep_view()),
        ensures
            match r {
                Some(v) => self.env_map().dom().contains(key@) && self.env_map()[key@]
                    == v.deep_view(),
                None => !self.env_map().dom().contains(key@),
            },
    {
        let k = key.to_owned();
        match find_key(&self.env, &k) {
            Some(i) => {
                proof {
                    lemma_to_map_at(self.env.deep_view(), i as int);
                }
                Some(&self.env[i].1)
            },
            None => None,
        }
    }

    /// Whether `key` absorbs ambient values.
    pub fn absorbs(&self, key: &str) -> (r: bool)
        ensures
            r == self.absorb_set().contains(key@),
    {
        names_contain(&self.absorb, &key.to_owned())
    }
}

/// The clears of a layer, applied to the composed state.
fn apply_clears(
    env: &mut Vec<(String, Vec<String>)>,
    absorb: &mut Vec<String>,
    cleared: &mut Vec<String>,
    clears: &Vec<String>,
)
    requires
        keys_distinct(old(env).deep_view()),
        old(absorb).deep_view().no_duplicates(),
        old(cleared).deep_view().no_duplicates(),
    ensures
        keys_distinct(final(env).deep_view()),
        final(absorb).deep_view().no_duplicates(),
        final(cleared).deep_view().no_duplicates(),
        to_map(final(env).deep_view()) == to_map(old(env).deep_view()).remove_keys(
            settable(clears.deep_view().to_set()),
        ),
        final(absorb).deep_view().to_set() == old(absorb).deep_view().to_set() - settable(
            clears.deep_view().to_set(),
        ),
        final(cleared).deep_view().to_set() == old(cleared).deep_view().to_set() + settable(
            clears.deep_view().to_set(),
        ),
{
    let ghost env0 = to_map(env.deep_view());
    let ghost absorb0 = absorb.deep_view().to_set();
    let ghost cleared0 = cleared.deep_view().to_set();
    let mut j: usize = 0;
    proof {
        assert(clears.deep_view().take(0).to_set() =~= Set::<Seq<char>>::empty());
        assert(env0.remove_keys(settable(Set::<Seq<char>>::empty())) =~= env0);
        assert(absorb0 - settable(Set::<Seq<char>>::empty()) =~= absorb0);
        assert(cleared0 + settable(Set::<Seq<char>>::empty()) =~= cleared0);
    }
    while j < clears.len()
        invariant
            0 <= j <= clears@.len(),
            keys_distinct(env.deep_view()),
            absorb.deep_view().no_duplicates(),
            cleared.deep_view().no_duplicates(),
            env0 == to_map(old(env).deep_view()),
            absorb0 == old(absorb).deep_view().to_set(),
            cleared0 == old(cleared).deep_view().to_set(),
            to_map(env.deep_view()) == env0.remove_keys(
                settable(clears.deep_view().take(j as int).to_set()),
            ),
            absorb.deep_view().to_set() == absorb0 - settable(
                clears.deep_view().take(j as int).to_set(),
            ),
            cleared.deep_view().to_set() == cleared0 + settable(
                clears.deep_view().take(j as int).to_set(),
            ),
        decreases clears@.len() - j,
    {
        let var = &clears[j];
        let ghost t = clears.deep_view().take(j as int);
        let ghost x = clears.deep_view()[j as int];
        proof {
            assert(clears.deep_view().take(j + 1) =~= t.push(x));
            t.lemma_push_to_set_commute(x);
        }
        if !is_shell_managed(var.as_str()) {
            entry_remove(env, var);
            names_remove(absorb, var);
            names_insert(cleared, var.clone());
            proof {
                assert(settable(t.push(x).to_set()) =~= settable(t.to_set()).insert(x));
                assert(env0.remove_keys(settable(t.to_set())).remove(x) =~= env0.remove_keys(
                    settable(t.to_set()).insert(x),
                ));
                assert(absorb0 - settable(t.to_set()).insert(x) =~= (absorb0 - settable(
                    t.to_set(),
                )).remove(x));
                assert(cleared0 + settable(t.to_set()).insert(x) =~= (cleared0 + settable(
                    t.to_set(),
                )).insert(x));
            }
        } else {
            proof {
                assert(settable(t.push(x).to_set()) =~= settable(t.to_set()));
            }
        }
        j += 1;
    }
    assert(clears.deep_view().take(clears@.len() as int) =~= clears.deep_view());
}

/// The variables of a layer, applied to the composed state.
fn apply_vars(
    env: &mut Vec<(String, Vec<String>)>,
    absorb: &mut Vec<String>,
    cleared: &mut Vec<String>,
    envs: &EnvSet,
    concat: &Vec<String>,
)
    requires
        keys_distinct(old(env).deep_view()),
        old(absorb).deep_view().no_duplicates(),
        old(cleared).deep_view().no_duplicates(),
        envs.wf(),
    ensures
        keys_distinct(final(env).deep_view()),
        final(absorb).deep_view().no_duplicates(),
        final(cleared).deep_view().no_duplicates(),
        to_map(final(env).deep_view()) == set_vars(
            to_map(old(env).deep_view()),
            envs.vars_map(),
            settable(envs.vars_map().dom()),
            envs.hard_set(),
            concat.deep_view().to_set(),
        ),
        final(absorb).deep_view().to_set() == set_absorb(
            old(absorb).deep_view().to_set(),
            settable(envs.vars_map().dom()),
            envs.hard_set(),
            concat.deep_view().to_set(),
        ),
        final(cleared).deep_view().to_set() == old(cleared).deep_view().to_set() - settable(
            envs.vars_map().dom(),
        ),
{
    let ghost env0 = to_map(env.deep_view());
    let ghost absorb0 = absorb.deep_view().to_set();
    let ghost cleared0 = cleared.deep_view().to_set();
    let ghost e = envs.vars.deep_view();
    let ghost vm = envs.vars_map();
    let ghost hard = envs.hard_set();
    let ghost co = concat.deep_view().to_set();
    let mut j: usize = 0;
    proof {
        assert(e.take(0) =~= Seq::<(Seq<char>, Seq<Seq<char>>)>::empty());
        lemma_to_map_empty();
        let k0 = settable(to_map(e.take(0)).dom());
        assert(k0 =~= Set::<Seq<char>>::empty());
        assert(set_vars(env0, vm, k0, hard, co) =~= env0);
        assert(set_absorb(absorb0, k0, hard, co) =~= absorb0);
        assert(cleared0 - k0 =~= cleared0);
    }
    while j < envs.vars.len()
        invariant
            0 <= j <= envs.vars@.len(),
            e == envs.vars.deep_view(),
            vm == envs.vars_map(),
            hard == envs.hard_set(),
            co == concat.deep_view().to_set(),
            envs.wf(),
            keys_distinct(env.deep_view()),
            absorb.deep_view().no_duplicates(),
            cleared.deep_view().no_duplicates(),
            env0 == to_map(old(env).deep_view()),
            absorb0 == old(absorb).deep_view().to_set(),
            cleared0 == old(cleared).deep_view().to_set(),
            to_map(env.deep_view()) == set_vars(
                env0,
                vm,
                settable(to_map(e.take(j as int)).dom()),
                hard,
                co,
            ),
            absorb.deep_view().to_set() == set_absorb(
                absorb0,
                settable(to_map(e.take(j as int)).dom()),
                hard,
                co,
            ),
            cleared.deep_view().to_set() == cleared0 - settable(to_map(e.take(j as int)).dom()),
        decreases envs.vars@.len() - j,
    {
        let key = &envs.vars[j].0;
        let ghost k = e[j as int].0;
        let ghost kj = settable(to_map(e.take(j as int)).dom());
        proof {
            lemma_take_push_distinct(e, j as int);
            lemma_take_key_absent(e, j as int);
            lemma_to_map_at(e, j as int);
            assert(!kj.contains(k));
        }
        if !is_shell_managed(key.as_str()) {
            let ghost env_before = to_map(env.deep_view());
            names_remove(cleared, key);
            let is_concat = !names_contain(&envs.hard, key) && names_contain(concat, key);
            let vals = clone_strings(&envs.vars[j].1);
            if is_concat {
                names_insert(absorb, key.clone());
                entry_prepend(env, key.clone(), vals);
            } else {
                names_remove(absorb, key);
                entry_set(env, key.clone(), vals);
            }
            proof {
                let kj1 = settable(to_map(e.take(j + 1)).dom());
                assert(kj1 =~= kj.insert(k));
                assert(to_map(env.deep_view()) =~= set_vars(env0, vm, kj1, hard, co));
                assert(absorb.deep_view().to_set() =~= set_absorb(absorb0, kj1, hard, co));
                assert(cleared.deep_view().to_set() =~= cleared0 - kj1);
            }
        } else {
            proof {
                let kj1 = settable(to_map(e.take(j + 1)).dom());
                assert(kj1 =~= kj);
            }
        }
        j += 1;
    }
    assert(e.take(envs.vars@.len() as int) =~= e);
}

/// Composes the layers, parent first, into one environment.
pub fn rollup_envs(cade_layers: Vec<CadeLayer>) -> (r: RollupResult)
    requires
        forall|i: int| 0 <= i < cade_layers@.len() ==> (#[trigger] cade_layers@[i]).wf(),
    ensures
        keys_distinct(r.env.deep_view()),
        r.absorb.deep_view().no_duplicates(),
        r.env_map() == roll(cade_layers@).0,
        r.absorb_set() == roll(cade_layers@).1,
        r.unset.deep_view().to_set() == roll(cade_layers@).2 - roll(cade_layers@).0.dom(),
        strictly_sorted(r.unset.deep_view()),
        r.purified == roll(cade_layers@).4,
        r.hooks@ == roll(cade_layers@).5,
{
    let mut purified = false;
    let mut env: Vec<(String, Vec<String>)> = Vec::new();
    let mut cleared: Vec<String> = Vec::new();
    let mut absorb: Vec<String> = Vec::new();
    let mut hooks: Vec<InnerHook> = Vec::new();
    // Variables treated as lists, some defaults + `concat`ted
    let mut concat_active = path_like_names();
    let ghost all = cade_layers@;
    proof {
        assert(env.deep_view() =~= Seq::<(Seq<char>, Seq<Seq<char>>)>::empty());
        lemma_to_map_empty();
        assert(absorb.deep_view().to_set() =~= Set::<Seq<char>>::empty());
        assert(cleared.deep_view().to_set() =~= Set::<Seq<char>>::empty());
        assert(all.take(0) =~= Seq::<CadeLayer>::empty());
    }
    for layer in it: cade_layers.into_iter()
        invariant
            it.seq() == all,
            forall|i: int| 0 <= i < all.len() ==> (#[trigger] all[i]).wf(),
            keys_distinct(env.deep_view()),
            absorb.deep_view().no_duplicates(),
            cleared.deep_view().no_duplicates(),
            concat_active.deep_view().no_duplicates(),
            to_map(env.deep_view()) == roll(all.take(it.index() as int)).0,
            absorb.deep_view().to_set() == roll(all.take(it.index() as int)).1,
            cleared.deep_view().to_set() == roll(all.take(it.index() as int)).2,
            concat_active.deep_view().to_set() == roll(all.take(it.index() as int)).3,
            purified == roll(all.take(it.index() as int)).4,
            hooks@ == roll(all.take(it.index() as int)).5,
    {
        let ghost i = it.index();
        proof {
            assert(all.take(i + 1).drop_last() =~= all.take(i as int));
            assert(all.take(i + 1).last() == all[i as int]);
            assert(layer == all[i as int]);
        }
        let CadeLayer { envs, hooks: mut layer_hooks, purify, clears, concat } = layer;
        add_names(&mut concat_active, &concat);
        apply_clears(&mut env, &mut absorb, &mut cleared, &clears);
        apply_vars(&mut env, &mut absorb, &mut cleared, &envs, &concat_active);
        if !purified && purify {
            purified = true;
        }
        hooks.append(&mut layer_hooks);
    }
    proof {
        assert(all.take(all.len() as int) =~= all);
    }
    // only emit unsets for clears that weren't re-set by a later layer
    let mut pending: Vec<String> = Vec::new();
    let mut j: usize = 0;
    while j < cleared.len()
        invariant
            0 <= j <= cleared@.len(),
            keys_distinct(env.deep_view()),
            pending.deep_view().to_set() == cleared.deep_view().take(j as int).to_set()
                - to_map(env.deep_view()).dom(),
        decreases cleared@.len() - j,
    {
        let ghost t = cleared.deep_view().take(j as int);
        let ghost x = cleared.deep_view()[j as int];
        let ghost before = pending.deep_view();
        proof {
            assert(cleared.deep_view().take(j + 1) =~= t.push(x));
            t.lemma_push_to_set_commute(x);
        }
        assert(cleared@[j as int]@ == x);
        let found = find_key(&env, &cleared[j]);
        if found.is_none() {
            pending.push(cleared[j].clone());
            proof {
                assert(pending.deep_view() =~= before.push(x));
                before.lemma_push_to_set_commute(x);
                assert(pending.deep_view().to_set() =~= t.push(x).to_set() - to_map(
                    env.deep_view(),
                ).dom());
            }
        } else {
            proof {
                let i = found->0;
                lemma_to_map_at(env.deep_view(), i as int);
                assert(env.deep_view()[i as int].0 == x);
                assert(pending.deep_view().to_set() =~= t.push(x).to_set() - to_map(
                    env.deep_view(),
                ).dom());
            }
        }
        j += 1;
    }
    proof {
        assert(cleared.deep_view().take(cleared@.len() as int) =~= cleared.deep_view());
    }
    let unset = sorted_names(&pending);
    proof {
        let r = roll(all);
        assert(unset.deep_view().to_set() =~= r.2 - r.0.dom());
    }
    RollupResult { env, absorb, unset, hooks, purified }
}

// ---- laws of composition ----

/// Composition never sets, clears or absorbs a variable that the shell or
/// cade itself owns, whatever the layers ask for.
pub proof fn law_rollup_skips_managed(ls: Seq<CadeLayer>, k: Seq<char>)
    requires
        shell_managed(k),
    ensures
        !roll(ls).0.dom().contains(k),
        !roll(ls).1.contains(k),
        !roll(ls).2.contains(k),
    decreases ls.len(),
{
    if ls.len() > 0 {
        law_rollup_skips_managed(ls.drop_last(), k);
    }
}

/// `pure` changes nothing of the composition but its own flag: the
/// variables, the absorbing and cleared variables, the list-like marks and
/// the hooks are the same whichever layers ask for `pure`; the flag is set
/// when any layer asks for it.
pub proof fn law_pure_keeps_layers(a: Seq<CadeLayer>, b: Seq<CadeLayer>)
    requires
        a.len() == b.len(),
        forall|i: int|
            0 <= i < a.len() ==> (#[trigger] a[i]).envs == b[i].envs && a[i].hooks == b[i].hooks
                && a[i].clears == b[i].clears && a[i].concat == b[i].concat,
    ensures
        roll(a).0 == roll(b).0,
        roll(a).1 == roll(b).1,
        roll(a).2 == roll(b).2,
        roll(a).3 == roll(b).3,
        roll(a).5 == roll(b).5,
        roll(a).4 == exists|i: int| 0 <= i < a.len() && (#[trigger] a[i]).purify,
    decreases a.len(),
{
    if a.len() > 0 {
        let n = a.len() - 1;
        assert forall|i: int| 0 <= i < a.drop_last().len() implies (#[trigger] a.drop_last()[i]).envs
            == b.drop_last()[i].envs && a.drop_last()[i].hooks == b.drop_last()[i].hooks
            && a.drop_last()[i].clears == b.drop_last()[i].clears && a.drop_last()[i].concat
            == b.drop_last()[i].concat by {
            assert(a.drop_last()[i] == a[i] && b.drop_last()[i] == b[i]);
        }
        law_pure_keeps_layers(a.drop_last(), b.drop_last());
        assert(a.last() == a[n] && b.last() == b[n]);
        let d = a.drop_last();
        if roll(a).4 {
            if !a[n].purify {
                let i = choose|i: int| 0 <= i < d.len() && (#[trigger] d[i]).purify;
                assert(a[i] == d[i]);
            }
        }
        if exists|i: int| 0 <= i < a.len() && (#[trigger] a[i]).purify {
            let i = choose|i: int| 0 <= i < a.len() && (#[trigger] a[i]).purify;
            if i < n {
                assert(d[i] == a[i]);
            }
        }
    } else {
        assert(roll(a) == roll(b));
    }
}

/// A variable marked list-like in a layer stays list-like in every layer
/// inside it.
pub proof fn law_concat_applies_inward(ls: Seq<CadeLayer>, i: int, j: int, k: Seq<char>)
    requires
        0 <= i < j <= ls.len(),
        ls[i].concat_set().contains(k),
    ensures
        roll(ls.take(j)).3.contains(k),
    decreases j,
{
    if j == i + 1 {
        assert(ls.take(j).drop_last() =~= ls.take(i));
        assert(ls.take(j).last() == ls[i]);
    } else {
        law_concat_applies_inward(ls, i, j - 1, k);
        assert(ls.take(j).drop_last() =~= ls.take(j - 1));
    }
}

/// The innermost layer's value wins for a variable it sets that does not
/// concatenate (not list-like, or assigned with `:=`): the value is the
/// layer's own, and no ambient value is absorbed.
pub proof fn law_child_value_wins(ls: Seq<CadeLayer>, k: Seq<char>)
    requires
        ls.len() > 0,
        !shell_managed(k),
        ls.last().envs.vars_map().dom().contains(k),
        !concats(k, ls.last().envs.hard_set(), roll(ls.drop_last()).3 + ls.last().concat_set()),
    ensures
        roll(ls).0.dom().contains(k),
        roll(ls).0[k] == ls.last().envs.vars_map()[k],
        !roll(ls).1.contains(k),
        !roll(ls).2.contains(k),
{
}

/// A list-like variable that the innermost layer sets puts that layer's
/// values first, followed by those it inherits (unless the layer clears
/// it), and absorbs the ambient value.
pub proof fn law_child_values_first(ls: Seq<CadeLayer>, k: Seq<char>)
    requires
        ls.len() > 0,
        !shell_managed(k),
        ls.last().envs.vars_map().dom().contains(k),
        concats(k, ls.last().envs.hard_set(), roll(ls.drop_last()).3 + ls.last().concat_set()),
        !ls.last().clears_set().contains(k),
    ensures
        roll(ls).0.dom().contains(k),
        roll(ls).0[k] == ls.last().envs.vars_map()[k] + if roll(ls.drop_last()).0.dom().contains(k) {
            roll(ls.drop_last()).0[k]
        } else {
            Seq::<Seq<char>>::empty()
        },
        roll(ls).1.contains(k),
{
}

/// A variable that the innermost layer clears and does not set is gone
/// from the composition and reported as cleared.
pub proof fn law_clear_removes(ls: Seq<CadeLayer>, k: Seq<char>)
    requires
        ls.len() > 0,
        !shell_managed(k),
        ls.last().clears_set().contains(k),
        !ls.last().envs.vars_map().dom().contains(k),
    ensures
        !roll(ls).0.dom().contains(k),
        !roll(ls).1.contains(k),
        roll(ls).2.contains(k),
{
}

/// A clear carries through every later layer: a variable that some layer
/// clears, and that neither that layer nor any layer inside it sets, is
/// not in the composed variables and is among the cleared ones, so it is in
/// the unset list of `rollup_envs` (the cleared variables but the set ones).
pub proof fn law_clear_persists(ls: Seq<CadeLayer>, i: int, k: Seq<char>)
    requires
        0 <= i < ls.len(),
        !shell_managed(k),
        ls[i].clears_set().contains(k),
        forall|j: int| i <= j < ls.len() ==> !(#[trigger] ls[j]).envs.vars_map().dom().contains(k),
    ensures
        roll(ls).2.contains(k),
        !roll(ls).0.dom().contains(k),
        (roll(ls).2 - roll(ls).0.dom()).contains(k),
    decreases ls.len(),
{
    let n = ls.len() - 1;
    assert(ls.last() == ls[n]);
    assert(!ls[n].envs.vars_map().dom().contains(k));
    if i < n {
        let d = ls.drop_last();
        assert forall|j: int| i <= j < d.len() implies !(#[trigger] d[j]).envs.vars_map().dom().contains(k) by {
            assert(d[j] == ls[j]);
        }
        assert(d[i] == ls[i]);
        law_clear_persists(d, i, k);
    }
}

proof fn lemma_path_like_kept(ls: Seq<CadeLayer>)
    ensures
        path_like().subset_of(roll(ls).3),
    decreases ls.len(),
{
    if ls.len() > 0 {
        lemma_path_like_kept(ls.drop_last());
    }
}

proof fn lemma_path_names_unmanaged(k: Seq<char>)
    requires
        k == "PATH"@ || k == "MANPATH"@ || k == "INFOPATH"@ || k == "CDPATH"@ || k
            == "LD_LIBRARY_PATH"@ || k == "DYLD_LIBRARY_PATH"@ || k == "DYLD_FALLBACK_LIBRARY_PATH"@
            || k == "LIBRARY_PATH"@ || k == "CPATH"@ || k == "C_INCLUDE_PATH"@ || k
            == "CPLUS_INCLUDE_PATH"@ || k == "OBJC_INCLUDE_PATH"@ || k == "PKG_CONFIG_PATH"@ || k
            == "CMAKE_PREFIX_PATH"@ || k == "ACLOCAL_PATH"@ || k == "XDG_DATA_DIRS"@ || k
            == "XDG_CONFIG_DIRS"@ || k == "TERMINFO_DIRS"@,
    ensures
        !shell_managed(k),
{
    reveal_strlit("PATH");
    reveal_strlit("MANPATH");
    reveal_strlit("INFOPATH");
    reveal_strlit("CDPATH");
    reveal_strlit("LD_LIBRARY_PATH");
    reveal_strlit("DYLD_LIBRARY_PATH");
    reveal_strlit("DYLD_FALLBACK_LIBRARY_PATH");
    reveal_strlit("LIBRARY_PATH");
    reveal_strlit("CPATH");
    reveal_strlit("C_INCLUDE_PATH");
    reveal_strlit("CPLUS_INCLUDE_PATH");
    reveal_strlit("OBJC_INCLUDE_PATH");
    reveal_strlit("PKG_CONFIG_PATH");
    reveal_strlit("CMAKE_PREFIX_PATH");
    reveal_strlit("ACLOCAL_PATH");
    reveal_strlit("XDG_DATA_DIRS");
    reveal_strlit("XDG_CONFIG_DIRS");
    reveal_strlit("TERMINFO_DIRS");
    reveal_strlit("PWD");
    reveal_strlit("OLDPWD");
    reveal_strlit("SHLVL");
    reveal_strlit("_");
    reveal_strlit("LAST_EXIT_CODE");
    reveal_strlit("__CADE_");
    assert(k[0] != '_');
    assert(k != "PWD"@) by {
        if k == "PWD"@ {
            assert(k.len() == 3);
        }
    }
    assert(k != "OLDPWD"@) by {
        if k == "OLDPWD"@ {
            assert(k.len() == 6);
            assert(k[0] == 'O');
        }
    }
    assert(k != "SHLVL"@) by {
        if k == "SHLVL"@ {
            assert(k.len() == 5);
            assert(k[0] == 'S');
        }
    }
    assert(k != "_"@) by {
        if k == "_"@ {
            assert(k[0] == '_');
        }
    }
    assert(k != "LAST_EXIT_CODE"@) by {
        if k == "LAST_EXIT_CODE"@ {
            assert(k.len() == 14);
            assert(k[0] == 'L');
        }
    }
    assert(!starts_with(k, "__CADE_"@)) by {
        if starts_with(k, "__CADE_"@) {
            assert(k.take(7)[0] == '_');
        }
    }
}

/// The path-like variables concatenate by default: when the innermost layer
/// sets one of `PATH`, `MANPATH`, `INFOPATH`, `CDPATH`, `LD_LIBRARY_PATH`,
/// `DYLD_LIBRARY_PATH`, `DYLD_FALLBACK_LIBRARY_PATH`, `LIBRARY_PATH`,
/// `CPATH`, `C_INCLUDE_PATH`, `CPLUS_INCLUDE_PATH`, `OBJC_INCLUDE_PATH`,
/// `PKG_CONFIG_PATH`, `CMAKE_PREFIX_PATH`, `ACLOCAL_PATH`, `XDG_DATA_DIRS`,
/// `XDG_CONFIG_DIRS` or `TERMINFO_DIRS` without `:=` and does not clear it,
/// its values come first, followed by the values the outer layers composed,
/// and the variable absorbs the ambient value.
pub proof fn law_path_like_concatenates(ls: Seq<CadeLayer>, k: Seq<char>)
    requires
        k == "PATH"@ || k == "MANPATH"@ || k == "INFOPATH"@ || k == "CDPATH"@ || k
            == "LD_LIBRARY_PATH"@ || k == "DYLD_LIBRARY_PATH"@ || k == "DYLD_FALLBACK_LIBRARY_PATH"@
            || k == "LIBRARY_PATH"@ || k == "CPATH"@ || k == "C_INCLUDE_PATH"@ || k
            == "CPLUS_INCLUDE_PATH"@ || k == "OBJC_INCLUDE_PATH"@ || k == "PKG_CONFIG_PATH"@ || k
            == "CMAKE_PREFIX_PATH"@ || k == "ACLOCAL_PATH"@ || k == "XDG_DATA_DIRS"@ || k
            == "XDG_CONFIG_DIRS"@ || k == "TERMINFO_DIRS"@,
        ls.len() > 0,
        ls.last().envs.vars_map().dom().contains(k),
        !ls.last().envs.hard_set().contains(k),
        !ls.last().clears_set().contains(k),
    ensures
        roll(ls).0.dom().contains(k),
        roll(ls).0[k] == ls.last().envs.vars_map()[k] + if roll(ls.drop_last()).0.dom().contains(k) {
            roll(ls.drop_last()).0[k]
        } else {
            Seq::<Seq<char>>::empty()
        },
        roll(ls).1.contains(k),
{
    lemma_path_names_unmanaged(k);
    lemma_path_like_kept(ls.drop_last());
    assert(path_like().contains(k));
    assert(roll(ls.drop_last()).3.contains(k));
    law_child_values_first(ls, k);
}

} // verus!
