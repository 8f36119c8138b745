//! The data of a layer: variable sets, hooks, directives and actions.
use vstd::prelude::*;
use crate::assoc::{
    Entries, clone_strings, entry_extend, find_key, has_key, keys_distinct, lemma_to_map_at,
    lemma_to_map_empty, lemma_to_map_push, names_contain, names_insert, to_map,
};

verus! {

/// A parsed `.cade` directive.
#[derive(Debug)]
pub enum CadeAction {
    Purify,
    Environ(EnvSet),
    Hook(InnerHook),
    Clear(Vec<String>),
    /// Mark variables as list-like (concatenating) for this layer and inward
    Concat(Vec<String>),
}

/// One composed layer.
#[derive(Debug)]
pub struct CadeLayer {
    pub envs: EnvSet,
    pub hooks: Vec<InnerHook>,
    pub purify: bool,
    /// Variables to unset, each once
    pub clears: Vec<String>,
    /// Variables marked list-like, each once
    pub concat: Vec<String>,
}

/// A line of a `.cade` file.
#[derive(Debug)]
pub enum Keyword {
    Pure,
    Call(Vec<String>),
    Load(Loadable),
    Hook(InnerHook),
    Clear(Vec<String>),
    Watch(Vec<String>),
    Concat(Vec<String>),
    /// A bare `KEY=value` assignment
    Assign(EnvSet),
}

/// A source of variables that a `load` directive names.
#[derive(Debug)]
pub enum Loadable {
    Default,
    Flake(String),
    Shell(String),
    Env(String),
    Envrc(String),
}

/// The lifecycle phase a hook runs in.
#[derive(Debug, PartialEq, Eq, Hash, Clone, Copy, Structural)]
pub enum HookType {
    LoadPre,
    LoadPost,
    UnloadPre,
    UnloadPost,
}

/// A hook command.
#[derive(Debug, Clone)]
pub struct InnerHook {
    /// Raw command text, run verbatim
    pub content: String,
    pub kind: HookType,
}

/// Variables with their colon-split values.
#[derive(Debug, Clone)]
pub struct EnvSet {
    /// Variable -> colon-split values, each variable once, in the order first seen
    pub vars: Vec<(String, Vec<String>)>,
    /// Keys assigned with := hard replace, each once
    pub hard: Vec<String>,
}

/// The union of two variable maps, where a variable in both has the values
/// of `a` followed by those of `b`.
pub open spec fn merge_vars(a: Map<Seq<char>, Seq<Seq<char>>>, b: Map<Seq<char>, Seq<Seq<char>>>) -> Map<
    Seq<char>,
    Seq<Seq<char>>,
> {
    Map::new(
        |k: Seq<char>| a.dom().contains(k) || b.dom().contains(k),
        |k: Seq<char>|
            if a.dom().contains(k) && b.dom().contains(k) {
                a[k] + b[k]
            } else if b.dom().contains(k) {
                b[k]
            } else {
                a[k]
            },
    )
}

impl EnvSet {
    /// Each variable and each hard key occurs once.
    pub open spec fn wf(&self) -> bool {
        &&& keys_distinct(self.vars.deep_view())
        &&& self.hard.deep_view().no_duplicates()
    }

    /// The variables and their values.
    pub open spec fn vars_map(&self) -> Map<Seq<char>, Seq<Seq<char>>> {
        to_map(self.vars.deep_view())
    }

    /// The keys assigned with `:=`.
    pub open spec fn hard_set(&self) -> Set<Seq<char>> {
        self.hard.deep_view().to_set()
    }

    /// An empty set of variables.
    pub fn new() -> (r: EnvSet)
        ensures
            r.wf(),
            r.vars_map() == Map::<Seq<char>, Seq<Seq<char>>>::empty(),
            r.hard_set() == Set::<Seq<char>>::empty(),
    {
        let r = EnvSet { vars: Vec::new(), hard: Vec::new() };
        proof {
            assert(r.vars.deep_view() =~= Seq::<(Seq<char>, Seq<Seq<char>>)>::empty());
            lemma_to_map_empty();
            assert(r.hard_set() =~= Set::<Seq<char>>::empty());
        }
        r
    }

    /// Build from plain var -> values with no hard-replace
    pub fn from_vars(vars: Vec<(String, Vec<String>)>) -> (r: EnvSet)
        requires
            keys_distinct(vars.deep_view()),
        ensures
            r.wf(),
            r.vars_map() == to_map(vars.deep_view()),
            r.hard_set() == Set::<Seq<char>>::empty(),
    {
        let r = EnvSet { vars, hard: Vec::new() };
        assert(r.hard_set() =~= Set::<Seq<char>>::empty());
        r
    }

    /// The values of `key`, if it is set.
    pub fn get(&self, key: &str) -> (r: Option<&Vec<String>>)
        requires
            self.wf(),
        ensures
            match r {
                Some(v) => self.vars_map().dom().contains(key@) && self.vars_map()[key@]
                    == v.deep_view(),
                None => !self.vars_map().dom().contains(key@),
            },
    {
        let k = key.to_owned();
        match find_key(&self.vars, &k) {
            Some(i) => {
                proof {
                    lemma_to_map_at(self.vars.deep_view(), i as int);
                }
                Some(&self.vars[i].1)
            },
            None => None,
        }
    }

    /// The number of variables.
    pub fn len(&self) -> (r: usize)
        requires
            self.wf(),
        ensures
            r == self.vars_map().dom().len(),
    {
        proof {
            lemma_map_len(self.vars.deep_view());
        }
        self.vars.len()
    }

    /// Whether `key` was assigned with `:=`.
    pub fn is_hard(&self, key: &str) -> (r: bool)
        ensures
            r == self.hard_set().contains(key@),
    {
        let k = key.to_owned();
        names_contain(&self.hard, &k)
    }

    /// Whether no key was assigned with `:=`.
    pub fn hard_is_empty(&self) -> (r: bool)
        requires
            self.wf(),
        ensures
            r == (self.hard_set() == Set::<Seq<char>>::empty()),
    {
        if self.hard.len() == 0 {
            assert(self.hard_set() =~= Set::<Seq<char>>::empty());
            true
        } else {
            assert(self.hard_set().contains(self.hard.deep_view()[0]));
            false
        }
    }

    /// Adds `vals` to the values of `key`.
    pub fn extend_var(&mut self, key: String, vals: Vec<String>)
        requires
            old(self).wf(),
        ensures
            final(self).wf(),
            final(self).hard_set() == old(self).hard_set(),
            final(self).vars_map() == old(self).vars_map().insert(
                key@,
                if old(self).vars_map().dom().contains(key@) {
                    old(self).vars_map()[key@] + vals.deep_view()
                } else {
                    vals.deep_view()
                },
            ),
    {
        entry_extend(&mut self.vars, key, vals);
    }

    /// Merge another env set in, extending list values and carrying over hard-replaces
    pub fn merge(&mut self, other: EnvSet)
        requires
            old(self).wf(),
            other.wf(),
        ensures
            final(self).wf(),
            final(self).vars_map() == merge_vars(old(self).vars_map(), other.vars_map()),
            final(self).hard_set() == old(self).hard_set() + other.hard_set(),
    {
        let ghost a = self.vars_map();
        let ghost e = other.vars.deep_view();
        let mut i: usize = 0;
        assert(merge_vars(a, to_map(e.take(0))) =~= a) by {
            assert(e.take(0) =~= Seq::<(Seq<char>, Seq<Seq<char>>)>::empty());
            lemma_to_map_empty();
        }
        while i < other.vars.len()
            invariant
                0 <= i <= other.vars@.len(),
                e == other.vars.deep_view(),
                keys_distinct(e),
                self.wf(),
                self.hard_set() == old(self).hard_set(),
                a == old(self).vars_map(),
                self.vars_map() == merge_vars(a, to_map(e.take(i as int))),
            decreases other.vars@.len() - i,
        {
            let k = other.vars[i].0.clone();
            let vals = clone_strings(&other.vars[i].1);
            let ghost before = self.vars_map();
            self.extend_var(k, vals);
            proof {
                lemma_take_push_distinct(e, i as int);
                let b = to_map(e.take(i as int));
                assert(!b.dom().contains(e[i as int].0)) by {
                    lemma_take_key_absent(e, i as int);
                }
                assert(merge_vars(a, b.insert(e[i as int].0, e[i as int].1)) =~= merge_vars(
                    a,
                    b,
                ).insert(
                    e[i as int].0,
                    if merge_vars(a, b).dom().contains(e[i as int].0) {
                        merge_vars(a, b)[e[i as int].0] + e[i as int].1
                    } else {
                        e[i as int].1
                    },
                ));
            }
            i += 1;
        }
        assert(e.take(other.vars@.len() as int) =~= e);
        let ghost h0 = self.hard.deep_view();
        let mut j: usize = 0;
        while j < other.hard.len()
            invariant
                0 <= j <= other.hard@.len(),
                self.wf(),
                self.vars_map() == merge_vars(a, to_map(e)),
                self.hard_set() == old(self).hard_set() + other.hard.deep_view().take(
                    j as int,
                ).to_set(),
            decreases other.hard@.len() - j,
        {
            let h = other.hard[j].clone();
            names_insert(&mut self.hard, h);
            assert(other.hard.deep_view().take(j + 1) =~= other.hard.deep_view().take(
                j as int,
            ).push(other.hard.deep_view()[j as int]));
            assert(self.hard_set() =~= old(self).hard_set() + other.hard.deep_view().take(
                j + 1,
            ).to_set()) by {
                let t = other.hard.deep_view().take(j as int);
                let x = other.hard.deep_view()[j as int];
                t.lemma_push_to_set_commute(x);
                assert(t.push(x).to_set() =~= t.to_set().insert(x)) by {
                assert forall|y: Seq<char>| t.push(x).contains(y) <==> t.contains(y) || y == x by {
                    if t.push(x).contains(y) && y != x {
                        let q = choose|q: int| 0 <= q < t.push(x).len() && t.push(x)[q] == y;
                        assert(t[q] == y);
                    }
                    if t.contains(y) {
                        let q = choose|q: int| 0 <= q < t.len() && t[q] == y;
                        assert(t.push(x)[q] == y);
                    }
                    assert(t.push(x)[t.len() as int] == x);
                }
                }
            }
            j += 1;
        }
        assert(other.hard.deep_view().take(other.hard@.len() as int) =~= other.hard.deep_view());
        assert(self.hard_set() =~= old(self).hard_set() + other.hard_set());
    }
}

/// Entries before `i` with distinct keys make a map without the key at `i`.
pub proof fn lemma_take_key_absent(e: Entries, i: int)
    requires
        keys_distinct(e),
        0 <= i < e.len(),
    ensures
        !to_map(e.take(i)).dom().contains(e[i].0),
{
    if has_key(e.take(i), e[i].0) {
        let j = choose|j: int| 0 <= j < e.take(i).len() && #[trigger] e.take(i)[j].0 == e[i].0;
        assert(e[j].0 == e[i].0);
    }
}

/// One more entry of a table with distinct keys inserts its key.
pub proof fn lemma_take_push_distinct(e: Entries, i: int)
    requires
        keys_distinct(e),
        0 <= i < e.len(),
    ensures
        keys_distinct(e.take(i)),
        keys_distinct(e.take(i + 1)),
        to_map(e.take(i + 1)) == to_map(e.take(i)).insert(e[i].0, e[i].1),
{
    assert(keys_distinct(e.take(i))) by {
        assert forall|a: int, b: int|
            0 <= a < e.take(i).len() && 0 <= b < e.take(i).len() && a != b implies #[trigger] e.take(
            i,
        )[a].0 != #[trigger] e.take(i)[b].0 by {
            assert(e.take(i)[a] == e[a] && e.take(i)[b] == e[b]);
        }
    }
    lemma_take_key_absent(e, i);
    assert(!has_key(e.take(i), e[i].0));
    assert(e.take(i + 1) =~= e.take(i).push((e[i].0, e[i].1)));
    lemma_to_map_push(e.take(i), e[i].0, e[i].1);
}

/// A table with distinct keys has as many entries as its map has keys.
pub proof fn lemma_map_len(e: Entries)
    requires
        keys_distinct(e),
    ensures
        to_map(e).dom().finite(),
        to_map(e).dom().len() == e.len(),
    decreases e.len(),
{
    broadcast use {vstd::set::group_set_axioms, vstd::map::group_map_axioms};

    if e.len() == 0 {
        lemma_to_map_empty();
        assert(to_map(e).dom() =~= Set::<Seq<char>>::empty());
    } else {
        let n = e.len() - 1;
        lemma_take_push_distinct(e, n);
        assert(e.take(n + 1) =~= e);
        lemma_map_len(e.take(n));
        lemma_take_key_absent(e, n);
        assert(to_map(e).dom() =~= to_map(e.take(n)).dom().insert(e[n].0));
    }
}

} // verus!
