//! Variable tables keyed by name: a vector of `(name, values)` entries with
//! each name at most once, seen as a map from names to value lists; and
//! name sets, a vector of distinct names seen as a set.
use vstd::prelude::*;

verus! {

/// The abstract entries of a variable table.
pub type Entries = Seq<(Seq<char>, Seq<Seq<char>>)>;

/// No name occurs twice among the entries.
pub open spec fn keys_distinct(e: Entries) -> bool {
    forall|i: int, j: int| 0 <= i < e.len() && 0 <= j < e.len() && i != j ==> #[trigger] e[i].0 != #[trigger] e[j].0
}

/// Whether some entry has name `k`.
pub open spec fn has_key(e: Entries, k: Seq<char>) -> bool {
    exists|i: int| 0 <= i < e.len() && #[trigger] e[i].0 == k
}

/// The entries as a map from names to value lists.
pub open spec fn to_map(e: Entries) -> Map<Seq<char>, Seq<Seq<char>>> {
    Map::new(
        |k: Seq<char>| has_key(e, k),
        |k: Seq<char>| e[choose|i: int| 0 <= i < e.len() && #[trigger] e[i].0 == k].1,
    )
}

pub proof fn lemma_to_map_at(e: Entries, i: int)
    requires
        keys_distinct(e),
        0 <= i < e.len(),
    ensures
        to_map(e).dom().contains(e[i].0),
        to_map(e)[e[i].0] == e[i].1,
{
    assert(has_key(e, e[i].0));
    let j = choose|j: int| 0 <= j < e.len() && #[trigger] e[j].0 == e[i].0;
    assert(j == i);
}

pub proof fn lemma_to_map_empty()
    ensures
        to_map(Seq::empty()) == Map::<Seq<char>, Seq<Seq<char>>>::empty(),
{
    assert(to_map(Seq::empty()) =~= Map::<Seq<char>, Seq<Seq<char>>>::empty());
}

pub proof fn lemma_to_map_push(e: Entries, k: Seq<char>, v: Seq<Seq<char>>)
    requires
        keys_distinct(e),
        !has_key(e, k),
    ensures
        keys_distinct(e.push((k, v))),
        to_map(e.push((k, v))) == to_map(e).insert(k, v),
{
    let e2 = e.push((k, v));
    assert(keys_distinct(e2)) by {
        assert forall|i: int, j: int|
            0 <= i < e2.len() && 0 <= j < e2.len() && i != j implies #[trigger] e2[i].0
            != #[trigger] e2[j].0 by {
            if i == e.len() {
                assert(e[j].0 == e2[j].0);
            } else if j == e.len() {
                assert(e[i].0 == e2[i].0);
            } else {
                assert(e[i] == e2[i] && e[j] == e2[j]);
            }
        }
    }
    assert forall|x: Seq<char>| #[trigger] has_key(e2, x) <==> has_key(e, x) || x == k by {
        if has_key(e, x) {
            let i = choose|i: int| 0 <= i < e.len() && #[trigger] e[i].0 == x;
            assert(e2[i].0 == x);
        }
        if x == k {
            assert(e2[e.len() as int].0 == k);
        }
        if has_key(e2, x) && x != k {
            let i = choose|i: int| 0 <= i < e2.len() && #[trigger] e2[i].0 == x;
            assert(e[i].0 == x);
        }
    }
    assert forall|x: Seq<char>| #[trigger] to_map(e2).dom().contains(x) implies to_map(e2)[x]
        == to_map(e).insert(k, v)[x] by {
        if x == k {
            lemma_to_map_at(e2, e.len() as int);
        } else {
            let i = choose|i: int| 0 <= i < e.len() && #[trigger] e[i].0 == x;
            lemma_to_map_at(e, i);
            lemma_to_map_at(e2, i);
        }
    }
    assert(to_map(e2) =~= to_map(e).insert(k, v));
}

pub proof fn lemma_to_map_update(e: Entries, i: int, v: Seq<Seq<char>>)
    requires
        keys_distinct(e),
        0 <= i < e.len(),
    ensures
        keys_distinct(e.update(i, (e[i].0, v))),
        to_map(e.update(i, (e[i].0, v))) == to_map(e).insert(e[i].0, v),
{
    let k = e[i].0;
    let e2 = e.update(i, (k, v));
    assert(keys_distinct(e2)) by {
        assert forall|a: int, b: int|
            0 <= a < e2.len() && 0 <= b < e2.len() && a != b implies #[trigger] e2[a].0
            != #[trigger] e2[b].0 by {
            assert(e2[a].0 == e[a].0 && e2[b].0 == e[b].0);
        }
    }
    assert forall|x: Seq<char>| #[trigger] has_key(e2, x) <==> has_key(e, x) by {
        if has_key(e, x) {
            let j = choose|j: int| 0 <= j < e.len() && #[trigger] e[j].0 == x;
            assert(e2[j].0 == x);
        }
        if has_key(e2, x) {
            let j = choose|j: int| 0 <= j < e2.len() && #[trigger] e2[j].0 == x;
            assert(e[j].0 == x);
        }
    }
    lemma_to_map_at(e, i);
    assert forall|x: Seq<char>| #[trigger] to_map(e2).dom().contains(x) implies to_map(e2)[x]
        == to_map(e).insert(k, v)[x] by {
        let j = choose|j: int| 0 <= j < e.len() && #[trigger] e[j].0 == x;
        lemma_to_map_at(e, j);
        assert(e2[j].0 == x);
        lemma_to_map_at(e2, j);
    }
    assert(to_map(e2) =~= to_map(e).insert(k, v));
}

pub proof fn lemma_to_map_remove(e: Entries, i: int)
    requires
        keys_distinct(e),
        0 <= i < e.len(),
    ensures
        keys_distinct(e.remove(i)),
        to_map(e.remove(i)) == to_map(e).remove(e[i].0),
{
    let k = e[i].0;
    let e2 = e.remove(i);
    assert forall|a: int| 0 <= a < e2.len() implies #[trigger] e2[a] == e[if a < i {
        a
    } else {
        a + 1
    }] by {}
    assert(keys_distinct(e2)) by {
        assert forall|a: int, b: int|
            0 <= a < e2.len() && 0 <= b < e2.len() && a != b implies #[trigger] e2[a].0
            != #[trigger] e2[b].0 by {
            let a1 = if a < i {
                a
            } else {
                a + 1
            };
            let b1 = if b < i {
                b
            } else {
                b + 1
            };
            assert(e2[a] == e[a1] && e2[b] == e[b1]);
        }
    }
    assert forall|x: Seq<char>| #[trigger] has_key(e2, x) <==> has_key(e, x) && x != k by {
        if has_key(e, x) && x != k {
            let j = choose|j: int| 0 <= j < e.len() && #[trigger] e[j].0 == x;
            let j2 = if j < i {
                j
            } else {
                j - 1
            };
            assert(j != i);
            assert(e2[j2] == e[j]);
        }
        if has_key(e2, x) {
            let j = choose|j: int| 0 <= j < e2.len() && #[trigger] e2[j].0 == x;
            let j1 = if j < i {
                j
            } else {
                j + 1
            };
            assert(e2[j] == e[j1]);
            assert(j1 != i);
        }
    }
    assert forall|x: Seq<char>| #[trigger] to_map(e2).dom().contains(x) implies to_map(e2)[x]
        == to_map(e).remove(k)[x] by {
        let j = choose|j: int| 0 <= j < e2.len() && #[trigger] e2[j].0 == x;
        let j1 = if j < i {
            j
        } else {
            j + 1
        };
        assert(e2[j] == e[j1]);
        lemma_to_map_at(e2, j);
        lemma_to_map_at(e, j1);
    }
    assert(to_map(e2) =~= to_map(e).remove(k));
}

/// The index of the entry named `key`, if there is one.
pub fn find_key(v: &Vec<(String, Vec<String>)>, key: &String) -> (r: Option<usize>)
    requires
        keys_distinct(v.deep_view()),
    ensures
        match r {
            Some(i) => i < v@.len() && v@[i as int].0@ == key@,
            None => !to_map(v.deep_view()).dom().contains(key@),
        },
{
    let mut i: usize = 0;
    while i < v.len()
        invariant
            0 <= i <= v@.len(),
            forall|j: int| 0 <= j < i ==> (#[trigger] v.deep_view()[j]).0 != key@,
        decreases v@.len() - i,
    {
        if v[i].0 == *key {
            return Some(i);
        }
        assert(v.deep_view()[i as int].0 == v@[i as int].0@);
        i += 1;
    }
    None
}

/// Replaces `v[i]` by `e`, returning the entry that stood there.
fn replace_at(v: &mut Vec<(String, Vec<String>)>, i: usize, e: (String, Vec<String>)) -> (old_e: (
    String,
    Vec<String>,
))
    requires
        i < old(v)@.len(),
    ensures
        final(v)@ == old(v)@.update(i as int, e),
        old_e == old(v)@[i as int],
{
    let old_e = v.remove(i);
    v.insert(i, e);
    assert(final(v)@ =~= old(v)@.update(i as int, e));
    old_e
}

/// Appends the strings of `extra` to `base`.
pub fn extend_strings(base: &mut Vec<String>, extra: &Vec<String>)
    ensures
        final(base).deep_view() == old(base).deep_view() + extra.deep_view(),
{
    let mut i: usize = 0;
    let ghost start = base.deep_view();
    while i < extra.len()
        invariant
            0 <= i <= extra@.len(),
            base.deep_view() == start + extra.deep_view().take(i as int),
        decreases extra@.len() - i,
    {
        let s = extra[i].clone();
        let ghost before = base.deep_view();
        base.push(s);
        assert(base.deep_view() =~= before.push(extra.deep_view()[i as int]));
        assert(extra.deep_view().take(i + 1) =~= extra.deep_view().take(i as int).push(
            extra.deep_view()[i as int],
        ));
        i += 1;
    }
    assert(extra.deep_view().take(extra@.len() as int) =~= extra.deep_view());
}

/// A copy of `v`.
pub fn clone_strings(v: &Vec<String>) -> (r: Vec<String>)
    ensures
        r.deep_view() == v.deep_view(),
{
    let mut r: Vec<String> = Vec::new();
    extend_strings(&mut r, v);
    assert(r.deep_view() =~= v.deep_view());
    r
}

/// Adds `vals` to the values under `key`, or enters `key` with `vals`.
pub fn entry_extend(v: &mut Vec<(String, Vec<String>)>, key: String, vals: Vec<String>)
    requires
        keys_distinct(old(v).deep_view()),
    ensures
        keys_distinct(final(v).deep_view()),
        to_map(final(v).deep_view()) == to_map(old(v).deep_view()).insert(
            key@,
            if to_map(old(v).deep_view()).dom().contains(key@) {
                to_map(old(v).deep_view())[key@] + vals.deep_view()
            } else {
                vals.deep_view()
            },
        ),
{
    let ghost e0 = v.deep_view();
    match find_key(v, &key) {
        Some(i) => {
            proof {
                lemma_to_map_at(e0, i as int);
            }
            let (k, mut cur) = replace_at(v, i, (String::new(), Vec::new()));
            extend_strings(&mut cur, &vals);
            let _ = replace_at(v, i, (k, cur));
            assert(v.deep_view() =~= e0.update(i as int, (e0[i as int].0, cur.deep_view())));
            proof {
                lemma_to_map_update(e0, i as int, cur.deep_view());
            }
        },
        None => {
            let ghost kv = key@;
            let ghost vv = vals.deep_view();
            v.push((key, vals));
            assert(v.deep_view() =~= e0.push((kv, vv)));
            proof {
                lemma_to_map_push(e0, kv, vv);
            }
        },
    }
}

/// Sets the values under `key` to `vals`, dropping what stood there.
pub fn entry_set(v: &mut Vec<(String, Vec<String>)>, key: String, vals: Vec<String>)
    requires
        keys_distinct(old(v).deep_view()),
    ensures
        keys_distinct(final(v).deep_view()),
        to_map(final(v).deep_view()) == to_map(old(v).deep_view()).insert(key@, vals.deep_view()),
{
    let ghost e0 = v.deep_view();
    match find_key(v, &key) {
        Some(i) => {
            let ghost vv = vals.deep_view();
            let _ = replace_at(v, i, (key, vals));
            assert(v.deep_view() =~= e0.update(i as int, (e0[i as int].0, vv)));
            proof {
                lemma_to_map_update(e0, i as int, vv);
            }
        },
        None => {
            let ghost kv = key@;
            let ghost vv = vals.deep_view();
            v.push((key, vals));
            assert(v.deep_view() =~= e0.push((kv, vv)));
            proof {
                lemma_to_map_push(e0, kv, vv);
            }
        },
    }
}

/// Puts `vals` in front of the values under `key`, or enters `key` with `vals`.
pub fn entry_prepend(v: &mut Vec<(String, Vec<String>)>, key: String, vals: Vec<String>)
    requires
        keys_distinct(old(v).deep_view()),
    ensures
        keys_distinct(final(v).deep_view()),
        to_map(final(v).deep_view()) == to_map(old(v).deep_view()).insert(
            key@,
            if to_map(old(v).deep_view()).dom().contains(key@) {
                vals.deep_view() + to_map(old(v).deep_view())[key@]
            } else {
                vals.deep_view()
            },
        ),
{
    let ghost e0 = v.deep_view();
    match find_key(v, &key) {
        Some(i) => {
            proof {
                lemma_to_map_at(e0, i as int);
            }
            let (k, cur) = replace_at(v, i, (String::new(), Vec::new()));
            let mut combined = vals;
            extend_strings(&mut combined, &cur);
            let _ = replace_at(v, i, (k, combined));
            assert(v.deep_view() =~= e0.update(i as int, (e0[i as int].0, combined.deep_view())));
            proof {
                lemma_to_map_update(e0, i as int, combined.deep_view());
            }
        },
        None => {
            let ghost kv = key@;
            let ghost vv = vals.deep_view();
            v.push((key, vals));
            assert(v.deep_view() =~= e0.push((kv, vv)));
            proof {
                lemma_to_map_push(e0, kv, vv);
            }
        },
    }
}

/// Drops the entry named `key`, if there is one.
pub fn entry_remove(v: &mut Vec<(String, Vec<String>)>, key: &String)
    requires
        keys_distinct(old(v).deep_view()),
    ensures
        keys_distinct(final(v).deep_view()),
        to_map(final(v).deep_view()) == to_map(old(v).deep_view()).remove(key@),
{
    let ghost e0 = v.deep_view();
    match find_key(v, key) {
        Some(i) => {
            let _ = v.remove(i);
            assert(v.deep_view() =~= e0.remove(i as int));
            proof {
                lemma_to_map_remove(e0, i as int);
            }
        },
        None => {
            assert(to_map(e0).remove(key@) =~= to_map(e0));
        },
    }
}

/// Whether `key` is among the names `v`.
pub fn names_contain(v: &Vec<String>, key: &String) -> (r: bool)
    ensures
        r == v.deep_view().contains(key@),
{
    let mut i: usize = 0;
    while i < v.len()
        invariant
            0 <= i <= v@.len(),
            forall|j: int| 0 <= j < i ==> #[trigger] v.deep_view()[j] != key@,
        decreases v@.len() - i,
    {
        if v[i] == *key {
            assert(v.deep_view()[i as int] == key@);
            return true;
        }
        i += 1;
    }
    false
}

/// Adds `key` to the names `v`, unless it is there already.
pub fn names_insert(v: &mut Vec<String>, key: String)
    requires
        old(v).deep_view().no_duplicates(),
    ensures
        final(v).deep_view().no_duplicates(),
        final(v).deep_view().to_set() == old(v).deep_view().to_set().insert(key@),
{
    let ghost s0 = v.deep_view();
    if !names_contain(v, &key) {
        let ghost k = key@;
        v.push(key);
        assert(v.deep_view() =~= s0.push(k));
        assert(v.deep_view().to_set() =~= s0.to_set().insert(k)) by {
            assert forall|x: Seq<char>| v.deep_view().to_set().contains(x) <==> s0.to_set().insert(
                k,
            ).contains(x) by {
                if x != k && s0.push(k).contains(x) {
                    let j = choose|j: int| 0 <= j < s0.push(k).len() && s0.push(k)[j] == x;
                    assert(s0[j] == x);
                }
                if s0.contains(x) {
                    let j = choose|j: int| 0 <= j < s0.len() && s0[j] == x;
                    assert(s0.push(k)[j] == x);
                }
                assert(s0.push(k)[s0.len() as int] == k);
            }
        }
    } else {
        assert(s0.to_set().insert(key@) =~= s0.to_set());
    }
}

/// Drops `key` from the names `v`.
pub fn names_remove(v: &mut Vec<String>, key: &String)
    requires
        old(v).deep_view().no_duplicates(),
    ensures
        final(v).deep_view().no_duplicates(),
        final(v).deep_view().to_set() == old(v).deep_view().to_set().remove(key@),
{
    let ghost s0 = v.deep_view();
    let mut i: usize = 0;
    while i < v.len()
        invariant
            0 <= i <= v@.len(),
            v.deep_view() == s0,
            s0.no_duplicates(),
            s0 == old(v).deep_view(),
            forall|j: int| 0 <= j < i ==> #[trigger] v.deep_view()[j] != key@,
        decreases v@.len() - i,
    {
        if v[i] == *key {
            assert(s0[i as int] == key@);
            let _ = v.remove(i);
            let ghost s1 = v.deep_view();
            assert(s1 =~= s0.remove(i as int));
            assert forall|a: int| 0 <= a < s1.len() implies #[trigger] s1[a] == s0[if a < i {
                a
            } else {
                a + 1
            }] by {}
            assert(s1.no_duplicates()) by {
                assert forall|a: int, b: int|
                    0 <= a < s1.len() && 0 <= b < s1.len() && a != b implies s1[a] != s1[b] by {
                    let a1 = if a < i {
                        a
                    } else {
                        a + 1
                    };
                    let b1 = if b < i {
                        b
                    } else {
                        b + 1
                    };
                    assert(s1[a] == s0[a1] && s1[b] == s0[b1]);
                }
            }
            assert(s1.to_set() =~= s0.to_set().remove(key@)) by {
                assert forall|x: Seq<char>| s1.to_set().contains(x) <==> s0.to_set().remove(
                    key@,
                ).contains(x) by {
                    if s1.contains(x) {
                        let j = choose|j: int| 0 <= j < s1.len() && s1[j] == x;
                        let j1 = if j < i {
                            j
                        } else {
                            j + 1
                        };
                        assert(s1[j] == s0[j1]);
                        assert(j1 != i);
                    }
                    if s0.contains(x) && x != key@ {
                        let j = choose|j: int| 0 <= j < s0.len() && s0[j] == x;
                        assert(j != i);
                        let j2 = if j < i {
                            j
                        } else {
                            j - 1
                        };
                        assert(s1[j2] == s0[j]);
                    }
                }
            }
            return;
        }
        i += 1;
    }
    assert(s0.to_set().remove(key@) =~= s0.to_set()) by {
        assert(!s0.contains(key@));
    }
}

} // verus!
