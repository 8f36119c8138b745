//! The order of strings (by code point, which is the byte order of their
//! UTF-8 encoding) and sorting of name lists.
use vstd::prelude::*;
use crate::text::chars_of;

verus! {

/// `a` comes strictly before `b` in lexicographic order of code points.
pub open spec fn lex_lt(a: Seq<char>, b: Seq<char>) -> bool
    decreases a.len(),
{
    if a.len() == 0 {
        b.len() > 0
    } else if b.len() == 0 {
        false
    } else if a[0] != b[0] {
        a[0] < b[0]
    } else {
        lex_lt(a.drop_first(), b.drop_first())
    }
}

/// Every element comes strictly before every later one.
pub open spec fn strictly_sorted(s: Seq<Seq<char>>) -> bool {
    forall|i: int, j: int| 0 <= i < j < s.len() ==> lex_lt(#[trigger] s[i], #[trigger] s[j])
}

pub proof fn lemma_lex_irreflexive(a: Seq<char>)
    ensures
        !lex_lt(a, a),
    decreases a.len(),
{
    if a.len() > 0 {
        lemma_lex_irreflexive(a.drop_first());
    }
}

pub proof fn lemma_lex_total(a: Seq<char>, b: Seq<char>)
    ensures
        a != b ==> lex_lt(a, b) || lex_lt(b, a),
        !(lex_lt(a, b) && lex_lt(b, a)),
    decreases a.len(),
{
    if a.len() > 0 && b.len() > 0 && a[0] == b[0] {
        lemma_lex_total(a.drop_first(), b.drop_first());
        if a != b {
            assert(a.drop_first() != b.drop_first()) by {
                if a.drop_first() == b.drop_first() {
                    assert(a =~= b) by {
                        assert(a =~= seq![a[0]] + a.drop_first());
                        assert(b =~= seq![b[0]] + b.drop_first());
                    }
                }
            }
        }
    } else if a.len() == 0 && b.len() == 0 {
        assert(a =~= b);
    }
}

pub proof fn lemma_lex_trans(a: Seq<char>, b: Seq<char>, c: Seq<char>)
    requires
        lex_lt(a, b),
        lex_lt(b, c),
    ensures
        lex_lt(a, c),
    decreases a.len(),
{
    if a.len() > 0 && b.len() > 0 && c.len() > 0 && a[0] == b[0] && b[0] == c[0] {
        lemma_lex_trans(a.drop_first(), b.drop_first(), c.drop_first());
    }
}

/// Equal leading characters do not decide the order.
proof fn lemma_lex_skip(a: Seq<char>, b: Seq<char>, i: int)
    requires
        0 <= i <= a.len(),
        i <= b.len(),
        forall|j: int| 0 <= j < i ==> a[j] == b[j],
    ensures
        lex_lt(a, b) == lex_lt(a.skip(i), b.skip(i)),
    decreases i,
{
    if i > 0 {
        lemma_lex_skip(a.drop_first(), b.drop_first(), i - 1);
        assert(a.drop_first().skip(i - 1) =~= a.skip(i));
        assert(b.drop_first().skip(i - 1) =~= b.skip(i));
    } else {
        assert(a.skip(0) =~= a);
        assert(b.skip(0) =~= b);
    }
}

/// Whether `a` comes strictly before `b`.
pub fn str_lt(a: &str, b: &str) -> (r: bool)
    ensures
        r == lex_lt(a@, b@),
{
    let x = chars_of(a);
    let y = chars_of(b);
    let mut i: usize = 0;
    while i < x.len() && i < y.len()
        invariant
            0 <= i <= x@.len(),
            i <= y@.len(),
            x@ == a@,
            y@ == b@,
            forall|j: int| 0 <= j < i ==> x@[j] == y@[j],
        decreases x@.len() - i,
    {
        if x[i] != y[i] {
            proof {
                lemma_lex_skip(x@, y@, i as int);
                assert(x@.skip(i as int)[0] == x@[i as int]);
                assert(y@.skip(i as int)[0] == y@[i as int]);
            }
            return x[i] < y[i];
        }
        i += 1;
    }
    proof {
        lemma_lex_skip(x@, y@, i as int);
    }
    x.len() < y.len()
}

/// The names of `v` without repeats, strictly sorted.
pub fn sorted_names(v: &Vec<String>) -> (r: Vec<String>)
    ensures
        strictly_sorted(r.deep_view()),
        r.deep_view().to_set() == v.deep_view().to_set(),
        r.deep_view().no_duplicates(),
        r.deep_view() == sorted_of(v.deep_view().to_set()),
{
    let mut out: Vec<String> = Vec::new();
    let mut i: usize = 0;
    while i < v.len()
        invariant
            0 <= i <= v@.len(),
            strictly_sorted(out.deep_view()),
            out.deep_view().to_set() == v.deep_view().take(i as int).to_set(),
        decreases v@.len() - i,
    {
        let x = &v[i];
        let ghost s = out.deep_view();
        let mut p: usize = 0;
        while p < out.len() && str_lt(out[p].as_str(), x.as_str())
            invariant
                0 <= p <= out@.len(),
                s == out.deep_view(),
                forall|j: int| 0 <= j < p ==> lex_lt(#[trigger] s[j], x@),
            decreases out@.len() - p,
        {
            p += 1;
        }
        let dup = p < out.len() && out[p] == *x;
        if !dup {
            out.insert(p, x.clone());
            proof {
                let t = out.deep_view();
                assert(t =~= s.insert(p as int, x@));
                assert forall|a: int, b: int| 0 <= a < b < t.len() implies lex_lt(
                    #[trigger] t[a],
                    #[trigger] t[b],
                ) by {
                    if b < p {
                        assert(t[a] == s[a] && t[b] == s[b]);
                    } else if b == p {
                        assert(t[a] == s[a] && t[b] == x@);
                    } else if a == p {
                        assert(t[b] == s[b - 1] && t[a] == x@);
                        lemma_lex_total(s[p as int], x@);
                        if b - 1 > p {
                            lemma_lex_trans(x@, s[p as int], s[b - 1]);
                        }
                    } else if a < p {
                        assert(t[a] == s[a] && t[b] == s[b - 1]);
                    } else {
                        assert(t[a] == s[a - 1] && t[b] == s[b - 1]);
                    }
                }
                assert(t.to_set() =~= s.to_set().insert(x@)) by {
                    assert forall|y: Seq<char>| t.contains(y) <==> s.contains(y) || y == x@ by {
                        if t.contains(y) {
                            let q = choose|q: int| 0 <= q < t.len() && t[q] == y;
                            if q < p {
                                assert(s[q] == y);
                            } else if q > p {
                                assert(s[q - 1] == y);
                            }
                        }
                        if s.contains(y) {
                            let q = choose|q: int| 0 <= q < s.len() && s[q] == y;
                            if q < p {
                                assert(t[q] == y);
                            } else {
                                assert(t[q + 1] == y);
                            }
                        }
                        assert(t[p as int] == x@);
                    }
                }
            }
        } else {
            assert(s.contains(x@)) by {
                assert(s[p as int] == x@);
            }
            assert(s.to_set().insert(x@) =~= s.to_set());
        }
        proof {
            let w = v.deep_view();
            assert(w.take(i + 1) =~= w.take(i as int).push(w[i as int]));
            w.take(i as int).lemma_push_to_set_commute(w[i as int]);
        }
        i += 1;
    }
    assert(v.deep_view().take(v@.len() as int) =~= v.deep_view());
    proof {
        let t = out.deep_view();
        assert forall|a: int, b: int| 0 <= a < t.len() && 0 <= b < t.len() && a != b implies t[a]
            != t[b] by {
            if a < b {
                assert(lex_lt(t[a], t[b]));
            } else {
                assert(lex_lt(t[b], t[a]));
            }
            lemma_lex_irreflexive(t[a]);
        }
        lemma_sorted_of(t);
    }
    out
}

/// The names of a finite set in strictly ascending order.
pub open spec fn sorted_of(s: Set<Seq<char>>) -> Seq<Seq<char>> {
    choose|q: Seq<Seq<char>>| strictly_sorted(q) && q.to_set() == s
}

/// Only one strictly sorted sequence holds a given set of names.
pub proof fn lemma_sorted_unique(a: Seq<Seq<char>>, b: Seq<Seq<char>>)
    requires
        strictly_sorted(a),
        strictly_sorted(b),
        a.to_set() == b.to_set(),
    ensures
        a == b,
    decreases a.len(),
{
    if a.len() == 0 {
        if b.len() > 0 {
            assert(b.to_set().contains(b[0]));
            assert(a.to_set().contains(b[0]));
        }
        assert(a =~= b);
    } else {
        assert(a.to_set().contains(a[0]));
        if b.len() == 0 {
            assert(b.to_set().contains(a[0]));
        }
        assert(b.to_set().contains(a[0]));
        let j = choose|j: int| 0 <= j < b.len() && b[j] == a[0];
        assert(a.to_set().contains(b[0]));
        let i = choose|i: int| 0 <= i < a.len() && a[i] == b[0];
        if j > 0 {
            assert(lex_lt(b[0], b[j]));
            if i > 0 {
                assert(lex_lt(a[0], a[i]));
                lemma_lex_trans(a[0], b[0], a[0]);
            }
            lemma_lex_irreflexive(a[0]);
        }
        assert(a[0] == b[0]);
        let a1 = a.drop_first();
        let b1 = b.drop_first();
        assert forall|x: Seq<char>| a1.contains(x) <==> b1.contains(x) by {
            if a1.contains(x) {
                let p = choose|p: int| 0 <= p < a1.len() && a1[p] == x;
                assert(a[p + 1] == x);
                assert(lex_lt(a[0], a[p + 1]));
                lemma_lex_irreflexive(x);
                assert(a.to_set().contains(x));
                assert(b.to_set().contains(x));
                let q = choose|q: int| 0 <= q < b.len() && b[q] == x;
                assert(q != 0);
                assert(b1[q - 1] == x);
            }
            if b1.contains(x) {
                let p = choose|p: int| 0 <= p < b1.len() && b1[p] == x;
                assert(b[p + 1] == x);
                assert(lex_lt(b[0], b[p + 1]));
                lemma_lex_irreflexive(x);
                assert(b.to_set().contains(x));
                assert(a.to_set().contains(x));
                let q = choose|q: int| 0 <= q < a.len() && a[q] == x;
                assert(q != 0);
                assert(a1[q - 1] == x);
            }
        }
        assert(a1.to_set() =~= b1.to_set());
        assert forall|p: int, q: int| 0 <= p < q < a1.len() implies lex_lt(
            #[trigger] a1[p],
            #[trigger] a1[q],
        ) by {
            assert(a1[p] == a[p + 1] && a1[q] == a[q + 1]);
        }
        assert forall|p: int, q: int| 0 <= p < q < b1.len() implies lex_lt(
            #[trigger] b1[p],
            #[trigger] b1[q],
        ) by {
            assert(b1[p] == b[p + 1] && b1[q] == b[q + 1]);
        }
        lemma_sorted_unique(a1, b1);
        assert(a =~= seq![a[0]] + a1);
        assert(b =~= seq![b[0]] + b1);
    }
}

/// A strictly sorted sequence is the sorted sequence of its set.
pub proof fn lemma_sorted_of(q: Seq<Seq<char>>)
    requires
        strictly_sorted(q),
    ensures
        sorted_of(q.to_set()) == q,
{
    let s = q.to_set();
    assert(strictly_sorted(q) && q.to_set() == s);
    let c = sorted_of(s);
    lemma_sorted_unique(c, q);
}

/// `x` put into its place in the strictly sorted `q`.
pub open spec fn insert_sorted(q: Seq<Seq<char>>, x: Seq<char>) -> Seq<Seq<char>>
    decreases q.len(),
{
    if q.len() == 0 {
        seq![x]
    } else if lex_lt(x, q[0]) {
        seq![x] + q
    } else if x == q[0] {
        q
    } else {
        seq![q[0]] + insert_sorted(q.drop_first(), x)
    }
}

proof fn lemma_insert_sorted(q: Seq<Seq<char>>, x: Seq<char>)
    requires
        strictly_sorted(q),
    ensures
        strictly_sorted(insert_sorted(q, x)),
        insert_sorted(q, x).to_set() == q.to_set().insert(x),
    decreases q.len(),
{
    let r = insert_sorted(q, x);
    if q.len() == 0 {
        assert(r.to_set() =~= q.to_set().insert(x)) by {
            assert forall|y: Seq<char>| r.contains(y) <==> y == x by {
                if y == x {
                    assert(r[0] == x);
                }
            }
        }
    } else if lex_lt(x, q[0]) {
        assert forall|a: int, b: int| 0 <= a < b < r.len() implies lex_lt(
            #[trigger] r[a],
            #[trigger] r[b],
        ) by {
            if a == 0 {
                assert(r[b] == q[b - 1]);
                if b - 1 > 0 {
                    assert(lex_lt(q[0], q[b - 1]));
                    lemma_lex_trans(x, q[0], q[b - 1]);
                }
            } else {
                assert(r[a] == q[a - 1] && r[b] == q[b - 1]);
            }
        }
        assert(r.to_set() =~= q.to_set().insert(x)) by {
            assert forall|y: Seq<char>| r.contains(y) <==> q.contains(y) || y == x by {
                if r.contains(y) {
                    let i = choose|i: int| 0 <= i < r.len() && r[i] == y;
                    if i > 0 {
                        assert(q[i - 1] == y);
                    }
                }
                if q.contains(y) {
                    let i = choose|i: int| 0 <= i < q.len() && q[i] == y;
                    assert(r[i + 1] == y);
                }
                assert(r[0] == x);
            }
        }
    } else if x == q[0] {
        assert(q.to_set().insert(x) =~= q.to_set()) by {
            assert(q.contains(x)) by {
                assert(q[0] == x);
            }
        }
    } else {
        let t = q.drop_first();
        assert forall|a: int, b: int| 0 <= a < b < t.len() implies lex_lt(
            #[trigger] t[a],
            #[trigger] t[b],
        ) by {
            assert(t[a] == q[a + 1] && t[b] == q[b + 1]);
        }
        lemma_insert_sorted(t, x);
        let u = insert_sorted(t, x);
        lemma_lex_total(x, q[0]);
        assert(lex_lt(q[0], x));
        assert(r == seq![q[0]] + u);
        assert forall|a: int, b: int| 0 <= a < b < r.len() implies lex_lt(
            #[trigger] r[a],
            #[trigger] r[b],
        ) by {
            if a == 0 {
                assert(r[b] == u[b - 1]);
                assert(u.to_set().contains(u[b - 1]));
                assert(t.to_set().insert(x).contains(u[b - 1]));
                if u[b - 1] != x {
                    assert(t.contains(u[b - 1]));
                    let i = choose|i: int| 0 <= i < t.len() && t[i] == u[b - 1];
                    assert(q[i + 1] == t[i]);
                    assert(lex_lt(q[0], q[i + 1]));
                }
            } else {
                assert(r[a] == u[a - 1] && r[b] == u[b - 1]);
            }
        }
        assert(r.to_set() =~= q.to_set().insert(x)) by {
            assert forall|y: Seq<char>| r.contains(y) <==> q.contains(y) || y == x by {
                if r.contains(y) {
                    let i = choose|i: int| 0 <= i < r.len() && r[i] == y;
                    if i > 0 {
                        assert(u[i - 1] == y);
                        assert(u.to_set().contains(y));
                        if y != x {
                            assert(t.contains(y));
                            let j = choose|j: int| 0 <= j < t.len() && t[j] == y;
                            assert(q[j + 1] == y);
                        }
                    } else {
                        assert(q[0] == y);
                    }
                }
                if q.contains(y) {
                    let i = choose|i: int| 0 <= i < q.len() && q[i] == y;
                    if i == 0 {
                        assert(r[0] == y);
                    } else {
                        assert(t[i - 1] == y);
                        assert(t.to_set().insert(x).contains(y));
                        assert(u.contains(y));
                        let j = choose|j: int| 0 <= j < u.len() && u[j] == y;
                        assert(r[j + 1] == y);
                    }
                }
                if y == x {
                    assert(t.to_set().insert(x).contains(x));
                    assert(u.contains(x));
                    let j = choose|j: int| 0 <= j < u.len() && u[j] == x;
                    assert(r[j + 1] == x);
                }
            }
        }
    }
}

/// The names of `s` sorted, by insertion.
pub open spec fn sort_names(s: Seq<Seq<char>>) -> Seq<Seq<char>>
    decreases s.len(),
{
    if s.len() == 0 {
        Seq::empty()
    } else {
        insert_sorted(sort_names(s.drop_last()), s.last())
    }
}

proof fn lemma_sort_names(s: Seq<Seq<char>>)
    ensures
        strictly_sorted(sort_names(s)),
        sort_names(s).to_set() == s.to_set(),
    decreases s.len(),
{
    if s.len() == 0 {
        assert(s.to_set() =~= Seq::<Seq<char>>::empty().to_set());
    } else {
        lemma_sort_names(s.drop_last());
        lemma_insert_sorted(sort_names(s.drop_last()), s.last());
        assert(s =~= s.drop_last().push(s.last()));
        s.drop_last().lemma_push_to_set_commute(s.last());
    }
}

/// Every finite list of names has a sorted sequence: it is strictly sorted
/// and holds exactly those names.
pub proof fn lemma_sorted_of_seq(s: Seq<Seq<char>>)
    ensures
        strictly_sorted(sorted_of(s.to_set())),
        sorted_of(s.to_set()).to_set() == s.to_set(),
{
    lemma_sort_names(s);
    let w = sort_names(s);
    assert(strictly_sorted(w) && w.to_set() == s.to_set());
}

} // verus!
