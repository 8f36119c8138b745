//! Shell sessions and what cade keeps between runs: session ids, the
//! snapshot of the environment taken before the first activation, and the
//! key lists that cade leaves in its own variables.
use vstd::prelude::*;
use vstd::slice::slice_subrange;
use vstd::utf8::{decode_utf8, encode_utf8, valid_utf8};
use crate::external::utf8_text;
use crate::text::{
    append_char, chars_of, contains_seq, find_char, join, join_with, lemma_split_join,
    lemma_split_join_keeps, lemma_split_pieces,
    lemma_split_once, lemma_split_once_range, split, split_once, split_range, starts_with,
    str_starts_with, string_of_range,
};

verus! {

/// The separator of the lists and snapshots that cade stores in text.
pub const UNIT_SEPARATOR: char = '\x1F';

// ---- session ids ----

/// A session id that cannot escape the snapshots directory when used as a
/// file name: not empty, no `/`, no `\`, no `..`.
pub open spec fn valid_session(s: Seq<char>) -> bool {
    &&& s.len() > 0
    &&& !s.contains('/')
    &&& !s.contains('\\')
    &&& !contains_seq(s, seq!['.', '.'])
}

/// Rejects session ids that could escape the snapshots dir when used as a path.
pub fn is_valid_session(s: &str) -> (r: bool)
    ensures
        r == valid_session(s@),
{
    let v = chars_of(s);
    if v.len() == 0 {
        return false;
    }
    let mut i: usize = 0;
    while i < v.len()
        invariant
            0 <= i <= v@.len(),
            v@ == s@,
            forall|j: int| 0 <= j < i ==> #[trigger] v@[j] != '/' && v@[j] != '\\',
            forall|j: int| 0 <= j < i && j + 1 < v@.len() ==> !(#[trigger] v@[j] == '.' && v@[j + 1] == '.'),
        decreases v@.len() - i,
    {
        if v[i] == '/' || v[i] == '\\' {
            return false;
        }
        if i + 1 < v.len() && v[i] == '.' && v[i + 1] == '.' {
            assert(v@.subrange(i as int, i + 2) =~= seq!['.', '.']);
            return false;
        }
        i += 1;
    }
    proof {
        if contains_seq(s@, seq!['.', '.']) {
            let j = choose|j: int|
                0 <= j && j + 2 <= s@.len() && #[trigger] s@.subrange(j, j + 2) == seq!['.', '.'];
            assert(s@.subrange(j, j + 2)[0] == v@[j]);
            assert(s@.subrange(j, j + 2)[1] == v@[j + 1]);
        }
    }
    true
}

// ---- the session named in a process environment ----

/// The length of the first NUL-terminated entry of `raw`.
pub open spec fn entry_len(raw: Seq<u8>) -> nat
    decreases raw.len(),
{
    if raw.len() == 0 || raw[0] == 0 {
        0
    } else {
        1 + entry_len(raw.drop_first())
    }
}

/// The bytes that begin the entry naming the session.
pub open spec fn session_entry_prefix() -> Seq<u8> {
    encode_utf8("__CADE_SESSION="@)
}

/// The session that an entry names, if it names a valid one.
pub open spec fn entry_session(entry: Seq<u8>) -> Option<Seq<char>> {
    let p = session_entry_prefix();
    if p.len() <= entry.len() && entry.take(p.len() as int) == p {
        let value = entry.skip(p.len() as int);
        if valid_utf8(value) && valid_session(decode_utf8(value)) {
            Some(decode_utf8(value))
        } else {
            None
        }
    } else {
        None
    }
}

/// The first valid session named among the NUL-separated entries of a
/// process environment.
pub open spec fn environ_session(raw: Seq<u8>) -> Option<Seq<char>>
    decreases raw.len(),
{
    let n = entry_len(raw);
    if n > raw.len() {
        None
    } else {
        match entry_session(raw.take(n as int)) {
            Some(s) => Some(s),
            None => if n < raw.len() {
                environ_session(raw.skip(n + 1int))
            } else {
                None
            },
        }
    }
}

proof fn lemma_entry_len(raw: Seq<u8>, m: int)
    requires
        0 <= m <= raw.len(),
        forall|j: int| 0 <= j < m ==> #[trigger] raw[j] != 0,
        m == raw.len() || raw[m] == 0,
    ensures
        entry_len(raw) == m,
    decreases m,
{
    if m > 0 {
        assert forall|j: int| 0 <= j < m - 1 implies #[trigger] raw.drop_first()[j] != 0 by {
            assert(raw.drop_first()[j] == raw[j + 1]);
        }
        lemma_entry_len(raw.drop_first(), m - 1);
    }
}

/// Whether `v[from..to]` begins with the bytes `p`.
fn bytes_start_with(v: &[u8], from: usize, to: usize, p: &[u8]) -> (r: bool)
    requires
        from <= to <= v@.len(),
    ensures
        r == (p@.len() <= to - from && v@.subrange(from as int, to as int).take(p@.len() as int)
            == p@),
{
    if to - from < p.len() {
        return false;
    }
    let mut i: usize = 0;
    while i < p.len()
        invariant
            from <= to <= v@.len(),
            p@.len() <= to - from,
            0 <= i <= p@.len(),
            forall|j: int| 0 <= j < i ==> v@[from + j] == #[trigger] p@[j],
        decreases p@.len() - i,
    {
        if v[from + i] != p[i] {
            assert(v@.subrange(from as int, to as int).take(p@.len() as int)[i as int] != p@[i as int]);
            return false;
        }
        i += 1;
    }
    assert(v@.subrange(from as int, to as int).take(p@.len() as int) =~= p@);
    true
}

/// The first valid session id found among the NUL-separated entries of a
/// process environment (as `/proc/<pid>/environ` holds it).
pub fn session_from_environ(raw: &[u8]) -> (r: Option<String>)
    ensures
        match r {
            Some(s) => environ_session(raw@) == Some(s@),
            None => environ_session(raw@) is None,
        },
{
    let prefix = "__CADE_SESSION=".as_bytes();
    let mut start: usize = 0;
    assert(raw@.skip(0) =~= raw@);
    loop
        invariant
            start <= raw@.len(),
            prefix@ == session_entry_prefix(),
            environ_session(raw@) == environ_session(raw@.skip(start as int)),
        decreases raw@.len() - start,
    {
        let ghost rest = raw@.skip(start as int);
        let mut end = start;
        while end < raw.len() && raw[end] != 0
            invariant
                start <= end <= raw@.len(),
                forall|j: int| start <= j < end ==> #[trigger] raw@[j] != 0,
            decreases raw@.len() - end,
        {
            end += 1;
        }
        proof {
            assert forall|j: int| 0 <= j < end - start implies #[trigger] rest[j] != 0 by {
                assert(rest[j] == raw@[start + j]);
            }
            if end < raw@.len() {
                assert(rest[end - start] == raw@[end as int]);
            }
            lemma_entry_len(rest, end - start);
            assert(rest.take(end - start) =~= raw@.subrange(start as int, end as int));
        }
        let ghost entry = raw@.subrange(start as int, end as int);
        if bytes_start_with(raw, start, end, prefix) {
            let value = slice_subrange(raw, start + prefix.len(), end);
            proof {
                assert(value@ =~= entry.skip(prefix@.len() as int));
            }
            match utf8_text(value) {
                Ok(s) => {
                    if is_valid_session(s.as_str()) {
                        return Some(s);
                    }
                },
                Err(_) => {},
            }
        }
        assert(entry_session(entry) is None);
        if end >= raw.len() {
            return None;
        }
        proof {
            assert(rest.skip(end - start + 1) =~= raw@.skip(end + 1));
        }
        start = end + 1;
    }
}

// ---- snapshots ----

/// The `(key, value)` pairs of the pieces that hold an `=`, split at the
/// first `=`.
pub open spec fn pieces_pairs(p: Seq<Seq<char>>) -> Seq<(Seq<char>, Seq<char>)>
    decreases p.len(),
{
    if p.len() == 0 {
        Seq::empty()
    } else {
        let rest = pieces_pairs(p.drop_last());
        match split_once(p.last(), '=') {
            Some(kv) => rest.push(kv),
            None => rest,
        }
    }
}

/// The pairs a snapshot's text holds: its unit-separated `key=value` entries.
pub open spec fn snapshot_pairs(raw: Seq<char>) -> Seq<(Seq<char>, Seq<char>)> {
    pieces_pairs(split(raw, UNIT_SEPARATOR))
}

/// The pairs as a map, a later pair of a key replacing an earlier one.
pub open spec fn pairs_map(e: Seq<(Seq<char>, Seq<char>)>) -> Map<Seq<char>, Seq<char>>
    decreases e.len(),
{
    if e.len() == 0 {
        Map::empty()
    } else {
        pairs_map(e.drop_last()).insert(e.last().0, e.last().1)
    }
}

proof fn lemma_pieces_pairs_storable(p: Seq<Seq<char>>)
    requires
        forall|i: int| 0 <= i < p.len() ==> !(#[trigger] p[i]).contains(UNIT_SEPARATOR),
    ensures
        forall|i: int| 0 <= i < pieces_pairs(p).len() ==> storable_pair(#[trigger] pieces_pairs(p)[i]),
    decreases p.len(),
{
    if p.len() > 0 {
        let d = p.drop_last();
        assert forall|i: int| 0 <= i < d.len() implies !(#[trigger] d[i]).contains(UNIT_SEPARATOR) by {
            assert(d[i] == p[i]);
        }
        lemma_pieces_pairs_storable(d);
        let last = p.last();
        assert(!p[p.len() - 1].contains(UNIT_SEPARATOR));
        lemma_split_once(last, '=');
        if let Some(kv) = split_once(last, '=') {
            let (k, v) = kv;
            assert(last == k + seq!['='] + v);
            if k.contains(UNIT_SEPARATOR) {
                let j = choose|j: int| 0 <= j < k.len() && k[j] == UNIT_SEPARATOR;
                assert(last[j] == UNIT_SEPARATOR);
            }
            if v.contains(UNIT_SEPARATOR) {
                let j = choose|j: int| 0 <= j < v.len() && v[j] == UNIT_SEPARATOR;
                assert(last[k.len() + 1 + j] == UNIT_SEPARATOR);
            }
            let r = pieces_pairs(d);
            assert(pieces_pairs(p) == r.push(kv));
            assert forall|i: int| 0 <= i < r.push(kv).len() implies storable_pair(#[trigger] r.push(kv)[i]) by {
                if i < r.len() {
                    assert(r.push(kv)[i] == r[i]);
                }
            }
        }
    }
}

/// Every pair that cade reads from a snapshot's text survives being written
/// back: no `=` in its key and no separator in either part.
pub proof fn lemma_snapshot_pairs_storable(raw: Seq<char>)
    ensures
        forall|i: int| 0 <= i < snapshot_pairs(raw).len() ==> storable_pair(#[trigger] snapshot_pairs(raw)[i]),
{
    lemma_split_pieces(raw, UNIT_SEPARATOR);
    lemma_pieces_pairs_storable(split(raw, UNIT_SEPARATOR));
}

/// The `key=value` text of a pair.
pub open spec fn pair_text(kv: (Seq<char>, Seq<char>)) -> Seq<char> {
    kv.0 + seq!['='] + kv.1
}

/// The `key=value` texts of the pairs.
pub open spec fn pair_texts(e: Seq<(Seq<char>, Seq<char>)>) -> Seq<Seq<char>> {
    e.map_values(|kv: (Seq<char>, Seq<char>)| pair_text(kv))
}

/// The text of a snapshot: its pairs as `key=value`, unit-separated.
pub open spec fn render_pairs(e: Seq<(Seq<char>, Seq<char>)>) -> Seq<char> {
    join(pair_texts(e), seq![UNIT_SEPARATOR])
}

/// A pair that survives the trip through a snapshot's text: no `=` in the
/// key and no separator in either part.
pub open spec fn storable_pair(kv: (Seq<char>, Seq<char>)) -> bool {
    !kv.0.contains('=') && !kv.0.contains(UNIT_SEPARATOR) && !kv.1.contains(UNIT_SEPARATOR)
}

/// The pairs of an environment that go into a snapshot: all but cade's own.
pub open spec fn ambient_pairs(e: Seq<(Seq<char>, Seq<char>)>) -> Seq<(Seq<char>, Seq<char>)>
    decreases e.len(),
{
    if e.len() == 0 {
        Seq::empty()
    } else if starts_with(e.last().0, "__CADE_"@) {
        ambient_pairs(e.drop_last())
    } else {
        ambient_pairs(e.drop_last()).push(e.last())
    }
}

/// The view of a list of string pairs.
pub open spec fn pairs_view(v: Seq<(String, String)>) -> Seq<(Seq<char>, Seq<char>)> {
    v.map_values(|kv: (String, String)| (kv.0@, kv.1@))
}

/// A pair of `key=value` as split at its first `=`, if it has one.
fn split_pair(piece: &str) -> (r: Option<(String, String)>)
    ensures
        match r {
            Some(kv) => split_once(piece@, '=') == Some((kv.0@, kv.1@)),
            None => split_once(piece@, '=') is None,
        },
{
    let v = chars_of(piece);
    let found = find_char(v.as_slice(), 0, v.len(), '=');
    proof {
        lemma_split_once_range(v@, 0, v@.len() as int, '=', found);
        assert(v@.subrange(0, v@.len() as int) =~= v@);
    }
    match found {
        Some(i) => Some((string_of_range(v.as_slice(), 0, i), string_of_range(v.as_slice(), i + 1, v.len()))),
        None => None,
    }
}

/// The pairs of a snapshot's text.
pub fn parse_snapshot(raw: &str) -> (r: Vec<(String, String)>)
    ensures
        pairs_view(r@) == snapshot_pairs(raw@),
{
    let v = chars_of(raw);
    let pieces = split_range(v.as_slice(), 0, v.len(), UNIT_SEPARATOR);
    proof {
        assert(v@.subrange(0, v@.len() as int) =~= raw@);
    }
    let ghost p = pieces.deep_view();
    let mut out: Vec<(String, String)> = Vec::new();
    let mut i: usize = 0;
    while i < pieces.len()
        invariant
            0 <= i <= pieces@.len(),
            p == pieces.deep_view(),
            pairs_view(out@) == pieces_pairs(p.take(i as int)),
        decreases pieces@.len() - i,
    {
        proof {
            assert(p.take(i + 1).drop_last() =~= p.take(i as int));
            assert(p.take(i + 1).last() == pieces@[i as int]@);
        }
        let ghost before = out@;
        match split_pair(pieces[i].as_str()) {
            Some(kv) => {
                out.push(kv);
                assert(pairs_view(out@) =~= pairs_view(before).push((kv.0@, kv.1@)));
            },
            None => {},
        }
        i += 1;
    }
    assert(p.take(pieces@.len() as int) =~= p);
    out
}

/// The text of a snapshot holding the pairs `e`.
pub fn render_snapshot(e: &Vec<(String, String)>) -> (r: String)
    ensures
        r@ == render_pairs(pairs_view(e@)),
{
    let mut pieces: Vec<String> = Vec::new();
    let mut i: usize = 0;
    while i < e.len()
        invariant
            0 <= i <= e@.len(),
            pieces.deep_view() == pair_texts(pairs_view(e@).take(i as int)),
        decreases e@.len() - i,
    {
        let mut piece = e[i].0.clone();
        append_char(&mut piece, '=');
        crate::text::append(&mut piece, e[i].1.as_str());
        assert(piece@ =~= pair_text(pairs_view(e@)[i as int]));
        let ghost before = pieces.deep_view();
        pieces.push(piece);
        proof {
            assert(pieces.deep_view() =~= before.push(piece@));
            assert(pair_texts(pairs_view(e@).take(i + 1)) =~= before.push(
                pair_text(pairs_view(e@)[i as int]),
            ));
        }
        i += 1;
    }
    assert(pairs_view(e@).take(e@.len() as int) =~= pairs_view(e@));
    let mut sep = String::new();
    append_char(&mut sep, UNIT_SEPARATOR);
    assert(sep@ =~= seq![UNIT_SEPARATOR]);
    join_with(&pieces, sep.as_str())
}

/// The pairs of an environment that go into its snapshot: all but the
/// variables whose names begin with `__CADE_`.
pub fn ambient_snapshot(vars: &Vec<(String, String)>) -> (r: Vec<(String, String)>)
    ensures
        pairs_view(r@) == ambient_pairs(pairs_view(vars@)),
{
    let mut out: Vec<(String, String)> = Vec::new();
    let mut i: usize = 0;
    while i < vars.len()
        invariant
            0 <= i <= vars@.len(),
            pairs_view(out@) == ambient_pairs(pairs_view(vars@).take(i as int)),
        decreases vars@.len() - i,
    {
        proof {
            assert(pairs_view(vars@).take(i + 1).drop_last() =~= pairs_view(vars@).take(i as int));
        }
        if !str_starts_with(vars[i].0.as_str(), "__CADE_") {
            let ghost before = out@;
            out.push((vars[i].0.clone(), vars[i].1.clone()));
            assert(pairs_view(out@) =~= pairs_view(before).push(pairs_view(vars@)[i as int]));
        }
        i += 1;
    }
    assert(pairs_view(vars@).take(vars@.len() as int) =~= pairs_view(vars@));
    out
}

/// Later pairs of other keys leave a key's value as it was.
pub proof fn lemma_pairs_map_suffix(e: Seq<(Seq<char>, Seq<char>)>, j: int, k: Seq<char>)
    requires
        0 <= j <= e.len(),
        forall|i: int| j <= i < e.len() ==> (#[trigger] e[i]).0 != k,
    ensures
        pairs_map(e).dom().contains(k) == pairs_map(e.take(j)).dom().contains(k),
        pairs_map(e)[k] == pairs_map(e.take(j))[k],
    decreases e.len() - j,
{
    if j == e.len() {
        assert(e.take(j) =~= e);
    } else {
        let d = e.drop_last();
        assert forall|i: int| j <= i < d.len() implies (#[trigger] d[i]).0 != k by {
            assert(d[i] == e[i]);
        }
        assert(e.last() == e[e.len() - 1]);
        lemma_pairs_map_suffix(d, j, k);
        assert(d.take(j) =~= e.take(j));
    }
}

/// The value of `key` in the pairs, the last pair of that key winning.
pub fn snapshot_lookup(e: &Vec<(String, String)>, key: &str) -> (r: Option<String>)
    ensures
        match r {
            Some(v) => pairs_map(pairs_view(e@)).dom().contains(key@) && pairs_map(
                pairs_view(e@),
            )[key@] == v@,
            None => !pairs_map(pairs_view(e@)).dom().contains(key@),
        },
{
    let ghost p = pairs_view(e@);
    let mut i = e.len();
    while i > 0
        invariant
            0 <= i <= e@.len(),
            p == pairs_view(e@),
            forall|j: int| i <= j < p.len() ==> (#[trigger] p[j]).0 != key@,
        decreases i,
    {
        if crate::text::str_is(e[i - 1].0.as_str(), key) {
            proof {
                lemma_pairs_map_suffix(p, i as int, key@);
                assert(p.take(i as int).drop_last() =~= p.take(i - 1));
                assert(p.take(i as int).last() == p[i - 1]);
            }
            return Some(e[i - 1].1.clone());
        }
        i -= 1;
    }
    proof {
        lemma_pairs_map_suffix(p, 0, key@);
        assert(p.take(0) =~= Seq::<(Seq<char>, Seq<char>)>::empty());
    }
    None
}

/// A snapshot's text gives back the pairs it was written from, when they
/// are storable.
pub proof fn law_snapshot_round_trip(e: Seq<(Seq<char>, Seq<char>)>)
    requires
        forall|i: int| 0 <= i < e.len() ==> storable_pair(#[trigger] e[i]),
    ensures
        snapshot_pairs(render_pairs(e)) == e,
{
    let pieces = pair_texts(e);
    if e.len() == 0 {
        assert(pieces.len() == 0);
        assert(render_pairs(e) == Seq::<char>::empty());
        lemma_split_once(Seq::<char>::empty(), UNIT_SEPARATOR);
        let one = seq![Seq::<char>::empty()];
        assert(split(Seq::<char>::empty(), UNIT_SEPARATOR) == one);
        assert(one.drop_last() =~= Seq::<Seq<char>>::empty());
        assert(split_once(one.last(), '=') is None);
        assert(pieces_pairs(Seq::<Seq<char>>::empty()) == Seq::<(Seq<char>, Seq<char>)>::empty());
        assert(pieces_pairs(one) == Seq::<(Seq<char>, Seq<char>)>::empty());
        assert(e =~= Seq::<(Seq<char>, Seq<char>)>::empty());
    } else {
        assert forall|i: int| 0 <= i < pieces.len() implies !(#[trigger] pieces[i]).contains(
            UNIT_SEPARATOR,
        ) by {
            let kv = e[i];
            assert(pieces[i] == kv.0 + seq!['='] + kv.1);
            if pieces[i].contains(UNIT_SEPARATOR) {
                let j = choose|j: int| 0 <= j < pieces[i].len() && pieces[i][j] == UNIT_SEPARATOR;
                if j < kv.0.len() {
                    assert(kv.0[j] == UNIT_SEPARATOR);
                } else if j > kv.0.len() {
                    assert(kv.1[j - kv.0.len() - 1] == UNIT_SEPARATOR);
                }
            }
        }
        lemma_split_join(pieces, UNIT_SEPARATOR);
        lemma_pieces_pairs(e);
    }
}

proof fn lemma_pieces_pairs(e: Seq<(Seq<char>, Seq<char>)>)
    requires
        forall|i: int| 0 <= i < e.len() ==> storable_pair(#[trigger] e[i]),
    ensures
        pieces_pairs(pair_texts(e)) == e,
    decreases e.len(),
{
    if e.len() > 0 {
        let d = e.drop_last();
        assert forall|i: int| 0 <= i < d.len() implies storable_pair(#[trigger] d[i]) by {
            assert(d[i] == e[i]);
        }
        lemma_pieces_pairs(d);
        let p = pair_texts(e);
        assert(p.drop_last() =~= pair_texts(d));
        let kv = e.last();
        assert(storable_pair(e[e.len() - 1]));
        let t = kv.0 + seq!['='] + kv.1;
        assert(p.last() == t);
        let n = kv.0.len() as int;
        assert forall|j: int| 0 <= j < n implies #[trigger] t[j] != '=' by {
            assert(t[j] == kv.0[j]);
        }
        crate::text::lemma_split_once_at(t, '=', n);
        assert(t.take(n) =~= kv.0);
        assert(t.skip(n + 1) =~= kv.1);
        assert(e =~= d.push(kv));
    } else {
        assert(e =~= Seq::<(Seq<char>, Seq<char>)>::empty());
    }
}

// ---- key lists ----

/// The pieces that are not empty.
pub open spec fn nonempty_pieces(p: Seq<Seq<char>>) -> Seq<Seq<char>>
    decreases p.len(),
{
    if p.len() == 0 {
        Seq::empty()
    } else if p.last().len() == 0 {
        nonempty_pieces(p.drop_last())
    } else {
        nonempty_pieces(p.drop_last()).push(p.last())
    }
}

/// The keys of a unit-separated key list, empty entries dropped.
pub open spec fn keylist(raw: Seq<char>) -> Seq<Seq<char>> {
    nonempty_pieces(split(raw, UNIT_SEPARATOR))
}

/// The text of a key list.
pub open spec fn keylist_text(keys: Seq<Seq<char>>) -> Seq<char> {
    join(keys, seq![UNIT_SEPARATOR])
}

/// Reads a unit-separated key list.
pub fn read_keylist(raw: &str) -> (r: Vec<String>)
    ensures
        r.deep_view() == keylist(raw@),
{
    let v = chars_of(raw);
    let pieces = split_range(v.as_slice(), 0, v.len(), UNIT_SEPARATOR);
    proof {
        assert(v@.subrange(0, v@.len() as int) =~= raw@);
    }
    let ghost p = pieces.deep_view();
    let mut out: Vec<String> = Vec::new();
    let mut i: usize = 0;
    while i < pieces.len()
        invariant
            0 <= i <= pieces@.len(),
            p == pieces.deep_view(),
            out.deep_view() == nonempty_pieces(p.take(i as int)),
        decreases pieces@.len() - i,
    {
        proof {
            assert(p.take(i + 1).drop_last() =~= p.take(i as int));
            assert(p.take(i + 1).last() == pieces@[i as int]@);
        }
        if chars_of(pieces[i].as_str()).len() > 0 {
            let ghost before = out.deep_view();
            out.push(pieces[i].clone());
            assert(out.deep_view() =~= before.push(pieces@[i as int]@));
        } else {
            assert(pieces@[i as int]@.len() == 0);
        }
        i += 1;
    }
    assert(p.take(pieces@.len() as int) =~= p);
    out
}

/// Writes a unit-separated key list.
pub fn write_keylist(keys: &Vec<String>) -> (r: String)
    ensures
        r@ == keylist_text(keys.deep_view()),
{
    let mut sep = String::new();
    append_char(&mut sep, UNIT_SEPARATOR);
    assert(sep@ =~= seq![UNIT_SEPARATOR]);
    join_with(keys, sep.as_str())
}

proof fn lemma_nonempty_pieces_all(p: Seq<Seq<char>>)
    requires
        forall|i: int| 0 <= i < p.len() ==> (#[trigger] p[i]).len() > 0,
    ensures
        nonempty_pieces(p) == p,
    decreases p.len(),
{
    if p.len() > 0 {
        let d = p.drop_last();
        assert forall|i: int| 0 <= i < d.len() implies (#[trigger] d[i]).len() > 0 by {
            assert(d[i] == p[i]);
        }
        lemma_nonempty_pieces_all(d);
        assert(p.last() == p[p.len() - 1]);
        assert(p =~= d.push(p.last()));
    }
}

/// A key list reads back as the keys it was written from, when none of
/// them is empty or holds the separator.
pub proof fn law_keylist_round_trip(keys: Seq<Seq<char>>)
    requires
        forall|i: int|
            0 <= i < keys.len() ==> (#[trigger] keys[i]).len() > 0 && !keys[i].contains(
                UNIT_SEPARATOR,
            ),
    ensures
        keylist(keylist_text(keys)) == keys,
{
    if keys.len() == 0 {
        lemma_split_once(Seq::<char>::empty(), UNIT_SEPARATOR);
        assert(keylist_text(keys) == Seq::<char>::empty());
        let one = seq![Seq::<char>::empty()];
        assert(split(Seq::<char>::empty(), UNIT_SEPARATOR) == one);
        assert(one.drop_last() =~= Seq::<Seq<char>>::empty());
        assert(nonempty_pieces(Seq::<Seq<char>>::empty()) == Seq::<Seq<char>>::empty());
        assert(nonempty_pieces(one) == Seq::<Seq<char>>::empty());
        assert(keys =~= Seq::<Seq<char>>::empty());
    } else {
        lemma_split_join(keys, UNIT_SEPARATOR);
        lemma_nonempty_pieces_all(keys);
    }
}

proof fn lemma_nonempty_pieces_keeps(p: Seq<Seq<char>>, x: Seq<char>)
    requires
        p.contains(x),
        x.len() > 0,
    ensures
        nonempty_pieces(p).contains(x),
    decreases p.len(),
{
    let d = p.drop_last();
    if p.last() == x {
        assert(nonempty_pieces(p) == nonempty_pieces(d).push(x));
        assert(nonempty_pieces(p)[nonempty_pieces(d).len() as int] == x);
    } else {
        let i = choose|i: int| 0 <= i < p.len() && p[i] == x;
        assert(i != p.len() - 1);
        assert(d[i] == x);
        lemma_nonempty_pieces_keeps(d, x);
        let j = choose|j: int| 0 <= j < nonempty_pieces(d).len() && nonempty_pieces(d)[j] == x;
        if p.last().len() == 0 {
        } else {
            assert(nonempty_pieces(p)[j] == x);
        }
    }
}

/// A key that is not empty and holds no separator reads back from any key
/// list written with it, whatever the other keys hold.
pub proof fn law_keylist_keeps(keys: Seq<Seq<char>>, x: Seq<char>)
    requires
        keys.contains(x),
        x.len() > 0,
        !x.contains(UNIT_SEPARATOR),
    ensures
        keylist(keylist_text(keys)).contains(x),
{
    lemma_split_join_keeps(keys, UNIT_SEPARATOR, x);
    lemma_nonempty_pieces_keeps(split(keylist_text(keys), UNIT_SEPARATOR), x);
}

/// The names of the pairs.
pub open spec fn pairs_keys(e: Seq<(Seq<char>, Seq<char>)>) -> Seq<Seq<char>> {
    e.map_values(|kv: (Seq<char>, Seq<char>)| kv.0)
}

/// A name is in the map of the pairs exactly when some pair has it.
pub proof fn lemma_pairs_map_dom(e: Seq<(Seq<char>, Seq<char>)>, x: Seq<char>)
    ensures
        pairs_map(e).dom().contains(x) == pairs_keys(e).contains(x),
    decreases e.len(),
{
    if e.len() > 0 {
        let d = e.drop_last();
        lemma_pairs_map_dom(d, x);
        let k = pairs_keys(e);
        assert(pairs_keys(d) =~= k.drop_last());
        assert(k.last() == e.last().0);
        assert(k.contains(x) <==> pairs_keys(d).contains(x) || k.last() == x) by {
            if k.contains(x) && k.last() != x {
                let i = choose|i: int| 0 <= i < k.len() && k[i] == x;
                assert(pairs_keys(d)[i] == x);
            }
            if pairs_keys(d).contains(x) {
                let i = choose|i: int| 0 <= i < pairs_keys(d).len() && pairs_keys(d)[i] == x;
                assert(k[i] == x);
            }
            if k.last() == x {
                assert(k[k.len() - 1] == x);
            }
        }
    }
}

/// The snapshot of an environment agrees with it on every name that is not
/// cade's own.
pub proof fn lemma_ambient_pairs_map(e: Seq<(Seq<char>, Seq<char>)>, x: Seq<char>)
    requires
        !starts_with(x, "__CADE_"@),
    ensures
        pairs_map(ambient_pairs(e)).dom().contains(x) == pairs_map(e).dom().contains(x),
        pairs_map(e).dom().contains(x) ==> pairs_map(ambient_pairs(e))[x] == pairs_map(e)[x],
    decreases e.len(),
{
    if e.len() > 0 {
        let d = e.drop_last();
        lemma_ambient_pairs_map(d, x);
        let k = e.last().0;
        if starts_with(k, "__CADE_"@) {
            assert(k != x);
            assert(ambient_pairs(e) == ambient_pairs(d));
        } else {
            assert(ambient_pairs(e) == ambient_pairs(d).push(e.last()));
            assert(ambient_pairs(d).push(e.last()).drop_last() =~= ambient_pairs(d));
            assert(ambient_pairs(d).push(e.last()).last() == e.last());
        }
    }
}

/// A snapshot of storable pairs holds storable pairs.
pub proof fn lemma_ambient_pairs_storable(e: Seq<(Seq<char>, Seq<char>)>)
    requires
        forall|i: int| 0 <= i < e.len() ==> storable_pair(#[trigger] e[i]),
    ensures
        forall|i: int| 0 <= i < ambient_pairs(e).len() ==> storable_pair(#[trigger] ambient_pairs(e)[i]),
    decreases e.len(),
{
    if e.len() > 0 {
        let d = e.drop_last();
        assert forall|i: int| 0 <= i < d.len() implies storable_pair(#[trigger] d[i]) by {
            assert(d[i] == e[i]);
        }
        lemma_ambient_pairs_storable(d);
        assert(storable_pair(e[e.len() - 1]));
        let a = ambient_pairs(d);
        if !starts_with(e.last().0, "__CADE_"@) {
            assert(ambient_pairs(e) == a.push(e.last()));
            assert forall|i: int| 0 <= i < a.push(e.last()).len() implies storable_pair(
                #[trigger] a.push(e.last())[i],
            ) by {
                if i < a.len() {
                    assert(a.push(e.last())[i] == a[i]);
                }
            }
        }
    }
}

} // verus!
