//! Character-level text primitives: whitespace, trimming, splitting,
//! joining, line breaking and decimal numbers, each with the specification
//! that the rest of the crate states its contracts over.
use vstd::prelude::*;

verus! {

/// The Unicode `White_Space` property, which `char::is_whitespace` tests.
pub open spec fn is_ws(c: char) -> bool {
    ||| ('\u{9}' <= c && c <= '\u{d}')
    ||| c == ' '
    ||| c == '\u{85}'
    ||| c == '\u{a0}'
    ||| c == '\u{1680}'
    ||| ('\u{2000}' <= c && c <= '\u{200a}')
    ||| c == '\u{2028}'
    ||| c == '\u{2029}'
    ||| c == '\u{202f}'
    ||| c == '\u{205f}'
    ||| c == '\u{3000}'
}

/// Whether `c` is whitespace in the sense of `char::is_whitespace`.
pub fn is_whitespace(c: char) -> (r: bool)
    ensures
        r == is_ws(c),
{
    ('\u{9}' <= c && c <= '\u{d}') || c == ' ' || c == '\u{85}' || c == '\u{a0}' || c
        == '\u{1680}' || ('\u{2000}' <= c && c <= '\u{200a}') || c == '\u{2028}' || c
        == '\u{2029}' || c == '\u{202f}' || c == '\u{205f}' || c == '\u{3000}'
}

/// `s` without its leading whitespace.
pub open spec fn trim_start(s: Seq<char>) -> Seq<char>
    decreases s.len(),
{
    if s.len() > 0 && is_ws(s[0]) {
        trim_start(s.drop_first())
    } else {
        s
    }
}

/// `s` without its trailing whitespace.
pub open spec fn trim_end(s: Seq<char>) -> Seq<char>
    decreases s.len(),
{
    if s.len() > 0 && is_ws(s.last()) {
        trim_end(s.drop_last())
    } else {
        s
    }
}

/// `s` without leading and trailing whitespace, as `str::trim` gives it.
pub open spec fn trim(s: Seq<char>) -> Seq<char> {
    trim_end(trim_start(s))
}

/// The pieces around the first occurrence of `c` in `s`, as `str::split_once`
/// gives them.
pub open spec fn split_once(s: Seq<char>, c: char) -> Option<(Seq<char>, Seq<char>)>
    decreases s.len(),
{
    if s.len() == 0 {
        None
    } else if s[0] == c {
        Some((Seq::<char>::empty(), s.drop_first()))
    } else {
        match split_once(s.drop_first(), c) {
            Some((a, b)) => Some((seq![s[0]] + a, b)),
            None => None,
        }
    }
}

/// The pieces of `s` between occurrences of `c`, as `str::split` gives them.
pub open spec fn split(s: Seq<char>, c: char) -> Seq<Seq<char>>
    decreases s.len(),
{
    match split_once(s, c) {
        Some((a, b)) => {
            if b.len() < s.len() {
                seq![a] + split(b, c)
            } else {
                seq![s]
            }
        },
        None => seq![s],
    }
}

/// `s` without one trailing carriage return.
pub open spec fn strip_cr(s: Seq<char>) -> Seq<char> {
    if s.len() > 0 && s.last() == '\r' {
        s.drop_last()
    } else {
        s
    }
}

/// The lines of `s`, as `str::lines` gives them: split at `\n`, a `\r`
/// before the `\n` removed, and no empty line after a final `\n`.
pub open spec fn lines(s: Seq<char>) -> Seq<Seq<char>>
    decreases s.len(),
{
    if s.len() == 0 {
        Seq::empty()
    } else {
        match split_once(s, '\n') {
            Some((a, b)) => {
                if b.len() < s.len() {
                    seq![strip_cr(a)] + lines(b)
                } else {
                    seq![s]
                }
            },
            None => seq![s],
        }
    }
}

/// The number of leading characters of `s` up to the first whitespace.
pub open spec fn word_len(s: Seq<char>) -> nat
    decreases s.len(),
{
    if s.len() == 0 || is_ws(s[0]) {
        0
    } else {
        1 + word_len(s.drop_first())
    }
}

/// The whitespace-separated words of `s`, as `str::split_whitespace` gives them.
pub open spec fn words(s: Seq<char>) -> Seq<Seq<char>>
    decreases s.len(),
{
    let t = trim_start(s);
    if t.len() == 0 {
        Seq::empty()
    } else {
        let n = word_len(t);
        if 0 < n && n <= t.len() && t.len() <= s.len() {
            seq![t.take(n as int)] + words(t.skip(n as int))
        } else {
            Seq::empty()
        }
    }
}

/// Whether `p` is a prefix of `s`.
pub open spec fn starts_with(s: Seq<char>, p: Seq<char>) -> bool {
    p.len() <= s.len() && s.take(p.len() as int) == p
}

/// Whether `p` is a suffix of `s`.
pub open spec fn ends_with(s: Seq<char>, p: Seq<char>) -> bool {
    p.len() <= s.len() && s.skip(s.len() - p.len()) == p
}

/// Whether `p` occurs in `s`.
pub open spec fn contains_seq(s: Seq<char>, p: Seq<char>) -> bool {
    exists|i: int| 0 <= i && i + p.len() <= s.len() && #[trigger] s.subrange(i, i + p.len()) == p
}

// ---- lemmas ----
pub proof fn lemma_trim_start_len(s: Seq<char>)
    ensures
        trim_start(s).len() <= s.len(),
        trim_start(s) == s.skip(s.len() - trim_start(s).len()),
        trim_start(s).len() > 0 ==> !is_ws(trim_start(s)[0]),
    decreases s.len(),
{
    if s.len() > 0 && is_ws(s[0]) {
        lemma_trim_start_len(s.drop_first());
        assert(s.drop_first().skip(s.drop_first().len() - trim_start(s).len()) =~= s.skip(
            s.len() - trim_start(s).len(),
        ));
    } else {
        assert(s.skip(0) =~= s);
    }
}

pub proof fn lemma_trim_end_len(s: Seq<char>)
    ensures
        trim_end(s).len() <= s.len(),
        trim_end(s) == s.take(trim_end(s).len() as int),
        trim_end(s).len() > 0 ==> !is_ws(trim_end(s).last()),
    decreases s.len(),
{
    if s.len() > 0 && is_ws(s.last()) {
        lemma_trim_end_len(s.drop_last());
        assert(s.drop_last().take(trim_end(s).len() as int) =~= s.take(trim_end(s).len() as int));
    } else {
        assert(s.take(s.len() as int) =~= s);
    }
}

/// Trimming the start twice is trimming it once.
pub proof fn lemma_trim_start_idem(s: Seq<char>)
    ensures
        trim_start(trim_start(s)) == trim_start(s),
{
    lemma_trim_start_len(s);
}

/// Leading whitespace up to `i` can be skipped before trimming.
pub proof fn lemma_trim_start_skip(s: Seq<char>, i: int)
    requires
        0 <= i <= s.len(),
        forall|j: int| 0 <= j < i ==> is_ws(#[trigger] s[j]),
    ensures
        trim_start(s) == trim_start(s.skip(i)),
    decreases i,
{
    if i > 0 {
        assert(s.drop_first().skip(i - 1) =~= s.skip(i));
        lemma_trim_start_skip(s.drop_first(), i - 1);
    } else {
        assert(s.skip(0) =~= s);
    }
}

/// Trailing whitespace from `i` on can be cut before trimming.
pub proof fn lemma_trim_end_take(s: Seq<char>, i: int)
    requires
        0 <= i <= s.len(),
        forall|j: int| i <= j < s.len() ==> is_ws(#[trigger] s[j]),
    ensures
        trim_end(s) == trim_end(s.take(i)),
    decreases s.len() - i,
{
    if i < s.len() {
        assert(s.drop_last().take(i) =~= s.take(i));
        lemma_trim_end_take(s.drop_last(), i);
    } else {
        assert(s.take(i) =~= s);
    }
}

/// The first occurrence characterizes `split_once`.
pub proof fn lemma_split_once(s: Seq<char>, c: char)
    ensures
        split_once(s, c) is None <==> !s.contains(c),
        split_once(s, c) matches Some((a, b)) ==> {
            &&& s == a + seq![c] + b
            &&& !a.contains(c)
        },
    decreases s.len(),
{
    if s.len() == 0 {
    } else if s[0] == c {
        assert(s =~= Seq::<char>::empty() + seq![c] + s.drop_first());
        assert(s.contains(c)) by {
            assert(s[0] == c);
        }
    } else {
        lemma_split_once(s.drop_first(), c);
        match split_once(s.drop_first(), c) {
            Some((a, b)) => {
                assert(s =~= seq![s[0]] + a + seq![c] + b) by {
                    assert(s =~= seq![s[0]] + s.drop_first());
                }
                assert(!(seq![s[0]] + a).contains(c)) by {
                    if (seq![s[0]] + a).contains(c) {
                        let j = choose|j: int|
                            0 <= j < (seq![s[0]] + a).len() && (seq![s[0]] + a)[j] == c;
                        assert(a[j - 1] == c);
                    }
                }
                assert(s.contains(c)) by {
                    assert(s[a.len() + 1int] == c);
                }
            },
            None => {
                if s.contains(c) {
                    let j = choose|j: int| 0 <= j < s.len() && s[j] == c;
                    assert(s.drop_first()[j - 1] == c);
                }
            },
        }
    }
}

/// A split at the first occurrence of `c` is the one `split_once` finds.
pub proof fn lemma_split_once_at(s: Seq<char>, c: char, i: int)
    requires
        0 <= i < s.len(),
        s[i] == c,
        forall|j: int| 0 <= j < i ==> #[trigger] s[j] != c,
    ensures
        split_once(s, c) == Some((s.take(i), s.skip(i + 1))),
{
    lemma_split_once(s, c);
    assert(s.contains(c));
    let (a, b) = split_once(s, c)->0;
    if a.len() < i {
        assert(s[a.len() as int] == c) by {
            assert(s[a.len() as int] == (a + seq![c] + b)[a.len() as int]);
        }
    } else if a.len() > i {
        assert(a[i] == c) by {
            assert(s[i] == (a + seq![c] + b)[i]);
        }
    }
    assert(a.len() == i);
    assert(a =~= s.take(i)) by {
        assert forall|j: int| 0 <= j < i implies a[j] == s.take(i)[j] by {
            assert(s[j] == (a + seq![c] + b)[j]);
        }
    }
    assert(b =~= s.skip(i + 1)) by {
        assert forall|j: int| 0 <= j < b.len() implies b[j] == s.skip(i + 1)[j] by {
            assert(s[i + 1 + j] == (a + seq![c] + b)[i + 1 + j]);
        }
    }
}

/// When `c` does not occur, `split_once` finds nothing.
pub proof fn lemma_split_once_none(s: Seq<char>, c: char)
    requires
        forall|j: int| 0 <= j < s.len() ==> #[trigger] s[j] != c,
    ensures
        split_once(s, c) is None,
{
    lemma_split_once(s, c);
}

pub proof fn lemma_split_once_len(s: Seq<char>, c: char)
    ensures
        split_once(s, c) matches Some((a, b)) ==> b.len() < s.len() && a.len() < s.len(),
{
    lemma_split_once(s, c);
    if let Some((a, b)) = split_once(s, c) {
        assert(s.len() == a.len() + 1 + b.len());
    }
}

// ---- exec ----
/// Calls `String::push`. The contract claims what its documentation
/// states: the character is appended.
#[verifier::external_body]
fn push_char(s: &mut String, c: char)
    ensures
        final(s)@ == old(s)@.push(c),
{
    s.push(c);
}

/// The characters of `s`.
pub fn chars_of(s: &str) -> (v: Vec<char>)
    ensures
        v@ == s@,
{
    let mut v: Vec<char> = Vec::new();
    for c in it: s.chars()
        invariant
            v@ == it.seq().take(it.index() as int),
            it.seq() == s@,
    {
        v.push(c);
    }
    v
}

/// The string of the characters `v[lo..hi]`.
pub fn string_of_range(v: &[char], lo: usize, hi: usize) -> (s: String)
    requires
        lo <= hi <= v@.len(),
    ensures
        s@ == v@.subrange(lo as int, hi as int),
{
    let mut s = String::new();
    let mut i = lo;
    while i < hi
        invariant
            lo <= i <= hi <= v@.len(),
            s@ == v@.subrange(lo as int, i as int),
        decreases hi - i,
    {
        push_char(&mut s, v[i]);
        assert(s@ =~= v@.subrange(lo as int, i + 1));
        i += 1;
    }
    s
}

/// The string of the characters `v`.
pub fn string_of(v: &[char]) -> (s: String)
    ensures
        s@ == v@,
{
    let s = string_of_range(v, 0, v.len());
    assert(v@.subrange(0, v@.len() as int) =~= v@);
    s
}

/// `a` followed by `b`.
pub fn concat(a: &str, b: &str) -> (s: String)
    ensures
        s@ == a@ + b@,
{
    let mut s = a.to_owned();
    s.append(b);
    s
}

/// Appends `b` to `s`.
pub fn append(s: &mut String, b: &str)
    ensures
        final(s)@ == old(s)@ + b@,
{
    s.append(b);
}

/// Appends the character `c` to `s`.
pub fn append_char(s: &mut String, c: char)
    ensures
        final(s)@ == old(s)@.push(c),
{
    push_char(s, c);
}

/// The index range `[lo, hi)` of `v[from..to]` that remains after trimming.
pub fn trim_range(v: &[char], from: usize, to: usize) -> (r: (usize, usize))
    requires
        from <= to <= v@.len(),
    ensures
        from <= r.0 <= r.1 <= to,
        v@.subrange(r.0 as int, r.1 as int) == trim(v@.subrange(from as int, to as int)),
{
    let ghost s = v@.subrange(from as int, to as int);
    let mut lo = from;
    while lo < to && is_whitespace(v[lo])
        invariant
            from <= lo <= to <= v@.len(),
            s == v@.subrange(from as int, to as int),
            forall|j: int| from <= j < lo ==> is_ws(#[trigger] v@[j]),
        decreases to - lo,
    {
        lo += 1;
    }
    proof {
        assert forall|j: int| 0 <= j < lo - from implies is_ws(#[trigger] s[j]) by {
            assert(s[j] == v@[from + j]);
        }
        lemma_trim_start_skip(s, lo - from);
        assert(s.skip(lo - from) =~= v@.subrange(lo as int, to as int));
        if lo < to {
            assert(!is_ws(v@.subrange(lo as int, to as int)[0]));
        }
    }
    let ghost t = v@.subrange(lo as int, to as int);
    assert(trim_start(s) == t);
    let mut hi = to;
    while hi > lo && is_whitespace(v[hi - 1])
        invariant
            from <= lo <= hi <= to <= v@.len(),
            t == v@.subrange(lo as int, to as int),
            forall|j: int| hi <= j < to ==> is_ws(#[trigger] v@[j]),
        decreases hi - lo,
    {
        hi -= 1;
    }
    proof {
        assert forall|j: int| hi - lo <= j < t.len() implies is_ws(#[trigger] t[j]) by {
            assert(t[j] == v@[lo + j]);
        }
        lemma_trim_end_take(t, hi - lo);
        assert(t.take(hi - lo) =~= v@.subrange(lo as int, hi as int));
        if hi > lo {
            assert(!is_ws(v@.subrange(lo as int, hi as int).last()));
        }
    }
    (lo, hi)
}

/// The first index in `[from, to)` at which `c` occurs, if any.
pub fn find_char(v: &[char], from: usize, to: usize, c: char) -> (r: Option<usize>)
    requires
        from <= to <= v@.len(),
    ensures
        match r {
            Some(i) => from <= i < to && v@[i as int] == c && forall|j: int|
                from <= j < i ==> #[trigger] v@[j] != c,
            None => forall|j: int| from <= j < to ==> #[trigger] v@[j] != c,
        },
{
    let mut i = from;
    while i < to
        invariant
            from <= i <= to <= v@.len(),
            forall|j: int| from <= j < i ==> #[trigger] v@[j] != c,
        decreases to - i,
    {
        if v[i] == c {
            return Some(i);
        }
        i += 1;
    }
    None
}

/// Characterizes `split_once` on a range of `v` through `find_char`.
pub proof fn lemma_split_once_range(v: Seq<char>, from: int, to: int, c: char, r: Option<usize>)
    requires
        0 <= from <= to <= v.len(),
        match r {
            Some(i) => from <= i < to && v[i as int] == c && forall|j: int|
                from <= j < i ==> #[trigger] v[j] != c,
            None => forall|j: int| from <= j < to ==> #[trigger] v[j] != c,
        },
    ensures
        split_once(v.subrange(from, to), c) == match r {
            Some(i) => Some((v.subrange(from, i as int), v.subrange(i + 1, to))),
            None => None::<(Seq<char>, Seq<char>)>,
        },
{
    let s = v.subrange(from, to);
    match r {
        Some(i) => {
            assert forall|j: int| 0 <= j < i - from implies #[trigger] s[j] != c by {
                assert(s[j] == v[from + j]);
            }
            lemma_split_once_at(s, c, i - from);
            assert(s.take(i - from) =~= v.subrange(from, i as int));
            assert(s.skip(i - from + 1) =~= v.subrange(i + 1, to));
        },
        None => {
            assert forall|j: int| 0 <= j < s.len() implies #[trigger] s[j] != c by {
                assert(s[j] == v[from + j]);
            }
            lemma_split_once_none(s, c);
        },
    }
}


/// The pieces of `v[from..to]` between occurrences of `c`, as strings.
pub fn split_range(v: &[char], from: usize, to: usize, c: char) -> (r: Vec<String>)
    requires
        from <= to <= v@.len(),
    ensures
        r.deep_view() == split(v@.subrange(from as int, to as int), c),
{
    let mut out: Vec<String> = Vec::new();
    let mut start = from;
    loop
        invariant
            from <= start <= to <= v@.len(),
            split(v@.subrange(from as int, to as int), c) == out.deep_view() + split(
                v@.subrange(start as int, to as int),
                c,
            ),
        decreases to - start,
    {
        let ghost rest = v@.subrange(start as int, to as int);
        let found = find_char(v, start, to, c);
        proof {
            lemma_split_once_range(v@, start as int, to as int, c, found);
            lemma_split_once_len(rest, c);
        }
        match found {
            Some(i) => {
                let piece = string_of_range(v, start, i);
                let ghost old_out = out.deep_view();
                out.push(piece);
                assert(out.deep_view() =~= old_out.push(piece@));
                assert(split(rest, c) == seq![piece@] + split(v@.subrange(i + 1, to as int), c));
                assert(old_out + split(rest, c) =~= out.deep_view() + split(
                    v@.subrange(i + 1, to as int),
                    c,
                ));
                start = i + 1;
            },
            None => {
                let piece = string_of_range(v, start, to);
                let ghost old_out = out.deep_view();
                out.push(piece);
                assert(out.deep_view() =~= old_out.push(piece@));
                assert(split(rest, c) == seq![rest]);
                assert(old_out + split(rest, c) =~= out.deep_view());
                return out;
            },
        }
    }
}

/// Whether the index pairs `r` pick out exactly the pieces `p` of `v`.
pub open spec fn ranges_are(v: Seq<char>, r: Seq<(usize, usize)>, p: Seq<Seq<char>>) -> bool {
    &&& r.len() == p.len()
    &&& forall|i: int|
        0 <= i < r.len() ==> #[trigger] r[i].0 <= r[i].1 <= v.len() && v.subrange(
            r[i].0 as int,
            r[i].1 as int,
        ) == p[i]
}

/// The index ranges of the lines of `v`.
pub fn line_ranges(v: &[char]) -> (r: Vec<(usize, usize)>)
    ensures
        ranges_are(v@, r@, lines(v@)),
{
    let mut out: Vec<(usize, usize)> = Vec::new();
    let mut start: usize = 0;
    let len = v.len();
    assert(v@.subrange(0, len as int) =~= v@);
    assert(lines_pieces(v@, out@) =~= Seq::<Seq<char>>::empty());
    loop
        invariant
            start <= len == v@.len(),
            lines(v@) == lines_pieces(v@, out@) + lines(v@.subrange(start as int, len as int)),
            ranges_are(v@, out@, lines_pieces(v@, out@)),
        decreases len - start,
    {
        let ghost rest = v@.subrange(start as int, len as int);
        if start == len {
            assert(lines(rest) =~= Seq::<Seq<char>>::empty());
            assert(lines(v@) =~= lines_pieces(v@, out@));
            return out;
        }
        let found = find_char(v, start, len, '\n');
        proof {
            lemma_split_once_range(v@, start as int, len as int, '\n', found);
            lemma_split_once_len(rest, '\n');
        }
        let ghost old_out = out@;
        match found {
            Some(i) => {
                let mut end = i;
                if end > start && v[end - 1] == '\r' {
                    end = end - 1;
                }
                assert(v@.subrange(start as int, end as int) == strip_cr(
                    v@.subrange(start as int, i as int),
                )) by {
                    if i > start && v@[i - 1] == '\r' {
                        assert(v@.subrange(start as int, end as int) =~= v@.subrange(
                            start as int,
                            i as int,
                        ).drop_last());
                    }
                }
                out.push((start, end));
                proof {
                    lemma_lines_pieces_push(v@, old_out, (start, end));
                }
                assert(lines(rest) == seq![v@.subrange(start as int, end as int)] + lines(
                    v@.subrange(i + 1, len as int),
                ));
                assert(lines_pieces(v@, old_out) + lines(rest) =~= lines_pieces(v@, out@) + lines(
                    v@.subrange(i + 1, len as int),
                ));
                start = i + 1;
            },
            None => {
                out.push((start, len));
                proof {
                    lemma_lines_pieces_push(v@, old_out, (start, len));
                }
                assert(lines(rest) == seq![rest]);
                assert(lines(v@) =~= lines_pieces(v@, out@));
                return out;
            },
        }
    }
}

/// The pieces of `v` that the index pairs `r` pick out.
pub open spec fn lines_pieces(v: Seq<char>, r: Seq<(usize, usize)>) -> Seq<Seq<char>> {
    r.map_values(|p: (usize, usize)| v.subrange(p.0 as int, p.1 as int))
}

proof fn lemma_lines_pieces_push(v: Seq<char>, r: Seq<(usize, usize)>, p: (usize, usize))
    requires
        ranges_are(v, r, lines_pieces(v, r)),
        p.0 <= p.1 <= v.len(),
    ensures
        lines_pieces(v, r.push(p)) == lines_pieces(v, r).push(v.subrange(p.0 as int, p.1 as int)),
        ranges_are(v, r.push(p), lines_pieces(v, r.push(p))),
{
    assert(lines_pieces(v, r.push(p)) =~= lines_pieces(v, r).push(
        v.subrange(p.0 as int, p.1 as int),
    ));
}

/// Whether `v[from..to]` consists of the characters `b`.
pub fn range_eq(v: &[char], from: usize, to: usize, b: &[char]) -> (r: bool)
    requires
        from <= to <= v@.len(),
    ensures
        r == (v@.subrange(from as int, to as int) == b@),
{
    if to - from != b.len() {
        return false;
    }
    let mut i: usize = 0;
    while i < b.len()
        invariant
            from <= to <= v@.len(),
            to - from == b@.len(),
            0 <= i <= b@.len(),
            forall|j: int| 0 <= j < i ==> v@[from + j] == #[trigger] b@[j],
        decreases b@.len() - i,
    {
        if v[from + i] != b[i] {
            assert(v@.subrange(from as int, to as int)[i as int] != b@[i as int]);
            return false;
        }
        i += 1;
    }
    assert(v@.subrange(from as int, to as int) =~= b@);
    true
}

/// Whether `v[from..to]` begins with the characters `p`.
pub fn range_starts_with(v: &[char], from: usize, to: usize, p: &[char]) -> (r: bool)
    requires
        from <= to <= v@.len(),
    ensures
        r == starts_with(v@.subrange(from as int, to as int), p@),
{
    if to - from < p.len() {
        return false;
    }
    let r = range_eq(v, from, from + p.len(), p);
    assert(v@.subrange(from as int, to as int).take(p@.len() as int) =~= v@.subrange(
        from as int,
        from + p@.len(),
    ));
    r
}

/// Whether `s` is the text `lit`.
pub fn str_is(s: &str, lit: &str) -> (r: bool)
    ensures
        r == (s@ == lit@),
{
    let a = chars_of(s);
    let b = chars_of(lit);
    let r = range_eq(a.as_slice(), 0, a.len(), b.as_slice());
    assert(a@.subrange(0, a@.len() as int) =~= a@);
    r
}

/// Whether `s` begins with the text `lit`.
pub fn str_starts_with(s: &str, lit: &str) -> (r: bool)
    ensures
        r == starts_with(s@, lit@),
{
    let a = chars_of(s);
    let b = chars_of(lit);
    let r = range_starts_with(a.as_slice(), 0, a.len(), b.as_slice());
    assert(a@.subrange(0, a@.len() as int) =~= a@);
    r
}

/// Whether `s` ends with the text `lit`.
pub fn str_ends_with(s: &str, lit: &str) -> (r: bool)
    ensures
        r == ends_with(s@, lit@),
{
    let a = chars_of(s);
    let b = chars_of(lit);
    if a.len() < b.len() {
        return false;
    }
    let r = range_eq(a.as_slice(), a.len() - b.len(), a.len(), b.as_slice());
    assert(a@.subrange(a@.len() - b@.len(), a@.len() as int) =~= a@.skip(a@.len() - b@.len()));
    r
}

/// The index from which `v[from..to]` has no leading whitespace.
pub fn skip_ws(v: &[char], from: usize, to: usize) -> (lo: usize)
    requires
        from <= to <= v@.len(),
    ensures
        from <= lo <= to,
        v@.subrange(lo as int, to as int) == trim_start(v@.subrange(from as int, to as int)),
{
    let ghost s = v@.subrange(from as int, to as int);
    let mut lo = from;
    while lo < to && is_whitespace(v[lo])
        invariant
            from <= lo <= to <= v@.len(),
            s == v@.subrange(from as int, to as int),
            forall|j: int| from <= j < lo ==> is_ws(#[trigger] v@[j]),
        decreases to - lo,
    {
        lo += 1;
    }
    proof {
        assert forall|j: int| 0 <= j < lo - from implies is_ws(#[trigger] s[j]) by {
            assert(s[j] == v@[from + j]);
        }
        lemma_trim_start_skip(s, lo - from);
        assert(s.skip(lo - from) =~= v@.subrange(lo as int, to as int));
        if lo < to {
            assert(!is_ws(v@.subrange(lo as int, to as int)[0]));
        }
    }
    lo
}

/// The index up to which `v[from..to]` has no trailing whitespace.
pub fn cut_ws(v: &[char], from: usize, to: usize) -> (hi: usize)
    requires
        from <= to <= v@.len(),
    ensures
        from <= hi <= to,
        v@.subrange(from as int, hi as int) == trim_end(v@.subrange(from as int, to as int)),
{
    let ghost t = v@.subrange(from as int, to as int);
    let mut hi = to;
    while hi > from && is_whitespace(v[hi - 1])
        invariant
            from <= hi <= to <= v@.len(),
            t == v@.subrange(from as int, to as int),
            forall|j: int| hi <= j < to ==> is_ws(#[trigger] v@[j]),
        decreases hi - from,
    {
        hi -= 1;
    }
    proof {
        assert forall|j: int| hi - from <= j < t.len() implies is_ws(#[trigger] t[j]) by {
            assert(t[j] == v@[from + j]);
        }
        lemma_trim_end_take(t, hi - from);
        assert(t.take(hi - from) =~= v@.subrange(from as int, hi as int));
        if hi > from {
            assert(!is_ws(v@.subrange(from as int, hi as int).last()));
        }
    }
    hi
}

/// The first whitespace at or after `from` bounds the first word.
pub proof fn lemma_word_len(s: Seq<char>, i: int)
    requires
        0 <= i <= s.len(),
        forall|j: int| 0 <= j < i ==> !is_ws(#[trigger] s[j]),
        i == s.len() || is_ws(s[i]),
    ensures
        word_len(s) == i,
    decreases i,
{
    if i > 0 {
        lemma_word_len(s.drop_first(), i - 1);
    }
}

/// The end of the word that starts at `from`: the first whitespace in
/// `v[from..to]`, or `to`.
pub fn word_end(v: &[char], from: usize, to: usize) -> (e: usize)
    requires
        from <= to <= v@.len(),
    ensures
        from <= e <= to,
        e - from == word_len(v@.subrange(from as int, to as int)),
{
    let mut e = from;
    while e < to && !is_whitespace(v[e])
        invariant
            from <= e <= to <= v@.len(),
            forall|j: int| from <= j < e ==> !is_ws(#[trigger] v@[j]),
        decreases to - e,
    {
        e += 1;
    }
    proof {
        let s = v@.subrange(from as int, to as int);
        assert forall|j: int| 0 <= j < e - from implies !is_ws(#[trigger] s[j]) by {
            assert(s[j] == v@[from + j]);
        }
        if e < to {
            assert(s[e - from] == v@[e as int]);
        }
        lemma_word_len(s, e - from);
    }
    e
}

/// The whitespace-separated words of `v[from..to]`.
pub fn words_range(v: &[char], from: usize, to: usize) -> (r: Vec<String>)
    requires
        from <= to <= v@.len(),
    ensures
        r.deep_view() == words(v@.subrange(from as int, to as int)),
{
    let mut out: Vec<String> = Vec::new();
    let mut pos = from;
    assert(out.deep_view() =~= Seq::<Seq<char>>::empty());
    loop
        invariant
            from <= pos <= to <= v@.len(),
            words(v@.subrange(from as int, to as int)) == out.deep_view() + words(
                v@.subrange(pos as int, to as int),
            ),
        decreases to - pos,
    {
        let ghost s = v@.subrange(pos as int, to as int);
        let lo = skip_ws(v, pos, to);
        proof {
            lemma_trim_start_len(s);
        }
        if lo == to {
            assert(words(s) =~= Seq::<Seq<char>>::empty());
            assert(out.deep_view() + words(s) =~= out.deep_view());
            return out;
        }
        let hi = word_end(v, lo, to);
        let ghost t = v@.subrange(lo as int, to as int);
        proof {
            assert(!is_ws(v@[lo as int])) by {
                assert(t[0] == v@[lo as int]);
            }
            assert(hi > lo) by {
                assert(word_len(t) == 1 + word_len(t.drop_first()));
            }
            assert(t.take(hi - lo) =~= v@.subrange(lo as int, hi as int));
            assert(t.skip(hi - lo) =~= v@.subrange(hi as int, to as int));
            assert(words(s) == seq![t.take(hi - lo)] + words(t.skip(hi - lo)));
        }
        let w = string_of_range(v, lo, hi);
        let ghost before = out.deep_view();
        out.push(w);
        assert(out.deep_view() =~= before.push(w@));
        assert(before + words(s) =~= out.deep_view() + words(v@.subrange(hi as int, to as int)));
        pos = hi;
    }
}

/// The pieces `p` with `sep` between neighbours, as `[String]::join` gives them.
pub open spec fn join(p: Seq<Seq<char>>, sep: Seq<char>) -> Seq<char>
    decreases p.len(),
{
    if p.len() == 0 {
        Seq::empty()
    } else if p.len() == 1 {
        p[0]
    } else {
        p[0] + sep + join(p.drop_first(), sep)
    }
}

pub proof fn lemma_join_push(p: Seq<Seq<char>>, sep: Seq<char>, x: Seq<char>)
    ensures
        join(p.push(x), sep) == if p.len() == 0 {
            x
        } else {
            join(p, sep) + sep + x
        },
    decreases p.len(),
{
    if p.len() == 0 {
        assert(p.push(x).len() == 1);
        assert(p.push(x)[0] == x);
    } else if p.len() == 1 {
        assert(p.push(x).drop_first() =~= seq![x]);
        assert(join(seq![x], sep) == x);
        assert(join(p.push(x), sep) =~= join(p, sep) + sep + x);
    } else {
        lemma_join_push(p.drop_first(), sep, x);
        assert(p.push(x).drop_first() =~= p.drop_first().push(x));
        assert(join(p.push(x), sep) =~= join(p, sep) + sep + x);
    }
}

/// Splitting at `c` gives back the pieces that were joined with `c`, when
/// no piece holds `c`.
pub proof fn lemma_split_join(p: Seq<Seq<char>>, c: char)
    requires
        p.len() > 0,
        forall|i: int| 0 <= i < p.len() ==> !(#[trigger] p[i]).contains(c),
    ensures
        split(join(p, seq![c]), c) == p,
    decreases p.len(),
{
    let s = join(p, seq![c]);
    if p.len() == 1 {
        assert(!p[0].contains(c));
        lemma_split_once(s, c);
        assert(p =~= seq![s]);
    } else {
        let head = p[0];
        let rest = join(p.drop_first(), seq![c]);
        assert(s == head + seq![c] + rest);
        let i = head.len() as int;
        assert(!head.contains(c));
        assert forall|j: int| 0 <= j < i implies #[trigger] s[j] != c by {
            assert(s[j] == head[j]);
        }
        assert(s[i] == c);
        lemma_split_once_at(s, c, i);
        assert(s.take(i) =~= head);
        assert(s.skip(i + 1) =~= rest);
        assert forall|k: int| 0 <= k < p.drop_first().len() implies !(
        #[trigger] p.drop_first()[k]).contains(c) by {
            assert(p.drop_first()[k] == p[k + 1]);
        }
        lemma_split_join(p.drop_first(), c);
        assert(p =~= seq![head] + p.drop_first());
    }
}

/// No piece of a split at `c` holds `c`.
pub proof fn lemma_split_pieces(s: Seq<char>, c: char)
    ensures
        forall|i: int| 0 <= i < split(s, c).len() ==> !(#[trigger] split(s, c)[i]).contains(c),
    decreases s.len(),
{
    lemma_split_once(s, c);
    lemma_split_once_len(s, c);
    match split_once(s, c) {
        Some((a, b)) => {
            lemma_split_pieces(b, c);
            let p = split(s, c);
            assert(p == seq![a] + split(b, c));
            assert forall|i: int| 0 <= i < p.len() implies !(#[trigger] p[i]).contains(c) by {
                if i > 0 {
                    assert(p[i] == split(b, c)[i - 1]);
                }
            }
        },
        None => {
            assert(split(s, c) == seq![s]);
        },
    }
}

/// Splitting `a`, `c`, `b` at `c` gives the pieces of `a`, then those of `b`.
pub proof fn lemma_split_around(a: Seq<char>, b: Seq<char>, c: char)
    ensures
        split(a + seq![c] + b, c) == split(a, c) + split(b, c),
    decreases a.len(),
{
    let s = a + seq![c] + b;
    lemma_split_once(a, c);
    lemma_split_once_len(a, c);
    match split_once(a, c) {
        None => {
            assert forall|j: int| 0 <= j < a.len() implies #[trigger] s[j] != c by {
                assert(s[j] == a[j]);
                if a[j] == c {
                    assert(a.contains(c));
                }
            }
            lemma_split_once_at(s, c, a.len() as int);
            assert(s.take(a.len() as int) =~= a);
            assert(s.skip(a.len() + 1int) =~= b);
            assert(split(a, c) == seq![a]);
        },
        Some((a1, a2)) => {
            let t = a2 + seq![c] + b;
            assert(s =~= a1 + seq![c] + t);
            assert forall|j: int| 0 <= j < a1.len() implies #[trigger] s[j] != c by {
                assert(s[j] == a1[j]);
                if a1[j] == c {
                    assert(a1.contains(c));
                }
            }
            assert(s[a1.len() as int] == c);
            lemma_split_once_at(s, c, a1.len() as int);
            assert(s.take(a1.len() as int) =~= a1);
            assert(s.skip(a1.len() + 1int) =~= t);
            lemma_split_around(a2, b, c);
            assert(split(a, c) == seq![a1] + split(a2, c));
            assert(split(s, c) == seq![a1] + split(t, c));
            assert(split(s, c) =~= split(a, c) + split(b, c));
        },
    }
}

/// A piece without `c` that was joined with `c` is among the pieces that
/// splitting at `c` gives back, whatever the other pieces hold.
pub proof fn lemma_split_join_keeps(p: Seq<Seq<char>>, c: char, x: Seq<char>)
    requires
        p.contains(x),
        !x.contains(c),
    ensures
        split(join(p, seq![c]), c).contains(x),
    decreases p.len(),
{
    lemma_split_once(x, c);
    assert(split(x, c) == seq![x]);
    assert(seq![x][0] == x);
    if p.len() == 1 {
        assert(p[0] == x);
    } else {
        let rest = p.drop_first();
        assert(join(p, seq![c]) == p[0] + seq![c] + join(rest, seq![c]));
        lemma_split_around(p[0], join(rest, seq![c]), c);
        let l = split(p[0], c);
        let r = split(join(rest, seq![c]), c);
        if p[0] == x {
            assert((l + r)[0] == x);
        } else {
            let i = choose|i: int| 0 <= i < p.len() && p[i] == x;
            assert(rest[i - 1] == x);
            lemma_split_join_keeps(rest, c, x);
            let j = choose|j: int| 0 <= j < r.len() && r[j] == x;
            assert((l + r)[l.len() + j] == x);
        }
    }
}

/// The strings of `parts` with `sep` between neighbours.
pub fn join_with(parts: &Vec<String>, sep: &str) -> (r: String)
    ensures
        r@ == join(parts.deep_view(), sep@),
{
    let ghost p = parts.deep_view();
    let mut out = String::new();
    let mut i: usize = 0;
    while i < parts.len()
        invariant
            0 <= i <= parts@.len(),
            p == parts.deep_view(),
            out@ == join(p.take(i as int), sep@),
        decreases parts@.len() - i,
    {
        proof {
            lemma_join_push(p.take(i as int), sep@, p[i as int]);
            assert(p.take(i + 1) =~= p.take(i as int).push(p[i as int]));
        }
        if i > 0 {
            append(&mut out, sep);
        }
        append(&mut out, parts[i].as_str());
        i += 1;
    }
    assert(p.take(parts@.len() as int) =~= p);
    out
}

/// The decimal digit for `d < 10`.
pub open spec fn digit_char(d: nat) -> char {
    if d == 0 {
        '0'
    } else if d == 1 {
        '1'
    } else if d == 2 {
        '2'
    } else if d == 3 {
        '3'
    } else if d == 4 {
        '4'
    } else if d == 5 {
        '5'
    } else if d == 6 {
        '6'
    } else if d == 7 {
        '7'
    } else if d == 8 {
        '8'
    } else {
        '9'
    }
}

/// The decimal notation of `n`, as `Display` writes an integer.
pub open spec fn decimal(n: nat) -> Seq<char>
    decreases n,
{
    if n < 10 {
        seq![digit_char(n)]
    } else {
        decimal(n / 10).push(digit_char(n % 10))
    }
}

fn digit(d: u128) -> (c: char)
    requires
        d < 10,
    ensures
        c == digit_char(d as nat),
{
    if d == 0 {
        '0'
    } else if d == 1 {
        '1'
    } else if d == 2 {
        '2'
    } else if d == 3 {
        '3'
    } else if d == 4 {
        '4'
    } else if d == 5 {
        '5'
    } else if d == 6 {
        '6'
    } else if d == 7 {
        '7'
    } else if d == 8 {
        '8'
    } else {
        '9'
    }
}

/// The decimal notation of `n`.
pub fn decimal_text(n: u128) -> (r: String)
    ensures
        r@ == decimal(n as nat),
{
    // the digits, least significant first
    let mut rev: Vec<char> = Vec::new();
    let mut m = n;
    rev.push(digit(m % 10));
    proof {
        assert(rev@ =~= seq![digit_char((n % 10) as nat)]);
    }
    m = m / 10;
    // the notation of `n` is that of `m` (if any digits remain) followed
    // by `rev` reversed
    while m > 0
        invariant
            decimal(n as nat) == (if m == 0 {
                Seq::<char>::empty()
            } else {
                decimal(m as nat)
            }) + rev@.reverse(),
            rev@.len() > 0,
        decreases m,
    {
        let ghost before = rev@;
        let d = m % 10;
        rev.push(digit(d));
        proof {
            assert(rev@ =~= before.push(digit_char(d as nat)));
            assert(rev@.reverse() =~= seq![digit_char(d as nat)] + before.reverse());
            if m >= 10 {
                assert(decimal(m as nat) == decimal((m / 10) as nat).push(digit_char((m % 10) as nat)));
                assert(decimal(m as nat) =~= decimal((m / 10) as nat) + seq![digit_char(d as nat)]);
            } else {
                assert(decimal(m as nat) == seq![digit_char(m as nat)]);
            }
        }
        m = m / 10;
        proof {
            if m == 0 {
                assert(decimal(n as nat) =~= Seq::<char>::empty() + rev@.reverse());
            } else {
                assert(decimal(n as nat) =~= decimal(m as nat) + rev@.reverse());
            }
        }
    }
    let mut out = String::new();
    let mut i = rev.len();
    while i > 0
        invariant
            0 <= i <= rev@.len(),
            out@ == rev@.subrange(i as int, rev@.len() as int).reverse(),
        decreases i,
    {
        let ghost before = out@;
        append_char(&mut out, rev[i - 1]);
        assert(out@ =~= rev@.subrange(i - 1, rev@.len() as int).reverse());
        i -= 1;
    }
    assert(rev@.subrange(0, rev@.len() as int) =~= rev@);
    proof {
        assert(decimal(n as nat) =~= rev@.reverse());
    }
    out
}

/// Whether the text `lit` occurs in `s`.
pub fn str_contains(s: &str, lit: &str) -> (r: bool)
    ensures
        r == contains_seq(s@, lit@),
{
    let a = chars_of(s);
    let b = chars_of(lit);
    if a.len() < b.len() {
        proof {
            if contains_seq(s@, lit@) {
                let i = choose|i: int|
                    0 <= i && i + lit@.len() <= s@.len() && #[trigger] s@.subrange(i, i + lit@.len()) == lit@;
            }
        }
        return false;
    }
    let alen = a.len();
    let blen = b.len();
    let n = alen - blen;
    let mut i: usize = 0;
    loop
        invariant
            a@ == s@,
            b@ == lit@,
            alen == a@.len(),
            blen == b@.len(),
            blen <= alen,
            n == a@.len() - b@.len(),
            i <= n,
            forall|j: int| 0 <= j < i ==> #[trigger] a@.subrange(j, j + b@.len()) != b@,
        decreases n - i,
    {
        if range_eq(a.as_slice(), i, i + blen, b.as_slice()) {
            return true;
        }
        if i == n {
            proof {
                if contains_seq(s@, lit@) {
                    let j = choose|j: int|
                        0 <= j && j + lit@.len() <= s@.len() && #[trigger] s@.subrange(j, j + lit@.len())
                            == lit@;
                    assert(j <= i);
                }
            }
            return false;
        }
        i += 1;
    }
}

/// An ASCII decimal digit.
pub open spec fn is_digit(c: char) -> bool {
    '0' <= c && c <= '9'
}

/// The value of a run of ASCII decimal digits.
pub open spec fn digits_value(s: Seq<char>) -> nat
    decreases s.len(),
{
    if s.len() == 0 {
        0
    } else {
        digits_value(s.drop_last()) * 10 + ((s.last() as u32 - '0' as u32) as nat)
    }
}

/// The text after an optional leading `+`.
pub open spec fn unsigned_part(s: Seq<char>) -> Seq<char> {
    if s.len() > 0 && s[0] == '+' {
        s.drop_first()
    } else {
        s
    }
}

/// Every character is an ASCII digit.
pub open spec fn all_digits(d: Seq<char>) -> bool {
    forall|i: int| 0 <= i < d.len() ==> is_digit(#[trigger] d[i])
}

/// The number a text writes as `u64::from_str` reads it: an optional `+`,
/// then one or more ASCII digits, of a value that fits.
pub open spec fn u64_text_value(s: Seq<char>) -> Option<u64> {
    let d = unsigned_part(s);
    if d.len() > 0 && all_digits(d) && digits_value(d) <= u64::MAX {
        Some(digits_value(d) as u64)
    } else {
        None
    }
}

/// Reads a number as `u64::from_str` does.
pub fn parse_u64(s: &str) -> (r: Option<u64>)
    ensures
        r == u64_text_value(s@),
{
    let v = chars_of(s);
    let start: usize = if v.len() > 0 && v[0] == '+' {
        1
    } else {
        0
    };
    let ghost d = v@.skip(start as int);
    proof {
        if v@.len() > 0 && v@[0] == '+' {
            assert(d =~= s@.drop_first());
        } else {
            assert(d =~= s@);
        }
        assert(d == unsigned_part(s@));
    }
    if start == v.len() {
        return None;
    }
    let mut value: u64 = 0;
    let mut i = start;
    while i < v.len()
        invariant
            start <= i <= v@.len(),
            start < v@.len(),
            v@ == s@,
            d == v@.skip(start as int),
            d == unsigned_part(s@),
            forall|j: int| start <= j < i ==> is_digit(#[trigger] v@[j]),
            value == digits_value(v@.subrange(start as int, i as int)),
        decreases v@.len() - i,
    {
        let c = v[i];
        if !('0' <= c && c <= '9') {
            assert(d[i - start] == v@[i as int]);
            assert(!is_digit(d[i - start]));
            assert(!all_digits(d));
            return None;
        }
        let digit = (c as u32 - '0' as u32) as u64;
        proof {
            assert(v@.subrange(start as int, i + 1).drop_last() =~= v@.subrange(start as int, i as int));
            assert(v@.subrange(start as int, i + 1).last() == c);
        }
        if value > (u64::MAX - digit) / 10 {
            proof {
                assert(digits_value(v@.subrange(start as int, i + 1)) > u64::MAX) by (nonlinear_arith)
                    requires
                        value > (u64::MAX - digit) / 10,
                        digits_value(v@.subrange(start as int, i + 1)) == value * 10 + digit,
                        digit <= 9,
                ;
                assert(d.take(i + 1 - start) =~= v@.subrange(start as int, i + 1));
                // the rest is digits or not: either way no u64 results
                if all_digits(d) {
                    lemma_digits_value_prefix(d, i + 1 - start);
                }
            }
            return None;
        }
        value = value * 10 + digit;
        i += 1;
    }
    assert(v@.subrange(start as int, v@.len() as int) =~= d);
    Some(value)
}

/// A longer run of digits is worth at least as much as its prefix.
proof fn lemma_digits_value_prefix(d: Seq<char>, n: int)
    requires
        0 <= n <= d.len(),
        all_digits(d),
    ensures
        digits_value(d) >= digits_value(d.take(n)),
    decreases d.len(),
{
    if n < d.len() {
        let e = d.drop_last();
        assert forall|j: int| 0 <= j < e.len() implies is_digit(#[trigger] e[j]) by {
            assert(e[j] == d[j]);
        }
        assert(all_digits(e));
        lemma_digits_value_prefix(e, n);
        assert(e.take(n) =~= d.take(n));
        assert(digits_value(d) >= digits_value(e)) by (nonlinear_arith)
            requires
                digits_value(d) == digits_value(e) * 10 + ((d.last() as u32 - '0' as u32) as nat),
        ;
    } else {
        assert(d.take(n) =~= d);
    }
}

} // verus!
