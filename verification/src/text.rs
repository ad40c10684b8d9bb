//! Sequences of characters: searching, splitting into lines, joining, and
//! the order in which names are sorted.

use vstd::prelude::*;

verus! {

/// The index of the first `x` in `s`, or the length of `s` where there is none.
pub open spec fn first_index<T>(s: Seq<T>, x: T) -> int
    decreases s.len(),
{
    if s.len() == 0 {
        0
    } else if s[0] == x {
        0
    } else {
        1 + first_index(s.drop_first(), x)
    }
}

/// `first_index` is in range, nothing before it is `x`, and `x` stands at it
/// unless it is the length.
pub proof fn lemma_first_index<T>(s: Seq<T>, x: T)
    ensures
        0 <= first_index(s, x) <= s.len(),
        forall|j: int| 0 <= j < first_index(s, x) ==> s[j] != x,
        first_index(s, x) < s.len() ==> s[first_index(s, x)] == x,
        first_index(s, x) == s.len() <==> !s.contains(x),
    decreases s.len(),
{
    if s.len() == 0 {
    } else if s[0] == x {
    } else {
        let t = s.drop_first();
        lemma_first_index(t, x);
        assert forall|j: int| 0 <= j < first_index(s, x) implies s[j] != x by {
            if j > 0 {
                assert(s[j] == t[j - 1]);
            }
        }
        if first_index(t, x) < t.len() {
            assert(s[first_index(s, x)] == t[first_index(t, x)]);
        }
        if s.contains(x) {
            let k = choose|k: int| 0 <= k < s.len() && s[k] == x;
            assert(t[k - 1] == x);
        }
    }
}

/// An index with nothing equal to `x` before it, and `x` at it or the end of
/// `s`, is the first index.
pub proof fn lemma_first_index_is<T>(s: Seq<T>, x: T, i: int)
    requires
        0 <= i <= s.len(),
        forall|j: int| 0 <= j < i ==> s[j] != x,
        i < s.len() ==> s[i] == x,
    ensures
        first_index(s, x) == i,
{
    lemma_first_index(s, x);
    let f = first_index(s, x);
    if f < i {
    } else if f > i {
    }
}

/// Whether `s` begins with `p`.
pub open spec fn has_prefix(s: Seq<char>, p: Seq<char>) -> bool {
    p.len() <= s.len() && s.take(p.len() as int) == p
}

/// The pieces of `s` between the occurrences of `sep`: one more piece than
/// there are separators.
pub open spec fn split(s: Seq<char>, sep: char) -> Seq<Seq<char>>
    decreases s.len(),
{
    let i = first_index(s, sep);
    if 0 <= i < s.len() {
        seq![s.take(i)] + split(s.skip(i + 1), sep)
    } else {
        seq![s]
    }
}

/// The lines of `s`: its pieces between line feeds, without the empty piece
/// that follows a line feed at the very end.
pub open spec fn lines(s: Seq<char>) -> Seq<Seq<char>> {
    let pieces = split(s, '\n');
    if pieces.last().len() == 0 {
        pieces.drop_last()
    } else {
        pieces
    }
}

/// The pieces of `parts` with `sep` between each two of them.
pub open spec fn join(parts: Seq<Seq<char>>, sep: char) -> Seq<char>
    decreases parts.len(),
{
    if parts.len() == 0 {
        Seq::empty()
    } else if parts.len() == 1 {
        parts[0]
    } else {
        join(parts.drop_last(), sep) + seq![sep] + parts.last()
    }
}

/// The views of a vector of strings.
pub open spec fn string_views(v: Seq<String>) -> Seq<Seq<char>> {
    Seq::new(v.len(), |i: int| v[i]@)
}

/// The views of a vector of character vectors.
pub open spec fn views(v: Seq<Vec<char>>) -> Seq<Seq<char>> {
    Seq::new(v.len(), |i: int| v[i]@)
}

/// `split` always yields at least one piece.
pub proof fn lemma_split_nonempty(s: Seq<char>, sep: char)
    ensures
        split(s, sep).len() >= 1,
    decreases s.len(),
{
    lemma_first_index(s, sep);
    let i = first_index(s, sep);
    if 0 <= i < s.len() {
        lemma_split_nonempty(s.skip(i + 1), sep);
    }
}

/// Whether `p` stands in `s` from index `at` on, with a separator or an end
/// of `s` on either side.
pub open spec fn is_part(s: Seq<char>, p: Seq<char>, sep: char, at: int) -> bool {
    &&& 0 <= at
    &&& at + p.len() <= s.len()
    &&& s.subrange(at, at + p.len()) == p
    &&& (at == 0 || s[at - 1] == sep)
    &&& (at + p.len() == s.len() || s[at + p.len()] == sep)
}

/// A text without the separator is a piece of `s` exactly if it stands
/// somewhere in `s` between separators or ends.
pub proof fn lemma_split_contains(s: Seq<char>, p: Seq<char>, sep: char)
    requires
        !p.contains(sep),
    ensures
        split(s, sep).contains(p) <==> exists|at: int| is_part(s, p, sep, at),
    decreases s.len(),
{
    lemma_first_index(s, sep);
    let i = first_index(s, sep);
    let n = p.len() as int;
    if i < s.len() {
        let rest = s.skip(i + 1);
        let pieces = split(rest, sep);
        lemma_split_contains(rest, p, sep);
        assert(split(s, sep) == seq![s.take(i)] + pieces);
        if split(s, sep).contains(p) {
            let k = choose|k: int| 0 <= k < split(s, sep).len() && split(s, sep)[k] == p;
            if k == 0 {
                assert(s.subrange(0, n) =~= s.take(i));
                assert(is_part(s, p, sep, 0));
            } else {
                assert(pieces[k - 1] == p);
                let at = choose|at: int| is_part(rest, p, sep, at);
                assert(s.subrange(at + i + 1, at + i + 1 + n) =~= rest.subrange(at, at + n));
                if at > 0 {
                    assert(rest[at - 1] == s[at + i]);
                }
                if at + n < rest.len() {
                    assert(rest[at + n] == s[at + i + 1 + n]);
                }
                assert(is_part(s, p, sep, at + i + 1));
            }
        }
        if exists|at: int| is_part(s, p, sep, at) {
            let at = choose|at: int| is_part(s, p, sep, at);
            assert forall|j: int| at <= j < at + n implies #[trigger] s[j] != sep by {
                assert(s.subrange(at, at + n)[j - at] == p[j - at]);
            }
            if at == 0 {
                assert(i >= n);
                assert(n < s.len());
                assert(i == n);
                assert(s.take(i) =~= p);
                assert(split(s, sep)[0] == p);
            } else {
                assert(at - 1 >= i);
                let below = at - i - 1;
                assert(rest.subrange(below, below + n) =~= s.subrange(at, at + n));
                if below > 0 {
                    assert(rest[below - 1] == s[at - 1]);
                }
                if below + n < rest.len() {
                    assert(rest[below + n] == s[at + n]);
                }
                assert(is_part(rest, p, sep, below));
                let k = choose|k: int| 0 <= k < pieces.len() && pieces[k] == p;
                assert(split(s, sep)[k + 1] == p);
            }
        }
    } else {
        assert(split(s, sep) == seq![s]);
        if split(s, sep).contains(p) {
            assert(s.subrange(0, n) =~= s);
            assert(is_part(s, p, sep, 0));
        }
        if exists|at: int| is_part(s, p, sep, at) {
            let at = choose|at: int| is_part(s, p, sep, at);
            assert(at == 0);
            assert(n == s.len());
            assert(s.subrange(0, n) =~= s);
            assert(split(s, sep)[0] == p);
        }
    }
}

/// The characters of `s`.
pub fn chars_of(s: &str) -> (v: Vec<char>)
    ensures
        v@ == s@,
{
    let mut v: Vec<char> = Vec::new();
    let it = s.chars();
    for c in iter: it
        invariant
            v@ == iter.seq().take(iter.index() as int),
            iter.seq() == s@,
    {
        v.push(c);
    }
    v
}

/// The string made of `v[from..to]`.
pub(crate) fn string_of(v: &Vec<char>, from: usize, to: usize) -> (s: String)
    requires
        from <= to <= v.len(),
    ensures
        s@ == v@.subrange(from as int, to as int),
{
    let mut s = String::new();
    let mut i: usize = from;
    while i < to
        invariant
            from <= i <= to <= v.len(),
            s@ == v@.subrange(from as int, i as int),
        decreases to - i,
    {
        s.push(v[i]);
        i += 1;
        assert(v@.subrange(from as int, i as int) == v@.subrange(from as int, i - 1).push(
            v@[i - 1],
        ));
    }
    s
}

/// Whether `v`, from index `at` on, begins with `p`.
pub(crate) fn starts_with_at(v: &Vec<char>, at: usize, p: &Vec<char>) -> (r: bool)
    requires
        at <= v.len(),
    ensures
        r == has_prefix(v@.skip(at as int), p@),
{
    if p.len() > v.len() - at {
        return false;
    }
    let mut i: usize = 0;
    while i < p.len()
        invariant
            at <= v.len(),
            p.len() <= v.len() - at,
            i <= p.len(),
            forall|j: int| 0 <= j < i ==> v@[at + j] == p@[j],
        decreases p.len() - i,
    {
        if v[at + i] != p[i] {
            proof {
                let t = v@.skip(at as int).take(p@.len() as int);
                assert(t[i as int] == v@[at + i]);
            }
            return false;
        }
        i += 1;
    }
    assert(v@.skip(at as int).take(p@.len() as int) =~= p@);
    true
}

/// The index of the first `c` in `v` at or after `from`, or the length of
/// `v` where there is none.
pub(crate) fn find_from(v: &Vec<char>, from: usize, c: char) -> (i: usize)
    requires
        from <= v.len(),
    ensures
        from <= i <= v.len(),
        i - from == first_index(v@.skip(from as int), c),
{
    let mut i: usize = from;
    while i < v.len() && v[i] != c
        invariant
            from <= i <= v.len(),
            forall|j: int| from <= j < i ==> v@[j] != c,
        decreases v.len() - i,
    {
        i += 1;
    }
    proof {
        lemma_first_index_is(v@.skip(from as int), c, i - from);
    }
    i
}

/// The pieces of `v` between the occurrences of `sep`.
pub fn split_pieces(v: &Vec<char>, sep: char) -> (out: Vec<Vec<char>>)
    ensures
        views(out@) == split(v@, sep),
{
    let mut out: Vec<Vec<char>> = Vec::new();
    let mut start: usize = 0;
    assert(v@.skip(0) == v@);
    loop
        invariant
            start <= v.len(),
            split(v@, sep) == views(out@) + split(v@.skip(start as int), sep),
        decreases v.len() - start,
    {
        let end = find_from(v, start, sep);
        let piece = slice_of(v, start, end);
        proof {
            lemma_first_index(v@.skip(start as int), sep);
            assert(v@.skip(start as int).take(end - start) == v@.subrange(
                start as int,
                end as int,
            ));
            assert(views(out@.push(piece)) == views(out@) + seq![piece@]);
        }
        if end == v.len() {
            assert(v@.subrange(start as int, end as int) == v@.skip(start as int));
            out.push(piece);
            return out;
        }
        assert(v@.skip(start as int).skip(end - start + 1) == v@.skip(end + 1));
        out.push(piece);
        start = end + 1;
    }
}

/// The lines of `v`.
pub fn split_lines(v: &Vec<char>) -> (out: Vec<Vec<char>>)
    ensures
        views(out@) == lines(v@),
{
    let mut out = split_pieces(v, '\n');
    let ghost pieces = views(out@);
    proof {
        lemma_split_nonempty(v@, '\n');
    }
    if out[out.len() - 1].len() == 0 {
        let _ = out.pop();
        assert(views(out@) =~= pieces.drop_last());
    }
    out
}

/// Whether `a` and `b` hold the same characters.
pub(crate) fn same_chars(a: &Vec<char>, b: &Vec<char>) -> (r: bool)
    ensures
        r == (a@ == b@),
{
    if a.len() != b.len() {
        return false;
    }
    let mut i: usize = 0;
    while i < a.len()
        invariant
            i <= a.len() == b.len(),
            forall|j: int| 0 <= j < i ==> a@[j] == b@[j],
        decreases a.len() - i,
    {
        if a[i] != b[i] {
            return false;
        }
        i += 1;
    }
    assert(a@ =~= b@);
    true
}

/// A copy of `v[from..to]`.
pub(crate) fn slice_of(v: &Vec<char>, from: usize, to: usize) -> (out: Vec<char>)
    requires
        from <= to <= v.len(),
    ensures
        out@ == v@.subrange(from as int, to as int),
{
    let mut out: Vec<char> = Vec::new();
    let mut i: usize = from;
    while i < to
        invariant
            from <= i <= to <= v.len(),
            out@ == v@.subrange(from as int, i as int),
        decreases to - i,
    {
        out.push(v[i]);
        i += 1;
        assert(v@.subrange(from as int, i as int) == v@.subrange(from as int, i - 1).push(
            v@[i - 1],
        ));
    }
    out
}

} // verus!

verus! {

/// `lines[from..]` with `sep` between each two of them.
pub(crate) fn join_from(lines: &Vec<Vec<char>>, from: usize, sep: char) -> (out: String)
    requires
        from <= lines.len(),
    ensures
        out@ == join(views(lines@).skip(from as int), sep),
{
    let ghost parts = views(lines@).skip(from as int);
    let mut out = String::new();
    let mut i: usize = from;
    assert(parts.take(0) =~= Seq::empty());
    while i < lines.len()
        invariant
            from <= i <= lines.len(),
            parts == views(lines@).skip(from as int),
            out@ == join(parts.take(i - from), sep),
        decreases lines.len() - i,
    {
        if i > from {
            out.push(sep);
        }
        let line = &lines[i];
        let ghost before = out@;
        let mut j: usize = 0;
        while j < line.len()
            invariant
                j <= line.len(),
                out@ == before + line@.take(j as int),
            decreases line.len() - j,
        {
            out.push(line[j]);
            j += 1;
            assert(line@.take(j as int) == line@.take(j - 1).push(line@[j - 1]));
        }
        proof {
            assert(line@.take(line@.len() as int) == line@);
            assert(parts.take(i + 1 - from).drop_last() == parts.take(i - from));
            assert(parts.take(i + 1 - from).last() == line@);
        }
        i += 1;
    }
    assert(parts.take(lines@.len() - from) == parts);
    out
}

/// Whether `s` is one of `list`.
pub fn text_in(list: &Vec<String>, s: &str) -> (r: bool)
    ensures
        r == string_views(list@).contains(s@),
{
    let mut i: usize = 0;
    while i < list.len()
        invariant
            i <= list.len(),
            forall|j: int| 0 <= j < i ==> string_views(list@)[j] != s@,
        decreases list.len() - i,
    {
        if list[i].as_str().eq(s) {
            assert(string_views(list@)[i as int] == s@);
            return true;
        }
        i += 1;
    }
    false
}

} // verus!
