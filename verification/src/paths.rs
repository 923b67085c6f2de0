//! A model of how Unix paths are read: leading and trailing empty and `.`
//! components, the root, the file name and its stem.  The executable helpers
//! work on character vectors and are proved against the model.
use vstd::prelude::*;

verus! {

/// A path is absolute when it starts with the separator.
pub open spec fn has_root(p: Seq<char>) -> bool {
    p.len() > 0 && p[0] == '/'
}

/// Drops leading components that are empty or `.`.
pub open spec fn trim_front(s: Seq<char>) -> Seq<char>
    decreases s.len(),
{
    if s.len() == 0 {
        s
    } else if s[0] == '/' {
        trim_front(s.drop_first())
    } else if s[0] == '.' && s.len() == 1 {
        s.drop_first()
    } else if s[0] == '.' && s[1] == '/' {
        trim_front(s.skip(2))
    } else {
        s
    }
}

/// Drops trailing components that are empty or `.`.
pub open spec fn trim_back(s: Seq<char>) -> Seq<char>
    decreases s.len(),
{
    if s.len() == 0 {
        s
    } else if s.last() == '/' {
        trim_back(s.drop_last())
    } else if s.last() == '.' && s.len() == 1 {
        s.drop_last()
    } else if s.last() == '.' && s[s.len() - 2] == '/' {
        trim_back(s.take(s.len() - 2))
    } else {
        s
    }
}

/// An absolute path with its root removed, read back as a relative path.
pub open spec fn strip_root(p: Seq<char>) -> Seq<char> {
    trim_back(trim_front(p.drop_first()))
}

/// Joins a relative path onto a base, adding a separator unless the base is
/// empty or already ends with one.
pub open spec fn join_relative(base: Seq<char>, rel: Seq<char>) -> Seq<char> {
    if base.len() > 0 && base.last() != '/' {
        base + seq!['/'] + rel
    } else {
        base + rel
    }
}

/// Where the components after the root (or after a leading `.`) begin.
pub open spec fn body_start(p: Seq<char>) -> int {
    if has_root(p) {
        1
    } else if p.len() > 0 && p[0] == '.' && (p.len() == 1 || p[1] == '/') {
        1
    } else {
        0
    }
}

/// Where the last component that is neither empty nor `.` ends.
pub open spec fn body_end(p: Seq<char>) -> int {
    body_start(p) + trim_back(p.skip(body_start(p))).len()
}

/// The greatest index in `lo..hi` that holds `c`, or `lo - 1`.
pub open spec fn rfind(s: Seq<char>, c: char, lo: int, hi: int) -> int
    decreases hi - lo,
{
    if hi <= lo {
        lo - 1
    } else if s[hi - 1] == c {
        hi - 1
    } else {
        rfind(s, c, lo, hi - 1)
    }
}

/// Where the last component begins.
pub open spec fn name_start(p: Seq<char>) -> int {
    rfind(p, '/', body_start(p), body_end(p)) + 1
}

/// The path has a file name: a last component that is not `..`.
pub open spec fn has_file_name(p: Seq<char>) -> bool {
    &&& body_end(p) > body_start(p)
    &&& p.subrange(name_start(p), body_end(p)) != seq!['.', '.']
}

/// Where the stem of the file name ends: before its last dot, unless that
/// dot is the name's first character or there is none.
pub open spec fn stem_end(p: Seq<char>) -> int {
    let d = rfind(p, '.', name_start(p), body_end(p));
    if d > name_start(p) {
        d
    } else {
        body_end(p)
    }
}

/// The extension `md`, with its dot.
pub open spec fn md_suffix() -> Seq<char> {
    seq!['.', 'm', 'd']
}

/// The path with its file name's extension set to `md`; a path without a
/// file name is left as it is.
pub open spec fn with_md_extension(p: Seq<char>) -> Seq<char> {
    if has_file_name(p) {
        p.take(stem_end(p)) + md_suffix()
    } else {
        p
    }
}

proof fn lemma_skip_drop_first(s: Seq<char>, i: int)
    requires
        0 <= i < s.len(),
    ensures
        s.skip(i).drop_first() == s.skip(i + 1),
        s.skip(i).len() >= 2 ==> s.skip(i).skip(2) == s.skip(i + 2),
{
    assert(s.skip(i).drop_first() =~= s.skip(i + 1));
    if s.skip(i).len() >= 2 {
        assert(s.skip(i).skip(2) =~= s.skip(i + 2));
    }
}

/// Index `i` such that `v[i..]` is `v[start..]` with its leading empty and
/// `.` components dropped.
pub fn trim_front_index(v: &Vec<char>, start: usize) -> (i: usize)
    requires
        start <= v.len(),
    ensures
        start <= i <= v.len(),
        v@.skip(i as int) == trim_front(v@.skip(start as int)),
{
    let mut i = start;
    while i < v.len()
        invariant
            start <= i <= v.len(),
            trim_front(v@.skip(i as int)) == trim_front(v@.skip(start as int)),
        decreases v.len() - i,
    {
        proof { lemma_skip_drop_first(v@, i as int); }
        if v[i] == '/' {
            i = i + 1;
        } else if v[i] == '.' && i + 1 == v.len() {
            i = i + 1;
        } else if v[i] == '.' && v[i + 1] == '/' {
            i = i + 2;
        } else {
            return i;
        }
    }
    assert(v@.skip(i as int) =~= Seq::<char>::empty());
    i
}

proof fn lemma_sub_drop_last(s: Seq<char>, lo: int, e: int)
    requires
        0 <= lo < e <= s.len(),
    ensures
        s.subrange(lo, e).drop_last() == s.subrange(lo, e - 1),
        e - lo >= 2 ==> s.subrange(lo, e).take(e - lo - 2) == s.subrange(lo, e - 2),
{
    assert(s.subrange(lo, e).drop_last() =~= s.subrange(lo, e - 1));
    if e - lo >= 2 {
        assert(s.subrange(lo, e).take(e - lo - 2) =~= s.subrange(lo, e - 2));
    }
}

/// Index `e` such that `v[lo..e]` is `v[lo..hi]` with its trailing empty and
/// `.` components dropped.
pub fn trim_back_index(v: &Vec<char>, lo: usize, hi: usize) -> (e: usize)
    requires
        lo <= hi <= v.len(),
    ensures
        lo <= e <= hi,
        v@.subrange(lo as int, e as int) == trim_back(v@.subrange(lo as int, hi as int)),
{
    let mut e = hi;
    while e > lo
        invariant
            lo <= e <= hi <= v.len(),
            trim_back(v@.subrange(lo as int, e as int)) == trim_back(v@.subrange(lo as int, hi as int)),
        decreases e,
    {
        proof { lemma_sub_drop_last(v@, lo as int, e as int); }
        if v[e - 1] == '/' {
            e = e - 1;
        } else if v[e - 1] == '.' && e - 1 == lo {
            e = e - 1;
        } else if v[e - 1] == '.' && v[e - 2] == '/' {
            e = e - 2;
        } else {
            return e;
        }
    }
    assert(v@.subrange(lo as int, e as int) =~= Seq::<char>::empty());
    e
}

/// One past the greatest index in `lo..hi` holding `c`, or `lo`.
pub fn rfind_after(v: &Vec<char>, c: char, lo: usize, hi: usize) -> (r: usize)
    requires
        lo <= hi <= v.len(),
    ensures
        r == rfind(v@, c, lo as int, hi as int) + 1,
{
    let mut j = hi;
    while j > lo
        invariant
            lo <= j <= hi <= v.len(),
            rfind(v@, c, lo as int, j as int) == rfind(v@, c, lo as int, hi as int),
        decreases j,
    {
        if v[j - 1] == c {
            assert(rfind(v@, c, lo as int, j as int) == j - 1);
            return j;
        }
        j = j - 1;
    }
    lo
}

pub proof fn lemma_rfind_bounds(s: Seq<char>, c: char, lo: int, hi: int)
    requires
        lo <= hi,
    ensures
        lo - 1 <= rfind(s, c, lo, hi) < hi,
        rfind(s, c, lo, hi) >= lo ==> s[rfind(s, c, lo, hi)] == c,
    decreases hi - lo,
{
    if hi > lo && s[hi - 1] != c {
        lemma_rfind_bounds(s, c, lo, hi - 1);
    }
}

pub proof fn lemma_rfind_shift(j: Seq<char>, c: char, lo: int, hi: int)
    requires
        0 <= lo <= hi <= j.len(),
    ensures
        rfind(seq!['/'] + j, c, lo + 1, hi + 1) == rfind(j, c, lo, hi) + 1,
    decreases hi - lo,
{
    if hi > lo {
        assert((seq!['/'] + j)[hi] == j[hi - 1]);
        if j[hi - 1] != c {
            lemma_rfind_shift(j, c, lo, hi - 1);
        }
    }
}

/// Putting a root in front of a path that starts with a name moves where its
/// extension is set by one and changes nothing else.
#[verifier::rlimit(30)]
pub proof fn lemma_md_extension_under_root(j: Seq<char>)
    requires
        body_start(j) == 0,
    ensures
        with_md_extension(seq!['/'] + j) == seq!['/'] + with_md_extension(j),
        has_file_name(seq!['/'] + j) == has_file_name(j),
{
    let rj = seq!['/'] + j;
    assert(has_root(rj));
    assert(rj.skip(1) =~= j);
    assert(j.skip(0) =~= j);
    let be = body_end(j);
    assert(body_end(rj) == be + 1);
    lemma_trim_back_len(j);
    lemma_rfind_bounds(j, '/', 0, be);
    lemma_rfind_shift(j, '/', 0, be);
    let ns = name_start(j);
    assert(name_start(rj) == ns + 1);
    if be > 0 {
        assert(rj.subrange(ns + 1, be + 1) =~= j.subrange(ns, be));
    }
    if ns <= be {
        lemma_rfind_shift(j, '.', ns, be);
        assert(stem_end(rj) == stem_end(j) + 1);
        lemma_rfind_bounds(j, '.', ns, be);
        assert(rj.take(stem_end(j) + 1) =~= seq!['/'] + j.take(stem_end(j)));
    }
    assert(seq!['/'] + j.take(stem_end(j)) + md_suffix() =~= seq!['/'] + (j.take(stem_end(j)) + md_suffix()));
}

/// The stem of a path ends within it.
pub proof fn lemma_stem_end_bounds(p: Seq<char>)
    ensures
        0 <= stem_end(p) <= p.len(),
{
    let bs = body_start(p);
    lemma_trim_back_len(p.skip(bs));
    let be = body_end(p);
    lemma_rfind_bounds(p, '/', bs, be);
    let ns = name_start(p);
    lemma_rfind_bounds(p, '.', ns, be);
}

proof fn lemma_trim_back_shape(s: Seq<char>)
    ensures
        trim_back(s) == s.take(trim_back(s).len() as int),
        trim_back(s).len() <= s.len(),
        trim_back(s).len() > 0 ==> trim_back(s).last() != '/',
    decreases s.len(),
{
    if s.len() == 0 {
        assert(s.take(0) =~= s);
    } else if s.last() == '/' {
        lemma_trim_back_shape(s.drop_last());
        let k = trim_back(s.drop_last()).len() as int;
        assert(s.drop_last().take(k) =~= s.take(k));
    } else if s.last() == '.' && s.len() == 1 {
        assert(s.drop_last() =~= s.take(0));
    } else if s.last() == '.' && s[s.len() - 2] == '/' {
        lemma_trim_back_shape(s.take(s.len() - 2));
        let k = trim_back(s.take(s.len() - 2)).len() as int;
        assert(s.take(s.len() - 2).take(k) =~= s.take(k));
    } else {
        assert(s.take(s.len() as int) =~= s);
    }
}

proof fn lemma_trim_back_twice(s: Seq<char>)
    ensures
        trim_back(trim_back(s)) == trim_back(s),
    decreases s.len(),
{
    if s.len() > 0 {
        if s.last() == '/' {
            lemma_trim_back_twice(s.drop_last());
        } else if s.last() == '.' && s.len() == 1 {
        } else if s.last() == '.' && s[s.len() - 2] == '/' {
            lemma_trim_back_twice(s.take(s.len() - 2));
        }
    }
}

proof fn lemma_trim_back_append(x: Seq<char>, t: Seq<char>)
    requires
        trim_back(t).len() > 0,
    ensures
        trim_back(x + t) == x + trim_back(t),
    decreases t.len(),
{
    let xt = x + t;
    let l = xt.len() as int;
    assert(xt.last() == t.last());
    if t.last() == '/' {
        assert(xt.drop_last() =~= x + t.drop_last());
        lemma_trim_back_append(x, t.drop_last());
    } else if t.last() == '.' && t.len() == 1 {
    } else if t.last() == '.' && t[t.len() - 2] == '/' {
        assert(xt[l - 2] == t[t.len() - 2]);
        assert(xt.take(l - 2) =~= x + t.take(t.len() - 2));
        lemma_trim_back_append(x, t.take(t.len() - 2));
    } else {
        if t.last() == '.' {
            assert(xt[l - 2] == t[t.len() - 2]);
        }
    }
}

proof fn lemma_trim_back_keeps_first(s: Seq<char>)
    requires
        s.len() > 0,
        s[0] != '/',
        !(s[0] == '.' && (s.len() == 1 || s[1] == '/')),
    ensures
        trim_back(s).len() > 0,
    decreases s.len(),
{
    if s.last() == '/' {
        assert(s.drop_last()[0] == s[0]);
        if s.drop_last().len() > 1 {
            assert(s.drop_last()[1] == s[1]);
        }
        lemma_trim_back_keeps_first(s.drop_last());
    } else if s.last() == '.' && s.len() > 1 && s[s.len() - 2] == '/' {
        let u = s.take(s.len() - 2);
        assert(u[0] == s[0]);
        if u.len() > 1 {
            assert(u[1] == s[1]);
        }
        lemma_trim_back_keeps_first(u);
    }
}

/// A trailing separator or `.` component at the end of a path that has a
/// file name changes nothing in how its extension is set.
pub proof fn lemma_md_extension_trailing(x: Seq<char>, t: Seq<char>)
    requires
        body_start(x + t) == 0,
        t.len() > 0,
        t[0] != '/',
        !(t[0] == '.' && (t.len() == 1 || t[1] == '/')),
        has_file_name(x + t),
    ensures
        with_md_extension(x + trim_back(t)) == with_md_extension(x + t),
        body_start(x + trim_back(t)) == 0,
{
    let j = x + t;
    let tb = trim_back(t);
    let j2 = x + tb;
    lemma_trim_back_keeps_first(t);
    lemma_trim_back_append(x, t);
    lemma_trim_back_twice(t);
    lemma_trim_back_append(x, tb);
    lemma_trim_back_shape(t);
    let l = trim_back(j).len() as int;
    assert(trim_back(j) == j2);
    assert(trim_back(j2) == j2);
    assert(j2 =~= j.take(l));
    if x.len() > 0 {
        assert(j2[0] == j[0]);
        if x.len() > 1 {
            assert(j2[1] == j[1]);
        } else {
            assert(j2[1] == tb[0] && j[1] == t[0]);
        }
    } else {
        assert(j2[0] == tb[0] && tb[0] == t[0]);
        if tb.len() > 1 {
            assert(j2[1] == j[1]);
        }
    }
    assert(j.skip(0) =~= j);
    assert(j2.skip(0) =~= j2);
    assert(body_end(j) == l);
    assert(body_end(j2) == l);
    assert forall|i: int| 0 <= i < l implies #[trigger] j[i] == j2[i] by {}
    lemma_rfind_same(j, j2, '/', 0, l);
    let ns = name_start(j);
    lemma_rfind_bounds(j, '/', 0, l);
    lemma_rfind_same(j, j2, '.', ns, l);
    assert(j.subrange(ns, l) =~= j2.subrange(ns, l));
    lemma_file_name_bounds(j);
    assert(j.take(stem_end(j)) =~= j2.take(stem_end(j)));
}

/// No `c` lies after what `rfind` finds, up to `hi`.
pub proof fn lemma_rfind_after(s: Seq<char>, c: char, lo: int, hi: int)
    ensures
        forall|i: int| rfind(s, c, lo, hi) < i < hi ==> #[trigger] s[i] != c,
    decreases hi - lo,
{
    if hi > lo && s[hi - 1] != c {
        lemma_rfind_after(s, c, lo, hi - 1);
    }
}

/// `rfind` reads only the characters of its range.
pub proof fn lemma_rfind_same(s: Seq<char>, t: Seq<char>, c: char, lo: int, hi: int)
    requires
        forall|i: int| lo <= i < hi ==> #[trigger] s[i] == t[i],
    ensures
        rfind(s, c, lo, hi) == rfind(t, c, lo, hi),
    decreases hi - lo,
{
    if hi > lo {
        assert(s[hi - 1] == t[hi - 1]);
        lemma_rfind_same(s, t, c, lo, hi - 1);
    }
}

/// A tail without `c` does not change what `rfind` finds.
pub proof fn lemma_rfind_skip_tail(s: Seq<char>, c: char, lo: int, mid: int, hi: int)
    requires
        lo <= mid <= hi,
        forall|i: int| mid <= i < hi ==> #[trigger] s[i] != c,
    ensures
        rfind(s, c, lo, hi) == rfind(s, c, lo, mid),
    decreases hi - mid,
{
    if hi > mid {
        assert(s[hi - 1] != c);
        lemma_rfind_skip_tail(s, c, lo, mid, hi - 1);
    }
}

/// Where the file name and its stem lie: the name starts in the body, holds
/// no separator, and its stem is not empty.
pub proof fn lemma_file_name_bounds(p: Seq<char>)
    requires
        has_file_name(p),
    ensures
        body_start(p) <= name_start(p) < stem_end(p) <= body_end(p) <= p.len(),
        forall|i: int| name_start(p) <= i < body_end(p) ==> #[trigger] p[i] != '/',
        name_start(p) > body_start(p) ==> p[name_start(p) - 1] == '/',
{
    let bs = body_start(p);
    let t = p.skip(bs);
    lemma_trim_back_shape(t);
    let be = body_end(p);
    assert(p[be - 1] == trim_back(t).last());
    lemma_rfind_bounds(p, '/', bs, be);
    lemma_rfind_after(p, '/', bs, be);
    let ns = name_start(p);
    lemma_rfind_bounds(p, '.', ns, be);
}

proof fn lemma_trim_back_len(s: Seq<char>)
    ensures
        trim_back(s).len() <= s.len(),
    decreases s.len(),
{
    if s.len() > 0 {
        if s.last() == '/' {
            lemma_trim_back_len(s.drop_last());
        } else if s.last() == '.' && s.len() > 1 && s[s.len() - 2] == '/' {
            lemma_trim_back_len(s.take(s.len() - 2));
        }
    }
}

/// `body_start` of a path, computed.
pub fn body_start_index(v: &Vec<char>) -> (b: usize)
    ensures
        b == body_start(v@),
        b <= v.len(),
{
    if v.len() > 0 && v[0] == '/' {
        1
    } else if v.len() > 0 && v[0] == '.' && (v.len() == 1 || v[1] == '/') {
        1
    } else {
        0
    }
}

/// Sets the extension of the path in `v` to `md`, as `with_md_extension`.
pub fn set_md_extension(v: &Vec<char>) -> (r: Vec<char>)
    ensures
        r@ == with_md_extension(v@),
{
    let bs = body_start_index(v);
    let be = trim_back_index(v, bs, v.len());
    assert(v@.subrange(bs as int, v.len() as int) =~= v@.skip(bs as int));
    assert(be == body_end(v@));
    if be <= bs {
        return v.clone();
    }
    let ns = rfind_after(v, '/', bs, be);
    proof { lemma_rfind_bounds(v@, '/', bs as int, be as int); }
    assert(ns == name_start(v@));
    if be - ns == 2 && v[ns] == '.' && v[ns + 1] == '.' {
        assert(v@.subrange(ns as int, be as int) =~= seq!['.', '.']);
        return v.clone();
    }
    assert(v@.subrange(ns as int, be as int) != seq!['.', '.']) by {
        let name = v@.subrange(ns as int, be as int);
        assert(name.len() == be - ns);
        if name == seq!['.', '.'] {
            assert(name[0] == v@[ns as int]);
            assert(name[1] == v@[ns + 1]);
        }
    }
    let dot = rfind_after(v, '.', ns, be);
    proof { lemma_rfind_bounds(v@, '.', ns as int, be as int); }
    let se: usize = if dot > ns && dot - 1 > ns { dot - 1 } else { be };
    assert(se == stem_end(v@));
    let mut r: Vec<char> = Vec::new();
    crate::text::extend_from_range(&mut r, v, 0, se);
    r.push('.');
    r.push('m');
    r.push('d');
    assert(v@.subrange(0, se as int) =~= v@.take(se as int));
    assert(r@ =~= v@.take(se as int) + md_suffix());
    r
}


/// The first separator at or after `st`, or the end of `s`.
pub open spec fn next_separator(s: Seq<char>, st: int) -> int
    decreases s.len() - st,
{
    if st >= s.len() {
        s.len() as int
    } else if s[st] == '/' {
        st
    } else {
        next_separator(s, st + 1)
    }
}

/// The components of `s` from index `st` on: the pieces between separators,
/// without the empty ones and those that are `.`.
pub open spec fn body_components(s: Seq<char>, st: int) -> Seq<Seq<char>>
    decreases s.len() - st,
{
    if st < 0 || st >= s.len() {
        Seq::empty()
    } else {
        let e = next_separator(s, st);
        let c = s.subrange(st, e);
        let rest = if st <= e < s.len() { body_components(s, e + 1) } else { Seq::empty() };
        if c.len() == 0 || c == seq!['.'] {
            rest
        } else {
            seq![c] + rest
        }
    }
}

/// The components of a path, each by its text: `/` for the root, `.` for a
/// leading current directory, then the body's components.
pub open spec fn components(p: Seq<char>) -> Seq<Seq<char>> {
    if has_root(p) {
        seq![seq!['/']] + body_components(p, 1)
    } else if p.len() > 0 && p[0] == '.' && (p.len() == 1 || p[1] == '/') {
        seq![seq!['.']] + body_components(p, 1)
    } else {
        body_components(p, 0)
    }
}

/// `p` starts with `base`, component by component.
pub open spec fn path_starts_with(p: Seq<char>, base: Seq<char>) -> bool {
    let a = components(p);
    let b = components(base);
    b.len() <= a.len() && a.take(b.len() as int) == b
}

proof fn lemma_next_separator(s: Seq<char>, st: int)
    requires
        0 <= st <= s.len(),
    ensures
        st <= next_separator(s, st) <= s.len(),
    decreases s.len() - st,
{
    if st < s.len() && s[st] != '/' {
        lemma_next_separator(s, st + 1);
    }
}

/// The contents of a list of character vectors.
pub open spec fn char_vecs(v: Seq<Vec<char>>) -> Seq<Seq<char>> {
    v.map_values(|c: Vec<char>| c@)
}

/// The components of `v` from `st` on, computed.
fn body_components_of(v: &Vec<char>, st: usize) -> (r: Vec<Vec<char>>)
    requires
        st <= v.len(),
    ensures
        char_vecs(r@) == body_components(v@, st as int),
{
    let mut r: Vec<Vec<char>> = Vec::new();
    let mut i = st;
    assert(char_vecs(r@) + body_components(v@, i as int) =~= body_components(v@, st as int));
    while i < v.len()
        invariant
            st <= i <= v.len(),
            char_vecs(r@) + body_components(v@, i as int) == body_components(v@, st as int),
        decreases v.len() - i,
    {
        let mut e = i;
        while e < v.len() && v[e] != '/'
            invariant
                i <= e <= v.len(),
                next_separator(v@, e as int) == next_separator(v@, i as int),
            decreases v.len() - e,
        {
            e = e + 1;
        }
        proof { lemma_next_separator(v@, i as int); }
        let ghost before = char_vecs(r@);
        let ghost rest = if e < v.len() { body_components(v@, e + 1) } else { Seq::<Seq<char>>::empty() };
        let empty_or_dot = e == i || (e == i + 1 && v[i] == '.');
        proof {
            let c = v@.subrange(i as int, e as int);
            assert(c.len() == e - i);
            if c.len() == 1 {
                assert(c[0] == v@[i as int]);
                if v@[i as int] == '.' {
                    assert(c =~= seq!['.']);
                } else {
                    assert(c[0] != seq!['.'][0]);
                }
            }
            if c == seq!['.'] {
                assert(c.len() == 1);
            }
            assert(empty_or_dot == (c.len() == 0 || c == seq!['.']));
        }
        if !empty_or_dot {
            let mut c: Vec<char> = Vec::new();
            crate::text::extend_from_range(&mut c, v, i, e);
            r.push(c);
            assert(char_vecs(r@) =~= before.push(v@.subrange(i as int, e as int)));
        }
        if e < v.len() {
            i = e + 1;
        } else {
            i = e;
            assert(body_components(v@, i as int) =~= Seq::<Seq<char>>::empty());
        }
        assert(char_vecs(r@) + body_components(v@, i as int) =~= body_components(v@, st as int));
    }
    assert(char_vecs(r@) =~= char_vecs(r@) + body_components(v@, i as int));
    r
}

/// The components of the path `v`, computed.
pub fn components_of(v: &Vec<char>) -> (r: Vec<Vec<char>>)
    ensures
        char_vecs(r@) == components(v@),
{
    if v.len() > 0 && v[0] == '/' {
        let mut r = body_components_of(v, 1);
        let ghost body = r@;
        let mut root: Vec<char> = Vec::new();
        root.push('/');
        r.insert(0, root);
        assert(char_vecs(r@) =~= seq![seq!['/']] + char_vecs(body));
        r
    } else if v.len() > 0 && v[0] == '.' && (v.len() == 1 || v[1] == '/') {
        let mut r = body_components_of(v, 1);
        let ghost body = r@;
        let mut cur: Vec<char> = Vec::new();
        cur.push('.');
        r.insert(0, cur);
        assert(char_vecs(r@) =~= seq![seq!['.']] + char_vecs(body));
        r
    } else {
        body_components_of(v, 0)
    }
}

/// Whether `path` starts with `base`, component by component, as
/// `Path::starts_with` does.
pub fn starts_with_path(path: &Vec<char>, base: &Vec<char>) -> (r: bool)
    ensures
        r == path_starts_with(path@, base@),
{
    let a = components_of(path);
    let b = components_of(base);
    let ghost av = char_vecs(a@);
    let ghost bv = char_vecs(b@);
    assert(av.len() == a@.len() && bv.len() == b@.len());
    if b.len() > a.len() {
        return false;
    }
    let mut k: usize = 0;
    while k < b.len()
        invariant
            k <= b.len() <= a.len(),
            av == char_vecs(a@),
            bv == char_vecs(b@),
            av == components(path@),
            bv == components(base@),
            av.len() == a@.len() && bv.len() == b@.len(),
            forall|j: int| 0 <= j < k ==> av[j] == bv[j],
        decreases b.len() - k,
    {
        assert(av[k as int] == a@[k as int]@);
        assert(bv[k as int] == b@[k as int]@);
        if !crate::text::chars_eq(&a[k], &b[k]) {
            assert(av.take(bv.len() as int)[k as int] != bv[k as int]);
            assert(av.take(bv.len() as int) != bv);
            return false;
        }
        k = k + 1;
    }
    assert(av.take(bv.len() as int) =~= bv);
    true
}


/// The file name of a path that has one: its last component.
pub open spec fn file_name(p: Seq<char>) -> Seq<char> {
    p.subrange(name_start(p), body_end(p))
}

/// The file name of the path `v`, as `Path::file_name` gives it.
pub fn file_name_of(v: &Vec<char>) -> (r: Option<Vec<char>>)
    ensures
        r is Some <==> has_file_name(v@),
        r matches Some(n) ==> n@ == file_name(v@),
{
    let bs = body_start_index(v);
    let be = trim_back_index(v, bs, v.len());
    assert(v@.subrange(bs as int, v.len() as int) =~= v@.skip(bs as int));
    assert(be == body_end(v@));
    if be <= bs {
        return None;
    }
    let ns = rfind_after(v, '/', bs, be);
    proof { lemma_rfind_bounds(v@, '/', bs as int, be as int); }
    assert(ns == name_start(v@));
    if be - ns == 2 && v[ns] == '.' && v[ns + 1] == '.' {
        assert(v@.subrange(ns as int, be as int) =~= seq!['.', '.']);
        return None;
    }
    assert(v@.subrange(ns as int, be as int) != seq!['.', '.']) by {
        let name = v@.subrange(ns as int, be as int);
        assert(name.len() == be - ns);
        if name == seq!['.', '.'] {
            assert(name[0] == v@[ns as int]);
            assert(name[1] == v@[ns + 1]);
        }
    }
    let mut n: Vec<char> = Vec::new();
    crate::text::extend_from_range(&mut n, v, ns, be);
    assert(n@ =~= file_name(v@));
    Some(n)
}

/// The order of path components: the root, then `.`, then `..`, then
/// names, which go by their characters.
pub open spec fn component_rank(c: Seq<char>) -> int {
    if c == seq!['/'] {
        1
    } else if c == seq!['.'] {
        2
    } else if c == seq!['.', '.'] {
        3
    } else {
        4
    }
}

/// `a` comes before `b`, character by character.
pub open spec fn chars_lt(a: Seq<char>, b: Seq<char>) -> bool
    decreases a.len(),
{
    if a.len() == 0 {
        b.len() > 0
    } else if b.len() == 0 {
        false
    } else if a[0] != b[0] {
        a[0] < b[0]
    } else {
        chars_lt(a.drop_first(), b.drop_first())
    }
}

/// `a` and `b` first differ at `i`, where `a` has the smaller character.
pub open spec fn smaller_at(a: Seq<char>, b: Seq<char>, i: int) -> bool {
    &&& 0 <= i < a.len()
    &&& i < b.len()
    &&& a.take(i) == b.take(i)
    &&& a[i] < b[i]
}

/// `a` is a proper prefix of `b`.
pub open spec fn proper_prefix(a: Seq<char>, b: Seq<char>) -> bool {
    a.len() < b.len() && b.take(a.len() as int) == a
}

/// `chars_lt` is the lexicographic order of characters: `a` comes before `b`
/// exactly when, at the first place where they differ, `a` has the smaller
/// character, or when `a` is a proper prefix of `b`.
pub proof fn law_chars_lt_lexicographic(a: Seq<char>, b: Seq<char>)
    ensures
        chars_lt(a, b) <==> ((exists|i: int| #[trigger] smaller_at(a, b, i)) || proper_prefix(a, b)),
    decreases a.len(),
{
    if a.len() == 0 {
        if b.len() > 0 {
            assert(b.take(0) =~= a);
        }
        assert forall|i: int| !#[trigger] smaller_at(a, b, i) by {}
    } else if b.len() == 0 {
        assert forall|i: int| !#[trigger] smaller_at(a, b, i) by {}
    } else if a[0] != b[0] {
        if a[0] < b[0] {
            assert(a.take(0) =~= b.take(0));
            assert(smaller_at(a, b, 0));
        } else {
            assert forall|i: int| !#[trigger] smaller_at(a, b, i) by {
                if 0 < i < a.len() && i < b.len() && a.take(i) == b.take(i) {
                    assert(a.take(i)[0] == b.take(i)[0]);
                }
            }
            if proper_prefix(a, b) {
                assert(b.take(a.len() as int)[0] == a[0]);
            }
        }
    } else {
        let (ta, tb) = (a.drop_first(), b.drop_first());
        law_chars_lt_lexicographic(ta, tb);
        if chars_lt(a, b) {
            if exists|i: int| #[trigger] smaller_at(ta, tb, i) {
                let i = choose|i: int| #[trigger] smaller_at(ta, tb, i);
                assert(a.take(i + 1) =~= seq![a[0]] + ta.take(i));
                assert(b.take(i + 1) =~= seq![b[0]] + tb.take(i));
                assert(smaller_at(a, b, i + 1));
            } else {
                assert(b.take(a.len() as int) =~= seq![b[0]] + tb.take(ta.len() as int));
                assert(a =~= seq![a[0]] + ta);
            }
        } else {
            assert forall|i: int| !#[trigger] smaller_at(a, b, i) by {
                if smaller_at(a, b, i) {
                    if i == 0 {
                    } else {
                        assert(a.take(i)[0] == b.take(i)[0]);
                        assert(ta.take(i - 1) =~= a.take(i).drop_first());
                        assert(tb.take(i - 1) =~= b.take(i).drop_first());
                        assert(smaller_at(ta, tb, i - 1));
                    }
                }
            }
            if proper_prefix(a, b) {
                assert(tb.take(ta.len() as int) =~= b.take(a.len() as int).drop_first());
                assert(proper_prefix(ta, tb));
            }
        }
    }
}

/// Component `a` comes before component `b`.
pub open spec fn component_lt(a: Seq<char>, b: Seq<char>) -> bool {
    component_rank(a) < component_rank(b) || (component_rank(a) == 4 && component_rank(b) == 4 && chars_lt(a, b))
}

/// The components `x` come before `y`, component by component.
pub open spec fn components_lt(x: Seq<Seq<char>>, y: Seq<Seq<char>>) -> bool
    decreases x.len(),
{
    if x.len() == 0 {
        y.len() > 0
    } else if y.len() == 0 {
        false
    } else if x[0] != y[0] {
        component_lt(x[0], y[0])
    } else {
        components_lt(x.drop_first(), y.drop_first())
    }
}

/// Path `p` comes before path `q` in the order of `Path`.
pub open spec fn path_lt(p: Seq<char>, q: Seq<char>) -> bool {
    components_lt(components(p), components(q))
}

proof fn lemma_seq_eq_by_tail<A>(a: Seq<A>, b: Seq<A>)
    requires
        a.len() > 0,
        b.len() > 0,
        a[0] == b[0],
        a.drop_first() == b.drop_first(),
    ensures
        a == b,
{
    assert(a.drop_first().len() == a.len() - 1);
    assert(b.drop_first().len() == b.len() - 1);
    assert forall|i: int| 0 <= i < a.len() implies a[i] == b[i] by {
        if i > 0 {
            assert(a[i] == a.drop_first()[i - 1]);
            assert(b[i] == b.drop_first()[i - 1]);
        }
    }
    assert(a =~= b);
}

proof fn lemma_chars_lt_order(a: Seq<char>, b: Seq<char>, c: Seq<char>)
    ensures
        !(chars_lt(a, b) && chars_lt(b, a)),
        chars_lt(a, b) && chars_lt(b, c) ==> chars_lt(a, c),
        a != b ==> chars_lt(a, b) || chars_lt(b, a),
    decreases a.len(),
{
    if a.len() > 0 && b.len() > 0 && c.len() > 0 {
        lemma_chars_lt_order(a.drop_first(), b.drop_first(), c.drop_first());
    } else if a.len() > 0 && b.len() > 0 {
        lemma_chars_lt_order(a.drop_first(), b.drop_first(), b.drop_first());
    }
    if a.len() > 0 && b.len() > 0 && a[0] == b[0] && a.drop_first() == b.drop_first() {
        lemma_seq_eq_by_tail(a, b);
    }
    if a.len() == 0 && b.len() == 0 {
        assert(a =~= b);
    }
}

proof fn lemma_component_lt_order(a: Seq<char>, b: Seq<char>, c: Seq<char>)
    ensures
        !(component_lt(a, b) && component_lt(b, a)),
        component_lt(a, b) && component_lt(b, c) ==> component_lt(a, c),
        a != b ==> component_lt(a, b) || component_lt(b, a),
{
    lemma_chars_lt_order(a, b, c);
}

proof fn lemma_components_lt_order(x: Seq<Seq<char>>, y: Seq<Seq<char>>, z: Seq<Seq<char>>)
    ensures
        !(components_lt(x, y) && components_lt(y, x)),
        components_lt(x, y) && components_lt(y, z) ==> components_lt(x, z),
        x != y ==> components_lt(x, y) || components_lt(y, x),
    decreases x.len(),
{
    if x.len() > 0 && y.len() > 0 {
        lemma_component_lt_order(x[0], y[0], if z.len() > 0 { z[0] } else { y[0] });
        if z.len() > 0 {
            lemma_component_lt_order(y[0], z[0], x[0]);
            lemma_component_lt_order(x[0], z[0], y[0]);
            lemma_components_lt_order(x.drop_first(), y.drop_first(), z.drop_first());
        } else {
            lemma_components_lt_order(x.drop_first(), y.drop_first(), y.drop_first());
        }
        if x[0] == y[0] && x.drop_first() == y.drop_first() {
            lemma_seq_eq_by_tail(x, y);
        }
    }
    if x.len() == 0 && y.len() == 0 {
        assert(x =~= y);
    }
}

/// `path_lt` orders paths: never both ways, transitively, and so that
/// "not after" is transitive too.
pub proof fn lemma_path_order(p: Seq<char>, q: Seq<char>, r: Seq<char>)
    ensures
        !(path_lt(p, q) && path_lt(q, p)),
        path_lt(p, q) && path_lt(q, r) ==> path_lt(p, r),
        !path_lt(q, p) && !path_lt(r, q) ==> !path_lt(r, p),
{
    let (cp, cq, cr) = (components(p), components(q), components(r));
    lemma_components_lt_order(cp, cq, cr);
    lemma_components_lt_order(cr, cp, cq);
    lemma_components_lt_order(cp, cq, cp);
}

/// A plain name: not empty, without separators, and neither `.` nor `..`.
pub open spec fn is_plain_name(x: Seq<char>) -> bool {
    &&& x.len() > 0
    &&& forall|i: int| 0 <= i < x.len() ==> #[trigger] x[i] != '/'
    &&& x != seq!['.']
    &&& x != seq!['.', '.']
}

proof fn lemma_name_components(x: Seq<char>)
    requires
        is_plain_name(x),
    ensures
        components(x) == seq![x],
{
    assert(x[0] != '/');
    if x[0] == '.' && x.len() == 1 {
        assert(x =~= seq!['.']);
    }
    assert(next_separator(x, 0) == x.len()) by {
        lemma_next_separator_none(x, 0);
    }
    assert(x.subrange(0, x.len() as int) =~= x);
    assert(components(x) =~= seq![x]);
}

proof fn lemma_next_separator_none(s: Seq<char>, st: int)
    requires
        0 <= st <= s.len(),
        forall|i: int| 0 <= i < s.len() ==> #[trigger] s[i] != '/',
    ensures
        next_separator(s, st) == s.len(),
    decreases s.len() - st,
{
    if st < s.len() {
        lemma_next_separator_none(s, st + 1);
    }
}

/// Two plain names are in path order exactly when they are in the
/// lexicographic order of their characters: at the first place where they
/// differ the first has the smaller character, or it is a proper prefix of
/// the second.
pub proof fn law_path_lt_names(x: Seq<char>, y: Seq<char>)
    requires
        is_plain_name(x),
        is_plain_name(y),
    ensures
        path_lt(x, y) <==> ((exists|i: int| #[trigger] smaller_at(x, y, i)) || proper_prefix(x, y)),
{
    lemma_name_components(x);
    lemma_name_components(y);
    law_chars_lt_lexicographic(x, y);
    let cx = seq![x];
    let cy = seq![y];
    assert(cx.drop_first() =~= Seq::<Seq<char>>::empty());
    assert(cy.drop_first() =~= Seq::<Seq<char>>::empty());
    if x == y {
        assert(!chars_lt(x, y)) by {
            lemma_chars_lt_irrefl(x);
        }
    }
    assert(x != seq!['/']) by {
        if x == seq!['/'] {
            assert(x[0] == '/');
        }
    }
    assert(y != seq!['/']) by {
        if y == seq!['/'] {
            assert(y[0] == '/');
        }
    }
    assert(component_rank(x) == 4 && component_rank(y) == 4);
    assert(path_lt(x, y) == components_lt(cx, cy));
    if x != y {
        assert(cx[0] != cy[0]);
        assert(components_lt(cx, cy) == component_lt(x, y));
    } else {
        assert(components_lt(cx, cy) == components_lt(cx.drop_first(), cy.drop_first()));
    }
}

proof fn lemma_next_separator_join(d: Seq<char>, x: Seq<char>, st: int)
    requires
        0 <= st <= d.len(),
    ensures
        next_separator(d + seq!['/'] + x, st) == next_separator(d, st),
    decreases d.len() - st,
{
    let s = d + seq!['/'] + x;
    if st < d.len() {
        assert(s[st] == d[st]);
        lemma_next_separator_join(d, x, st + 1);
    } else {
        assert(s[st] == '/');
    }
}

proof fn lemma_body_components_join(d: Seq<char>, x: Seq<char>, st: int)
    requires
        0 <= st <= d.len(),
        is_plain_name(x),
    ensures
        body_components(d + seq!['/'] + x, st) == body_components(d, st) + seq![x],
    decreases d.len() - st,
{
    let s = d + seq!['/'] + x;
    let at: int = d.len() as int + 1;
    lemma_next_separator_none(x, 0);
    assert(next_separator(s, at) == s.len()) by {
        lemma_next_separator_tail(s, x, at);
    }
    assert(s.subrange(at, s.len() as int) =~= x);
    assert(x != seq!['.']);
    assert(body_components(s, s.len() as int) == Seq::<Seq<char>>::empty());
    assert(body_components(s, at) =~= seq![x]);
    lemma_next_separator_join(d, x, st);
    lemma_next_separator(d, st);
    let e = next_separator(d, st);
    if st == d.len() {
        assert(s[st] == '/');
        assert(s.subrange(st, st) =~= Seq::<char>::empty());
        assert(body_components(d, st) =~= Seq::<Seq<char>>::empty());
        assert(body_components(s, st) == body_components(s, at));
    } else {
        assert(s.subrange(st, e) =~= d.subrange(st, e));
        if e < d.len() {
            lemma_body_components_join(d, x, e + 1);
        } else {
            assert(body_components(s, st) == if d.subrange(st, e).len() == 0 || d.subrange(st, e) == seq!['.'] {
                body_components(s, at)
            } else {
                seq![d.subrange(st, e)] + body_components(s, at)
            });
        }
        assert(body_components(s, st) =~= body_components(d, st) + seq![x]);
    }
}

proof fn lemma_next_separator_tail(s: Seq<char>, x: Seq<char>, at: int)
    requires
        0 <= at,
        at + x.len() == s.len(),
        forall|i: int| 0 <= i < x.len() ==> s[at + i] == #[trigger] x[i],
        forall|i: int| 0 <= i < x.len() ==> #[trigger] x[i] != '/',
    ensures
        next_separator(s, at) == s.len(),
    decreases s.len() - at,
{
    if at < s.len() {
        assert(s[at] == x[0]);
        assert forall|i: int| 0 <= i < x.drop_first().len() implies s[at + 1 + i] == #[trigger] x.drop_first()[i] by {
            assert(s[at + (i + 1)] == x[i + 1]);
        }
        lemma_next_separator_tail(s, x.drop_first(), at + 1);
    }
}

proof fn lemma_components_lt_prefix(p: Seq<Seq<char>>, x: Seq<Seq<char>>, y: Seq<Seq<char>>)
    ensures
        components_lt(p + x, p + y) == components_lt(x, y),
    decreases p.len(),
{
    if p.len() > 0 {
        assert((p + x).drop_first() =~= p.drop_first() + x);
        assert((p + y).drop_first() =~= p.drop_first() + y);
        assert((p + x)[0] == p[0] && (p + y)[0] == p[0]);
        lemma_components_lt_prefix(p.drop_first(), x, y);
    } else {
        assert(p + x =~= x);
        assert(p + y =~= y);
    }
}

/// Two entries of one folder are in path order exactly when their names
/// are: `d/x` comes before `d/y` for plain names `x` and `y` just when `x`
/// comes before `y` (see `law_path_lt_names`).
pub proof fn law_path_lt_in_folder(d: Seq<char>, x: Seq<char>, y: Seq<char>)
    requires
        is_plain_name(x),
        is_plain_name(y),
    ensures
        path_lt(d + seq!['/'] + x, d + seq!['/'] + y) == path_lt(x, y),
{
    let sx = d + seq!['/'] + x;
    let sy = d + seq!['/'] + y;
    lemma_body_components_join(d, x, 0);
    lemma_body_components_join(d, y, 0);
    if d.len() > 0 {
        lemma_body_components_join(d, x, 1);
        lemma_body_components_join(d, y, 1);
    }
    lemma_name_components(x);
    lemma_name_components(y);
    let pre = if d.len() == 0 {
        seq![seq!['/']]
    } else if has_root(d) {
        seq![seq!['/']] + body_components(d, 1)
    } else if d[0] == '.' && (d.len() == 1 || d[1] == '/') {
        seq![seq!['.']] + body_components(d, 1)
    } else {
        body_components(d, 0)
    };
    if d.len() == 0 {
        assert(sx[0] == '/' && sy[0] == '/');
        assert(body_components(sx, 1) == body_components(d, 0) + seq![x]);
        assert(body_components(d, 0) =~= Seq::<Seq<char>>::empty());
        assert(components(sx) =~= pre + seq![x]);
        assert(components(sy) =~= pre + seq![y]);
    } else {
        assert(sx[0] == d[0] && sy[0] == d[0]);
        if d.len() > 1 {
            assert(sx[1] == d[1] && sy[1] == d[1]);
        } else {
            assert(sx[1] == '/' && sy[1] == '/');
        }
        assert(components(sx) =~= pre + seq![x]);
        assert(components(sy) =~= pre + seq![y]);
    }
    lemma_components_lt_prefix(pre, seq![x], seq![y]);
}

proof fn lemma_chars_lt_irrefl(a: Seq<char>)
    ensures
        !chars_lt(a, a),
    decreases a.len(),
{
    if a.len() > 0 {
        lemma_chars_lt_irrefl(a.drop_first());
    }
}

fn rank_of(c: &Vec<char>) -> (r: u8)
    ensures
        r as int == component_rank(c@),
{
    if c.len() == 1 && c[0] == '/' {
        assert(c@ =~= seq!['/']);
        1
    } else if c.len() == 1 && c[0] == '.' {
        assert(c@ =~= seq!['.']);
        assert(c@ != seq!['/']) by { assert(c@[0] != seq!['/'][0]); }
        2
    } else if c.len() == 2 && c[0] == '.' && c[1] == '.' {
        assert(c@ =~= seq!['.', '.']);
        3
    } else {
        assert(c@ != seq!['/']) by { if c@ == seq!['/'] { assert(c@[0] == '/'); } }
        assert(c@ != seq!['.']) by { if c@ == seq!['.'] { assert(c@[0] == '.'); } }
        assert(c@ != seq!['.', '.']) by { if c@ == seq!['.', '.'] { assert(c@[0] == '.' && c@[1] == '.'); } }
        4
    }
}

/// Whether `a` comes before `b`, character by character.
fn chars_less(a: &Vec<char>, b: &Vec<char>) -> (r: bool)
    ensures
        r == chars_lt(a@, b@),
{
    let mut i: usize = 0;
    assert(a@.skip(0) =~= a@);
    assert(b@.skip(0) =~= b@);
    while i < a.len() && i < b.len() && a[i] == b[i]
        invariant
            i <= a.len() && i <= b.len(),
            chars_lt(a@.skip(i as int), b@.skip(i as int)) == chars_lt(a@, b@),
        decreases a.len() - i,
    {
        assert(a@.skip(i as int).drop_first() =~= a@.skip(i + 1));
        assert(b@.skip(i as int).drop_first() =~= b@.skip(i + 1));
        i = i + 1;
    }
    assert(a@.skip(i as int).len() == a.len() - i);
    assert(b@.skip(i as int).len() == b.len() - i);
    if i == a.len() {
        i < b.len()
    } else if i == b.len() {
        false
    } else {
        assert(a@.skip(i as int)[0] == a@[i as int]);
        assert(b@.skip(i as int)[0] == b@[i as int]);
        a[i] < b[i]
    }
}

/// Whether the components `x` come before `y`.
pub fn components_less(x: &Vec<Vec<char>>, y: &Vec<Vec<char>>) -> (r: bool)
    ensures
        r == components_lt(char_vecs(x@), char_vecs(y@)),
{
    let ghost xv = char_vecs(x@);
    let ghost yv = char_vecs(y@);
    let mut i: usize = 0;
    assert(xv.skip(0) =~= xv);
    assert(yv.skip(0) =~= yv);
    while i < x.len() && i < y.len() && crate::text::chars_eq(&x[i], &y[i])
        invariant
            i <= x.len() && i <= y.len(),
            xv == char_vecs(x@),
            yv == char_vecs(y@),
            xv.len() == x@.len() && yv.len() == y@.len(),
            components_lt(xv.skip(i as int), yv.skip(i as int)) == components_lt(xv, yv),
        decreases x.len() - i,
    {
        assert(xv.skip(i as int).drop_first() =~= xv.skip(i + 1));
        assert(yv.skip(i as int).drop_first() =~= yv.skip(i + 1));
        assert(xv[i as int] == x@[i as int]@);
        assert(yv[i as int] == y@[i as int]@);
        i = i + 1;
    }
    assert(xv.skip(i as int).len() == x.len() - i);
    assert(yv.skip(i as int).len() == y.len() - i);
    if i == x.len() {
        i < y.len()
    } else if i == y.len() {
        false
    } else {
        assert(xv[i as int] == x@[i as int]@);
        assert(yv[i as int] == y@[i as int]@);
        assert(xv.skip(i as int)[0] == xv[i as int]);
        assert(yv.skip(i as int)[0] == yv[i as int]);
        let ra = rank_of(&x[i]);
        let rb = rank_of(&y[i]);
        ra < rb || (ra == 4 && rb == 4 && chars_less(&x[i], &y[i]))
    }
}

} // verus!
