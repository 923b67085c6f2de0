//! Paths on the WebDAV server: where a note lives and where a user's notes
//! folder is.
use vstd::prelude::*;
use crate::paths::{
    body_end, body_start, has_file_name, name_start, rfind, trim_back, trim_front, has_root, join_relative, lemma_file_name_bounds, lemma_md_extension_trailing, lemma_md_extension_under_root, lemma_rfind_bounds,
    lemma_rfind_same, lemma_rfind_shift, lemma_rfind_skip_tail, lemma_stem_end_bounds, md_suffix,
    set_md_extension, stem_end, strip_root, trim_back_index, trim_front_index, with_md_extension,
};
use crate::text::{chars_of, concat, extend_from_range, string_of};

verus! {

/// The note path read as a path relative to the notes folder: an absolute
/// note path loses its root.
pub open spec fn note_relative(note: Seq<char>) -> Seq<char> {
    if has_root(note) {
        strip_root(note)
    } else {
        note
    }
}

/// The note path joined onto the prefix, before its extension is set.
pub open spec fn joined_note_path(prefix: Seq<char>, note: Seq<char>) -> Seq<char> {
    join_relative(prefix, note_relative(note))
}

/// The full, absolute path of a note: the note path joined onto the prefix,
/// its extension set to `md`, and made absolute.
pub open spec fn spec_normalize_note_path(prefix: Seq<char>, note: Seq<char>) -> Seq<char> {
    let named = with_md_extension(joined_note_path(prefix, note));
    if has_root(named) {
        named
    } else {
        seq!['/'] + named
    }
}

/// Builds the absolute path of the note `note_path` under `prefix`, with the
/// extension `md`.  Every pair of strings gives a path.
pub fn normalize_note_path(prefix: String, note_path: String) -> (r: Result<String, String>)
    ensures
        r is Ok,
        r matches Ok(s) ==> s@ == spec_normalize_note_path(prefix@, note_path@),
        r matches Ok(s) ==> has_root(s@),
        r matches Ok(s) ==> (has_file_name(joined_note_path(prefix@, note_path@)) ==> {
            &&& s@.len() >= 3
            &&& s@.subrange(s@.len() - 3, s@.len() as int) == md_suffix()
        }),
{
    let pv = chars_of(prefix.as_str());
    let nv = chars_of(note_path.as_str());
    let mut rlo: usize = 0;
    let mut rhi: usize = nv.len();
    if nv.len() > 0 && nv[0] == '/' {
        rlo = trim_front_index(&nv, 1);
        rhi = trim_back_index(&nv, rlo, nv.len());
        assert(nv@.drop_first() =~= nv@.skip(1));
        assert(nv@.skip(rlo as int) =~= nv@.subrange(rlo as int, nv.len() as int));
    } else {
        assert(nv@.subrange(0, nv.len() as int) =~= nv@);
    }
    assert(nv@.subrange(rlo as int, rhi as int) == note_relative(nv@));
    let mut joined = pv;
    if joined.len() > 0 && joined[joined.len() - 1] != '/' {
        joined.push('/');
    }
    extend_from_range(&mut joined, &nv, rlo, rhi);
    assert(joined@ =~= joined_note_path(prefix@, note_path@));
    let named = set_md_extension(&joined);
    let mut full: Vec<char> = Vec::new();
    if !(named.len() > 0 && named[0] == '/') {
        full.push('/');
    }
    extend_from_range(&mut full, &named, 0, named.len());
    assert(named@.subrange(0, named.len() as int) =~= named@);
    assert(full@ =~= spec_normalize_note_path(prefix@, note_path@));
    proof {
        let j = joined_note_path(prefix@, note_path@);
        if has_file_name(j) {
            let n = j.take(stem_end(j)) + md_suffix();
            assert(full@.subrange(full@.len() - 3, full@.len() as int) =~= md_suffix()) by {
                assert(full@.len() >= n.len());
                assert(forall|k: int| 0 <= k < 3 ==> #[trigger] full@[full@.len() - 3 + k] == n[n.len() - 3 + k]);
            }
        }
    }
    Ok(string_of(&full))
}


/// A path in the form that `normalize_note_path` gives a note: a root, then
/// a body that begins with neither a separator nor a `.` component and ends
/// in a file name of at least one character before `.md`.
pub open spec fn is_note_path(r: Seq<char>) -> bool {
    let b = r.drop_first();
    &&& r.len() > 0
    &&& r[0] == '/'
    &&& b.len() >= 4
    &&& b[0] != '/'
    &&& !(b[0] == '.' && b[1] == '/')
    &&& b.skip(b.len() - 3) == md_suffix()
    &&& rfind(b, '/', 0, b.len() as int) + 4 < b.len()
}

/// Normalizing a note path again, under the empty prefix or under the root,
/// changes nothing.
pub proof fn law_normalize_note_path_is_stable(r: Seq<char>)
    requires
        is_note_path(r),
    ensures
        spec_normalize_note_path(Seq::empty(), r) == r,
        spec_normalize_note_path(seq!['/'], r) == r,
{
    let b = r.drop_first();
    let l = b.len() as int;
    assert(r =~= seq!['/'] + b);
    assert(b[l - 3] == '.' && b[l - 2] == 'm' && b[l - 1] == 'd') by {
        assert(b.skip(l - 3)[0] == b[l - 3]);
        assert(b.skip(l - 3)[1] == b[l - 2]);
        assert(b.skip(l - 3)[2] == b[l - 1]);
    }
    assert(trim_front(b) == b);
    assert(trim_back(b) == b);
    assert(strip_root(r) == b);
    assert(note_relative(r) == b);
    assert(joined_note_path(Seq::empty(), r) =~= b);
    assert(body_start(b) == 0);
    assert(b.skip(0) =~= b);
    assert(body_end(b) == l);
    let ns = name_start(b);
    lemma_rfind_bounds(b, '/', 0, l);
    assert(ns <= l - 4);
    assert(b.subrange(ns, l).len() >= 4);
    assert(has_file_name(b));
    assert(rfind(b, '.', ns, l - 2) == l - 3);
    assert(rfind(b, '.', ns, l - 1) == l - 3);
    assert(rfind(b, '.', ns, l) == l - 3);
    assert(stem_end(b) == l - 3);
    assert(with_md_extension(b) =~= b);
    assert(!has_root(b));
    assert(joined_note_path(seq!['/'], r) =~= r);
    lemma_md_extension_under_root(b);
}

/// `normalize_note_path` gives a note path (see `is_note_path`) when the
/// joined path has a file name and the result's body begins with neither a
/// separator nor a `.` component; normalizing that again changes nothing
/// (`law_normalize_note_path_is_stable`).
pub proof fn law_normalized_is_note_path(prefix: Seq<char>, note: Seq<char>)
    requires
        has_file_name(joined_note_path(prefix, note)),
        ({
            let b = spec_normalize_note_path(prefix, note).drop_first();
            &&& b.len() > 1
            &&& b[0] != '/'
            &&& !(b[0] == '.' && b[1] == '/')
        }),
    ensures
        is_note_path(spec_normalize_note_path(prefix, note)),
{
    let j = joined_note_path(prefix, note);
    let ns = name_start(j);
    let se = stem_end(j);
    lemma_file_name_bounds(j);
    let named = j.take(se) + md_suffix();
    assert(with_md_extension(j) == named);
    assert(named[0] == j[0]);
    assert forall|i: int| 0 <= i < se implies #[trigger] named[i] == j[i] by {}
    assert(named[se] == '.' && named[se + 1] == 'm' && named[se + 2] == 'd');
    assert forall|i: int| ns <= i < se implies #[trigger] j[i] != '/' by {}
    let r = spec_normalize_note_path(prefix, note);
    if has_root(named) {
        assert(r == named);
        let b = named.drop_first();
        assert(named =~= seq!['/'] + b);
        assert(body_start(j) == 1);
        lemma_rfind_shift(b, '/', 0, se + 2);
        lemma_rfind_skip_tail(named, '/', 1, se, se + 3);
        lemma_rfind_same(named, j, '/', 1, se);
        lemma_rfind_skip_tail(j, '/', 1, ns, se);
        lemma_rfind_bounds(j, '/', 1, ns);
        assert(b.skip(b.len() - 3) =~= md_suffix());
    } else {
        assert(r == seq!['/'] + named);
        let b = r.drop_first();
        assert(b =~= named);
        lemma_rfind_skip_tail(named, '/', 0, se, se + 3);
        lemma_rfind_same(named, j, '/', 0, se);
        lemma_rfind_skip_tail(j, '/', 0, ns, se);
        lemma_rfind_bounds(j, '/', 0, ns);
        assert(b.skip(b.len() - 3) =~= md_suffix());
    }
}

/// A path with no empty component inside (no `//`) and no `.` or `..`
/// component.
pub open spec fn is_clean_path(s: Seq<char>) -> bool {
    &&& forall|i: int| 0 <= i < s.len() - 1 && #[trigger] s[i] == '/' ==> s[i + 1] != '/'
    &&& forall|i: int| 0 <= i < s.len() && #[trigger] s[i] == '.' && (i == 0 || s[i - 1] == '/') ==> {
        &&& i + 1 < s.len()
        &&& s[i + 1] != '/'
        &&& !(s[i + 1] == '.' && (i + 2 == s.len() || s[i + 2] == '/'))
    }
}

/// The note path read relative to the notes folder is clean, not empty, and
/// begins and ends with a component.
proof fn lemma_clean_note_relative(note: Seq<char>)
    requires
        is_clean_path(note),
        note.len() > 0,
        note.last() != '/',
    ensures
        ({
            let rel = note_relative(note);
            &&& is_clean_path(rel)
            &&& rel.len() > 0
            &&& rel[0] != '/'
            &&& rel.last() == note.last()
        }),
{
    let l = note.len() as int;
    if note[0] == '.' {
        assert(note[0] == '.' && (0 == 0 || note[0 - 1] == '/'));
    }
    if has_root(note) {
        let d = note.drop_first();
        assert(note.len() > 1);
        assert(d[0] == note[1]);
        assert(note[0] == '/');
        assert(d[0] != '/');
        if d[0] == '.' {
            assert(note[1] == '.' && note[1 - 1] == '/');
        }
        assert(trim_front(d) == d);
        assert(d.last() == note.last());
        if d.last() == '.' {
            assert(note[l - 1] == '.');
            if d.len() > 1 {
                assert(d[d.len() - 2] == note[l - 2]);
            }
        }
        assert(trim_back(d) == d);
        assert(strip_root(note) == d);
        assert forall|i: int| 0 <= i < d.len() - 1 && #[trigger] d[i] == '/' implies d[i + 1] != '/' by {
            assert(note[i + 1] == '/');
        }
        assert forall|i: int| 0 <= i < d.len() && #[trigger] d[i] == '.' && (i == 0 || d[i - 1] == '/') implies {
            &&& i + 1 < d.len()
            &&& d[i + 1] != '/'
            &&& !(d[i + 1] == '.' && (i + 2 == d.len() || d[i + 2] == '/'))
        } by {
            assert(note[i + 1] == '.');
            assert(note[i] == '/' || i == 0);
        }
    }
}

/// The body of a path: after its root, if it has one.
pub open spec fn body_of(j: Seq<char>) -> Seq<char> {
    if has_root(j) {
        j.drop_first()
    } else {
        j
    }
}

/// For a clean prefix and a clean note path that ends in a component, the
/// joined path has a file name, and its body begins with a name.
proof fn lemma_clean_join(prefix: Seq<char>, note: Seq<char>)
    requires
        is_clean_path(prefix),
        is_clean_path(note),
        note.len() > 0,
        note.last() != '/',
    ensures
        ({
            let j = joined_note_path(prefix, note);
            let w = body_of(j);
            &&& w.len() > 0
            &&& w[0] != '/'
            &&& !(w[0] == '.' && (w.len() == 1 || w[1] == '/'))
            &&& has_file_name(j)
        }),
{
    lemma_clean_note_relative(note);
    let rel = note_relative(note);
    let rl = rel.len() as int;
    let pre = if prefix.len() > 0 && prefix.last() != '/' { prefix + seq!['/'] } else { prefix };
    let pl = pre.len() as int;
    let j = joined_note_path(prefix, note);
    assert(j =~= pre + rel);
    let jl = j.len() as int;
    assert(pl == 0 || pre[pl - 1] == '/');
    assert forall|t: int| 0 <= t < rl implies #[trigger] j[pl + t] == rel[t] by {}
    assert forall|t: int| 0 <= t < pl && t < prefix.len() implies #[trigger] j[t] == prefix[t] by {}
    if rel[0] == '.' {
        assert(rel[0] == '.' && (0 == 0 || rel[0 - 1] == '/'));
    }
    if prefix.len() > 0 && prefix[0] == '.' {
        assert(prefix[0] == '.' && (0 == 0 || prefix[0 - 1] == '/'));
    }
    if prefix.len() > 1 && prefix[0] == '/' {
        assert(prefix[1] != '/');
        if prefix[1] == '.' {
            assert(prefix[1] == '.' && (1 == 0 || prefix[1 - 1] == '/'));
        }
    }
    let w = body_of(j);
    assert(w.len() > 0 && w[0] != '/' && !(w[0] == '.' && (w.len() == 1 || w[1] == '/'))) by {
        if pl == 0 {
            assert(j == rel);
        } else if prefix[0] == '/' && prefix.len() == 1 {
            assert(pl == 1);
            assert(w =~= rel);
        } else if prefix[0] == '/' {
            assert(w[0] == prefix[1]);
            if prefix[1] == '.' {
                assert(prefix.len() > 2);
                assert(w[1] == prefix[2]);
            }
        } else {
            assert(w[0] == prefix[0]);
            if prefix[0] == '.' {
                assert(prefix.len() > 1);
                assert(w[1] == prefix[1]);
            }
        }
    }
    let bs = body_start(j);
    assert(bs == if has_root(j) { 1int } else { 0int });
    assert(j.skip(bs) =~= w);
    assert(j.last() == rel.last());
    if rel.last() == '.' {
        assert(rel[rl - 1] == '.');
        if rl == 1 {
            assert(false);
        }
        assert(rel[rl - 2] != '/') by {
            if rel[rl - 2] == '/' {
                assert(rel[rl - 1] == '.' && (rl - 1 == 0 || rel[rl - 1 - 1] == '/'));
            }
        }
        assert(w[w.len() - 2] == j[jl - 2]);
        assert(j[jl - 2] == rel[rl - 2]);
    }
    assert(trim_back(w) == w);
    assert(body_end(j) == jl);
    let ns = name_start(j);
    lemma_rfind_bounds(j, '/', bs, jl);
    if ns == jl - 2 && j[jl - 2] == '.' && j[jl - 1] == '.' {
        assert(jl - 2 >= pl) by {
            if jl - 2 < pl {
                if jl - 2 == pl - 1 {
                    assert(j[pl - 1] == pre[pl - 1]);
                }
            }
        }
        let t = jl - 2 - pl;
        assert(rel[t] == '.' && rel[t + 1] == '.');
        assert(t + 2 == rl);
        if t > 0 {
            assert(ns > bs);
            assert(j[ns - 1] == '/');
            assert(rel[t - 1] == j[pl + t - 1]);
        }
        assert(rel[t] == '.' && (t == 0 || rel[t - 1] == '/'));
        assert(false);
    }
    if j.subrange(ns, jl) == seq!['.', '.'] {
        assert(j.subrange(ns, jl).len() == 2);
        assert(j[jl - 2] == j.subrange(ns, jl)[0]);
        assert(j[jl - 1] == j.subrange(ns, jl)[1]);
    }
    assert(has_file_name(j));
}

/// Normalizing a normalized note path again, under the empty prefix or
/// under the root, changes nothing: for a clean prefix and a clean note path
/// that ends in a component (see `is_clean_path`).
pub proof fn law_normalize_twice(prefix: Seq<char>, note: Seq<char>)
    requires
        is_clean_path(prefix),
        is_clean_path(note),
        note.len() > 0,
        note.last() != '/',
    ensures
        spec_normalize_note_path(Seq::empty(), spec_normalize_note_path(prefix, note)) == spec_normalize_note_path(prefix, note),
        spec_normalize_note_path(seq!['/'], spec_normalize_note_path(prefix, note)) == spec_normalize_note_path(prefix, note),
{
    lemma_clean_join(prefix, note);
    let j = joined_note_path(prefix, note);
    let w = body_of(j);
    lemma_file_name_bounds(j);
    let se = stem_end(j);
    let named = j.take(se) + md_suffix();
    assert(with_md_extension(j) == named);
    assert(named[0] == j[0]);
    let r = spec_normalize_note_path(prefix, note);
    let b = r.drop_first();
    if has_root(j) {
        assert(body_start(j) == 1);
        assert(r == named);
        assert(b[0] == j[1] && w[0] == j[1]);
        if se >= 3 {
            assert(b[1] == j[2] && w[1] == j[2]);
        } else {
            assert(b[1] == named[2]);
        }
    } else {
        assert(r == seq!['/'] + named);
        assert(b =~= named);
        assert(w == j);
        if se >= 2 {
            assert(b[1] == j[1]);
        } else {
            assert(b[1] == named[1]);
        }
    }
    law_normalized_is_note_path(prefix, note);
    law_normalize_note_path_is_stable(r);
}

/// Separators at the seams do not change where a note lives: a prefix with
/// or without a leading or a trailing separator gives the same path, and so
/// does a note path with a leading separator, where its trailing separators
/// and `.` components are read away, unless that leaves a path without a
/// file name that they changed.  This is proved for a prefix that neither
/// begins with a separator or a `.` component nor ends with a separator, and
/// a note path that begins with neither a separator nor a `.` component.
pub proof fn law_normalize_seams(p: Seq<char>, n: Seq<char>)
    requires
        p.len() > 0,
        p[0] != '/',
        p.last() != '/',
        !(p[0] == '.' && (p.len() == 1 || p[1] == '/')),
        !has_root(n),
        !(n.len() > 0 && n[0] == '.' && (n.len() == 1 || n[1] == '/')),
    ensures
        spec_normalize_note_path(seq!['/'] + p, n) == spec_normalize_note_path(p, n),
        spec_normalize_note_path(p + seq!['/'], n) == spec_normalize_note_path(p, n),
        trim_back(n) == n || has_file_name(p + seq!['/'] + n) ==>
            spec_normalize_note_path(seq!['/'] + p + seq!['/'], seq!['/'] + n) == spec_normalize_note_path(p, n),
{
    let x = p + seq!['/'];
    let j = x + n;
    let rp = seq!['/'] + p;
    assert(j[0] == p[0]);
    if p.len() == 1 {
        assert(j[1] == '/');
    } else {
        assert(j[1] == p[1]);
    }
    assert(body_start(j) == 0);
    lemma_md_extension_under_root(j);
    assert(joined_note_path(p, n) =~= j);
    assert(rp.last() == p.last());
    assert(joined_note_path(rp, n) =~= seq!['/'] + j);
    assert(x.last() == '/');
    assert(joined_note_path(x, n) =~= j);
    let named = with_md_extension(j);
    assert(!has_root(named)) by {
        lemma_stem_end_bounds(j);
        if has_file_name(j) && stem_end(j) > 0 {
            assert(named[0] == j[0]);
        } else if has_file_name(j) {
            assert(named[0] == '.');
        }
    }
    assert(has_root(seq!['/'] + named));
    if trim_back(n) == n || has_file_name(j) {
        let rn = seq!['/'] + n;
        assert(has_root(rn));
        assert(rn.drop_first() =~= n);
        assert(trim_front(n) == n);
        let nb = trim_back(n);
        assert(strip_root(rn) == nb);
        let j2 = x + nb;
        assert((seq!['/'] + p + seq!['/']).last() == '/');
        assert(joined_note_path(seq!['/'] + p + seq!['/'], rn) =~= seq!['/'] + j2);
        if nb == n {
            assert(j2 == j);
        } else {
            lemma_md_extension_trailing(x, n);
        }
        assert(body_start(j2) == 0);
        lemma_md_extension_under_root(j2);
        assert(with_md_extension(j2) == named);
    }
}

/// The path of a user's notes folder on the server: the user's files folder
/// of the WebDAV endpoint, followed by `path_to_notes` as given.
pub fn notes_path_from_root(user: &str, path_to_notes: &str) -> (r: String)
    ensures
        r@ == "/remote.php/dav/files/"@ + user@ + path_to_notes@,
{
    let base = concat("/remote.php/dav/files/", user);
    concat(base.as_str(), path_to_notes)
}

/// An entry of a folder listing from the server: a file by its address, or
/// a folder.
#[derive(Debug)]
pub enum ListedEntry {
    File(String),
    Folder,
}

/// The addresses of the files in a listing, in order.
pub open spec fn file_hrefs_of(entries: Seq<ListedEntry>) -> Seq<Seq<char>>
    decreases entries.len(),
{
    if entries.len() == 0 {
        Seq::empty()
    } else {
        let rest = file_hrefs_of(entries.drop_last());
        match entries.last() {
            ListedEntry::File(h) => rest.push(h@),
            ListedEntry::Folder => rest,
        }
    }
}

/// How many of the first `k` entries of a listing are files.
pub open spec fn files_before(es: Seq<ListedEntry>, k: int) -> int
    decreases k,
{
    if k <= 0 {
        0
    } else {
        files_before(es, k - 1) + if es[k - 1] is File { 1int } else { 0int }
    }
}

proof fn lemma_files_before_prefix(es: Seq<ListedEntry>, k: int)
    requires
        0 <= k < es.len(),
    ensures
        files_before(es, k) == files_before(es.drop_last(), k),
    decreases k,
{
    if k > 0 {
        lemma_files_before_prefix(es, k - 1);
        assert(es.drop_last()[k - 1] == es[k - 1]);
    }
}

proof fn lemma_files_before_bounds(es: Seq<ListedEntry>, k: int, k2: int)
    requires
        0 <= k <= k2,
    ensures
        0 <= files_before(es, k) <= files_before(es, k2),
    decreases k2,
{
    if k2 > k {
        lemma_files_before_bounds(es, k, k2 - 1);
    } else if k > 0 {
        lemma_files_before_bounds(es, k - 1, k - 1);
    }
}

/// The file addresses of a listing are the addresses of its files, each
/// once and in listing order, whatever folders stand between them: there
/// are as many addresses as files, and the file at index `i` gives the
/// address at the place counted by the files before it.
pub proof fn law_file_hrefs(es: Seq<ListedEntry>)
    ensures
        file_hrefs_of(es).len() == files_before(es, es.len() as int),
        forall|i: int| 0 <= i < es.len() ==> (#[trigger] es[i] matches ListedEntry::File(h)
            ==> file_hrefs_of(es)[files_before(es, i)] == h@),
    decreases es.len(),
{
    if es.len() > 0 {
        let prev = es.drop_last();
        law_file_hrefs(prev);
        let l = es.len() - 1;
        lemma_files_before_prefix(es, l);
        assert forall|i: int| 0 <= i < es.len() implies (#[trigger] es[i] matches ListedEntry::File(h)
            ==> file_hrefs_of(es)[files_before(es, i)] == h@) by {
            if i < l {
                assert(prev[i] == es[i]);
                lemma_files_before_prefix(es, i);
                lemma_files_before_bounds(es, i, l);
                if es[i] is File {
                    lemma_files_before_bounds(es, i + 1, l);
                }
            }
        }
    }
}

/// The addresses of the files in a listing, in order; folders are left out.
pub fn file_hrefs(entries: &Vec<ListedEntry>) -> (r: Vec<String>)
    ensures
        r@.map_values(|s: String| s@) == file_hrefs_of(entries@),
{
    let mut notes: Vec<String> = Vec::new();
    let mut i: usize = 0;
    assert(notes@.map_values(|s: String| s@) =~= file_hrefs_of(entries@.take(0)));
    while i < entries.len()
        invariant
            i <= entries.len(),
            notes@.map_values(|s: String| s@) == file_hrefs_of(entries@.take(i as int)),
        decreases entries.len() - i,
    {
        assert(entries@.take(i + 1).drop_last() =~= entries@.take(i as int));
        assert(entries@.take(i + 1).last() == entries@[i as int]);
        match &entries[i] {
            ListedEntry::File(h) => {
                let ghost before = notes@;
                notes.push(h.clone());
                assert(notes@.map_values(|s: String| s@) =~= before.map_values(|s: String| s@).push(h@));
            },
            ListedEntry::Folder => {},
        }
        i = i + 1;
    }
    assert(entries@.take(entries.len() as int) =~= entries@);
    notes
}

} // verus!
