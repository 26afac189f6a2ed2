//! Recognising 3D model files by their extension.
//!
//! Paths are handled as text with Unix separators (`/`), the way
//! `std::path::Path` reads them on Unix-like systems.

use vstd::prelude::*;
use crate::text::{
    ascii_lowercase, chars_of, is_ascii_chars, lowercase_of, range_eq, str_eq, string_from_range,
    to_lowercase,
};

verus! {

/// The longest suffix of `s` that does not contain `c`; this is the first
/// piece that `rsplit(c)` yields.
pub open spec fn after_last(s: Seq<char>, c: char) -> Seq<char>
    decreases s.len(),
{
    if s.len() == 0 {
        s
    } else if s.last() == c {
        Seq::empty()
    } else {
        after_last(s.drop_last(), c).push(s.last())
    }
}

/// The extensions (already in lowercase) that name a supported 3D format.
pub open spec fn supported_extension(ext: Seq<char>) -> bool {
    ||| ext == seq!['g', 'l', 'b']
    ||| ext == seq!['g', 'l', 't', 'f']
    ||| ext == seq!['f', 'b', 'x']
    ||| ext == seq!['o', 'b', 'j']
    ||| ext == seq!['s', 't', 'l']
    ||| ext == seq!['p', 'l', 'y']
    ||| ext == seq!['d', 'a', 'e']
    ||| ext == seq!['3', 'd', 's']
}

/// The last component of a path, if it is a normal name: empty components and
/// `.` components are skipped, and a path that ends in `..`, or has no name at
/// all (such as `/` or `.`), has none.
pub open spec fn unix_file_name(p: Seq<char>) -> Option<Seq<char>>
    decreases p.len(),
{
    if p.len() == 0 {
        None
    } else {
        let seg = after_last(p, '/');
        proof {
            lemma_after_last_is_suffix(p, '/');
        }
        if seg.len() == 0 || seg == seq!['.'] {
            if seg.len() == p.len() {
                None
            } else {
                unix_file_name(p.subrange(0, p.len() - seg.len() - 1))
            }
        } else if seg == seq!['.', '.'] {
            None
        } else {
            Some(seg)
        }
    }
}

/// The extension of a path: the text after the last `.` of its file name,
/// provided that this dot is not the first character of the name.
pub open spec fn unix_extension(p: Seq<char>) -> Option<Seq<char>> {
    match unix_file_name(p) {
        None => None,
        Some(name) => {
            let ext = after_last(name, '.');
            if ext.len() + 1 >= name.len() {
                None
            } else {
                Some(ext)
            }
        },
    }
}

/// What `is_3d_file` decides for a file name.
pub open spec fn spec_is_3d_file(name: Seq<char>) -> bool {
    name.contains('.') && supported_extension(lowercase_of(after_last(name, '.')))
}

/// `spec_is_3d_file` for a name whose extension is ASCII, where the lowercase
/// is the ASCII one.
pub open spec fn ascii_is_3d_file(name: Seq<char>) -> bool {
    name.contains('.') && supported_extension(ascii_lowercase(after_last(name, '.')))
}

/// `spec_supported_path` for a path whose extension is ASCII.
pub open spec fn ascii_supported_path(p: Seq<char>) -> bool {
    match unix_extension(p) {
        Some(ext) => supported_extension(ascii_lowercase(ext)),
        None => false,
    }
}

/// What `is_supported_format` decides for a path.
pub open spec fn spec_supported_path(p: Seq<char>) -> bool {
    match unix_extension(p) {
        Some(ext) => supported_extension(lowercase_of(ext)),
        None => false,
    }
}

/// `after_last(s, c)` is a suffix of `s`.
pub proof fn lemma_after_last_is_suffix(s: Seq<char>, c: char)
    ensures
        after_last(s, c).len() <= s.len(),
        after_last(s, c) == s.subrange(s.len() - after_last(s, c).len(), s.len() as int),
        !after_last(s, c).contains(c),
        after_last(s, c).len() < s.len() ==> s[s.len() - after_last(s, c).len() - 1] == c,
    decreases s.len(),
{
    if s.len() > 0 && s.last() != c {
        lemma_after_last_is_suffix(s.drop_last(), c);
        let a = after_last(s.drop_last(), c);
        assert(after_last(s, c) =~= s.subrange(s.len() - a.len() - 1, s.len() as int));
        assert forall|i: int| 0 <= i < a.len() + 1 implies after_last(s, c)[i] != c by {
            if i < a.len() {
                assert(after_last(s, c)[i] == a[i]);
            }
        }
    } else if s.len() > 0 {
        assert(after_last(s, c) =~= s.subrange(s.len() as int, s.len() as int));
    }
}

/// Where a suffix without `c` starts right after a `c` (or at the start),
/// it is `after_last`.
pub proof fn lemma_after_last_at(s: Seq<char>, c: char, k: int)
    requires
        0 <= k <= s.len(),
        k == 0 || s[k - 1] == c,
        forall|i: int| k <= i < s.len() ==> s[i] != c,
    ensures
        after_last(s, c) == s.subrange(k, s.len() as int),
    decreases s.len(),
{
    if s.len() == k {
        assert(s.subrange(k, s.len() as int) =~= Seq::<char>::empty());
    } else {
        lemma_after_last_at(s.drop_last(), c, k);
        assert(s.subrange(k, s.len() as int) =~= s.drop_last().subrange(k, s.len() - 1).push(
            s.last(),
        ));
    }
}

/// The index where the last `c` before `end` is found plus one, or 0.
fn segment_start(v: &Vec<char>, end: usize, c: char) -> (start: usize)
    requires
        end <= v.len(),
    ensures
        start <= end,
        after_last(v@.subrange(0, end as int), c) == v@.subrange(start as int, end as int),
{
    let mut start: usize = end;
    while start > 0 && v[start - 1] != c
        invariant
            start <= end <= v.len(),
            forall|i: int| start <= i < end ==> v@[i] != c,
        decreases start,
    {
        start -= 1;
    }
    proof {
        let s = v@.subrange(0, end as int);
        lemma_after_last_at(s, c, start as int);
        assert(s.subrange(start as int, end as int) =~= v@.subrange(start as int, end as int));
    }
    start
}

/// The file name of a path, as `Path::file_name` gives it on Unix.
pub fn path_file_name(path: &str) -> (r: Option<String>)
    ensures
        match r {
            Some(s) => unix_file_name(path@) == Some(s@),
            None => unix_file_name(path@) is None,
        },
{
    let v = chars_of(path);
    let dot = vec!['.'];
    let dotdot = vec!['.', '.'];
    let mut end: usize = v.len();
    proof {
        assert(v@.subrange(0, end as int) =~= v@);
    }
    loop
        invariant
            end <= v.len(),
            dot@ == seq!['.'],
            dotdot@ == seq!['.', '.'],
            unix_file_name(path@) == unix_file_name(v@.subrange(0, end as int)),
        decreases end,
    {
        if end == 0 {
            return None;
        }
        let start = segment_start(&v, end, '/');
        let ghost p = v@.subrange(0, end as int);
        proof {
            lemma_after_last_is_suffix(p, '/');
        }
        if start == end || range_eq(&v, start, end, &dot) {
            if start == 0 {
                return None;
            }
            proof {
                assert(p.subrange(0, p.len() - after_last(p, '/').len() - 1) =~= v@.subrange(
                    0,
                    start - 1,
                ));
            }
            end = start - 1;
        } else if range_eq(&v, start, end, &dotdot) {
            return None;
        } else {
            return Some(string_from_range(&v, start, end));
        }
    }
}

/// The extension of a path, as `Path::extension` gives it on Unix.
pub fn path_extension(path: &str) -> (r: Option<String>)
    ensures
        match r {
            Some(s) => unix_extension(path@) == Some(s@),
            None => unix_extension(path@) is None,
        },
{
    match path_file_name(path) {
        None => None,
        Some(name) => {
            let v = chars_of(name.as_str());
            let start = segment_start(&v, v.len(), '.');
            proof {
                assert(v@.subrange(0, v@.len() as int) =~= v@);
            }
            if start <= 1 {
                None
            } else {
                Some(string_from_range(&v, start, v.len()))
            }
        },
    }
}

/// Whether `ext` (compared as given) is one of the supported extensions.
pub fn is_supported_extension(ext: &str) -> (r: bool)
    ensures
        r == supported_extension(ext@),
{
    let v = chars_of(ext);
    let n: usize = v.len();
    proof {
        assert(v@.subrange(0, n as int) =~= v@);
    }
    range_eq(&v, 0, n, &vec!['g', 'l', 'b']) || range_eq(&v, 0, n, &vec!['g', 'l', 't', 'f'])
        || range_eq(&v, 0, n, &vec!['f', 'b', 'x']) || range_eq(&v, 0, n, &vec!['o', 'b', 'j'])
        || range_eq(&v, 0, n, &vec!['s', 't', 'l']) || range_eq(&v, 0, n, &vec!['p', 'l', 'y'])
        || range_eq(&v, 0, n, &vec!['d', 'a', 'e']) || range_eq(&v, 0, n, &vec!['3', 'd', 's'])
}

/// The supported extensions, in the order a file dialog lists them.
pub fn supported_3d_extensions() -> (v: Vec<&'static str>)
    ensures
        v.len() == 8,
        v@[0]@ == seq!['g', 'l', 'b'],
        v@[1]@ == seq!['g', 'l', 't', 'f'],
        v@[2]@ == seq!['f', 'b', 'x'],
        v@[3]@ == seq!['o', 'b', 'j'],
        v@[4]@ == seq!['s', 't', 'l'],
        v@[5]@ == seq!['p', 'l', 'y'],
        v@[6]@ == seq!['d', 'a', 'e'],
        v@[7]@ == seq!['3', 'd', 's'],
        forall|e: Seq<char>| supported_extension(e) <==> exists|i: int|
            0 <= i < v.len() && #[trigger] v@[i]@ == e,
{
    let v = vec!["glb", "gltf", "fbx", "obj", "stl", "ply", "dae", "3ds"];
    proof {
        reveal_strlit("glb");
        reveal_strlit("gltf");
        reveal_strlit("fbx");
        reveal_strlit("obj");
        reveal_strlit("stl");
        reveal_strlit("ply");
        reveal_strlit("dae");
        reveal_strlit("3ds");
        assert(v@[0]@ =~= seq!['g', 'l', 'b']);
        assert(v@[1]@ =~= seq!['g', 'l', 't', 'f']);
        assert(v@[2]@ =~= seq!['f', 'b', 'x']);
        assert(v@[3]@ =~= seq!['o', 'b', 'j']);
        assert(v@[4]@ =~= seq!['s', 't', 'l']);
        assert(v@[5]@ =~= seq!['p', 'l', 'y']);
        assert(v@[6]@ =~= seq!['d', 'a', 'e']);
        assert(v@[7]@ =~= seq!['3', 'd', 's']);
    }
    v
}

/// Whether a file name has a supported 3D extension (case-insensitive): the
/// text after its last `.`. A name without a dot has no extension.
pub fn is_3d_file(name: &str) -> (r: bool)
    ensures
        r == spec_is_3d_file(name@),
        is_ascii_chars(after_last(name@, '.')) ==> r == ascii_is_3d_file(name@),
{
    let v = chars_of(name);
    let start = segment_start(&v, v.len(), '.');
    proof {
        assert(v@.subrange(0, v@.len() as int) =~= v@);
        lemma_after_last_is_suffix(v@, '.');
        if v@.contains('.') {
            let k = choose|k: int| 0 <= k < v@.len() && v@[k] == '.';
            if start == 0 {
                assert(after_last(v@, '.')[k] == '.');
            }
        }
    }
    if start == 0 {
        return false;
    }
    let ext = string_from_range(&v, start, v.len());
    let lower = to_lowercase(ext.as_str());
    proof {
        assert(v@[v@.len() - after_last(v@, '.').len() - 1] == '.');
    }
    is_supported_extension(lower.as_str())
}

/// Whether the file at `path` has a supported 3D extension (case-insensitive).
pub fn is_supported_format(path: &str) -> (r: bool)
    ensures
        r == spec_supported_path(path@),
        (unix_extension(path@) matches Some(ext) ==> is_ascii_chars(ext)) ==> r
            == ascii_supported_path(path@),
{
    match path_extension(path) {
        Some(ext) => {
            let lower = to_lowercase(ext.as_str());
            is_supported_extension(lower.as_str())
        },
        None => false,
    }
}

/// Splits paths into those with a supported 3D extension and the rest,
/// keeping the order of each.
pub fn partition_supported_paths(paths: Vec<String>) -> (r: (Vec<String>, Vec<String>))
    ensures
        r.0@ == paths@.filter(|p: String| spec_supported_path(p@)),
        r.1@ == paths@.filter(|p: String| !spec_supported_path(p@)),
{
    let ghost keep = |p: String| spec_supported_path(p@);
    let ghost drop = |p: String| !spec_supported_path(p@);
    let mut supported: Vec<String> = Vec::new();
    let mut unsupported: Vec<String> = Vec::new();
    let mut i: usize = 0;
    while i < paths.len()
        invariant
            i <= paths.len(),
            keep == (|p: String| spec_supported_path(p@)),
            drop == (|p: String| !spec_supported_path(p@)),
            supported@ == paths@.take(i as int).filter(keep),
            unsupported@ == paths@.take(i as int).filter(drop),
        decreases paths.len() - i,
    {
        let p = paths[i].clone();
        proof {
            assert(paths@.take(i + 1) == paths@.take(i as int).push(paths@[i as int]));
            paths@.take(i as int).lemma_filter_push(paths@[i as int], keep);
            paths@.take(i as int).lemma_filter_push(paths@[i as int], drop);
        }
        let ok = is_supported_format(p.as_str());
        if ok {
            supported.push(p);
        } else {
            unsupported.push(p);
        }
        i += 1;
    }
    proof {
        assert(paths@.take(paths.len() as int) =~= paths@);
    }
    (supported, unsupported)
}

/// The start of the last `/`-separated segment of `p[base..end]`: the
/// position right after its last `/`, or `base`.
pub open spec fn segment_start_from(p: Seq<char>, base: int, end: int) -> int
    decreases end - base,
{
    if end <= base {
        base
    } else if p[end - 1] == '/' {
        end
    } else {
        segment_start_from(p, base, end - 1)
    }
}

/// `p[..end]` with trailing empty and `.` components (and their separators)
/// removed, never going below `base`.
pub open spec fn trim_back(p: Seq<char>, base: int, end: int) -> int
    decreases end - base,
{
    if end <= base {
        end
    } else {
        let s = segment_start_from(p, base, end);
        let seg = p.subrange(s, end);
        if seg.len() == 0 || seg == seq!['.'] {
            proof {
                lemma_segment_start_bounds(p, base, end);
            }
            trim_back(p, base, if s > base { s - 1 } else { s })
        } else {
            end
        }
    }
}

/// The path starts at the root.
pub open spec fn has_root(p: Seq<char>) -> bool {
    p.len() > 0 && p[0] == '/'
}

/// The path is relative and starts with a `.` component.
pub open spec fn has_cur_dir_prefix(p: Seq<char>) -> bool {
    !has_root(p) && p.len() > 0 && p[0] == '.' && (p.len() == 1 || p[1] == '/')
}

/// The root (`/`) and a leading `.` component come before a path's body.
pub open spec fn body_start(p: Seq<char>) -> int {
    (if has_root(p) { 1int } else { 0int }) + (if has_cur_dir_prefix(p) { 1int } else { 0int })
}

/// The parent of a path, as `Path::parent` gives it on Unix: the path without
/// its last component (trailing separators and `.` components ignored). The
/// root and the empty path have none; `.` has the empty path.
pub open spec fn unix_parent(p: Seq<char>) -> Option<Seq<char>> {
    let base = body_start(p);
    let e = trim_back(p, base, p.len() as int);
    if e > base {
        let s = segment_start_from(p, base, e);
        let ne = if s > base { s - 1 } else { s };
        Some(p.subrange(0, trim_back(p, base, ne)))
    } else if has_root(p) {
        None
    } else if has_cur_dir_prefix(p) {
        Some(Seq::empty())
    } else {
        None
    }
}

/// Where the last segment of `p[base..end]` begins.
pub proof fn lemma_segment_start_bounds(p: Seq<char>, base: int, end: int)
    requires
        base <= end,
    ensures
        base <= segment_start_from(p, base, end) <= end,
        segment_start_from(p, base, end) > base ==> p[segment_start_from(p, base, end) - 1]
            == '/',
        forall|i: int| segment_start_from(p, base, end) <= i < end ==> p[i] != '/',
    decreases end - base,
{
    if end > base && p[end - 1] != '/' {
        lemma_segment_start_bounds(p, base, end - 1);
    }
}

/// Where `trim_back` ends.
pub proof fn lemma_trim_back_bounds(p: Seq<char>, base: int, end: int)
    requires
        base <= end,
    ensures
        base <= trim_back(p, base, end) <= end,
    decreases end - base,
{
    if end > base {
        let s = segment_start_from(p, base, end);
        lemma_segment_start_bounds(p, base, end);
        let seg = p.subrange(s, end);
        if seg.len() == 0 || seg == seq!['.'] {
            lemma_trim_back_bounds(p, base, if s > base { s - 1 } else { s });
        }
    }
}

fn segment_start_exec(v: &Vec<char>, base: usize, end: usize) -> (r: usize)
    requires
        base <= end <= v.len(),
    ensures
        r == segment_start_from(v@, base as int, end as int),
{
    let mut e: usize = end;
    while e > base && v[e - 1] != '/'
        invariant
            base <= e <= end,
            end <= v.len(),
            segment_start_from(v@, base as int, end as int) == segment_start_from(
                v@,
                base as int,
                e as int,
            ),
        decreases e,
    {
        e -= 1;
    }
    e
}

fn trim_back_exec(v: &Vec<char>, base: usize, end: usize) -> (r: usize)
    requires
        base <= end <= v.len(),
    ensures
        r == trim_back(v@, base as int, end as int),
{
    let dot = vec!['.'];
    let mut e: usize = end;
    while e > base
        invariant
            base <= e <= end,
            end <= v.len(),
            dot@ == seq!['.'],
            trim_back(v@, base as int, end as int) == trim_back(v@, base as int, e as int),
        decreases e,
    {
        let s = segment_start_exec(v, base, e);
        proof {
            lemma_segment_start_bounds(v@, base as int, e as int);
        }
        if s == e || range_eq(v, s, e, &dot) {
            proof {
                assert(s == e ==> v@.subrange(s as int, e as int).len() == 0);
            }
            e = if s > base {
                s - 1
            } else {
                s
            };
        } else {
            return e;
        }
    }
    e
}

/// The parent of a path, as `Path::parent` gives it on Unix.
pub fn path_parent(path: &str) -> (r: Option<String>)
    ensures
        match r {
            Some(s) => unix_parent(path@) == Some(s@),
            None => unix_parent(path@) is None,
        },
{
    let v = chars_of(path);
    let n: usize = v.len();
    let has_root = n > 0 && v[0] == '/';
    let cur = !has_root && n > 0 && v[0] == '.' && (n == 1 || v[1] == '/');
    let base: usize = (if has_root {
        1
    } else {
        0
    }) + (if cur {
        1
    } else {
        0
    });
    let e = trim_back_exec(&v, base, n);
    proof {
        lemma_trim_back_bounds(v@, base as int, n as int);
    }
    if e > base {
        let s = segment_start_exec(&v, base, e);
        proof {
            lemma_segment_start_bounds(v@, base as int, e as int);
        }
        let ne: usize = if s > base {
            s - 1
        } else {
            s
        };
        let t = trim_back_exec(&v, base, ne);
        proof {
            lemma_trim_back_bounds(v@, base as int, ne as int);
        }
        Some(string_from_range(&v, 0, t))
    } else if has_root {
        None
    } else if cur {
        Some(String::new())
    } else {
        None
    }
}

/// The normal components of `p[base..end]`: its `/`-separated segments
/// without the empty and `.` ones, in order.
pub open spec fn body_components(p: Seq<char>, base: int, end: int) -> Seq<Seq<char>>
    decreases end - base,
{
    if end <= base {
        Seq::empty()
    } else {
        let s = segment_start_from(p, base, end);
        let seg = p.subrange(s, end);
        proof {
            lemma_segment_start_bounds(p, base, end);
        }
        let rest = body_components(p, base, if s > base { s - 1 } else { s });
        if seg.len() == 0 || seg == seq!['.'] {
            rest
        } else {
            rest.push(seg)
        }
    }
}

/// What `Path`'s `==` compares on Unix: whether the path has a root, whether
/// it starts with a `.` component, and its other components.
pub struct PathKey {
    pub rooted: bool,
    pub dotted: bool,
    pub parts: Seq<Seq<char>>,
}

/// The key by which `Path` compares `p` with other paths.
pub open spec fn path_key(p: Seq<char>) -> PathKey {
    PathKey {
        rooted: has_root(p),
        dotted: has_cur_dir_prefix(p),
        parts: body_components(p, body_start(p), p.len() as int),
    }
}

/// Whether `a` and `b` are the same path for `Path`'s `==`, such as `a/b`,
/// `a//b/` and `a/./b`.
pub open spec fn same_path(a: Seq<char>, b: Seq<char>) -> bool {
    path_key(a) == path_key(b)
}

/// The components of `v[base..end]`, last first.
fn components_reversed(v: &Vec<char>, base: usize, end: usize) -> (r: Vec<String>)
    requires
        base <= end <= v.len(),
    ensures
        path_texts(r@).reverse() == body_components(v@, base as int, end as int),
{
    let dot = vec!['.'];
    let mut rev: Vec<String> = Vec::new();
    let mut e: usize = end;
    proof {
        assert(path_texts(rev@).reverse() =~= Seq::<Seq<char>>::empty());
        assert(body_components(v@, base as int, end as int) =~= body_components(
            v@,
            base as int,
            e as int,
        ) + path_texts(rev@).reverse());
    }
    while e > base
        invariant
            base <= e <= end,
            end <= v.len(),
            dot@ == seq!['.'],
            body_components(v@, base as int, end as int) == body_components(
                v@,
                base as int,
                e as int,
            ) + path_texts(rev@).reverse(),
        decreases e,
    {
        let s = segment_start_exec(v, base, e);
        proof {
            lemma_segment_start_bounds(v@, base as int, e as int);
        }
        let ghost before = rev@;
        let skip = s == e || range_eq(v, s, e, &dot);
        if !skip {
            let seg = string_from_range(v, s, e);
            rev.push(seg);
        }
        let ne: usize = if s > base {
            s - 1
        } else {
            s
        };
        proof {
            assert(s == e ==> v@.subrange(s as int, e as int).len() == 0);
            if !skip {
                assert(path_texts(rev@) =~= path_texts(before).push(
                    v@.subrange(s as int, e as int),
                ));
                assert(path_texts(rev@).reverse() =~= seq![v@.subrange(s as int, e as int)]
                    + path_texts(before).reverse());
                assert(body_components(v@, base as int, e as int) =~= body_components(
                    v@,
                    base as int,
                    ne as int,
                ).push(v@.subrange(s as int, e as int)));
            }
            assert(body_components(v@, base as int, end as int) =~= body_components(
                v@,
                base as int,
                ne as int,
            ) + path_texts(rev@).reverse());
        }
        e = ne;
    }
    proof {
        assert(body_components(v@, base as int, e as int) =~= Seq::<Seq<char>>::empty());
        assert(body_components(v@, base as int, end as int) =~= path_texts(rev@).reverse());
    }
    rev
}

/// Whether `a` and `b` are the same path, as `Path`'s `==` decides it on
/// Unix: the same root, leading `.` and components.
pub fn paths_equal(a: &str, b: &str) -> (r: bool)
    ensures
        r == same_path(a@, b@),
{
    let va = chars_of(a);
    let vb = chars_of(b);
    let na: usize = va.len();
    let nb: usize = vb.len();
    let root_a = na > 0 && va[0] == '/';
    let root_b = nb > 0 && vb[0] == '/';
    let dot_a = !root_a && na > 0 && va[0] == '.' && (na == 1 || va[1] == '/');
    let dot_b = !root_b && nb > 0 && vb[0] == '.' && (nb == 1 || vb[1] == '/');
    if root_a != root_b || dot_a != dot_b {
        return false;
    }
    let base_a: usize = (if root_a {
        1
    } else {
        0
    }) + (if dot_a {
        1
    } else {
        0
    });
    let base_b: usize = (if root_b {
        1
    } else {
        0
    }) + (if dot_b {
        1
    } else {
        0
    });
    let ra = components_reversed(&va, base_a, na);
    let rb = components_reversed(&vb, base_b, nb);
    let ghost ka = path_texts(ra@);
    let ghost kb = path_texts(rb@);
    proof {
        assert(ka.reverse().reverse() =~= ka);
        assert(kb.reverse().reverse() =~= kb);
        assert(base_a == body_start(a@));
        assert(base_b == body_start(b@));
        assert(path_key(a@).parts == ka.reverse());
        assert(path_key(b@).parts == kb.reverse());
    }
    if ra.len() != rb.len() {
        proof {
            assert(ka.reverse().len() != kb.reverse().len());
            assert(path_key(a@).parts.len() != path_key(b@).parts.len());
        }
        return false;
    }
    let mut i: usize = 0;
    while i < ra.len()
        invariant
            i <= ra@.len(),
            ra@.len() == rb@.len(),
            ka == path_texts(ra@),
            kb == path_texts(rb@),
            ka.reverse().reverse() == ka,
            kb.reverse().reverse() == kb,
            path_key(a@).parts == ka.reverse(),
            path_key(b@).parts == kb.reverse(),
            path_key(a@).rooted == path_key(b@).rooted,
            path_key(a@).dotted == path_key(b@).dotted,
            forall|k: int| 0 <= k < i ==> ka[k] == kb[k],
        decreases ra@.len() - i,
    {
        if !str_eq(ra[i].as_str(), rb[i].as_str()) {
            proof {
                assert(ka[i as int] != kb[i as int]);
                assert(ka.reverse().reverse()[i as int] != kb.reverse().reverse()[i as int]);
                assert(path_key(a@).parts != path_key(b@).parts);
            }
            return false;
        }
        i += 1;
    }
    proof {
        assert(ka =~= kb);
    }
    true
}

/// The paths of a list of strings, as character sequences.
pub open spec fn path_texts(v: Seq<String>) -> Seq<Seq<char>> {
    v.map_values(|p: String| p@)
}

/// Whether `path` is the same path as one of `paths`.
pub open spec fn lists_path(paths: Seq<String>, path: Seq<char>) -> bool {
    exists|j: int| 0 <= j < paths.len() && same_path(#[trigger] paths[j]@, path)
}

/// Queue a path that the system asked the application to open: empty paths
/// and paths already waiting are ignored.
pub fn push_pending_path(pending: &mut Vec<String>, path: String)
    ensures
        (path@.len() == 0 || lists_path(old(pending)@, path@)) ==> final(pending)@ == old(
            pending,
        )@,
        !(path@.len() == 0 || lists_path(old(pending)@, path@)) ==> final(pending)@ == old(
            pending,
        )@.push(path),
{
    if path.as_str().unicode_len() == 0 {
        return;
    }
    let mut i: usize = 0;
    while i < pending.len()
        invariant
            i <= pending@.len(),
            forall|j: int| 0 <= j < i ==> !same_path(#[trigger] pending@[j]@, path@),
        decreases pending@.len() - i,
    {
        if paths_equal(pending[i].as_str(), path.as_str()) {
            return;
        }
        i += 1;
    }
    pending.push(path);
}

/// For a plain file name (no `/`, not `..`) whose last dot is neither missing
/// nor the first character, `is_supported_format` and `is_3d_file` agree.
pub proof fn law_format_and_3d_file_agree(name: Seq<char>)
    requires
        !name.contains('/'),
        name != seq!['.', '.'],
        after_last(name, '.').len() + 1 < name.len(),
    ensures
        spec_supported_path(name) == spec_is_3d_file(name),
{
    assert forall|i: int| 0 <= i < name.len() implies name[i] != '/' by {
        if name[i] == '/' {
            assert(name.contains('/'));
        }
    }
    lemma_after_last_at(name, '/', 0);
    lemma_after_last_is_suffix(name, '.');
    assert(name.subrange(0, name.len() as int) =~= name);
    assert(name != seq!['.']);
    assert(unix_file_name(name) == Some(name));
}

/// Splitting by a predicate and its negation loses and adds nothing.
pub proof fn lemma_filter_split_len<A>(s: Seq<A>, pred: spec_fn(A) -> bool)
    ensures
        s.filter(pred).len() + s.filter(|x: A| !pred(x)).len() == s.len(),
    decreases s.len(),
{
    let neg = |x: A| !pred(x);
    if s.len() > 0 {
        lemma_filter_split_len(s.drop_last(), pred);
        assert(s.drop_last().push(s.last()) =~= s);
        s.drop_last().lemma_filter_push(s.last(), pred);
        s.drop_last().lemma_filter_push(s.last(), neg);
    } else {
        assert(s.filter(pred).len() <= 0) by {
            s.lemma_filter_len(pred);
        }
        assert(s.filter(neg).len() <= 0) by {
            s.lemma_filter_len(neg);
        }
    }
}

/// Partitioning paths keeps every path exactly once: the two parts together
/// are as long as the input.
pub proof fn law_partition_keeps_every_path(paths: Seq<String>)
    ensures
        paths.filter(|p: String| spec_supported_path(p@)).len() + paths.filter(
            |p: String| !spec_supported_path(p@),
        ).len() == paths.len(),
{
    let pred = |p: String| spec_supported_path(p@);
    lemma_filter_split_len(paths, pred);
    assert((|x: String| !pred(x)) =~= (|p: String| !spec_supported_path(p@)));
}

} // verus!
