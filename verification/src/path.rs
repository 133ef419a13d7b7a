//! Paths as text, compared the way a file system walks them: component by
//! component, so that doubled, trailing and `/./` separators do not matter.

use crate::data::{Dup, Same};
use crate::text;
use vstd::prelude::*;

verus! {

/// What one `/`-separated piece adds to a path. A piece `.` counts only at the
/// very start of a relative path.
pub open spec fn piece(s: Seq<char>, first: bool) -> Seq<Seq<char>> {
    if s.len() == 0 || (s == seq!['.'] && !first) {
        Seq::empty()
    } else {
        seq![s]
    }
}

pub open spec fn pieces(segments: Seq<Seq<char>>) -> Seq<Seq<char>>
    decreases segments.len(),
{
    if segments.len() == 0 {
        Seq::empty()
    } else {
        pieces(segments.drop_last()) + piece(segments.last(), segments.len() == 1)
    }
}

/// The components of a path. An absolute path starts with the component `/`.
pub open spec fn components(p: Seq<char>) -> Seq<Seq<char>> {
    (if is_absolute(p) {
        seq![seq!['/']]
    } else {
        Seq::empty()
    }) + pieces(text::split(p, '/'))
}

pub open spec fn is_absolute(p: Seq<char>) -> bool {
    p.len() > 0 && p[0] == '/'
}

/// Whether two texts name the same path.
pub open spec fn same_path(p: Seq<char>, q: Seq<char>) -> bool {
    components(p) == components(q)
}

/// Some text names the path `p`.
pub open spec fn among(paths: Seq<Seq<char>>, p: Seq<char>) -> bool {
    exists|i: int| 0 <= i < paths.len() && same_path(#[trigger] paths[i], p)
}

/// How many different paths some texts name.
pub open spec fn distinct(paths: Seq<Seq<char>>) -> nat
    decreases paths.len(),
{
    if paths.len() == 0 {
        0
    } else {
        distinct(paths.drop_last()) + if among(paths.drop_last(), paths.last()) {
            0nat
        } else {
            1nat
        }
    }
}

/// The kinds of component in their order: root, here, up, names.
pub open spec fn rank(part: Seq<char>) -> int {
    if part == seq!['/'] {
        0
    } else if part == seq!['.'] {
        1
    } else if part == seq!['.', '.'] {
        2
    } else {
        3
    }
}

pub open spec fn part_less(a: Seq<char>, b: Seq<char>) -> bool {
    rank(a) < rank(b) || (rank(a) == 3 && rank(b) == 3 && text::less(a, b))
}

pub open spec fn parts_less(a: Seq<Seq<char>>, b: Seq<Seq<char>>) -> bool
    decreases a.len(),
{
    if b.len() == 0 {
        false
    } else if a.len() == 0 {
        true
    } else if a[0] == b[0] {
        parts_less(a.drop_first(), b.drop_first())
    } else {
        part_less(a[0], b[0])
    }
}

/// The order of paths: by the first component in which they differ.
pub open spec fn less(p: Seq<char>, q: Seq<char>) -> bool {
    parts_less(components(p), components(q))
}

pub proof fn lemma_part_less(a: Seq<char>, b: Seq<char>, c: Seq<char>)
    ensures
        !part_less(a, a),
        part_less(a, b) && part_less(b, c) ==> part_less(a, c),
        a == b || part_less(a, b) || part_less(b, a),
{
    text::lemma_less_irreflexive(a);
    text::lemma_less_total(a, b);
    if text::less(a, b) && text::less(b, c) {
        text::lemma_less_transitive(a, b, c);
    }
}

pub proof fn lemma_parts_less(a: Seq<Seq<char>>, b: Seq<Seq<char>>, c: Seq<Seq<char>>)
    ensures
        !parts_less(a, a),
        parts_less(a, b) && parts_less(b, c) ==> parts_less(a, c),
        a == b || parts_less(a, b) || parts_less(b, a),
    decreases a.len(),
{
    if a.len() > 0 {
        lemma_part_less(a[0], a[0], a[0]);
        lemma_parts_less(a.drop_first(), a.drop_first(), a.drop_first());
    }
    if a.len() > 0 && b.len() > 0 {
        if c.len() > 0 {
            lemma_part_less(a[0], b[0], c[0]);
            lemma_part_less(b[0], c[0], a[0]);
            lemma_part_less(b[0], a[0], b[0]);
            lemma_parts_less(a.drop_first(), b.drop_first(), c.drop_first());
        } else {
            lemma_part_less(a[0], b[0], a[0]);
            lemma_parts_less(a.drop_first(), b.drop_first(), c);
        }
        if a[0] == b[0] && a.drop_first() == b.drop_first() {
            assert(a =~= seq![a[0]] + a.drop_first());
            assert(b =~= seq![b[0]] + b.drop_first());
        }
    } else if a.len() == 0 && b.len() == 0 {
        assert(a =~= b);
    }
}

/// The order of paths is strict and total, up to naming the same path.
pub proof fn lemma_less(a: Seq<char>, b: Seq<char>, c: Seq<char>)
    ensures
        !less(a, a),
        less(a, b) && less(b, c) ==> less(a, c),
        !less(a, b) && !less(b, c) ==> !less(a, c),
        same_path(a, b) || less(a, b) || less(b, a),
{
    let (x, y, z) = (components(a), components(b), components(c));
    lemma_parts_less(x, y, z);
    lemma_parts_less(y, z, x);
    lemma_parts_less(x, z, y);
    lemma_parts_less(z, y, x);
    lemma_parts_less(y, x, z);
    lemma_parts_less(z, x, y);
}

/// `q` below `p`; an absolute `q` stands for itself.
pub open spec fn joined(p: Seq<char>, q: Seq<char>) -> Seq<char> {
    if is_absolute(q) {
        q
    } else if p.len() == 0 || p.last() == '/' {
        p + q
    } else {
        p + "/"@ + q
    }
}

// ---------------------------------------------------------------------------
/// `q` below `p`; an absolute `q` stands for itself.
pub fn join(p: &str, q: &str) -> (r: String)
    ensures
        r@ == joined(p@, q@),
{
    if absolute(q) {
        return q.to_owned();
    }
    let mut out: String = p.to_owned();
    let n: usize = p.unicode_len();
    if n > 0 && p.get_char(n - 1) != '/' {
        out.append("/");
    }
    out.append(q);
    out
}

/// Whether a text is the single character `c`.
fn is_char(s: &str, c: char) -> (r: bool)
    ensures
        r == (s@ == seq![c]),
{
    if s.unicode_len() == 1 && s.get_char(0) == c {
        assert(s@ =~= seq![c]);
        true
    } else {
        false
    }
}

pub fn absolute(p: &str) -> (r: bool)
    ensures
        r == is_absolute(p@),
{
    p.unicode_len() > 0 && p.get_char(0) == '/'
}

/// The components of a path.
pub fn components_of(p: &str) -> (r: Vec<String>)
    ensures
        r.deep_view() == components(p@),
{
    let mut out: Vec<String> = Vec::new();
    if absolute(p) {
        let mut root: String = String::new();
        root.push('/');
        assert(root@ =~= seq!['/']);
        out.push(root);
    }
    let ghost start = out.deep_view();
    assert(is_absolute(p@) ==> start =~= seq![seq!['/']]);
    assert(!is_absolute(p@) ==> start =~= Seq::empty());
    let segments: Vec<String> = text::split_of(p, '/');
    let ghost all = segments.deep_view();
    let mut k: usize = 0;
    assert(start + pieces(all.take(0)) =~= start);
    while k < segments.len()
        invariant
            k <= segments.len(),
            all == segments.deep_view(),
            out.deep_view() == start + pieces(all.take(k as int)),
        decreases segments.len() - k,
    {
        let ghost next = all.take(k + 1);
        assert(next.drop_last() =~= all.take(k as int));
        assert(next.last() == segments[k as int]@);
        let ghost was = out.deep_view();
        if segments[k].unicode_len() == 0 || (k > 0 && is_char(&segments[k], '.')) {
            assert(pieces(next) =~= pieces(all.take(k as int)));
        } else {
            out.push(segments[k].clone());
            assert(out.deep_view() =~= was.push(segments[k as int]@));
            assert(start + pieces(next) =~= was.push(segments[k as int]@));
        }
        k += 1;
    }
    assert(all.take(k as int) =~= all);
    out
}

/// Whether two texts name the same path.
pub fn same(p: &str, q: &str) -> (r: bool)
    ensures
        r == same_path(p@, q@),
{
    components_of(p).same(&components_of(q))
}

/// Whether one of the first `upto` texts names the path `p`.
fn is_among_first(paths: &Vec<String>, upto: usize, p: &str) -> (r: bool)
    requires
        upto <= paths.len(),
    ensures
        r == among(paths.deep_view().take(upto as int), p@),
{
    let ghost all = paths.deep_view().take(upto as int);
    let mut k: usize = 0;
    while k < upto
        invariant
            k <= upto <= paths.len(),
            all == paths.deep_view().take(upto as int),
            forall|i: int| 0 <= i < k ==> !same_path(#[trigger] all[i], p@),
        decreases upto - k,
    {
        assert(all[k as int] == paths[k as int]@);
        if same(&paths[k], p) {
            return true;
        }
        k += 1;
    }
    false
}

/// Whether some text names the path `p`.
pub fn is_among(paths: &Vec<String>, p: &str) -> (r: bool)
    ensures
        r == among(paths.deep_view(), p@),
{
    assert(paths.deep_view().take(paths.len() as int) =~= paths.deep_view());
    is_among_first(paths, paths.len(), p)
}

/// How many different paths some texts name.
pub fn count_distinct(paths: &Vec<String>) -> (r: usize)
    ensures
        r == distinct(paths.deep_view()),
{
    let ghost all = paths.deep_view();
    let mut n: usize = 0;
    let mut k: usize = 0;
    assert(all.take(0) =~= Seq::empty());
    while k < paths.len()
        invariant
            k <= paths.len(),
            n <= k,
            all == paths.deep_view(),
            n == distinct(all.take(k as int)),
        decreases paths.len() - k,
    {
        proof {
            assert(all.take(k + 1).drop_last() =~= all.take(k as int));
            assert(all.take(k + 1).last() == paths[k as int]@);
        }
        if !is_among_first(paths, k, &paths[k]) {
            n = n + 1;
        }
        k += 1;
    }
    assert(all.take(k as int) =~= all);
    n
}

fn rank_of(part: &str) -> (r: u8)
    ensures
        r == rank(part@),
{
    if is_char(part, '/') {
        0
    } else if is_char(part, '.') {
        1
    } else if part.unicode_len() == 2 && part.get_char(0) == '.' && part.get_char(1) == '.' {
        assert(part@ =~= seq!['.', '.']);
        2
    } else {
        assert(part@ == seq!['.', '.'] ==> part@.len() == 2 && part@[0] == '.' && part@[1] == '.');
        3
    }
}

/// Whether `p` comes before `q` in path order.
pub fn before(p: &str, q: &str) -> (r: bool)
    ensures
        r == less(p@, q@),
{
    let v: Vec<String> = components_of(p);
    let w: Vec<String> = components_of(q);
    let ghost a = v.deep_view();
    let ghost b = w.deep_view();
    let mut k: usize = 0;
    assert(a.skip(0) =~= a);
    assert(b.skip(0) =~= b);
    while k < v.len() && k < w.len() && v[k] == w[k]
        invariant
            a == v.deep_view(),
            b == w.deep_view(),
            k <= v.len(),
            k <= w.len(),
            parts_less(a, b) == parts_less(a.skip(k as int), b.skip(k as int)),
        decreases v.len() - k,
    {
        assert(a.skip(k as int).drop_first() =~= a.skip(k + 1));
        assert(b.skip(k as int).drop_first() =~= b.skip(k + 1));
        k += 1;
    }
    if k == w.len() {
        false
    } else if k == v.len() {
        true
    } else {
        let i: u8 = rank_of(&v[k]);
        let j: u8 = rank_of(&w[k]);
        i < j || (i == 3 && j == 3 && text::before(&v[k], &w[k]))
    }
}

// ---------------------------------------------------------------------------
// Parts of paths
/// Components without `.` and with every `..` taking back what precedes it.
pub open spec fn normalized_parts(parts: Seq<Seq<char>>) -> Seq<Seq<char>>
    decreases parts.len(),
{
    if parts.len() == 0 {
        Seq::empty()
    } else {
        let before = normalized_parts(parts.drop_last());
        let last = parts.last();
        if rank(last) == 2 {
            if before.len() > 0 && rank(before.last()) != 0 {
                before.drop_last()
            } else {
                before
            }
        } else if rank(last) == 1 {
            before
        } else {
            before.push(last)
        }
    }
}

/// The path that some components make up.
pub open spec fn parts_text(parts: Seq<Seq<char>>) -> Seq<char> {
    if parts.len() > 0 && rank(parts[0]) == 0 {
        "/"@ + text::join(parts.drop_first(), "/"@)
    } else {
        text::join(parts, "/"@)
    }
}

/// A path without `.` and `..`.
pub open spec fn normalized(p: Seq<char>) -> Seq<char> {
    parts_text(normalized_parts(components(p)))
}

/// The last component, when it is a name.
pub open spec fn file_name(p: Seq<char>) -> Option<Seq<char>> {
    let parts = components(p);
    if parts.len() > 0 && rank(parts.last()) == 3 {
        Some(parts.last())
    } else {
        None
    }
}

/// How many characters stand before the last `.`; nothing when there is none.
pub open spec fn before_dot(name: Seq<char>) -> Option<int>
    decreases name.len(),
{
    if name.len() == 0 {
        None
    } else if name.last() == '.' {
        Some(name.len() - 1)
    } else {
        before_dot(name.drop_last())
    }
}

/// What follows the last `.` of the file name, unless that is its start.
pub open spec fn extension(p: Seq<char>) -> Option<Seq<char>> {
    match file_name(p) {
        Some(name) => match before_dot(name) {
            Some(k) => if k > 0 {
                Some(name.skip(k + 1))
            } else {
                None
            },
            None => None,
        },
        None => None,
    }
}

/// The path without its last component; nothing for the root and for no path.
pub open spec fn parent(p: Seq<char>) -> Option<Seq<char>> {
    let parts = components(p);
    if parts.len() > 0 && rank(parts.last()) != 0 {
        Some(parts_text(parts.drop_last()))
    } else {
        None
    }
}

/// Where `file`, given in `cwd`, lies below `root`. A path outside is taken as
/// relative to `root`.
pub open spec fn relative(root: Seq<char>, cwd: Seq<char>, file: Seq<char>) -> Seq<char> {
    let absolute = normalized_parts(components(joined(cwd, file)));
    let top = normalized_parts(components(root));
    if top.is_prefix_of(absolute) {
        parts_text(absolute.skip(top.len() as int))
    } else {
        normalized(file)
    }
}

/// Whether a path is `dir` or lies below it.
pub open spec fn is_below(p: Seq<char>, dir: Seq<char>) -> bool {
    components(dir).is_prefix_of(components(p))
}

/// Where a path lies below `dir`.
pub open spec fn below(dir: Seq<char>, p: Seq<char>) -> Seq<char> {
    parts_text(components(p).skip(components(dir).len() as int))
}

fn is_prefix(top: &Vec<String>, parts: &Vec<String>) -> (r: bool)
    ensures
        r == top.deep_view().is_prefix_of(parts.deep_view()),
{
    let ghost a = parts.deep_view();
    let ghost t = top.deep_view();
    if top.len() > parts.len() {
        return false;
    }
    let mut k: usize = 0;
    while k < top.len()
        invariant
            k <= top.len() <= parts.len(),
            a == parts.deep_view(),
            t == top.deep_view(),
            forall|i: int| 0 <= i < k ==> a[i] == t[i],
        decreases top.len() - k,
    {
        assert(a[k as int] == parts[k as int]@ && t[k as int] == top[k as int]@);
        if parts[k] != top[k] {
            assert(a.subrange(0, t.len() as int)[k as int] != t[k as int]);
            return false;
        }
        k += 1;
    }
    assert(a.subrange(0, t.len() as int) =~= t);
    true
}

/// Whether a path is `dir` or lies below it.
pub fn lies_below(p: &str, dir: &str) -> (r: bool)
    ensures
        r == is_below(p@, dir@),
{
    is_prefix(&components_of(dir), &components_of(p))
}

/// Where a path lies below `dir`.
pub fn strip(dir: &str, p: &str) -> (r: String)
    requires
        is_below(p@, dir@),
    ensures
        r@ == below(dir@, p@),
{
    let top: Vec<String> = components_of(dir);
    let parts: Vec<String> = components_of(p);
    assert(top.deep_view().len() <= parts.deep_view().len());
    text_of(&parts, top.len())
}

fn normalize_parts(parts: &Vec<String>) -> (r: Vec<String>)
    ensures
        r.deep_view() == normalized_parts(parts.deep_view()),
{
    let ghost all = parts.deep_view();
    let mut out: Vec<String> = Vec::new();
    let mut k: usize = 0;
    assert(out.deep_view() =~= normalized_parts(all.take(0)));
    while k < parts.len()
        invariant
            k <= parts.len(),
            all == parts.deep_view(),
            out.deep_view() == normalized_parts(all.take(k as int)),
        decreases parts.len() - k,
    {
        let ghost was = out.deep_view();
        proof {
            assert(all.take(k + 1).drop_last() =~= all.take(k as int));
            assert(all.take(k + 1).last() == parts[k as int]@);
        }
        let r: u8 = rank_of(&parts[k]);
        if r == 2 {
            let n: usize = out.len();
            if n > 0 {
                assert(was.last() == out[n - 1]@);
                if rank_of(&out[n - 1]) != 0 {
                    let _ = out.pop();
                    assert(out.deep_view() =~= was.drop_last());
                }
            }
        } else if r != 1 {
            out.push(parts[k].dup());
            assert(out.deep_view() =~= was.push(parts[k as int]@));
        }
        k += 1;
    }
    assert(all.take(k as int) =~= all);
    out
}

/// The path that the components from `from` on make up.
fn text_of(parts: &Vec<String>, from: usize) -> (r: String)
    requires
        from <= parts.len(),
    ensures
        r@ == parts_text(parts.deep_view().skip(from as int)),
{
    let ghost rest = parts.deep_view().skip(from as int);
    let root: bool = from < parts.len() && rank_of(&parts[from]) == 0;
    assert(from < parts.len() ==> rest[0] == parts[from as int]@);
    let mut names: Vec<String> = Vec::new();
    let start: usize = if root {
        from + 1
    } else {
        from
    };
    let ghost tail = parts.deep_view().skip(start as int);
    let mut k: usize = start;
    while k < parts.len()
        invariant
            start <= k <= parts.len(),
            tail == parts.deep_view().skip(start as int),
            names.deep_view() =~= tail.take(k - start),
        decreases parts.len() - k,
    {
        let ghost was = names.deep_view();
        names.push(parts[k].dup());
        assert(names.deep_view() =~= was.push(parts[k as int]@));
        k += 1;
    }
    assert(tail.take(k - start) =~= tail);
    if root {
        assert(tail =~= rest.drop_first());
        text::cat2("/", &text::join_of(&names, "/"))
    } else {
        text::join_of(&names, "/")
    }
}

/// A path without `.` and `..`.
pub fn normalize(p: &str) -> (r: String)
    ensures
        r@ == normalized(p@),
{
    let parts: Vec<String> = normalize_parts(&components_of(p));
    assert(parts.deep_view().skip(0) =~= parts.deep_view());
    text_of(&parts, 0)
}

/// The last component, when it is a name.
pub fn file_name_of(p: &str) -> (r: Option<String>)
    ensures
        r.deep_view() == file_name(p@),
{
    let parts: Vec<String> = components_of(p);
    let n: usize = parts.len();
    assert(n > 0 ==> parts.deep_view().last() == parts[n - 1]@);
    if n > 0 && rank_of(&parts[n - 1]) == 3 {
        Some(parts[n - 1].dup())
    } else {
        None
    }
}

/// What follows the last `.` of the file name, unless that is its start.
pub fn extension_of(p: &str) -> (r: Option<String>)
    ensures
        r.deep_view() == extension(p@),
{
    match file_name_of(p) {
        Some(name) => {
            let v: Vec<char> = text::chars_of(&name);
            let mut k: usize = v.len();
            assert(name@.take(k as int) =~= name@);
            while k > 0
                invariant
                    k <= v.len(),
                    v@ == name@,
                    before_dot(name@) == before_dot(name@.take(k as int)),
                    file_name(p@) == Some(name@),
                decreases k,
            {
                assert(name@.take(k as int).last() == v[k - 1]);
                if v[k - 1] == '.' {
                    if k == 1 {
                        return None;
                    }
                    let n: usize = v.len();
                    assert(name@.subrange(k as int, n as int) =~= name@.skip(k as int));
                    return Some(name.as_str().substring_char(k, n).to_owned());
                }
                assert(name@.take(k as int).drop_last() =~= name@.take(k - 1));
                k -= 1;
            }
            None
        },
        None => None,
    }
}

/// The path without its last component; nothing for the root and for no path.
pub fn parent_of(p: &str) -> (r: Option<String>)
    ensures
        r.deep_view() == parent(p@),
{
    let mut parts: Vec<String> = components_of(p);
    let ghost all = parts.deep_view();
    let n: usize = parts.len();
    assert(n > 0 ==> all.last() == parts[n - 1]@);
    if n > 0 && rank_of(&parts[n - 1]) != 0 {
        let _ = parts.pop();
        assert(parts.deep_view() =~= all.drop_last());
        assert(parts.deep_view().skip(0) =~= parts.deep_view());
        Some(text_of(&parts, 0))
    } else {
        None
    }
}

/// Where `file`, given in `cwd`, lies below `root`.
pub fn relative_to(root: &str, cwd: &str, file: &str) -> (r: String)
    ensures
        r@ == relative(root@, cwd@, file@),
{
    let absolute: Vec<String> = normalize_parts(&components_of(&join(cwd, file)));
    let top: Vec<String> = normalize_parts(&components_of(root));
    let ghost a = absolute.deep_view();
    let ghost t = top.deep_view();
    if !is_prefix(&top, &absolute) {
        return normalize(file);
    }
    assert(t.len() <= a.len());
    text_of(&absolute, top.len())
}

// ---------------------------------------------------------------------------
// Normal forms
/// A component that is a plain name.
pub open spec fn is_name(part: Seq<char>) -> bool {
    &&& part.len() > 0
    &&& rank(part) == 3
    &&& forall|i: int| 0 <= i < part.len() ==> part[i] != '/'
}

proof fn lemma_split_parts(s: Seq<char>)
    ensures
        forall|i: int, j: int|
            0 <= i < text::split(s, '/').len() && 0 <= j < text::split(s, '/')[i].len()
                ==> #[trigger] text::split(s, '/')[i][j] != '/',
    decreases s.len(),
{
    text::lemma_before_first(s, '/');
    let k = text::before_first(s, '/');
    if k < s.len() {
        lemma_split_parts(s.skip(k + 1));
        let rest = text::split(s.skip(k + 1), '/');
        assert forall|i: int, j: int|
            0 <= i < text::split(s, '/').len() && 0 <= j < text::split(s, '/')[i].len() implies
            #[trigger] text::split(s, '/')[i][j] != '/' by {
            if i == 0 {
                assert(text::split(s, '/')[0] == s.take(k));
            } else {
                assert(text::split(s, '/')[i] == rest[i - 1]);
            }
        }
    }
}

proof fn lemma_pieces(segments: Seq<Seq<char>>, k: int)
    requires
        0 <= k <= segments.len(),
        forall|i: int, j: int|
            0 <= i < segments.len() && 0 <= j < segments[i].len() ==> #[trigger] segments[i][j]
                != '/',
    ensures
        forall|i: int| #![trigger pieces(segments.take(k))[i]]
            0 <= i < pieces(segments.take(k)).len() ==> {
                &&& pieces(segments.take(k))[i].len() > 0
                &&& rank(pieces(segments.take(k))[i]) != 0
                &&& forall|j: int|
                    0 <= j < pieces(segments.take(k))[i].len() ==> pieces(segments.take(k))[i][j]
                        != '/'
            },
    decreases k,
{
    if k > 0 {
        lemma_pieces(segments, k - 1);
        let some = segments.take(k);
        assert(some.drop_last() =~= segments.take(k - 1));
        let p = pieces(some);
        let q = pieces(segments.take(k - 1));
        assert forall|i: int| #![trigger p[i]] 0 <= i < p.len() implies {
            &&& p[i].len() > 0
            &&& rank(p[i]) != 0
            &&& forall|j: int| 0 <= j < p[i].len() ==> p[i][j] != '/'
        } by {
            if i < q.len() {
                assert(p[i] == q[i]);
            } else {
                assert(p[i] == segments[k - 1]);
                let last = k - 1;
                assert(forall|j: int| 0 <= j < p[i].len() ==> #[trigger] segments[last][j] != '/');
                if p[i] == seq!['/'] {
                    assert(p[i][0] == '/');
                }
            }
        }
    }
}

/// A list of components in normal form: names, behind a root if there is one.
pub open spec fn normal_parts(parts: Seq<Seq<char>>) -> bool {
    forall|i: int|
        0 <= i < parts.len() ==> is_name(#[trigger] parts[i]) || (i == 0 && parts[i] == seq!['/'])
}

proof fn lemma_components(p: Seq<char>)
    ensures
        forall|i: int| #![trigger components(p)[i]]
            0 <= i < components(p).len() ==> {
                ||| (i == 0 && components(p)[0] == seq!['/'])
                ||| (components(p)[i].len() > 0 && rank(components(p)[i]) != 0 && forall|j: int|
                    0 <= j < components(p)[i].len() ==> components(p)[i][j] != '/')
            },
{
    let segments = text::split(p, '/');
    lemma_split_parts(p);
    lemma_pieces(segments, segments.len() as int);
    assert(segments.take(segments.len() as int) =~= segments);
    let c = components(p);
    let ps = pieces(segments);
    let shift = if is_absolute(p) {
        1int
    } else {
        0int
    };
    assert forall|i: int| #![trigger c[i]] 0 <= i < c.len() implies {
        ||| (i == 0 && c[0] == seq!['/'])
        ||| (c[i].len() > 0 && rank(c[i]) != 0 && forall|j: int|
            0 <= j < c[i].len() ==> c[i][j] != '/')
    } by {
        if i >= shift {
            assert(c[i] == ps[i - shift]);
        }
    }
}

proof fn lemma_normalized_parts(parts: Seq<Seq<char>>, k: int)
    requires
        0 <= k <= parts.len(),
        forall|i: int| #![trigger parts[i]]
            0 <= i < parts.len() ==> {
                ||| (i == 0 && parts[0] == seq!['/'])
                ||| (parts[i].len() > 0 && rank(parts[i]) != 0 && forall|j: int|
                    0 <= j < parts[i].len() ==> parts[i][j] != '/')
            },
    ensures
        normal_parts(normalized_parts(parts.take(k))),
    decreases k,
{
    if k > 0 {
        lemma_normalized_parts(parts, k - 1);
        let some = parts.take(k);
        assert(some.drop_last() =~= parts.take(k - 1));
        let before = normalized_parts(parts.take(k - 1));
        let last = parts[k - 1];
        assert(some.last() == last);
        if rank(last) == 0 {
            assert(last == seq!['/']);
            assert(k == 1) by {
                if k > 1 {
                    assert(last[0] == '/');
                }
            }
            assert(before =~= Seq::empty());
        }
    }
}

/// A normal form stays as it is.
proof fn lemma_normal_fixed(parts: Seq<Seq<char>>, k: int)
    requires
        normal_parts(parts),
        0 <= k <= parts.len(),
    ensures
        normalized_parts(parts.take(k)) == parts.take(k),
    decreases k,
{
    if k > 0 {
        lemma_normal_fixed(parts, k - 1);
        assert(parts.take(k).drop_last() =~= parts.take(k - 1));
        assert(is_name(parts[k - 1]) || parts[k - 1] == seq!['/']);
        assert(parts.take(k - 1).push(parts[k - 1]) =~= parts.take(k));
    } else {
        assert(parts.take(0) =~= Seq::empty());
    }
}

/// Normalising the components of a path once is enough: a second time changes
/// nothing, and what is left are names, behind the root if the path is
/// absolute.
pub proof fn lemma_normalize_once(p: Seq<char>)
    ensures
        ({
            let parts = normalized_parts(components(p));
            &&& normal_parts(parts)
            &&& normalized_parts(parts) == parts
        }),
{
    lemma_components(p);
    let c = components(p);
    lemma_normalized_parts(c, c.len() as int);
    assert(c.take(c.len() as int) =~= c);
    let parts = normalized_parts(c);
    lemma_normal_fixed(parts, parts.len() as int);
    assert(parts.take(parts.len() as int) =~= parts);
}

proof fn lemma_split_push(a: Seq<char>, b: Seq<char>)
    requires
        forall|i: int| 0 <= i < b.len() ==> b[i] != '/',
    ensures
        text::split(a + seq!['/'] + b, '/') == text::split(a, '/').push(b),
    decreases a.len(),
{
    let s = a + seq!['/'] + b;
    let k = text::before_first(a, '/');
    text::lemma_before_first(a, '/');
    assert forall|i: int| 0 <= i < k implies s[i] != '/' by {
        assert(s[i] == a[i]);
    }
    text::lemma_before_first_unique(s, '/', k);
    if k < a.len() {
        let rest = a.skip(k + 1);
        lemma_split_push(rest, b);
        assert(s.skip(k + 1) =~= rest + seq!['/'] + b);
        assert(s.take(k) =~= a.take(k));
        assert(text::split(s, '/') =~= text::split(a, '/').push(b));
    } else {
        assert(s.take(k) =~= a);
        assert(s.skip(k + 1) =~= b);
        text::lemma_before_first_unique(b, '/', b.len() as int);
        assert(text::split(b, '/') == seq![b]);
        assert(text::split(a, '/') == seq![a]);
        assert(text::split(s, '/') == seq![s.take(k)] + text::split(s.skip(k + 1), '/'));
        assert(text::split(s, '/') =~= text::split(a, '/').push(b));
    }
}

proof fn lemma_split_join(names: Seq<Seq<char>>)
    requires
        names.len() > 0,
        forall|i: int| 0 <= i < names.len() ==> is_name(#[trigger] names[i]),
    ensures
        text::split(text::join(names, "/"@), '/') == names,
        text::join(names, "/"@).len() > 0,
        text::join(names, "/"@)[0] == names[0][0],
    decreases names.len(),
{
    reveal_strlit("/");
    assert("/"@ =~= seq!['/']);
    let last = names.last();
    assert(is_name(names[names.len() - 1]));
    assert(is_name(names[0]));
    if names.len() == 1 {
        text::lemma_before_first_unique(last, '/', last.len() as int);
        assert(text::split(last, '/') =~= names);
    } else {
        let rest = names.drop_last();
        assert forall|i: int| 0 <= i < rest.len() implies is_name(#[trigger] rest[i]) by {
            assert(rest[i] == names[i]);
        }
        lemma_split_join(rest);
        lemma_split_push(text::join(rest, "/"@), last);
        assert(rest.push(last) =~= names);
    }
}

proof fn lemma_pieces_names(names: Seq<Seq<char>>, k: int)
    requires
        0 <= k <= names.len(),
        forall|i: int| 0 <= i < names.len() ==> is_name(#[trigger] names[i]),
    ensures
        pieces(names.take(k)) == names.take(k),
    decreases k,
{
    if k > 0 {
        lemma_pieces_names(names, k - 1);
        assert(names.take(k).drop_last() =~= names.take(k - 1));
        assert(is_name(names[k - 1]));
        assert(pieces(names.take(k)) =~= names.take(k));
    } else {
        assert(names.take(0) =~= Seq::empty());
    }
}

proof fn lemma_pieces_shifted(names: Seq<Seq<char>>, k: int)
    requires
        0 <= k <= names.len(),
        forall|i: int| 0 <= i < names.len() ==> is_name(#[trigger] names[i]),
    ensures
        pieces(seq![Seq::<char>::empty()] + names.take(k)) == names.take(k),
    decreases k,
{
    let s = seq![Seq::<char>::empty()] + names.take(k);
    if k > 0 {
        lemma_pieces_shifted(names, k - 1);
        assert(s.drop_last() =~= seq![Seq::<char>::empty()] + names.take(k - 1));
        assert(s.last() == names[k - 1]);
        assert(is_name(names[k - 1]));
        assert(pieces(s) =~= names.take(k));
    } else {
        assert(s.drop_last() =~= Seq::empty());
        assert(pieces(Seq::empty()) =~= Seq::empty());
        assert(pieces(s) =~= names.take(0));
    }
}

/// Components in normal form are those of the path they make up.
pub proof fn lemma_parts_text(parts: Seq<Seq<char>>)
    requires
        normal_parts(parts),
    ensures
        components(parts_text(parts)) == parts,
{
    reveal_strlit("/");
    assert("/"@ =~= seq!['/']);
    let t = parts_text(parts);
    if parts.len() == 0 {
        assert(t =~= Seq::empty());
        assert(text::split(t, '/') =~= seq![Seq::empty()]);
        lemma_pieces_shifted(parts, 0);
        assert(parts.take(0) =~= parts);
        assert(seq![Seq::<char>::empty()] + parts.take(0) =~= seq![Seq::<char>::empty()]);
        assert(components(t) =~= parts);
    } else if rank(parts[0]) == 0 {
        let names = parts.drop_first();
        assert forall|i: int| 0 <= i < names.len() implies is_name(#[trigger] names[i]) by {
            assert(is_name(parts[i + 1]));
        }
        let n = names.len() as int;
        assert(names.take(n) =~= names);
        lemma_pieces_shifted(names, n);
        let j = text::join(names, "/"@);
        assert(t =~= seq!['/'] + j);
        text::lemma_before_first_unique(t, '/', 0);
        assert(t.take(0) =~= Seq::empty());
        assert(t.skip(1) =~= j);
        if n > 0 {
            lemma_split_join(names);
            assert(text::split(t, '/') =~= seq![Seq::<char>::empty()] + names);
        } else {
            assert(j =~= Seq::empty());
            assert(text::split(j, '/') =~= seq![Seq::empty()]);
            let two = seq![Seq::<char>::empty(), Seq::<char>::empty()];
            assert(text::split(t, '/') =~= two);
            assert(two.drop_last() =~= seq![Seq::<char>::empty()] + names);
            assert(pieces(two) =~= Seq::empty());
        }
        assert(parts[0] == seq!['/']);
        assert(components(t) =~= parts);
    } else {
        assert forall|i: int| 0 <= i < parts.len() implies is_name(#[trigger] parts[i]) by {
            assert(is_name(parts[i]) || parts[i] == seq!['/']);
        }
        lemma_split_join(parts);
        lemma_pieces_names(parts, parts.len() as int);
        assert(parts.take(parts.len() as int) =~= parts);
        assert(is_name(parts[0]));
        assert(parts[0][0] != '/');
        assert(components(t) =~= parts);
    }
}

/// Normalising a path twice gives what normalising it once gives.
pub proof fn lemma_normalize_idempotent(p: Seq<char>)
    ensures
        normalized(normalized(p)) == normalized(p),
{
    lemma_normalize_once(p);
    lemma_parts_text(normalized_parts(components(p)));
}

/// The parent of a path is the path without its last component; the root, and a
/// path of no components, has none.
pub proof fn lemma_parents(p: Seq<char>)
    ensures
        ({
            let parts = components(p);
            &&& parent(p) is Some <==> parts.len() > 0 && parts.last() != seq!['/']
            &&& parent(p) is Some ==> parent(p)->Some_0 == parts_text(parts.drop_last())
        }),
{
}

} // verus!
