//! File names, stems and extensions of Unix paths, as `std::path::Path` reads them,
//! and what the library reads from them: dependency files, Rust sources, crate names.

use vstd::prelude::*;
use crate::text::{find, rfind, lemma_find, lemma_rfind, find_char, rfind_char, chars_of, string_of};

verus! {

/// The path component `.`.
pub open spec fn is_dot(s: Seq<char>) -> bool {
    s.len() == 1 && s[0] == '.'
}

/// The path component `..`.
pub open spec fn is_dot_dot(s: Seq<char>) -> bool {
    s.len() == 2 && s[0] == '.' && s[1] == '.'
}

/// The last component of a path that is neither empty nor `.`: the parts between
/// `/` separators, where empty parts and `.` parts do not count.
pub open spec fn last_component(p: Seq<char>) -> Option<Seq<char>>
    decreases p.len(),
{
    match rfind(p, '/') {
        None => if p.len() == 0 || is_dot(p) {
            None
        } else {
            Some(p)
        },
        Some(i) => if 0 <= i < p.len() {
            let seg = p.subrange(i + 1, p.len() as int);
            if seg.len() == 0 || is_dot(seg) {
                last_component(p.subrange(0, i))
            } else {
                Some(seg)
            }
        } else {
            None
        },
    }
}

/// The file name of a path (`Path::file_name`): its last component, unless that is `..`.
pub open spec fn file_name(p: Seq<char>) -> Option<Seq<char>> {
    match last_component(p) {
        Some(s) => if is_dot_dot(s) {
            None
        } else {
            Some(s)
        },
        None => None,
    }
}

/// The extension of a file name (`Path::extension`): what follows its last `.`,
/// where a name that starts with its only `.` has none.
pub open spec fn extension(name: Seq<char>) -> Option<Seq<char>> {
    match rfind(name, '.') {
        Some(j) => if j > 0 {
            Some(name.subrange(j + 1, name.len() as int))
        } else {
            None
        },
        None => None,
    }
}

/// The stem of a file name (`Path::file_stem`): the name without its extension and its last `.`.
pub open spec fn file_stem(name: Seq<char>) -> Seq<char> {
    match rfind(name, '.') {
        Some(j) => if j > 0 {
            name.subrange(0, j)
        } else {
            name
        },
        None => name,
    }
}

/// A cargo dependency file: its file name has the extension `d`.
pub open spec fn is_dep_info(p: Seq<char>) -> bool {
    match file_name(p) {
        Some(n) => match extension(n) {
            Some(e) => e.len() == 1 && e[0] == 'd',
            None => false,
        },
        None => false,
    }
}

/// A Rust source file: its file name has the extension `rs`, in any letter case.
pub open spec fn is_rust_source(p: Seq<char>) -> bool {
    match file_name(p) {
        Some(n) => match extension(n) {
            Some(e) => e.len() == 2 && (e[0] == 'r' || e[0] == 'R') && (e[1] == 's' || e[1]
                == 'S'),
            None => false,
        },
        None => false,
    }
}

/// The name of the crate that a dependency file belongs to: the part of its file
/// stem before the first `-` (`rustc_lexer-bfc1ea28fe193e21.d` belongs to
/// `rustc_lexer`); empty when the path has no file name.
pub open spec fn crate_name_of(p: Seq<char>) -> Seq<char> {
    match file_name(p) {
        Some(n) => {
            let stem = file_stem(n);
            match find(stem, '-') {
                Some(i) => stem.subrange(0, i),
                None => stem,
            }
        },
        None => Seq::empty(),
    }
}

/// The bounds within `cs` of `last_component(cs[lo..hi])`.
fn last_component_range(cs: &Vec<char>, lo: usize, hi: usize) -> (r: Option<(usize, usize)>)
    requires
        lo <= hi <= cs@.len(),
    ensures
        match r {
            Some((a, b)) => lo <= a <= b <= hi && last_component(cs@.subrange(lo as int, hi as int))
                == Some(cs@.subrange(a as int, b as int)),
            None => last_component(cs@.subrange(lo as int, hi as int)) is None,
        },
{
    let mut h = hi;
    loop
        invariant
            lo <= h <= hi <= cs@.len(),
            last_component(cs@.subrange(lo as int, hi as int)) == last_component(
                cs@.subrange(lo as int, h as int),
            ),
        decreases h - lo,
    {
        let ghost p = cs@.subrange(lo as int, h as int);
        match rfind_char(cs, lo, h, '/') {
            None => {
                if h == lo || (h == lo + 1 && cs[lo] == '.') {
                    return None;
                }
                return Some((lo, h));
            },
            Some(k) => {
                proof {
                    lemma_rfind(p, '/');
                    assert(p.subrange(k - lo + 1, p.len() as int) =~= cs@.subrange(k + 1, h as int));
                    assert(p.subrange(0, k - lo) =~= cs@.subrange(lo as int, k as int));
                }
                if k + 1 == h || (h == k + 2 && cs[k + 1] == '.') {
                    h = k;
                } else {
                    return Some((k + 1, h));
                }
            },
        }
    }
}

/// The bounds within `cs` of `file_name(cs[lo..hi])`.
fn file_name_range(cs: &Vec<char>, lo: usize, hi: usize) -> (r: Option<(usize, usize)>)
    requires
        lo <= hi <= cs@.len(),
    ensures
        match r {
            Some((a, b)) => lo <= a <= b <= hi && file_name(cs@.subrange(lo as int, hi as int))
                == Some(cs@.subrange(a as int, b as int)),
            None => file_name(cs@.subrange(lo as int, hi as int)) is None,
        },
{
    match last_component_range(cs, lo, hi) {
        Some((a, b)) => {
            if b - a == 2 && cs[a] == '.' && cs[a + 1] == '.' {
                None
            } else {
                Some((a, b))
            }
        },
        None => None,
    }
}

/// The bounds within `cs` of `extension(cs[a..b])`.
fn extension_range(cs: &Vec<char>, a: usize, b: usize) -> (r: Option<(usize, usize)>)
    requires
        a <= b <= cs@.len(),
    ensures
        match r {
            Some((x, y)) => a <= x <= y <= b && extension(cs@.subrange(a as int, b as int)) == Some(
                cs@.subrange(x as int, y as int),
            ),
            None => extension(cs@.subrange(a as int, b as int)) is None,
        },
{
    let ghost n = cs@.subrange(a as int, b as int);
    match rfind_char(cs, a, b, '.') {
        Some(j) => {
            if j > a {
                assert(n.subrange(j - a + 1, n.len() as int) =~= cs@.subrange(j + 1, b as int));
                Some((j + 1, b))
            } else {
                None
            }
        },
        None => None,
    }
}

/// The bounds within `cs` of `file_stem(cs[a..b])`.
fn file_stem_range(cs: &Vec<char>, a: usize, b: usize) -> (r: (usize, usize))
    requires
        a <= b <= cs@.len(),
    ensures
        a <= r.0 <= r.1 <= b,
        file_stem(cs@.subrange(a as int, b as int)) == cs@.subrange(r.0 as int, r.1 as int),
{
    let ghost n = cs@.subrange(a as int, b as int);
    match rfind_char(cs, a, b, '.') {
        Some(j) => {
            if j > a {
                assert(n.subrange(0, j - a) =~= cs@.subrange(a as int, j as int));
                (a, j)
            } else {
                (a, b)
            }
        },
        None => (a, b),
    }
}

/// Whether `cs[lo..hi]` is the path of a dependency file.
pub fn is_dep_info_range(cs: &Vec<char>, lo: usize, hi: usize) -> (b: bool)
    requires
        lo <= hi <= cs@.len(),
    ensures
        b == is_dep_info(cs@.subrange(lo as int, hi as int)),
{
    match file_name_range(cs, lo, hi) {
        Some((a, b)) => match extension_range(cs, a, b) {
            Some((x, y)) => {
                assert(cs@.subrange(x as int, y as int).len() == y - x);
                y - x == 1 && cs[x] == 'd'
            },
            None => false,
        },
        None => false,
    }
}

/// Whether `cs[lo..hi]` is the path of a Rust source file.
pub fn is_rust_source_range(cs: &Vec<char>, lo: usize, hi: usize) -> (b: bool)
    requires
        lo <= hi <= cs@.len(),
    ensures
        b == is_rust_source(cs@.subrange(lo as int, hi as int)),
{
    match file_name_range(cs, lo, hi) {
        Some((a, b)) => match extension_range(cs, a, b) {
            Some((x, y)) => y - x == 2 && (cs[x] == 'r' || cs[x] == 'R') && (cs[x + 1] == 's'
                || cs[x + 1] == 'S'),
            None => false,
        },
        None => false,
    }
}

/// Whether a path is that of a cargo dependency (`.d`) file.
pub fn is_dep_info_path(path: &str) -> (b: bool)
    ensures
        b == is_dep_info(path@),
{
    let cs = chars_of(path);
    assert(cs@.subrange(0, cs@.len() as int) =~= cs@);
    is_dep_info_range(&cs, 0, cs.len())
}

/// Whether a path is that of a Rust source (`.rs`, in any letter case) file.
pub fn is_rust_source_path(path: &str) -> (b: bool)
    ensures
        b == is_rust_source(path@),
{
    let cs = chars_of(path);
    assert(cs@.subrange(0, cs@.len() as int) =~= cs@);
    is_rust_source_range(&cs, 0, cs.len())
}

/// The crate that a dependency file belongs to: the part of the file's stem
/// before the first `-`.
pub fn crate_name(path: &str) -> (name: String)
    ensures
        name@ == crate_name_of(path@),
{
    let cs = chars_of(path);
    assert(cs@.subrange(0, cs@.len() as int) =~= cs@);
    match file_name_range(&cs, 0, cs.len()) {
        Some((a, b)) => {
            let (s, e) = file_stem_range(&cs, a, b);
            let ghost stem = cs@.subrange(s as int, e as int);
            match find_char(&cs, s, e, '-') {
                Some(k) => {
                    proof {
                        lemma_find(stem, '-');
                        assert(stem.subrange(0, k - s) =~= cs@.subrange(s as int, k as int));
                    }
                    string_of(&cs, s, k)
                },
                None => string_of(&cs, s, e),
            }
        },
        None => String::new(),
    }
}

/// The file name of a path that ends in `/` and a name without `/`, other than
/// `.` and `..`, is that name.
proof fn lemma_file_name_after_slash(dir: Seq<char>, name: Seq<char>)
    requires
        name.len() > 0,
        !is_dot(name),
        !is_dot_dot(name),
        forall|k: int| 0 <= k < name.len() ==> name[k] != '/',
    ensures
        file_name(dir + seq!['/'] + name) == Some(name),
{
    let p = dir + seq!['/'] + name;
    let d = dir.len() as int;
    lemma_rfind(p, '/');
    assert(p[d] == '/');
    assert forall|k: int| d < k < p.len() implies p[k] != '/' by {
        assert(p[k] == name[k - d - 1]);
    }
    let i = rfind(p, '/')->0;
    assert(i == d);
    assert(p.subrange(i + 1, p.len() as int) =~= name);
}

/// The stem of a name that ends in `.d`, before which stand one or more chars,
/// is what stands before; its extension is `d`.
proof fn lemma_stem_of_d(stem: Seq<char>)
    requires
        stem.len() > 0,
    ensures
        file_stem(stem + seq!['.', 'd']) == stem,
        extension(stem + seq!['.', 'd']) == Some(seq!['d']),
{
    let name = stem + seq!['.', 'd'];
    let j = stem.len() as int;
    lemma_rfind(name, '.');
    assert(name[j] == '.');
    assert(name[j + 1] == 'd');
    let i = rfind(name, '.')->0;
    assert(i == j);
    assert(name.subrange(0, j) =~= stem);
    assert(name.subrange(j + 1, name.len() as int) =~= seq!['d']);
}

/// The crate that a dependency file belongs to is named by the file's stem up
/// to its first `-`, whole: in any directory, for a name `n` without `-`, `.`
/// or `/` and a hash `h` without `/`, the dependency file `n-h.d` belongs to
/// `n`, and so does `n.d`.
pub proof fn law_crate_name(dir: Seq<char>, n: Seq<char>, h: Seq<char>)
    requires
        n.len() > 0,
        forall|k: int| 0 <= k < n.len() ==> n[k] != '-' && n[k] != '.' && n[k] != '/',
        forall|k: int| 0 <= k < h.len() ==> h[k] != '/',
    ensures
        is_dep_info(dir + seq!['/'] + n + seq!['-'] + h + seq!['.', 'd']),
        crate_name_of(dir + seq!['/'] + n + seq!['-'] + h + seq!['.', 'd']) == n,
        is_dep_info(dir + seq!['/'] + n + seq!['.', 'd']),
        crate_name_of(dir + seq!['/'] + n + seq!['.', 'd']) == n,
{
    let stem1 = n + seq!['-'] + h;
    let name1 = stem1 + seq!['.', 'd'];
    assert forall|k: int| 0 <= k < name1.len() implies name1[k] != '/' by {
        if k < n.len() {
            assert(name1[k] == n[k]);
        } else if n.len() < k < stem1.len() {
            assert(name1[k] == h[k - n.len() - 1]);
        }
    }
    lemma_file_name_after_slash(dir, name1);
    assert(dir + seq!['/'] + n + seq!['-'] + h + seq!['.', 'd'] =~= dir + seq!['/'] + name1);
    lemma_stem_of_d(stem1);
    lemma_find(stem1, '-');
    assert(stem1[n.len() as int] == '-');
    assert forall|k: int| 0 <= k < n.len() implies stem1[k] != '-' by {
        assert(stem1[k] == n[k]);
    }
    assert(find(stem1, '-') == Some(n.len() as int));
    assert(stem1.subrange(0, n.len() as int) =~= n);

    let name2 = n + seq!['.', 'd'];
    assert forall|k: int| 0 <= k < name2.len() implies name2[k] != '/' by {
        if k < n.len() {
            assert(name2[k] == n[k]);
        }
    }
    lemma_file_name_after_slash(dir, name2);
    assert(dir + seq!['/'] + n + seq!['.', 'd'] =~= dir + seq!['/'] + name2);
    lemma_stem_of_d(n);
    lemma_find(n, '-');
}

/// A path whose file name ends in `.rs`, in any letter case, after one or more
/// chars is a Rust source, whether it is relative or absolute: for a name `n`
/// without `/` and a directory part `d` that is empty or ends in `/`, `d` `n`
/// `.rs` is one.
pub proof fn law_rust_source_name(d: Seq<char>, n: Seq<char>, e0: char, e1: char)
    requires
        d.len() == 0 || d.last() == '/',
        n.len() > 0,
        forall|k: int| 0 <= k < n.len() ==> n[k] != '/',
        e0 == 'r' || e0 == 'R',
        e1 == 's' || e1 == 'S',
    ensures
        is_rust_source(d + n + seq!['.', e0, e1]),
{
    let name = n + seq!['.', e0, e1];
    assert forall|k: int| 0 <= k < name.len() implies name[k] != '/' by {
        if k < n.len() {
            assert(name[k] == n[k]);
        }
    }
    if d.len() == 0 {
        assert(d + n + seq!['.', e0, e1] =~= name);
        lemma_rfind(name, '/');
        assert(file_name(name) == Some(name));
    } else {
        lemma_file_name_after_slash(d.drop_last(), name);
        assert(d + n + seq!['.', e0, e1] =~= d.drop_last() + seq!['/'] + name);
    }
    let j = n.len() as int;
    lemma_rfind(name, '.');
    assert(name[j] == '.');
    assert(name[j + 1] == e0);
    assert(name[j + 2] == e1);
    assert(rfind(name, '.')->0 == j);
    assert(name.subrange(j + 1, name.len() as int) =~= seq![e0, e1]);
}

} // verus!
