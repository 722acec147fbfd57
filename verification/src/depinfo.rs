//! Reads cargo's dependency (`.d`) files: which Rust sources a crate is built from.

use vstd::prelude::*;
use crate::text::{
    find, trim, trim_start, trim_end, is_white_space, lemma_find, find_char, trim_range, chars_of,
    string_of,
};
use crate::paths::{is_rust_source, is_rust_source_range};

verus! {

/// A line without the `\r` of a `\r\n` line ending.
pub open spec fn strip_cr(line: Seq<char>) -> Seq<char> {
    if line.len() > 0 && line.last() == '\r' {
        line.drop_last()
    } else {
        line
    }
}

/// The lines of a text, as `str::lines` gives them: split at `\n` or `\r\n`, the
/// last line ending being optional.
pub open spec fn lines(s: Seq<char>) -> Seq<Seq<char>>
    decreases s.len(),
{
    if s.len() == 0 {
        Seq::empty()
    } else {
        match find(s, '\n') {
            Some(i) => if 0 <= i < s.len() {
                seq![strip_cr(s.subrange(0, i))] + lines(s.subrange(i + 1, s.len() as int))
            } else {
                Seq::empty()
            },
            None => seq![s],
        }
    }
}

/// The path that a line of a dependency file lists: the trimmed text before the
/// line's first `:`, if the line has one.
pub open spec fn listed_path(line: Seq<char>) -> Option<Seq<char>> {
    let t = trim(line);
    match find(t, ':') {
        Some(k) => Some(trim(t.subrange(0, k))),
        None => None,
    }
}

/// The listed paths of these lines that are Rust sources, in order.
pub open spec fn sources_in_lines(ls: Seq<Seq<char>>) -> Seq<Seq<char>>
    decreases ls.len(),
{
    if ls.len() == 0 {
        Seq::empty()
    } else {
        let here = match listed_path(ls[0]) {
            Some(p) => if is_rust_source(p) {
                seq![p]
            } else {
                Seq::empty()
            },
            None => Seq::empty(),
        };
        here + sources_in_lines(ls.drop_first())
    }
}

/// The Rust sources that a dependency file lists, in order; the first is the
/// crate's entry point.
pub open spec fn dep_info_sources_of(dep_info: Seq<char>) -> Seq<Seq<char>> {
    sources_in_lines(lines(dep_info))
}

pub open spec fn strings_view(v: Seq<String>) -> Seq<Seq<char>> {
    v.map_values(|s: String| s@)
}

/// The Rust sources that a dependency file lists, in order: of each line with a
/// `:`, the trimmed text before the first `:`, kept where its extension is `rs`.
pub fn dep_info_sources(dep_info: &str) -> (sources: Vec<String>)
    ensures
        strings_view(sources@) == dep_info_sources_of(dep_info@),
{
    let cs = chars_of(dep_info);
    let len = cs.len();
    let mut sources: Vec<String> = Vec::new();
    let mut pos: usize = 0;
    assert(cs@.subrange(0, len as int) =~= cs@);
    assert(strings_view(sources@) =~= Seq::<Seq<char>>::empty());
    while pos < len
        invariant
            len == cs@.len(),
            pos <= len,
            cs@ == dep_info@,
            dep_info_sources_of(dep_info@) == strings_view(sources@) + sources_in_lines(
                lines(cs@.subrange(pos as int, len as int)),
            ),
        decreases len - pos,
    {
        let ghost s = cs@.subrange(pos as int, len as int);
        let ghost old_view = strings_view(sources@);
        let (end, next) = match find_char(&cs, pos, len, '\n') {
            Some(k) => {
                if k > pos && cs[k - 1] == '\r' {
                    (k - 1, k + 1)
                } else {
                    (k, k + 1)
                }
            },
            None => (len, len),
        };
        let ghost line = cs@.subrange(pos as int, end as int);
        proof {
            lemma_find(s, '\n');
            match find(s, '\n') {
                Some(i) => {
                    let k = pos + i;
                    assert(s.subrange(i + 1, s.len() as int) =~= cs@.subrange(next as int, len as int));
                    assert(strip_cr(s.subrange(0, i)) =~= line);
                    assert(lines(s) == seq![line] + lines(cs@.subrange(next as int, len as int)));
                },
                None => {
                    assert(line =~= s);
                    assert(cs@.subrange(next as int, len as int) =~= Seq::<char>::empty());
                    assert(lines(s) =~= seq![line] + lines(cs@.subrange(next as int, len as int)));
                },
            }
            assert((seq![line] + lines(cs@.subrange(next as int, len as int))).drop_first()
                =~= lines(cs@.subrange(next as int, len as int)));
        }
        let (a, b) = trim_range(&cs, pos, end);
        let ghost t = cs@.subrange(a as int, b as int);
        match find_char(&cs, a, b, ':') {
            Some(k) => {
                let (l, r) = trim_range(&cs, a, k);
                proof {
                    assert(t.subrange(0, k - a) =~= cs@.subrange(a as int, k as int));
                    assert(listed_path(line) == Some(cs@.subrange(l as int, r as int)));
                }
                if is_rust_source_range(&cs, l, r) {
                    let p = string_of(&cs, l, r);
                    sources.push(p);
                    proof {
                        assert(strings_view(sources@) =~= old_view + seq![cs@.subrange(l as int, r as int)]);
                    }
                }
            },
            None => {},
        }
        proof {
            let rest = sources_in_lines(lines(cs@.subrange(next as int, len as int)));
            assert(strings_view(sources@) + rest =~= old_view + sources_in_lines(lines(s)));
        }
        pos = next;
    }
    proof {
        assert(cs@.subrange(len as int, len as int) =~= Seq::<char>::empty());
        assert(strings_view(sources@) + Seq::<Seq<char>>::empty() =~= strings_view(sources@));
    }
    sources
}

/// A line that lists no Rust source is ignored, wherever it stands.
pub proof fn law_non_source_line_ignored(before: Seq<Seq<char>>, line: Seq<char>, after: Seq<Seq<char>>)
    requires
        match listed_path(line) {
            Some(p) => !is_rust_source(p),
            None => true,
        },
    ensures
        sources_in_lines(before + seq![line] + after) == sources_in_lines(before + after),
    decreases before.len(),
{
    if before.len() == 0 {
        assert(before + seq![line] + after =~= seq![line] + after);
        assert((seq![line] + after).drop_first() =~= after);
        assert(before + after =~= after);
        assert(Seq::<Seq<char>>::empty() + sources_in_lines(after) =~= sources_in_lines(after));
    } else {
        law_non_source_line_ignored(before.drop_first(), line, after);
        assert((before + seq![line] + after).drop_first() =~= before.drop_first() + seq![line] + after);
        assert((before + after).drop_first() =~= before.drop_first() + after);
        assert((before + seq![line] + after)[0] == before[0]);
        assert((before + after)[0] == before[0]);
    }
}

proof fn lemma_lines_concat(t1: Seq<char>, t2: Seq<char>)
    requires
        t1.len() == 0 || t1.last() == '\n',
    ensures
        lines(t1 + t2) == lines(t1) + lines(t2),
    decreases t1.len(),
{
    if t1.len() == 0 {
        assert(t1 + t2 =~= t2);
        assert(lines(t1) =~= Seq::<Seq<char>>::empty());
        assert(Seq::<Seq<char>>::empty() + lines(t2) =~= lines(t2));
    } else {
        let t = t1 + t2;
        lemma_find(t1, '\n');
        lemma_find(t, '\n');
        assert(t1[t1.len() - 1] == '\n');
        let i = find(t1, '\n')->0;
        assert(t[i] == '\n');
        let j = find(t, '\n')->0;
        if j < i {
            assert(t1[j] == t[j]);
        }
        assert(j == i);
        let rest1 = t1.subrange(i + 1, t1.len() as int);
        assert(t.subrange(0, i) =~= t1.subrange(0, i));
        assert(t.subrange(i + 1, t.len() as int) =~= rest1 + t2);
        if rest1.len() > 0 {
            assert(rest1.last() == t1.last());
        }
        lemma_lines_concat(rest1, t2);
        let first = seq![strip_cr(t1.subrange(0, i))];
        assert(first + lines(rest1) + lines(t2) =~= first + (lines(rest1) + lines(t2)));
    }
}

proof fn lemma_lines_single(line: Seq<char>)
    requires
        forall|k: int| 0 <= k < line.len() ==> line[k] != '\n',
    ensures
        lines(line.push('\n')) == seq![strip_cr(line)],
{
    let t = line.push('\n');
    lemma_find(t, '\n');
    assert(t[line.len() as int] == '\n');
    assert(find(t, '\n') is Some);
    let j = find(t, '\n')->0;
    assert(0 <= j <= line.len());
    if j < line.len() {
        assert(t[j] == line[j]);
    }
    assert(t.subrange(0, line.len() as int) =~= line);
    assert(t.subrange(line.len() + 1 as int, t.len() as int) =~= Seq::<char>::empty());
    assert(lines(Seq::<char>::empty()) =~= Seq::<Seq<char>>::empty());
    assert(seq![strip_cr(line)] + Seq::<Seq<char>>::empty() =~= seq![strip_cr(line)]);
}

/// A line added to a dependency file, at the start of a line, that lists no
/// Rust source changes nothing of the sources that the file lists.
pub proof fn law_non_source_line_in_text(head: Seq<char>, line: Seq<char>, tail: Seq<char>)
    requires
        head.len() == 0 || head.last() == '\n',
        forall|k: int| 0 <= k < line.len() ==> line[k] != '\n',
        match listed_path(strip_cr(line)) {
            Some(p) => !is_rust_source(p),
            None => true,
        },
    ensures
        dep_info_sources_of(head + line.push('\n') + tail) == dep_info_sources_of(head + tail),
{
    let added = line.push('\n');
    lemma_lines_concat(head, added + tail);
    lemma_lines_concat(added, tail);
    lemma_lines_concat(head, tail);
    lemma_lines_single(line);
    assert(head + added + tail =~= head + (added + tail));
    assert(lines(head) + (seq![strip_cr(line)] + lines(tail)) =~= lines(head) + seq![strip_cr(line)]
        + lines(tail));
    law_non_source_line_ignored(lines(head), strip_cr(line), lines(tail));
}

proof fn lemma_sources_concat(a: Seq<Seq<char>>, b: Seq<Seq<char>>)
    ensures
        sources_in_lines(a + b) == sources_in_lines(a) + sources_in_lines(b),
    decreases a.len(),
{
    if a.len() == 0 {
        assert(a + b =~= b);
        assert(Seq::<Seq<char>>::empty() + sources_in_lines(b) =~= sources_in_lines(b));
    } else {
        lemma_sources_concat(a.drop_first(), b);
        assert((a + b).drop_first() =~= a.drop_first() + b);
        assert((a + b)[0] == a[0]);
        let here = match listed_path(a[0]) {
            Some(p) => if is_rust_source(p) {
                seq![p]
            } else {
                Seq::<Seq<char>>::empty()
            },
            None => Seq::<Seq<char>>::empty(),
        };
        assert(here + (sources_in_lines(a.drop_first()) + sources_in_lines(b)) =~= here
            + sources_in_lines(a.drop_first()) + sources_in_lines(b));
    }
}

proof fn lemma_trim_end_after(x: Seq<char>, y: Seq<char>)
    requires
        x.len() > 0,
        !is_white_space(x.last()),
    ensures
        trim_end(x + y) == x + trim_end(y),
    decreases y.len(),
{
    if y.len() == 0 {
        assert(x + y =~= x);
        assert(x + y =~= x + trim_end(y));
    } else {
        assert((x + y).last() == y.last());
        if is_white_space(y.last()) {
            assert((x + y).drop_last() =~= x + y.drop_last());
            lemma_trim_end_after(x, y.drop_last());
        }
    }
}

proof fn lemma_trim_start_indent(indent: Seq<char>, s: Seq<char>)
    requires
        forall|k: int| 0 <= k < indent.len() ==> is_white_space(indent[k]),
        trim_start(s) == s,
    ensures
        trim_start(indent + s) == s,
    decreases indent.len(),
{
    if indent.len() == 0 {
        assert(indent + s =~= s);
    } else {
        assert((indent + s)[0] == indent[0]);
        assert((indent + s).drop_first() =~= indent.drop_first() + s);
        lemma_trim_start_indent(indent.drop_first(), s);
    }
}

/// A line that lists a Rust source, relative or absolute, adds that source
/// where it stands: for a path `p` without `:` or newline that neither starts
/// nor ends with white space, the line `p` `:` `rest`, indented or not, between
/// whole lines of a dependency file puts `p` between the sources of what comes
/// before and after.
pub proof fn law_source_line_in_text(
    head: Seq<char>,
    indent: Seq<char>,
    p: Seq<char>,
    rest: Seq<char>,
    tail: Seq<char>,
)
    requires
        head.len() == 0 || head.last() == '\n',
        forall|k: int| 0 <= k < indent.len() ==> is_white_space(indent[k]) && indent[k] != '\n',
        p.len() > 0,
        !is_white_space(p[0]),
        !is_white_space(p.last()),
        forall|k: int| 0 <= k < p.len() ==> p[k] != ':' && p[k] != '\n',
        forall|k: int| 0 <= k < rest.len() ==> rest[k] != '\n',
        is_rust_source(p),
    ensures
        dep_info_sources_of(head + (indent + p + seq![':'] + rest).push('\n') + tail)
            == dep_info_sources_of(head) + seq![p] + dep_info_sources_of(tail),
{
    let line = indent + p + seq![':'] + rest;
    let added = line.push('\n');
    let w = indent.len() as int;
    assert forall|k: int| 0 <= k < line.len() implies line[k] != '\n' by {
        if k < w {
            assert(line[k] == indent[k]);
        } else if k < w + p.len() {
            assert(line[k] == p[k - w]);
        } else if k > w + p.len() {
            assert(line[k] == rest[k - w - p.len() - 1]);
        }
    }
    lemma_lines_concat(head, added + tail);
    lemma_lines_concat(added, tail);
    lemma_lines_single(line);
    assert(head + added + tail =~= head + (added + tail));
    // The line, without a `\r` that ends it, is `p` `:` and what follows.
    let pc = p + seq![':'];
    let r2 = strip_cr(rest);
    assert(strip_cr(line) == indent + (pc + r2)) by {
        if rest.len() == 0 {
            assert(line =~= indent + pc);
            assert(line.last() == ':');
            assert(pc + r2 =~= pc);
        } else {
            assert(line.last() == rest.last());
            if rest.last() == '\r' {
                assert(line.drop_last() =~= indent + (pc + rest.drop_last()));
            } else {
                assert(line =~= indent + (pc + rest));
            }
        }
    }
    let l2 = pc + r2;
    let l1 = indent + l2;
    // Trimming drops the indent and keeps `p` and the `:`.
    assert(pc[0] == p[0]);
    assert(trim_start(l2) == l2);
    lemma_trim_start_indent(indent, l2);
    assert(pc.last() == ':');
    lemma_trim_end_after(pc, r2);
    let t = trim(l1);
    assert(t == pc + trim_end(r2));
    lemma_find(t, ':');
    assert(t[p.len() as int] == ':');
    assert forall|k: int| 0 <= k < p.len() implies t[k] != ':' by {
        assert(t[k] == p[k]);
    }
    assert(find(t, ':') == Some(p.len() as int));
    assert(t.subrange(0, p.len() as int) =~= p);
    assert(trim_start(p) == p);
    assert(trim_end(p) == p);
    assert(listed_path(l1) == Some(p));
    lemma_sources_concat(lines(head), seq![l1] + lines(tail));
    lemma_sources_concat(seq![l1], lines(tail));
    assert(seq![l1].drop_first() =~= Seq::<Seq<char>>::empty());
    assert(seq![l1][0] == l1);
    assert(sources_in_lines(Seq::<Seq<char>>::empty()) == Seq::<Seq<char>>::empty());
    assert(sources_in_lines(seq![l1]) =~= seq![p]);
    assert(lines(head) + (seq![strip_cr(line)] + lines(tail)) == lines(head + added + tail));
}

} // verus!
