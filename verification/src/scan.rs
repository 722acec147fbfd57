//! Reads the tokens of crate sources: strips comments and counts `unsafe`.

use vstd::prelude::*;
use vstd::pervasive::arbitrary;
use vstd::utf8::*;
use vstd::seq_lib::{commutative_foldl, lemma_fold_left_permutation};
use vstd::string::StringSliceAdditionalSpecFns;
use crate::error::IsSafeError;
use crate::paths::{is_dep_info, crate_name_of};
use crate::depinfo::{dep_info_sources_of, dep_info_sources, strings_view};
use crate::walk::{
    CrateView, WalkView, ActionView, ScanEvent, EventView, event_view, ScanAction, Files, Outcome,
    CrateOutcome, read_in, requested_path, finished_outcome, walk_outcome, lemma_walk_outcome_skip,
    next_dep_info, lemma_next_dep_info, contents_of, all_readable, lists_no_source_from,
    results_from, lemma_walk_outcome_done, Walk, walk_next, walk_over, walk_wf, action_view,
    result_names, results_view, dep_names,
};
use crate::lexer::{
    TokenClass, Lexeme, Piece, lex, joined_text, tokenize, piece_lexeme, piece_lexemes,
    comments_open_with_slash,
};

verus! {

broadcast use {encode_utf8_decode_utf8, encode_utf8_valid_utf8};

/// True of the two comment classes.
pub open spec fn is_comment(class: TokenClass) -> bool {
    class == TokenClass::LineComment || class == TokenClass::BlockComment
}

/// The bytes of the tokens that are not comments, in order.
pub open spec fn non_comment_text(ls: Seq<Lexeme>) -> Seq<u8>
    decreases ls.len(),
{
    if ls.len() == 0 {
        Seq::empty()
    } else if is_comment(ls.last().class) {
        non_comment_text(ls.drop_last())
    } else {
        non_comment_text(ls.drop_last()) + ls.last().text
    }
}

/// A token that stripping keeps: neither a line nor a block comment.
pub open spec fn kept_token(l: Lexeme) -> bool {
    l.class != TokenClass::LineComment && l.class != TokenClass::BlockComment
}

/// Stripping goes token by token: nothing is kept of no tokens; a line or
/// block comment added at the end adds nothing to what is kept, however long
/// it is; any other token added at the end is kept whole, after the rest.
pub proof fn law_strip_token_by_token(ls: Seq<Lexeme>, l: Lexeme)
    ensures
        non_comment_text(Seq::empty()) == Seq::<u8>::empty(),
        l.class == TokenClass::LineComment || l.class == TokenClass::BlockComment
            ==> non_comment_text(ls.push(l)) == non_comment_text(ls),
        l.class != TokenClass::LineComment && l.class != TokenClass::BlockComment
            ==> non_comment_text(ls.push(l)) == non_comment_text(ls) + l.text,
{
    assert(ls.push(l).drop_last() =~= ls);
}

/// What stripping keeps is exactly the texts of the tokens that are not
/// comments, one after the other: no comment's text, of any length, and every
/// other token's text, in order.
pub proof fn law_strip_keeps_non_comments(ls: Seq<Lexeme>)
    ensures
        non_comment_text(ls) == joined_text(ls.filter(|l: Lexeme| kept_token(l))),
    decreases ls.len(),
{
    reveal(Seq::filter);
    if ls.len() > 0 {
        law_strip_keeps_non_comments(ls.drop_last());
        let f = ls.drop_last().filter(|l: Lexeme| kept_token(l));
        assert(f.push(ls.last()).drop_last() =~= f);
    }
}

/// The bytes of `unsafe` (ASCII).
pub open spec fn unsafe_keyword() -> Seq<u8> {
    seq![0x75u8, 0x6eu8, 0x73u8, 0x61u8, 0x66u8, 0x65u8]
}

/// An identifier token whose text is `unsafe`.
pub open spec fn is_unsafe_ident(l: Lexeme) -> bool {
    l.class == TokenClass::Ident && l.text == unsafe_keyword()
}

/// How many of the tokens are the identifier `unsafe`.
pub open spec fn unsafe_ident_count(ls: Seq<Lexeme>) -> nat
    decreases ls.len(),
{
    if ls.len() == 0 {
        0
    } else if is_unsafe_ident(ls.last()) {
        unsafe_ident_count(ls.drop_last()) + 1
    } else {
        unsafe_ident_count(ls.drop_last())
    }
}

proof fn lemma_encode_concat(a: Seq<char>, b: Seq<char>)
    ensures
        encode_utf8(a + b) == encode_utf8(a) + encode_utf8(b),
    decreases a.len(),
{
    if a.len() == 0 {
        assert(a + b =~= b);
    } else {
        lemma_encode_concat(a.drop_first(), b);
        assert((a + b).drop_first() =~= a.drop_first() + b);
        assert((a + b)[0] == a[0]);
    }
}

pub proof fn lemma_no_comment_text(ls: Seq<Lexeme>)
    requires
        forall|i: int| 0 <= i < ls.len() ==> !is_comment(#[trigger] ls[i].class),
    ensures
        non_comment_text(ls) == joined_text(ls),
    decreases ls.len(),
{
    if ls.len() > 0 {
        lemma_no_comment_text(ls.drop_last());
    }
}

proof fn lemma_unsafe_count_bound(ls: Seq<Lexeme>)
    ensures
        unsafe_ident_count(ls) <= ls.len(),
    decreases ls.len(),
{
    if ls.len() > 0 {
        lemma_unsafe_count_bound(ls.drop_last());
    }
}

proof fn lemma_non_comment_text_len(ls: Seq<Lexeme>)
    ensures
        non_comment_text(ls).len() <= joined_text(ls).len(),
    decreases ls.len(),
{
    if ls.len() > 0 {
        lemma_non_comment_text_len(ls.drop_last());
    }
}

/// No token's text holds a byte that the joined text lacks.
proof fn lemma_texts_lack_byte(ls: Seq<Lexeme>, b: u8)
    requires
        forall|k: int| 0 <= k < joined_text(ls).len() ==> joined_text(ls)[k] != b,
    ensures
        forall|i: int, k: int| 0 <= i < ls.len() && 0 <= k < ls[i].text.len() ==> ls[i].text[k] != b,
    decreases ls.len(),
{
    if ls.len() > 0 {
        let a = joined_text(ls.drop_last());
        let t = ls.last().text;
        assert(joined_text(ls) == a + t);
        assert forall|k: int| 0 <= k < a.len() implies a[k] != b by {
            assert(joined_text(ls)[k] == a[k]);
        }
        lemma_texts_lack_byte(ls.drop_last(), b);
        assert forall|i: int, k: int| 0 <= i < ls.len() && 0 <= k < ls[i].text.len() implies ls[i].text[k]
            != b by {
            if i == ls.len() - 1 {
                assert(joined_text(ls)[a.len() + k] == t[k]);
            } else {
                assert(ls[i] == ls.drop_last()[i]);
            }
        }
    }
}

/// The texts of the tokens that are not comments, one after the other.
pub fn strip_pieces(pieces: &Vec<Piece>) -> (stripped: String)
    ensures
        encode_utf8(stripped@) == non_comment_text(piece_lexemes(pieces@)),
{
    let ghost ls = piece_lexemes(pieces@);
    let mut stripped = String::new();
    let mut i: usize = 0;
    while i < pieces.len()
        invariant
            i <= pieces@.len(),
            piece_lexemes(pieces@) == ls,
            encode_utf8(stripped@) == non_comment_text(ls.take(i as int)),
        decreases pieces@.len() - i,
    {
        let piece = &pieces[i];
        proof {
            assert(ls.take(i + 1).drop_last() =~= ls.take(i as int));
            assert(ls[i as int] == piece_lexeme(*piece));
        }
        if !(piece.class == TokenClass::LineComment || piece.class == TokenClass::BlockComment) {
            let ghost before = stripped@;
            stripped.append(piece.text);
            proof {
                lemma_encode_concat(before, piece.text@);
            }
        }
        i = i + 1;
    }
    proof {
        assert(ls.take(pieces@.len() as int) =~= ls);
    }
    stripped
}

/// Removes the comments from a source file's content: the result is the text
/// of every token that is not a comment, in order. So it is the source with
/// some parts taken out, each a comment token that starts with `//` or `/*`,
/// and it is no longer than the source; a source without comments, or without
/// any `/`, comes back unchanged.
pub fn strip_comments(source: &str) -> (stripped: String)
    ensures
        encode_utf8(stripped@) == non_comment_text(lex(source.spec_bytes())),
        joined_text(lex(source.spec_bytes())) == source.spec_bytes(),
        comments_open_with_slash(lex(source.spec_bytes())),
        encode_utf8(stripped@).len() <= source.spec_bytes().len(),
        (forall|i: int|
            0 <= i < lex(source.spec_bytes()).len() ==> !is_comment(
                #[trigger] lex(source.spec_bytes())[i].class,
            )) ==> stripped@ == source@,
        (forall|k: int|
            0 <= k < source.spec_bytes().len() ==> #[trigger] source.spec_bytes()[k] != 0x2fu8)
            ==> stripped@ == source@,
{
    let pieces = tokenize(source);
    let stripped = strip_pieces(&pieces);
    proof {
        let bytes = source.spec_bytes();
        let ls = lex(bytes);
        lemma_non_comment_text_len(ls);
        if forall|k: int| 0 <= k < bytes.len() ==> #[trigger] bytes[k] != 0x2fu8 {
            lemma_texts_lack_byte(ls, 0x2fu8);
            assert forall|i: int| 0 <= i < ls.len() implies !is_comment(#[trigger] ls[i].class) by {
                if is_comment(ls[i].class) {
                    assert(ls[i].text[0] == 0x2fu8);
                }
            }
        }
        if forall|i: int| 0 <= i < ls.len() ==> !is_comment(#[trigger] ls[i].class) {
            lemma_no_comment_text(ls);
            assert(decode_utf8(encode_utf8(stripped@)) == decode_utf8(bytes));
        }
    }
    stripped
}

/// True when the text's bytes are those of `unsafe`.
fn is_unsafe_text(text: &str) -> (b: bool)
    ensures
        b == (text.spec_bytes() == unsafe_keyword()),
{
    let bytes = text.as_bytes();
    let b = bytes.len() == 6 && bytes[0] == 0x75u8 && bytes[1] == 0x6eu8 && bytes[2] == 0x73u8
        && bytes[3] == 0x61u8 && bytes[4] == 0x66u8 && bytes[5] == 0x65u8;
    proof {
        if b {
            assert(bytes@ =~= unsafe_keyword());
        }
    }
    b
}

/// How many of the tokens are the identifier `unsafe`.
pub fn count_pieces(pieces: &Vec<Piece>) -> (count: usize)
    ensures
        count == unsafe_ident_count(piece_lexemes(pieces@)),
{
    let ghost ls = piece_lexemes(pieces@);
    let mut count: usize = 0;
    let mut i: usize = 0;
    while i < pieces.len()
        invariant
            i <= pieces@.len(),
            piece_lexemes(pieces@) == ls,
            count == unsafe_ident_count(ls.take(i as int)),
        decreases pieces@.len() - i,
    {
        let piece = &pieces[i];
        proof {
            assert(ls.take(i + 1).drop_last() =~= ls.take(i as int));
            assert(ls[i as int] == piece_lexeme(*piece));
            lemma_unsafe_count_bound(ls.take(i as int));
        }
        if piece.class == TokenClass::Ident && is_unsafe_text(piece.text) {
            count = count + 1;
        }
        i = i + 1;
    }
    proof {
        assert(ls.take(pieces@.len() as int) =~= ls);
    }
    count
}

/// How often `needle` occurs in `hay`, overlapping occurrences included.
pub open spec fn occurrences(hay: Seq<u8>, needle: Seq<u8>) -> nat
    decreases hay.len(),
{
    if hay.len() == 0 {
        0
    } else {
        (if occurs_at(hay, needle, 0) {
            1nat
        } else {
            0nat
        }) + occurrences(hay.drop_first(), needle)
    }
}

proof fn lemma_occurrences_skip(hay: Seq<u8>, needle: Seq<u8>, k: int)
    requires
        0 <= k <= hay.len(),
    ensures
        occurrences(hay, needle) >= occurrences(hay.subrange(k, hay.len() as int), needle) + (if k
            >= 1 && occurs_at(hay, needle, 0) {
            1nat
        } else {
            0nat
        }),
    decreases k,
{
    if k == 0 {
        assert(hay.subrange(0, hay.len() as int) =~= hay);
    } else {
        lemma_occurrences_skip(hay.drop_first(), needle, k - 1);
        assert(hay.drop_first().subrange(k - 1, hay.drop_first().len() as int) =~= hay.subrange(
            k,
            hay.len() as int,
        ));
    }
}

proof fn lemma_unsafe_count_prepend(x: Lexeme, r: Seq<Lexeme>)
    ensures
        unsafe_ident_count(seq![x] + r) == unsafe_ident_count(r) + (if is_unsafe_ident(x) {
            1nat
        } else {
            0nat
        }),
    decreases r.len(),
{
    if r.len() == 0 {
        assert(seq![x] + r =~= seq![x]);
        assert(seq![x].drop_last() =~= Seq::<Lexeme>::empty());
        assert(seq![x].last() == x);
        assert(unsafe_ident_count(Seq::<Lexeme>::empty()) == 0);
    } else {
        lemma_unsafe_count_prepend(x, r.drop_last());
        assert((seq![x] + r).drop_last() =~= seq![x] + r.drop_last());
        assert((seq![x] + r).last() == r.last());
    }
}

/// The `unsafe` identifiers of a text are among the occurrences of `unsafe` in it.
pub proof fn law_unsafe_count_at_most_occurrences(bytes: Seq<u8>)
    ensures
        unsafe_ident_count(lex(bytes)) <= occurrences(bytes, unsafe_keyword()),
    decreases bytes.len(),
{
    if bytes.len() > 0 {
        let t = crate::lexer::first_token_of(decode_utf8(bytes));
        if 0 < t.len <= bytes.len() {
            let x = Lexeme { class: t.class, text: bytes.subrange(0, t.len as int) };
            let rest = bytes.subrange(t.len as int, bytes.len() as int);
            law_unsafe_count_at_most_occurrences(rest);
            lemma_unsafe_count_prepend(x, lex(rest));
            lemma_occurrences_skip(bytes, unsafe_keyword(), t.len as int);
            assert(lex(bytes) == seq![x] + lex(rest));
            if is_unsafe_ident(x) {
                assert(bytes.subrange(0, 6) == unsafe_keyword());
                assert(occurs_at(bytes, unsafe_keyword(), 0));
            }
        } else {
            let single = seq![Lexeme { class: TokenClass::Other, text: bytes }];
            assert(lex(bytes) == single);
            assert(single.drop_last() =~= Seq::<Lexeme>::empty());
            assert(single.last().class == TokenClass::Other);
            assert(unsafe_ident_count(Seq::<Lexeme>::empty()) == 0);
        }
    } else {
        assert(lex(bytes) =~= Seq::<Lexeme>::empty());
    }
}

/// Counts the identifier tokens `unsafe` in a source file's content; an
/// `unsafe` in a comment, a string or as part of a longer identifier is no such
/// token. The count is at most the number of times `unsafe` occurs in the text.
pub fn count_unsafe(source: &str) -> (count: usize)
    ensures
        count == unsafe_ident_count(lex(source.spec_bytes())),
        count <= occurrences(source.spec_bytes(), unsafe_keyword()),
{
    let pieces = tokenize(source);
    let count = count_pieces(&pieces);
    proof {
        law_unsafe_count_at_most_occurrences(source.spec_bytes());
    }
    count
}

/// The bytes of `#![forbid(unsafe_code)]` (ASCII).
pub open spec fn forbid_attribute() -> Seq<u8> {
    seq![
        0x23u8, 0x21u8, 0x5bu8, 0x66u8, 0x6fu8, 0x72u8, 0x62u8, 0x69u8,
        0x64u8, 0x28u8, 0x75u8, 0x6eu8, 0x73u8, 0x61u8, 0x66u8, 0x65u8,
        0x5fu8, 0x63u8, 0x6fu8, 0x64u8, 0x65u8, 0x29u8, 0x5du8,
    ]
}

fn forbid_attribute_bytes() -> (v: Vec<u8>)
    ensures
        v@ == forbid_attribute(),
{
    let v = vec![
        0x23u8, 0x21u8, 0x5bu8, 0x66u8, 0x6fu8, 0x72u8, 0x62u8, 0x69u8,
        0x64u8, 0x28u8, 0x75u8, 0x6eu8, 0x73u8, 0x61u8, 0x66u8, 0x65u8,
        0x5fu8, 0x63u8, 0x6fu8, 0x64u8, 0x65u8, 0x29u8, 0x5du8,
    ];
    assert(v@ =~= forbid_attribute());
    v
}

/// `needle` occurs in `hay` at byte offset `i`.
pub open spec fn occurs_at(hay: Seq<u8>, needle: Seq<u8>, i: int) -> bool {
    0 <= i && i + needle.len() <= hay.len() && hay.subrange(i, i + needle.len()) == needle
}

/// `needle` occurs somewhere in `hay`, as `str::contains` finds a string in another.
pub open spec fn bytes_contain(hay: Seq<u8>, needle: Seq<u8>) -> bool {
    exists|i: int| occurs_at(hay, needle, i)
}

fn occurs_at_exec(hay: &[u8], needle: &[u8], i: usize) -> (b: bool)
    requires
        i + needle@.len() <= hay@.len(),
    ensures
        b == occurs_at(hay@, needle@, i as int),
{
    let hay_len = hay.len();
    assert(hay@.len() == hay_len);
    let mut j: usize = 0;
    while j < needle.len()
        invariant
            i + needle@.len() <= hay@.len(),
            hay@.len() == hay_len,
            j <= needle@.len(),
            forall|k: int| 0 <= k < j ==> hay@[i + k] == needle@[k],
        decreases needle@.len() - j,
    {
        if hay[i + j] != needle[j] {
            assert(hay@.subrange(i as int, i + needle@.len())[j as int] != needle@[j as int]);
            return false;
        }
        j = j + 1;
    }
    assert(hay@.subrange(i as int, i + needle@.len()) =~= needle@);
    true
}

fn contains_bytes(hay: &[u8], needle: &[u8]) -> (b: bool)
    ensures
        b == bytes_contain(hay@, needle@),
{
    if needle.len() > hay.len() {
        return false;
    }
    let last = hay.len() - needle.len();
    let mut i: usize = 0;
    loop
        invariant
            i <= last,
            last == hay@.len() - needle@.len(),
            forall|k: int| 0 <= k < i ==> !occurs_at(hay@, needle@, k),
        ensures
            forall|k: int| 0 <= k <= last ==> !occurs_at(hay@, needle@, k),
        decreases last - i,
    {
        if occurs_at_exec(hay, needle, i) {
            return true;
        }
        if i == last {
            break;
        }
        i = i + 1;
    }
    false
}

/// The entry point, with its comments stripped, holds `#![forbid(unsafe_code)]`.
pub open spec fn forbids_unsafe(entry: Seq<char>) -> bool {
    bytes_contain(non_comment_text(lex(encode_utf8(entry))), forbid_attribute())
}

/// Whether a crate's entry point forbids unsafe code: its content, with the
/// comments stripped, holds `#![forbid(unsafe_code)]`.
pub fn forbids_unsafe_code(entry: &str) -> (b: bool)
    ensures
        b == forbids_unsafe(entry@),
{
    let pieces = tokenize(entry);
    pieces_forbid_unsafe(&pieces)
}

/// Whether the tokens that are not comments, one after the other, hold
/// `#![forbid(unsafe_code)]`.
pub fn pieces_forbid_unsafe(pieces: &Vec<Piece>) -> (b: bool)
    ensures
        b == bytes_contain(non_comment_text(piece_lexemes(pieces@)), forbid_attribute()),
{
    let stripped = strip_pieces(pieces);
    let needle = forbid_attribute_bytes();
    contains_bytes(stripped.as_str().as_bytes(), needle.as_slice())
}

/// Stripping the comments of a source without comments gives the source back.
pub proof fn law_strip_comment_free(bytes: Seq<u8>)
    requires
        forall|i: int| 0 <= i < lex(bytes).len() ==> !is_comment(#[trigger] lex(bytes)[i].class),
    ensures
        non_comment_text(lex(bytes)) == bytes,
{
    lemma_no_comment_text(lex(bytes));
    crate::lexer::lemma_lex_covers(bytes);
}

/// The crate's `unsafe` code policy and usage.
#[derive(Debug, Clone, Copy, PartialEq, Eq, Structural)]
pub enum Safety {
    /// The crate has `#![forbid(unsafe_code)]`, so `unsafe` is blocked.
    ForbidsUnsafe,
    /// The crate allows `unsafe`, but none is used.
    NoUnsafe,
    /// The crate uses `unsafe` the given number of times.
    UsesUnsafe(usize),
}

/// How many `unsafe` identifiers these contents hold together.
pub open spec fn unsafe_total(contents: Seq<Seq<char>>) -> nat
    decreases contents.len(),
{
    if contents.len() == 0 {
        0
    } else {
        unsafe_total(contents.drop_last()) + unsafe_ident_count(lex(encode_utf8(contents.last())))
    }
}

/// The profile of a crate whose sources hold these contents, the entry point
/// first: it forbids `unsafe` when its entry point does; else it uses `unsafe`
/// as often as all its sources together hold the identifier.
pub open spec fn safety_of(contents: Seq<Seq<char>>) -> Safety {
    if forbids_unsafe(contents[0]) {
        Safety::ForbidsUnsafe
    } else if unsafe_total(contents) == 0 {
        Safety::NoUnsafe
    } else {
        Safety::UsesUnsafe(unsafe_total(contents) as usize)
    }
}

/// A crate forbids `unsafe` exactly when its entry point does; it has no
/// `unsafe` exactly when its entry point does not forbid it and none of its
/// sources holds the identifier; and a count of uses is that of all its sources,
/// never zero.
pub proof fn law_safety_of(contents: Seq<Seq<char>>)
    requires
        contents.len() > 0,
        unsafe_total(contents) <= usize::MAX,
    ensures
        (safety_of(contents) == Safety::ForbidsUnsafe) <==> forbids_unsafe(contents[0]),
        (safety_of(contents) == Safety::NoUnsafe) <==> (!forbids_unsafe(contents[0])
            && unsafe_total(contents) == 0),
        safety_of(contents) matches Safety::UsesUnsafe(n) ==> n > 0 && n == unsafe_total(contents),
{
}

/// Where a scan stands: its walk over the listing, and the crate being read.
pub struct ScanView {
    pub walk: WalkView<Safety>,
    pub reading: Option<CrateView>,
}

/// A scan begins at the first dependency file of the listing; with none, it is
/// over at once with no results.
pub open spec fn scan_start(listing: Seq<Seq<char>>) -> (ScanView, ActionView<Safety>) {
    let (w, a) = crate::walk::walk_start::<Safety>(listing);
    (ScanView { walk: w, reading: None }, a)
}

/// The walk goes on once the crate at hand has this result.
pub open spec fn crate_done(v: ScanView, result: Safety) -> (ScanView, ActionView<Safety>) {
    let (w, a) = walk_next(v.walk, result);
    (ScanView { walk: w, reading: None }, a)
}

/// One step of a scan on the outcome of the read it asked for. A failed read
/// ends the scan with that error. A dependency file that lists no Rust source
/// ends it with `MissingEntryPoint`; else the crate's sources are read in turn,
/// the entry point first. An entry point that forbids `unsafe` settles the
/// crate at once; else every source is read and the crate's result is the
/// number of `unsafe` identifiers in all of them. There is no step (`None`)
/// where that number would not fit in a `usize`.
pub open spec fn scan_step(v: ScanView, event: EventView) -> Option<(ScanView, ActionView<Safety>)> {
    match event {
        EventView::Failed(e) => Some(
            (
                ScanView { walk: walk_over(v.walk), reading: None },
                ActionView::Finished(Err(IsSafeError::Io(e))),
            ),
        ),
        EventView::Contents(text) => match v.reading {
            None => {
                let sources = dep_info_sources_of(text);
                if sources.len() == 0 {
                    Some(
                        (
                            ScanView { walk: walk_over(v.walk), reading: None },
                            ActionView::Finished(Err(IsSafeError::MissingEntryPoint)),
                        ),
                    )
                } else {
                    let k = CrateView { sources, read: Seq::empty() };
                    Some(
                        (
                            ScanView { walk: v.walk, reading: Some(k) },
                            ActionView::ReadSource(sources[0]),
                        ),
                    )
                }
            },
            Some(k) => {
                let read = k.read.push(text);
                if forbids_unsafe(read[0]) {
                    Some(crate_done(v, Safety::ForbidsUnsafe))
                } else if unsafe_total(read) > usize::MAX {
                    None
                } else if read.len() >= k.sources.len() {
                    Some(crate_done(v, safety_of(read)))
                } else {
                    let k2 = CrateView { sources: k.sources, read };
                    Some(
                        (
                            ScanView { walk: v.walk, reading: Some(k2) },
                            ActionView::ReadSource(k.sources[read.len() as int]),
                        ),
                    )
                }
            },
        },
    }
}

/// The invariant of a scan: that of its walk, and a crate being read still
/// needs a read, with an entry point, if read, that does not forbid `unsafe`.
pub open spec fn scan_wf(v: ScanView) -> bool {
    &&& walk_wf(v.walk)
    &&& match v.reading {
        Some(k) => {
            &&& !v.walk.done
            &&& k.sources.len() > 0
            &&& k.read.len() < k.sources.len()
            &&& k.read.len() > 0 ==> !forbids_unsafe(k.read[0])
            &&& unsafe_total(k.read) <= usize::MAX
        },
        None => true,
    }
}

struct CrateReading {
    sources: Vec<String>,
    read: Ghost<Seq<Seq<char>>>,
    next: usize,
    count: usize,
}

/// A scan of a directory's dependency files that reports each crate's
/// `Safety`, driven by reads that its caller makes: it says which file to read
/// next, and takes the outcome of each read.
pub struct DependencyScan {
    walk: Walk<Safety>,
    reading: Option<CrateReading>,
}

impl View for DependencyScan {
    type V = ScanView;

    closed spec fn view(&self) -> ScanView {
        ScanView {
            walk: self.walk@,
            reading: match self.reading {
                Some(k) => Some(CrateView { sources: strings_view(k.sources@), read: k.read@ }),
                None => None,
            },
        }
    }
}

impl DependencyScan {
    /// The scan's invariant.
    pub closed spec fn wf(&self) -> bool {
        &&& scan_wf(self@)
        &&& self.walk.wf()
        &&& match self.reading {
            Some(k) => k.next == k.read@.len() && k.count == unsafe_total(k.read@),
            None => true,
        }
    }

    /// Starts a scan of a directory whose entries have these paths, in the
    /// order of the listing.
    pub fn new(listing: Vec<String>) -> (r: (DependencyScan, ScanAction<Safety>))
        ensures
            r.0.wf(),
            (r.0@, action_view(r.1)) == scan_start(strings_view(listing@)),
    {
        let (walk, action) = Walk::start(listing);
        (DependencyScan { walk, reading: None }, action)
    }

    /// Takes the outcome of the read that the scan asked for, and says what to
    /// do next, as `scan_step` describes; `None` (and no change) where the count
    /// of `unsafe` would overflow a `usize`. When the scan ends with its results,
    /// they name the crates of all the listing's dependency files, in order.
    pub fn step(&mut self, event: ScanEvent) -> (r: Option<ScanAction<Safety>>)
        requires
            old(self).wf(),
            !old(self)@.walk.done,
        ensures
            final(self).wf(),
            match r {
                Some(a) => scan_step(old(self)@, event_view(event)) == Some((final(self)@, action_view(a))),
                None => scan_step(old(self)@, event_view(event)) is None && final(self)@ == old(self)@,
            },
            r matches Some(ScanAction::Finished(Ok(res))) ==> result_names(results_view(res@))
                == dep_names(old(self)@.walk.listing),
    {
        match event {
            ScanEvent::Failed(e) => {
                self.walk.abort();
                self.reading = None;
                Some(ScanAction::Finished(Err(IsSafeError::Io(e))))
            },
            ScanEvent::Contents(text) => {
                let reading = self.reading.take();
                match reading {
                    None => {
                        let sources = dep_info_sources(text.as_str());
                        if sources.len() == 0 {
                            self.walk.abort();
                            return Some(ScanAction::Finished(Err(IsSafeError::MissingEntryPoint)));
                        }
                        let first = sources[0].clone();
                        self.reading = Some(
                            CrateReading { sources, read: Ghost(Seq::empty()), next: 0, count: 0 },
                        );
                        Some(ScanAction::ReadSource(first))
                    },
                    Some(k) => {
                        let ghost read = k.read@.push(text@);
                        proof {
                            assert(read.drop_last() =~= k.read@);
                            if k.read@.len() > 0 {
                                assert(read[0] == k.read@[0]);
                            }
                        }
                        if k.next == 0 && forbids_unsafe_code(text.as_str()) {
                            return Some(self.walk.finish_crate(Safety::ForbidsUnsafe));
                        }
                        let c = count_unsafe(text.as_str());
                        match k.count.checked_add(c) {
                            None => {
                                self.reading = Some(k);
                                None
                            },
                            Some(total) => {
                                let n_sources = k.sources.len();
                                assert(k.next < n_sources);
                                let next = k.next + 1;
                                if next >= n_sources {
                                    let safety = if total == 0 {
                                        Safety::NoUnsafe
                                    } else {
                                        Safety::UsesUnsafe(total)
                                    };
                                    Some(self.walk.finish_crate(safety))
                                } else {
                                    let p = k.sources[next].clone();
                                    self.reading = Some(
                                        CrateReading {
                                            sources: k.sources,
                                            read: Ghost(read),
                                            next,
                                            count: total,
                                        },
                                    );
                                    Some(ScanAction::ReadSource(p))
                                }
                            },
                        }
                    },
                }
            },
        }
    }
}

/// How reading a crate's sources in `fs` ends, with these contents read so far
/// (the entry point's first): the next source is read; an entry point that
/// forbids `unsafe` settles the crate; a count of `unsafe` that would overflow
/// a `usize` stops the reading; once every source is read, the crate's profile
/// follows from all their contents.
pub open spec fn crate_reads(sources: Seq<Seq<char>>, fs: Files, read: Seq<Seq<char>>) -> CrateOutcome<Safety>
    decreases sources.len() - read.len(),
{
    if read.len() >= sources.len() {
        CrateOutcome::Done(safety_of(read))
    } else {
        let p = sources[read.len() as int];
        if !fs.dom().contains(p) {
            CrateOutcome::Unreadable
        } else {
            let read2 = read.push(fs[p]);
            if forbids_unsafe(read2[0]) {
                CrateOutcome::Done(Safety::ForbidsUnsafe)
            } else if unsafe_total(read2) > usize::MAX {
                CrateOutcome::Overflow
            } else {
                crate_reads(sources, fs, read2)
            }
        }
    }
}

/// How profiling a crate with these sources ends, in `fs`.
pub open spec fn profile_in(fs: Files) -> spec_fn(Seq<Seq<char>>) -> CrateOutcome<Safety> {
    |sources: Seq<Seq<char>>| crate_reads(sources, fs, Seq::empty())
}

/// How a scan of a directory with this listing ends, in `fs`.
pub open spec fn dependency_outcome(listing: Seq<Seq<char>>, fs: Files) -> Outcome<Safety> {
    walk_outcome(listing, fs, 0, Seq::empty(), profile_in(fs))
}

/// A scan driven by reads in `fs`, for at most `fuel` steps: how it ends, if it
/// ends within them.
pub open spec fn scan_run(v: ScanView, a: ActionView<Safety>, fs: Files, fuel: nat) -> Option<Outcome<Safety>>
    decreases fuel,
{
    match finished_outcome(a) {
        Some(o) => Some(o),
        None => if fuel == 0 {
            None
        } else {
            match scan_step(v, read_in(fs, requested_path(v.walk.listing, a))) {
                None => Some(Outcome::Overflow),
                Some((v2, a2)) => scan_run(v2, a2, fs, (fuel - 1) as nat),
            }
        },
    }
}

proof fn lemma_run_unfold(v: ScanView, a: ActionView<Safety>, fs: Files, fuel: nat)
    requires
        finished_outcome(a) is None,
    ensures
        scan_run(v, a, fs, fuel + 1) == match scan_step(
            v,
            read_in(fs, requested_path(v.walk.listing, a)),
        ) {
            None => Some(Outcome::Overflow),
            Some((v2, a2)) => scan_run(v2, a2, fs, fuel),
        },
{
}

proof fn lemma_crate_run(v: ScanView, fs: Files, f: nat) -> (c: nat)
    requires
        v.reading is Some,
        v.walk.at < v.walk.listing.len(),
        v.reading->0.read.len() < v.reading->0.sources.len(),
        v.reading->0.read.len() > 0 ==> !forbids_unsafe(v.reading->0.read[0]),
    ensures
        scan_run(
            v,
            ActionView::ReadSource(v.reading->0.sources[v.reading->0.read.len() as int]),
            fs,
            c + f,
        ) == match crate_reads(v.reading->0.sources, fs, v.reading->0.read) {
            CrateOutcome::Done(s) => scan_run(crate_done(v, s).0, crate_done(v, s).1, fs, f),
            CrateOutcome::Unreadable => Some(Outcome::Unreadable),
            CrateOutcome::Overflow => Some(Outcome::Overflow),
        },
    decreases v.reading->0.sources.len() - v.reading->0.read.len(),
{
    let k = v.reading->0;
    let p = k.sources[k.read.len() as int];
    let a = ActionView::<Safety>::ReadSource(p);
    if !fs.dom().contains(p) {
        lemma_run_unfold(v, a, fs, f);
        let e: std::io::Error = arbitrary();
        assert(read_in(fs, p) == EventView::Failed(e));
        let fin = ActionView::<Safety>::Finished(Err(IsSafeError::Io(e)));
        assert(scan_step(v, read_in(fs, p)) == Some((ScanView { walk: walk_over(v.walk), reading: None }, fin)));
        assert(scan_run(ScanView { walk: walk_over(v.walk), reading: None }, fin, fs, f) == Some(Outcome::<Safety>::Unreadable));
        1
    } else {
        assert(read_in(fs, p) == EventView::Contents(fs[p]));
        let read2 = k.read.push(fs[p]);
        if k.read.len() > 0 {
            assert(read2[0] == k.read[0]);
        }
        if forbids_unsafe(read2[0]) {
            lemma_run_unfold(v, a, fs, f);
            assert(scan_step(v, read_in(fs, p)) == Some(crate_done(v, Safety::ForbidsUnsafe)));
            assert(crate_reads(k.sources, fs, k.read) == CrateOutcome::Done(Safety::ForbidsUnsafe));
            1
        } else if unsafe_total(read2) > usize::MAX {
            lemma_run_unfold(v, a, fs, f);
            assert(scan_step(v, read_in(fs, p)) is None);
            assert(crate_reads(k.sources, fs, k.read) == CrateOutcome::<Safety>::Overflow);
            1
        } else if read2.len() >= k.sources.len() {
            lemma_run_unfold(v, a, fs, f);
            assert(scan_step(v, read_in(fs, p)) == Some(crate_done(v, safety_of(read2))));
            assert(crate_reads(k.sources, fs, k.read) == crate_reads(k.sources, fs, read2));
            assert(crate_reads(k.sources, fs, read2) == CrateOutcome::Done(safety_of(read2)));
            1
        } else {
            let v2 = ScanView {
                walk: v.walk,
                reading: Some(CrateView { sources: k.sources, read: read2 }),
            };
            let c = lemma_crate_run(v2, fs, f);
            lemma_run_unfold(v, a, fs, c + f);
            assert(crate_reads(k.sources, fs, k.read) == crate_reads(k.sources, fs, read2));
            assert(scan_step(v, read_in(fs, p)) == Some(
                (v2, ActionView::<Safety>::ReadSource(k.sources[read2.len() as int])),
            ));
            assert forall|s: Safety| crate_done(v2, s) == crate_done(v, s) by {}
            c + 1
        }
    }
}

proof fn lemma_walk_run(v: ScanView, fs: Files) -> (fuel: nat)
    requires
        v.reading is None,
        !v.walk.done,
        v.walk.at < v.walk.listing.len(),
        is_dep_info(v.walk.listing[v.walk.at as int]),
    ensures
        scan_run(v, ActionView::ReadDepInfo(v.walk.at), fs, fuel) == Some(
            walk_outcome(v.walk.listing, fs, v.walk.at, v.walk.results, profile_in(fs)),
        ),
    decreases v.walk.listing.len() - v.walk.at,
{
    let l = v.walk.listing;
    let at = v.walk.at;
    let d = l[at as int];
    let a = ActionView::<Safety>::ReadDepInfo(at);
    let over_v = ScanView { walk: walk_over(v.walk), reading: None };
    if !fs.dom().contains(d) {
        let e: std::io::Error = arbitrary();
        assert(read_in(fs, d) == EventView::Failed(e));
        let fin = ActionView::<Safety>::Finished(Err(IsSafeError::Io(e)));
        assert(scan_step(v, read_in(fs, d)) == Some((over_v, fin)));
        lemma_run_unfold(v, a, fs, 0);
        assert(scan_run(over_v, fin, fs, 0) == Some(Outcome::<Safety>::Unreadable));
        return 1;
    }
    assert(read_in(fs, d) == EventView::Contents(fs[d]));
    let sources = dep_info_sources_of(fs[d]);
    if sources.len() == 0 {
        let fin = ActionView::<Safety>::Finished(Err(IsSafeError::MissingEntryPoint));
        assert(scan_step(v, read_in(fs, d)) == Some((over_v, fin)));
        lemma_run_unfold(v, a, fs, 0);
        assert(scan_run(over_v, fin, fs, 0) == Some(Outcome::<Safety>::MissingEntryPoint));
        return 1;
    }
    let v2 = ScanView {
        walk: v.walk,
        reading: Some(CrateView { sources, read: Seq::empty() }),
    };
    let a2 = ActionView::<Safety>::ReadSource(sources[0]);
    assert(scan_step(v, read_in(fs, d)) == Some((v2, a2)));
    let o = crate_reads(sources, fs, Seq::empty());
    assert(profile_in(fs)(sources) == o);
    match o {
        CrateOutcome::Done(s) => {
            let (v3, a3) = crate_done(v2, s);
            let results = v.walk.results.push((crate_name_of(d), s));
            lemma_next_dep_info(l, at + 1);
            lemma_walk_outcome_skip(l, fs, at + 1, results, profile_in(fs));
            let next = next_dep_info(l, at + 1);
            if next < l.len() {
                assert(v3 == ScanView {
                    walk: WalkView { listing: l, at: next, results, done: false },
                    reading: None,
                });
                assert(a3 == ActionView::<Safety>::ReadDepInfo(next));
                let f = lemma_walk_run(v3, fs);
                let c = lemma_crate_run(v2, fs, f);
                lemma_run_unfold(v, a, fs, c + f);
                1 + c + f
            } else {
                assert(a3 == ActionView::<Safety>::Finished(Ok(results)));
                let c = lemma_crate_run(v2, fs, 0);
                lemma_run_unfold(v, a, fs, c);
                assert(walk_outcome(l, fs, next, results, profile_in(fs)) == Outcome::Complete(results));
                1 + c
            }
        },
        _ => {
            let c = lemma_crate_run(v2, fs, 0);
            lemma_run_unfold(v, a, fs, c);
            1 + c
        },
    }
}

/// A scan of a directory, driven by reads in a file system, ends as
/// `dependency_outcome` says: with the profile of every dependency file's crate,
/// in listing order, or with the first error on the way.
pub proof fn law_scan_reaches_outcome(listing: Seq<Seq<char>>, fs: Files)
    ensures
        exists|fuel: nat|
            scan_run(scan_start(listing).0, scan_start(listing).1, fs, fuel) == Some(
                dependency_outcome(listing, fs),
            ),
{
    let (v, a) = scan_start(listing);
    lemma_next_dep_info(listing, 0);
    lemma_walk_outcome_skip(listing, fs, 0, Seq::empty(), profile_in(fs));
    let at = next_dep_info(listing, 0);
    if at < listing.len() {
        let fuel = lemma_walk_run(v, fs);
        assert(scan_run(v, a, fs, fuel) == Some(dependency_outcome(listing, fs)));
    } else {
        assert(scan_run(v, a, fs, 0) == Some(dependency_outcome(listing, fs)));
    }
}

proof fn lemma_total_prefix(s: Seq<Seq<char>>, i: int)
    requires
        0 <= i <= s.len(),
    ensures
        unsafe_total(s.take(i)) <= unsafe_total(s),
    decreases s.len(),
{
    if i < s.len() {
        lemma_total_prefix(s.drop_last(), i);
        assert(s.drop_last().take(i) =~= s.take(i));
    } else {
        assert(s.take(i) =~= s);
    }
}

/// Every one of these paths can be read in `fs`.
pub open spec fn all_sources_readable(sources: Seq<Seq<char>>, fs: Files) -> bool {
    forall|j: int| 0 <= j < sources.len() ==> fs.dom().contains(#[trigger] sources[j])
}

/// How many `unsafe` identifiers the sources that can be read hold together.
pub open spec fn readable_total(sources: Seq<Seq<char>>, fs: Files) -> nat
    decreases sources.len(),
{
    if sources.len() == 0 {
        0
    } else {
        readable_total(sources.drop_last(), fs) + if fs.dom().contains(sources.last()) {
            unsafe_ident_count(lex(encode_utf8(fs[sources.last()])))
        } else {
            0
        }
    }
}

proof fn lemma_readable_total_prefix(s: Seq<Seq<char>>, fs: Files, k: int)
    requires
        0 <= k <= s.len(),
    ensures
        readable_total(s.take(k), fs) <= readable_total(s, fs),
    decreases s.len(),
{
    if k < s.len() {
        lemma_readable_total_prefix(s.drop_last(), fs, k);
        assert(s.drop_last().take(k) =~= s.take(k));
    } else {
        assert(s.take(k) =~= s);
    }
}

proof fn lemma_readable_total_all(s: Seq<Seq<char>>, fs: Files)
    requires
        all_sources_readable(s, fs),
    ensures
        readable_total(s, fs) == unsafe_total(contents_of(s, fs)),
    decreases s.len(),
{
    if s.len() > 0 {
        assert(s.drop_last().len() < s.len());
        assert(all_sources_readable(s.drop_last(), fs)) by {
            assert forall|j: int| 0 <= j < s.drop_last().len() implies fs.dom().contains(
                #[trigger] s.drop_last()[j],
            ) by {
                assert(s.drop_last()[j] == s[j]);
            }
        }
        lemma_readable_total_all(s.drop_last(), fs);
        assert(contents_of(s, fs).drop_last() =~= contents_of(s.drop_last(), fs));
        assert(s.last() == s[s.len() - 1]);
    }
}

/// How reading a crate with these sources ends in `fs`, stated outright: an
/// entry point that cannot be read makes the crate unreadable; one that forbids
/// `unsafe` settles it; else the crate is unreadable when some source cannot be
/// read, and otherwise has the profile of all its sources' contents.
pub open spec fn crate_expected(sources: Seq<Seq<char>>, fs: Files) -> CrateOutcome<Safety> {
    if !fs.dom().contains(sources[0]) {
        CrateOutcome::Unreadable
    } else if forbids_unsafe(fs[sources[0]]) {
        CrateOutcome::Done(Safety::ForbidsUnsafe)
    } else if all_sources_readable(sources, fs) {
        CrateOutcome::Done(safety_of(contents_of(sources, fs)))
    } else {
        CrateOutcome::Unreadable
    }
}

proof fn lemma_crate_reads_general(sources: Seq<Seq<char>>, fs: Files, read: Seq<Seq<char>>)
    requires
        sources.len() > 0,
        readable_total(sources, fs) <= usize::MAX,
        read.len() <= sources.len(),
        forall|j: int| 0 <= j < read.len() ==> fs.dom().contains(#[trigger] sources[j]),
        read == contents_of(sources, fs).take(read.len() as int),
        read.len() > 0 ==> !forbids_unsafe(read[0]),
    ensures
        crate_reads(sources, fs, read) == crate_expected(sources, fs),
    decreases sources.len() - read.len(),
{
    let cs = contents_of(sources, fs);
    let n = read.len();
    if n >= sources.len() {
        assert(read =~= cs);
        assert(all_sources_readable(sources, fs));
    } else {
        let p = sources[n as int];
        if !fs.dom().contains(p) {
            if n > 0 {
                assert(read[0] == fs[sources[0]]);
                assert(!all_sources_readable(sources, fs));
            }
        } else {
            let read2 = read.push(fs[p]);
            assert(read2 =~= cs.take(n + 1 as int));
            assert(read2[0] == fs[sources[0]]);
            if !forbids_unsafe(read2[0]) {
                assert(all_sources_readable(sources.take(n + 1 as int), fs)) by {
                    assert forall|j: int| 0 <= j < n + 1 implies fs.dom().contains(
                        #[trigger] sources.take(n + 1 as int)[j],
                    ) by {
                        assert(sources.take(n + 1 as int)[j] == sources[j]);
                    }
                }
                lemma_readable_total_all(sources.take(n + 1 as int), fs);
                assert(contents_of(sources.take(n + 1 as int), fs) =~= read2);
                lemma_readable_total_prefix(sources, fs, n + 1 as int);
                lemma_crate_reads_general(sources, fs, read2);
            }
        }
    }
}

/// How reading a crate's sources ends, as `crate_expected` states it, where
/// the sources that can be read hold fewer `unsafe` identifiers than a `usize`
/// counts (a machine limit): with all sources readable and an entry point that
/// does not forbid `unsafe`, the profile is the count of all sources together.
pub proof fn law_crate_profile(sources: Seq<Seq<char>>, fs: Files)
    requires
        sources.len() > 0,
        readable_total(sources, fs) <= usize::MAX,
    ensures
        profile_in(fs)(sources) == crate_expected(sources, fs),
{
    assert(Seq::<Seq<char>>::empty() =~= contents_of(sources, fs).take(0));
    lemma_crate_reads_general(sources, fs, Seq::empty());
}

/// The profile that a crate with these sources has in `fs`, when all of them can be read.
pub open spec fn expected_safety(fs: Files) -> spec_fn(Seq<Seq<char>>) -> Safety {
    |sources: Seq<Seq<char>>| safety_of(contents_of(sources, fs))
}

/// No crate of the listing holds, in the sources that can be read, more
/// `unsafe` identifiers than a `usize` counts.
pub open spec fn counts_fit(listing: Seq<Seq<char>>, fs: Files) -> bool {
    forall|i: int|
        0 <= i < listing.len() && is_dep_info(#[trigger] listing[i]) && fs.dom().contains(listing[i])
            ==> readable_total(dep_info_sources_of(fs[listing[i]]), fs) <= usize::MAX
}

/// When every file can be read (and no count overflows), a scan of a directory
/// fails with `MissingEntryPoint` exactly when some dependency file lists no
/// Rust source, and otherwise returns one profile per dependency file, in
/// listing order: the crate's name, and `ForbidsUnsafe` when its entry point
/// without comments holds `#![forbid(unsafe_code)]`, else the number of
/// `unsafe` identifiers in all its sources (`NoUnsafe` for none).
pub proof fn law_dependency_outcome(listing: Seq<Seq<char>>, fs: Files)
    requires
        all_readable(listing, fs),
        counts_fit(listing, fs),
    ensures
        dependency_outcome(listing, fs) == if lists_no_source_from(listing, fs, 0) {
            Outcome::MissingEntryPoint
        } else {
            Outcome::Complete(results_from(listing, fs, 0, expected_safety(fs)))
        },
{
    assert forall|i: int|
        0 <= i < listing.len() && is_dep_info(#[trigger] listing[i]) && dep_info_sources_of(
            fs[listing[i]],
        ).len() > 0 implies profile_in(fs)(dep_info_sources_of(fs[listing[i]]))
        == CrateOutcome::Done(expected_safety(fs)(dep_info_sources_of(fs[listing[i]]))) by {
        let sources = dep_info_sources_of(fs[listing[i]]);
        assert(all_sources_readable(sources, fs));
        law_crate_profile(sources, fs);
    }
    lemma_walk_outcome_done(listing, fs, 0, Seq::empty(), profile_in(fs), expected_safety(fs));
    assert(Seq::<(Seq<char>, Safety)>::empty() + results_from(listing, fs, 0, expected_safety(fs))
        =~= results_from(listing, fs, 0, expected_safety(fs)));
}

/// An entry point that forbids `unsafe` settles its crate as `ForbidsUnsafe`,
/// whatever the other sources hold, and whether or not they can be read.
pub proof fn law_forbidding_entry_settles(sources: Seq<Seq<char>>, fs: Files)
    requires
        sources.len() > 0,
        fs.dom().contains(sources[0]),
        forbids_unsafe(fs[sources[0]]),
    ensures
        profile_in(fs)(sources) == CrateOutcome::Done(Safety::ForbidsUnsafe),
{
    assert(Seq::<Seq<char>>::empty().push(fs[sources[0]])[0] == fs[sources[0]]);
}

/// What a source that can be read adds to the total of a crate.
pub open spec fn readable_count(fs: Files, path: Seq<char>) -> nat {
    if fs.dom().contains(path) {
        unsafe_ident_count(lex(encode_utf8(fs[path])))
    } else {
        0
    }
}

proof fn lemma_readable_total_fold(s: Seq<Seq<char>>, fs: Files)
    ensures
        readable_total(s, fs) == s.fold_left(0nat, |acc: nat, p: Seq<char>| acc + readable_count(fs, p)),
    decreases s.len(),
{
    if s.len() > 0 {
        lemma_readable_total_fold(s.drop_last(), fs);
    }
}

/// The order in which a crate's sources other than its entry point are listed
/// changes nothing: not the total of the sources that can be read, not how the
/// crate's reading ends as `crate_expected` states it, and, where that total
/// fits a `usize`, not how profiling the crate ends.
pub proof fn law_non_entry_order(sources: Seq<Seq<char>>, reordered: Seq<Seq<char>>, fs: Files)
    requires
        sources.len() > 0,
        reordered.len() > 0,
        reordered[0] == sources[0],
        reordered.to_multiset() == sources.to_multiset(),
    ensures
        readable_total(reordered, fs) == readable_total(sources, fs),
        crate_expected(reordered, fs) == crate_expected(sources, fs),
        readable_total(sources, fs) <= usize::MAX ==> profile_in(fs)(reordered) == profile_in(fs)(
            sources,
        ),
{
    broadcast use vstd::seq_lib::group_to_multiset_ensures;

    let f = |acc: nat, p: Seq<char>| acc + readable_count(fs, p);
    assert(commutative_foldl(f));
    lemma_fold_left_permutation(sources, reordered, f, 0nat);
    lemma_readable_total_fold(sources, fs);
    lemma_readable_total_fold(reordered, fs);
    assert(all_sources_readable(reordered, fs) == all_sources_readable(sources, fs)) by {
        if all_sources_readable(sources, fs) {
            assert forall|j: int| 0 <= j < reordered.len() implies fs.dom().contains(
                #[trigger] reordered[j],
            ) by {
                assert(reordered.contains(reordered[j]));
                assert(sources.to_multiset().count(reordered[j]) > 0);
                let k = choose|k: int| 0 <= k < sources.len() && sources[k] == reordered[j];
            }
        }
        if all_sources_readable(reordered, fs) {
            assert forall|j: int| 0 <= j < sources.len() implies fs.dom().contains(
                #[trigger] sources[j],
            ) by {
                assert(sources.contains(sources[j]));
                assert(reordered.to_multiset().count(sources[j]) > 0);
                let k = choose|k: int| 0 <= k < reordered.len() && reordered[k] == sources[j];
            }
        }
    }
    if all_sources_readable(sources, fs) {
        lemma_readable_total_all(sources, fs);
        lemma_readable_total_all(reordered, fs);
        assert(contents_of(sources, fs)[0] == contents_of(reordered, fs)[0]);
    }
    if readable_total(sources, fs) <= usize::MAX {
        law_crate_profile(sources, fs);
        law_crate_profile(reordered, fs);
    }
}

} // verus!
