//! Rust tokens as the library sees them: each token's class and its text.

use vstd::prelude::*;
use vstd::utf8::*;
use vstd::string::StringSliceAdditionalSpecFns;

verus! {

broadcast use {encode_utf8_decode_utf8, encode_utf8_valid_utf8, is_char_boundary_start_end_of_seq};

/// What the library tells apart among Rust tokens.
#[derive(Clone, Copy, Debug, PartialEq, Eq, Structural)]
pub enum TokenClass {
    /// A `//` comment, doc comments included.
    LineComment,
    /// A `/* */` comment, doc comments and unterminated ones included.
    BlockComment,
    /// An identifier or a keyword (not a raw identifier).
    Ident,
    /// Any other token: whitespace, literals, punctuation, lifetimes, raw identifiers.
    Other,
}

/// The class of a token and its length in bytes.
#[derive(Clone, Copy, Debug, PartialEq, Eq, Structural)]
pub struct LexToken {
    pub class: TokenClass,
    pub len: usize,
}

/// The first token of a non-empty input, as `rustc_lexer::first_token` finds it.
pub uninterp spec fn first_token_of(input: Seq<char>) -> LexToken;

/// Text that starts with `//`.
pub open spec fn opens_line_comment(text: Seq<u8>) -> bool {
    text.len() >= 2 && text[0] == 0x2fu8 && text[1] == 0x2fu8
}

/// Text that starts with `/*`.
pub open spec fn opens_block_comment(text: Seq<u8>) -> bool {
    text.len() >= 2 && text[0] == 0x2fu8 && text[1] == 0x2au8
}

/// Every comment token's text starts with `//` (line comments) or `/*` (block comments).
pub open spec fn comments_open_with_slash(ls: Seq<Lexeme>) -> bool {
    forall|i: int|
        0 <= i < ls.len() ==> {
            &&& #[trigger] ls[i].class == TokenClass::LineComment ==> opens_line_comment(ls[i].text)
            &&& ls[i].class == TokenClass::BlockComment ==> opens_block_comment(ls[i].text)
        }
}

/// Calls `rustc_lexer::first_token`, which panics on an empty input.
/// Trusted: the token equals `first_token_of` of the input; its length is at
/// least one byte (the lexer always consumes the first char), at most the
/// input's length, and ends on a char boundary (it is the number of bytes of
/// the chars that the lexer's cursor consumed); a line comment starts with
/// `//` and a block comment with `/*` (the lexer takes a comment only after
/// bumping those two chars). The class keeps the comment
/// and identifier kinds apart and merges the other kinds into `Other`.
#[verifier::external_body]
fn first_token(input: &str) -> (token: LexToken)
    requires
        input@.len() > 0,
    ensures
        token == first_token_of(input@),
        0 < token.len <= input.spec_bytes().len(),
        is_char_boundary(input.spec_bytes(), token.len as int),
        token.class == TokenClass::LineComment ==> opens_line_comment(input.spec_bytes()),
        token.class == TokenClass::BlockComment ==> opens_block_comment(input.spec_bytes()),
        token.class == TokenClass::LineComment || token.class == TokenClass::BlockComment ==> 2
            <= token.len,
{
    let token = rustc_lexer::first_token(input);
    let class = match token.kind {
        rustc_lexer::TokenKind::LineComment => TokenClass::LineComment,
        rustc_lexer::TokenKind::BlockComment { .. } => TokenClass::BlockComment,
        rustc_lexer::TokenKind::Ident => TokenClass::Ident,
        _ => TokenClass::Other,
    };
    LexToken { class, len: token.len }
}

/// A token of the model: its class and its bytes.
pub struct Lexeme {
    pub class: TokenClass,
    pub text: Seq<u8>,
}

/// The tokens of UTF-8 `bytes`, as `rustc_lexer::tokenize` yields them: the first
/// token of the input, then the tokens of what follows it, until nothing is left.
/// (The first token is never empty nor longer than the input; were it so, the
/// rest of the input would stand as one token.)
pub open spec fn lex(bytes: Seq<u8>) -> Seq<Lexeme>
    decreases bytes.len(),
{
    if bytes.len() == 0 {
        Seq::empty()
    } else {
        let t = first_token_of(decode_utf8(bytes));
        if 0 < t.len <= bytes.len() {
            seq![Lexeme { class: t.class, text: bytes.subrange(0, t.len as int) }] + lex(
                bytes.subrange(t.len as int, bytes.len() as int),
            )
        } else {
            seq![Lexeme { class: TokenClass::Other, text: bytes }]
        }
    }
}

/// The bytes of a sequence of lexemes, one after the other.
pub open spec fn joined_text(ls: Seq<Lexeme>) -> Seq<u8>
    decreases ls.len(),
{
    if ls.len() == 0 {
        Seq::empty()
    } else {
        joined_text(ls.drop_last()) + ls.last().text
    }
}

/// A token of a source string: its class and its text, a slice of the source.
pub struct Piece<'a> {
    pub class: TokenClass,
    pub text: &'a str,
}

/// The lexeme that a piece stands for.
pub open spec fn piece_lexeme(p: Piece) -> Lexeme {
    Lexeme { class: p.class, text: p.text.spec_bytes() }
}

pub open spec fn piece_lexemes(ps: Seq<Piece>) -> Seq<Lexeme> {
    ps.map_values(|p: Piece| piece_lexeme(p))
}

pub proof fn lemma_joined_text_concat(a: Seq<Lexeme>, b: Seq<Lexeme>)
    ensures
        joined_text(a + b) == joined_text(a) + joined_text(b),
    decreases b.len(),
{
    if b.len() == 0 {
        assert(a + b =~= a);
    } else {
        lemma_joined_text_concat(a, b.drop_last());
        assert((a + b).drop_last() =~= a + b.drop_last());
    }
}

/// Lexing loses nothing: the tokens' texts, one after the other, are the input.
pub proof fn lemma_lex_covers(bytes: Seq<u8>)
    ensures
        joined_text(lex(bytes)) == bytes,
    decreases bytes.len(),
{
    if bytes.len() > 0 {
        let t = first_token_of(decode_utf8(bytes));
        if 0 < t.len <= bytes.len() {
            let head = seq![Lexeme { class: t.class, text: bytes.subrange(0, t.len as int) }];
            let rest = bytes.subrange(t.len as int, bytes.len() as int);
            lemma_lex_covers(rest);
            lemma_joined_text_concat(head, lex(rest));
            assert(head.drop_last() =~= Seq::<Lexeme>::empty());
            assert(head.last().text == bytes.subrange(0, t.len as int));
            assert(joined_text(head.drop_last()) == Seq::<u8>::empty());
            assert(joined_text(head) =~= bytes.subrange(0, t.len as int));
            assert(bytes =~= bytes.subrange(0, t.len as int) + rest);
        } else {
            let single = seq![Lexeme { class: TokenClass::Other, text: bytes }];
            assert(single.drop_last() =~= Seq::<Lexeme>::empty());
            assert(single.last().text == bytes);
            assert(joined_text(single.drop_last()) == Seq::<u8>::empty());
            assert(Seq::<u8>::empty() + bytes =~= bytes);
        }
    } else {
        assert(bytes =~= Seq::<u8>::empty());
    }
}

proof fn lemma_encode_nonempty(chars: Seq<char>)
    requires
        chars.len() > 0,
    ensures
        encode_utf8(chars).len() > 0,
{
}

/// Splits a source string into its tokens, each with its text.
/// The tokens are those of `lex`, and their texts, one after the other, are the
/// source again; a comment's text starts with `//` or `/*`.
pub fn tokenize<'a>(source: &'a str) -> (pieces: Vec<Piece<'a>>)
    ensures
        piece_lexemes(pieces@) == lex(source.spec_bytes()),
        joined_text(lex(source.spec_bytes())) == source.spec_bytes(),
        comments_open_with_slash(lex(source.spec_bytes())),
{
    let mut pieces: Vec<Piece<'a>> = Vec::new();
    let mut rest: &'a str = source;
    assert(piece_lexemes(pieces@) =~= Seq::<Lexeme>::empty());
    while !rest.is_empty()
        invariant
            lex(source.spec_bytes()) == piece_lexemes(pieces@) + lex(rest.spec_bytes()),
            source.spec_bytes() == joined_text(piece_lexemes(pieces@)) + rest.spec_bytes(),
            comments_open_with_slash(piece_lexemes(pieces@)),
        decreases rest.spec_bytes().len(),
    {
        let ghost bytes = rest.spec_bytes();
        proof {
            lemma_encode_nonempty(rest@);
        }
        let token = first_token(rest);
        let (head, tail) = rest.split_at(token.len);
        proof {
            assert(decode_utf8(bytes) == rest@);
            assert(lex(bytes) == seq![piece_lexeme(Piece { class: token.class, text: head })]
                + lex(tail.spec_bytes()));
        }
        let ghost old_pieces = pieces@;
        pieces.push(Piece { class: token.class, text: head });
        proof {
            assert(piece_lexemes(pieces@) =~= piece_lexemes(old_pieces) + seq![
                piece_lexeme(Piece { class: token.class, text: head }),
            ]);
            assert(piece_lexemes(pieces@).drop_last() =~= piece_lexemes(old_pieces));
            assert(bytes =~= head.spec_bytes() + tail.spec_bytes());
            assert(head.spec_bytes() =~= bytes.subrange(0, token.len as int));
            let ls = piece_lexemes(pieces@);
            assert forall|i: int| 0 <= i < ls.len() implies {
                &&& #[trigger] ls[i].class == TokenClass::LineComment ==> opens_line_comment(ls[i].text)
                &&& ls[i].class == TokenClass::BlockComment ==> opens_block_comment(ls[i].text)
            } by {
                if i < ls.len() - 1 {
                    assert(ls[i] == piece_lexemes(old_pieces)[i]);
                }
            }
        }
        rest = tail;
    }
    proof {
        assert(rest.spec_bytes().len() == 0) by {
            lemma_encode_nonempty_iff(rest@);
        }
        assert(lex(rest.spec_bytes()) =~= Seq::<Lexeme>::empty());
        assert(piece_lexemes(pieces@) + lex(rest.spec_bytes()) =~= piece_lexemes(pieces@));
        assert(source.spec_bytes() =~= joined_text(piece_lexemes(pieces@)));
        lemma_lex_covers(source.spec_bytes());
    }
    pieces
}

proof fn lemma_encode_nonempty_iff(chars: Seq<char>)
    ensures
        chars.len() == 0 ==> encode_utf8(chars).len() == 0,
{
}

} // verus!
