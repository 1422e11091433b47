//! Short ways to write down tokens, with their places worked out.

use vstd::prelude::*;
use crate::lexer::{Lexeme, Span, Token};
use crate::text::byte_len;

verus! {

/// The token of the text `value` that starts at the byte offset `start` and
/// ends where its text ends.
pub open spec fn lexeme_from(value: Seq<char>, start: nat) -> Lexeme {
    Lexeme { text: value, start: start, end: start + byte_len(value) }
}

/// The tokens of the texts `values`, laid end to end from the byte offset
/// `start` on.
pub open spec fn lexemes_from(values: Seq<&str>, start: nat) -> Seq<Lexeme>
    decreases values.len(),
{
    if values.len() == 0 {
        Seq::empty()
    } else {
        seq![lexeme_from(values[0]@, start)] + lexemes_from(
            values.drop_first(),
            start + byte_len(values[0]@),
        )
    }
}

/// The number of bytes that the texts `values` take together.
pub open spec fn total_len(values: Seq<&str>) -> nat
    decreases values.len(),
{
    if values.len() == 0 {
        0
    } else {
        byte_len(values[0]@) + total_len(values.drop_first())
    }
}

/// A token of the text `value` at the byte offset `start`.
pub fn tok(value: &str, start: usize) -> (token: Token)
    requires
        start + byte_len(value@) <= usize::MAX,
    ensures
        token@ == lexeme_from(value@, start as nat),
{
    let len = value.as_bytes().len();
    Token::new(value, Span::new(start, start + len))
}

/// A token for each of `values`, the first at the byte offset 0 and each
/// other where the one before it ends.
pub fn toks(values: &[&str]) -> (tokens: Vec<Token>)
    requires
        total_len(values@) <= usize::MAX,
    ensures
        tokens.deep_view() == lexemes_from(values@, 0),
{
    let mut tokens: Vec<Token> = Vec::new();
    let mut pos: usize = 0;
    let mut i: usize = 0;
    assert(values@.skip(0) == values@);
    assert(tokens.deep_view() + lexemes_from(values@, 0) == lexemes_from(values@, 0));
    while i < values.len()
        invariant
            i <= values.len(),
            pos + total_len(values@.skip(i as int)) <= usize::MAX,
            lexemes_from(values@, 0) == tokens.deep_view() + lexemes_from(
                values@.skip(i as int),
                pos as nat,
            ),
        decreases values.len() - i,
    {
        let ghost rest = values@.skip(i as int);
        let ghost had = tokens.deep_view();
        assert(rest.drop_first() == values@.skip(i + 1));
        assert(rest[0] == values@[i as int]);
        let next_tok = tok(values[i], pos);
        pos += values[i].as_bytes().len();
        tokens.push(next_tok);
        assert(tokens.deep_view() == had.push(next_tok@));
        assert(had.push(next_tok@) + lexemes_from(values@.skip(i + 1), pos as nat) == had + (
        seq![next_tok@] + lexemes_from(values@.skip(i + 1), pos as nat)));
        i += 1;
    }
    assert(tokens.deep_view() + Seq::<Lexeme>::empty() == tokens.deep_view());
    tokens
}

} // verus!
