//! The lexer: from source text to tokens.
//!
//! A [`Lexer`] stands at a place in its text and hands out one token after
//! the other; [`tokenize`] runs it to the end and keeps every token that is
//! not whitespace. Comments are tokens like any other and are kept: a caller
//! that hands the tokens on to the parser removes them first, or finds each
//! comment again in the tree as a symbol.

use vstd::prelude::*;
use crate::errors::IntegerError;
use crate::literals::{integer_of, parse_integer};
use crate::patterns::{digit, first_match, first_match_from, is_digit, is_space, lemma_first_match_bound, make_patterns, priority, space, Pattern};
use crate::text::{byte_len, char_width, chars_of, lemma_byte_len_push, lemma_byte_len_take, lemma_encode_concat, same_text};
use vstd::std_specs::iter::IteratorSpec;
use vstd::utf8::encode_utf8;

verus! {

/// The place of a token in the source text: the byte offsets at which it
/// starts and ends, the end not included.
#[derive(Copy, Clone, Debug, PartialEq, Eq)]
pub struct Span {
    /// The offset of the first byte.
    pub start: usize,
    /// The offset behind the last byte.
    pub end: usize,
}

impl Span {
    /// A span from `start` to `end`.
    pub fn new(start: usize, end: usize) -> (span: Span)
        ensures
            span.start == start,
            span.end == end,
    {
        Span { start: start, end: end }
    }
}

/// The error of a text in which, at some place, no token starts.
#[derive(PartialEq, Eq, Debug, Copy, Clone)]
pub struct InvalidTokenError {
    /// The byte offset of that place.
    pub pos: usize,
}

/// A token as the contracts see it: its characters and its place.
pub struct Lexeme {
    /// The characters of the token.
    pub text: Seq<char>,
    /// The offset of its first byte in the source.
    pub start: nat,
    /// The offset behind its last byte.
    pub end: nat,
}

/// A single token and its place in the source text.
#[derive(Clone, Debug, PartialEq)]
pub struct Token {
    value: String,
    span: Span,
}

impl View for Token {
    type V = Lexeme;

    closed spec fn view(&self) -> Lexeme {
        Lexeme { text: self.value@, start: self.span.start as nat, end: self.span.end as nat }
    }
}

impl DeepView for Token {
    type V = Lexeme;

    open spec fn deep_view(&self) -> Lexeme {
        self.view()
    }
}

/// Whether `text` is made of whitespace alone. The empty text is.
pub open spec fn is_blank(text: Seq<char>) -> bool {
    forall|i: int| 0 <= i < text.len() ==> is_space(#[trigger] text[i])
}

impl Token {
    /// A token out of its text and its place.
    pub fn new(value: &str, span: Span) -> (token: Token)
        ensures
            token@.text == value@,
            token@.start == span.start,
            token@.end == span.end,
    {
        Token { value: value.to_owned(), span: span }
    }

    /// Reads the token's text as a whole number of 64 bits.
    pub fn parse(&self) -> (number: Result<i64, IntegerError>)
        ensures
            match number {
                Ok(n) => integer_of(self@.text) == Ok::<int, IntegerError>(n as int),
                Err(e) => integer_of(self@.text) == Err::<int, IntegerError>(e),
            },
    {
        let chars = chars_of(self.value.as_str());
        parse_integer(&chars)
    }

    /// Whether the token is made of whitespace alone.
    pub fn is_whitespace(&self) -> (blank: bool)
        ensures
            blank == is_blank(self@.text),
    {
        for c in it: self.value.as_str().chars()
            invariant
                it.seq() == self@.text,
                forall|j: int| 0 <= j < it.index() ==> is_space(#[trigger] it.seq()[j]),
        {
            if !space(c) {
                return false;
            }
        }
        true
    }

    /// The length of the token's text, in bytes.
    pub fn len(&self) -> (n: usize)
        ensures
            n == byte_len(self@.text),
    {
        self.value.as_str().as_bytes().len()
    }

    /// Whether the token's text starts with `pat`.
    pub fn starts_with(&self, pat: &str) -> (yes: bool)
        ensures
            yes == pat@.is_prefix_of(self@.text),
    {
        broadcast use vstd::string::group_string_axioms;

        let mut have = self.value.as_str().chars();
        let mut want = pat.chars();
        let ghost mut seen: int = 0;
        assert(self@.text.skip(0) == self@.text);
        assert(pat@.skip(0) == pat@);
        loop
            invariant
                0 <= seen <= pat@.len(),
                seen <= self@.text.len(),
                IteratorSpec::remaining(&have) == self@.text.skip(seen),
                IteratorSpec::remaining(&want) == pat@.skip(seen),
                forall|j: int| 0 <= j < seen ==> self@.text[j] == pat@[j],
            decreases pat@.len() - seen,
        {
            match want.next() {
                None => {
                    assert(self@.text.subrange(0, pat@.len() as int) == pat@);
                    return true;
                },
                Some(w) => match have.next() {
                    None => {
                        return false;
                    },
                    Some(h) => {
                        assert(w == pat@[seen]);
                        assert(h == self@.text[seen]);
                        if h != w {
                            assert(!pat@.is_prefix_of(self@.text)) by {
                                if pat@.is_prefix_of(self@.text) {
                                    assert(self@.text.subrange(0, pat@.len() as int)[seen]
                                        == pat@[seen]);
                                }
                            }
                            return false;
                        }
                        assert(self@.text.skip(seen).drop_first() == self@.text.skip(seen + 1));
                        assert(pat@.skip(seen).drop_first() == pat@.skip(seen + 1));
                        proof {
                            seen = seen + 1;
                        }
                    },
                },
            }
        }
    }

    /// Whether the token's first character is a decimal digit.
    pub fn starts_with_number(&self) -> (yes: bool)
        ensures
            yes == (self@.text.len() > 0 && is_digit(self@.text[0])),
    {
        broadcast use vstd::string::group_string_axioms;

        if let Some(first) = self.value.as_str().chars().next() {
            digit(first)
        } else {
            false
        }
    }

    /// The token's text.
    pub fn value(&self) -> (text: &str)
        ensures
            text@ == self@.text,
    {
        self.value.as_str()
    }

    /// The token's place in the source text.
    pub fn span(&self) -> (span: Span)
        ensures
            span.start == self@.start,
            span.end == self@.end,
    {
        self.span
    }

    /// Whether the token's text is exactly `text`.
    pub fn is(&self, text: &str) -> (yes: bool)
        ensures
            yes == (self@.text == text@),
    {
        same_text(self.value.as_str(), text)
    }
}

/// The token that starts at the `at`-th character of `s`: its text is the
/// match of the first pattern that matches there, its place the bytes that
/// this text takes in `s`. `None` where no pattern matches.
pub open spec fn lexeme_at(s: Seq<char>, at: int) -> Option<Lexeme> {
    match first_match(s, at) {
        Some((_, n)) => Some(
            Lexeme {
                text: s.subrange(at, at + n),
                start: byte_len(s.take(at)),
                end: byte_len(s.take(at + n)),
            },
        ),
        None => None,
    }
}

/// The tokens of `s` from its `at`-th character on, whitespace left out; or
/// the first place, as a byte offset, at which no pattern matches.
pub open spec fn lex_from(s: Seq<char>, at: int) -> Result<Seq<Lexeme>, InvalidTokenError>
    decreases s.len() - at,
{
    if !(0 <= at < s.len()) {
        Ok(Seq::empty())
    } else {
        match lexeme_at(s, at) {
            None => Err(InvalidTokenError { pos: byte_len(s.take(at)) as usize }),
            Some(lexeme) => {
                proof {
                    lemma_first_match_bound(s, at);
                }
                match lex_from(s, at + lexeme.text.len()) {
                    Err(e) => Err(e),
                    Ok(rest) => if is_blank(lexeme.text) {
                        Ok(rest)
                    } else {
                        Ok(seq![lexeme] + rest)
                    },
                }
            },
        }
    }
}

/// The tokens of the text `s`, whitespace left out; or the first place at
/// which no pattern matches.
pub open spec fn lex(s: Seq<char>) -> Result<Seq<Lexeme>, InvalidTokenError> {
    lex_from(s, 0)
}

/// A place in a text, counted in characters and in bytes.
#[derive(Copy, Clone, Debug)]
struct Place {
    index: usize,
    offset: usize,
}

/// The lexer: a source text and a place in it.
#[derive(Debug)]
pub struct Lexer {
    chars: Vec<char>,
    place: Place,
    patterns: Vec<Pattern>,
}

impl Lexer {
    #[verifier::type_invariant]
    spec fn well_formed(self) -> bool {
        &&& self.place.index <= self.chars.len()
        &&& self.place.offset == byte_len(self.chars@.take(self.place.index as int))
        &&& byte_len(self.chars@) <= usize::MAX
        &&& self.patterns@ == priority()
    }

    /// The text that the lexer reads.
    pub closed spec fn text(self) -> Seq<char> {
        self.chars@
    }

    /// The number of characters that the lexer has behind it.
    pub closed spec fn cursor(self) -> nat {
        self.place.index as nat
    }

    /// The byte offset at which the lexer stands.
    pub open spec fn offset(self) -> nat {
        byte_len(self.text().take(self.cursor() as int))
    }

    /// A lexer at the start of `src`.
    pub fn new(src: &str) -> (lexer: Lexer)
        ensures
            lexer.text() == src@,
            lexer.cursor() == 0,
    {
        let chars = chars_of(src);
        let size = src.as_bytes().len();
        proof {
            assert(chars@.take(0) == Seq::<char>::empty());
        }
        Lexer { chars: chars, place: Place { index: 0, offset: 0 }, patterns: make_patterns() }
    }

    /// The next token, whitespace and comments too, and the lexer moves
    /// behind it. `Ok(None)` at the end of the text. Where no pattern
    /// matches, the error holds the byte offset of the place and the lexer
    /// stays.
    pub fn next_token(&mut self) -> (next: Result<Option<Token>, InvalidTokenError>)
        ensures
            final(self).text() == old(self).text(),
            old(self).cursor() >= old(self).text().len() ==> next == Ok::<
                Option<Token>,
                InvalidTokenError,
            >(None) && final(self).cursor() == old(self).cursor(),
            old(self).cursor() < old(self).text().len() ==> match lexeme_at(
                old(self).text(),
                old(self).cursor() as int,
            ) {
                Some(lexeme) => {
                    &&& next matches Ok(Some(token)) && token@ == lexeme
                    &&& final(self).cursor() == old(self).cursor() + lexeme.text.len()
                },
                None => {
                    &&& next matches Err(e) && e.pos == old(self).offset()
                    &&& final(self).cursor() == old(self).cursor()
                },
            },
    {
        proof {
            use_type_invariant(&*self);
            lemma_first_match_bound(self.chars@, self.place.index as int);
        }
        let from = self.place.index;
        let start = self.place.offset;
        if from >= self.chars.len() {
            return Ok(None);
        }
        let mut k: usize = 0;
        while k < self.patterns.len()
            invariant
                k <= self.patterns.len(),
                self.patterns@ == priority(),
                *self == *old(self),
                from == self.place.index,
                start == self.place.offset,
                from < self.chars.len(),
                start == byte_len(self.chars@.take(from as int)),
                byte_len(self.chars@) <= usize::MAX,
                first_match(self.chars@, from as int) == first_match_from(
                    self.chars@,
                    from as int,
                    k as int,
                ),
            decreases self.patterns.len() - k,
        {
            if let Some(end) = self.patterns[k].find(&self.chars, from) {
                let mut value = String::new();
                let mut at: usize = from;
                let mut offset: usize = start;
                while at < end
                    invariant
                        from <= at <= end <= self.chars.len(),
                        *self == *old(self),
                        byte_len(self.chars@) <= usize::MAX,
                        offset == byte_len(self.chars@.take(at as int)),
                        value@ == self.chars@.subrange(from as int, at as int),
                    decreases end - at,
                {
                    let c = self.chars[at];
                    proof {
                        lemma_byte_len_take(self.chars@, at + 1);
                        assert(self.chars@.take(at + 1) == self.chars@.take(at as int).push(c));
                        lemma_byte_len_push(self.chars@.take(at as int), c);
                        assert(self.chars@.subrange(from as int, at as int).push(c)
                            == self.chars@.subrange(from as int, at + 1));
                    }
                    value.push(c);
                    offset += char_width(c);
                    at += 1;
                }
                self.place = Place { index: end, offset: offset };
                return Ok(Some(Token { value: value, span: Span::new(start, offset) }));
            }
            k += 1;
        }
        Err(InvalidTokenError { pos: start })
    }
}

/// Turns a source text into its tokens, whitespace left out; or fails at the
/// first place, given as a byte offset, at which no token starts.
pub fn tokenize(src: &str) -> (tokens: Result<Vec<Token>, InvalidTokenError>)
    ensures
        match tokens {
            Ok(list) => lex(src@) == Ok::<Seq<Lexeme>, InvalidTokenError>(list.deep_view()),
            Err(e) => lex(src@) == Err::<Seq<Lexeme>, InvalidTokenError>(e),
        },
{
    let mut lexer = Lexer::new(src);
    let mut tokens: Vec<Token> = Vec::new();
    loop
        invariant
            lexer.text() == src@,
            lexer.cursor() <= src@.len(),
            match lex_from(src@, lexer.cursor() as int) {
                Ok(rest) => lex(src@) == Ok::<Seq<Lexeme>, InvalidTokenError>(
                    tokens.deep_view() + rest,
                ),
                Err(e) => lex(src@) == Err::<Seq<Lexeme>, InvalidTokenError>(e),
            },
        ensures
            lexer.cursor() >= src@.len(),
        decreases src@.len() - lexer.cursor(),
    {
        let ghost before = lexer.cursor();
        let ghost had = tokens.deep_view();
        proof {
            lemma_first_match_bound(src@, before as int);
            lemma_byte_len_take(src@, before as int);
        }
        match lexer.next_token() {
            Err(e) => {
                return Err(e);
            },
            Ok(None) => {
                break ;
            },
            Ok(Some(token)) => {
                if !token.is_whitespace() {
                    tokens.push(token);
                    assert(tokens.deep_view() == had.push(token@));
                    assert(had.push(token@) + lex_from(src@, lexer.cursor() as int)->Ok_0 == had + (
                    seq![token@] + lex_from(src@, lexer.cursor() as int)->Ok_0));
                }
            },
        }
    }
    assert(tokens.deep_view() + Seq::<Lexeme>::empty() == tokens.deep_view());
    Ok(tokens)
}

/// Whether `lexeme` is a piece of the text `s`: the bytes of `s` from the
/// start of the token to its end are the bytes of its text.
pub open spec fn lies_in(lexeme: Lexeme, s: Seq<char>) -> bool {
    &&& lexeme.start <= lexeme.end <= byte_len(s)
    &&& encode_utf8(s).subrange(lexeme.start as int, lexeme.end as int) == encode_utf8(
        lexeme.text,
    )
}

/// The token at a place is a piece of the text, and it starts at the byte
/// offset of the place.
proof fn lemma_lexeme_lies_in(s: Seq<char>, at: int)
    requires
        lexeme_at(s, at) is Some,
    ensures
        lies_in(lexeme_at(s, at)->0, s),
        lexeme_at(s, at)->0.start == byte_len(s.take(at)),
        lexeme_at(s, at)->0.end == byte_len(s.take(at + lexeme_at(s, at)->0.text.len())),
{
    lemma_first_match_bound(s, at);
    let lexeme = lexeme_at(s, at)->0;
    let end = at + lexeme.text.len();
    assert(s.take(end) == s.take(at) + lexeme.text);
    assert(s == s.take(end) + s.skip(end));
    lemma_encode_concat(s.take(at), lexeme.text);
    lemma_encode_concat(s.take(end), s.skip(end));
    assert(encode_utf8(s).subrange(lexeme.start as int, lexeme.end as int) =~= encode_utf8(
        lexeme.text,
    ));
}

proof fn lemma_lex_from_lies_in(s: Seq<char>, at: int)
    requires
        0 <= at <= s.len(),
    ensures
        lex_from(s, at) matches Ok(toks) ==> forall|k: int|
            0 <= k < toks.len() ==> {
                &&& lies_in(#[trigger] toks[k], s)
                &&& !is_blank(toks[k].text)
                &&& byte_len(s.take(at)) <= toks[k].start
                &&& k + 1 < toks.len() ==> toks[k].end <= toks[k + 1].start
            },
    decreases s.len() - at,
{
    if at < s.len() {
        lemma_first_match_bound(s, at);
        match lexeme_at(s, at) {
            None => {},
            Some(lexeme) => {
                let next = at + lexeme.text.len();
                lemma_lexeme_lies_in(s, at);
                lemma_lex_from_lies_in(s, next);
                match lex_from(s, next) {
                    Err(_) => {},
                    Ok(rest) => {
                        let toks = lex_from(s, at)->Ok_0;
                        assert forall|k: int| 0 <= k < toks.len() implies {
                            &&& lies_in(#[trigger] toks[k], s)
                            &&& !is_blank(toks[k].text)
                            &&& byte_len(s.take(at)) <= toks[k].start
                            &&& k + 1 < toks.len() ==> toks[k].end <= toks[k + 1].start
                        } by {
                            if is_blank(lexeme.text) {
                                assert(toks[k] == rest[k]);
                                if k + 1 < toks.len() {
                                    assert(toks[k + 1] == rest[k + 1]);
                                }
                            } else if k > 0 {
                                assert(toks[k] == rest[k - 1]);
                                if k + 1 < toks.len() {
                                    assert(toks[k + 1] == rest[k]);
                                }
                            } else {
                                if k + 1 < toks.len() {
                                    assert(toks[k + 1] == rest[0]);
                                }
                            }
                        }
                    },
                }
            },
        }
    }
}

/// Every token of a text is a piece of the text that is not blank, found
/// at the bytes that its span names; and the tokens follow one another in
/// the text without meeting.
pub proof fn lemma_tokens_lie_in_text(s: Seq<char>)
    ensures
        lex(s) matches Ok(toks) ==> forall|k: int|
            0 <= k < toks.len() ==> {
                &&& lies_in(#[trigger] toks[k], s)
                &&& !is_blank(toks[k].text)
                &&& k + 1 < toks.len() ==> toks[k].end <= toks[k + 1].start
            },
{
    lemma_lex_from_lies_in(s, 0);
}

} // verus!
