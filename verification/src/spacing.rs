//! Whitespace between tokens changes nothing.
//!
//! Where a text is cut between two of its tokens and whitespace is put into
//! the cut, the lexer finds the same tokens as before, each with the text it
//! had, and the parser builds the same tree from them
//! ([`lemma_space_between_tokens`], [`lemma_space_keeps_tree`]). The one
//! token that takes whitespace behind it into itself is the comment, which
//! goes on to the end of its line. In the same way, words that are written
//! with blanks between them are the tokens of what is written
//! ([`lemma_lex_spaced`]).

use vstd::prelude::*;
use crate::errors::LishpError;
use crate::lexer::{is_blank, lex, lex_from, lexeme_at, InvalidTokenError, Lexeme};
use crate::parser::{form_at, list_at, parse_tokens, Step};
use crate::patterns::{first_match, is_digit, is_space, lemma_first_match_bound, lemma_first_match_is_token_at, lemma_quoted_rest_bound, lemma_run_bound, lemma_run_content, lemma_run_is, lemma_run_split, quoted_rest, run, token_at, Class, Pattern};
use crate::types::Tree;

verus! {

/// The texts of the tokens `toks`, one for one.
pub open spec fn texts(toks: Seq<Lexeme>) -> Seq<Seq<char>> {
    Seq::new(toks.len(), |i: int| toks[i].text)
}

/// The texts of the tokens that the lexer gave, or `None` where it failed.
pub open spec fn texts_of(lexed: Result<Seq<Lexeme>, InvalidTokenError>) -> Option<
    Seq<Seq<char>>,
> {
    match lexed {
        Ok(toks) => Some(texts(toks)),
        Err(_) => None,
    }
}

/// A run in a text is the run at the same place of what is left of the text
/// when characters are taken from its start.
proof fn lemma_run_shift(s: Seq<char>, cut: int, at: int, class: Class)
    requires
        0 <= cut <= s.len(),
        0 <= at,
    ensures
        run(s, cut + at, class) == run(s.skip(cut), at, class),
    decreases s.len() - cut - at,
{
    if cut + at < s.len() {
        assert(s[cut + at] == s.skip(cut)[at]);
        if class.holds(s[cut + at]) {
            lemma_run_shift(s, cut, at + 1, class);
        }
    }
}

/// The same of the rest of a quoted text.
proof fn lemma_quoted_shift(s: Seq<char>, cut: int, at: int)
    requires
        0 <= cut <= s.len(),
        0 <= at,
    ensures
        quoted_rest(s, cut + at) == quoted_rest(s.skip(cut), at),
    decreases s.len() - cut - at,
{
    if cut + at < s.len() {
        let t = s.skip(cut);
        assert(s[cut + at] == t[at]);
        if s[cut + at] == '"' {
        } else if s[cut + at] == '\\' {
            if cut + at + 1 < s.len() {
                assert(s[cut + at + 1] == t[at + 1]);
                if s[cut + at + 1] != '\n' {
                    lemma_quoted_shift(s, cut, at + 2);
                }
            }
        } else {
            lemma_quoted_shift(s, cut, at + 1);
        }
    }
}

/// The token at a place of a text is the token at the start of what is left
/// of the text from that place on.
proof fn lemma_token_shift(s: Seq<char>, cut: int)
    requires
        0 <= cut <= s.len(),
    ensures
        token_at(s, cut) == token_at(s.skip(cut), 0),
{
    let t = s.skip(cut);
    if cut < s.len() {
        assert(s[cut] == t[0]);
        if cut + 1 < s.len() {
            assert(s[cut + 1] == t[1]);
        }
        lemma_run_shift(s, cut, 1, Class::Digit);
        lemma_run_shift(s, cut, 2, Class::Digit);
        lemma_run_shift(s, cut, 1, Class::SymbolPart);
        lemma_run_shift(s, cut, 1, Class::SameLine);
        lemma_run_shift(s, cut, 1, Class::Space);
        lemma_quoted_shift(s, cut, 1);
        let whole: int = (1 + run(s, cut + 1, Class::Digit)) as int;
        lemma_run_bound(s, cut + 1, Class::Digit);
        if cut + whole + 1 < s.len() {
            assert(s[cut + whole] == t[whole]);
            assert(s[cut + whole + 1] == t[whole + 1]);
            lemma_run_shift(s, cut, whole + 2, Class::Digit);
        }
    }
}

/// The texts of the tokens from a place on are the texts of the tokens of
/// what is left of the text from that place on.
proof fn lemma_lex_shift(s: Seq<char>, cut: int)
    requires
        0 <= cut <= s.len(),
    ensures
        texts_of(lex_from(s, cut)) == texts_of(lex_from(s.skip(cut), 0)),
    decreases s.len() - cut,
{
    let t = s.skip(cut);
    if cut < s.len() {
        lemma_token_shift(s, cut);
        lemma_first_match_is_token_at(s, cut);
        lemma_first_match_is_token_at(t, 0);
        lemma_first_match_bound(s, cut);
        match first_match(s, cut) {
            None => {},
            Some((_, n)) => {
                assert(s.subrange(cut, cut + n) == t.subrange(0, n as int));
                lemma_lex_shift(s, cut + n);
                lemma_lex_shift(t, n as int);
                assert(t.skip(n as int) == s.skip(cut + n));
                lemma_texts_step(s, cut);
                lemma_texts_step(t, 0);
            },
        }
    }
}

/// The texts of the tokens from a place on, by the token that starts there
/// and the texts of the tokens behind it.
proof fn lemma_texts_step(s: Seq<char>, at: int)
    requires
        0 <= at < s.len(),
    ensures
        texts_of(lex_from(s, at)) == match first_match(s, at) {
            None => None::<Seq<Seq<char>>>,
            Some((_, n)) => match texts_of(lex_from(s, at + n)) {
                None => None,
                Some(rest) => if is_blank(s.subrange(at, at + n)) {
                    Some(rest)
                } else {
                    Some(seq![s.subrange(at, at + n)] + rest)
                },
            },
        },
{
    lemma_first_match_bound(s, at);
    match first_match(s, at) {
        None => {},
        Some((_, n)) => {
            let lexeme = lexeme_at(s, at)->0;
            match lex_from(s, at + n) {
                Err(_) => {},
                Ok(rest) => {
                    assert(texts(seq![lexeme] + rest) =~= seq![lexeme.text] + texts(rest));
                },
            }
        },
    }
}

/// Whether `s` and `t` have the same first `m` characters.
pub open spec fn same_start(s: Seq<char>, t: Seq<char>, m: int) -> bool {
    &&& 0 <= m <= s.len()
    &&& m <= t.len()
    &&& forall|i: int| 0 <= i < m ==> s[i] == t[i]
}

/// A run that ends inside the common start of two texts, or at its end
/// where the other text goes on with a character of another kind, is the
/// same run in both.
proof fn lemma_run_kept(s: Seq<char>, t: Seq<char>, m: int, at: int, class: Class)
    requires
        same_start(s, t, m),
        0 <= at <= m,
        at + run(s, at, class) <= m,
        at + run(s, at, class) == m && m < t.len() ==> !class.holds(t[m]),
    ensures
        run(t, at, class) == run(s, at, class),
{
    lemma_run_content(s, at, class);
    let end = at + run(s, at, class);
    assert forall|i: int| at <= i < end implies class.holds(#[trigger] t[i]) by {
        assert(s[i] == t[i]);
    }
    if end < m {
        assert(s[end] == t[end]);
    }
    lemma_run_is(t, at, end, class);
}

/// The rest of a quoted text that ends inside the common start of two
/// texts is the same in both.
proof fn lemma_quoted_kept(s: Seq<char>, t: Seq<char>, m: int, at: int)
    requires
        same_start(s, t, m),
        0 <= at,
        quoted_rest(s, at) matches Some(n) && at + n <= m,
    ensures
        quoted_rest(t, at) == quoted_rest(s, at),
    decreases s.len() - at,
{
    lemma_quoted_rest_bound(s, at);
    assert(s[at] == t[at]);
    if s[at] == '"' {
    } else if s[at] == '\\' {
        lemma_quoted_rest_bound(s, at + 2);
        assert(s[at + 1] == t[at + 1]);
        lemma_quoted_kept(s, t, m, at + 2);
    } else {
        lemma_quoted_rest_bound(s, at + 1);
        lemma_quoted_kept(s, t, m, at + 1);
    }
}

/// A token that ends inside the common start of two texts is the same
/// token in both; and so is one that ends where the common start ends, if
/// the other text goes on with whitespace there and the token is no
/// whitespace, nor a comment before anything but a line feed.
proof fn lemma_token_kept(s: Seq<char>, t: Seq<char>, m: int, at: int)
    requires
        same_start(s, t, m),
        m < t.len(),
        is_space(t[m]),
        0 <= at < m,
        token_at(s, at) matches Some((p, n)) && at + n <= m && (at + n == m ==> p
            != Pattern::Space && (p == Pattern::Comment ==> t[m] == '\n')),
    ensures
        token_at(t, at) == token_at(s, at),
{
    let (p, n) = token_at(s, at)->0;
    let c = s[at];
    assert(t[at] == c);
    if at + 1 < m {
        assert(s[at + 1] == t[at + 1]);
    }
    match p {
        Pattern::Float => {
            lemma_run_bound(s, at + 1, Class::Digit);
            let whole: int = (1 + run(s, at + 1, Class::Digit)) as int;
            let end = at + whole;
            if end + 1 < s.len() && s[end] == '.' && is_digit(s[end + 1]) {
                lemma_run_bound(s, end + 2, Class::Digit);
                lemma_run_kept(s, t, m, at + 1, Class::Digit);
                assert(s[end] == t[end]);
                assert(s[end + 1] == t[end + 1]);
                lemma_run_kept(s, t, m, end + 2, Class::Digit);
            } else {
                lemma_run_kept(s, t, m, at + 1, Class::Digit);
                if end < m {
                    assert(s[end] == t[end]);
                    if end + 1 < m {
                        assert(s[end + 1] == t[end + 1]);
                    }
                }
            }
        },
        Pattern::Integer => {
            lemma_run_bound(s, at + 2, Class::Digit);
            lemma_run_kept(s, t, m, at + 2, Class::Digit);
        },
        Pattern::OpenParen => {},
        Pattern::CloseParen => {},
        Pattern::Symbol => {
            lemma_run_bound(s, at + 1, Class::SymbolPart);
            lemma_run_kept(s, t, m, at + 1, Class::SymbolPart);
        },
        Pattern::Quoted => {
            lemma_quoted_kept(s, t, m, at + 1);
        },
        Pattern::Comment => {
            lemma_run_bound(s, at + 1, Class::SameLine);
            lemma_run_kept(s, t, m, at + 1, Class::SameLine);
        },
        Pattern::Space => {
            lemma_run_bound(s, at + 1, Class::Space);
            lemma_run_kept(s, t, m, at + 1, Class::Space);
        },
    }
}

/// Whitespace that ends where the common start of two texts ends goes on
/// in the other text as far as whitespace goes on there.
proof fn lemma_space_grows(s: Seq<char>, t: Seq<char>, m: int, at: int)
    requires
        same_start(s, t, m),
        0 <= at < m,
        token_at(s, at) matches Some((p, n)) && at + n == m && p == Pattern::Space,
    ensures
        token_at(t, at) == Some((Pattern::Space, ((m - at) + run(t, m, Class::Space)) as nat)),
{
    assert(t[at] == s[at]);
    lemma_run_content(s, at + 1, Class::Space);
    assert forall|i: int| at + 1 <= i < m implies Class::Space.holds(#[trigger] t[i]) by {
        assert(s[i] == t[i]);
    }
    lemma_run_split(t, at + 1, m, Class::Space);
}

/// Whether the lexer, on its way through `s` from `from` on, comes to stand
/// at `to`, so that `to` is a place between two tokens, before the first or
/// behind the last; and, unless `after_comment` allows it, the token that
/// ends there is no comment. (Nothing is asked of a lexer that stands at
/// `to` already.)
pub open spec fn splits_at(s: Seq<char>, from: int, to: int, after_comment: bool) -> bool
    decreases s.len() - from,
{
    if from == to {
        true
    } else if !(0 <= from < to <= s.len()) {
        false
    } else {
        match first_match(s, from) {
            None => false,
            Some((p, n)) => {
                proof {
                    lemma_first_match_bound(s, from);
                }
                if from + n == to {
                    after_comment || p != Pattern::Comment
                } else {
                    splits_at(s, from + n, to, after_comment)
                }
            },
        }
    }
}

/// Where whitespace stands, a whitespace token starts, and it is the whole
/// run of whitespace.
proof fn lemma_space_token(s: Seq<char>, at: int)
    requires
        0 <= at < s.len(),
        is_space(s[at]),
    ensures
        first_match(s, at) == Some((Pattern::Space, run(s, at, Class::Space))),
        is_blank(s.subrange(at, at + run(s, at, Class::Space))),
        at + run(s, at, Class::Space) <= s.len(),
{
    lemma_first_match_is_token_at(s, at);
    lemma_run_content(s, at, Class::Space);
    lemma_run_bound(s, at, Class::Space);
}

/// `lemma_token_kept`, said of the first match.
proof fn lemma_first_match_kept(s: Seq<char>, t: Seq<char>, m: int, at: int)
    requires
        same_start(s, t, m),
        m < t.len(),
        is_space(t[m]),
        0 <= at < m,
        first_match(s, at) matches Some((p, n)) && at + n <= m && (at + n == m ==> p
            != Pattern::Space && (p == Pattern::Comment ==> t[m] == '\n')),
    ensures
        first_match(t, at) == first_match(s, at),
{
    lemma_first_match_is_token_at(s, at);
    lemma_first_match_is_token_at(t, at);
    lemma_token_kept(s, t, m, at);
}

/// A whitespace token that ends at `m` has no whitespace behind it.
proof fn lemma_space_ends(s: Seq<char>, at: int, m: int)
    requires
        0 <= at < m <= s.len(),
        first_match(s, at) == Some((Pattern::Space, (m - at) as nat)),
    ensures
        run(s, at, Class::Space) == m - at,
        run(s, m, Class::Space) == 0,
{
    lemma_first_match_is_token_at(s, at);
    lemma_run_content(s, at + 1, Class::Space);
}

/// The texts of the tokens behind whitespace are the texts of the tokens
/// from the whitespace on.
proof fn lemma_skip_space(s: Seq<char>, at: int)
    requires
        0 <= at <= s.len(),
    ensures
        texts_of(lex_from(s, at)) == texts_of(lex_from(s, at + run(s, at, Class::Space))),
{
    if at < s.len() && is_space(s[at]) {
        lemma_space_token(s, at);
        lemma_texts_step(s, at);
    }
}

/// What is left of two joined texts behind the first and a bit of the
/// second is what is left of the second behind that bit.
proof fn lemma_skip_joined(a: Seq<char>, b: Seq<char>, n: int)
    requires
        0 <= n <= b.len(),
    ensures
        (a + b).skip(a.len() + n) == b.skip(n),
{
    assert((a + b).skip(a.len() + n) =~= b.skip(n));
}

/// The whitespace at the cut: with `w` in the cut, the run of whitespace
/// there is longer by `w`.
proof fn lemma_run_at_cut(a: Seq<char>, w: Seq<char>, b: Seq<char>)
    requires
        is_blank(w),
    ensures
        run(a + w + b, a.len() as int, Class::Space) == w.len() + run(
            a + b,
            a.len() as int,
            Class::Space,
        ),
        run(a + b, a.len() as int, Class::Space) == run(b, 0, Class::Space),
        run(b, 0, Class::Space) <= b.len(),
{
    let s = a + b;
    let t = a + w + b;
    let m = a.len() as int;
    let k = w.len() as int;
    lemma_skip_joined(a, b, 0);
    lemma_skip_joined(a + w, b, 0);
    assert(b.skip(0) == b);
    lemma_run_shift(s, m, 0, Class::Space);
    lemma_run_shift(t, m + k, 0, Class::Space);
    lemma_run_bound(b, 0, Class::Space);
    assert forall|i: int| m <= i < m + k implies Class::Space.holds(#[trigger] t[i]) by {
        assert(t[i] == w[i - m]);
    }
    lemma_run_split(t, m, m + k, Class::Space);
}

/// From the cut on, the text with whitespace in the cut has the tokens of
/// the text without.
proof fn lemma_lex_at_cut(a: Seq<char>, w: Seq<char>, b: Seq<char>)
    requires
        is_blank(w),
    ensures
        texts_of(lex_from(a + w + b, a.len() as int)) == texts_of(
            lex_from(a + b, a.len() as int),
        ),
        texts_of(lex_from(a + w + b, (a.len() + w.len()) as int)) == texts_of(
            lex_from(a + b, a.len() as int),
        ),
{
    let s = a + b;
    let t = a + w + b;
    let m = a.len() as int;
    let k = w.len() as int;
    lemma_run_at_cut(a, w, b);
    let gap = run(b, 0, Class::Space) as int;
    lemma_skip_space(s, m);
    lemma_skip_space(t, m);
    lemma_lex_shift(s, m + gap);
    lemma_lex_shift(t, m + k + gap);
    lemma_skip_joined(a, b, gap);
    lemma_skip_joined(a + w, b, gap);
    lemma_lex_shift(s, m);
    lemma_lex_shift(t, m + k);
    lemma_skip_joined(a, b, 0);
    lemma_skip_joined(a + w, b, 0);
}

proof fn lemma_lex_kept(a: Seq<char>, w: Seq<char>, b: Seq<char>, from: int)
    requires
        w.len() > 0,
        is_blank(w),
        0 <= from <= a.len(),
        splits_at(a + b, from, a.len() as int, w[0] == '\n'),
    ensures
        texts_of(lex_from(a + w + b, from)) == texts_of(lex_from(a + b, from)),
    decreases a.len() - from,
{
    let s = a + b;
    let t = a + w + b;
    let m = a.len() as int;
    lemma_lex_at_cut(a, w, b);
    if from < m {
        assert(same_start(s, t, m));
        assert(t[m] == w[0]);
        lemma_first_match_bound(s, from);
        let (p, n) = first_match(s, from)->0;
        assert(from + n <= m && (from + n == m && p == Pattern::Comment ==> w[0] == '\n') && (
        from + n < m ==> splits_at(s, from + n, m, w[0] == '\n'))) by {
            reveal_with_fuel(splits_at, 2);
        }
        lemma_texts_step(s, from);
        if from + n == m && p == Pattern::Space {
            lemma_space_ends(s, from, m);
            lemma_run_at_cut(a, w, b);
            assert(t[from] == s[from]);
            assert(is_space(s[from])) by {
                lemma_first_match_is_token_at(s, from);
            }
            assert forall|i: int| from <= i < m implies Class::Space.holds(#[trigger] t[i]) by {
                lemma_run_content(s, from, Class::Space);
                assert(t[i] == s[i]);
            }
            lemma_run_split(t, from, m, Class::Space);
            lemma_skip_space(t, from);
            lemma_skip_space(s, from);
        } else {
            lemma_first_match_kept(s, t, m, from);
            lemma_texts_step(t, from);
            assert(s.subrange(from, from + n) == t.subrange(from, from + n));
            lemma_lex_kept(a, w, b, from + n);
        }
    }
}

/// Whether the whitespace `w` leaves a comment before it as it is: it is
/// empty or starts with a line feed.
pub open spec fn ends_line(w: Seq<char>) -> bool {
    w.len() == 0 || w[0] == '\n'
}

/// Whitespace between two tokens changes no token: where the lexer comes
/// to stand between `a` and `b` on its way through `a + b`, the tokens of
/// `a + w + b` have the texts of the tokens of `a + b`, whatever whitespace
/// `w` is; and the one text has no tokens if the other has none. Behind a
/// comment this holds of whitespace that ends the line.
pub proof fn lemma_space_between_tokens(a: Seq<char>, w: Seq<char>, b: Seq<char>)
    requires
        splits_at(a + b, 0, a.len() as int, ends_line(w)),
        is_blank(w),
    ensures
        texts_of(lex(a + w + b)) == texts_of(lex(a + b)),
{
    if w.len() == 0 {
        assert(a + w + b == a + b);
    } else {
        lemma_lex_kept(a, w, b, 0);
    }
}

/// Whether two errors are of one kind: they differ in the place they name
/// at most.
pub open spec fn same_kind(e: LishpError, f: LishpError) -> bool {
    match (e, f) {
        (LishpError::EOF(_), LishpError::EOF(_)) => true,
        (LishpError::InvalidNumber(x), LishpError::InvalidNumber(y)) => x == y,
        (LishpError::UnbalancedParens(_), LishpError::UnbalancedParens(_)) => true,
        _ => false,
    }
}

/// Whether two parses came out alike: with the same tree, or with errors of
/// one kind.
pub open spec fn alike(x: Result<Tree, LishpError>, y: Result<Tree, LishpError>) -> bool {
    match (x, y) {
        (Ok(s), Ok(t)) => s == t,
        (Err(e), Err(f)) => same_kind(e, f),
        _ => false,
    }
}

/// Whether two rules came out alike: with the same tree behind as many
/// tokens and with as many parentheses open, or with errors of one kind.
pub open spec fn steps_alike(x: Step, y: Step) -> bool {
    match (x, y) {
        (
            Step::Done { tree: s, next: i, open: o },
            Step::Done { tree: t, next: j, open: q },
        ) => s == t && i == j && o.len() == q.len(),
        (Step::Failed { error: e, .. }, Step::Failed { error: f, .. }) => same_kind(e, f),
        _ => false,
    }
}

proof fn lemma_form_alike(
    x: Seq<Lexeme>,
    y: Seq<Lexeme>,
    at: nat,
    open_x: Seq<usize>,
    open_y: Seq<usize>,
)
    requires
        texts(x) == texts(y),
        open_x.len() == open_y.len(),
    ensures
        steps_alike(form_at(x, at, open_x), form_at(y, at, open_y)),
    decreases x.len() - at, 0nat,
{
    assert(x.len() == texts(x).len());
    assert(y.len() == texts(y).len());
    if x.len() > 0 && at < x.len() {
        assert(texts(x)[at as int] == x[at as int].text);
        assert(texts(y)[at as int] == y[at as int].text);
        if x[at as int].text == seq!['('] {
            lemma_list_alike(
                x,
                y,
                at + 1,
                open_x.push(x[at as int].start as usize),
                open_y.push(y[at as int].start as usize),
                Seq::empty(),
            );
        }
    }
}

proof fn lemma_list_alike(
    x: Seq<Lexeme>,
    y: Seq<Lexeme>,
    at: nat,
    open_x: Seq<usize>,
    open_y: Seq<usize>,
    items: Seq<Tree>,
)
    requires
        texts(x) == texts(y),
        open_x.len() == open_y.len(),
    ensures
        steps_alike(list_at(x, at, open_x, items), list_at(y, at, open_y, items)),
    decreases x.len() - at, 1nat,
{
    assert(x.len() == texts(x).len());
    assert(y.len() == texts(y).len());
    if at < x.len() {
        assert(texts(x)[at as int] == x[at as int].text);
        assert(texts(y)[at as int] == y[at as int].text);
    }
    if at < x.len() && x[at as int].text == seq![')'] {
    } else {
        lemma_form_alike(x, y, at, open_x, open_y);
        match (form_at(x, at, open_x), form_at(y, at, open_y)) {
            (
                Step::Done { tree, next, open: still_x },
                Step::Done { open: still_y, .. },
            ) => {
                if at < next <= x.len() {
                    lemma_list_alike(x, y, next, still_x, still_y, items.push(tree));
                }
            },
            _ => {},
        }
    }
}

/// The parser reads the texts of its tokens: tokens with the same texts
/// give the same tree, or errors of one kind, wherever the tokens stand in
/// their sources.
pub proof fn lemma_parse_reads_texts(x: Seq<Lexeme>, y: Seq<Lexeme>)
    requires
        texts(x) == texts(y),
    ensures
        alike(parse_tokens(x), parse_tokens(y)),
{
    lemma_form_alike(x, y, 0, Seq::empty(), Seq::empty());
    assert(x.len() == texts(x).len());
    assert(y.len() == texts(y).len());
    match form_at(x, 0, Seq::empty()) {
        Step::Done { next, .. } => {
            if next < x.len() {
                assert(texts(x)[next as int] == x[next as int].text);
                assert(texts(y)[next as int] == y[next as int].text);
            }
        },
        _ => {},
    }
}

/// Whitespace between two tokens changes no tree: under the conditions of
/// `lemma_space_between_tokens`, what the parser makes of the tokens of
/// `a + w + b` is what it makes of the tokens of `a + b`.
pub proof fn lemma_space_keeps_tree(a: Seq<char>, w: Seq<char>, b: Seq<char>)
    requires
        splits_at(a + b, 0, a.len() as int, ends_line(w)),
        is_blank(w),
    ensures
        match (lex(a + b), lex(a + w + b)) {
            (Ok(x), Ok(y)) => alike(parse_tokens(x), parse_tokens(y)),
            (Err(_), Err(_)) => true,
            _ => false,
        },
{
    lemma_space_between_tokens(a, w, b);
    match (lex(a + b), lex(a + w + b)) {
        (Ok(x), Ok(y)) => {
            lemma_parse_reads_texts(x, y);
        },
        _ => {},
    }
}

/// Whether `w` is one token from its first character to its last, and
/// neither whitespace nor a comment.
pub open spec fn is_word(w: Seq<char>) -> bool {
    first_match(w, 0) matches Some((p, n)) && n == w.len() && p != Pattern::Space && p
        != Pattern::Comment
}

/// Whether every one of `words` is a word.
pub open spec fn all_words(words: Seq<Seq<char>>) -> bool {
    forall|i: int| 0 <= i < words.len() ==> is_word(#[trigger] words[i])
}

/// The text made of `words`, with a blank behind each of them.
pub open spec fn spaced(words: Seq<Seq<char>>) -> Seq<char>
    decreases words.len(),
{
    if words.len() == 0 {
        Seq::empty()
    } else {
        words[0] + seq![' '] + spaced(words.drop_first())
    }
}

/// A word starts with a character that is no whitespace.
proof fn lemma_word_starts(w: Seq<char>)
    requires
        is_word(w),
    ensures
        w.len() >= 1,
        !is_space(w[0]),
        !is_blank(w),
{
    lemma_first_match_bound(w, 0);
    if is_space(w[0]) {
        lemma_space_token(w, 0);
    }
    if is_blank(w) {
        assert(is_space(w[0]));
    }
}

/// Words that are written one behind the other with blanks between them
/// are the tokens of what is written.
pub proof fn lemma_lex_spaced(words: Seq<Seq<char>>)
    requires
        all_words(words),
    ensures
        texts_of(lex(spaced(words))) == Some(words),
    decreases words.len(),
{
    let s = spaced(words);
    if words.len() == 0 {
        assert(texts(Seq::<Lexeme>::empty()) =~= words);
    } else {
        let w = words[0];
        let rest = words.drop_first();
        let t = spaced(rest);
        let m = w.len() as int;
        assert(is_word(w));
        lemma_word_starts(w);
        assert forall|i: int| 0 <= i < rest.len() implies is_word(#[trigger] rest[i]) by {
            assert(rest[i] == words[i + 1]);
        }
        lemma_lex_spaced(rest);
        assert(s == w + seq![' '] + t);
        assert(same_start(w, s, m));
        assert(s[m] == ' ');
        lemma_first_match_kept(w, s, m, 0);
        lemma_texts_step(s, 0);
        assert(s.subrange(0, m) == w);
        // behind the word stands one blank, and then the other words
        assert(s.skip(m + 1) == t);
        lemma_run_shift(s, m + 1, 0, Class::Space);
        if rest.len() > 0 {
            assert(is_word(rest[0]));
            lemma_word_starts(rest[0]);
            assert(t[0] == rest[0][0]);
        }
        assert(run(t, 0, Class::Space) == 0);
        assert(run(s, m, Class::Space) == 1);
        lemma_skip_space(s, m);
        lemma_lex_shift(s, m + 1);
        assert(seq![w] + rest == words);
    }
}

} // verus!
