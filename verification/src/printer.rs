//! The text of a tree, and that the lexer and the parser read it back.
//!
//! The printer here is a mathematical one. It writes a whole number in
//! decimal digits, a floating point number as its literal, a truth value as
//! `true` or `false`, nothing as `nil`, a text between double quotes with
//! its line feeds and tabs written as `\n` and `\t`, a symbol as its name,
//! and a list as its items between parentheses, with a blank behind every
//! token. What it writes is read back as what was written:
//! [`lemma_literal_round_trip`] says so of the literals, and
//! [`lemma_tree_round_trip`] of whole trees.

use vstd::prelude::*;
use crate::lexer::{is_blank, lex, lex_from, lexeme_at, Lexeme};
use crate::literals::{digit_value, integer_of, is_float_literal, is_number, lemma_read_fails, lemma_read_push, read_digits, unescape, unquote};
use crate::parser::{atom_of, form_at, list_at, parse_tokens, Step};
use crate::spacing::{all_words, is_word, lemma_lex_spaced, spaced, texts};
use crate::errors::{IntegerError, LishpError};
use crate::patterns::{first_match, is_digit, is_space, is_symbol_part, is_symbol_start, lemma_first_match_is_token_at, lemma_run_is, quoted_rest, run, Class, Pattern};
use crate::text::byte_len;
use crate::types::Tree;

verus! {

/// The character of the digit `d`.
pub open spec fn digit_char(d: int) -> char {
    if d == 0 {
        '0'
    } else if d == 1 {
        '1'
    } else if d == 2 {
        '2'
    } else if d == 3 {
        '3'
    } else if d == 4 {
        '4'
    } else if d == 5 {
        '5'
    } else if d == 6 {
        '6'
    } else if d == 7 {
        '7'
    } else if d == 8 {
        '8'
    } else {
        '9'
    }
}

/// The decimal digits of `n`, the first of them no zero unless `n` is 0.
pub open spec fn digits_of(n: nat) -> Seq<char>
    decreases n,
{
    if n < 10 {
        seq![digit_char(n as int)]
    } else {
        digits_of(n / 10).push(digit_char((n % 10) as int))
    }
}

/// The decimal literal of `n`: its digits, with a minus sign before them
/// where `n` is less than 0.
pub open spec fn integer_text(n: int) -> Seq<char> {
    if n < 0 {
        seq!['-'] + digits_of((-n) as nat)
    } else {
        digits_of(n as nat)
    }
}

/// `s` with each line feed written as a backslash and `n`, and each tab as
/// a backslash and `t`.
pub open spec fn escape(s: Seq<char>) -> Seq<char>
    decreases s.len(),
{
    if s.len() == 0 {
        s
    } else if s[0] == '\n' {
        seq!['\\', 'n'] + escape(s.drop_first())
    } else if s[0] == '\t' {
        seq!['\\', 't'] + escape(s.drop_first())
    } else {
        seq![s[0]] + escape(s.drop_first())
    }
}

/// The text that stands for the literal `tree`.
pub open spec fn literal_text(tree: Tree) -> Seq<char> {
    match tree {
        Tree::Integer(n) => integer_text(n),
        Tree::Float(literal) => literal,
        Tree::Boolean(b) => if b {
            seq!['t', 'r', 'u', 'e']
        } else {
            seq!['f', 'a', 'l', 's', 'e']
        },
        Tree::Str(text) => seq!['"'] + escape(text) + seq!['"'],
        Tree::Symbol(name) => name,
        Tree::Nil => seq!['n', 'i', 'l'],
        Tree::List(_) => Seq::empty(),
    }
}

/// Whether `s` is the literal of a floating point number as the lexer knows
/// it: digits, a point, digits.
pub open spec fn is_plain_float(s: Seq<char>) -> bool {
    let whole: int = run(s, 0, Class::Digit) as int;
    &&& whole >= 1
    &&& whole < s.len()
    &&& s[whole] == '.'
    &&& run(s, whole + 1, Class::Digit) >= 1
    &&& whole + 1 + run(s, whole + 1, Class::Digit) == s.len()
}

/// Whether `s` is a whole number in digits, with a minus sign before them
/// or without.
pub open spec fn is_whole(s: Seq<char>) -> bool {
    let from: int = if s.len() > 0 && s[0] == '-' {
        1
    } else {
        0
    };
    &&& s.len() > from
    &&& forall|i: int| from <= i < s.len() ==> is_digit(#[trigger] s[i])
}

/// Whether `s` is a comment: a semicolon and what follows it on its line.
pub open spec fn is_comment(s: Seq<char>) -> bool {
    &&& s.len() >= 1
    &&& s[0] == ';'
    &&& forall|i: int| 1 <= i < s.len() ==> #[trigger] s[i] != '\n'
}

/// Whether `s` is a name that the lexer reads as one symbol, and the parser
/// as no other kind of value.
pub open spec fn is_symbol_name(s: Seq<char>) -> bool {
    &&& s.len() >= 1
    &&& is_symbol_start(s[0])
    &&& forall|i: int| 1 <= i < s.len() ==> is_symbol_part(#[trigger] s[i])
    &&& !(s[0] == '-' && s.len() > 1 && is_digit(s[1]))
    &&& s != seq!['n', 'i', 'l']
    &&& s != seq!['t', 'r', 'u', 'e']
    &&& s != seq!['f', 'a', 'l', 's', 'e']
}

/// Whether `tree` is a literal that a text can stand for:
///
/// - a whole number of 64 bits;
/// - a floating point number whose literal is digits, a point and digits,
///   or a whole number in digits that does not fit 64 bits;
/// - a truth value, or nothing;
/// - a text without double quote and backslash;
/// - a symbol with a name that is one, or with a comment for its name.
pub open spec fn is_literal(tree: Tree) -> bool {
    match tree {
        Tree::Integer(n) => i64::MIN <= n <= i64::MAX,
        Tree::Float(literal) => is_plain_float(literal) || (is_whole(literal) && integer_of(
            literal,
        ) is Err),
        Tree::Boolean(_) => true,
        Tree::Nil => true,
        Tree::Str(text) => forall|i: int|
            0 <= i < text.len() ==> #[trigger] text[i] != '"' && text[i] != '\\',
        Tree::Symbol(name) => is_symbol_name(name) || is_comment(name),
        Tree::List(_) => false,
    }
}

/// The digits of a number are digits, at least one, and each stands for
/// what it was written for.
pub proof fn lemma_digits_of(n: nat)
    ensures
        digits_of(n).len() >= 1,
        forall|i: int| 0 <= i < digits_of(n).len() ==> is_digit(#[trigger] digits_of(n)[i]),
    decreases n,
{
    if n >= 10 {
        lemma_digits_of(n / 10);
    }
}

proof fn lemma_digit_char(d: int)
    requires
        0 <= d <= 9,
    ensures
        is_digit(digit_char(d)),
        digit_value(digit_char(d)) == d,
{
}

/// Reading the digits of a number gives the number.
proof fn lemma_read_digits_of(before: Seq<char>, m: nat, negative: bool)
    requires
        negative ==> m <= -i64::MIN,
        !negative ==> m <= i64::MAX,
    ensures
        read_digits(before + digits_of(m), before.len() as int, 0, negative) == Ok::<
            int,
            IntegerError,
        >(
            if negative {
                -(m as int)
            } else {
                m as int
            },
        ),
    decreases m,
{
    if m < 10 {
        assert(before + digits_of(m) == before.push(digit_char(m as int)));
        lemma_digit_char(m as int);
        lemma_read_push(before, before.len() as int, 0, negative, digit_char(m as int));
    } else {
        let d = digit_char((m % 10) as int);
        lemma_read_digits_of(before, m / 10, negative);
        assert(before + digits_of(m) == (before + digits_of(m / 10)).push(d));
        lemma_digit_char((m % 10) as int);
        lemma_read_push(before + digits_of(m / 10), before.len() as int, 0, negative, d);
    }
}

/// The quoted form of a text without quote and backslash ends with its
/// closing quote and not before.
proof fn lemma_quoted_rest_of_escape(before: Seq<char>, text: Seq<char>)
    requires
        forall|i: int| 0 <= i < text.len() ==> #[trigger] text[i] != '"' && text[i] != '\\',
    ensures
        quoted_rest(before + escape(text) + seq!['"'], before.len() as int) == Some(
            escape(text).len() + 1,
        ),
    decreases text.len(),
{
    let s = before + escape(text) + seq!['"'];
    let at = before.len() as int;
    if text.len() == 0 {
        assert(s[at] == '"');
    } else {
        let rest = text.drop_first();
        assert forall|i: int| 0 <= i < rest.len() implies #[trigger] rest[i] != '"' && rest[i]
            != '\\' by {
            assert(rest[i] == text[i + 1]);
        }
        let c = text[0];
        if c == '\n' || c == '\t' {
            let pair = if c == '\n' {
                seq!['\\', 'n']
            } else {
                seq!['\\', 't']
            };
            assert(escape(text) == pair + escape(rest));
            assert(s == (before + pair) + escape(rest) + seq!['"']);
            assert(s[at] == '\\');
            assert(s[at + 1] == pair[1]);
            lemma_quoted_rest_of_escape(before + pair, rest);
        } else {
            assert(escape(text) == seq![c] + escape(rest));
            assert(s == (before + seq![c]) + escape(rest) + seq!['"']);
            assert(s[at] == c);
            lemma_quoted_rest_of_escape(before + seq![c], rest);
        }
    }
}

/// Resolving the escapes of an escaped text without backslash gives the
/// text back.
proof fn lemma_unescape_escape(text: Seq<char>)
    requires
        forall|i: int| 0 <= i < text.len() ==> #[trigger] text[i] != '\\',
    ensures
        unescape(escape(text)) == text,
    decreases text.len(),
{
    if text.len() > 0 {
        let rest = text.drop_first();
        assert forall|i: int| 0 <= i < rest.len() implies #[trigger] rest[i] != '\\' by {
            assert(rest[i] == text[i + 1]);
        }
        lemma_unescape_escape(rest);
        let c = text[0];
        let e = escape(text);
        if c == '\n' || c == '\t' {
            assert(e.skip(2) == escape(rest));
            assert(unescape(e) == seq![c] + rest);
        } else {
            assert(e.skip(1) == escape(rest));
            assert(e[0] == c);
            assert(unescape(e) == seq![c] + rest);
        }
        assert(seq![c] + rest == text);
    }
}

/// A text that one pattern matches from its first character to its last,
/// and that is not blank, is one token.
proof fn lemma_single_token(s: Seq<char>)
    requires
        first_match(s, 0) matches Some((_, n)) && n == s.len(),
        !is_space(s[0]),
    ensures
        lex(s) == Ok::<Seq<Lexeme>, crate::lexer::InvalidTokenError>(
            seq![Lexeme { text: s, start: 0, end: byte_len(s) }],
        ),
{
    crate::patterns::lemma_first_match_bound(s, 0);
    let lexeme = lexeme_at(s, 0)->0;
    assert(s.subrange(0, s.len() as int) == s);
    assert(s.take(0) == Seq::<char>::empty());
    assert(s.take(s.len() as int) == s);
    assert(lexeme == Lexeme { text: s, start: 0, end: byte_len(s) });
    assert(lex_from(s, s.len() as int) == Ok::<Seq<Lexeme>, crate::lexer::InvalidTokenError>(
        Seq::empty(),
    ));
    assert(!is_blank(s)) by {
        if is_blank(s) {
            assert(is_space(s[0]));
        }
    }
    assert(seq![lexeme] + Seq::<Lexeme>::empty() == seq![lexeme]);
}

/// One token that is no opening parenthesis is parsed as the atom it is.
proof fn lemma_single_atom(lexeme: Lexeme)
    requires
        lexeme.text != seq!['('],
    ensures
        parse_tokens(seq![lexeme]) == atom_of(lexeme),
{
    let toks = seq![lexeme];
    assert(toks[0] == lexeme);
}

/// The text of a literal is one token, and no whitespace; and it is no
/// comment unless the literal is a symbol with a comment for its name.
proof fn lemma_literal_is_token(tree: Tree)
    requires
        is_literal(tree),
    ensures
        first_match(literal_text(tree), 0) matches Some((p, n)) && n == literal_text(tree).len()
            && p != Pattern::Space && p != Pattern::OpenParen && p != Pattern::CloseParen && (p
            == Pattern::Comment ==> tree is Symbol && is_comment(tree->Symbol_0)),
{
    let s = literal_text(tree);
    lemma_first_match_is_token_at(s, 0);
    match tree {
        Tree::Integer(n) => {
            if n < 0 {
                let m = (-n) as nat;
                lemma_digits_of(m);
                assert forall|i: int| 2 <= i < s.len() implies is_digit(#[trigger] s[i]) by {
                    assert(s[i] == digits_of(m)[i - 1]);
                }
                assert(s[1] == digits_of(m)[0]);
                lemma_run_is(s, 2, s.len() as int, Class::Digit);
            } else {
                lemma_digits_of(n as nat);
                lemma_run_is(s, 1, s.len() as int, Class::Digit);
            }
        },
        Tree::Float(literal) => {
            if is_plain_float(s) {
                let whole: int = run(s, 0, Class::Digit) as int;
                crate::patterns::lemma_run_bound(s, whole + 1, Class::Digit);
            } else if s[0] == '-' {
                assert(is_digit(s[1]));
                lemma_run_is(s, 2, s.len() as int, Class::Digit);
            } else {
                assert(is_digit(s[0]));
                lemma_run_is(s, 1, s.len() as int, Class::Digit);
            }
        },
        Tree::Boolean(b) => {
            lemma_run_is(s, 1, s.len() as int, Class::SymbolPart);
        },
        Tree::Str(text) => {
            lemma_quoted_rest_of_escape(seq!['"'], text);
        },
        Tree::Symbol(name) => {
            if is_symbol_name(name) {
                lemma_run_is(s, 1, s.len() as int, Class::SymbolPart);
            } else {
                lemma_run_is(s, 1, s.len() as int, Class::SameLine);
            }
        },
        Tree::Nil => {
            lemma_run_is(s, 1, s.len() as int, Class::SymbolPart);
        },
        Tree::List(_) => {},
    }
}

/// A token with the text of a literal is read as the literal, wherever it
/// stands.
proof fn lemma_literal_is_atom(tree: Tree, lexeme: Lexeme)
    requires
        is_literal(tree),
        lexeme.text == literal_text(tree),
    ensures
        atom_of(lexeme) == Ok::<Tree, LishpError>(tree),
        lexeme.text != seq!['('],
        lexeme.text != seq![')'],
{
    let s = literal_text(tree);
    match tree {
        Tree::Integer(n) => {
            if n < 0 {
                let m = (-n) as nat;
                lemma_digits_of(m);
                assert(s[1] == digits_of(m)[0]);
                lemma_read_digits_of(seq!['-'], m, true);
            } else {
                lemma_digits_of(n as nat);
                assert(Seq::<char>::empty() + digits_of(n as nat) == s);
                lemma_read_digits_of(Seq::empty(), n as nat, false);
            }
            assert(integer_of(s) == Ok::<int, IntegerError>(n));
        },
        Tree::Float(literal) => {
            if is_plain_float(s) {
                let whole: int = run(s, 0, Class::Digit) as int;
                crate::patterns::lemma_run_bound(s, whole + 1, Class::Digit);
                lemma_read_fails(s, 0, 0, false, whole);
                assert(is_number(s, 0));
            } else if s[0] == '-' {
                assert(is_digit(s[1]));
                lemma_run_is(s, 1, s.len() as int, Class::Digit);
                assert(is_number(s, 1));
            } else {
                assert(is_digit(s[0]));
                lemma_run_is(s, 0, s.len() as int, Class::Digit);
                assert(is_number(s, 0));
            }
            assert(is_float_literal(s));
        },
        Tree::Boolean(b) => {},
        Tree::Str(text) => {
            lemma_unescape_escape(text);
            assert(unquote(s) == escape(text));
        },
        Tree::Symbol(name) => {},
        Tree::Nil => {},
        Tree::List(_) => {},
    }
}

/// Round trip of literals: the text of a literal is one token, and the
/// parser reads that token as the literal.
pub proof fn lemma_literal_round_trip(tree: Tree)
    requires
        is_literal(tree),
    ensures
        lex(literal_text(tree)) matches Ok(toks) && toks.len() == 1 && toks[0].text
            == literal_text(tree) && parse_tokens(toks) == Ok::<Tree, LishpError>(tree),
{
    let s = literal_text(tree);
    lemma_literal_is_token(tree);
    lemma_first_match_is_token_at(s, 0);
    lemma_single_token(s);
    let lexeme = Lexeme { text: s, start: 0, end: byte_len(s) };
    lemma_literal_is_atom(tree, lexeme);
    lemma_single_atom(lexeme);
    assert(seq![lexeme][0] == lexeme);
}

/// The texts of the tokens that stand for `tree`: for a leaf its literal,
/// and for a list an opening parenthesis, the tokens of its items one
/// behind the other, and a closing parenthesis.
pub open spec fn words_of(tree: Tree) -> Seq<Seq<char>>
    decreases tree, 0nat,
{
    match tree {
        Tree::List(items) => seq![seq!['(']] + words_from(items, 0) + seq![seq![')']],
        _ => seq![literal_text(tree)],
    }
}

/// The texts of the tokens that stand for the items of `items` from the
/// `from`-th on.
pub open spec fn words_from(items: Seq<Tree>, from: int) -> Seq<Seq<char>>
    decreases items, items.len() - from,
{
    if 0 <= from < items.len() {
        words_of(items[from]) + words_from(items, from + 1)
    } else {
        Seq::empty()
    }
}

/// The text that stands for `tree`: its tokens with a blank behind each.
pub open spec fn tree_text(tree: Tree) -> Seq<char> {
    spaced(words_of(tree))
}

/// Whether `tree` is a tree that a text can stand for: a literal, but no
/// symbol with a comment for its name, or a list with items that are such
/// trees, at least one.
pub open spec fn is_printable(tree: Tree) -> bool
    decreases tree,
{
    match tree {
        Tree::List(items) => items.len() > 0 && forall|i: int|
            0 <= i < items.len() ==> is_printable(#[trigger] items[i]),
        Tree::Symbol(name) => is_symbol_name(name),
        _ => is_literal(tree),
    }
}

/// Every item of a printable list is printable.
proof fn lemma_printable_item(items: Seq<Tree>, i: int)
    requires
        is_printable(Tree::List(items)),
        0 <= i < items.len(),
    ensures
        is_printable(items[i]),
{
    let list = Tree::List(items);
    assert(list->List_0[i] == items[i]);
    assert(is_printable(list->List_0[i]));
}

/// The tokens of a printable tree are words, at least one, and the first
/// of them is no closing parenthesis.
proof fn lemma_words_of(tree: Tree)
    requires
        is_printable(tree),
    ensures
        all_words(words_of(tree)),
        words_of(tree).len() >= 1,
        words_of(tree)[0] != seq![')'],
    decreases tree, 0nat,
{
    let words = words_of(tree);
    match tree {
        Tree::List(items) => {
            assert forall|i: int| 0 <= i < items.len() implies is_printable(#[trigger] items[i]) by {
                lemma_printable_item(items, i);
            }
            lemma_words_from(items, 0);
            let inner = words_from(items, 0);
            lemma_first_match_is_token_at(seq!['('], 0);
            lemma_first_match_is_token_at(seq![')'], 0);
            assert(is_word(seq!['(']));
            assert(is_word(seq![')']));
            assert forall|i: int| 0 <= i < words.len() implies is_word(#[trigger] words[i]) by {
                if 1 <= i <= inner.len() {
                    assert(words[i] == inner[i - 1]);
                }
            }
            assert(words[0] == seq!['(']);
            assert(seq!['('][0] != seq![')'][0]);
        },
        _ => {
            lemma_literal_is_token(tree);
            let lexeme = Lexeme { text: literal_text(tree), start: 0, end: 0 };
            lemma_literal_is_atom(tree, lexeme);
            assert(words[0] == literal_text(tree));
        },
    }
}

proof fn lemma_words_from(items: Seq<Tree>, from: int)
    requires
        0 <= from <= items.len(),
        forall|i: int| 0 <= i < items.len() ==> is_printable(#[trigger] items[i]),
    ensures
        all_words(words_from(items, from)),
    decreases items, items.len() - from,
{
    if from < items.len() {
        lemma_words_of(items[from]);
        lemma_words_from(items, from + 1);
        let first = words_of(items[from]);
        let rest = words_from(items, from + 1);
        let words = words_from(items, from);
        assert forall|i: int| 0 <= i < words.len() implies is_word(#[trigger] words[i]) by {
            if i < first.len() {
                assert(words[i] == first[i]);
            } else {
                assert(words[i] == rest[i - first.len()]);
            }
        }
    }
}

/// The rule for a form reads the tokens of a printable tree as that tree,
/// wherever they stand among the tokens.
proof fn lemma_form_reads_words(toks: Seq<Lexeme>, at: int, open: Seq<usize>, tree: Tree)
    requires
        is_printable(tree),
        0 <= at,
        at + words_of(tree).len() <= toks.len(),
        texts(toks).subrange(at, at + words_of(tree).len() as int) == words_of(tree),
    ensures
        form_at(toks, at as nat, open) == (Step::Done {
            tree: tree,
            next: (at + words_of(tree).len()) as nat,
            open: open,
        }),
    decreases tree, 0nat,
{
    let words = words_of(tree);
    let n = words.len() as int;
    let piece = texts(toks).subrange(at, at + n);
    lemma_words_of(tree);
    assert(piece[0] == toks[at].text);
    match tree {
        Tree::List(items) => {
            assert forall|i: int| 0 <= i < items.len() implies is_printable(#[trigger] items[i]) by {
                lemma_printable_item(items, i);
            }
            let inner = words_from(items, 0);
            let m = inner.len() as int;
            assert(words[0] == seq!['(']);
            let inside = open.push(toks[at].start as usize);
            let closed = inner + seq![seq![')']];
            assert(texts(toks).subrange(at + 1, at + 1 + m + 1) =~= closed) by {
                assert forall|j: int| 0 <= j < m + 1 implies texts(toks).subrange(
                    at + 1,
                    at + 1 + m + 1,
                )[j] == closed[j] by {
                    assert(piece[j + 1] == words[j + 1]);
                }
            }
            assert(items.take(0) =~= Seq::<Tree>::empty());
            lemma_list_reads_words(toks, at + 1, inside, items, 0);
            assert(inside.drop_last() == open);
        },
        _ => {
            assert(words[0] == literal_text(tree));
            lemma_literal_is_atom(tree, toks[at]);
        },
    }
}

proof fn lemma_list_reads_words(
    toks: Seq<Lexeme>,
    at: int,
    open: Seq<usize>,
    items: Seq<Tree>,
    from: int,
)
    requires
        0 <= from <= items.len(),
        items.len() > 0,
        open.len() > 0,
        forall|i: int| 0 <= i < items.len() ==> is_printable(#[trigger] items[i]),
        0 <= at,
        at + words_from(items, from).len() + 1 <= toks.len(),
        texts(toks).subrange(at, at + words_from(items, from).len() as int + 1) == words_from(
            items,
            from,
        ) + seq![seq![')']],
    ensures
        list_at(toks, at as nat, open, items.take(from)) == (Step::Done {
            tree: Tree::List(items),
            next: (at + words_from(items, from).len() + 1) as nat,
            open: open.drop_last(),
        }),
    decreases items, items.len() - from,
{
    let words = words_from(items, from);
    let n = words.len() as int;
    let closed = words + seq![seq![')']];
    let piece = texts(toks).subrange(at, at + n + 1);
    assert(piece[0] == toks[at].text);
    assert(piece[0] == closed[0]);
    if from == items.len() {
        assert(items.take(from) == items);
    } else {
        let item = items[from];
        let first = words_of(item);
        let k = first.len() as int;
        let rest = words_from(items, from + 1);
        let r = rest.len() as int;
        lemma_words_of(item);
        assert(closed[0] == first[0]);
        assert(texts(toks).subrange(at, at + k) =~= first) by {
            assert forall|j: int| 0 <= j < k implies texts(toks).subrange(at, at + k)[j]
                == first[j] by {
                assert(piece[j] == closed[j]);
            }
        }
        lemma_form_reads_words(toks, at, open, item);
        let next = at + k;
        let rest_closed = rest + seq![seq![')']];
        assert(texts(toks).subrange(next, next + r + 1) =~= rest_closed) by {
            assert forall|j: int| 0 <= j < r + 1 implies texts(toks).subrange(
                next,
                next + r + 1,
            )[j] == rest_closed[j] by {
                assert(piece[k + j] == closed[k + j]);
            }
        }
        assert(items.take(from).push(item) == items.take(from + 1));
        lemma_list_reads_words(toks, next, open, items, from + 1);
    }
}

/// Round trip of trees: the text of a printable tree has the tokens of the
/// tree, and the parser reads them as the tree.
pub proof fn lemma_tree_round_trip(tree: Tree)
    requires
        is_printable(tree),
    ensures
        lex(tree_text(tree)) matches Ok(toks) && texts(toks) == words_of(tree) && parse_tokens(
            toks,
        ) == Ok::<Tree, LishpError>(tree),
{
    lemma_words_of(tree);
    lemma_lex_spaced(words_of(tree));
    let toks = lex(tree_text(tree))->Ok_0;
    assert(texts(toks).len() == toks.len());
    assert(texts(toks).subrange(0, toks.len() as int) == texts(toks));
    lemma_form_reads_words(toks, 0, Seq::empty(), tree);
}

} // verus!
