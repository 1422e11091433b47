//! The lexical patterns of the language.
//!
//! There are eight of them, tried in a fixed order at the place where the
//! lexer stands; the first that matches there decides the next token. Each
//! pattern is a mathematical function from a text and a place in it to the
//! length of the match, and a scanner that computes that length.

use vstd::prelude::*;

verus! {

/// A decimal digit, `0` to `9`.
pub open spec fn is_digit(c: char) -> bool {
    '0' <= c && c <= '9'
}

/// A letter of the English alphabet, in either case.
pub open spec fn is_letter(c: char) -> bool {
    ('a' <= c && c <= 'z') || ('A' <= c && c <= 'Z')
}

/// A character that a symbol may start with: a letter or one of
/// `- _ + = * ^ & $ ! @ / ? |`.
pub open spec fn is_symbol_start(c: char) -> bool {
    is_letter(c) || c == '-' || c == '_' || c == '+' || c == '=' || c == '*' || c == '^' || c == '&'
        || c == '$' || c == '!' || c == '@' || c == '/' || c == '?' || c == '|'
}

/// A character that a symbol may go on with: one it may start with, or a
/// digit.
pub open spec fn is_symbol_part(c: char) -> bool {
    is_symbol_start(c) || is_digit(c)
}

/// A whitespace character: one that Unicode gives the property `White_Space`.
pub open spec fn is_space(c: char) -> bool {
    ('\u{9}' <= c && c <= '\u{d}') || c == ' ' || c == '\u{85}' || c == '\u{a0}' || c == '\u{1680}'
        || ('\u{2000}' <= c && c <= '\u{200a}') || c == '\u{2028}' || c == '\u{2029}' || c
        == '\u{202f}' || c == '\u{205f}' || c == '\u{3000}'
}

/// The sets of characters that runs inside a token are made of.
#[derive(Clone, Copy, Debug, PartialEq, Eq)]
pub enum Class {
    /// Decimal digits.
    Digit,
    /// What a symbol goes on with.
    SymbolPart,
    /// Whitespace.
    Space,
    /// Everything but the line feed.
    SameLine,
}

impl Class {
    /// Whether `c` belongs to the class.
    pub open spec fn holds(self, c: char) -> bool {
        match self {
            Class::Digit => is_digit(c),
            Class::SymbolPart => is_symbol_part(c),
            Class::Space => is_space(c),
            Class::SameLine => c != '\n',
        }
    }

    /// Whether `c` belongs to the class.
    pub fn contains(self, c: char) -> (yes: bool)
        ensures
            yes == self.holds(c),
    {
        match self {
            Class::Digit => digit(c),
            Class::SymbolPart => symbol_start(c) || digit(c),
            Class::Space => space(c),
            Class::SameLine => c != '\n',
        }
    }
}

/// Whether `c` is a decimal digit.
pub fn digit(c: char) -> (yes: bool)
    ensures
        yes == is_digit(c),
{
    '0' <= c && c <= '9'
}

/// Whether a symbol may start with `c`.
pub fn symbol_start(c: char) -> (yes: bool)
    ensures
        yes == is_symbol_start(c),
{
    ('a' <= c && c <= 'z') || ('A' <= c && c <= 'Z') || c == '-' || c == '_' || c == '+' || c == '='
        || c == '*' || c == '^' || c == '&' || c == '$' || c == '!' || c == '@' || c == '/' || c
        == '?' || c == '|'
}

/// Whether `c` is a whitespace character.
pub fn space(c: char) -> (yes: bool)
    ensures
        yes == is_space(c),
{
    ('\u{9}' <= c && c <= '\u{d}') || c == ' ' || c == '\u{85}' || c == '\u{a0}' || c == '\u{1680}'
        || ('\u{2000}' <= c && c <= '\u{200a}') || c == '\u{2028}' || c == '\u{2029}' || c
        == '\u{202f}' || c == '\u{205f}' || c == '\u{3000}'
}

/// The length of the longest run of characters of `class` in `s` that starts
/// at `at`. It is 0 where `at` is no place in `s`.
pub open spec fn run(s: Seq<char>, at: int, class: Class) -> nat
    decreases s.len() - at,
{
    if 0 <= at < s.len() && class.holds(s[at]) {
        1 + run(s, at + 1, class)
    } else {
        0
    }
}

/// A run stays inside the text.
pub proof fn lemma_run_bound(s: Seq<char>, at: int, class: Class)
    requires
        0 <= at <= s.len(),
    ensures
        at + run(s, at, class) <= s.len(),
    decreases s.len() - at,
{
    if at < s.len() && class.holds(s[at]) {
        lemma_run_bound(s, at + 1, class);
    }
}

/// A run is made of characters of its class, and the character behind it,
/// if there is one, is of another kind.
pub proof fn lemma_run_content(s: Seq<char>, at: int, class: Class)
    requires
        0 <= at <= s.len(),
    ensures
        forall|i: int| at <= i < at + run(s, at, class) ==> class.holds(#[trigger] s[i]),
        at + run(s, at, class) < s.len() ==> !class.holds(s[at + run(s, at, class)]),
    decreases s.len() - at,
{
    if at < s.len() && class.holds(s[at]) {
        lemma_run_content(s, at + 1, class);
    }
}

/// The place where the run of `class` that starts at `at` ends.
pub fn scan_run(chars: &Vec<char>, at: usize, class: Class) -> (end: usize)
    requires
        at <= chars.len(),
    ensures
        end == at + run(chars@, at as int, class),
        end <= chars.len(),
{
    let mut end: usize = at;
    while end < chars.len() && class.contains(chars[end])
        invariant
            at <= end <= chars.len(),
            run(chars@, at as int, class) == (end - at) + run(chars@, end as int, class),
        decreases chars.len() - end,
    {
        end += 1;
    }
    end
}

/// The length of the rest of a quoted text, from `at` to its closing quote
/// and with it, where `at` stands behind the opening quote.
///
/// The rest is made of single characters other than the quote and the
/// backslash, and of pairs of a backslash and any character but the line
/// feed. There is no match where the text ends before the closing quote, or
/// where a backslash is followed by a line feed or by nothing.
pub open spec fn quoted_rest(s: Seq<char>, at: int) -> Option<nat>
    decreases s.len() - at,
{
    if !(0 <= at < s.len()) {
        None
    } else if s[at] == '"' {
        Some(1)
    } else if s[at] == '\\' {
        if at + 1 < s.len() && s[at + 1] != '\n' {
            match quoted_rest(s, at + 2) {
                Some(n) => Some(n + 2),
                None => None,
            }
        } else {
            None
        }
    } else {
        match quoted_rest(s, at + 1) {
            Some(n) => Some(n + 1),
            None => None,
        }
    }
}

/// The rest of a quoted text stays inside the text.
pub proof fn lemma_quoted_rest_bound(s: Seq<char>, at: int)
    requires
        0 <= at <= s.len(),
    ensures
        quoted_rest(s, at) matches Some(n) ==> 1 <= n && at + n <= s.len(),
    decreases s.len() - at,
{
    if at < s.len() && s[at] != '"' {
        if s[at] == '\\' {
            if at + 1 < s.len() && s[at + 1] != '\n' {
                lemma_quoted_rest_bound(s, at + 2);
            }
        } else {
            lemma_quoted_rest_bound(s, at + 1);
        }
    }
}

/// The place behind the closing quote of the quoted text whose opening quote
/// stands just before `at`.
pub fn scan_quoted_rest(chars: &Vec<char>, at: usize) -> (end: Option<usize>)
    requires
        at <= chars.len(),
    ensures
        match quoted_rest(chars@, at as int) {
            Some(n) => end == Some((at + n) as usize) && at + n <= chars.len(),
            None => end is None,
        },
{
    let mut i: usize = at;
    proof {
        lemma_quoted_rest_bound(chars@, at as int);
    }
    loop
        invariant
            at <= i <= chars.len(),
            match quoted_rest(chars@, i as int) {
                Some(n) => quoted_rest(chars@, at as int) == Some((n + (i - at)) as nat),
                None => quoted_rest(chars@, at as int) is None,
            },
            quoted_rest(chars@, at as int) matches Some(n) ==> at + n <= chars.len(),
        decreases chars.len() - i,
    {
        if i >= chars.len() {
            return None;
        }
        let c = chars[i];
        if c == '"' {
            return Some(i + 1);
        } else if c == '\\' {
            if i + 1 < chars.len() && chars[i + 1] != '\n' {
                i += 2;
            } else {
                return None;
            }
        } else {
            i += 1;
        }
    }
}

/// The lexical patterns.
#[derive(Clone, Copy, Debug, PartialEq, Eq)]
pub enum Pattern {
    /// Digits, and after them, if they are there, a point and more digits.
    Float,
    /// Digits, with a minus sign before them or without.
    Integer,
    /// The character `(`.
    OpenParen,
    /// The character `)`.
    CloseParen,
    /// A character that a symbol may start with, and after it any number of
    /// characters that a symbol may go on with.
    Symbol,
    /// A text in double quotes.
    Quoted,
    /// A semicolon and the rest of its line.
    Comment,
    /// One whitespace character or more.
    Space,
}

impl Pattern {
    /// The length of what the pattern matches in `s` at `at`, or `None`
    /// where it does not match there. A pattern matches as much as it can,
    /// and never the empty text.
    pub open spec fn match_len(self, s: Seq<char>, at: int) -> Option<nat> {
        if !(0 <= at < s.len()) {
            None
        } else {
            match self {
                Pattern::Float => if is_digit(s[at]) {
                    let whole = 1 + run(s, at + 1, Class::Digit);
                    if at + whole + 1 < s.len() && s[at + whole] == '.' && is_digit(
                        s[at + whole + 1],
                    ) {
                        Some(whole + 2 + run(s, at + whole + 2, Class::Digit))
                    } else {
                        Some(whole)
                    }
                } else {
                    None
                },
                Pattern::Integer => if is_digit(s[at]) {
                    Some(1 + run(s, at + 1, Class::Digit))
                } else if s[at] == '-' && at + 1 < s.len() && is_digit(s[at + 1]) {
                    Some(2 + run(s, at + 2, Class::Digit))
                } else {
                    None
                },
                Pattern::OpenParen => if s[at] == '(' {
                    Some(1)
                } else {
                    None
                },
                Pattern::CloseParen => if s[at] == ')' {
                    Some(1)
                } else {
                    None
                },
                Pattern::Symbol => if is_symbol_start(s[at]) {
                    Some(1 + run(s, at + 1, Class::SymbolPart))
                } else {
                    None
                },
                Pattern::Quoted => if s[at] == '"' {
                    match quoted_rest(s, at + 1) {
                        Some(n) => Some(n + 1),
                        None => None,
                    }
                } else {
                    None
                },
                Pattern::Comment => if s[at] == ';' {
                    Some(1 + run(s, at + 1, Class::SameLine))
                } else {
                    None
                },
                Pattern::Space => if is_space(s[at]) {
                    Some(1 + run(s, at + 1, Class::Space))
                } else {
                    None
                },
            }
        }
    }

    /// A match is not empty and stays inside the text.
    pub proof fn lemma_match_bound(self, s: Seq<char>, at: int)
        ensures
            self.match_len(s, at) matches Some(n) ==> 0 <= at && 1 <= n && at + n <= s.len(),
    {
        if 0 <= at < s.len() {
            lemma_run_bound(s, at + 1, Class::Digit);
            lemma_run_bound(s, at + 1, Class::SymbolPart);
            lemma_run_bound(s, at + 1, Class::SameLine);
            lemma_run_bound(s, at + 1, Class::Space);
            lemma_quoted_rest_bound(s, at + 1);
            if at + 1 < s.len() {
                lemma_run_bound(s, at + 2, Class::Digit);
            }
            let whole = 1 + run(s, at + 1, Class::Digit);
            if at + whole + 1 < s.len() {
                lemma_run_bound(s, at + whole + 2, Class::Digit);
            }
        }
    }

    /// Looks for the pattern in `chars` at `at`, and gives the place where
    /// the match ends.
    pub fn find(self, chars: &Vec<char>, at: usize) -> (end: Option<usize>)
        ensures
            match self.match_len(chars@, at as int) {
                Some(n) => end == Some((at + n) as usize) && at + n <= chars.len(),
                None => end is None,
            },
    {
        proof {
            self.lemma_match_bound(chars@, at as int);
        }
        if at >= chars.len() {
            return None;
        }
        let first = chars[at];
        match self {
            Pattern::Float => {
                if !digit(first) {
                    return None;
                }
                let whole = scan_run(chars, at + 1, Class::Digit);
                if whole < chars.len() - 1 && chars[whole] == '.' && digit(chars[whole + 1]) {
                    Some(scan_run(chars, whole + 2, Class::Digit))
                } else {
                    Some(whole)
                }
            },
            Pattern::Integer => {
                if digit(first) {
                    Some(scan_run(chars, at + 1, Class::Digit))
                } else if first == '-' && at + 1 < chars.len() && digit(chars[at + 1]) {
                    Some(scan_run(chars, at + 2, Class::Digit))
                } else {
                    None
                }
            },
            Pattern::OpenParen => if first == '(' {
                Some(at + 1)
            } else {
                None
            },
            Pattern::CloseParen => if first == ')' {
                Some(at + 1)
            } else {
                None
            },
            Pattern::Symbol => if symbol_start(first) {
                Some(scan_run(chars, at + 1, Class::SymbolPart))
            } else {
                None
            },
            Pattern::Quoted => if first == '"' {
                scan_quoted_rest(chars, at + 1)
            } else {
                None
            },
            Pattern::Comment => if first == ';' {
                Some(scan_run(chars, at + 1, Class::SameLine))
            } else {
                None
            },
            Pattern::Space => if space(first) {
                Some(scan_run(chars, at + 1, Class::Space))
            } else {
                None
            },
        }
    }
}

/// The patterns in the order in which the lexer tries them.
pub open spec fn priority() -> Seq<Pattern> {
    seq![
        Pattern::Float,
        Pattern::Integer,
        Pattern::OpenParen,
        Pattern::CloseParen,
        Pattern::Symbol,
        Pattern::Quoted,
        Pattern::Comment,
        Pattern::Space,
    ]
}

/// The first pattern, from the `from`-th of `priority()` on, that matches in
/// `s` at `at`, with the length of its match.
pub open spec fn first_match_from(s: Seq<char>, at: int, from: int) -> Option<(Pattern, nat)>
    decreases priority().len() - from,
{
    if !(0 <= from < priority().len()) {
        None
    } else {
        match priority()[from].match_len(s, at) {
            Some(n) => Some((priority()[from], n)),
            None => first_match_from(s, at, from + 1),
        }
    }
}

/// The pattern that decides the token at `at`, with the length of the token:
/// the first of `priority()` that matches there.
pub open spec fn first_match(s: Seq<char>, at: int) -> Option<(Pattern, nat)> {
    first_match_from(s, at, 0)
}

/// The first match is a match of its pattern: not empty, and inside the text.
pub proof fn lemma_first_match_bound(s: Seq<char>, at: int)
    ensures
        first_match(s, at) matches Some((p, n)) ==> p.match_len(s, at) == Some(n) && 0 <= at && 1
            <= n && at + n <= s.len(),
{
    lemma_first_match_from_bound(s, at, 0);
}

proof fn lemma_first_match_from_bound(s: Seq<char>, at: int, from: int)
    ensures
        first_match_from(s, at, from) matches Some((p, n)) ==> p.match_len(s, at) == Some(n) && 0
            <= at && 1 <= n && at + n <= s.len(),
    decreases priority().len() - from,
{
    if 0 <= from < priority().len() {
        priority()[from].lemma_match_bound(s, at);
        lemma_first_match_from_bound(s, at, from + 1);
    }
}

/// The list of the patterns that the lexer walks: all of them, in their
/// order.
pub fn make_patterns() -> (patterns: Vec<Pattern>)
    ensures
        patterns@ == priority(),
{
    let mut patterns: Vec<Pattern> = Vec::new();
    patterns.push(Pattern::Float);
    patterns.push(Pattern::Integer);
    patterns.push(Pattern::OpenParen);
    patterns.push(Pattern::CloseParen);
    patterns.push(Pattern::Symbol);
    patterns.push(Pattern::Quoted);
    patterns.push(Pattern::Comment);
    patterns.push(Pattern::Space);
    patterns
}

/// A stretch of characters of one class, with the end of the text or a
/// character of another kind behind it, is the run that starts where the
/// stretch starts.
pub proof fn lemma_run_is(s: Seq<char>, at: int, end: int, class: Class)
    requires
        0 <= at <= end <= s.len(),
        forall|i: int| at <= i < end ==> class.holds(#[trigger] s[i]),
        end < s.len() ==> !class.holds(s[end]),
    ensures
        run(s, at, class) == end - at,
    decreases end - at,
{
    if at < end {
        lemma_run_is(s, at + 1, end, class);
    }
}

/// A run that starts with a stretch of characters of its class goes on
/// behind the stretch.
pub proof fn lemma_run_split(s: Seq<char>, at: int, mid: int, class: Class)
    requires
        0 <= at <= mid <= s.len(),
        forall|i: int| at <= i < mid ==> class.holds(#[trigger] s[i]),
    ensures
        run(s, at, class) == (mid - at) + run(s, mid, class),
    decreases mid - at,
{
    if at < mid {
        lemma_run_split(s, at + 1, mid, class);
    }
}

/// The token that starts at `at`, told by its first character: what
/// `first_match` comes to, case by case.
pub open spec fn token_at(s: Seq<char>, at: int) -> Option<(Pattern, nat)> {
    if !(0 <= at < s.len()) {
        None
    } else if is_digit(s[at]) {
        Some((Pattern::Float, Pattern::Float.match_len(s, at)->0))
    } else if s[at] == '-' && at + 1 < s.len() && is_digit(s[at + 1]) {
        Some((Pattern::Integer, 2 + run(s, at + 2, Class::Digit)))
    } else if s[at] == '(' {
        Some((Pattern::OpenParen, 1))
    } else if s[at] == ')' {
        Some((Pattern::CloseParen, 1))
    } else if is_symbol_start(s[at]) {
        Some((Pattern::Symbol, 1 + run(s, at + 1, Class::SymbolPart)))
    } else if s[at] == '"' {
        match quoted_rest(s, at + 1) {
            Some(n) => Some((Pattern::Quoted, n + 1)),
            None => None,
        }
    } else if s[at] == ';' {
        Some((Pattern::Comment, 1 + run(s, at + 1, Class::SameLine)))
    } else if is_space(s[at]) {
        Some((Pattern::Space, 1 + run(s, at + 1, Class::Space)))
    } else {
        None
    }
}

/// The first character of a token tells its pattern.
pub proof fn lemma_first_match_is_token_at(s: Seq<char>, at: int)
    ensures
        first_match(s, at) == token_at(s, at),
{
    reveal_with_fuel(first_match_from, 9);
    let order = priority();
    assert(order[0] == Pattern::Float);
    assert(order[1] == Pattern::Integer);
    assert(order[2] == Pattern::OpenParen);
    assert(order[3] == Pattern::CloseParen);
    assert(order[4] == Pattern::Symbol);
    assert(order[5] == Pattern::Quoted);
    assert(order[6] == Pattern::Comment);
    assert(order[7] == Pattern::Space);
}

} // verus!
