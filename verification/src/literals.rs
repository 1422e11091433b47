//! What the text of an atom stands for: whole numbers, floating point
//! literals, and the escapes inside quoted texts.

use vstd::prelude::*;
use crate::errors::{FloatLiteralError, IntegerError};
use crate::patterns::{digit, is_digit, run, scan_run, Class};

verus! {

/// The number that the digit `c` stands for.
pub open spec fn digit_value(c: char) -> int {
    c as u32 - '0' as u32
}

/// Reads the digits of `s` from the `at`-th character on, from left to
/// right, into the number `acc` that the digits before them gave: each digit
/// is added to ten times the number, or taken from it where the number is
/// `negative`. Fails at the first character that is no digit, and at the
/// first digit with which the number leaves the range of 64 bits.
pub open spec fn read_digits(s: Seq<char>, at: int, acc: int, negative: bool) -> Result<
    int,
    IntegerError,
>
    decreases s.len() - at,
{
    if !(0 <= at < s.len()) {
        Ok(acc)
    } else if !is_digit(s[at]) {
        Err(IntegerError::InvalidDigit)
    } else {
        let next = if negative {
            acc * 10 - digit_value(s[at])
        } else {
            acc * 10 + digit_value(s[at])
        };
        if next > i64::MAX {
            Err(IntegerError::PosOverflow)
        } else if next < i64::MIN {
            Err(IntegerError::NegOverflow)
        } else {
            read_digits(s, at + 1, next, negative)
        }
    }
}

/// The whole number that `s` is the decimal literal of: digits, with one
/// sign, `+` or `-`, before them or without.
pub open spec fn integer_of(s: Seq<char>) -> Result<int, IntegerError> {
    if s.len() == 0 {
        Err(IntegerError::Empty)
    } else if s[0] == '-' || s[0] == '+' {
        if s.len() == 1 {
            Err(IntegerError::InvalidDigit)
        } else {
            read_digits(s, 1, 0, s[0] == '-')
        }
    } else {
        read_digits(s, 0, 0, false)
    }
}

/// Reads `chars` as a whole number of 64 bits.
pub fn parse_integer(chars: &Vec<char>) -> (number: Result<i64, IntegerError>)
    ensures
        match number {
            Ok(n) => integer_of(chars@) == Ok::<int, IntegerError>(n as int),
            Err(e) => integer_of(chars@) == Err::<int, IntegerError>(e),
        },
{
    if chars.len() == 0 {
        return Err(IntegerError::Empty);
    }
    let signed = chars[0] == '-' || chars[0] == '+';
    let negative = chars[0] == '-';
    if signed && chars.len() == 1 {
        return Err(IntegerError::InvalidDigit);
    }
    let start: usize = if signed {
        1
    } else {
        0
    };
    let mut at: usize = start;
    let mut acc: i64 = 0;
    while at < chars.len()
        invariant
            start <= at <= chars.len(),
            integer_of(chars@) == read_digits(chars@, at as int, acc as int, negative),
        decreases chars.len() - at,
    {
        let c = chars[at];
        if !digit(c) {
            return Err(IntegerError::InvalidDigit);
        }
        let d: i128 = (c as u32 - '0' as u32) as i128;
        let next: i128 = if negative {
            acc as i128 * 10 - d
        } else {
            acc as i128 * 10 + d
        };
        if next > i64::MAX as i128 {
            return Err(IntegerError::PosOverflow);
        }
        if next < i64::MIN as i128 {
            return Err(IntegerError::NegOverflow);
        }
        acc = next as i64;
        at += 1;
    }
    Ok(acc)
}

/// What one more character at the end of a text does to the number read
/// from the text: where the text is a number, a digit is added to, or taken
/// from, ten times the number; and where it is none, it stays none.
pub open spec fn read_one_more(read: Result<int, IntegerError>, d: char, negative: bool) -> Result<
    int,
    IntegerError,
> {
    match read {
        Err(e) => Err(e),
        Ok(v) => if !is_digit(d) {
            Err(IntegerError::InvalidDigit)
        } else {
            let next = if negative {
                v * 10 - digit_value(d)
            } else {
                v * 10 + digit_value(d)
            };
            if next > i64::MAX {
                Err(IntegerError::PosOverflow)
            } else if next < i64::MIN {
                Err(IntegerError::NegOverflow)
            } else {
                Ok(next)
            }
        },
    }
}

/// Reading a text with one more character at its end is reading the text
/// and then the character.
pub proof fn lemma_read_push(s: Seq<char>, at: int, acc: int, negative: bool, d: char)
    requires
        0 <= at <= s.len(),
    ensures
        read_digits(s.push(d), at, acc, negative) == read_one_more(
            read_digits(s, at, acc, negative),
            d,
            negative,
        ),
    decreases s.len() - at,
{
    let longer = s.push(d);
    if at < s.len() {
        assert(longer[at] == s[at]);
        let next = if negative {
            acc * 10 - digit_value(s[at])
        } else {
            acc * 10 + digit_value(s[at])
        };
        lemma_read_push(s, at + 1, next, negative, d);
    } else {
        assert(longer[at] == d);
        let next = if negative {
            acc * 10 - digit_value(d)
        } else {
            acc * 10 + digit_value(d)
        };
        if is_digit(d) && i64::MIN <= next <= i64::MAX {
            assert(read_digits(longer, at + 1, next, negative) == Ok::<int, IntegerError>(next));
        }
    }
}

/// A text with a character in it that is no digit is read as no number.
pub proof fn lemma_read_fails(s: Seq<char>, at: int, acc: int, negative: bool, bad: int)
    requires
        0 <= at <= bad < s.len(),
        !is_digit(s[bad]),
    ensures
        read_digits(s, at, acc, negative) is Err,
    decreases bad - at,
{
    if at < bad && is_digit(s[at]) {
        let next = if negative {
            acc * 10 - digit_value(s[at])
        } else {
            acc * 10 + digit_value(s[at])
        };
        if i64::MIN <= next <= i64::MAX {
            lemma_read_fails(s, at + 1, next, negative, bad);
        }
    }
}

/// The number that the digits `s` stand for in decimal; 0 for no digits.
pub open spec fn decimal(s: Seq<char>) -> nat
    decreases s.len(),
{
    if s.len() == 0 {
        0
    } else {
        (decimal(s.drop_last()) * 10 + digit_value(s.last())) as nat
    }
}

/// Whether `s` is made of digits alone.
pub open spec fn all_digits(s: Seq<char>) -> bool {
    forall|i: int| 0 <= i < s.len() ==> is_digit(#[trigger] s[i])
}

/// Reading digits gives the number that they stand for, with its sign,
/// where that number fits 64 bits, and else no number; and reading anything
/// else gives no number.
proof fn lemma_read_is_decimal(s: Seq<char>, from: int, negative: bool)
    requires
        0 <= from <= s.len(),
    ensures
        read_digits(s, from, 0, negative) matches Ok(n) <==> all_digits(s.skip(from)) && (
        if negative {
            -decimal(s.skip(from)) >= i64::MIN
        } else {
            decimal(s.skip(from)) <= i64::MAX
        }),
        read_digits(s, from, 0, negative) matches Ok(n) ==> n == if negative {
            -decimal(s.skip(from))
        } else {
            decimal(s.skip(from)) as int
        },
        all_digits(s.skip(from)) && negative && -decimal(s.skip(from)) < i64::MIN
            ==> read_digits(s, from, 0, negative) == Err::<int, IntegerError>(
            IntegerError::NegOverflow,
        ),
        all_digits(s.skip(from)) && !negative && decimal(s.skip(from)) > i64::MAX
            ==> read_digits(s, from, 0, negative) == Err::<int, IntegerError>(
            IntegerError::PosOverflow,
        ),
    decreases s.len(),
{
    if from == s.len() {
        assert(s.skip(from).len() == 0);
    } else {
        let shorter = s.drop_last();
        let d = s.last();
        assert(s == shorter.push(d));
        lemma_read_push(shorter, from, 0, negative, d);
        lemma_read_is_decimal(shorter, from, negative);
        let tail = s.skip(from);
        assert(tail.drop_last() == shorter.skip(from));
        assert(tail.last() == d);
        if all_digits(tail) {
            assert forall|i: int| 0 <= i < shorter.skip(from).len() implies is_digit(
                #[trigger] shorter.skip(from)[i],
            ) by {
                assert(shorter.skip(from)[i] == tail[i]);
            }
            assert(is_digit(tail[tail.len() - 1]));
        } else {
            if all_digits(shorter.skip(from)) && is_digit(d) {
                assert forall|i: int| 0 <= i < tail.len() implies is_digit(#[trigger] tail[i]) by {
                    if i < tail.len() - 1 {
                        assert(tail[i] == shorter.skip(from)[i]);
                    }
                }
            }
        }
    }
}

/// What `integer_of` comes to: a text is a whole number exactly where it is
/// digits, at least one, with one sign before them or without, and the
/// number that the digits stand for, with that sign, fits 64 bits; and the
/// text is then that number.
pub proof fn lemma_integer_of(s: Seq<char>)
    ensures
        integer_of(s) matches Ok(n) <==> {
            &&& s.len() > 0
            &&& if s[0] == '-' {
                s.len() > 1 && all_digits(s.skip(1)) && -decimal(s.skip(1)) >= i64::MIN
            } else if s[0] == '+' {
                s.len() > 1 && all_digits(s.skip(1)) && decimal(s.skip(1)) <= i64::MAX
            } else {
                all_digits(s) && decimal(s) <= i64::MAX
            }
        },
        integer_of(s) matches Ok(n) ==> n == if s[0] == '-' {
            -decimal(s.skip(1))
        } else if s[0] == '+' {
            decimal(s.skip(1)) as int
        } else {
            decimal(s) as int
        },
{
    if s.len() > 0 {
        if s[0] == '-' || s[0] == '+' {
            if s.len() > 1 {
                lemma_read_is_decimal(s, 1, s[0] == '-');
            }
        } else {
            lemma_read_is_decimal(s, 0, false);
            assert(s.skip(0) == s);
        }
    }
}

/// A sign, `+` or `-`.
pub open spec fn is_sign(c: char) -> bool {
    c == '+' || c == '-'
}

/// The letter `c` in lower case, where `c` is a capital letter of the
/// English alphabet; else `c` itself.
pub open spec fn lower(c: char) -> char {
    if 'A' <= c && c <= 'Z' {
        ((c as u32 + 32) as u32) as char
    } else {
        c
    }
}

/// Whether `s`, from its `from`-th character to its end, is `word` but for
/// the case of its letters. `word` is in lower case.
pub open spec fn is_word(s: Seq<char>, from: int, word: Seq<char>) -> bool {
    &&& s.len() - from == word.len()
    &&& forall|i: int| 0 <= i < word.len() ==> lower(#[trigger] s[from + i]) == word[i]
}

/// Whether `s`, from its `from`-th character to its end, is an exponent:
/// `e` or `E`, then a sign or none, then one digit or more.
pub open spec fn is_exponent(s: Seq<char>, from: int) -> bool {
    &&& 0 <= from < s.len()
    &&& (s[from] == 'e' || s[from] == 'E')
    &&& {
        let digits = if from + 1 < s.len() && is_sign(s[from + 1]) {
            from + 2
        } else {
            from + 1
        };
        run(s, digits, Class::Digit) > 0 && digits + run(s, digits, Class::Digit) == s.len()
    }
}

/// Whether `s`, from its `from`-th character to its end, is a decimal
/// number: digits with a point before them, behind them, among them or
/// without one, and an exponent behind them or none. At least one digit
/// stands before the exponent.
pub open spec fn is_number(s: Seq<char>, from: int) -> bool {
    let whole = run(s, from, Class::Digit);
    let point = from + whole < s.len() && s[from + whole] == '.';
    let fraction = if point {
        run(s, from + whole + 1, Class::Digit)
    } else {
        0
    };
    let end = if point {
        from + whole + 1 + fraction
    } else {
        from + whole
    };
    &&& 0 <= from <= s.len()
    &&& whole + fraction > 0
    &&& (end == s.len() || is_exponent(s, end))
}

/// Whether `s` is a floating point literal: a sign or none, and then a
/// decimal number or one of the words `inf`, `infinity` and `nan`, in
/// whatever case.
pub open spec fn is_float_literal(s: Seq<char>) -> bool {
    let from: int = if s.len() > 0 && is_sign(s[0]) {
        1
    } else {
        0
    };
    is_number(s, from) || is_word(s, from, seq!['i', 'n', 'f']) || is_word(
        s,
        from,
        seq!['i', 'n', 'f', 'i', 'n', 'i', 't', 'y'],
    ) || is_word(s, from, seq!['n', 'a', 'n'])
}

/// What becomes of `s` as a floating point literal: nothing wrong, or why it
/// is none.
pub open spec fn float_check(s: Seq<char>) -> Result<(), FloatLiteralError> {
    if s.len() == 0 {
        Err(FloatLiteralError::Empty)
    } else if is_float_literal(s) {
        Ok(())
    } else {
        Err(FloatLiteralError::Invalid)
    }
}

/// `c` in lower case, where it is a capital letter of the English alphabet.
fn to_lower(c: char) -> (l: char)
    ensures
        l == lower(c),
{
    match c {
        'A' => 'a',
        'B' => 'b',
        'C' => 'c',
        'D' => 'd',
        'E' => 'e',
        'F' => 'f',
        'G' => 'g',
        'H' => 'h',
        'I' => 'i',
        'J' => 'j',
        'K' => 'k',
        'L' => 'l',
        'M' => 'm',
        'N' => 'n',
        'O' => 'o',
        'P' => 'p',
        'Q' => 'q',
        'R' => 'r',
        'S' => 's',
        'T' => 't',
        'U' => 'u',
        'V' => 'v',
        'W' => 'w',
        'X' => 'x',
        'Y' => 'y',
        'Z' => 'z',
        _ => c,
    }
}

/// Whether `chars`, from `from` to its end, is `word` but for the case of
/// its letters.
fn word_at(chars: &Vec<char>, from: usize, word: &Vec<char>) -> (yes: bool)
    requires
        from <= chars.len(),
    ensures
        yes == is_word(chars@, from as int, word@),
{
    if chars.len() - from != word.len() {
        return false;
    }
    let mut i: usize = 0;
    while i < word.len()
        invariant
            from <= chars.len(),
            chars.len() - from == word.len(),
            i <= word.len(),
            forall|j: int| 0 <= j < i ==> lower(#[trigger] chars@[from + j]) == word@[j],
        decreases word.len() - i,
    {
        if to_lower(chars[from + i]) != word[i] {
            return false;
        }
        i += 1;
    }
    true
}

/// Whether `chars`, from `from` to its end, is an exponent.
fn exponent_at(chars: &Vec<char>, from: usize) -> (yes: bool)
    requires
        from <= chars.len(),
    ensures
        yes == is_exponent(chars@, from as int),
{
    if from >= chars.len() || !(chars[from] == 'e' || chars[from] == 'E') {
        return false;
    }
    let digits: usize = if from + 1 < chars.len() && (chars[from + 1] == '+' || chars[from + 1]
        == '-') {
        from + 2
    } else {
        from + 1
    };
    let end = scan_run(chars, digits, Class::Digit);
    end > digits && end == chars.len()
}

/// Whether `chars`, from `from` to its end, is a decimal number.
fn number_at(chars: &Vec<char>, from: usize) -> (yes: bool)
    requires
        from <= chars.len(),
    ensures
        yes == is_number(chars@, from as int),
{
    let whole_end = scan_run(chars, from, Class::Digit);
    let point = whole_end < chars.len() && chars[whole_end] == '.';
    let end = if point {
        scan_run(chars, whole_end + 1, Class::Digit)
    } else {
        whole_end
    };
    let digits = if point {
        end - from - 1
    } else {
        end - from
    };
    digits > 0 && (end == chars.len() || exponent_at(chars, end))
}

/// Checks that `chars` is a floating point literal.
pub fn check_float(chars: &Vec<char>) -> (checked: Result<(), FloatLiteralError>)
    ensures
        checked == float_check(chars@),
{
    if chars.len() == 0 {
        return Err(FloatLiteralError::Empty);
    }
    let from: usize = if chars[0] == '+' || chars[0] == '-' {
        1
    } else {
        0
    };
    let inf: Vec<char> = vec!['i', 'n', 'f'];
    let infinity: Vec<char> = vec!['i', 'n', 'f', 'i', 'n', 'i', 't', 'y'];
    let nan: Vec<char> = vec!['n', 'a', 'n'];
    if number_at(chars, from) || word_at(chars, from, &inf) || word_at(chars, from, &infinity)
        || word_at(chars, from, &nan) {
        Ok(())
    } else {
        Err(FloatLiteralError::Invalid)
    }
}

/// `s` with each pair of a backslash and `n` turned into a line feed, and
/// each pair of a backslash and `t` into a tab, from left to right. Every
/// other character stays, a backslash before another character too.
pub open spec fn unescape(s: Seq<char>) -> Seq<char>
    decreases s.len(),
{
    if s.len() == 0 {
        s
    } else if s.len() >= 2 && s[0] == '\\' && s[1] == 'n' {
        seq!['\n'] + unescape(s.skip(2))
    } else if s.len() >= 2 && s[0] == '\\' && s[1] == 't' {
        seq!['\t'] + unescape(s.skip(2))
    } else {
        seq![s[0]] + unescape(s.skip(1))
    }
}

/// `s` without its first and its last character; empty where `s` has fewer
/// than two.
pub open spec fn unquote(s: Seq<char>) -> Seq<char> {
    if s.len() >= 2 {
        s.subrange(1, s.len() - 1)
    } else {
        Seq::empty()
    }
}

/// The text between the quotes of the quoted text `chars`, its escapes
/// resolved.
pub fn read_quoted(chars: &Vec<char>) -> (text: String)
    ensures
        text@ == unescape(unquote(chars@)),
{
    let mut text = String::new();
    if chars.len() < 2 {
        return text;
    }
    let end: usize = chars.len() - 1;
    let ghost inner = unquote(chars@);
    let mut at: usize = 1;
    assert(inner.skip(0) == inner);
    assert(text@ + unescape(inner) == unescape(inner));
    while at < end
        invariant
            1 <= at <= end,
            end == chars.len() - 1,
            inner == chars@.subrange(1, end as int),
            unescape(inner) == text@ + unescape(inner.skip(at - 1)),
        decreases end - at,
    {
        let c = chars[at];
        let ghost rest = inner.skip(at - 1);
        let ghost had = text@;
        assert(rest.len() == end - at);
        assert(rest[0] == c);
        if c == '\\' && at + 1 < end && (chars[at + 1] == 'n' || chars[at + 1] == 't') {
            assert(rest[1] == chars@[at + 1]);
            assert(rest.skip(2) == inner.skip(at + 1));
            if chars[at + 1] == 'n' {
                text.push('\n');
                assert(text@ + unescape(inner.skip(at + 1)) == had + (seq!['\n'] + unescape(
                    inner.skip(at + 1),
                )));
            } else {
                text.push('\t');
                assert(text@ + unescape(inner.skip(at + 1)) == had + (seq!['\t'] + unescape(
                    inner.skip(at + 1),
                )));
            }
            at += 2;
        } else {
            assert(rest.skip(1) == inner.skip(at as int));
            text.push(c);
            assert(text@ + unescape(inner.skip(at as int)) == had + (seq![c] + unescape(
                inner.skip(at as int),
            )));
            at += 1;
        }
    }
    assert(inner.skip(at - 1).len() == 0);
    assert(text@ + Seq::<char>::empty() == text@);
    text
}

} // verus!
