use lishp::errors::{FloatLiteralError, IntegerError};
use lishp::literals::{check_float, parse_integer, read_quoted};
use lishp::lexer::{Span, Token};
use lishp::text::{char_width, chars_of, same_text};

fn chars(text: &str) -> Vec<char> {
    text.chars().collect()
}

#[test]
fn integers_are_read_as_the_standard_library_reads_them() {
    let texts = [
        "", "0", "7", "-7", "+7", "-", "+", "--7", "+-7", "007", "-0", "12a", "a12", "1 ", " 1",
        "1_000", "9223372036854775807", "9223372036854775808", "-9223372036854775808",
        "-9223372036854775809", "99999999999999999999x", "-99999999999999999999x", "12.5", "٣",
        "1e3", "0x10", "18446744073709551616", "000000000000000000000000000001",
    ];
    for text in texts {
        let got = parse_integer(&chars(text));
        let want = text.parse::<i64>();
        assert_eq!(got.ok(), want.clone().ok(), "on {:?}", text);
        if let Err(e) = want {
            let kind = match got.unwrap_err() {
                IntegerError::Empty => std::num::IntErrorKind::Empty,
                IntegerError::InvalidDigit => std::num::IntErrorKind::InvalidDigit,
                IntegerError::PosOverflow => std::num::IntErrorKind::PosOverflow,
                IntegerError::NegOverflow => std::num::IntErrorKind::NegOverflow,
            };
            assert_eq!(&kind, e.kind(), "on {:?}", text);
        }
        assert_eq!(Token::new(text, Span::new(0, 0)).parse(), got);
    }
    assert_eq!(parse_integer(&chars("-42")), Ok(-42));
    assert_eq!(parse_integer(&chars("")), Err(IntegerError::Empty));
    assert_eq!(parse_integer(&chars("4x")), Err(IntegerError::InvalidDigit));
    assert_eq!(
        parse_integer(&chars("9223372036854775808")),
        Err(IntegerError::PosOverflow)
    );
    assert_eq!(
        parse_integer(&chars("-9223372036854775809")),
        Err(IntegerError::NegOverflow)
    );
}

#[test]
fn float_literals_are_those_of_the_standard_library() {
    let texts = [
        "", "0", "1.5", "-1.5", "+1.5", "1.", ".5", ".", "-.", "+.5", "1e5", "1E5", "1e-5",
        "1e+5", "1e", "1e+", "e5", "1.e5", ".5e5", ".e5", "1.5.2", "12.3.4", "1..2", "--1",
        "+-1", "1-", "inf", "-inf", "+inf", "INF", "Infinity", "infinity", "-InFiNiTy", "infinit",
        "infinityy", "nan", "NaN", "-nan", "+NAN", "na", "nanx", "1f", "0x10", "1_0", " 1", "1 ",
        "1e5.5", "1e5e5", "٣", "1٣", "12abc", "99999999999999999999", "1e999999999999999999999",
        "0.0000000000000000000000000000000000000000000000000000000000000000001", "e", "E", "+",
        "-", "1E", "in", "i", "n", "∞",
    ];
    for text in texts {
        let got = check_float(&chars(text));
        let want = text.parse::<f64>();
        assert_eq!(got.is_ok(), want.is_ok(), "on {:?}", text);
        if text.is_empty() {
            assert_eq!(got, Err(FloatLiteralError::Empty));
        } else if want.is_err() {
            assert_eq!(got, Err(FloatLiteralError::Invalid));
        }
        if let Err(e) = got {
            assert_eq!(e.message(), want.unwrap_err().to_string());
        }
    }
}

#[test]
fn float_literals_of_many_texts() {
    let alphabet: Vec<char> = "0123456789+-.eEinfatyINFATY x".chars().collect();
    let mut state: u64 = 0x9e3779b97f4a7c15;
    let mut next = move || {
        state ^= state << 13;
        state ^= state >> 7;
        state ^= state << 17;
        state
    };
    for _ in 0..20000 {
        let len = (next() % 9) as usize;
        let text: String = (0..len)
            .map(|_| alphabet[(next() % alphabet.len() as u64) as usize])
            .collect();
        assert_eq!(
            check_float(&chars(&text)).is_ok(),
            text.parse::<f64>().is_ok(),
            "on {:?}",
            text
        );
        assert_eq!(
            parse_integer(&chars(&text)).ok(),
            text.parse::<i64>().ok(),
            "on {:?}",
            text
        );
    }
}

#[test]
fn quoted_texts_are_read_as_two_replacements_would() {
    let texts = [
        r#""""#, r#""a""#, r#""\n""#, r#""\t""#, r#""\\n""#, r#""\\\n""#, r#""\\t\n""#,
        r#""a\nb\tc""#, r#""\""#, r#""\x\n""#, r#""n\""#, r#""\\""#, r#""tt\\nn""#,
        r#""\n\n\t\t""#, r#""\\\\n""#, "\"\\\n\"", "\"λ\\nλ\"",
    ];
    for text in texts {
        let inner = &text[1..text.len() - 1];
        let want = inner.replace(r"\n", "\n").replace(r"\t", "\t");
        assert_eq!(read_quoted(&chars(text)), want, "on {:?}", text);
    }
    assert_eq!(read_quoted(&chars("")), "");
    assert_eq!(read_quoted(&chars("\"")), "");
    assert_eq!(read_quoted(&chars("ab")), "");
    assert_eq!(read_quoted(&chars("a\\nb")), "\n");
}

#[test]
fn texts_and_their_characters() {
    for text in ["", "abc", "λx", "a\u{1f600}b", "\u{7f}\u{80}\u{7ff}\u{800}\u{ffff}\u{10000}"] {
        let got = chars_of(text);
        assert_eq!(got, chars(text));
        let bytes: usize = got.iter().map(|c| char_width(*c)).sum();
        assert_eq!(bytes, text.len());
        for c in got {
            assert_eq!(char_width(c), c.len_utf8());
        }
    }
    assert!(same_text("abc", "abc"));
    assert!(same_text("", ""));
    assert!(!same_text("abc", "abd"));
    assert!(!same_text("abc", "ab"));
    assert!(!same_text("é", "e"));
}

#[test]
fn every_character_is_classed_as_the_standard_library_classes_it() {
    for code in 0..=0x10ffffu32 {
        let Some(c) = char::from_u32(code) else {
            continue;
        };
        let mut buffer = [0u8; 4];
        let text: &str = c.encode_utf8(&mut buffer);
        let token = Token::new(text, Span::new(0, text.len()));
        assert_eq!(token.is_whitespace(), c.is_whitespace(), "on {:?}", c);
        assert_eq!(token.starts_with_number(), c.is_digit(10), "on {:?}", c);
        assert_eq!(token.len(), c.len_utf8(), "on {:?}", c);
        assert_eq!(char_width(c), c.len_utf8(), "on {:?}", c);
    }
}
