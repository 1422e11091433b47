use lishp::lexer::{tokenize, Lexer, Token};
use lishp::shorthand::tok;
use regex::Regex;

/// The eight patterns as regular expressions, in the order of the lexer.
fn expressions() -> Vec<Regex> {
    vec![
        Regex::new(r"^[0-9]+(\.[0-9]+)?").unwrap(),
        Regex::new(r"^-?[0-9]+").unwrap(),
        Regex::new(r"^\(").unwrap(),
        Regex::new(r"^\)").unwrap(),
        Regex::new(r"^[-_a-zA-Z+=*^&$!@/?|][-_a-zA-Z0-9+=*^&$!@/?|]*").unwrap(),
        Regex::new(r#"^"([^\\"]|\\.)*""#).unwrap(),
        Regex::new(r"^;.*").unwrap(),
        Regex::new(r"^\s+").unwrap(),
    ]
}

/// The tokens of `src` by the regular expressions, and the offset at which
/// none of them matches, if there is one.
fn tokens_by_expressions(src: &str) -> (Vec<Token>, Option<usize>) {
    let patterns = expressions();
    let mut position = 0;
    let mut tokens = vec![];
    'text: while position < src.len() {
        for pattern in &patterns {
            if let Some(found) = pattern.find(&src[position..]) {
                assert_eq!(found.start(), 0);
                tokens.push(tok(found.as_str(), position));
                position += found.end();
                continue 'text;
            }
        }
        return (tokens, Some(position));
    }
    (tokens, None)
}

/// The tokens of `src` by the lexer, and the offset at which it fails, if it
/// does.
fn tokens_by_lexer(src: &str) -> (Vec<Token>, Option<usize>) {
    let mut lexer = Lexer::new(src);
    let mut tokens = vec![];
    loop {
        match lexer.next_token() {
            Ok(Some(token)) => tokens.push(token),
            Ok(None) => return (tokens, None),
            Err(e) => return (tokens, Some(e.pos)),
        }
    }
}

fn agree_on(src: &str) {
    let by_lexer = tokens_by_lexer(src);
    assert_eq!(by_lexer, tokens_by_expressions(src), "on {:?}", src);

    let kept: Vec<Token> = by_lexer
        .0
        .into_iter()
        .filter(|t| !t.value().trim().is_empty())
        .collect();
    match by_lexer.1 {
        None => assert_eq!(tokenize(src), Ok(kept), "on {:?}", src),
        Some(pos) => assert_eq!(tokenize(src).unwrap_err().pos, pos, "on {:?}", src),
    }
}

#[test]
fn lexer_agrees_with_regular_expressions_on_chosen_texts() {
    let texts = [
        "",
        "(+ foo bar (9))",
        "(print \"5 + (9 % 2) = \" (+ 5 (% 9 2)))",
        "12.5.7 -3 - -x 4. .5 1e5",
        "\"a\\\"b\" \"\\\\\" \"unfinished",
        "\"two\nlines\" \"bad\\\nescape\"",
        "; comment\n(a ; another\r\n b)",
        "a\u{a0}b\u{2028}c\u{3000}\u{85}d\u{1680}e",
        "λ",
        "(λ)",
        "\"λ\"λ",
        "٣",
        "x٣",
        "a%b",
        "-",
        "--5",
        "-5-",
        "5-",
        "$ARGV$ l33t _f f_ equal? equal!",
        "\u{feff}a",
        "a\u{200b}b",
        "a\u{0}b",
    ];
    for text in texts {
        agree_on(text);
    }
}

#[test]
fn lexer_agrees_with_regular_expressions_on_many_texts() {
    let alphabet: Vec<char> = "01259-.()abzAZ_+=*^&$!@/?|\"\\;% \n\t\r,'#:<>[]{}~`nte"
        .chars()
        .chain(['λ', 'é', '\u{a0}', '\u{2003}', '\u{3000}', '٣', '\u{b}', '\u{c}', '\u{1f600}'])
        .collect();
    // a small generator of numbers, the same on every run
    let mut state: u64 = 0x2545f4914f6cdd1d;
    let mut next = move || {
        state ^= state << 13;
        state ^= state >> 7;
        state ^= state << 17;
        state
    };
    for _ in 0..4000 {
        let len = (next() % 12) as usize;
        let text: String = (0..len)
            .map(|_| alphabet[(next() % alphabet.len() as u64) as usize])
            .collect();
        agree_on(&text);
    }
}

#[test]
fn whitespace_between_tokens_changes_no_token() {
    let texts = [
        "(+ foo bar (9))",
        "(a(b)c)",
        "12abc",
        "a\"b\"c",
        "(1 (2 3))",
        "\"x y\"z",
        "-5 - 5",
        "(12.5)",
        "a  b",
    ];
    for text in texts {
        let (raw, failed) = tokens_by_lexer(text);
        assert_eq!(failed, None);
        let values = |tokens: &[Token]| -> Vec<String> {
            tokens.iter().map(|t| t.value().to_string()).collect()
        };
        let before = tokenize(text).unwrap();
        // between any two tokens, and before the first and behind the last
        let mut cuts = vec![0];
        cuts.extend(raw.iter().map(|t| t.span().end));
        for cut in cuts {
            for space in [" ", "\n", " \t ", "\u{a0}"] {
                let spaced = format!("{}{}{}", &text[..cut], space, &text[cut..]);
                let after = tokenize(&spaced).unwrap();
                assert_eq!(values(&after), values(&before), "on {:?}", spaced);
            }
        }
    }
    // a comment takes the whitespace behind it into itself
    assert_eq!(tokenize(";a").unwrap()[0].value(), ";a");
    assert_eq!(tokenize(";a ").unwrap()[0].value(), ";a ");
    assert_eq!(tokenize(";a\n ").unwrap()[0].value(), ";a");
}
