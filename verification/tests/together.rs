use lishp::errors::LishpError;
use lishp::lexer::{tokenize, Lexer, Token};
use lishp::parser::Parser;
use lishp::types::Type;

fn parse(src: &str) -> Result<Type, LishpError> {
    Parser::new(tokenize(src).expect("the text has its tokens")).parse()
}

fn raw_tokens(src: &str) -> Vec<Token> {
    let mut lexer = Lexer::new(src);
    let mut got = vec![];
    while let Some(token) = lexer.next_token().unwrap() {
        got.push(token);
    }
    got
}

#[test]
fn accepted_tokens_have_balanced_parentheses() {
    let texts = [
        "", "a", "()", "(a)", "((a) (b c) ())", "(1 (2 (3 (4))))", "\"(\"", "(\"(\" \")\")",
        "(a", "a)", ")", "(()", "())", "(a))(", "a b", "(a) b",
    ];
    for text in texts {
        let tokens = tokenize(text).unwrap();
        let opening = tokens.iter().filter(|t| t.value() == "(").count();
        let closing = tokens.iter().filter(|t| t.value() == ")").count();
        let mut parser = Parser::new(tokens);
        if parser.parse().is_ok() {
            assert_eq!(opening, closing, "on {:?}", text);
            assert_eq!(parser.peek(), None);
        }
    }
    // nothing is left open after a parse that went well: a second form is
    // read from the first token on, not as part of a list
    let mut parser = Parser::new(tokenize("(a (b))").unwrap());
    assert!(parser.parse().is_ok());
    assert_eq!(parser.parse(), Err(LishpError::EOF(0)));
}

#[test]
fn whitespace_between_tokens_changes_no_tree() {
    let texts = [
        "(+ foo bar (9))",
        "(a(b)c)",
        "(1 (2 3))",
        "(\"x y\"z -5 . 1.5)",
        "nil",
        "(a",
        "a)",
        "12.3.4",
        "(a ;b\n c)",
    ];
    for text in texts {
        let Ok(tokens) = tokenize(text) else {
            continue;
        };
        let before = Parser::new(tokens).parse();
        let mut cuts = vec![0];
        cuts.extend(raw_tokens(text).iter().map(|t| t.span().end));
        for cut in cuts {
            let behind_comment = raw_tokens(text)
                .iter()
                .any(|t| t.span().end == cut && t.value().starts_with(';'));
            for space in ["\n", "\n  ", " ", "\t\r\n", "\u{2003}"] {
                if behind_comment && !space.starts_with('\n') {
                    continue;
                }
                let spaced = format!("{}{}{}", &text[..cut], space, &text[cut..]);
                let after = parse(&spaced);
                match (&before, &after) {
                    (Ok(x), Ok(y)) => assert_eq!(x, y, "on {:?}", spaced),
                    (Err(LishpError::EOF(_)), Err(LishpError::EOF(_))) => {}
                    (Err(LishpError::UnbalancedParens(_)), Err(LishpError::UnbalancedParens(_))) => {}
                    (Err(LishpError::InvalidNumber(e)), Err(LishpError::InvalidNumber(f))) => {
                        assert_eq!(e, f)
                    }
                    _ => panic!("{:?} gave {:?}, and {:?} gave {:?}", text, before, spaced, after),
                }
            }
        }
    }
    // whitespace behind a comment becomes part of the comment, unless it
    // ends the line
    assert_eq!(parse(";a"), Ok(Type::symbol(";a")));
    assert_eq!(parse(";a "), Ok(Type::symbol(";a ")));
    assert_eq!(parse(";a\n "), Ok(Type::symbol(";a")));
}

#[test]
fn literals_that_come_back() {
    // a whole number too great for 64 bits, written as such, is a floating
    // point number with that literal
    for text in ["9223372036854775808", "-9223372036854775809", "100000000000000000000"] {
        assert_eq!(parse(text), Ok(Type::float(text)));
    }
    for text in ["0.0", "12.5", "007.250"] {
        assert_eq!(parse(text), Ok(Type::float(text)));
    }
    for name in ["a", "-", "--", "-a", "a-1", "$", "nil!", "true?", "x9", "; a note", ";"] {
        assert_eq!(parse(name), Ok(Type::symbol(name)));
    }
    assert_eq!(parse("nil"), Ok(Type::Nil));
    // and some that do not: a name that is read as a number, a text with a
    // quote in it, a floating point number with a sign
    assert_eq!(parse("-5"), Ok(Type::Integer(-5)));
    assert!(tokenize("\"a\"b\"").map(|t| t.len()) != Ok(1));
    assert!(tokenize("-1.5").is_err());
}

#[test]
fn end_of_input_names_the_first_token() {
    for text in ["(", "(a", "(a (b", "  (a (b (c", "\n(()(", "((((", "(a (b) (c"] {
        let tokens = tokenize(text).unwrap();
        let first = tokens[0].span().start;
        assert_eq!(Parser::new(tokens).parse(), Err(LishpError::EOF(first)), "on {:?}", text);
    }
}

/// The tokens that stand for `tree`.
fn words_of(tree: &Type, words: &mut Vec<String>) {
    match tree {
        Type::List(items) => {
            words.push("(".to_string());
            for item in items {
                words_of(item, words);
            }
            words.push(")".to_string());
        }
        Type::Integer(n) => words.push(n.to_string()),
        Type::Float(literal) => words.push(literal.clone()),
        Type::String(text) => {
            words.push(format!("\"{}\"", text.replace('\n', "\\n").replace('\t', "\\t")))
        }
        Type::Symbol(name) => words.push(name.clone()),
        Type::Boolean(b) => words.push(b.to_string()),
        Type::Nil => words.push("nil".to_string()),
    }
}

/// The text that stands for `tree`: its tokens with a blank behind each.
fn text_of(tree: &Type) -> String {
    let mut words = vec![];
    words_of(tree, &mut words);
    words.iter().map(|w| format!("{} ", w)).collect()
}

fn some_tree(next: &mut dyn FnMut() -> u64, depth: u32) -> Type {
    let leaves = [
        "0", "-1", "42", "9223372036854775807", "-9223372036854775808",
    ];
    let floats = ["0.5", "12.25", "9223372036854775808", "007.0"];
    let names = ["a", "+", "-", "foo-bar", "nil?", "x1", "$x", "-a", "a-1"];
    let texts = ["", "a b", "(", ")", "line\nfeed", "tab\there", "λ", ";", "1"];
    match next() % if depth == 0 { 6 } else { 8 } {
        0 => Type::Integer(leaves[(next() % 5) as usize].parse().unwrap()),
        1 => Type::float(floats[(next() % 4) as usize]),
        2 => Type::symbol(names[(next() % 9) as usize]),
        3 => Type::string(texts[(next() % 9) as usize]),
        4 => Type::Boolean(next() % 2 == 0),
        5 => Type::Nil,
        _ => {
            let len = 1 + next() % 4;
            Type::list((0..len).map(|_| some_tree(next, depth - 1)).collect())
        }
    }
}

#[test]
fn trees_come_back_from_their_text() {
    let mut state: u64 = 0xd1b54a32d192ed03;
    let mut next = move || {
        state ^= state << 13;
        state ^= state >> 7;
        state ^= state << 17;
        state
    };
    for _ in 0..2000 {
        let tree = some_tree(&mut next, 4);
        let text = text_of(&tree);
        assert_eq!(parse(&text), Ok(tree), "on {:?}", text);
    }
    assert_eq!(
        text_of(&Type::list(vec![Type::Integer(1), Type::list(vec![Type::symbol("a")])])),
        "( 1 ( a ) ) "
    );
}

#[test]
fn no_prefix_of_accepted_tokens_closes_more_than_it_opens() {
    for text in ["()", "(a)", "((a) (b c) ())", "(1 (2 (3 (4))))", "a", "(() ())"] {
        let tokens = tokenize(text).unwrap();
        assert!(Parser::new(tokens.clone()).parse().is_ok());
        let mut open = 0i64;
        for token in &tokens {
            if token.value() == "(" {
                open += 1;
            }
            if token.value() == ")" {
                open -= 1;
            }
            assert!(open >= 0, "on {:?}", text);
        }
        assert_eq!(open, 0);
    }
}

#[test]
fn a_failed_parse_leaves_the_parser_where_it_failed() {
    // at the end of the tokens, inside the list
    let mut parser = Parser::new(tokenize("(a (b").unwrap());
    assert_eq!(parser.parse(), Err(LishpError::EOF(0)));
    assert_eq!(parser.peek(), None);
    // what is open stays open: the next failure names the same parenthesis
    assert_eq!(parser.parse(), Err(LishpError::EOF(0)));

    // before the tokens that are left behind the form
    let tokens = tokenize("a ) b").unwrap();
    let mut parser = Parser::new(tokens.clone());
    assert_eq!(parser.parse(), Err(LishpError::UnbalancedParens(2)));
    assert_eq!(parser.peek(), Some(&tokens[1]));

    let tokens = tokenize("a b").unwrap();
    let mut parser = Parser::new(tokens.clone());
    assert_eq!(parser.parse(), Err(LishpError::EOF(0)));
    assert_eq!(parser.peek(), Some(&tokens[1]));

    // behind the token that is no number
    let tokens = lishp::shorthand::toks(&["(", "12x", "b", ")"]);
    let mut parser = Parser::new(tokens.clone());
    assert!(matches!(parser.parse(), Err(LishpError::InvalidNumber(_))));
    assert_eq!(parser.peek(), Some(&tokens[2]));

    // with no token left, the parser stays
    let mut parser = Parser::new(tokenize("a").unwrap());
    assert!(parser.parse().is_ok());
    assert_eq!(parser.parse(), Err(LishpError::EOF(0)));
    assert_eq!(parser.peek(), None);
}
