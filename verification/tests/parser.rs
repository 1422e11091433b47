use lishp::errors::{FloatLiteralError, LishpError};
use lishp::lexer::{tokenize, Token};
use lishp::parser::{atom, Parser};
use lishp::shorthand::{tok, toks};
use lishp::types::Type;

fn parse(src: &str) -> Result<Type, LishpError> {
    let tokens = tokenize(src).expect("the text has its tokens");
    Parser::new(tokens).parse()
}

fn number_of(value: &Type) -> f64 {
    match value {
        Type::Float(literal) => literal.parse().expect("a floating point literal"),
        other => panic!("no floating point number: {:?}", other),
    }
}

#[test]
fn parse_nil_expressions() {
    let inputs = vec![vec![], toks(&["(", ")"]), toks(&["nil"])];

    for input in inputs {
        let mut parser = Parser::new(input.clone());
        let got = parser.parse();
        println!("src: {:?}, should be: {:?}, got: {:?}", input, Type::Nil, got);
        assert_eq!(got, Ok(Type::Nil));
    }
}

#[test]
fn parse_valid_atoms() {
    let inputs = vec![
        (tok("1", 0), Type::Integer(1)),
        (tok("1.23", 0), Type::float("1.23")),
        (tok("true", 0), Type::Boolean(true)),
        (tok("false", 0), Type::Boolean(false)),
        (tok("nil", 0), Type::Nil),
        (tok("foo", 0), Type::symbol("foo")),
        (tok("\"foo\"", 0), Type::string("foo")),
    ];

    for (src, should_be) in inputs {
        let mut parser = Parser::new(vec![src.clone()]);
        let got = parser.parse();
        println!("src: {:?}, should be: {:?}, got: {:?}", src, should_be, got);
        assert_eq!(got, Ok(should_be));
    }

    let got = Parser::new(vec![tok("1.23", 0)]).parse().unwrap();
    assert_eq!(number_of(&got), 1.23);
}

#[test]
fn parse_basic_lists() {
    let inputs = vec![
        (toks(&["(", "foo", ")"]), Type::list(vec![Type::symbol("foo")])),
        (
            toks(&["(", "+", "1.23", ")"]),
            Type::list(vec![Type::symbol("+"), Type::float("1.23")]),
        ),
    ];

    for (src, should_be) in inputs {
        let mut parser = Parser::new(src.clone());
        let got = parser.parse();
        println!(
            "src: {:?}, should be: {:?}, got: {:?}",
            src.iter().map(|i| i.value()).collect::<Vec<_>>(),
            should_be,
            got
        );
        assert_eq!(got, Ok(should_be));
    }
}

#[test]
fn simple_nested_list() {
    let tokens = toks(&["(", "foo", "(", "9", ")", ")"]);
    let should_be = Type::list(vec![Type::symbol("foo"), Type::list(vec![Type::Integer(9)])]);

    let mut parser = Parser::new(tokens.clone());
    let got = parser.parse();
    println!(
        "tokens: {:?}, should be: {:?}, got: {:?}",
        tokens.iter().map(|i| i.value()).collect::<Vec<_>>(),
        should_be,
        got
    );
    assert_eq!(got, Ok(should_be));
}

#[test]
fn nested_list_with_list_in_first_position() {
    let tokens = toks(&["(", "(", "*", ")", "(", "32", ")", "true", "1.23", ")"]);
    let should_be = Type::list(vec![
        Type::list(vec![Type::symbol("*")]),
        Type::list(vec![Type::Integer(32)]),
        Type::Boolean(true),
        Type::float("1.23"),
    ]);

    let mut parser = Parser::new(tokens.clone());
    let got = parser.parse();
    println!(
        "tokens: {:?}, should be: {:?}, got: {:?}",
        tokens.iter().map(|i| i.value()).collect::<Vec<_>>(),
        should_be,
        got
    );
    assert_eq!(got, Ok(should_be));
}

#[test]
fn string_escapes_are_done_correctly() {
    let inputs = vec![(r#""foo\n""#, "foo\n"), (r#""foo\t""#, "foo\t")];

    for (from, to) in inputs {
        let tok = tok(from, 0);
        let mut parser = Parser::new(vec![tok]);
        if let Ok(Type::String(s)) = parser.parse() {
            assert_eq!(s, to);
        } else {
            unreachable!();
        }
    }
}

#[test]
fn unbalanced_parens() {
    let inputs = vec![
        toks(&["(", "foo"]),
        toks(&["asd", ")"]),
        toks(&["(", "foo", "(", "123", ")"]),
        toks(&["(", "foo", "(", "123", ")", "(", ")"]),
    ];

    for tokens in inputs {
        let mut parser = Parser::new(tokens.clone());
        let got = parser.parse();
        assert!(got.is_err());
        println!(
            "src: {:?}, got: {:?}",
            tokens.iter().map(|t| t.value()).collect::<String>(),
            got
        );
    }
}

#[test]
fn empty_list_is_nil() {
    assert_eq!(parse("()"), Ok(Type::Nil));
    assert_eq!(parse("(  )"), Ok(Type::Nil));
    assert_eq!(parse(""), Ok(Type::Nil));
    assert_eq!(parse("(())"), Ok(Type::list(vec![Type::Nil])));
    assert_eq!(parse("(() nil)"), Ok(Type::list(vec![Type::Nil, Type::Nil])));
}

#[test]
fn nesting() {
    assert_eq!(
        parse("(1 (2 3))"),
        Ok(Type::list(vec![
            Type::Integer(1),
            Type::list(vec![Type::Integer(2), Type::Integer(3)]),
        ]))
    );
    assert_eq!(
        parse("( 1 2 3)"),
        Ok(Type::list(vec![Type::Integer(1), Type::Integer(2), Type::Integer(3)]))
    );
}

#[test]
fn end_of_input_names_the_outermost_open_parenthesis() {
    assert_eq!(parse("(foo"), Err(LishpError::EOF(0)));
    assert_eq!(parse("(foo (123)"), Err(LishpError::EOF(0)));
    assert_eq!(parse("  (foo (123"), Err(LishpError::EOF(2)));
    assert_eq!(parse("   ((a) (b (c"), Err(LishpError::EOF(3)));
    assert_eq!(parse("("), Err(LishpError::EOF(0)));
    // the places are byte offsets in the source, not counts of tokens
    assert_eq!(parse("\n\n(\"λ\" ("), Err(LishpError::EOF(2)));
}

#[test]
fn extra_closing_parenthesis_is_told_from_end_of_input() {
    assert_eq!(parse(")"), Err(LishpError::UnbalancedParens(0)));
    assert_eq!(parse("asd )"), Err(LishpError::UnbalancedParens(4)));
    assert_eq!(parse("(a))"), Err(LishpError::UnbalancedParens(3)));
    assert_eq!(parse("(a) ) (b"), Err(LishpError::UnbalancedParens(4)));
    // whatever else is left behind the form ends the parse as the end of the
    // tokens does
    assert_eq!(parse("a b"), Err(LishpError::EOF(0)));
    assert_eq!(parse("(a) (b)"), Err(LishpError::EOF(0)));
}

#[test]
fn numeric_edge_cases() {
    let one = |text: &str| Parser::new(vec![tok(text, 0)]).parse();

    assert_eq!(parse("-123"), Ok(Type::Integer(-123)));
    assert_eq!(one("-123"), Ok(Type::Integer(-123)));
    assert_eq!(one("-12.3"), Ok(Type::float("-12.3")));
    assert_eq!(number_of(&one("-12.3").unwrap()), -12.3);
    assert_eq!(
        one("12.3.4"),
        Err(LishpError::InvalidNumber(FloatLiteralError::Invalid))
    );
    assert_eq!(
        one("12abc"),
        Err(LishpError::InvalidNumber(FloatLiteralError::Invalid))
    );
    assert_eq!(one("-1x"), Err(LishpError::InvalidNumber(FloatLiteralError::Invalid)));

    assert_eq!(parse("0"), Ok(Type::Integer(0)));
    assert_eq!(parse("-0"), Ok(Type::Integer(0)));
    assert_eq!(parse("007"), Ok(Type::Integer(7)));
    assert_eq!(parse("9223372036854775807"), Ok(Type::Integer(i64::MAX)));
    assert_eq!(parse("-9223372036854775808"), Ok(Type::Integer(i64::MIN)));
    // a whole number that does not fit 64 bits is a floating point number
    assert_eq!(parse("9223372036854775808"), Ok(Type::float("9223372036854775808")));
    assert_eq!(parse("-9223372036854775809"), Ok(Type::float("-9223372036854775809")));
    assert_eq!(number_of(&parse("9223372036854775808").unwrap()), 9223372036854775808.0);
    assert_eq!(parse("12.50"), Ok(Type::float("12.50")));
    assert_eq!(one("1e3"), Ok(Type::float("1e3")));
    assert_eq!(number_of(&one("1e3").unwrap()), 1000.0);
    assert_eq!(one("1."), Ok(Type::float("1.")));
    assert_eq!(one("2.5E-1"), Ok(Type::float("2.5E-1")));
    // a sign alone, or before anything but a digit, starts a symbol
    assert_eq!(parse("-"), Ok(Type::symbol("-")));
    assert_eq!(one("-.5"), Ok(Type::symbol("-.5")));
    assert_eq!(one("+5"), Ok(Type::symbol("+5")));
}

#[test]
fn symbol_permissiveness() {
    for text in ["+", "-", "*", "/", "!", "_", "=", "?", "$", "@", "&", "|", "^"] {
        assert_eq!(parse(text), Ok(Type::symbol(text)));
    }
    // the lexer knows no token that starts with a percent sign; the parser
    // takes one
    assert!(tokenize("%").is_err());
    assert_eq!(Parser::new(vec![tok("%", 0)]).parse(), Ok(Type::symbol("%")));
    for text in ["if", "Foo", "a3", "equal?", "equal!", "_foo_", "nil?", "truer"] {
        assert_eq!(parse(text), Ok(Type::symbol(text)));
    }
}

#[test]
fn literals_come_back_from_their_text() {
    assert_eq!(parse("true"), Ok(Type::Boolean(true)));
    assert_eq!(parse("false"), Ok(Type::Boolean(false)));
    assert_eq!(parse("nil"), Ok(Type::Nil));
    for n in [0i64, 1, -1, 42, -4096, i64::MAX, i64::MIN] {
        assert_eq!(parse(&format!("{}", n)), Ok(Type::Integer(n)));
    }
    for x in [0.5f64, 12.25, 3.14159, 1234567.875] {
        let got = parse(&format!("{}", x)).unwrap();
        assert_eq!(number_of(&got), x);
    }
    for text in ["", "foo", "a b", "(", "λ", ";"] {
        assert_eq!(parse(&format!("\"{}\"", text)), Ok(Type::string(text)));
    }
    assert_eq!(parse(r#""a\nb\tc""#), Ok(Type::string("a\nb\tc")));
}

#[test]
fn escapes() {
    let one = |text: &str| Parser::new(vec![tok(text, 0)]).parse();

    assert_eq!(one(r#""""#), Ok(Type::string("")));
    assert_eq!(one(r#""\n\t""#), Ok(Type::string("\n\t")));
    assert_eq!(one(r#""\\n""#), Ok(Type::string("\\\n")));
    assert_eq!(one(r#""a\"b""#), Ok(Type::string("a\\\"b")));
    assert_eq!(one(r#""a\""#), Ok(Type::string("a\\")));
    assert_eq!(one(r#""\x""#), Ok(Type::string("\\x")));
    // a quote alone, or a text that its closing quote is missing from:
    // the first and the last character go
    assert_eq!(one("\""), Ok(Type::string("")));
    assert_eq!(one("\"abc"), Ok(Type::string("ab")));
}

#[test]
fn comments_become_symbols() {
    assert_eq!(parse("; hello"), Ok(Type::symbol("; hello")));
    assert_eq!(
        parse("(a ;b\n)"),
        Ok(Type::list(vec![Type::symbol("a"), Type::symbol(";b")]))
    );
}

#[test]
fn atom_reads_one_token() {
    assert_eq!(atom(&tok("12", 0)), Ok(Type::Integer(12)));
    assert_eq!(atom(&tok("x", 0)), Ok(Type::symbol("x")));
    assert_eq!(atom(&tok(")", 7)), Err(LishpError::UnbalancedParens(7)));
    assert_eq!(atom(&tok("(", 7)), Ok(Type::symbol("(")));
    assert_eq!(atom(&tok("", 0)), Ok(Type::symbol("")));
}

#[test]
fn peek_and_next_walk_the_tokens() {
    let tokens: Vec<Token> = toks(&["a", "b"]);
    let mut parser = Parser::new(tokens.clone());
    assert_eq!(parser.peek(), Some(&tokens[0]));
    assert_eq!(parser.peek(), Some(&tokens[0]));
    assert_eq!(parser.next(), Some(&tokens[0]));
    assert_eq!(parser.peek(), Some(&tokens[1]));
    assert_eq!(parser.next(), Some(&tokens[1]));
    assert_eq!(parser.peek(), None);
    assert_eq!(parser.next(), None);
    assert_eq!(parser.next(), None);

    // a parse goes on from where the parser stands
    let mut parser = Parser::new(toks(&["a", "(", "b", ")"]));
    let _ = parser.next();
    assert_eq!(parser.parse(), Ok(Type::list(vec![Type::symbol("b")])));
    assert_eq!(parser.peek(), None);
}

#[test]
fn error_messages() {
    assert_eq!(
        LishpError::EOF(3).message(),
        "Reached end of file before parsing finished"
    );
    assert_eq!(
        LishpError::InvalidNumber(FloatLiteralError::Invalid).message(),
        "InvalidNumber: invalid float literal"
    );
    assert_eq!(
        LishpError::InvalidNumber(FloatLiteralError::Empty).message(),
        "InvalidNumber: cannot parse float from empty string"
    );
    assert_eq!(LishpError::UnbalancedParens(0).message(), "Unbalanced parentheses");
    assert_eq!(
        LishpError::from(FloatLiteralError::Invalid),
        LishpError::InvalidNumber(FloatLiteralError::Invalid)
    );
}
