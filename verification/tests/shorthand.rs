use lishp::lexer::{Span, Token};
use lishp::shorthand::{tok, toks};
use lishp::types::Type;

#[test]
fn tok_creates_valid_tokens() {
    let inputs = vec![
        (tok("(", 0), Token::new("(", Span::new(0, 1))),
        (tok("foo", 0), Token::new("foo", Span::new(0, 3))),
        (tok("foo", 5), Token::new("foo", Span::new(5, 8))),
        (tok("a", 9), Token::new("a", Span::new(9, 10))),
    ];

    for (got, should_be) in inputs {
        assert_eq!(got, should_be);
    }
}

#[test]
fn create_list_of_tokens_with_toks() {
    let inputs = vec![
        (toks(&[]), Vec::new()), // empty token list
        (toks(&["1"]), vec![tok("1", 0)]), // single item
        // Lots of tokens (makes sure span is computed correctly, too)
        (
            toks(&["(", "+", "1", "1", ")"]),
            vec![tok("(", 0), tok("+", 1), tok("1", 2), tok("1", 3), tok(")", 4)],
        ),
    ];

    for (got, should_be) in inputs {
        assert_eq!(got, should_be);
    }
}

#[test]
fn toks_counts_bytes() {
    assert_eq!(
        toks(&["\"λ\"", "x"]),
        vec![Token::new("\"λ\"", Span::new(0, 4)), Token::new("x", Span::new(4, 5))]
    );
}

#[test]
fn create_type_instances() {
    let inputs = vec![
        (Type::Nil, Type::Nil),
        (Type::Boolean(true), Type::Boolean(true)),
        (Type::Boolean(false), Type::Boolean(false)),
        (Type::Integer(5), Type::Integer(5)),
        (Type::float("3.14159"), Type::Float("3.14159".to_string())),
        (Type::symbol("foo"), Type::Symbol("foo".to_string())),
        (Type::string("foo"), Type::String("foo".to_string())),
        (Type::list(vec![]), Type::List(vec![])),
        (Type::list(vec![Type::Integer(1)]), Type::List(vec![Type::Integer(1)])),
        (
            Type::list(vec![Type::Integer(1), Type::symbol("bar")]),
            Type::List(vec![Type::Integer(1), Type::Symbol("bar".to_string())]),
        ),
    ];

    for (got, should_be) in inputs {
        assert_eq!(got, should_be);
    }
}
