use lishp::lexer::tokenize;
use lishp::parser::Parser;
use lishp::types::Type;
use lishp::visitor::{Visitor, Walk};

struct DummyVisitor {
    visit_count: usize,
}

impl Visitor for DummyVisitor {
    fn visit_boolean(&mut self, _: &mut Type) {
        self.visit_count += 1;
    }

    fn visit_integer(&mut self, _: &mut Type) {
        self.visit_count += 1;
    }

    fn visit_float(&mut self, _: &mut Type) {
        self.visit_count += 1;
    }

    fn visit_string(&mut self, _: &mut Type) {
        self.visit_count += 1;
    }

    fn visit_symbol(&mut self, _: &mut Type) {
        self.visit_count += 1;
    }
}

struct NoOp;

impl Visitor for NoOp {}

/// Doubles whole numbers, renames symbols, and writes down what it saw.
struct Rewriter {
    seen: Vec<String>,
}

impl Visitor for Rewriter {
    fn visit_integer(&mut self, i: &mut Type) {
        if let Type::Integer(n) = i {
            self.seen.push(format!("int {}", n));
            *n *= 2;
        } else {
            panic!("visit_integer got {:?}", i);
        }
    }

    fn visit_symbol(&mut self, s: &mut Type) {
        if let Type::Symbol(name) = s {
            self.seen.push(format!("sym {}", name));
            *s = Type::list(vec![Type::Integer(7)]);
        } else {
            panic!("visit_symbol got {:?}", s);
        }
    }

    fn visit_boolean(&mut self, b: &mut Type) {
        assert!(matches!(b, Type::Boolean(_)));
        self.seen.push("bool".to_string());
    }

    fn visit_float(&mut self, f: &mut Type) {
        assert!(matches!(f, Type::Float(_)));
        self.seen.push("float".to_string());
    }

    fn visit_string(&mut self, s: &mut Type) {
        assert!(matches!(s, Type::String(_)));
        self.seen.push("string".to_string());
    }
}

#[test]
fn visit_all_atoms() {
    let inputs = vec![
        Type::Boolean(false),
        Type::Integer(5),
        Type::float("3.14"),
        Type::string("foo"),
        Type::symbol("foo"),
    ];

    for mut input in inputs {
        let mut visitor = DummyVisitor { visit_count: 0 };

        visitor.visit(&mut input);

        assert_eq!(visitor.visit_count, 1);
    }
}

#[test]
fn visit_a_list() {
    let mut ast = Type::list(vec![
        Type::Boolean(false),
        Type::Integer(5),
        Type::float("3.14"),
        Type::string("foo"),
        Type::symbol("foo"),
        Type::Nil,
    ]);
    let mut visitor = DummyVisitor { visit_count: 0 };

    visitor.visit(&mut ast);

    assert_eq!(visitor.visit_count, 5);
}

#[test]
fn visit_what_the_parser_made() {
    let tokens = tokenize("(false 5 3.14 \"foo\" bar nil)").unwrap();
    let mut ast = Parser::new(tokens).parse().unwrap();
    let mut visitor = DummyVisitor { visit_count: 0 };
    visitor.visit(&mut ast);
    assert_eq!(visitor.visit_count, 5);

    let mut visitor = DummyVisitor { visit_count: 0 };
    visitor.visit_list(&mut ast);
    assert_eq!(visitor.visit_count, 5);
}

#[test]
fn visit_nested_lists_in_order() {
    let tokens = tokenize("(a (1 (b 2.5) () nil) \"s\" true)").unwrap();
    let mut ast = Parser::new(tokens).parse().unwrap();
    let mut visitor = Rewriter { seen: vec![] };
    visitor.visit(&mut ast);
    assert_eq!(
        visitor.seen,
        vec!["sym a", "int 1", "sym b", "float", "string", "bool"]
    );
    let seven = || Type::list(vec![Type::Integer(7)]);
    assert_eq!(
        ast,
        Type::list(vec![
            seven(),
            Type::list(vec![
                Type::Integer(2),
                Type::list(vec![seven(), Type::float("2.5")]),
                Type::Nil,
                Type::Nil,
            ]),
            Type::string("s"),
            Type::Boolean(true),
        ])
    );
}

#[test]
fn visit_nothing() {
    let mut visitor = DummyVisitor { visit_count: 0 };
    let mut nil = Type::Nil;
    visitor.visit(&mut nil);
    visitor.visit_atom(&mut nil);
    let mut hollow = Type::list(vec![Type::Nil, Type::list(vec![]), Type::list(vec![Type::Nil])]);
    visitor.visit(&mut hollow);
    assert_eq!(visitor.visit_count, 0);
    assert_eq!(nil, Type::Nil);
    assert_eq!(
        hollow,
        Type::list(vec![Type::Nil, Type::list(vec![]), Type::list(vec![Type::Nil])])
    );
}

#[test]
fn visitor_without_methods_changes_nothing() {
    let tokens = tokenize("(a (1 2.5) \"s\" true nil)").unwrap();
    let mut ast = Parser::new(tokens.clone()).parse().unwrap();
    NoOp.visit(&mut ast);
    assert_eq!(ast, Parser::new(tokens).parse().unwrap());
}

#[test]
fn visit_atom_hands_each_leaf_to_its_method() {
    let mut visitor = Rewriter { seen: vec![] };
    let mut leaves = vec![
        Type::Integer(4),
        Type::Boolean(true),
        Type::float("1.5"),
        Type::string("x"),
        Type::symbol("y"),
        Type::Nil,
    ];
    for leaf in leaves.iter_mut() {
        visitor.visit_atom(leaf);
    }
    assert_eq!(visitor.seen, vec!["int 4", "bool", "float", "string", "sym y"]);
    assert_eq!(leaves[0], Type::Integer(8));
}
