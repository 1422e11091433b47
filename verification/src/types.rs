//! The values of the language: the tree that the parser builds.

use vstd::prelude::*;

verus! {

/// All the kinds of value that the language has. A list holds values
/// again; every other kind is a leaf.
#[derive(Debug, PartialEq)]
pub enum Type {
    /// A list of values.
    List(Vec<Type>),
    /// A whole number of 64 bits, with its sign.
    Integer(i64),
    /// A floating point number, held as the literal that stands for it.
    Float(String),
    /// A text.
    String(String),
    /// A symbol.
    Symbol(String),
    /// A truth value.
    Boolean(bool),
    /// Nothing.
    Nil,
}

/// A value as the contracts see it.
pub enum Tree {
    /// A list of trees.
    List(Seq<Tree>),
    /// A whole number.
    Integer(int),
    /// A floating point number, as the characters of its literal.
    Float(Seq<char>),
    /// A text, as its characters.
    Str(Seq<char>),
    /// A symbol, as the characters of its name.
    Symbol(Seq<char>),
    /// A truth value.
    Boolean(bool),
    /// Nothing.
    Nil,
}

impl View for Type {
    type V = Tree;

    open spec fn view(&self) -> Tree
        decreases self,
    {
        match self {
            Type::List(items) => Tree::List(
                Seq::new(
                    items.len() as nat,
                    |i: int|
                        if 0 <= i < items.len() {
                            items[i].view()
                        } else {
                            Tree::Nil
                        },
                ),
            ),
            Type::Integer(n) => Tree::Integer(*n as int),
            Type::Float(literal) => Tree::Float(literal@),
            Type::String(text) => Tree::Str(text@),
            Type::Symbol(name) => Tree::Symbol(name@),
            Type::Boolean(b) => Tree::Boolean(*b),
            Type::Nil => Tree::Nil,
        }
    }
}

/// The trees of a sequence of values, one for one.
pub open spec fn trees(items: Seq<Type>) -> Seq<Tree> {
    Seq::new(items.len(), |i: int| items[i]@)
}

/// The tree of a list is the list of the trees of its items.
pub proof fn lemma_list_view(items: Vec<Type>)
    ensures
        Type::List(items)@ == Tree::List(trees(items@)),
{
    assert(Type::List(items)@->List_0 =~= trees(items@));
}

/// One more value at the end is one more tree at the end.
pub proof fn lemma_trees_push(items: Seq<Type>, last: Type)
    ensures
        trees(items.push(last)) == trees(items).push(last@),
{
    assert(trees(items.push(last)) =~= trees(items).push(last@));
}

impl Type {
    /// The text `text` as a value.
    pub fn string(text: &str) -> (value: Type)
        ensures
            value@ == Tree::Str(text@),
    {
        Type::String(text.to_owned())
    }

    /// The symbol of the name `name`.
    pub fn symbol(name: &str) -> (value: Type)
        ensures
            value@ == Tree::Symbol(name@),
    {
        Type::Symbol(name.to_owned())
    }

    /// The floating point number that the literal `literal` stands for.
    pub fn float(literal: &str) -> (value: Type)
        ensures
            value@ == Tree::Float(literal@),
    {
        Type::Float(literal.to_owned())
    }

    /// The list of `items`.
    pub fn list(items: Vec<Type>) -> (value: Type)
        ensures
            value@ == Tree::List(trees(items@)),
    {
        proof {
            lemma_list_view(items);
        }
        Type::List(items)
    }
}

} // verus!
