//! A front end for a small Lisp: source text becomes a list of tokens, and
//! the tokens become a tree of values that a visitor can walk.
//!
//! ```text
//! text --tokenize--> Vec<Token> --Parser::parse--> Type --Walk::visit--> ...
//! ```
//!
//! Every function comes with a contract that Verus has proved. The contracts
//! speak of plain mathematical values: a text is its sequence of characters,
//! a token is seen as a [`lexer::Lexeme`], and a tree of [`Type`] through
//! its view [`types::Tree`]. The one thing taken on trust is what
//! `String::push` does, which is said in [`text`].
//!
//! # What the parts do, in short
//!
//! - [`patterns`] holds the eight patterns that tokens are made by, and
//!   [`lexer`] the lexer that tries them in their order at the place where
//!   it stands. Places are byte offsets into the source text.
//! - [`tokenize`] drops whitespace and nothing else. Comments are tokens and
//!   stay in the list; whoever parses a text with comments takes them out
//!   first, or finds each of them again as a symbol.
//! - [`parser`] reads one form from the tokens. A list without items is
//!   `Nil`. A token that starts with a digit, or with a minus sign and a
//!   digit, is a number: a whole number if it fits 64 bits, else a floating
//!   point number. Tokens that end inside a list give `EOF` with the place
//!   of the outermost parenthesis that is open; a closing parenthesis that
//!   closes nothing gives `UnbalancedParens` with its own place.
//! - A floating point number is held as its literal, the text that was
//!   written for it: the library decides what is a literal and leaves
//!   arithmetic to its users.
//! - [`visitor`] walks a tree and shows every leaf to a visitor.
//! - [`printer`] and [`spacing`] hold what is proved of the parts together:
//!   that literals are read back from their text, and that whitespace
//!   between tokens changes nothing.

pub mod errors;
pub mod lexer;
pub mod literals;
pub mod parser;
pub mod patterns;
pub mod printer;
pub mod shorthand;
pub mod spacing;
pub mod text;
pub mod types;
pub mod visitor;

pub use errors::{LishpError, LishpResult};
pub use lexer::tokenize;
pub use parser::Parser;
pub use types::Type;
