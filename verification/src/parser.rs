//! The parser: from a list of tokens to a tree.
//!
//! The grammar has three rules. A form is a list or an atom; a list is an
//! opening parenthesis, any number of forms and a closing parenthesis; an
//! atom is any other single token. The parser descends by these rules, and
//! keeps the places of the parentheses that are still open, so that it can
//! say where a list was left open.

use vstd::prelude::*;
use crate::errors::{LishpError, LishpResult};
use crate::lexer::{Lexeme, Token};
use crate::literals::{check_float, float_check, integer_of, parse_integer, read_quoted, unescape, unquote};
use crate::patterns::{digit, is_digit};
use crate::text::chars_of;
use crate::types::{lemma_trees_push, trees, Tree, Type};

verus! {

/// Whether a token of the text `s` is read as a number: it starts with a
/// digit, or with a minus sign and a digit.
pub open spec fn is_numeric(s: Seq<char>) -> bool {
    s.len() > 0 && (is_digit(s[0]) || (s[0] == '-' && s.len() > 1 && is_digit(s[1])))
}

/// The tree of the atom that the token `lexeme` is.
///
/// - A closing parenthesis is no atom: `UnbalancedParens` with its place.
/// - A token that is read as a number is a whole number where its text is
///   the literal of one that fits 64 bits, else a floating point number
///   where its text is a floating point literal, and else `InvalidNumber`.
/// - A token that starts with a double quote is a text: what stands between
///   its first and its last character, escapes resolved.
/// - `nil`, `true` and `false` are nothing and the two truth values.
/// - Every other token is a symbol of that name.
pub open spec fn atom_of(lexeme: Lexeme) -> Result<Tree, LishpError> {
    let s = lexeme.text;
    if s == seq![')'] {
        Err(LishpError::UnbalancedParens(lexeme.start as usize))
    } else if is_numeric(s) {
        match integer_of(s) {
            Ok(n) => Ok(Tree::Integer(n)),
            Err(_) => match float_check(s) {
                Ok(_) => Ok(Tree::Float(s)),
                Err(e) => Err(LishpError::InvalidNumber(e)),
            },
        }
    } else if s.len() > 0 && s[0] == '"' {
        Ok(Tree::Str(unescape(unquote(s))))
    } else if s == seq!['n', 'i', 'l'] {
        Ok(Tree::Nil)
    } else if s == seq!['t', 'r', 'u', 'e'] {
        Ok(Tree::Boolean(true))
    } else if s == seq!['f', 'a', 'l', 's', 'e'] {
        Ok(Tree::Boolean(false))
    } else {
        Ok(Tree::Symbol(s))
    }
}

/// Whether `token` is an opening parenthesis.
fn opens(token: &Token) -> (yes: bool)
    ensures
        yes == (token@.text == seq!['(']),
{
    proof {
        reveal_strlit("(");
        assert("("@ =~= seq!['(']);
    }
    token.is("(")
}

/// Whether `token` is a closing parenthesis.
fn closes(token: &Token) -> (yes: bool)
    ensures
        yes == (token@.text == seq![')']),
{
    proof {
        reveal_strlit(")");
        assert(")"@ =~= seq![')']);
    }
    token.is(")")
}

/// Reads one token as an atom.
pub fn atom(token: &Token) -> (value: LishpResult<Type>)
    ensures
        match value {
            Ok(v) => atom_of(token@) == Ok::<Tree, LishpError>(v@),
            Err(e) => atom_of(token@) == Err::<Tree, LishpError>(e),
        },
{
    proof {
        reveal_strlit("nil");
        reveal_strlit("true");
        reveal_strlit("false");
        assert("nil"@ =~= seq!['n', 'i', 'l']);
        assert("true"@ =~= seq!['t', 'r', 'u', 'e']);
        assert("false"@ =~= seq!['f', 'a', 'l', 's', 'e']);
    }
    if closes(token) {
        return Err(LishpError::UnbalancedParens(token.span().start));
    }
    let chars = chars_of(token.value());
    if chars.len() > 0 && (digit(chars[0]) || (chars[0] == '-' && chars.len() > 1 && digit(
        chars[1],
    ))) {
        // try reading the token as a number
        match parse_integer(&chars) {
            Ok(n) => Ok(Type::Integer(n)),
            Err(_) => match check_float(&chars) {
                Ok(_) => Ok(Type::float(token.value())),
                Err(e) => Err(LishpError::from(e)),
            },
        }
    } else if chars.len() > 0 && chars[0] == '"' {
        Ok(Type::String(read_quoted(&chars)))
    } else if token.is("nil") {
        Ok(Type::Nil)
    } else if token.is("true") {
        Ok(Type::Boolean(true))
    } else if token.is("false") {
        Ok(Type::Boolean(false))
    } else {
        Ok(Type::symbol(token.value()))
    }
}

/// Where the parser stands after a rule: the tree that the rule gave, the
/// number of tokens behind it and the places of the parentheses that are
/// still open; or the error that ended the parse.
pub enum Step {
    /// The rule gave a tree.
    Done {
        /// The tree.
        tree: Tree,
        /// The number of tokens read so far.
        next: nat,
        /// The byte offsets of the parentheses that are open, outermost first.
        open: Seq<usize>,
    },
    /// The rule failed.
    Failed {
        /// The error that ended the parse.
        error: LishpError,
        /// The number of tokens read when it ended.
        next: nat,
        /// The byte offsets of the parentheses that were open then.
        open: Seq<usize>,
    },
}

/// The error of tokens that end too early: `EOF` with the place of the
/// outermost parenthesis that is still open, or with 0 where none is.
pub open spec fn eof_at(open: Seq<usize>) -> LishpError {
    LishpError::EOF(
        if open.len() > 0 {
            open[0]
        } else {
            0
        },
    )
}

/// The rule for a form, at the `at`-th of `toks` and with the parentheses
/// `open`.
///
/// Where there are no tokens at all, the form is nothing. Where the tokens
/// have ended, the parse fails with `eof_at(open)`. An opening parenthesis
/// is put down as open, and the rule for a list goes on behind it. Any other
/// token is an atom.
pub open spec fn form_at(toks: Seq<Lexeme>, at: nat, open: Seq<usize>) -> Step
    decreases toks.len() - at, 0nat,
{
    if toks.len() == 0 {
        Step::Done { tree: Tree::Nil, next: at, open: open }
    } else if at >= toks.len() {
        Step::Failed { error: eof_at(open), next: at, open: open }
    } else if toks[at as int].text == seq!['('] {
        list_at(toks, at + 1, open.push(toks[at as int].start as usize), Seq::empty())
    } else {
        match atom_of(toks[at as int]) {
            Ok(tree) => Step::Done { tree: tree, next: at + 1, open: open },
            Err(e) => Step::Failed { error: e, next: at + 1, open: open },
        }
    }
}

/// The rule for the rest of a list, at the `at`-th of `toks`, with the
/// parentheses `open`, the innermost of which is the list's own, and with
/// the trees `items` that the list has so far.
///
/// A closing parenthesis ends the list and takes the innermost parenthesis
/// from `open`: a list without items is nothing, any other the list of its
/// items. Before anything else stands a form, which becomes the next item.
/// (A form is never empty where there are tokens, which
/// `lemma_rules_advance` shows: the last case is there for the definition to
/// be well founded.)
pub open spec fn list_at(toks: Seq<Lexeme>, at: nat, open: Seq<usize>, items: Seq<Tree>) -> Step
    decreases toks.len() - at, 1nat,
{
    if at < toks.len() && toks[at as int].text == seq![')'] {
        Step::Done {
            tree: if items.len() == 0 {
                Tree::Nil
            } else {
                Tree::List(items)
            },
            next: at + 1,
            open: if open.len() > 0 {
                open.drop_last()
            } else {
                open
            },
        }
    } else {
        match form_at(toks, at, open) {
            Step::Failed { error, next, open: still_open } => Step::Failed {
                error: error,
                next: next,
                open: still_open,
            },
            Step::Done { tree, next, open: still_open } => if at < next <= toks.len() {
                list_at(toks, next, still_open, items.push(tree))
            } else {
                Step::Failed { error: eof_at(open), next: at, open: open }
            },
        }
    }
}

/// What a whole parse gives that starts at the `at`-th of `toks` with the
/// parentheses `open`: the tree of one form, if the tokens end with it.
///
/// Where tokens are left behind the form, the parse fails: with
/// `UnbalancedParens` and its place where the first of them is a closing
/// parenthesis, and else with `eof_at`.
pub open spec fn parse_from(toks: Seq<Lexeme>, at: nat, open: Seq<usize>) -> Result<
    Tree,
    LishpError,
> {
    match form_at(toks, at, open) {
        Step::Failed { error, .. } => Err(error),
        Step::Done { tree, next, open: still_open } => if next == toks.len() {
            Ok(tree)
        } else if next < toks.len() && toks[next as int].text == seq![')'] {
            Err(LishpError::UnbalancedParens(toks[next as int].start as usize))
        } else {
            Err(eof_at(still_open))
        },
    }
}

/// Where a whole parse leaves the parser: the number of tokens behind it,
/// and the parentheses that are open. That is where the form ended, or
/// where it failed: behind the atom that is none, at the end of the tokens,
/// with every parenthesis still open that was opened on the way there.
/// Tokens that are left behind the form stay before the parser.
pub open spec fn parse_ends(toks: Seq<Lexeme>, at: nat, open: Seq<usize>) -> (nat, Seq<usize>) {
    match form_at(toks, at, open) {
        Step::Done { next, open: still_open, .. } => (next, still_open),
        Step::Failed { next, open: still_open, .. } => (next, still_open),
    }
}

/// The tree of the tokens `toks`, read from the first with no parenthesis
/// open.
pub open spec fn parse_tokens(toks: Seq<Lexeme>) -> Result<Tree, LishpError> {
    parse_from(toks, 0, Seq::empty())
}

/// Where there are tokens, a form takes at least one of them and none from
/// beyond the end, and so does the rest of a list.
pub proof fn lemma_rules_advance(toks: Seq<Lexeme>, at: nat, open: Seq<usize>, items: Seq<Tree>)
    requires
        toks.len() > 0,
    ensures
        form_at(toks, at, open) matches Step::Done { next, .. } ==> at < next <= toks.len(),
        list_at(toks, at, open, items) matches Step::Done { next, .. } ==> at < next
            <= toks.len(),
    decreases toks.len() - at, 2nat,
{
    lemma_form_advances(toks, at, open);
    lemma_list_advances(toks, at, open, items);
}

proof fn lemma_form_advances(toks: Seq<Lexeme>, at: nat, open: Seq<usize>)
    requires
        toks.len() > 0,
    ensures
        form_at(toks, at, open) matches Step::Done { next, .. } ==> at < next <= toks.len(),
    decreases toks.len() - at, 0nat,
{
    if at < toks.len() && toks[at as int].text == seq!['('] {
        lemma_list_advances(
            toks,
            at + 1,
            open.push(toks[at as int].start as usize),
            Seq::empty(),
        );
    }
}

proof fn lemma_list_advances(toks: Seq<Lexeme>, at: nat, open: Seq<usize>, items: Seq<Tree>)
    requires
        toks.len() > 0,
    ensures
        list_at(toks, at, open, items) matches Step::Done { next, .. } ==> at < next
            <= toks.len(),
    decreases toks.len() - at, 1nat,
{
    if at < toks.len() && toks[at as int].text == seq![')'] {
    } else {
        lemma_form_advances(toks, at, open);
        match form_at(toks, at, open) {
            Step::Failed { .. } => {},
            Step::Done { tree, next, open: still_open } => {
                if at < next <= toks.len() {
                    lemma_list_advances(toks, next, still_open, items.push(tree));
                }
            },
        }
    }
}

/// The parser: a list of tokens, a place in it, and the places of the
/// parentheses that are open.
#[derive(Debug)]
pub struct Parser {
    tokens: Vec<Token>,
    position: usize,
    parens_stack: Vec<usize>,
}

impl Parser {
    /// The tokens that the parser reads.
    pub closed spec fn lexemes(self) -> Seq<Lexeme> {
        self.tokens.deep_view()
    }

    /// The number of tokens that the parser has behind it.
    pub closed spec fn cursor(self) -> nat {
        self.position as nat
    }

    /// The byte offsets of the parentheses that are open, outermost first.
    pub closed spec fn parens(self) -> Seq<usize> {
        self.parens_stack@
    }

    /// The number of tokens that the parser has before it.
    pub open spec fn left(self) -> nat {
        if self.cursor() <= self.lexemes().len() {
            (self.lexemes().len() - self.cursor()) as nat
        } else {
            0
        }
    }

    /// A parser at the first of `tokens`, with no parenthesis open.
    pub fn new(tokens: Vec<Token>) -> (parser: Parser)
        ensures
            parser.lexemes() == tokens.deep_view(),
            parser.cursor() == 0,
            parser.parens() == Seq::<usize>::empty(),
    {
        Parser { tokens: tokens, position: 0, parens_stack: Vec::new() }
    }

    /// The next token, which stays where it is.
    pub fn peek(&self) -> (token: Option<&Token>)
        ensures
            match token {
                Some(t) => self.cursor() < self.lexemes().len() && t@ == self.lexemes()[
                    self.cursor() as int],
                None => self.cursor() >= self.lexemes().len(),
            },
    {
        if self.position < self.tokens.len() {
            Some(&self.tokens[self.position])
        } else {
            None
        }
    }

    /// The next token, and the parser moves behind it; `None`, and the
    /// parser stays, where there is no token left.
    pub fn next(&mut self) -> (token: Option<&Token>)
        ensures
            final(self).lexemes() == old(self).lexemes(),
            final(self).parens() == old(self).parens(),
            match token {
                Some(t) => {
                    &&& old(self).cursor() < old(self).lexemes().len()
                    &&& t@ == old(self).lexemes()[old(self).cursor() as int]
                    &&& final(self).cursor() == old(self).cursor() + 1
                },
                None => {
                    &&& old(self).cursor() >= old(self).lexemes().len()
                    &&& final(self).cursor() == old(self).cursor()
                },
            },
    {
        if self.position < self.tokens.len() {
            self.position += 1;
            Some(&self.tokens[self.position - 1])
        } else {
            None
        }
    }

    /// Reads the tokens that are left as one form, and gives its tree.
    ///
    /// On success the parser stands behind the last token, and the
    /// parentheses that are open are those that were open before. On
    /// failure it stands where `parse_ends` says: where the form failed, or
    /// behind the form and before the tokens that are left.
    pub fn parse(&mut self) -> (ast: LishpResult<Type>)
        ensures
            final(self).lexemes() == old(self).lexemes(),
            final(self).cursor() == parse_ends(
                old(self).lexemes(),
                old(self).cursor(),
                old(self).parens(),
            ).0,
            final(self).parens() == parse_ends(
                old(self).lexemes(),
                old(self).cursor(),
                old(self).parens(),
            ).1,
            match ast {
                Ok(tree) => {
                    &&& parse_from(old(self).lexemes(), old(self).cursor(), old(self).parens())
                        == Ok::<Tree, LishpError>(tree@)
                    &&& has_no_empty_list(tree@)
                    &&& final(self).cursor() == old(self).lexemes().len()
                    &&& final(self).parens() == old(self).parens()
                },
                Err(e) => parse_from(old(self).lexemes(), old(self).cursor(), old(self).parens())
                    == Err::<Tree, LishpError>(e),
            },
    {
        proof {
            lemma_form_keeps_parens(self.lexemes(), self.cursor(), self.parens());
            lemma_form_has_no_empty_list(self.lexemes(), self.cursor(), self.parens());
        }
        let ast = match self.parse_form() {
            Ok(ast) => ast,
            Err(e) => {
                return Err(e);
            },
        };
        if self.position != self.tokens.len() {
            match self.peek() {
                Some(token) => {
                    if closes(token) {
                        return Err(LishpError::UnbalancedParens(token.span().start));
                    }
                },
                None => {},
            }
            Err(self.eof())
        } else {
            Ok(ast)
        }
    }

    fn parse_form(&mut self) -> (form: LishpResult<Type>)
        ensures
            final(self).lexemes() == old(self).lexemes(),
            match form_at(old(self).lexemes(), old(self).cursor(), old(self).parens()) {
                Step::Done { tree, next, open } => {
                    &&& form matches Ok(value) && value@ == tree
                    &&& final(self).cursor() == next
                    &&& final(self).parens() == open
                },
                Step::Failed { error, next, open } => {
                    &&& form == Err::<Type, LishpError>(error)
                    &&& final(self).cursor() == next
                    &&& final(self).parens() == open
                },
            },
        decreases old(self).left(), 0nat,
    {
        if self.tokens.len() == 0 {
            return Ok(Type::Nil);
        }
        if self.chomp_open_paren().is_some() {
            self.parse_list()
        } else {
            self.parse_atom()
        }
    }

    fn parse_list(&mut self) -> (list: LishpResult<Type>)
        requires
            old(self).lexemes().len() > 0,
        ensures
            final(self).lexemes() == old(self).lexemes(),
            match list_at(
                old(self).lexemes(),
                old(self).cursor(),
                old(self).parens(),
                Seq::empty(),
            ) {
                Step::Done { tree, next, open } => {
                    &&& list matches Ok(value) && value@ == tree
                    &&& final(self).cursor() == next
                    &&& final(self).parens() == open
                },
                Step::Failed { error, next, open } => {
                    &&& list == Err::<Type, LishpError>(error)
                    &&& final(self).cursor() == next
                    &&& final(self).parens() == open
                },
            },
        decreases old(self).left(), 1nat,
    {
        let mut components: Vec<Type> = Vec::new();
        let ghost toks = self.lexemes();
        assert(trees(components@) =~= Seq::<Tree>::empty());
        loop
            invariant_except_break
                list_at(toks, old(self).cursor(), old(self).parens(), Seq::empty()) == list_at(
                    toks,
                    self.cursor(),
                    self.parens(),
                    trees(components@),
                ),
            invariant
                self.lexemes() == toks,
                toks == old(self).lexemes(),
                toks.len() > 0,
                old(self).cursor() <= self.cursor(),
            ensures
                list_at(toks, old(self).cursor(), old(self).parens(), Seq::empty()) == (Step::Done {
                    tree: if components@.len() == 0 {
                        Tree::Nil
                    } else {
                        Tree::List(trees(components@))
                    },
                    next: self.cursor(),
                    open: self.parens(),
                }),
            decreases self.left(),
        {
            let ghost at = self.cursor();
            let ghost open = self.parens();
            let ghost had = components@;
            if self.chomp_close_paren().is_some() {
                break ;
            }
            proof {
                lemma_rules_advance(toks, at, open, trees(had));
            }
            match self.parse_form() {
                Err(e) => {
                    return Err(e);
                },
                Ok(next_atom) => {
                    proof {
                        lemma_trees_push(had, next_atom);
                    }
                    components.push(next_atom);
                },
            }
        }
        if components.len() == 0 {
            Ok(Type::Nil)
        } else {
            Ok(Type::list(components))
        }
    }

    fn parse_atom(&mut self) -> (value: LishpResult<Type>)
        requires
            old(self).lexemes().len() > 0,
            !(old(self).cursor() < old(self).lexemes().len() && old(self).lexemes()[old(
                self,
            ).cursor() as int].text == seq!['(']),
        ensures
            final(self).lexemes() == old(self).lexemes(),
            old(self).cursor() >= old(self).lexemes().len() ==> {
                &&& value == Err::<Type, LishpError>(eof_at(old(self).parens()))
                &&& final(self).cursor() == old(self).cursor()
                &&& final(self).parens() == old(self).parens()
            },
            old(self).cursor() < old(self).lexemes().len() ==> {
                &&& final(self).cursor() == old(self).cursor() + 1
                &&& final(self).parens() == old(self).parens()
            },
            match form_at(old(self).lexemes(), old(self).cursor(), old(self).parens()) {
                Step::Done { tree, next, open } => {
                    &&& value matches Ok(v) && v@ == tree
                    &&& final(self).cursor() == next
                    &&& final(self).parens() == open
                },
                Step::Failed { error, next, open } => {
                    &&& value == Err::<Type, LishpError>(error)
                    &&& final(self).cursor() == next
                    &&& final(self).parens() == open
                },
            },
    {
        if self.position >= self.tokens.len() {
            return Err(self.eof());
        }
        let next_token = self.next().unwrap();
        atom(next_token)
    }

    fn chomp_open_paren(&mut self) -> (token: Option<&Token>)
        ensures
            final(self).lexemes() == old(self).lexemes(),
            old(self).cursor() < old(self).lexemes().len() && old(self).lexemes()[old(
                self,
            ).cursor() as int].text == seq!['('] ==> {
                &&& token matches Some(t) && t@ == old(self).lexemes()[old(self).cursor() as int]
                &&& final(self).cursor() == old(self).cursor() + 1
                &&& final(self).parens() == old(self).parens().push(
                    old(self).lexemes()[old(self).cursor() as int].start as usize,
                )
            },
            !(old(self).cursor() < old(self).lexemes().len() && old(self).lexemes()[old(
                self,
            ).cursor() as int].text == seq!['(']) ==> {
                &&& token is None
                &&& final(self).cursor() == old(self).cursor()
                &&& final(self).parens() == old(self).parens()
            },
    {
        let paren = match self.peek() {
            Some(tok) => if opens(tok) {
                Some(tok.span().start)
            } else {
                None
            },
            None => None,
        };
        match paren {
            Some(start) => {
                self.parens_stack.push(start);
                self.next()
            },
            None => None,
        }
    }

    fn chomp_close_paren(&mut self) -> (token: Option<&Token>)
        ensures
            final(self).lexemes() == old(self).lexemes(),
            old(self).cursor() < old(self).lexemes().len() && old(self).lexemes()[old(
                self,
            ).cursor() as int].text == seq![')'] ==> {
                &&& token matches Some(t) && t@ == old(self).lexemes()[old(self).cursor() as int]
                &&& final(self).cursor() == old(self).cursor() + 1
                &&& final(self).parens() == if old(self).parens().len() > 0 {
                    old(self).parens().drop_last()
                } else {
                    old(self).parens()
                }
            },
            !(old(self).cursor() < old(self).lexemes().len() && old(self).lexemes()[old(
                self,
            ).cursor() as int].text == seq![')']) ==> {
                &&& token is None
                &&& final(self).cursor() == old(self).cursor()
                &&& final(self).parens() == old(self).parens()
            },
    {
        let is_paren = match self.peek() {
            Some(tok) => closes(tok),
            None => false,
        };
        if is_paren {
            let _ = self.parens_stack.pop();
            self.next()
        } else {
            None
        }
    }

    fn eof(&self) -> (error: LishpError)
        ensures
            error == eof_at(self.parens()),
    {
        if self.parens_stack.len() > 0 {
            LishpError::EOF(self.parens_stack[0])
        } else {
            LishpError::EOF(0)
        }
    }
}

/// A form that is read to its end leaves the parentheses open that were
/// open before it.
pub proof fn lemma_form_keeps_parens(toks: Seq<Lexeme>, at: nat, open: Seq<usize>)
    ensures
        form_at(toks, at, open) matches Step::Done { open: after, .. } ==> after == open,
    decreases toks.len() - at, 0nat,
{
    if toks.len() > 0 && at < toks.len() && toks[at as int].text == seq!['('] {
        let inner = open.push(toks[at as int].start as usize);
        lemma_list_keeps_parens(toks, at + 1, inner, Seq::empty());
        assert(inner.drop_last() == open);
    }
}

proof fn lemma_list_keeps_parens(toks: Seq<Lexeme>, at: nat, open: Seq<usize>, items: Seq<Tree>)
    requires
        open.len() > 0,
    ensures
        list_at(toks, at, open, items) matches Step::Done { open: after, .. } ==> after
            == open.drop_last(),
    decreases toks.len() - at, 1nat,
{
    if at < toks.len() && toks[at as int].text == seq![')'] {
    } else {
        lemma_form_keeps_parens(toks, at, open);
        match form_at(toks, at, open) {
            Step::Failed { .. } => {},
            Step::Done { tree, next, open: still_open } => {
                if at < next <= toks.len() {
                    lemma_list_keeps_parens(toks, next, still_open, items.push(tree));
                }
            },
        }
    }
}

/// The number of tokens among the `from`-th to the `to`-th of `toks`, the
/// last not counted, whose text is `text`.
pub open spec fn count(toks: Seq<Lexeme>, text: Seq<char>, from: int, to: int) -> nat
    decreases to - from,
{
    if from >= to {
        0
    } else if toks[from].text == text {
        1 + count(toks, text, from + 1, to)
    } else {
        count(toks, text, from + 1, to)
    }
}

/// A count over a range is the sum of the counts over its two parts.
pub proof fn lemma_count_split(toks: Seq<Lexeme>, text: Seq<char>, from: int, mid: int, to: int)
    requires
        from <= mid <= to,
    ensures
        count(toks, text, from, to) == count(toks, text, from, mid) + count(toks, text, mid, to),
    decreases mid - from,
{
    if from < mid {
        lemma_count_split(toks, text, from + 1, mid, to);
    }
}

proof fn lemma_form_is_balanced(toks: Seq<Lexeme>, at: nat, open: Seq<usize>)
    requires
        toks.len() > 0,
    ensures
        form_at(toks, at, open) matches Step::Done { next, .. } ==> count(
            toks,
            seq!['('],
            at as int,
            next as int,
        ) == count(toks, seq![')'], at as int, next as int),
    decreases toks.len() - at, 0nat,
{
    if at < toks.len() {
        reveal_with_fuel(count, 2);
        if toks[at as int].text == seq!['('] {
            assert(seq!['('] != seq![')']) by {
                assert(seq!['('][0] != seq![')'][0]);
            }
            lemma_list_is_balanced(
                toks,
                at + 1,
                open.push(toks[at as int].start as usize),
                Seq::empty(),
            );
        }
    }
}

proof fn lemma_list_is_balanced(toks: Seq<Lexeme>, at: nat, open: Seq<usize>, items: Seq<Tree>)
    requires
        toks.len() > 0,
    ensures
        list_at(toks, at, open, items) matches Step::Done { next, .. } ==> count(
            toks,
            seq![')'],
            at as int,
            next as int,
        ) == count(toks, seq!['('], at as int, next as int) + 1,
    decreases toks.len() - at, 1nat,
{
    if at < toks.len() && toks[at as int].text == seq![')'] {
        reveal_with_fuel(count, 2);
        assert(seq!['('] != seq![')']) by {
            assert(seq!['('][0] != seq![')'][0]);
        }
    } else {
        lemma_form_is_balanced(toks, at, open);
        match form_at(toks, at, open) {
            Step::Failed { .. } => {},
            Step::Done { tree, next, open: still_open } => {
                if at < next <= toks.len() {
                    lemma_list_is_balanced(toks, next, still_open, items.push(tree));
                    match list_at(toks, next, still_open, items.push(tree)) {
                        Step::Failed { .. } => {},
                        Step::Done { next: end, .. } => {
                            lemma_rules_advance(toks, next, still_open, items.push(tree));
                            lemma_count_split(toks, seq!['('], at as int, next as int, end as int);
                            lemma_count_split(toks, seq![')'], at as int, next as int, end as int);
                        },
                    }
                }
            },
        }
    }
}

proof fn lemma_form_prefix(toks: Seq<Lexeme>, at: nat, open: Seq<usize>, k: int)
    requires
        toks.len() > 0,
        form_at(toks, at, open) matches Step::Done { next, .. } && at <= k <= next,
    ensures
        count(toks, seq![')'], at as int, k) <= count(toks, seq!['('], at as int, k),
    decreases toks.len() - at, 0nat,
{
    reveal_with_fuel(count, 2);
    assert(seq!['('] != seq![')']) by {
        assert(seq!['('][0] != seq![')'][0]);
    }
    if k > at {
        if toks[at as int].text == seq!['('] {
            let inside = open.push(toks[at as int].start as usize);
            let next = form_at(toks, at, open)->Done_next;
            if k < next {
                lemma_list_prefix(toks, at + 1, inside, Seq::empty(), k);
            } else {
                lemma_form_is_balanced(toks, at, open);
            }
        }
    }
}

proof fn lemma_list_prefix(
    toks: Seq<Lexeme>,
    at: nat,
    open: Seq<usize>,
    items: Seq<Tree>,
    k: int,
)
    requires
        toks.len() > 0,
        list_at(toks, at, open, items) matches Step::Done { next, .. } && at <= k < next,
    ensures
        count(toks, seq![')'], at as int, k) <= count(toks, seq!['('], at as int, k),
    decreases toks.len() - at, 1nat,
{
    if at < toks.len() && toks[at as int].text == seq![')'] {
    } else {
        match form_at(toks, at, open) {
            Step::Failed { .. } => {},
            Step::Done { tree, next, open: still_open } => {
                if k <= next {
                    lemma_form_prefix(toks, at, open, k);
                } else {
                    lemma_form_is_balanced(toks, at, open);
                    lemma_list_prefix(toks, next, still_open, items.push(tree), k);
                    lemma_count_split(toks, seq!['('], at as int, next as int, k);
                    lemma_count_split(toks, seq![')'], at as int, next as int, k);
                }
            },
        }
    }
}

/// The parentheses of tokens that the parser accepts are balanced: as many
/// tokens open a list as close one; among the tokens up to any place, no
/// more close a list than open one; and no parenthesis is open at the end.
pub proof fn lemma_accepted_is_balanced(toks: Seq<Lexeme>)
    requires
        parse_tokens(toks) is Ok,
    ensures
        count(toks, seq!['('], 0, toks.len() as int) == count(
            toks,
            seq![')'],
            0,
            toks.len() as int,
        ),
        forall|k: int|
            0 <= k <= toks.len() ==> #[trigger] count(toks, seq![')'], 0, k) <= count(
                toks,
                seq!['('],
                0,
                k,
            ),
        form_at(toks, 0, Seq::empty()) matches Step::Done { next, open, .. } && next == toks.len()
            && open == Seq::<usize>::empty(),
{
    lemma_form_keeps_parens(toks, 0, Seq::empty());
    if toks.len() > 0 {
        lemma_form_is_balanced(toks, 0, Seq::empty());
        assert forall|k: int| 0 <= k <= toks.len() implies #[trigger] count(
            toks,
            seq![')'],
            0,
            k,
        ) <= count(toks, seq!['('], 0, k) by {
            lemma_form_prefix(toks, 0, Seq::empty(), k);
        }
    } else {
        assert forall|k: int| 0 <= k <= toks.len() implies #[trigger] count(
            toks,
            seq![')'],
            0,
            k,
        ) <= count(toks, seq!['('], 0, k) by {}
    }
}

/// A pair of parentheses with nothing between them is nothing: the rule for
/// a form reads the two tokens as `Nil`, wherever they stand.
pub proof fn lemma_empty_list_is_nil(toks: Seq<Lexeme>, at: nat, open: Seq<usize>)
    requires
        at + 1 < toks.len(),
        toks[at as int].text == seq!['('],
        toks[at as int + 1].text == seq![')'],
    ensures
        form_at(toks, at, open) == (Step::Done { tree: Tree::Nil, next: at + 2, open: open }),
{
    let inside = open.push(toks[at as int].start as usize);
    assert(inside.drop_last() == open);
}

proof fn lemma_eof_in_form(toks: Seq<Lexeme>, at: nat, open: Seq<usize>)
    requires
        open.len() > 0,
    ensures
        form_at(toks, at, open) matches Step::Failed { error: LishpError::EOF(place), .. } ==> place == open[0],
    decreases toks.len() - at, 0nat,
{
    if toks.len() > 0 && at < toks.len() && toks[at as int].text == seq!['('] {
        lemma_eof_in_list(toks, at + 1, open.push(toks[at as int].start as usize), Seq::empty());
    }
}

proof fn lemma_eof_in_list(toks: Seq<Lexeme>, at: nat, open: Seq<usize>, items: Seq<Tree>)
    requires
        open.len() > 0,
    ensures
        list_at(toks, at, open, items) matches Step::Failed { error: LishpError::EOF(place), .. } ==> place
            == open[0],
    decreases toks.len() - at, 1nat,
{
    if at < toks.len() && toks[at as int].text == seq![')'] {
    } else {
        lemma_eof_in_form(toks, at, open);
        lemma_form_keeps_parens(toks, at, open);
        match form_at(toks, at, open) {
            Step::Failed { .. } => {},
            Step::Done { tree, next, open: still_open } => {
                if at < next <= toks.len() {
                    lemma_eof_in_list(toks, next, still_open, items.push(tree));
                }
            },
        }
    }
}

/// Where the tokens end inside a list, the error names the outermost
/// parenthesis that is open, which is the first token, however deep the
/// parser stands in lists by then.
pub proof fn lemma_eof_names_outermost(toks: Seq<Lexeme>)
    ensures
        form_at(toks, 0, Seq::empty()) matches Step::Failed { error: LishpError::EOF(place), .. } ==> toks.len()
            > 0 && toks[0].text == seq!['('] && place == toks[0].start as usize,
{
    if toks.len() > 0 && toks[0].text == seq!['('] {
        lemma_eof_in_list(toks, 1, Seq::<usize>::empty().push(toks[0].start as usize), Seq::empty());
    }
}

/// Whether `tree` holds no list without items, at whatever depth.
pub open spec fn has_no_empty_list(tree: Tree) -> bool
    decreases tree,
{
    match tree {
        Tree::List(items) => items.len() > 0 && forall|i: int|
            0 <= i < items.len() ==> has_no_empty_list(#[trigger] items[i]),
        _ => true,
    }
}

proof fn lemma_form_has_no_empty_list(toks: Seq<Lexeme>, at: nat, open: Seq<usize>)
    ensures
        form_at(toks, at, open) matches Step::Done { tree, .. } ==> has_no_empty_list(tree),
    decreases toks.len() - at, 0nat,
{
    if toks.len() > 0 && at < toks.len() && toks[at as int].text == seq!['('] {
        lemma_list_has_no_empty_list(
            toks,
            at + 1,
            open.push(toks[at as int].start as usize),
            Seq::empty(),
        );
    }
}

proof fn lemma_list_has_no_empty_list(
    toks: Seq<Lexeme>,
    at: nat,
    open: Seq<usize>,
    items: Seq<Tree>,
)
    requires
        forall|i: int| 0 <= i < items.len() ==> has_no_empty_list(#[trigger] items[i]),
    ensures
        list_at(toks, at, open, items) matches Step::Done { tree, .. } ==> has_no_empty_list(tree),
    decreases toks.len() - at, 1nat,
{
    if at < toks.len() && toks[at as int].text == seq![')'] {
    } else {
        lemma_form_has_no_empty_list(toks, at, open);
        match form_at(toks, at, open) {
            Step::Failed { .. } => {},
            Step::Done { tree, next, open: still_open } => {
                if at < next <= toks.len() {
                    let more = items.push(tree);
                    assert forall|i: int| 0 <= i < more.len() implies has_no_empty_list(
                        #[trigger] more[i],
                    ) by {
                        if i < items.len() {
                            assert(more[i] == items[i]);
                        }
                    }
                    lemma_list_has_no_empty_list(toks, next, still_open, more);
                }
            },
        }
    }
}

/// The parser never gives a list without items: a pair of parentheses with
/// nothing between them is nothing, wherever it stands.
pub proof fn lemma_no_empty_list(toks: Seq<Lexeme>)
    ensures
        parse_tokens(toks) matches Ok(tree) ==> has_no_empty_list(tree),
{
    lemma_form_has_no_empty_list(toks, 0, Seq::empty());
}

} // verus!
