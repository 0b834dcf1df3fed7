//! The grammar of the expression language.
//!
//! - **Numbers**: `10`, `2.5`.
//! - **Stat references**: dotted identifiers (`Damage.base`). Optionally
//!   prefixed with a *source* (`wielder@Strength`) naming a cross-entity link
//!   or an effect role, and/or suffixed with a *tag filter*
//!   (`Damage.added{fire, sword}`) of registry tag names.
//! - **Arithmetic**: `+ - * / % ^` (`^` is power, right-associative), unary `-`.
//! - **Comparison**: `< <= > >= == !=`.
//! - **Logical**: `&& || !`.
//! - **Functions**: `min`, `max` (2+ args), `abs`, `floor`, `ceil`, `round`,
//!   `sqrt` (1 arg), `clamp(x, lo, hi)`.

use crate::error::{FaultKind, ParseError, ParseErrorKind, SyntaxFault};
use crate::lexer::{lemma_lexed_places, lex, lexed, placed, token_text, Placed, Symbol, Tok, Token};
use crate::tree::{arity_text, formulas, func_name, func_named, takes, BinaryOp, Formula, Func, Tree, UnaryOp};
use vstd::prelude::*;
use vstd::utf8::encode_utf8;

verus! {

/// A reference to a stat inside an expression, e.g. `wielder@Damage.added{fire}`.
#[derive(Clone, Debug, PartialEq)]
pub struct StatRef {
    /// The named source this stat is read from: a cross-entity link name (for
    /// stored modifiers) or an effect role (for instant effects). `None`
    /// means the entity owning the expression.
    pub source: Option<String>,
    /// The dotted stat name.
    pub stat: String,
    /// Tag filter names, if the reference was written with `{...}`. `None`
    /// means the reference inherits the tags of the enclosing query.
    pub tags: Option<Vec<String>>,
}

/// What a [`StatRef`] says.
pub struct Reference {
    pub source: Option<Seq<char>>,
    pub stat: Seq<char>,
    pub tags: Option<Seq<Seq<char>>>,
}

/// What a list of names says.
pub open spec fn names(list: Seq<String>) -> Seq<Seq<char>> {
    list.map_values(|s: String| s@)
}

/// What an optional name says.
pub open spec fn maybe_name(name: Option<String>) -> Option<Seq<char>> {
    match name {
        Some(s) => Some(s@),
        None => None,
    }
}

impl View for StatRef {
    type V = Reference;

    open spec fn view(&self) -> Reference {
        Reference {
            source: maybe_name(self.source),
            stat: self.stat@,
            tags: match self.tags {
                Some(list) => Some(names(list@)),
                None => None,
            },
        }
    }
}

/// A parsed expression tree.
pub type Expr = Tree<String, StatRef>;

/// What a parsed expression tree says.
pub type Term = Formula<Seq<char>, Reference>;

/// What parsing from a position gives: a value and the position after it, or
/// a fault and the position it is found at.
pub enum Parse<T> {
    Done(T, int),
    Fail(FaultKind, int),
}

/// The token at a position.
pub open spec fn tok(ts: Seq<Placed>, p: int) -> Option<Token> {
    if 0 <= p < ts.len() {
        Some(ts[p].0)
    } else {
        None
    }
}

/// Whether the token at a position is the symbol `s`.
pub open spec fn sym(ts: Seq<Placed>, p: int, s: Symbol) -> bool {
    tok(ts, p) == Some(Token::Sym(s))
}

/// The fault of a position where the token there, if any, does not fit.
pub open spec fn misfit(ts: Seq<Placed>, p: int) -> FaultKind {
    match tok(ts, p) {
        Some(t) => FaultKind::UnexpectedToken(token_text(t)),
        None => FaultKind::UnexpectedEnd,
    }
}

/// The infix operator of a symbol, how strongly it binds, and whether it
/// associates to the right.
pub open spec fn infix(s: Symbol) -> Option<(BinaryOp, int, bool)> {
    match s {
        Symbol::OrOr => Some((BinaryOp::Or, 1, false)),
        Symbol::AndAnd => Some((BinaryOp::And, 2, false)),
        Symbol::EqEq => Some((BinaryOp::Eq, 3, false)),
        Symbol::Ne => Some((BinaryOp::Ne, 3, false)),
        Symbol::Lt => Some((BinaryOp::Lt, 4, false)),
        Symbol::Le => Some((BinaryOp::Le, 4, false)),
        Symbol::Gt => Some((BinaryOp::Gt, 4, false)),
        Symbol::Ge => Some((BinaryOp::Ge, 4, false)),
        Symbol::Plus => Some((BinaryOp::Add, 5, false)),
        Symbol::Minus => Some((BinaryOp::Sub, 5, false)),
        Symbol::Star => Some((BinaryOp::Mul, 6, false)),
        Symbol::Slash => Some((BinaryOp::Div, 6, false)),
        Symbol::Percent => Some((BinaryOp::Rem, 6, false)),
        Symbol::Caret => Some((BinaryOp::Pow, 8, true)),
        _ => None,
    }
}

/// The infix operator at a position, if it binds at least as strongly as
/// `least`, and the strength its right operand has to bind with.
pub open spec fn infix_at(ts: Seq<Placed>, p: int, least: int) -> Option<(BinaryOp, int)> {
    match tok(ts, p) {
        Some(Token::Sym(s)) => match infix(s) {
            Some((op, power, right)) => if power >= least {
                Some((op, if right { power } else { power + 1 }))
            } else {
                None
            },
            None => None,
        },
        _ => None,
    }
}

/// How strongly the prefix operators bind.
pub const PREFIX_POWER: u8 = 7;

/// A dotted name, of which `name` has been read.
pub open spec fn dotted(ts: Seq<Placed>, p: int, name: Seq<char>) -> Parse<Seq<char>>
    decreases ts.len() - p,
{
    if sym(ts, p, Symbol::Dot) {
        match tok(ts, p + 1) {
            Some(Token::Ident(segment)) => dotted(ts, p + 2, name.push('.') + segment),
            _ => Parse::Fail(misfit(ts, p + 1), p + 1),
        }
    } else {
        Parse::Done(name, p)
    }
}

/// The inside of a tag filter and its closing brace; `tags` have been read.
pub open spec fn tag_list(ts: Seq<Placed>, p: int, tags: Seq<Seq<char>>) -> Parse<Seq<Seq<char>>>
    decreases ts.len() - p,
{
    match tok(ts, p) {
        Some(Token::Ident(tag)) => if sym(ts, p + 1, Symbol::Comma) || sym(ts, p + 1, Symbol::Pipe) {
            tag_list(ts, p + 2, tags.push(tag))
        } else if sym(ts, p + 1, Symbol::RBrace) {
            Parse::Done(tags.push(tag), p + 2)
        } else {
            Parse::Fail(misfit(ts, p + 1), p + 1)
        },
        _ => if sym(ts, p, Symbol::RBrace) && tags.len() == 0 {
            Parse::Fail(FaultKind::Empty, p)
        } else {
            Parse::Fail(misfit(ts, p), p)
        },
    }
}

/// The tag filter at `p`, if one starts there.
pub open spec fn tag_filter(ts: Seq<Placed>, p: int) -> Parse<Option<Seq<Seq<char>>>> {
    if sym(ts, p, Symbol::LBrace) {
        match tag_list(ts, p + 1, Seq::empty()) {
            Parse::Done(tags, q) => Parse::Done(Some(tags), q),
            Parse::Fail(kind, q) => Parse::Fail(kind, q),
        }
    } else {
        Parse::Done(None, p)
    }
}

/// A stat name and its tag filter, after the source.
pub open spec fn sourced(
    ts: Seq<Placed>,
    p: int,
    source: Option<Seq<char>>,
    stat: Seq<char>,
) -> Parse<Reference> {
    match tag_filter(ts, p) {
        Parse::Done(tags, q) => Parse::Done(Reference { source, stat, tags }, q),
        Parse::Fail(kind, q) => Parse::Fail(kind, q),
    }
}

/// A stat reference, of which the first name has been read.
pub open spec fn reference(ts: Seq<Placed>, p: int, first: Seq<char>) -> Parse<Reference> {
    match dotted(ts, p, first) {
        Parse::Fail(kind, q) => Parse::Fail(kind, q),
        Parse::Done(name, q) => if sym(ts, q, Symbol::At) {
            match tok(ts, q + 1) {
                Some(Token::Ident(segment)) => match dotted(ts, q + 2, segment) {
                    Parse::Fail(kind, r) => Parse::Fail(kind, r),
                    Parse::Done(stat, r) => sourced(ts, r, Some(name), stat),
                },
                _ => Parse::Fail(misfit(ts, q + 1), q + 1),
            }
        } else {
            sourced(ts, q, None, name)
        },
    }
}

/// Whether parsing has gone on from `p` to `q` within the source. It always
/// has: see [`lemma_progress`].
pub open spec fn onward(ts: Seq<Placed>, p: int, q: int) -> bool {
    p < q <= ts.len()
}

/// An expression whose infix operators bind at least as strongly as `least`.
pub open spec fn expression(ts: Seq<Placed>, p: int, least: int) -> Parse<Term>
    decreases ts.len() - p, 3int,
{
    match prefixed(ts, p) {
        Parse::Done(lhs, q) if onward(ts, p, q) => infixes(ts, q, least, lhs),
        failed => failed,
    }
}

/// The infix operators after the operand `lhs` that bind at least as strongly
/// as `least`, each with its right operand.
pub open spec fn infixes(ts: Seq<Placed>, p: int, least: int, lhs: Term) -> Parse<Term>
    decreases ts.len() - p, 0int,
{
    match infix_at(ts, p, least) {
        Some((op, power)) => match expression(ts, p + 1, power) {
            Parse::Done(rhs, q) if onward(ts, p, q) => infixes(
                ts,
                q,
                least,
                Formula::Binary(op, Box::new(lhs), Box::new(rhs)),
            ),
            failed => failed,
        },
        None => Parse::Done(lhs, p),
    }
}

/// An operand with its prefix operators.
pub open spec fn prefixed(ts: Seq<Placed>, p: int) -> Parse<Term>
    decreases ts.len() - p, 2int,
{
    if sym(ts, p, Symbol::Minus) {
        match expression(ts, p + 1, PREFIX_POWER as int) {
            Parse::Done(e, q) => Parse::Done(Formula::Unary(UnaryOp::Neg, Box::new(e)), q),
            failed => failed,
        }
    } else if sym(ts, p, Symbol::Bang) {
        match expression(ts, p + 1, PREFIX_POWER as int) {
            Parse::Done(e, q) => Parse::Done(Formula::Unary(UnaryOp::Not, Box::new(e)), q),
            failed => failed,
        }
    } else {
        primary(ts, p)
    }
}

/// A number, a parenthesised expression, a call or a stat reference.
pub open spec fn primary(ts: Seq<Placed>, p: int) -> Parse<Term>
    decreases ts.len() - p, 1int,
{
    match tok(ts, p) {
        Some(Token::Num(text)) => Parse::Done(Formula::Num(text), p + 1),
        Some(Token::Ident(first)) => if sym(ts, p + 1, Symbol::LParen) {
            match func_named(first) {
                Some(f) => call(ts, p, f),
                None => Parse::Fail(FaultKind::UnknownFunction(first), p),
            }
        } else {
            match reference(ts, p + 1, first) {
                Parse::Done(r, q) => Parse::Done(Formula::Stat(r), q),
                Parse::Fail(kind, q) => Parse::Fail(kind, q),
            }
        },
        _ => if sym(ts, p, Symbol::LParen) {
            match expression(ts, p + 1, 0) {
                Parse::Done(e, q) => if sym(ts, q, Symbol::RParen) {
                    Parse::Done(e, q + 1)
                } else {
                    Parse::Fail(misfit(ts, q), q)
                },
                failed => failed,
            }
        } else {
            Parse::Fail(misfit(ts, p), p)
        },
    }
}

/// A call of `f`, whose name stands at `p`.
pub open spec fn call(ts: Seq<Placed>, p: int, f: Func) -> Parse<Term>
    decreases ts.len() - p, 0int,
{
    let parsed = if 0 <= p && p + 2 <= ts.len() && !sym(ts, p + 2, Symbol::RParen) {
        arguments(ts, p + 2, Seq::empty())
    } else {
        Parse::Done(Seq::empty(), p + 2)
    };
    match parsed {
        Parse::Done(args, q) => if !sym(ts, q, Symbol::RParen) {
            Parse::Fail(misfit(ts, q), q)
        } else if !takes(f, args.len() as int) {
            Parse::Fail(FaultKind::WrongArity(func_name(f), arity_text(f), args.len() as int), p)
        } else {
            Parse::Done(Formula::Call(f, args), q + 1)
        },
        Parse::Fail(kind, q) => Parse::Fail(kind, q),
    }
}

/// The arguments of a call, separated by commas; `args` have been read.
pub open spec fn arguments(ts: Seq<Placed>, p: int, args: Seq<Term>) -> Parse<Seq<Term>>
    decreases ts.len() - p, 4int,
{
    match expression(ts, p, 0) {
        Parse::Done(e, q) if onward(ts, p, q) => if sym(ts, q, Symbol::Comma) {
            arguments(ts, q + 1, args.push(e))
        } else {
            Parse::Done(args.push(e), q)
        },
        Parse::Done(e, q) => Parse::Fail(misfit(ts, q), q),
        Parse::Fail(kind, q) => Parse::Fail(kind, q),
    }
}

/// The byte offset of a position.
pub open spec fn offset_at(ts: Seq<Placed>, p: int, end: int) -> int {
    if 0 <= p < ts.len() {
        ts[p].1
    } else {
        end
    }
}

/// The value of a parse that has to use up the source `src`.
pub open spec fn whole<T>(src: Seq<char>, ts: Seq<Placed>, parse: Parse<T>) -> Result<T, SyntaxFault> {
    let end = encode_utf8(src).len() as int;
    match parse {
        Parse::Fail(kind, p) => Err(SyntaxFault { kind, offset: offset_at(ts, p, end), src }),
        Parse::Done(value, p) => if p < ts.len() {
            Err(SyntaxFault { kind: FaultKind::TrailingInput, offset: offset_at(ts, p, end), src })
        } else {
            Ok(value)
        },
    }
}

/// The expression that a source text says, or the fault found in it.
pub open spec fn parsed(src: Seq<char>) -> Result<Term, SyntaxFault> {
    match lexed(encode_utf8(src), 0) {
        Err((kind, offset)) => Err(SyntaxFault { kind, offset, src }),
        Ok(ts) => if ts.len() == 0 {
            whole(src, ts, Parse::Fail(FaultKind::Empty, 0))
        } else {
            whole(src, ts, expression(ts, 0, 0))
        },
    }
}

/// A stat name and a tag filter.
pub open spec fn stat_path(ts: Seq<Placed>) -> Parse<(Seq<char>, Seq<Seq<char>>)> {
    match tok(ts, 0) {
        None => Parse::Fail(FaultKind::Empty, 0),
        Some(Token::Ident(first)) => match dotted(ts, 1, first) {
            Parse::Fail(kind, p) => Parse::Fail(kind, p),
            Parse::Done(name, p) => match tag_filter(ts, p) {
                Parse::Fail(kind, q) => Parse::Fail(kind, q),
                Parse::Done(None, q) => Parse::Done((name, Seq::empty()), q),
                Parse::Done(Some(tags), q) => Parse::Done((name, tags), q),
            },
        },
        Some(_) => Parse::Fail(misfit(ts, 0), 0),
    }
}

/// The stat name and the tag names that a path such as
/// `Damage.added{fire, sword}` says, or the fault found in it.
pub open spec fn path_parsed(path: Seq<char>) -> Result<(Seq<char>, Seq<Seq<char>>), SyntaxFault> {
    match lexed(encode_utf8(path), 0) {
        Err((kind, offset)) => Err(SyntaxFault { kind, offset, src: path }),
        Ok(ts) => whole(path, ts, stat_path(ts)),
    }
}

/// A dotted name stays within the source.
pub proof fn lemma_dotted(ts: Seq<Placed>, p: int, name: Seq<char>)
    requires
        0 <= p <= ts.len(),
    ensures
        match dotted(ts, p, name) {
            Parse::Done(_, q) => p <= q <= ts.len(),
            Parse::Fail(_, q) => 0 <= q <= ts.len(),
        },
    decreases ts.len() - p,
{
    if sym(ts, p, Symbol::Dot) {
        match tok(ts, p + 1) {
            Some(Token::Ident(segment)) => lemma_dotted(ts, p + 2, name.push('.') + segment),
            _ => {},
        }
    }
}

proof fn lemma_tag_list(ts: Seq<Placed>, p: int, tags: Seq<Seq<char>>)
    requires
        0 <= p <= ts.len(),
    ensures
        match tag_list(ts, p, tags) {
            Parse::Done(list, q) => p <= q <= ts.len() && list.len() > 0,
            Parse::Fail(_, q) => 0 <= q <= ts.len(),
        },
    decreases ts.len() - p,
{
    match tok(ts, p) {
        Some(Token::Ident(tag)) => {
            if sym(ts, p + 1, Symbol::Comma) || sym(ts, p + 1, Symbol::Pipe) {
                lemma_tag_list(ts, p + 2, tags.push(tag));
            }
        },
        _ => {},
    }
}

proof fn lemma_reference(ts: Seq<Placed>, p: int, first: Seq<char>)
    requires
        0 <= p <= ts.len(),
    ensures
        match reference(ts, p, first) {
            Parse::Done(_, q) => p <= q <= ts.len(),
            Parse::Fail(_, q) => 0 <= q <= ts.len(),
        },
{
    lemma_dotted(ts, p, first);
    match dotted(ts, p, first) {
        Parse::Fail(_, _) => {},
        Parse::Done(_, q) => {
            if sym(ts, q, Symbol::At) {
                match tok(ts, q + 1) {
                    Some(Token::Ident(segment)) => {
                        lemma_dotted(ts, q + 2, segment);
                        match dotted(ts, q + 2, segment) {
                            Parse::Done(_, r) => {
                                if sym(ts, r, Symbol::LBrace) {
                                    lemma_tag_list(ts, r + 1, Seq::empty());
                                }
                            },
                            _ => {},
                        }
                    },
                    _ => {},
                }
            } else if sym(ts, q, Symbol::LBrace) {
                lemma_tag_list(ts, q + 1, Seq::empty());
            }
        },
    }
}

/// Parsing an expression uses up at least one token and stays within the
/// source.
pub proof fn lemma_progress(ts: Seq<Placed>, p: int, least: int)
    requires
        0 <= p <= ts.len(),
    ensures
        match expression(ts, p, least) {
            Parse::Done(_, q) => onward(ts, p, q),
            Parse::Fail(_, q) => 0 <= q <= ts.len(),
        },
    decreases ts.len() - p, 3int,
{
    lemma_prefixed(ts, p);
    match prefixed(ts, p) {
        Parse::Done(lhs, q) => lemma_infixes(ts, q, least, lhs),
        _ => {},
    }
}

proof fn lemma_infixes(ts: Seq<Placed>, p: int, least: int, lhs: Term)
    requires
        0 <= p <= ts.len(),
    ensures
        match infixes(ts, p, least, lhs) {
            Parse::Done(_, q) => p <= q <= ts.len(),
            Parse::Fail(_, q) => 0 <= q <= ts.len(),
        },
    decreases ts.len() - p, 0int,
{
    match infix_at(ts, p, least) {
        Some((op, power)) => {
            lemma_progress(ts, p + 1, power);
            match expression(ts, p + 1, power) {
                Parse::Done(rhs, q) => {
                    lemma_infixes(ts, q, least, Formula::Binary(op, Box::new(lhs), Box::new(rhs)));
                },
                _ => {},
            }
        },
        None => {},
    }
}

/// An operand uses up at least one token and stays within the source.
pub proof fn lemma_prefixed(ts: Seq<Placed>, p: int)
    requires
        0 <= p <= ts.len(),
    ensures
        match prefixed(ts, p) {
            Parse::Done(_, q) => onward(ts, p, q),
            Parse::Fail(_, q) => 0 <= q <= ts.len(),
        },
    decreases ts.len() - p, 2int,
{
    if sym(ts, p, Symbol::Minus) || sym(ts, p, Symbol::Bang) {
        lemma_progress(ts, p + 1, PREFIX_POWER as int);
    } else {
        lemma_primary(ts, p);
    }
}

proof fn lemma_primary(ts: Seq<Placed>, p: int)
    requires
        0 <= p <= ts.len(),
    ensures
        match primary(ts, p) {
            Parse::Done(_, q) => onward(ts, p, q),
            Parse::Fail(_, q) => 0 <= q <= ts.len(),
        },
    decreases ts.len() - p, 1int,
{
    match tok(ts, p) {
        Some(Token::Num(_)) => {},
        Some(Token::Ident(first)) => {
            if sym(ts, p + 1, Symbol::LParen) {
                if !sym(ts, p + 2, Symbol::RParen) {
                    lemma_arguments(ts, p + 2, Seq::empty());
                }
            } else {
                lemma_reference(ts, p + 1, first);
            }
        },
        _ => {
            if sym(ts, p, Symbol::LParen) {
                lemma_progress(ts, p + 1, 0);
            }
        },
    }
}

/// Arguments stay within the source.
pub proof fn lemma_arguments(ts: Seq<Placed>, p: int, args: Seq<Term>)
    requires
        0 <= p <= ts.len(),
    ensures
        match arguments(ts, p, args) {
            Parse::Done(_, q) => p <= q <= ts.len(),
            Parse::Fail(_, q) => 0 <= q <= ts.len(),
        },
    decreases ts.len() - p, 4int,
{
    lemma_progress(ts, p, 0);
    match expression(ts, p, 0) {
        Parse::Done(e, q) => {
            if sym(ts, q, Symbol::Comma) {
                lemma_arguments(ts, q + 1, args.push(e));
            }
        },
        _ => {},
    }
}

/// A value and the position after it, or an error kind and its position.
type Parsing<T> = Result<(T, usize), (ParseErrorKind, usize)>;

/// What an exec parse of values with a view says.
spec fn parsing<T: View>(r: Parsing<T>) -> Parse<T::V> {
    match r {
        Ok((value, p)) => Parse::Done(value@, p as int),
        Err((kind, p)) => Parse::Fail(kind@, p as int),
    }
}

spec fn parsing_tree(r: Parsing<Expr>) -> Parse<Term> {
    match r {
        Ok((tree, p)) => Parse::Done(tree@, p as int),
        Err((kind, p)) => Parse::Fail(kind@, p as int),
    }
}

spec fn parsing_names(r: Parsing<Vec<String>>) -> Parse<Seq<Seq<char>>> {
    match r {
        Ok((list, p)) => Parse::Done(names(list@), p as int),
        Err((kind, p)) => Parse::Fail(kind@, p as int),
    }
}

fn has_sym(tokens: &Vec<(Tok, usize)>, pos: usize, s: Symbol) -> (r: bool)
    ensures
        r == sym(placed(tokens@), pos as int, s),
        r ==> pos < tokens@.len(),
        tokens@.len() <= usize::MAX,
{
    if pos < tokens.len() {
        assert(placed(tokens@)[pos as int].0 == tokens@[pos as int].0@);
        tokens[pos].0.is(s)
    } else {
        false
    }
}

/// The error kind of a position where the token does not fit.
fn misfit_at(tokens: &Vec<(Tok, usize)>, pos: usize) -> (kind: ParseErrorKind)
    ensures
        kind@ == misfit(placed(tokens@), pos as int),
{
    if pos < tokens.len() {
        assert(placed(tokens@)[pos as int].0 == tokens@[pos as int].0@);
        ParseErrorKind::UnexpectedToken(tokens[pos].0.describe())
    } else {
        ParseErrorKind::UnexpectedEnd
    }
}

/// The name at a position, if there is one.
fn name_at(tokens: &Vec<(Tok, usize)>, pos: usize) -> (name: Option<&String>)
    ensures
        match name {
            Some(s) => pos < tokens@.len() && tok(placed(tokens@), pos as int) == Some(Token::Ident(s@)),
            None => tok(placed(tokens@), pos as int) matches Some(t) ==> !(t is Ident),
        },
        tokens@.len() <= usize::MAX,
{
    if pos < tokens.len() {
        assert(placed(tokens@)[pos as int].0 == tokens@[pos as int].0@);
        match &tokens[pos].0 {
            Tok::Ident(s) => Some(s),
            _ => None,
        }
    } else {
        None
    }
}

/// The infix operator at a position, how strongly it binds, and whether it
/// associates to the right.
fn binary_precedence(tok: &Tok) -> (r: Option<(BinaryOp, u8, bool)>)
    ensures
        match tok@ {
            Token::Sym(s) => match r {
                Some((op, power, right)) => infix(s) == Some((op, power as int, right)) && 1 <= power <= 8,
                None => infix(s) is None,
            },
            _ => r is None,
        },
{
    match tok {
        Tok::Sym(s) => match s {
            Symbol::OrOr => Some((BinaryOp::Or, 1, false)),
            Symbol::AndAnd => Some((BinaryOp::And, 2, false)),
            Symbol::EqEq => Some((BinaryOp::Eq, 3, false)),
            Symbol::Ne => Some((BinaryOp::Ne, 3, false)),
            Symbol::Lt => Some((BinaryOp::Lt, 4, false)),
            Symbol::Le => Some((BinaryOp::Le, 4, false)),
            Symbol::Gt => Some((BinaryOp::Gt, 4, false)),
            Symbol::Ge => Some((BinaryOp::Ge, 4, false)),
            Symbol::Plus => Some((BinaryOp::Add, 5, false)),
            Symbol::Minus => Some((BinaryOp::Sub, 5, false)),
            Symbol::Star => Some((BinaryOp::Mul, 6, false)),
            Symbol::Slash => Some((BinaryOp::Div, 6, false)),
            Symbol::Percent => Some((BinaryOp::Rem, 6, false)),
            Symbol::Caret => Some((BinaryOp::Pow, 8, true)),
            _ => None,
        },
        _ => None,
    }
}

/// Continues a dotted name after its first segment.
fn parse_dotted(tokens: &Vec<(Tok, usize)>, start: usize, first: &String) -> (r: Parsing<String>)
    requires
        start <= tokens@.len(),
    ensures
        parsing(r) == dotted(placed(tokens@), start as int, first@),
        r matches Ok((_, p)) ==> start <= p <= tokens@.len(),
        r matches Err((_, p)) ==> p <= tokens@.len(),
{
    let ghost ts = placed(tokens@);
    let mut name = first.clone();
    let mut pos: usize = start;
    while has_sym(tokens, pos, Symbol::Dot)
        invariant
            ts == placed(tokens@),
            start <= pos <= tokens@.len(),
            dotted(ts, start as int, first@) == dotted(ts, pos as int, name@),
        decreases tokens@.len() - pos,
    {
        match name_at(tokens, pos + 1) {
            Some(segment) => {
                name.push('.');
                name.append(segment.as_str());
                pos = pos + 2;
            },
            None => {
                return Err((misfit_at(tokens, pos + 1), pos + 1));
            },
        }
    }
    Ok((name, pos))
}

/// Parses `ident (, ident)* }`, the inside of a tag filter. Accepts `,` or
/// `|` as separators.
fn parse_tag_list(tokens: &Vec<(Tok, usize)>, start: usize) -> (r: Parsing<Vec<String>>)
    requires
        start <= tokens@.len(),
    ensures
        parsing_names(r) == tag_list(placed(tokens@), start as int, Seq::empty()),
        r matches Ok((_, p)) ==> start <= p <= tokens@.len(),
        r matches Err((_, p)) ==> p <= tokens@.len(),
{
    let ghost ts = placed(tokens@);
    let mut tags: Vec<String> = Vec::new();
    let mut pos: usize = start;
    assert(names(tags@) =~= Seq::empty());
    loop
        invariant
            ts == placed(tokens@),
            start <= pos <= tokens@.len(),
            tag_list(ts, start as int, Seq::empty()) == tag_list(ts, pos as int, names(tags@)),
        decreases tokens@.len() - pos,
    {
        match name_at(tokens, pos) {
            Some(name) => {
                let ghost before = names(tags@);
                tags.push(name.clone());
                assert(names(tags@) =~= before.push(name@));
                if has_sym(tokens, pos + 1, Symbol::Comma) || has_sym(tokens, pos + 1, Symbol::Pipe) {
                    pos = pos + 2;
                } else if has_sym(tokens, pos + 1, Symbol::RBrace) {
                    return Ok((tags, pos + 2));
                } else {
                    return Err((misfit_at(tokens, pos + 1), pos + 1));
                }
            },
            None => {
                if has_sym(tokens, pos, Symbol::RBrace) && tags.len() == 0 {
                    return Err((ParseErrorKind::Empty, pos));
                }
                return Err((misfit_at(tokens, pos), pos));
            },
        }
    }
}

/// Parses a stat name's tag filter, if there is one, and puts the reference
/// together.
fn parse_sourced(tokens: &Vec<(Tok, usize)>, pos: usize, source: Option<String>, stat: String) -> (r: Parsing<
    StatRef,
>)
    requires
        pos <= tokens@.len(),
    ensures
        parsing(r) == sourced(placed(tokens@), pos as int, maybe_name(source), stat@),
        r matches Ok((_, p)) ==> pos <= p <= tokens@.len(),
        r matches Err((_, p)) ==> p <= tokens@.len(),
{
    if has_sym(tokens, pos, Symbol::LBrace) {
        match parse_tag_list(tokens, pos + 1) {
            Ok((tags, q)) => Ok((StatRef { source, stat, tags: Some(tags) }, q)),
            Err(e) => Err(e),
        }
    } else {
        Ok((StatRef { source, stat, tags: None }, pos))
    }
}

/// Parses a stat reference, `[source@]dotted.name[{tags}]`, after its first
/// name.
fn parse_reference(tokens: &Vec<(Tok, usize)>, start: usize, first: &String) -> (r: Parsing<StatRef>)
    requires
        start <= tokens@.len(),
    ensures
        parsing(r) == reference(placed(tokens@), start as int, first@),
        r matches Ok((_, p)) ==> start <= p <= tokens@.len(),
        r matches Err((_, p)) ==> p <= tokens@.len(),
{
    match parse_dotted(tokens, start, first) {
        Err(e) => Err(e),
        Ok((name, q)) => {
            if has_sym(tokens, q, Symbol::At) {
                match name_at(tokens, q + 1) {
                    Some(segment) => match parse_dotted(tokens, q + 2, segment) {
                        Err(e) => Err(e),
                        Ok((stat, r)) => parse_sourced(tokens, r, Some(name), stat),
                    },
                    None => Err((misfit_at(tokens, q + 1), q + 1)),
                }
            } else {
                parse_sourced(tokens, q, None, name)
            }
        },
    }
}

/// Parses an expression whose infix operators bind at least as strongly as
/// `min_bp`.
fn parse_expr(tokens: &Vec<(Tok, usize)>, start: usize, min_bp: u8) -> (r: Parsing<Expr>)
    requires
        start <= tokens@.len(),
    ensures
        parsing_tree(r) == expression(placed(tokens@), start as int, min_bp as int),
        r matches Ok((_, p)) ==> start < p <= tokens@.len(),
        r matches Err((_, p)) ==> p <= tokens@.len(),
    decreases tokens@.len() - start, 3int,
{
    let ghost ts = placed(tokens@);
    let (first, after) = match parse_prefix(tokens, start) {
        Ok(parsed) => parsed,
        Err(e) => {
            return Err(e);
        },
    };
    let mut lhs = first;
    let mut pos: usize = after;
    while pos < tokens.len()
        invariant
            ts == placed(tokens@),
            start < pos <= tokens@.len(),
            expression(ts, start as int, min_bp as int) == infixes(ts, pos as int, min_bp as int, lhs@),
        ensures
            start < pos <= tokens@.len(),
            expression(ts, start as int, min_bp as int) == Parse::Done(lhs@, pos as int),
        decreases tokens@.len() - pos,
    {
        assert(ts[pos as int].0 == tokens@[pos as int].0@);
        let (op, bp, right_assoc) = match binary_precedence(&tokens[pos].0) {
            Some(found) => found,
            None => {
                break;
            },
        };
        if bp < min_bp {
            break;
        }
        let next_bp: u8 = if right_assoc {
            bp
        } else {
            bp + 1
        };
        match parse_expr(tokens, pos + 1, next_bp) {
            Ok((rhs, q)) => {
                lhs = Tree::Binary(op, Box::new(lhs), Box::new(rhs));
                pos = q;
            },
            Err(e) => {
                return Err(e);
            },
        }
    }
    Ok((lhs, pos))
}

/// Parses an operand with its prefix operators.
fn parse_prefix(tokens: &Vec<(Tok, usize)>, start: usize) -> (r: Parsing<Expr>)
    requires
        start <= tokens@.len(),
    ensures
        parsing_tree(r) == prefixed(placed(tokens@), start as int),
        r matches Ok((_, p)) ==> start < p <= tokens@.len(),
        r matches Err((_, p)) ==> p <= tokens@.len(),
    decreases tokens@.len() - start, 2int,
{
    if has_sym(tokens, start, Symbol::Minus) {
        match parse_expr(tokens, start + 1, PREFIX_POWER) {
            Ok((e, p)) => Ok((Tree::Unary(UnaryOp::Neg, Box::new(e)), p)),
            Err(e) => Err(e),
        }
    } else if has_sym(tokens, start, Symbol::Bang) {
        match parse_expr(tokens, start + 1, PREFIX_POWER) {
            Ok((e, p)) => Ok((Tree::Unary(UnaryOp::Not, Box::new(e)), p)),
            Err(e) => Err(e),
        }
    } else {
        parse_primary(tokens, start)
    }
}

/// Parses a number, a parenthesised expression, a call or a stat reference.
fn parse_primary(tokens: &Vec<(Tok, usize)>, start: usize) -> (r: Parsing<Expr>)
    requires
        start <= tokens@.len(),
    ensures
        parsing_tree(r) == primary(placed(tokens@), start as int),
        r matches Ok((_, p)) ==> start < p <= tokens@.len(),
        r matches Err((_, p)) ==> p <= tokens@.len(),
    decreases tokens@.len() - start, 1int,
{
    if start >= tokens.len() {
        return Err((misfit_at(tokens, start), start));
    }
    assert(placed(tokens@)[start as int].0 == tokens@[start as int].0@);
    match &tokens[start].0 {
        Tok::Num(text) => Ok((Tree::Num(text.clone()), start + 1)),
        Tok::Ident(first) => {
            if has_sym(tokens, start + 1, Symbol::LParen) {
                match Func::from_name(first.as_str()) {
                    Some(func) => parse_call(tokens, start, func),
                    None => Err((ParseErrorKind::UnknownFunction(first.clone()), start)),
                }
            } else {
                match parse_reference(tokens, start + 1, first) {
                    Ok((r, p)) => Ok((Tree::Stat(r), p)),
                    Err(e) => Err(e),
                }
            }
        },
        Tok::Sym(s) => {
            if *s == Symbol::LParen {
                match parse_expr(tokens, start + 1, 0) {
                    Ok((inner, p)) => {
                        if has_sym(tokens, p, Symbol::RParen) {
                            Ok((inner, p + 1))
                        } else {
                            Err((misfit_at(tokens, p), p))
                        }
                    },
                    Err(e) => Err(e),
                }
            } else {
                Err((misfit_at(tokens, start), start))
            }
        },
    }
}

/// Parses a call of `func`, whose name stands at `start` with a parenthesis
/// after it.
fn parse_call(tokens: &Vec<(Tok, usize)>, start: usize, func: Func) -> (r: Parsing<Expr>)
    requires
        start + 2 <= tokens@.len(),
    ensures
        parsing_tree(r) == call(placed(tokens@), start as int, func),
        r matches Ok((_, p)) ==> start < p <= tokens@.len(),
        r matches Err((_, p)) ==> p <= tokens@.len(),
    decreases tokens@.len() - start, 0int,
{
    let ghost ts = placed(tokens@);
    let mut args: Vec<Expr> = Vec::new();
    let n: usize = tokens.len();
    assert(start + 2 <= n);
    let mut pos: usize = start + 2;
    assert(formulas(args@) =~= Seq::empty());
    if !has_sym(tokens, pos, Symbol::RParen) {
        loop
            invariant_except_break
                arguments(ts, start + 2, Seq::empty()) == arguments(ts, pos as int, formulas(args@)),
            invariant
                ts == placed(tokens@),
                start + 2 <= pos <= tokens@.len(),
                !sym(ts, start + 2, Symbol::RParen),
            ensures
                start + 2 <= pos <= tokens@.len(),
                arguments(ts, start + 2, Seq::empty()) == Parse::Done(formulas(args@), pos as int),
            decreases tokens@.len() - pos,
        {
            match parse_expr(tokens, pos, 0) {
                Ok((e, q)) => {
                    let ghost before = args@;
                    args.push(e);
                    assert(args@.drop_last() =~= before);
                    assert(formulas(args@) == formulas(before).push(e@));
                    if has_sym(tokens, q, Symbol::Comma) {
                        pos = q + 1;
                    } else {
                        pos = q;
                        break;
                    }
                },
                Err(e) => {
                    return Err(e);
                },
            }
        }
    }
    proof {
        crate::tree::lemma_formulas(args@);
    }
    if !has_sym(tokens, pos, Symbol::RParen) {
        return Err((misfit_at(tokens, pos), pos));
    }
    match func.check_arity(args.len()) {
        Ok(_) => Ok((Tree::Call(func, args), pos + 1)),
        Err((function, expected)) => Err(
            (ParseErrorKind::WrongArity { function, expected, found: args.len() }, start),
        ),
    }
}

/// The error of a position in a source text.
fn error_at(src: &str, tokens: &Vec<(Tok, usize)>, kind: ParseErrorKind, pos: usize) -> (e: ParseError)
    ensures
        e@ == (SyntaxFault {
            kind: kind@,
            offset: offset_at(placed(tokens@), pos as int, encode_utf8(src@).len() as int),
            src: src@,
        }),
{
    let offset: usize = if pos < tokens.len() {
        assert(placed(tokens@)[pos as int].1 == tokens@[pos as int].1);
        tokens[pos].1
    } else {
        src.as_bytes().len()
    };
    ParseError { kind, offset, src: src.to_owned() }
}

/// Parses a source text into an expression tree.
pub fn parse_source(src: &str) -> (r: Result<Expr, ParseError>)
    ensures
        match r {
            Ok(tree) => parsed(src@) == Ok::<Term, SyntaxFault>(tree@),
            Err(e) => parsed(src@) == Err::<Term, SyntaxFault>(e@),
        },
{
    let tokens = match lex(src) {
        Ok(tokens) => tokens,
        Err(e) => {
            return Err(e);
        },
    };
    if tokens.len() == 0 {
        return Err(error_at(src, &tokens, ParseErrorKind::Empty, 0));
    }
    match parse_expr(&tokens, 0, 0) {
        Err((kind, pos)) => Err(error_at(src, &tokens, kind, pos)),
        Ok((root, pos)) => {
            if pos < tokens.len() {
                Err(error_at(src, &tokens, ParseErrorKind::TrailingInput, pos))
            } else {
                Ok(root)
            }
        },
    }
}

/// Parses a stat path with an optional tag filter, e.g.
/// `"Damage.added{fire, sword}"` into `("Damage.added", ["fire", "sword"])`.
pub fn parse_stat_path(path: &str) -> (r: Result<(String, Vec<String>), ParseError>)
    ensures
        match r {
            Ok((stat, tags)) => path_parsed(path@) == Ok::<(Seq<char>, Seq<Seq<char>>), SyntaxFault>(
                (stat@, names(tags@)),
            ),
            Err(e) => path_parsed(path@) == Err::<(Seq<char>, Seq<Seq<char>>), SyntaxFault>(e@),
        },
{
    let tokens = match lex(path) {
        Ok(tokens) => tokens,
        Err(e) => {
            return Err(e);
        },
    };
    if tokens.len() == 0 {
        return Err(error_at(path, &tokens, ParseErrorKind::Empty, 0));
    }
    let first = match name_at(&tokens, 0) {
        Some(first) => first,
        None => {
            return Err(error_at(path, &tokens, misfit_at(&tokens, 0), 0));
        },
    };
    let (name, p) = match parse_dotted(&tokens, 1, first) {
        Ok(parsed) => parsed,
        Err((kind, pos)) => {
            return Err(error_at(path, &tokens, kind, pos));
        },
    };
    let (tags, q) = if has_sym(&tokens, p, Symbol::LBrace) {
        match parse_tag_list(&tokens, p + 1) {
            Ok(parsed) => parsed,
            Err((kind, pos)) => {
                return Err(error_at(path, &tokens, kind, pos));
            },
        }
    } else {
        (Vec::new(), p)
    };
    if q < tokens.len() {
        return Err(error_at(path, &tokens, ParseErrorKind::TrailingInput, q));
    }
    assert(names(Seq::empty()) =~= Seq::<Seq<char>>::empty());
    Ok((name, tags))
}

/// A syntax error in an expression tells the source, and an offset in it.
pub proof fn law_expression_errors_are_placed(src: Seq<char>)
    ensures
        parsed(src) matches Err(fault) ==> fault.src == src && 0 <= fault.offset <= encode_utf8(src).len(),
{
    lemma_lexed_places(encode_utf8(src), 0);
}

/// A syntax error in a stat path tells the path, and an offset in it.
pub proof fn law_path_errors_are_placed(path: Seq<char>)
    ensures
        path_parsed(path) matches Err(fault) ==> fault.src == path && 0 <= fault.offset <= encode_utf8(path).len(),
{
    lemma_lexed_places(encode_utf8(path), 0);
}

} // verus!
