//! The expression language.
//!
//! Modifier expressions are plain strings referencing other stats by name:
//!
//! ```text
//! Vitality * 10 + 50
//! Damage.added * (1 + Damage.increased) * Damage.more
//! wielder@Strength / 5
//! Damage.added{fire | sword}
//! min(Agility, 2 * Strength) > 30 && !Cursed
//! clamp(Armor / 100, 0, 0.75)
//! ```
//!
//! The [grammar](crate::parser) says how a source text reads, and the
//! [evaluation rules](crate::eval) what it comes to.

use crate::error::{Fault, StatError, SyntaxFault};
use crate::parser::{maybe_name, parse_source, parsed, Expr, Reference, StatRef, Term};
use crate::scalar::{literal_value, Arithmetic, Scalar};
use crate::tags::{resolved, TagRegistry, TagSet};
use crate::tree::{borrowed, collect_refs, formulas, refs, refs_of, Formula, Tree};
use std::sync::Arc;
use vstd::prelude::*;

verus! {

/// A parsed, validated expression.
///
/// Parsing checks syntax, function names, and arities, and reports typed
/// [`StatError::Parse`] errors. Tag names inside `{...}` filters are resolved
/// against the [`TagRegistry`] later, when the expression is installed as a
/// modifier (or evaluated ad hoc), so a [`StatError::UnknownTag`] surfaces at
/// that point.
#[derive(Debug, PartialEq)]
pub struct Expression {
    src: String,
    root: Arc<Expr>,
}

impl Expression {
    /// The source text the expression was parsed from.
    pub closed spec fn text(&self) -> Seq<char> {
        self.src@
    }

    /// What the expression says.
    pub closed spec fn term(&self) -> Term {
        self.root.view()
    }

    /// Parses an expression from source text.
    pub fn parse(src: &str) -> (r: Result<Expression, StatError>)
        ensures
            match r {
                Ok(e) => parsed(src@) == Ok::<Term, SyntaxFault>(e.term()) && e.text() == src@,
                Err(e) => parsed(src@) matches Err(fault) && e@ == Fault::Parse(fault),
            },
    {
        match parse_source(src) {
            Ok(root) => Ok(Expression { src: src.to_owned(), root: Arc::new(root) }),
            Err(e) => Err(StatError::Parse(e)),
        }
    }

    /// The original source text.
    pub fn source(&self) -> (text: &str)
        ensures
            text@ == self.text(),
    {
        self.src.as_str()
    }

    /// The tree of the expression.
    pub fn root(&self) -> (tree: &Expr)
        ensures
            tree@ == self.term(),
    {
        &self.root
    }

    /// Every stat reference in the expression, from left to right.
    pub fn references(&self) -> (list: Vec<&StatRef>)
        ensures
            borrowed(list@) == refs(self.term()),
    {
        let mut out: Vec<&StatRef> = Vec::new();
        assert(borrowed(out@) =~= Seq::empty());
        collect_refs(&*self.root, &mut out);
        assert(borrowed(out@) =~= refs(self.term()));
        out
    }
}

impl Clone for Expression {
    fn clone(&self) -> (copy: Expression)
        ensures
            copy.text() == self.text(),
            copy.term() == self.term(),
    {
        Expression { src: self.src.clone(), root: self.root.clone() }
    }
}

/// A stat reference with its tag filter resolved against the registry.
#[derive(Clone, Debug, PartialEq)]
pub struct CStatRef {
    /// The named source the stat is read from; `None` means the owner.
    pub source: Option<String>,
    /// The stat name.
    pub stat: String,
    /// `None` inherits the tags of the enclosing query.
    pub tags: Option<TagSet>,
}

/// What a [`CStatRef`] says.
pub struct Link {
    pub source: Option<Seq<char>>,
    pub stat: Seq<char>,
    pub tags: Option<u64>,
}

impl View for CStatRef {
    type V = Link;

    open spec fn view(&self) -> Link {
        Link {
            source: maybe_name(self.source),
            stat: self.stat@,
            tags: match self.tags {
                Some(set) => Some(set@),
                None => None,
            },
        }
    }
}

/// An expression tree ready for evaluation.
pub type CExpr = Tree<Scalar, CStatRef>;

/// What an expression tree ready for evaluation says.
pub type Rule = Formula<Scalar, Link>;

/// The first name in the tag filters of a list of references that is not
/// registered.
pub open spec fn first_unknown(tags: Map<Seq<char>, u64>, list: Seq<Reference>) -> Option<Seq<char>>
    decreases list.len(),
{
    if list.len() == 0 {
        None
    } else {
        match first_unknown(tags, list.drop_last()) {
            Some(name) => Some(name),
            None => match list.last().tags {
                None => None,
                Some(filter) => match resolved(tags, filter) {
                    Ok(_) => None,
                    Err(name) => Some(name),
                },
            },
        }
    }
}

/// The reference with its tag filter resolved; every tag is registered.
pub open spec fn resolved_reference(tags: Map<Seq<char>, u64>, r: Reference) -> Link {
    Link {
        source: r.source,
        stat: r.stat,
        tags: match r.tags {
            None => None,
            Some(filter) => match resolved(tags, filter) {
                Ok(mask) => Some(mask),
                Err(_) => None,
            },
        },
    }
}

/// `rule` is `term` with its literals read by `host` and its tag filters
/// resolved.
pub open spec fn compiled<A: Arithmetic>(host: A, tags: Map<Seq<char>, u64>, term: Term, rule: Rule) -> bool
    decreases term,
{
    match term {
        Formula::Num(text) => rule matches Formula::Num(v) && literal_value(host, text, v),
        Formula::Stat(r) => rule == Formula::<Scalar, Link>::Stat(resolved_reference(tags, r)),
        Formula::Unary(op, e) => rule matches Formula::Unary(op2, e2) && op2 == op && compiled(host, tags, *e, *e2),
        Formula::Binary(op, a, b) => rule matches Formula::Binary(op2, a2, b2) && op2 == op && compiled(
            host,
            tags,
            *a,
            *a2,
        ) && compiled(host, tags, *b, *b2),
        Formula::Call(f, args) => rule matches Formula::Call(f2, args2) && f2 == f && all_compiled(
            host,
            tags,
            args,
            args2,
        ),
    }
}

/// Each of `rules` is the term at its place, compiled.
pub open spec fn all_compiled<A: Arithmetic>(
    host: A,
    tags: Map<Seq<char>, u64>,
    terms: Seq<Term>,
    rules: Seq<Rule>,
) -> bool
    decreases terms,
{
    &&& terms.len() == rules.len()
    &&& terms.len() > 0 ==> {
        &&& all_compiled(host, tags, terms.drop_last(), rules.drop_last())
        &&& compiled(host, tags, terms.last(), rules.last())
    }
}

proof fn lemma_first_unknown_add(tags: Map<Seq<char>, u64>, a: Seq<Reference>, b: Seq<Reference>)
    ensures
        first_unknown(tags, a + b) == (match first_unknown(tags, a) {
            Some(name) => Some(name),
            None => first_unknown(tags, b),
        }),
    decreases b.len(),
{
    if b.len() == 0 {
        assert(a + b =~= a);
    } else {
        assert((a + b).drop_last() =~= a + b.drop_last());
        lemma_first_unknown_add(tags, a, b.drop_last());
    }
}

/// Reads the literals and resolves the tag filters of an expression tree.
pub fn compile<A: Arithmetic>(expr: &Expr, tags: &TagRegistry, host: &A) -> (r: Result<CExpr, StatError>)
    ensures
        match r {
            Ok(c) => first_unknown(tags@.tags, refs(expr@)) is None && compiled(*host, tags@.tags, expr@, c@),
            Err(e) => first_unknown(tags@.tags, refs(expr@)) matches Some(name) && e@ == Fault::UnknownTag(name),
        },
    decreases expr,
{
    reveal_with_fuel(first_unknown, 2);
    match expr {
        Tree::Num(text) => {
            let v = host.literal(text.as_str());
            assert(literal_value(*host, text@, v));
            Ok(Tree::Num(v))
        },
        Tree::Stat(r) => {
            assert(refs(expr@) =~= seq![r@]);
            assert(refs(expr@).drop_last() =~= Seq::empty());
            let filter = match &r.tags {
                None => None,
                Some(list) => match tags.resolve_all(list) {
                    Ok(set) => Some(set),
                    Err(e) => {
                        return Err(e);
                    },
                },
            };
            let c = CStatRef { source: r.source.clone(), stat: r.stat.clone(), tags: filter };
            assert(maybe_name(c.source) == maybe_name(r.source));
            Ok(Tree::Stat(c))
        },
        Tree::Unary(op, e) => match compile(e, tags, host) {
            Ok(c) => Ok(Tree::Unary(*op, Box::new(c))),
            Err(e) => Err(e),
        },
        Tree::Binary(op, a, b) => {
            proof {
                lemma_first_unknown_add(tags@.tags, refs(a@), refs(b@));
            }
            match compile(a, tags, host) {
                Ok(x) => match compile(b, tags, host) {
                    Ok(y) => Ok(Tree::Binary(*op, Box::new(x), Box::new(y))),
                    Err(e) => Err(e),
                },
                Err(e) => Err(e),
            }
        },
        Tree::Call(f, args) => {
            let mut out: Vec<CExpr> = Vec::new();
            let mut i: usize = 0;
            assert(args@.take(0) =~= Seq::empty());
            while i < args.len()
                invariant
                    i <= args@.len(),
                    first_unknown(tags@.tags, refs_of(formulas(args@.take(i as int)))) is None,
                    all_compiled(*host, tags@.tags, formulas(args@.take(i as int)), formulas(out@)),
                    expr@ == Formula::<Seq<char>, Reference>::Call(*f, formulas(args@)),
                    decreases_to!(expr => args),
                decreases args@.len() - i,
            {
                let ghost now = args@.take(i as int);
                let ghost next = args@.take(i + 1);
                proof {
                    assert(next.drop_last() =~= now);
                    assert(formulas(next) == formulas(now).push(args@[i as int]@));
                    assert(formulas(next).drop_last() =~= formulas(now));
                    lemma_first_unknown_add(tags@.tags, refs_of(formulas(now)), refs(args@[i as int]@));
                    assert(decreases_to!(args => args@));
                    assert(decreases_to!(args@ => args@[i as int]));
                }
                match compile(&args[i], tags, host) {
                    Ok(c) => {
                        let ghost before = out@;
                        out.push(c);
                        proof {
                            assert(out@.drop_last() =~= before);
                            assert(formulas(out@).drop_last() =~= formulas(before));
                        }
                    },
                    Err(e) => {
                        proof {
                            lemma_unknown_prefix(tags@.tags, args@, i + 1);
                        }
                        return Err(e);
                    },
                }
                i = i + 1;
            }
            assert(args@.take(i as int) =~= args@);
            Ok(Tree::Call(*f, out))
        },
    }
}

proof fn lemma_unknown_prefix(tags: Map<Seq<char>, u64>, args: Seq<Expr>, n: int)
    requires
        0 <= n <= args.len(),
        first_unknown(tags, refs_of(formulas(args.take(n)))) is Some,
    ensures
        first_unknown(tags, refs_of(formulas(args))) == first_unknown(tags, refs_of(formulas(args.take(n)))),
    decreases args.len(),
{
    if n < args.len() {
        assert(args.drop_last().take(n) =~= args.take(n));
        lemma_unknown_prefix(tags, args.drop_last(), n);
        assert(formulas(args).drop_last() =~= formulas(args.drop_last()));
        lemma_first_unknown_add(tags, refs_of(formulas(args.drop_last())), refs(args.last()@));
    } else {
        assert(args.take(n) =~= args);
    }
}

} // verus!
