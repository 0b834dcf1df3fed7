//! The expression language as a grammar.
//!
//! [`spells`] says which tokens say which expression, without saying how they
//! are read. A source says exactly what its tokens spell.

use crate::error::SyntaxFault;
use crate::lexer::{lexed, Placed, Symbol, Token};
use crate::names::joined;
use crate::parser::{
    arguments, call, dotted, expression, infix, infix_at, infixes, lemma_arguments, lemma_dotted, lemma_prefixed,
    lemma_progress, parsed, path_parsed, prefixed, primary, reference, sourced, stat_path, sym, tag_filter, tag_list, tok,
    Parse, Reference, Term,
};
use crate::tree::{func_named, BinaryOp, Formula, Func, UnaryOp};
use vstd::prelude::*;
use vstd::utf8::encode_utf8;

verus! {

// -- the grammar ------------------------------------------------------------

/// The symbol that an infix operator is written with.
pub open spec fn infix_mark(op: BinaryOp) -> Symbol {
    match op {
        BinaryOp::Add => Symbol::Plus,
        BinaryOp::Sub => Symbol::Minus,
        BinaryOp::Mul => Symbol::Star,
        BinaryOp::Div => Symbol::Slash,
        BinaryOp::Rem => Symbol::Percent,
        BinaryOp::Pow => Symbol::Caret,
        BinaryOp::Lt => Symbol::Lt,
        BinaryOp::Le => Symbol::Le,
        BinaryOp::Gt => Symbol::Gt,
        BinaryOp::Ge => Symbol::Ge,
        BinaryOp::Eq => Symbol::EqEq,
        BinaryOp::Ne => Symbol::Ne,
        BinaryOp::And => Symbol::AndAnd,
        BinaryOp::Or => Symbol::OrOr,
    }
}

/// The symbol that a prefix operator is written with.
pub open spec fn prefix_mark(op: UnaryOp) -> Symbol {
    match op {
        UnaryOp::Neg => Symbol::Minus,
        UnaryOp::Not => Symbol::Bang,
    }
}

/// The name that a function is called by.
pub open spec fn called(f: Func) -> Seq<char> {
    match f {
        Func::Min => seq!['m', 'i', 'n'],
        Func::Max => seq!['m', 'a', 'x'],
        Func::Abs => seq!['a', 'b', 's'],
        Func::Clamp => seq!['c', 'l', 'a', 'm', 'p'],
        Func::Floor => seq!['f', 'l', 'o', 'o', 'r'],
        Func::Ceil => seq!['c', 'e', 'i', 'l'],
        Func::Round => seq!['r', 'o', 'u', 'n', 'd'],
        Func::Sqrt => seq!['s', 'q', 'r', 't'],
    }
}

/// How tightly an infix operator holds its sides: from `||` over `&&`, equality,
/// order, sums and products to powers, which hold tightest. The prefix operators
/// stand between products and powers, at 7.
pub open spec fn tightness(op: BinaryOp) -> int {
    match op {
        BinaryOp::Or => 1,
        BinaryOp::And => 2,
        BinaryOp::Eq | BinaryOp::Ne => 3,
        BinaryOp::Lt | BinaryOp::Le | BinaryOp::Gt | BinaryOp::Ge => 4,
        BinaryOp::Add | BinaryOp::Sub => 5,
        BinaryOp::Mul | BinaryOp::Div | BinaryOp::Rem => 6,
        BinaryOp::Pow => 8,
    }
}

/// How tightly what stands on the left of an operator has to hold. A chain of
/// one kind goes from left to right, except for powers.
pub open spec fn left_level(op: BinaryOp) -> int {
    if op == BinaryOp::Pow {
        9
    } else {
        tightness(op)
    }
}

/// How tightly what stands on the right of an operator has to hold.
pub open spec fn right_level(op: BinaryOp) -> int {
    if op == BinaryOp::Pow {
        8
    } else {
        tightness(op) + 1
    }
}

/// Tokens `p..q` are these names with dots between them.
pub open spec fn segments_spelled(list: Seq<Seq<char>>, ts: Seq<Placed>, p: int, q: int) -> bool {
    &&& list.len() > 0
    &&& 0 <= p
    &&& q == p + 2 * list.len() - 1
    &&& q <= ts.len()
    &&& forall|i: int|
        #![trigger list[i]]
        0 <= i < list.len() ==> ts[p + 2 * i].0 == Token::Ident(list[i]) && (i + 1 < list.len() ==> ts[p + 2 * i
            + 1].0 == Token::Sym(Symbol::Dot))
}

/// Tokens `p..q` are a dotted name.
pub open spec fn name_spelled(name: Seq<char>, ts: Seq<Placed>, p: int, q: int) -> bool {
    exists|list: Seq<Seq<char>>| #[trigger] segments_spelled(list, ts, p, q) && name == joined(list)
}

/// Tokens `p..q` are a dotted name and an `@`.
pub open spec fn source_spelled(name: Seq<char>, ts: Seq<Placed>, p: int, q: int) -> bool {
    &&& p < q <= ts.len()
    &&& name_spelled(name, ts, p, q - 1)
    &&& ts[q - 1].0 == Token::Sym(Symbol::At)
}

/// Tokens `p..q` are a tag filter: names with commas or bars between them, in
/// braces.
pub open spec fn tags_spelled(list: Seq<Seq<char>>, ts: Seq<Placed>, p: int, q: int) -> bool {
    &&& list.len() > 0
    &&& 0 <= p
    &&& q == p + 2 * list.len() + 1
    &&& q <= ts.len()
    &&& ts[p].0 == Token::Sym(Symbol::LBrace)
    &&& ts[q - 1].0 == Token::Sym(Symbol::RBrace)
    &&& forall|i: int|
        #![trigger list[i]]
        0 <= i < list.len() ==> ts[p + 1 + 2 * i].0 == Token::Ident(list[i]) && (i + 1 < list.len() ==> ts[p + 2 + 2
            * i].0 == Token::Sym(Symbol::Comma) || ts[p + 2 + 2 * i].0 == Token::Sym(Symbol::Pipe))
}

/// Tokens `p..q` are a tag filter, or nothing if there is none.
pub open spec fn filter_spelled(tags: Option<Seq<Seq<char>>>, ts: Seq<Placed>, p: int, q: int) -> bool {
    match tags {
        None => p == q,
        Some(list) => tags_spelled(list, ts, p, q),
    }
}

/// Tokens `p..q` are a stat and a tag filter, if there is one.
pub open spec fn stat_spelled(stat: Seq<char>, tags: Option<Seq<Seq<char>>>, ts: Seq<Placed>, p: int, q: int) -> bool {
    exists|a: int| #[trigger] name_spelled(stat, ts, p, a) && filter_spelled(tags, ts, a, q)
}

/// Tokens `p..q` are a source, an `@`, a stat and a tag filter, if there is one.
pub open spec fn sourced_spelled(
    name: Seq<char>,
    stat: Seq<char>,
    tags: Option<Seq<Seq<char>>>,
    ts: Seq<Placed>,
    p: int,
    q: int,
) -> bool {
    exists|b: int| #[trigger] source_spelled(name, ts, p, b) && stat_spelled(stat, tags, ts, b, q)
}

/// Tokens `p..q` are a reference: a source, if there is one, the stat, and a tag
/// filter, if there is one.
pub open spec fn reference_spelled(r: Reference, ts: Seq<Placed>, p: int, q: int) -> bool {
    match r.source {
        None => stat_spelled(r.stat, r.tags, ts, p, q),
        Some(name) => sourced_spelled(name, r.stat, r.tags, ts, p, q),
    }
}

/// Tokens `p..q` say an expression whose operators outside parentheses hold at
/// least as tightly as `level`. Where nothing before the expression could take
/// its first operand from it (`open`), a prefix operator may stand first at any
/// level.
pub open spec fn spells(t: Term, ts: Seq<Placed>, p: int, q: int, level: int, open: bool) -> bool
    decreases q - p, 0int,
{
    &&& 0 <= p < q <= ts.len()
    &&& {
        ||| q - p > 2 && ts[p].0 == Token::Sym(Symbol::LParen) && ts[q - 1].0 == Token::Sym(Symbol::RParen) && spells(
            t,
            ts,
            p + 1,
            q - 1,
            0,
            true,
        )
        ||| match t {
            Formula::Num(text) => q == p + 1 && ts[p].0 == Token::Num(text),
            Formula::Stat(r) => reference_spelled(r, ts, p, q),
            Formula::Unary(op, e) => (open || level <= 7) && ts[p].0 == Token::Sym(prefix_mark(op)) && spells(
                *e,
                ts,
                p + 1,
                q,
                7,
                true,
            ),
            Formula::Binary(op, a, b) => tightness(op) >= level && exists|m: int|
                p < m < q && (#[trigger] ts[m]).0 == Token::Sym(infix_mark(op)) && spells(
                    *a,
                    ts,
                    p,
                    m,
                    left_level(op),
                    false,
                ) && spells(*b, ts, m + 1, q, right_level(op), true),
            Formula::Call(f, args) => q - p > 3 && ts[p].0 == Token::Ident(called(f)) && ts[p + 1].0 == Token::Sym(
                Symbol::LParen,
            ) && ts[q - 1].0 == Token::Sym(Symbol::RParen) && list_spelled(args, ts, p + 2, q - 1) && match f {
                Func::Min | Func::Max => args.len() >= 2,
                Func::Clamp => args.len() == 3,
                _ => args.len() == 1,
            },
        }
    }
}

/// Tokens `p..q` say these expressions, with commas between them.
pub open spec fn list_spelled(args: Seq<Term>, ts: Seq<Placed>, p: int, q: int) -> bool
    decreases q - p, 1int,
{
    if args.len() == 0 {
        false
    } else if args.len() == 1 {
        spells(args[0], ts, p, q, 0, true)
    } else {
        exists|m: int|
            p < m < q && (#[trigger] ts[m]).0 == Token::Sym(Symbol::Comma) && list_spelled(
                args.drop_last(),
                ts,
                p,
                m,
            ) && spells(args.last(), ts, m + 1, q, 0, true)
    }
}

// -- what is read is spelled ------------------------------------------------

proof fn lemma_infix(s: Symbol)
    ensures
        infix(s) matches Some((op, power, right)) ==> s == infix_mark(op) && power == tightness(op) && right == (op
            == BinaryOp::Pow),
{
}

proof fn lemma_mark(op: BinaryOp)
    ensures
        infix(infix_mark(op)) == Some((op, tightness(op), op == BinaryOp::Pow)),
{
}

/// A function is found exactly by the name that it is called by.
pub proof fn lemma_called(f: Func, name: Seq<char>)
    ensures
        func_named(name) == Some(f) <==> name == called(f),
{
    reveal_strlit("min");
    reveal_strlit("max");
    reveal_strlit("abs");
    reveal_strlit("clamp");
    reveal_strlit("floor");
    reveal_strlit("ceil");
    reveal_strlit("round");
    reveal_strlit("sqrt");
    assert("min"@ =~= called(Func::Min));
    assert("max"@ =~= called(Func::Max));
    assert("abs"@ =~= called(Func::Abs));
    assert("clamp"@ =~= called(Func::Clamp));
    assert("floor"@ =~= called(Func::Floor));
    assert("ceil"@ =~= called(Func::Ceil));
    assert("round"@ =~= called(Func::Round));
    assert("sqrt"@ =~= called(Func::Sqrt));
    let all = seq![
        called(Func::Min),
        called(Func::Max),
        called(Func::Abs),
        called(Func::Clamp),
        called(Func::Floor),
        called(Func::Ceil),
        called(Func::Round),
        called(Func::Sqrt),
    ];
    assert forall|i: int, j: int| 0 <= i < j < 8 implies #[trigger] all[i] != #[trigger] all[j] by {
        assert(all[i].len() != all[j].len() || all[i][0] != all[j][0] || all[i][1] != all[j][1]);
    }
    assert(all[0] != all[1] && all[0] != all[2] && all[0] != all[3] && all[0] != all[4] && all[0] != all[5] && all[0]
        != all[6] && all[0] != all[7]);
    assert(all[1] != all[2] && all[1] != all[3] && all[1] != all[4] && all[1] != all[5] && all[1] != all[6] && all[1]
        != all[7]);
    assert(all[2] != all[3] && all[2] != all[4] && all[2] != all[5] && all[2] != all[6] && all[2] != all[7]);
    assert(all[3] != all[4] && all[3] != all[5] && all[3] != all[6] && all[3] != all[7]);
    assert(all[4] != all[5] && all[4] != all[6] && all[4] != all[7]);
    assert(all[5] != all[6] && all[5] != all[7] && all[6] != all[7]);
}

proof fn lemma_dotted_spelled(ts: Seq<Placed>, p0: int, p: int, list: Seq<Seq<char>>)
    requires
        segments_spelled(list, ts, p0, p),
        dotted(ts, p, joined(list)) is Done,
    ensures
        dotted(ts, p, joined(list)) matches Parse::Done(name, q) && name_spelled(name, ts, p0, q),
    decreases ts.len() - p,
{
    if sym(ts, p, Symbol::Dot) {
        if let Some(Token::Ident(segment)) = tok(ts, p + 1) {
            let more = list.push(segment);
            assert(more.drop_last() =~= list);
            assert(joined(more) == joined(list).push('.') + segment);
            assert forall|i: int|
                #![trigger more[i]]
                0 <= i < more.len() implies ts[p0 + 2 * i].0 == Token::Ident(more[i]) && (i + 1 < more.len() ==> ts[p0
                + 2 * i + 1].0 == Token::Sym(Symbol::Dot)) by {
                if i < list.len() {
                    assert(more[i] == list[i]);
                }
            }
            lemma_dotted_spelled(ts, p0, p + 2, more);
        }
    }
}

proof fn lemma_name_read(ts: Seq<Placed>, p: int, first: Seq<char>)
    requires
        0 <= p < ts.len(),
        ts[p].0 == Token::Ident(first),
        dotted(ts, p + 1, first) is Done,
    ensures
        dotted(ts, p + 1, first) matches Parse::Done(name, q) && name_spelled(name, ts, p, q),
{
    let list = seq![first];
    assert(segments_spelled(list, ts, p, p + 1));
    lemma_dotted_spelled(ts, p, p + 1, list);
}

proof fn lemma_tags_read(ts: Seq<Placed>, p0: int, p: int, tags: Seq<Seq<char>>)
    requires
        0 <= p0,
        p == p0 + 1 + 2 * tags.len(),
        p <= ts.len(),
        ts[p0].0 == Token::Sym(Symbol::LBrace),
        forall|i: int|
            #![trigger tags[i]]
            0 <= i < tags.len() ==> ts[p0 + 1 + 2 * i].0 == Token::Ident(tags[i]) && (ts[p0 + 2 + 2 * i].0
                == Token::Sym(Symbol::Comma) || ts[p0 + 2 + 2 * i].0 == Token::Sym(Symbol::Pipe)),
        tag_list(ts, p, tags) is Done,
    ensures
        tag_list(ts, p, tags) matches Parse::Done(list, q) && tags_spelled(list, ts, p0, q),
    decreases ts.len() - p,
{
    if let Some(Token::Ident(tag)) = tok(ts, p) {
        let more = tags.push(tag);
        if sym(ts, p + 1, Symbol::Comma) || sym(ts, p + 1, Symbol::Pipe) {
            assert forall|i: int|
                #![trigger more[i]]
                0 <= i < more.len() implies ts[p0 + 1 + 2 * i].0 == Token::Ident(more[i]) && (ts[p0 + 2 + 2 * i].0
                == Token::Sym(Symbol::Comma) || ts[p0 + 2 + 2 * i].0 == Token::Sym(Symbol::Pipe)) by {
                if i < tags.len() {
                    assert(more[i] == tags[i]);
                }
            }
            lemma_tags_read(ts, p0, p + 2, more);
        } else {
            assert forall|i: int|
                #![trigger more[i]]
                0 <= i < more.len() implies ts[p0 + 1 + 2 * i].0 == Token::Ident(more[i]) && (i + 1 < more.len()
                ==> ts[p0 + 2 + 2 * i].0 == Token::Sym(Symbol::Comma) || ts[p0 + 2 + 2 * i].0 == Token::Sym(
                Symbol::Pipe,
            )) by {
                if i < tags.len() {
                    assert(more[i] == tags[i]);
                }
            }
            assert(tags_spelled(more, ts, p0, p + 2));
        }
    }
}

proof fn lemma_filter_read(ts: Seq<Placed>, p: int)
    requires
        0 <= p,
        tag_filter(ts, p) is Done,
    ensures
        tag_filter(ts, p) matches Parse::Done(tags, q) && filter_spelled(tags, ts, p, q),
{
    if sym(ts, p, Symbol::LBrace) {
        lemma_tags_read(ts, p, p + 1, Seq::empty());
    }
}

proof fn lemma_reference_read(ts: Seq<Placed>, p: int, first: Seq<char>)
    requires
        0 <= p < ts.len(),
        ts[p].0 == Token::Ident(first),
        reference(ts, p + 1, first) is Done,
    ensures
        reference(ts, p + 1, first) matches Parse::Done(r, q) && reference_spelled(r, ts, p, q),
{
    lemma_dotted(ts, p + 1, first);
    lemma_name_read(ts, p, first);
    if let Parse::Done(name, a) = dotted(ts, p + 1, first) {
        if sym(ts, a, Symbol::At) {
            if let Some(Token::Ident(segment)) = tok(ts, a + 1) {
                lemma_dotted(ts, a + 2, segment);
                lemma_name_read(ts, a + 1, segment);
                if let Parse::Done(stat, b) = dotted(ts, a + 2, segment) {
                    lemma_filter_read(ts, b);
                    if let Parse::Done(tags, q) = tag_filter(ts, b) {
                        let r = Reference { source: Some(name), stat, tags };
                        let c = a + 1;
                        assert(name_spelled(name, ts, p, c - 1));
                        assert(source_spelled(name, ts, p, c));
                        assert(name_spelled(stat, ts, c, b));
                        assert(stat_spelled(stat, tags, ts, c, q));
                        assert(sourced_spelled(name, stat, tags, ts, p, q));
                        assert(reference_spelled(r, ts, p, q));
                        assert(reference(ts, p + 1, first) == Parse::Done(r, q));
                    }
                }
            }
        } else {
            lemma_filter_read(ts, a);
            if let Parse::Done(tags, q) = tag_filter(ts, a) {
                let r = Reference { source: None, stat: name, tags };
                assert(name_spelled(name, ts, p, a));
                assert(stat_spelled(name, tags, ts, p, q));
                assert(reference_spelled(r, ts, p, q));
                assert(reference(ts, p + 1, first) == Parse::Done(r, q));
            }
        }
    }
}

/// What follows position `q` can take `lhs` for its left side.
spec fn yields(ts: Seq<Placed>, p: int, q: int, lhs: Term) -> bool {
    forall|op: BinaryOp| #[trigger]
        sym(ts, q, infix_mark(op)) ==> spells(lhs, ts, p, q, left_level(op), false)
}

/// No operator at `q` holds at least as tightly as `least`.
pub open spec fn loosens(ts: Seq<Placed>, q: int, least: int) -> bool {
    forall|op: BinaryOp| #[trigger] sym(ts, q, infix_mark(op)) ==> tightness(op) < least
}

proof fn lemma_no_infix(ts: Seq<Placed>, q: int, least: int)
    ensures
        infix_at(ts, q, least) is None <==> loosens(ts, q, least),
{
    if infix_at(ts, q, least) is None {
        assert forall|op: BinaryOp| #[trigger] sym(ts, q, infix_mark(op)) implies tightness(op) < least by {
            lemma_mark(op);
        }
    } else {
        if let Some(Token::Sym(s)) = tok(ts, q) {
            lemma_infix(s);
            if let Some((op, _, _)) = infix(s) {
                assert(sym(ts, q, infix_mark(op)));
            }
        }
    }
}

/// What an expression is read as, its tokens spell.
pub proof fn lemma_expression_read(ts: Seq<Placed>, p: int, least: int)
    requires
        0 <= p <= ts.len(),
        expression(ts, p, least) is Done,
    ensures
        expression(ts, p, least) matches Parse::Done(t, q) && spells(t, ts, p, q, least, true) && loosens(ts, q, least),
    decreases ts.len() - p, 3int,
{
    lemma_prefixed(ts, p);
    lemma_prefixed_read(ts, p);
    if let Parse::Done(lhs, q) = prefixed(ts, p) {
        assert(spells(lhs, ts, p, q, least, true));
        lemma_infixes_read(ts, p, q, least, lhs);
    }
}

proof fn lemma_infixes_read(ts: Seq<Placed>, p0: int, p: int, least: int, lhs: Term)
    requires
        0 <= p0 < p <= ts.len(),
        spells(lhs, ts, p0, p, least, true),
        yields(ts, p0, p, lhs),
        infixes(ts, p, least, lhs) is Done,
    ensures
        infixes(ts, p, least, lhs) matches Parse::Done(t, q) && spells(t, ts, p0, q, least, true) && loosens(
            ts,
            q,
            least,
        ),
    decreases ts.len() - p, 0int,
{
    match infix_at(ts, p, least) {
        Some((op, power)) => {
            if let Some(Token::Sym(s)) = tok(ts, p) {
                lemma_infix(s);
            }
            assert(sym(ts, p, infix_mark(op)));
            assert(power == right_level(op));
            lemma_progress(ts, p + 1, power);
            lemma_expression_read(ts, p + 1, power);
            if let Parse::Done(rhs, q) = expression(ts, p + 1, power) {
                let t = Formula::Binary(op, Box::new(lhs), Box::new(rhs));
                assert(ts[p].0 == Token::Sym(infix_mark(op)));
                assert(spells(lhs, ts, p0, p, left_level(op), false));
                assert(spells(rhs, ts, p + 1, q, right_level(op), true));
                assert(spells(t, ts, p0, q, least, true));
                assert forall|next: BinaryOp| #[trigger] sym(ts, q, infix_mark(next)) implies spells(
                    t,
                    ts,
                    p0,
                    q,
                    left_level(next),
                    false,
                ) by {
                    assert(tightness(next) < power);
                    assert(tightness(op) >= left_level(next));
                }
                lemma_infixes_read(ts, p0, q, least, t);
            }
        },
        None => {
            lemma_no_infix(ts, p, least);
        },
    }
}

proof fn lemma_prefixed_read(ts: Seq<Placed>, p: int)
    requires
        0 <= p <= ts.len(),
        prefixed(ts, p) is Done,
    ensures
        prefixed(ts, p) matches Parse::Done(t, q) && yields(ts, p, q, t) && forall|level: int| #[trigger]
            spells(t, ts, p, q, level, true),
    decreases ts.len() - p, 2int,
{
    if sym(ts, p, Symbol::Minus) || sym(ts, p, Symbol::Bang) {
        let op = if sym(ts, p, Symbol::Minus) {
            UnaryOp::Neg
        } else {
            UnaryOp::Not
        };
        lemma_progress(ts, p + 1, 7);
        lemma_expression_read(ts, p + 1, 7);
        if let Parse::Done(e, q) = expression(ts, p + 1, 7) {
            let t = Formula::Unary(op, Box::new(e));
            assert(ts[p].0 == Token::Sym(prefix_mark(op)));
            assert forall|next: BinaryOp| #[trigger] sym(ts, q, infix_mark(next)) implies spells(
                t,
                ts,
                p,
                q,
                left_level(next),
                false,
            ) by {
                assert(tightness(next) < 7);
            }
        }
    } else {
        lemma_primary_read(ts, p);
        if let Parse::Done(t, q) = primary(ts, p) {
            assert forall|next: BinaryOp| #[trigger] sym(ts, q, infix_mark(next)) implies spells(
                t,
                ts,
                p,
                q,
                left_level(next),
                false,
            ) by {}
        }
    }
}

proof fn lemma_primary_read(ts: Seq<Placed>, p: int)
    requires
        0 <= p <= ts.len(),
        primary(ts, p) is Done,
    ensures
        primary(ts, p) matches Parse::Done(t, q) && forall|level: int, open: bool| #[trigger]
            spells(t, ts, p, q, level, open),
    decreases ts.len() - p, 1int,
{
    match tok(ts, p) {
        Some(Token::Num(_)) => {},
        Some(Token::Ident(first)) => {
            if sym(ts, p + 1, Symbol::LParen) {
                if let Some(f) = func_named(first) {
                    lemma_called(f, first);
                    lemma_call_read(ts, p, f);
                }
            } else {
                lemma_reference_read(ts, p, first);
                if let Parse::Done(r, q) = reference(ts, p + 1, first) {
                    lemma_reference_progress(r, ts, p, q);
                }
            }
        },
        _ => {
            if sym(ts, p, Symbol::LParen) {
                lemma_progress(ts, p + 1, 0);
                lemma_expression_read(ts, p + 1, 0);
                if let Parse::Done(e, q) = expression(ts, p + 1, 0) {
                    assert(spells(e, ts, p + 1, q, 0, true));
                }
            }
        },
    }
}

proof fn lemma_reference_progress(r: Reference, ts: Seq<Placed>, p: int, q: int)
    requires
        reference_spelled(r, ts, p, q),
    ensures
        0 <= p < q <= ts.len(),
{
    match r.source {
        None => lemma_stat_progress(r.stat, r.tags, ts, p, q),
        Some(name) => {
            let b = choose|b: int| #[trigger]
                source_spelled(name, ts, p, b) && stat_spelled(r.stat, r.tags, ts, b, q);
            lemma_stat_progress(r.stat, r.tags, ts, b, q);
            let other = choose|list: Seq<Seq<char>>| #[trigger]
                segments_spelled(list, ts, p, b - 1) && name == joined(list);
            assert(segments_spelled(other, ts, p, b - 1));
        },
    }
}

proof fn lemma_stat_progress(stat: Seq<char>, tags: Option<Seq<Seq<char>>>, ts: Seq<Placed>, p: int, q: int)
    requires
        stat_spelled(stat, tags, ts, p, q),
    ensures
        0 <= p < q <= ts.len(),
{
    let a = choose|a: int| #[trigger] name_spelled(stat, ts, p, a) && filter_spelled(tags, ts, a, q);
    let list = choose|list: Seq<Seq<char>>| #[trigger] segments_spelled(list, ts, p, a) && stat == joined(list);
    assert(segments_spelled(list, ts, p, a));
}

proof fn lemma_call_read(ts: Seq<Placed>, p: int, f: Func)
    requires
        0 <= p,
        p + 2 <= ts.len(),
        ts[p].0 == Token::Ident(called(f)),
        ts[p + 1].0 == Token::Sym(Symbol::LParen),
        call(ts, p, f) is Done,
    ensures
        call(ts, p, f) matches Parse::Done(t, q) && forall|level: int, open: bool| #[trigger]
            spells(t, ts, p, q, level, open),
    decreases ts.len() - p, 0int,
{
    if !sym(ts, p + 2, Symbol::RParen) {
        lemma_arguments(ts, p + 2, Seq::empty());
        lemma_arguments_read(ts, p + 2, p + 2, Seq::empty());
    }
}

proof fn lemma_arguments_read(ts: Seq<Placed>, p0: int, p: int, args: Seq<Term>)
    requires
        0 <= p0 <= p <= ts.len(),
        args.len() == 0 ==> p == p0,
        args.len() > 0 ==> p0 < p - 1 && ts[p - 1].0 == Token::Sym(Symbol::Comma) && list_spelled(
            args,
            ts,
            p0,
            p - 1,
        ),
        arguments(ts, p, args) is Done,
    ensures
        arguments(ts, p, args) matches Parse::Done(list, q) && list_spelled(list, ts, p0, q) && p0 < q <= ts.len(),
    decreases ts.len() - p, 4int,
{
    lemma_progress(ts, p, 0);
    lemma_expression_read(ts, p, 0);
    if let Parse::Done(e, q) = expression(ts, p, 0) {
        let more = args.push(e);
        assert(more.drop_last() =~= args);
        assert(list_spelled(more, ts, p0, q)) by {
            if args.len() > 0 {
                assert(ts[p - 1].0 == Token::Sym(Symbol::Comma));
                assert(spells(more.last(), ts, (p - 1) + 1, q, 0, true));
            }
        }
        if sym(ts, q, Symbol::Comma) {
            lemma_arguments_read(ts, p0, q + 1, more);
        }
    }
}

// -- what is spelled is read ------------------------------------------------

/// What can follow an expression: nothing, a closing parenthesis, a comma, or an
/// infix operator.
spec fn ends(ts: Seq<Placed>, q: int) -> bool {
    ||| tok(ts, q) is None
    ||| sym(ts, q, Symbol::RParen)
    ||| sym(ts, q, Symbol::Comma)
    ||| exists|op: BinaryOp| #[trigger] sym(ts, q, infix_mark(op))
}

proof fn lemma_ends(ts: Seq<Placed>, q: int)
    requires
        ends(ts, q),
    ensures
        !sym(ts, q, Symbol::Dot),
        !sym(ts, q, Symbol::At),
        !sym(ts, q, Symbol::LBrace),
        !sym(ts, q, Symbol::LParen),
{
}

proof fn lemma_name_accepted(list: Seq<Seq<char>>, ts: Seq<Placed>, p: int, q: int, k: int)
    requires
        segments_spelled(list, ts, p, q),
        !sym(ts, q, Symbol::Dot),
        0 <= k < list.len(),
    ensures
        dotted(ts, p + 2 * k + 1, joined(list.take(k + 1))) == Parse::Done(joined(list), q),
    decreases list.len() - k,
{
    assert(ts[p + 2 * k].0 == Token::Ident(list[k]));
    if k + 1 == list.len() {
        assert(list.take(k + 1) =~= list);
    } else {
        assert(ts[p + 2 * (k + 1)].0 == Token::Ident(list[k + 1]));
        assert(list.take(k + 2).drop_last() =~= list.take(k + 1));
        assert(joined(list.take(k + 2)) == joined(list.take(k + 1)).push('.') + list[k + 1]);
        lemma_name_accepted(list, ts, p, q, k + 1);
    }
}

proof fn lemma_name_starts(name: Seq<char>, ts: Seq<Placed>, p: int, q: int) -> (first: Seq<char>)
    requires
        name_spelled(name, ts, p, q),
        !sym(ts, q, Symbol::Dot),
    ensures
        0 <= p < q <= ts.len(),
        ts[p].0 == Token::Ident(first),
        dotted(ts, p + 1, first) == Parse::Done(name, q),
        p + 1 < q ==> sym(ts, p + 1, Symbol::Dot),
{
    let list = choose|list: Seq<Seq<char>>| #[trigger] segments_spelled(list, ts, p, q) && name == joined(list);
    lemma_name_accepted(list, ts, p, q, 0);
    assert(ts[p + 2 * 0].0 == Token::Ident(list[0]));
    assert(list.take(1) =~= seq![list[0]]);
    list[0]
}

proof fn lemma_tags_accepted(list: Seq<Seq<char>>, ts: Seq<Placed>, p: int, q: int, k: int)
    requires
        tags_spelled(list, ts, p, q),
        0 <= k < list.len(),
    ensures
        tag_list(ts, p + 1 + 2 * k, list.take(k)) == Parse::Done(list, q),
    decreases list.len() - k,
{
    assert(ts[p + 1 + 2 * k].0 == Token::Ident(list[k]));
    assert(list.take(k).push(list[k]) =~= list.take(k + 1));
    if k + 1 == list.len() {
        assert(list.take(k + 1) =~= list);
    } else {
        lemma_tags_accepted(list, ts, p, q, k + 1);
    }
}

proof fn lemma_filter_accepted(tags: Option<Seq<Seq<char>>>, ts: Seq<Placed>, p: int, q: int)
    requires
        filter_spelled(tags, ts, p, q),
        tags is None ==> !sym(ts, p, Symbol::LBrace),
    ensures
        tag_filter(ts, p) == Parse::Done(tags, q),
{
    if let Some(list) = tags {
        lemma_tags_accepted(list, ts, p, q, 0);
        assert(list.take(0) =~= Seq::empty());
    }
}

proof fn lemma_stat_accepted(stat: Seq<char>, tags: Option<Seq<Seq<char>>>, ts: Seq<Placed>, p: int, q: int) -> (r: (
    Seq<char>,
    int,
))
    requires
        stat_spelled(stat, tags, ts, p, q),
        ends(ts, q),
    ensures
        0 <= p < r.1 <= q <= ts.len(),
        ts[p].0 == Token::Ident(r.0),
        dotted(ts, p + 1, r.0) == Parse::Done(stat, r.1),
        tag_filter(ts, r.1) == Parse::Done(tags, q),
        !sym(ts, p + 1, Symbol::LParen),
        !sym(ts, r.1, Symbol::At),
{
    let a = choose|a: int| #[trigger] name_spelled(stat, ts, p, a) && filter_spelled(tags, ts, a, q);
    lemma_ends(ts, q);
    let first = lemma_name_starts(stat, ts, p, a);
    lemma_filter_accepted(tags, ts, a, q);
    (first, a)
}

proof fn lemma_reference_accepted(r: Reference, ts: Seq<Placed>, p: int, q: int)
    requires
        reference_spelled(r, ts, p, q),
        ends(ts, q),
    ensures
        primary(ts, p) == Parse::Done(Formula::<Seq<char>, Reference>::Stat(r), q),
        tok(ts, p) is Some && tok(ts, p)->0 is Ident,
{
    match r.source {
        None => {
            let (first, a) = lemma_stat_accepted(r.stat, r.tags, ts, p, q);
            assert(sourced(ts, a, None, r.stat) == Parse::Done(r, q));
            assert(reference(ts, p + 1, first) == Parse::Done(r, q));
        },
        Some(name) => {
            assert(sourced_spelled(name, r.stat, r.tags, ts, p, q));
            let b = choose|b: int| #[trigger]
                source_spelled(name, ts, p, b) && stat_spelled(r.stat, r.tags, ts, b, q);
            let (segment, a) = lemma_stat_accepted(r.stat, r.tags, ts, b, q);
            assert(sym(ts, b - 1, Symbol::At));
            let first = lemma_name_starts(name, ts, p, b - 1);
            assert(sourced(ts, a, Some(name), r.stat) == Parse::Done(r, q));
            assert(reference(ts, p + 1, first) == Parse::Done(r, q));
        },
    }
}

/// Whether tokens `p..q` say `t` in one piece: in parentheses, or as a number, a
/// reference or a call.
spec fn compact(t: Term, ts: Seq<Placed>, p: int, q: int) -> bool {
    &&& spells(t, ts, p, q, 0, true)
    &&& {
        ||| q - p > 2 && ts[p].0 == Token::Sym(Symbol::LParen) && ts[q - 1].0 == Token::Sym(Symbol::RParen) && spells(
            t,
            ts,
            p + 1,
            q - 1,
            0,
            true,
        )
        ||| t is Num
        ||| t is Stat
        ||| t is Call
    }
}

proof fn lemma_compact_accepted(t: Term, ts: Seq<Placed>, p: int, q: int)
    requires
        compact(t, ts, p, q),
        ends(ts, q),
    ensures
        prefixed(ts, p) == Parse::Done(t, q),
        0 <= p < q <= ts.len(),
    decreases q - p, 0int,
{
    if q - p > 2 && ts[p].0 == Token::Sym(Symbol::LParen) && ts[q - 1].0 == Token::Sym(Symbol::RParen) && spells(
        t,
        ts,
        p + 1,
        q - 1,
        0,
        true,
    ) {
        assert(sym(ts, q - 1, Symbol::RParen));
        assert(loosens(ts, q - 1, 0));
        lemma_accepted(t, ts, p + 1, q - 1, 0);
        assert(primary(ts, p) == Parse::Done(t, q));
    } else {
        match t {
            Formula::Num(text) => {},
            Formula::Stat(r) => lemma_reference_accepted(r, ts, p, q),
            Formula::Call(f, args) => {
                lemma_called(f, called(f));
                assert(sym(ts, p + 1, Symbol::LParen));
                assert(sym(ts, q - 1, Symbol::RParen));
                lemma_list_starts(args, ts, p + 2, q - 1);
                lemma_list_accepted(args, ts, p + 2, q - 1, Seq::empty());
                assert(Seq::<Term>::empty() + args =~= args);
                assert(call(ts, p, f) == Parse::Done(t, q));
                assert(primary(ts, p) == Parse::Done(t, q));
            },
            _ => {},
        }
    }
}

proof fn lemma_starts(t: Term, ts: Seq<Placed>, p: int, q: int, level: int, open: bool)
    requires
        spells(t, ts, p, q, level, open),
    ensures
        !sym(ts, p, Symbol::RParen),
    decreases q - p, 0int,
{
    if q - p > 2 && ts[p].0 == Token::Sym(Symbol::LParen) && ts[q - 1].0 == Token::Sym(Symbol::RParen) && spells(
        t,
        ts,
        p + 1,
        q - 1,
        0,
        true,
    ) {
    } else {
        match t {
            Formula::Binary(op, a, b) => {
                let m = choose|m: int|
                    p < m < q && (#[trigger] ts[m]).0 == Token::Sym(infix_mark(op)) && spells(
                        *a,
                        ts,
                        p,
                        m,
                        left_level(op),
                        false,
                    ) && spells(*b, ts, m + 1, q, right_level(op), true);
                lemma_starts(*a, ts, p, m, left_level(op), false);
            },
            Formula::Stat(r) => {
                lemma_reference_starts(r, ts, p, q);
            },
            _ => {},
        }
    }
}

proof fn lemma_reference_starts(r: Reference, ts: Seq<Placed>, p: int, q: int)
    requires
        reference_spelled(r, ts, p, q),
    ensures
        tok(ts, p) is Some && tok(ts, p)->0 is Ident,
{
    lemma_reference_progress(r, ts, p, q);
    match r.source {
        None => {
            let a = choose|a: int| #[trigger] name_spelled(r.stat, ts, p, a) && filter_spelled(r.tags, ts, a, q);
            let list = choose|list: Seq<Seq<char>>| #[trigger]
                segments_spelled(list, ts, p, a) && r.stat == joined(list);
            assert(ts[p + 2 * 0].0 == Token::Ident(list[0]));
        },
        Some(name) => {
            assert(sourced_spelled(name, r.stat, r.tags, ts, p, q));
            let b = choose|b: int| #[trigger]
                source_spelled(name, ts, p, b) && stat_spelled(r.stat, r.tags, ts, b, q);
            let list = choose|list: Seq<Seq<char>>| #[trigger]
                segments_spelled(list, ts, p, b - 1) && name == joined(list);
            assert(ts[p + 2 * 0].0 == Token::Ident(list[0]));
        },
    }
}

proof fn lemma_list_starts(args: Seq<Term>, ts: Seq<Placed>, p: int, q: int)
    requires
        list_spelled(args, ts, p, q),
    ensures
        !sym(ts, p, Symbol::RParen),
        0 <= p < q <= ts.len(),
    decreases args.len(),
{
    if args.len() == 1 {
        lemma_starts(args[0], ts, p, q, 0, true);
    } else {
        let m = choose|m: int|
            p < m < q && (#[trigger] ts[m]).0 == Token::Sym(Symbol::Comma) && list_spelled(args.drop_last(), ts, p, m)
                && spells(args.last(), ts, m + 1, q, 0, true);
        lemma_list_starts(args.drop_last(), ts, p, m);
    }
}

proof fn lemma_list_accepted(args: Seq<Term>, ts: Seq<Placed>, p: int, q: int, before: Seq<Term>)
    requires
        list_spelled(args, ts, p, q),
        sym(ts, q, Symbol::Comma) || sym(ts, q, Symbol::RParen),
    ensures
        arguments(ts, p, before) == (if sym(ts, q, Symbol::Comma) {
            arguments(ts, q + 1, before + args)
        } else {
            Parse::Done(before + args, q)
        }),
    decreases q - p, 3int,
{
    lemma_list_starts(args, ts, p, q);
    assert(ends(ts, q));
    assert(loosens(ts, q, 0));
    if args.len() == 1 {
        lemma_accepted(args[0], ts, p, q, 0);
        assert(before.push(args[0]) =~= before + args);
    } else {
        let rest = args.drop_last();
        let m = choose|m: int|
            p < m < q && (#[trigger] ts[m]).0 == Token::Sym(Symbol::Comma) && list_spelled(rest, ts, p, m) && spells(
                args.last(),
                ts,
                m + 1,
                q,
                0,
                true,
            );
        assert(sym(ts, m, Symbol::Comma));
        lemma_list_accepted(rest, ts, p, m, before);
        lemma_accepted(args.last(), ts, m + 1, q, 0);
        assert((before + rest).push(args.last()) =~= before + args);
    }
}

/// An expression is read whole where no operator that follows holds as tightly.
proof fn lemma_accepted(t: Term, ts: Seq<Placed>, p: int, q: int, level: int)
    requires
        0 <= level <= 8,
        spells(t, ts, p, q, level, true),
        ends(ts, q),
        loosens(ts, q, level),
    ensures
        expression(ts, p, level) == Parse::Done(t, q),
        0 <= p < q <= ts.len(),
    decreases q - p, 2int,
{
    lemma_no_infix(ts, q, level);
    if compact(t, ts, p, q) {
        lemma_compact_accepted(t, ts, p, q);
    } else {
        match t {
            Formula::Unary(op, e) => {
                assert(loosens(ts, q, 7));
                lemma_accepted(*e, ts, p + 1, q, 7);
                assert(sym(ts, p, prefix_mark(op)));
                assert(prefixed(ts, p) == Parse::Done(t, q));
            },
            Formula::Binary(op, a, b) => {
                let m = choose|m: int|
                    p < m < q && (#[trigger] ts[m]).0 == Token::Sym(infix_mark(op)) && spells(
                        *a,
                        ts,
                        p,
                        m,
                        left_level(op),
                        false,
                    ) && spells(*b, ts, m + 1, q, right_level(op), true);
                assert(sym(ts, m, infix_mark(op)));
                lemma_mark(op);
                lemma_reached(*a, ts, p, m, op, level);
                assert(loosens(ts, q, right_level(op)));
                lemma_accepted(*b, ts, m + 1, q, right_level(op));
                assert(infix_at(ts, m, level) == Some((op, right_level(op))));
                assert(infixes(ts, m, level, *a) == infixes(ts, q, level, t));
            },
            _ => {},
        }
    }
}

/// The left side of an operator has been read when the operator is met.
proof fn lemma_reached(t: Term, ts: Seq<Placed>, p: int, q: int, next: BinaryOp, least: int)
    requires
        spells(t, ts, p, q, left_level(next), false),
        sym(ts, q, infix_mark(next)),
        tightness(next) >= least,
    ensures
        expression(ts, p, least) == infixes(ts, q, least, t),
        0 <= p < q <= ts.len(),
    decreases q - p, 1int,
{
    lemma_mark(next);
    assert(ends(ts, q));
    assert forall|op: BinaryOp| #[trigger] sym(ts, q, infix_mark(op)) implies op == next by {
        lemma_mark(op);
    }
    if compact(t, ts, p, q) {
        lemma_compact_accepted(t, ts, p, q);
    } else {
        match t {
            Formula::Unary(op, e) => {
                assert(loosens(ts, q, 7));
                lemma_accepted(*e, ts, p + 1, q, 7);
                assert(sym(ts, p, prefix_mark(op)));
                assert(prefixed(ts, p) == Parse::Done(t, q));
            },
            Formula::Binary(op, a, b) => {
                let m = choose|m: int|
                    p < m < q && (#[trigger] ts[m]).0 == Token::Sym(infix_mark(op)) && spells(
                        *a,
                        ts,
                        p,
                        m,
                        left_level(op),
                        false,
                    ) && spells(*b, ts, m + 1, q, right_level(op), true);
                assert(sym(ts, m, infix_mark(op)));
                lemma_mark(op);
                lemma_reached(*a, ts, p, m, op, least);
                assert(loosens(ts, q, right_level(op)));
                lemma_accepted(*b, ts, m + 1, q, right_level(op));
                assert(infix_at(ts, m, least) == Some((op, right_level(op))));
                assert(infixes(ts, m, least, *a) == infixes(ts, q, least, t));
            },
            _ => {},
        }
    }
}

// -- laws -------------------------------------------------------------------

/// A source says an expression exactly if its tokens, all of them, spell it. So
/// `||` holds its sides least tightly, then `&&`, then equality, order, sums,
/// products, the prefix operators and powers; operators of one kind are taken
/// from left to right, powers from right to left; parentheses go before all of
/// this.
pub proof fn law_sources_say_what_they_spell(src: Seq<char>, t: Term)
    ensures
        parsed(src) == Ok::<Term, SyntaxFault>(t) <==> (lexed(encode_utf8(src), 0) matches Ok(ts) && spells(
            t,
            ts,
            0,
            ts.len() as int,
            0,
            true,
        )),
{
    if let Ok(ts) = lexed(encode_utf8(src), 0) {
        let n = ts.len() as int;
        if parsed(src) == Ok::<Term, SyntaxFault>(t) {
            lemma_progress(ts, 0, 0);
            lemma_expression_read(ts, 0, 0);
        }
        if spells(t, ts, 0, n, 0, true) {
            assert(ends(ts, n));
            assert(loosens(ts, n, 0));
            lemma_accepted(t, ts, 0, n, 0);
        }
    }
}

/// Tokens that are spelled are spelled in one way only.
pub proof fn law_sources_say_one_thing(src: Seq<char>, ts: Seq<Placed>, t: Term, u: Term)
    requires
        lexed(encode_utf8(src), 0) matches Ok(found) && found == ts,
        spells(t, ts, 0, ts.len() as int, 0, true),
        spells(u, ts, 0, ts.len() as int, 0, true),
    ensures
        t == u,
{
    law_sources_say_what_they_spell(src, t);
    law_sources_say_what_they_spell(src, u);
}

/// The expression that a single name or number says.
pub open spec fn atom(t: Token) -> Term {
    match t {
        Token::Num(text) => Formula::Num(text),
        Token::Ident(name) => Formula::Stat(Reference { source: None, stat: name, tags: None }),
        Token::Sym(_) => arbitrary(),
    }
}

proof fn lemma_atom(ts: Seq<Placed>, p: int, level: int, open: bool)
    requires
        0 <= p < ts.len(),
        !(ts[p].0 is Sym),
    ensures
        spells(atom(ts[p].0), ts, p, p + 1, level, open),
{
    if let Token::Ident(name) = ts[p].0 {
        let list = seq![name];
        assert(segments_spelled(list, ts, p, p + 1));
        assert(joined(list) == name);
        assert(name_spelled(name, ts, p, p + 1));
        assert(filter_spelled(None, ts, p + 1, p + 1));
        assert(stat_spelled(name, None, ts, p, p + 1));
    }
}

/// Whether the second of two operators takes the operand between them: it holds
/// more tightly, or both are powers.
pub open spec fn takes_from(first: BinaryOp, second: BinaryOp) -> bool {
    tightness(second) > tightness(first) || first == BinaryOp::Pow && second == BinaryOp::Pow
}

/// In `a first b second c`, where `a`, `b` and `c` are names or numbers, the
/// operand in the middle goes to the operator that holds more tightly, and to
/// the first of two that hold alike, except for powers: each of `*`, `/` and `%`
/// goes before each of `+` and `-`, on either side of it.
pub proof fn law_tighter_operators_go_first(src: Seq<char>, ts: Seq<Placed>, first: BinaryOp, second: BinaryOp)
    requires
        lexed(encode_utf8(src), 0) matches Ok(found) && found == ts,
        ts.len() == 5,
        !(ts[0].0 is Sym),
        ts[1].0 == Token::Sym(infix_mark(first)),
        !(ts[2].0 is Sym),
        ts[3].0 == Token::Sym(infix_mark(second)),
        !(ts[4].0 is Sym),
    ensures
        parsed(src) == Ok::<Term, SyntaxFault>(
            if takes_from(first, second) {
                Formula::Binary(
                    first,
                    Box::new(atom(ts[0].0)),
                    Box::new(Formula::Binary(second, Box::new(atom(ts[2].0)), Box::new(atom(ts[4].0)))),
                )
            } else {
                Formula::Binary(
                    second,
                    Box::new(Formula::Binary(first, Box::new(atom(ts[0].0)), Box::new(atom(ts[2].0)))),
                    Box::new(atom(ts[4].0)),
                )
            },
        ),
{
    let (a, b, c) = (atom(ts[0].0), atom(ts[2].0), atom(ts[4].0));
    if takes_from(first, second) {
        let inner = Formula::Binary(second, Box::new(b), Box::new(c));
        let t = Formula::Binary(first, Box::new(a), Box::new(inner));
        lemma_atom(ts, 0, left_level(first), false);
        lemma_atom(ts, 2, left_level(second), false);
        lemma_atom(ts, 4, right_level(second), true);
        assert(spells(inner, ts, 2, 5, right_level(first), true)) by {
            assert(ts[3].0 == Token::Sym(infix_mark(second)));
        }
        assert(spells(t, ts, 0, 5, 0, true)) by {
            assert(ts[1].0 == Token::Sym(infix_mark(first)));
        }
        law_sources_say_what_they_spell(src, t);
    } else {
        let inner = Formula::Binary(first, Box::new(a), Box::new(b));
        let t = Formula::Binary(second, Box::new(inner), Box::new(c));
        lemma_atom(ts, 0, left_level(first), false);
        lemma_atom(ts, 2, right_level(first), true);
        lemma_atom(ts, 4, right_level(second), true);
        assert(spells(inner, ts, 0, 3, left_level(second), false)) by {
            assert(ts[1].0 == Token::Sym(infix_mark(first)));
        }
        assert(spells(t, ts, 0, 5, 0, true)) by {
            assert(ts[3].0 == Token::Sym(infix_mark(second)));
        }
        law_sources_say_what_they_spell(src, t);
    }
}

/// `a + b / c` says what `a + (b / c)` says, and `a / b + c` what `(a / b) + c`
/// says, for names and numbers `a`, `b` and `c`, each of `+` and `-`, and each of
/// `*`, `/` and `%`.
pub proof fn law_products_go_before_sums(
    src: Seq<char>,
    ts: Seq<Placed>,
    grouped: Seq<char>,
    us: Seq<Placed>,
    sum: BinaryOp,
    product: BinaryOp,
)
    requires
        sum == BinaryOp::Add || sum == BinaryOp::Sub,
        product == BinaryOp::Mul || product == BinaryOp::Div || product == BinaryOp::Rem,
        lexed(encode_utf8(src), 0) matches Ok(found) && found == ts,
        lexed(encode_utf8(grouped), 0) matches Ok(found) && found == us,
        ts.len() == 5,
        us.len() == 7,
        !(ts[0].0 is Sym),
        !(ts[2].0 is Sym),
        !(ts[4].0 is Sym),
        ({
            ||| {
                &&& ts[1].0 == Token::Sym(infix_mark(sum))
                &&& ts[3].0 == Token::Sym(infix_mark(product))
                &&& us[0].0 == ts[0].0
                &&& us[1].0 == ts[1].0
                &&& us[2].0 == Token::Sym(Symbol::LParen)
                &&& us[3].0 == ts[2].0
                &&& us[4].0 == ts[3].0
                &&& us[5].0 == ts[4].0
                &&& us[6].0 == Token::Sym(Symbol::RParen)
            }
            ||| {
                &&& ts[1].0 == Token::Sym(infix_mark(product))
                &&& ts[3].0 == Token::Sym(infix_mark(sum))
                &&& us[0].0 == Token::Sym(Symbol::LParen)
                &&& us[1].0 == ts[0].0
                &&& us[2].0 == ts[1].0
                &&& us[3].0 == ts[2].0
                &&& us[4].0 == Token::Sym(Symbol::RParen)
                &&& us[5].0 == ts[3].0
                &&& us[6].0 == ts[4].0
            }
        }),
    ensures
        parsed(src) is Ok,
        parsed(grouped) is Ok,
        parsed(src)->Ok_0 == parsed(grouped)->Ok_0,
{
    let (a, b, c) = (atom(ts[0].0), atom(ts[2].0), atom(ts[4].0));
    if ts[1].0 == Token::Sym(infix_mark(sum)) {
        law_tighter_operators_go_first(src, ts, sum, product);
        let inner = Formula::Binary(product, Box::new(b), Box::new(c));
        let t = Formula::Binary(sum, Box::new(a), Box::new(inner));
        lemma_atom(us, 0, left_level(sum), false);
        lemma_atom(us, 3, left_level(product), false);
        lemma_atom(us, 5, right_level(product), true);
        assert(spells(inner, us, 3, 6, 0, true)) by {
            assert(us[4].0 == Token::Sym(infix_mark(product)));
        }
        assert(spells(inner, us, 2, 7, right_level(sum), true));
        assert(spells(t, us, 0, 7, 0, true)) by {
            assert(us[1].0 == Token::Sym(infix_mark(sum)));
        }
        law_sources_say_what_they_spell(grouped, t);
    } else {
        law_tighter_operators_go_first(src, ts, product, sum);
        let inner = Formula::Binary(product, Box::new(a), Box::new(b));
        let t = Formula::Binary(sum, Box::new(inner), Box::new(c));
        lemma_atom(us, 1, left_level(product), false);
        lemma_atom(us, 3, right_level(product), true);
        lemma_atom(us, 6, right_level(sum), true);
        assert(spells(inner, us, 1, 4, 0, true)) by {
            assert(us[2].0 == Token::Sym(infix_mark(product)));
        }
        assert(spells(inner, us, 0, 5, left_level(sum), false));
        assert(spells(t, us, 0, 7, 0, true)) by {
            assert(us[5].0 == Token::Sym(infix_mark(sum)));
        }
        law_sources_say_what_they_spell(grouped, t);
    }
}

/// The tags of a path as a filter: none, where there are no tags.
pub open spec fn as_filter(tags: Seq<Seq<char>>) -> Option<Seq<Seq<char>>> {
    if tags.len() == 0 {
        None
    } else {
        Some(tags)
    }
}

/// A path says a stat and tags exactly if its tokens, all of them, are the name
/// of the stat, and the tags in braces if there are any.
pub proof fn law_paths_say_what_they_spell(path: Seq<char>, stat: Seq<char>, tags: Seq<Seq<char>>)
    ensures
        path_parsed(path) == Ok::<_, SyntaxFault>((stat, tags)) <==> (lexed(encode_utf8(path), 0) matches Ok(ts)
            && stat_spelled(stat, as_filter(tags), ts, 0, ts.len() as int)),
{
    if let Ok(ts) = lexed(encode_utf8(path), 0) {
        let n = ts.len() as int;
        if path_parsed(path) == Ok::<_, SyntaxFault>((stat, tags)) {
            if let Some(Token::Ident(first)) = tok(ts, 0) {
                lemma_dotted(ts, 1, first);
                lemma_name_read(ts, 0, first);
                if let Parse::Done(name, a) = dotted(ts, 1, first) {
                    lemma_filter_read(ts, a);
                    if let Parse::Done(filter, q) = tag_filter(ts, a) {
                        assert(filter_spelled(filter, ts, a, q));
                        assert(q == n);
                        assert(filter == as_filter(tags));
                        assert(name_spelled(stat, ts, 0, a) && filter_spelled(as_filter(tags), ts, a, n));
                    }
                }
            }
        }
        if stat_spelled(stat, as_filter(tags), ts, 0, n) {
            assert(ends(ts, n));
            let (first, a) = lemma_stat_accepted(stat, as_filter(tags), ts, 0, n);
            if tags.len() == 0 {
                assert(tags =~= Seq::empty());
            }
            assert(stat_path(ts) == Parse::Done((stat, tags), n));
        }
    }
}

} // verus!
