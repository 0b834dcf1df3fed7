//! Parentheses around a source change nothing of what it says.

use crate::error::{FaultKind, SyntaxFault};
use crate::lexer::{
    blank, lemma_token_end, lexed, name_end, name_part, number_end, number_part, symbol_at, token_at, two_dots, Placed,
    Symbol, Token,
};
use crate::parser::{
    arguments, call, dotted, expression, infix_at, infixes, lemma_arguments, lemma_dotted, lemma_prefixed,
    lemma_progress, parsed, prefixed, primary, reference, sym, tag_filter, tag_list, tok, Parse, PREFIX_POWER, Term,
};
use crate::text::latin;
use crate::tree::{func_named, Formula, Func};
use vstd::prelude::*;
use vstd::utf8::{encode_utf8, is_ascii_chars, is_ascii_chars_encode_utf8};

verus! {

/// A source in parentheses.
pub open spec fn parenthesised(src: Seq<char>) -> Seq<char> {
    (seq!['('] + src).push(')')
}

/// Bytes in parentheses.
spec fn enclosed(bytes: Seq<u8>) -> Seq<u8> {
    (seq![0x28u8] + bytes).push(0x29u8)
}

proof fn lemma_encode_add(a: Seq<char>, b: Seq<char>)
    ensures
        encode_utf8(a + b) == encode_utf8(a) + encode_utf8(b),
    decreases a.len(),
{
    if a.len() == 0 {
        assert(a + b =~= b);
        assert(encode_utf8(a) + encode_utf8(b) =~= encode_utf8(b));
    } else {
        assert((a + b).drop_first() =~= a.drop_first() + b);
        lemma_encode_add(a.drop_first(), b);
        assert(encode_utf8(a + b) =~= encode_utf8(a) + encode_utf8(b));
    }
}

proof fn lemma_encode_one(c: char)
    requires
        c <= '\u{7f}',
    ensures
        encode_utf8(seq![c]) == seq![c as u8],
{
    assert(is_ascii_chars(seq![c]));
    is_ascii_chars_encode_utf8(seq![c]);
    assert(seq![c][0] == c);
    assert(encode_utf8(seq![c])[0] == c as u8);
    assert(encode_utf8(seq![c]) =~= seq![c as u8]);
}

proof fn lemma_encode_parenthesised(src: Seq<char>)
    ensures
        encode_utf8(parenthesised(src)) == enclosed(encode_utf8(src)),
{
    let open = seq!['('];
    let close = seq![')'];
    assert(parenthesised(src) =~= open + src + close);
    lemma_encode_add(open + src, close);
    lemma_encode_add(open, src);
    lemma_encode_one('(');
    lemma_encode_one(')');
    assert(encode_utf8(parenthesised(src)) =~= enclosed(encode_utf8(src)));
}

proof fn lemma_enclosed_name(b: Seq<u8>, i: int)
    requires
        0 <= i <= b.len(),
    ensures
        name_end(enclosed(b), i + 1) == name_end(b, i) + 1,
    decreases b.len() - i,
{
    if i < b.len() {
        assert(enclosed(b)[i + 1] == b[i]);
        if name_part(b[i]) {
            lemma_enclosed_name(b, i + 1);
        }
    } else {
        assert(enclosed(b)[i + 1] == 0x29);
    }
}

proof fn lemma_enclosed_number(b: Seq<u8>, i: int)
    requires
        0 <= i <= b.len(),
    ensures
        number_end(enclosed(b), i + 1) == number_end(b, i) + 1,
    decreases b.len() - i,
{
    if i < b.len() {
        assert(enclosed(b)[i + 1] == b[i]);
        if number_part(b[i]) {
            lemma_enclosed_number(b, i + 1);
        }
    } else {
        assert(enclosed(b)[i + 1] == 0x29);
    }
}

/// A token of the source is the same token in parentheses.
proof fn lemma_enclosed_token(b: Seq<u8>, i: int)
    requires
        0 <= i < b.len(),
        token_at(b, i) is Ok,
    ensures
        token_at(b, i) matches Ok((token, end)) && token_at(enclosed(b), i + 1) == Ok::<(Token, int), FaultKind>(
            (token, end + 1),
        ),
{
    let big = enclosed(b);
    assert(big[i + 1] == b[i]);
    lemma_token_end(b, i);
    lemma_enclosed_name(b, i);
    lemma_enclosed_number(b, i);
    if i + 1 < b.len() {
        assert(big[i + 2] == b[i + 1]);
    } else {
        assert(big[i + 2] == 0x29);
    }
    if let Ok((token, end)) = token_at(b, i) {
        assert forall|j: int| i <= j < end implies #[trigger] b[j] == big[j + 1] by {}
        assert(latin(big, i + 1, end + 1) =~= latin(b, i, end));
        if two_dots(big, i + 1, end + 1) {
            let (x, y) = choose|x: int, y: int|
                i + 1 <= x < y < end + 1 && #[trigger] big[x] == 0x2E && #[trigger] big[y] == 0x2E;
            assert(b[x - 1] == big[x] && b[y - 1] == big[y]);
            assert(two_dots(b, i, end));
        }
        assert(symbol_at(big, i + 1) == symbol_at(b, i));
    }
}

/// The tokens with their places moved on by one, and a closing parenthesis.
spec fn moved(ts: Seq<Placed>, end: int) -> Seq<Placed> {
    ts.map_values(|t: Placed| (t.0, t.1 + 1)).push((Token::Sym(Symbol::RParen), end))
}

proof fn lemma_enclosed_lexed(b: Seq<u8>, i: int)
    requires
        0 <= i <= b.len(),
        lexed(b, i) is Ok,
    ensures
        lexed(b, i) matches Ok(ts) && lexed(enclosed(b), i + 1) == Ok::<Seq<Placed>, (FaultKind, int)>(
            moved(ts, b.len() as int + 1),
        ),
    decreases b.len() - i,
{
    let big = enclosed(b);
    if i == b.len() {
        assert(big[i + 1] == 0x29);
        assert(token_at(big, i + 1) == Ok::<(Token, int), FaultKind>((Token::Sym(Symbol::RParen), i + 2)));
        assert(lexed(big, i + 2) == Ok::<Seq<Placed>, (FaultKind, int)>(Seq::empty()));
        assert(seq![(Token::Sym(Symbol::RParen), i + 1)] + Seq::<Placed>::empty() =~= moved(Seq::empty(), i + 1));
    } else {
        assert(big[i + 1] == b[i]);
        if blank(b[i]) {
            lemma_enclosed_lexed(b, i + 1);
        } else {
            lemma_token_end(b, i);
            lemma_enclosed_token(b, i);
            if let Ok((token, end)) = token_at(b, i) {
                lemma_enclosed_lexed(b, end);
                if let Ok(rest) = lexed(b, end) {
                    let ts = seq![(token, i)] + rest;
                    assert(seq![(token, i + 1)] + moved(rest, b.len() as int + 1) =~= moved(ts, b.len() as int + 1));
                }
            }
        }
    }
}

/// `big` is `ts` between parentheses.
spec fn framed(ts: Seq<Placed>, big: Seq<Placed>) -> bool {
    &&& big.len() == ts.len() + 2
    &&& forall|p: int| 0 <= p < ts.len() ==> (#[trigger] ts[p]).0 == big[p + 1].0
    &&& big[0].0 == Token::Sym(Symbol::LParen)
    &&& big[ts.len() as int + 1].0 == Token::Sym(Symbol::RParen)
}

/// Each token is one place further on; after the last one comes a closing
/// parenthesis.
proof fn lemma_framed_tok(ts: Seq<Placed>, big: Seq<Placed>, p: int)
    requires
        framed(ts, big),
        0 <= p,
    ensures
        p < ts.len() ==> tok(big, p + 1) == tok(ts, p),
        p == ts.len() ==> tok(big, p + 1) == Some(Token::Sym(Symbol::RParen)) && tok(ts, p) is None,
        p > ts.len() ==> tok(big, p + 1) is None && tok(ts, p) is None,
{
    if p < ts.len() {
        assert(ts[p].0 == big[p + 1].0);
    }
}

proof fn lemma_framed_dotted(ts: Seq<Placed>, big: Seq<Placed>, p: int, name: Seq<char>)
    requires
        framed(ts, big),
        0 <= p,
        dotted(ts, p, name) is Done,
    ensures
        dotted(ts, p, name) matches Parse::Done(v, q) && dotted(big, p + 1, name) == Parse::Done(v, q + 1),
    decreases ts.len() - p,
{
    lemma_framed_tok(ts, big, p);
    lemma_framed_tok(ts, big, p + 1);
    if sym(ts, p, Symbol::Dot) {
        if let Some(Token::Ident(segment)) = tok(ts, p + 1) {
            lemma_framed_dotted(ts, big, p + 2, name.push('.') + segment);
        }
    }
}

proof fn lemma_framed_tags(ts: Seq<Placed>, big: Seq<Placed>, p: int, tags: Seq<Seq<char>>)
    requires
        framed(ts, big),
        0 <= p,
        tag_list(ts, p, tags) is Done,
    ensures
        tag_list(ts, p, tags) matches Parse::Done(v, q) && tag_list(big, p + 1, tags) == Parse::Done(v, q + 1),
    decreases ts.len() - p,
{
    lemma_framed_tok(ts, big, p);
    lemma_framed_tok(ts, big, p + 1);
    if let Some(Token::Ident(tag)) = tok(ts, p) {
        if sym(ts, p + 1, Symbol::Comma) || sym(ts, p + 1, Symbol::Pipe) {
            lemma_framed_tags(ts, big, p + 2, tags.push(tag));
        }
    }
}

proof fn lemma_framed_filter(ts: Seq<Placed>, big: Seq<Placed>, p: int)
    requires
        framed(ts, big),
        0 <= p,
        tag_filter(ts, p) is Done,
    ensures
        tag_filter(ts, p) matches Parse::Done(v, q) && tag_filter(big, p + 1) == Parse::Done(v, q + 1),
{
    lemma_framed_tok(ts, big, p);
    if sym(ts, p, Symbol::LBrace) {
        lemma_framed_tags(ts, big, p + 1, Seq::empty());
    }
}

proof fn lemma_framed_reference(ts: Seq<Placed>, big: Seq<Placed>, p: int, first: Seq<char>)
    requires
        framed(ts, big),
        0 <= p <= ts.len(),
        reference(ts, p, first) is Done,
    ensures
        reference(ts, p, first) matches Parse::Done(v, q) && reference(big, p + 1, first) == Parse::Done(v, q + 1),
{
    lemma_dotted(ts, p, first);
    lemma_framed_dotted(ts, big, p, first);
    if let Parse::Done(_, q) = dotted(ts, p, first) {
        lemma_framed_tok(ts, big, q);
        lemma_framed_tok(ts, big, q + 1);
        if sym(ts, q, Symbol::At) {
            if let Some(Token::Ident(segment)) = tok(ts, q + 1) {
                lemma_dotted(ts, q + 2, segment);
                lemma_framed_dotted(ts, big, q + 2, segment);
                if let Parse::Done(_, r) = dotted(ts, q + 2, segment) {
                    lemma_framed_filter(ts, big, r);
                }
            }
        } else {
            lemma_framed_filter(ts, big, q);
        }
    }
}

proof fn lemma_framed_expression(ts: Seq<Placed>, big: Seq<Placed>, p: int, least: int)
    requires
        framed(ts, big),
        0 <= p <= ts.len(),
        expression(ts, p, least) is Done,
    ensures
        expression(ts, p, least) matches Parse::Done(v, q) && expression(big, p + 1, least) == Parse::Done(v, q + 1),
    decreases ts.len() - p, 3int,
{
    lemma_prefixed(ts, p);
    lemma_framed_prefixed(ts, big, p);
    if let Parse::Done(lhs, q) = prefixed(ts, p) {
        lemma_framed_infixes(ts, big, q, least, lhs);
    }
}

proof fn lemma_framed_infixes(ts: Seq<Placed>, big: Seq<Placed>, p: int, least: int, lhs: Term)
    requires
        framed(ts, big),
        0 <= p <= ts.len(),
        infixes(ts, p, least, lhs) is Done,
    ensures
        infixes(ts, p, least, lhs) matches Parse::Done(v, q) && infixes(big, p + 1, least, lhs) == Parse::Done(
            v,
            q + 1,
        ),
    decreases ts.len() - p, 0int,
{
    lemma_framed_tok(ts, big, p);
    if let Some((op, power)) = infix_at(ts, p, least) {
        lemma_progress(ts, p + 1, power);
        lemma_framed_expression(ts, big, p + 1, power);
        if let Parse::Done(rhs, q) = expression(ts, p + 1, power) {
            lemma_framed_infixes(ts, big, q, least, Formula::Binary(op, Box::new(lhs), Box::new(rhs)));
        }
    }
}

proof fn lemma_framed_prefixed(ts: Seq<Placed>, big: Seq<Placed>, p: int)
    requires
        framed(ts, big),
        0 <= p <= ts.len(),
        prefixed(ts, p) is Done,
    ensures
        prefixed(ts, p) matches Parse::Done(v, q) && prefixed(big, p + 1) == Parse::Done(v, q + 1),
    decreases ts.len() - p, 2int,
{
    lemma_framed_tok(ts, big, p);
    if sym(ts, p, Symbol::Minus) || sym(ts, p, Symbol::Bang) {
        lemma_framed_expression(ts, big, p + 1, PREFIX_POWER as int);
    } else {
        lemma_framed_primary(ts, big, p);
    }
}

proof fn lemma_framed_primary(ts: Seq<Placed>, big: Seq<Placed>, p: int)
    requires
        framed(ts, big),
        0 <= p <= ts.len(),
        primary(ts, p) is Done,
    ensures
        primary(ts, p) matches Parse::Done(v, q) && primary(big, p + 1) == Parse::Done(v, q + 1),
    decreases ts.len() - p, 1int,
{
    lemma_framed_tok(ts, big, p);
    lemma_framed_tok(ts, big, p + 1);
    match tok(ts, p) {
        Some(Token::Num(_)) => {},
        Some(Token::Ident(first)) => {
            if sym(ts, p + 1, Symbol::LParen) {
                if let Some(f) = func_named(first) {
                    lemma_framed_call(ts, big, p, f);
                }
            } else {
                lemma_framed_reference(ts, big, p + 1, first);
            }
        },
        _ => {
            if sym(ts, p, Symbol::LParen) {
                lemma_progress(ts, p + 1, 0);
                lemma_framed_expression(ts, big, p + 1, 0);
                if let Parse::Done(_, q) = expression(ts, p + 1, 0) {
                    lemma_framed_tok(ts, big, q);
                }
            }
        },
    }
}

proof fn lemma_framed_call(ts: Seq<Placed>, big: Seq<Placed>, p: int, f: Func)
    requires
        framed(ts, big),
        0 <= p,
        p + 2 <= ts.len(),
        call(ts, p, f) is Done,
    ensures
        call(ts, p, f) matches Parse::Done(v, q) && call(big, p + 1, f) == Parse::Done(v, q + 1),
    decreases ts.len() - p, 0int,
{
    lemma_framed_tok(ts, big, p + 2);
    if !sym(ts, p + 2, Symbol::RParen) {
        lemma_arguments(ts, p + 2, Seq::empty());
        if arguments(ts, p + 2, Seq::empty()) is Done {
            assert(p + 2 < ts.len()) by {
                if p + 2 == ts.len() {
                    lemma_progress(ts, p + 2, 0);
                }
            }
            lemma_framed_arguments(ts, big, p + 2, Seq::empty());
            if let Parse::Done(_, q) = arguments(ts, p + 2, Seq::empty()) {
                lemma_framed_tok(ts, big, q);
            }
        }
    }
}

proof fn lemma_framed_arguments(ts: Seq<Placed>, big: Seq<Placed>, p: int, args: Seq<Term>)
    requires
        framed(ts, big),
        0 <= p <= ts.len(),
        arguments(ts, p, args) is Done,
    ensures
        arguments(ts, p, args) matches Parse::Done(v, q) && arguments(big, p + 1, args) == Parse::Done(v, q + 1),
    decreases ts.len() - p, 4int,
{
    lemma_progress(ts, p, 0);
    lemma_framed_expression(ts, big, p, 0);
    if let Parse::Done(e, q) = expression(ts, p, 0) {
        lemma_framed_tok(ts, big, q);
        if sym(ts, q, Symbol::Comma) {
            lemma_framed_arguments(ts, big, q + 1, args.push(e));
        }
    }
}

/// A source in parentheses says what the source says: it has the same
/// references and comes to the same value.
pub proof fn law_parentheses_change_nothing(src: Seq<char>)
    ensures
        parsed(src) matches Ok(term) ==> parsed(parenthesised(src)) == Ok::<Term, SyntaxFault>(term),
{
    if let Ok(term) = parsed(src) {
        let b = encode_utf8(src);
        let big = enclosed(b);
        lemma_encode_parenthesised(src);
        lemma_enclosed_lexed(b, 0);
        if let Ok(ts) = lexed(b, 0) {
            let inner = moved(ts, b.len() as int + 1);
            let all = seq![(Token::Sym(Symbol::LParen), 0int)] + inner;
            assert(big[0] == 0x28);
            assert(token_at(big, 0) == Ok::<(Token, int), FaultKind>((Token::Sym(Symbol::LParen), 1)));
            assert(lexed(big, 0) == Ok::<Seq<Placed>, (FaultKind, int)>(all));
            assert forall|p: int| 0 <= p < ts.len() implies (#[trigger] ts[p]).0 == all[p + 1].0 by {
                assert(all[p + 1] == inner[p]);
            }
            assert(all[ts.len() as int + 1] == inner[ts.len() as int]);
            assert(framed(ts, all));
            lemma_progress(ts, 0, 0);
            lemma_framed_expression(ts, all, 0, 0);
            lemma_framed_tok(ts, all, ts.len() as int);
            let n = ts.len() as int;
            assert(expression(all, 1, 0) == Parse::Done(term, n + 1));
            assert(primary(all, 0) == Parse::Done(term, n + 2));
            assert(prefixed(all, 0) == Parse::Done(term, n + 2));
            assert(infixes(all, n + 2, 0, term) == Parse::Done(term, n + 2));
        }
    }
}

} // verus!
