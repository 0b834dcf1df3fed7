//! The tokens of a source.
//!
//! [`covers`] says which tokens a source is made of, without saying how they
//! are found: they stand in it one after the other with nothing but blanks
//! between them, and each is as long as it can be.

use crate::error::FaultKind;
use crate::lexer::{
    blank, digit, dot_place, lemma_token_end, lexed, name_end, name_part, name_start, number_end, number_part, symbol_at,
    token_at, token_text, two_dots, without_leading, without_trailing, Placed, Symbol, Token,
};
use crate::text::latin;
use vstd::prelude::*;

verus! {

/// The bytes that a symbol is written with.
pub open spec fn symbol_bytes(s: Symbol) -> Seq<u8> {
    match s {
        Symbol::Plus => seq![0x2B],
        Symbol::Minus => seq![0x2D],
        Symbol::Star => seq![0x2A],
        Symbol::Slash => seq![0x2F],
        Symbol::Percent => seq![0x25],
        Symbol::Caret => seq![0x5E],
        Symbol::LParen => seq![0x28],
        Symbol::RParen => seq![0x29],
        Symbol::LBrace => seq![0x7B],
        Symbol::RBrace => seq![0x7D],
        Symbol::Comma => seq![0x2C],
        Symbol::Dot => seq![0x2E],
        Symbol::At => seq![0x40],
        Symbol::Bang => seq![0x21],
        Symbol::Lt => seq![0x3C],
        Symbol::Le => seq![0x3C, 0x3D],
        Symbol::Gt => seq![0x3E],
        Symbol::Ge => seq![0x3E, 0x3D],
        Symbol::EqEq => seq![0x3D, 0x3D],
        Symbol::Ne => seq![0x21, 0x3D],
        Symbol::AndAnd => seq![0x26, 0x26],
        Symbol::OrOr => seq![0x7C, 0x7C],
        Symbol::Pipe => seq![0x7C],
    }
}

/// Whether a byte is a space, a tab or a line end.
pub open spec fn gap(b: u8) -> bool {
    b == 0x20 || b == 0x09 || b == 0x0A || b == 0x0D
}

/// Whether a byte is `0` to `9`.
pub open spec fn numeral(b: u8) -> bool {
    0x30 <= b <= 0x39
}

/// Whether a byte is a letter or an underscore.
pub open spec fn letter(b: u8) -> bool {
    0x41 <= b <= 0x5A || 0x61 <= b <= 0x7A || b == 0x5F
}

/// Bytes `i..end` are a number: digits, the first of them at `i`, with at most
/// one dot among them; no digit or dot follows.
pub open spec fn number_at(text: Seq<char>, bytes: Seq<u8>, i: int, end: int) -> bool {
    &&& 0 <= i < end <= bytes.len()
    &&& text.len() == end - i
    &&& numeral(bytes[i])
    &&& forall|k: int|
        i <= k < end ==> (numeral(#[trigger] bytes[k]) || bytes[k] == 0x2E) && text[k - i] == bytes[k] as char
    &&& forall|a: int, b: int|
        i <= a < b < end ==> !(#[trigger] bytes[a] == 0x2E && #[trigger] bytes[b] == 0x2E)
    &&& end < bytes.len() ==> !numeral(bytes[end]) && bytes[end] != 0x2E
}

/// Bytes `i..end` are a name: a letter or an underscore, and then letters,
/// digits and underscores; none of these follows.
pub open spec fn name_at(text: Seq<char>, bytes: Seq<u8>, i: int, end: int) -> bool {
    &&& 0 <= i < end <= bytes.len()
    &&& text.len() == end - i
    &&& letter(bytes[i])
    &&& forall|k: int|
        i <= k < end ==> (letter(#[trigger] bytes[k]) || numeral(bytes[k])) && text[k - i] == bytes[k] as char
    &&& end < bytes.len() ==> !letter(bytes[end]) && !numeral(bytes[end])
}

/// Bytes `i..end` are a symbol, and no longer one starts there.
pub open spec fn mark_at(s: Symbol, bytes: Seq<u8>, i: int, end: int) -> bool {
    &&& 0 <= i < end <= bytes.len()
    &&& bytes.subrange(i, end) == symbol_bytes(s)
    &&& forall|longer: Symbol|
        i + 2 <= bytes.len() && #[trigger] symbol_bytes(longer) == bytes.subrange(i, i + 2) ==> longer == s
}

/// Bytes `i..end` are a token.
pub open spec fn stands(t: Token, bytes: Seq<u8>, i: int, end: int) -> bool {
    match t {
        Token::Num(text) => number_at(text, bytes, i, end),
        Token::Ident(name) => name_at(name, bytes, i, end),
        Token::Sym(s) => mark_at(s, bytes, i, end),
    }
}

/// From byte `i` on there are these tokens, and nothing but blanks besides.
pub open spec fn covers(ts: Seq<Placed>, bytes: Seq<u8>, i: int) -> bool
    decreases ts.len(),
{
    if ts.len() == 0 {
        forall|k: int| i <= k < bytes.len() ==> gap(#[trigger] bytes[k])
    } else {
        &&& i <= ts[0].1
        &&& forall|k: int| i <= k < ts[0].1 ==> gap(#[trigger] bytes[k])
        &&& exists|end: int| #[trigger] stands(ts[0].0, bytes, ts[0].1, end) && covers(ts.drop_first(), bytes, end)
    }
}

proof fn lemma_names_run(bytes: Seq<u8>, i: int)
    requires
        0 <= i <= bytes.len(),
    ensures
        i <= name_end(bytes, i) <= bytes.len(),
        forall|k: int| i <= k < name_end(bytes, i) ==> name_part(#[trigger] bytes[k]),
        name_end(bytes, i) < bytes.len() ==> !name_part(bytes[name_end(bytes, i)]),
    decreases bytes.len() - i,
{
    if i < bytes.len() && name_part(bytes[i]) {
        lemma_names_run(bytes, i + 1);
    }
}

proof fn lemma_numbers_run(bytes: Seq<u8>, i: int)
    requires
        0 <= i <= bytes.len(),
    ensures
        i <= number_end(bytes, i) <= bytes.len(),
        forall|k: int| i <= k < number_end(bytes, i) ==> number_part(#[trigger] bytes[k]),
        number_end(bytes, i) < bytes.len() ==> !number_part(bytes[number_end(bytes, i)]),
    decreases bytes.len() - i,
{
    if i < bytes.len() && number_part(bytes[i]) {
        lemma_numbers_run(bytes, i + 1);
    }
}

proof fn lemma_name_stops(bytes: Seq<u8>, i: int, end: int)
    requires
        0 <= i <= end <= bytes.len(),
        forall|k: int| i <= k < end ==> name_part(#[trigger] bytes[k]),
        end < bytes.len() ==> !name_part(bytes[end]),
    ensures
        name_end(bytes, i) == end,
    decreases end - i,
{
    if i < end {
        lemma_name_stops(bytes, i + 1, end);
    }
}

proof fn lemma_number_stops(bytes: Seq<u8>, i: int, end: int)
    requires
        0 <= i <= end <= bytes.len(),
        forall|k: int| i <= k < end ==> number_part(#[trigger] bytes[k]),
        end < bytes.len() ==> !number_part(bytes[end]),
    ensures
        number_end(bytes, i) == end,
    decreases end - i,
{
    if i < end {
        lemma_number_stops(bytes, i + 1, end);
    }
}

proof fn lemma_symbol_found(bytes: Seq<u8>, i: int)
    requires
        0 <= i < bytes.len(),
    ensures
        symbol_at(bytes, i) matches Some((s, n)) ==> i + n <= bytes.len() && mark_at(s, bytes, i, i + n),
{
    if let Some((s, n)) = symbol_at(bytes, i) {
        let own = symbol_bytes(s);
        assert(bytes.subrange(i, i + n) =~= own);
        assert forall|longer: Symbol|
            i + 2 <= bytes.len() && #[trigger] symbol_bytes(longer) == bytes.subrange(i, i + 2) implies longer == s by {
            let two = bytes.subrange(i, i + 2);
            assert(two[0] == bytes[i] && two[1] == bytes[i + 1]);
            let other = symbol_bytes(longer);
            assert(other.len() == 2 && other[0] == bytes[i] && other[1] == bytes[i + 1]);
        }
    }
}

proof fn lemma_symbol_known(s: Symbol, bytes: Seq<u8>, i: int, end: int)
    requires
        mark_at(s, bytes, i, end),
    ensures
        symbol_at(bytes, i) == Some((s, end - i)),
        !digit(bytes[i]),
        !name_start(bytes[i]),
        !blank(bytes[i]),
{
    let own = symbol_bytes(s);
    let here = bytes.subrange(i, end);
    assert(here[0] == bytes[i]);
    if own.len() == 2 {
        assert(here[1] == bytes[i + 1]);
    } else if i + 1 < bytes.len() {
        let two = bytes.subrange(i, i + 2);
        assert(two[0] == bytes[i] && two[1] == bytes[i + 1]);
        if two[0] == 0x21 && two[1] == 0x3D {
            assert(symbol_bytes(Symbol::Ne) =~= two);
        }
        if two[0] == 0x3C && two[1] == 0x3D {
            assert(symbol_bytes(Symbol::Le) =~= two);
        }
        if two[0] == 0x3E && two[1] == 0x3D {
            assert(symbol_bytes(Symbol::Ge) =~= two);
        }
        if two[0] == 0x7C && two[1] == 0x7C {
            assert(symbol_bytes(Symbol::OrOr) =~= two);
        }
    }
}

proof fn lemma_token_found(bytes: Seq<u8>, i: int)
    requires
        0 <= i < bytes.len(),
    ensures
        token_at(bytes, i) matches Ok((t, end)) ==> stands(t, bytes, i, end),
{
    if digit(bytes[i]) {
        lemma_numbers_run(bytes, i);
        let end = number_end(bytes, i);
        if !two_dots(bytes, i, end) {
            let text = latin(bytes, i, end);
            assert(i < end);
            assert(number_at(text, bytes, i, end));
        }
    } else if name_start(bytes[i]) {
        lemma_names_run(bytes, i);
        let end = name_end(bytes, i);
        let text = latin(bytes, i, end);
        assert(i < end);
        assert(name_at(text, bytes, i, end));
    } else {
        lemma_symbol_found(bytes, i);
    }
}

proof fn lemma_token_known(t: Token, bytes: Seq<u8>, i: int, end: int)
    requires
        stands(t, bytes, i, end),
    ensures
        0 <= i < end <= bytes.len(),
        !blank(bytes[i]),
        token_at(bytes, i) == Ok::<(Token, int), FaultKind>((t, end)),
{
    match t {
        Token::Num(text) => {
            assert forall|k: int| i <= k < end implies number_part(#[trigger] bytes[k]) by {}
            lemma_number_stops(bytes, i, end);
            assert(latin(bytes, i, end) =~= text);
            assert(!two_dots(bytes, i, end));
        },
        Token::Ident(name) => {
            assert forall|k: int| i <= k < end implies name_part(#[trigger] bytes[k]) by {}
            lemma_name_stops(bytes, i, end);
            assert(latin(bytes, i, end) =~= name);
        },
        Token::Sym(s) => lemma_symbol_known(s, bytes, i, end),
    }
}

proof fn lemma_covered(bytes: Seq<u8>, i: int)
    requires
        0 <= i <= bytes.len(),
    ensures
        lexed(bytes, i) matches Ok(ts) ==> covers(ts, bytes, i),
    decreases bytes.len() - i,
{
    if i < bytes.len() {
        if blank(bytes[i]) {
            lemma_covered(bytes, i + 1);
        } else {
            lemma_token_end(bytes, i);
            lemma_token_found(bytes, i);
            if let Ok((t, end)) = token_at(bytes, i) {
                lemma_covered(bytes, end);
                if let Ok(rest) = lexed(bytes, end) {
                    let ts = seq![(t, i)] + rest;
                    assert(ts.drop_first() =~= rest);
                    assert(stands(ts[0].0, bytes, ts[0].1, end));
                }
            }
        }
    }
}

proof fn lemma_found(ts: Seq<Placed>, bytes: Seq<u8>, i: int)
    requires
        0 <= i <= bytes.len(),
        covers(ts, bytes, i),
    ensures
        lexed(bytes, i) == Ok::<Seq<Placed>, (FaultKind, int)>(ts),
    decreases bytes.len() - i,
{
    if ts.len() == 0 {
        if i < bytes.len() {
            assert(gap(bytes[i]));
            lemma_found(ts, bytes, i + 1);
        } else {
            assert(ts =~= Seq::empty());
        }
    } else {
        let (t, at) = ts[0];
        let end = choose|end: int| #[trigger]
            stands(ts[0].0, bytes, ts[0].1, end) && covers(ts.drop_first(), bytes, end);
        lemma_token_known(t, bytes, at, end);
        if i < at {
            assert(gap(bytes[i]));
            assert(covers(ts, bytes, i + 1));
            lemma_found(ts, bytes, i + 1);
        } else {
            lemma_token_end(bytes, i);
            lemma_found(ts.drop_first(), bytes, end);
            assert(seq![(t, at)] + ts.drop_first() =~= ts);
        }
    }
}

/// The tokens of a source are exactly those that it is made of: they stand in
/// it one after the other, each as long as it can be, with nothing but blanks
/// besides. A source that is not made of tokens has none.
pub proof fn law_tokens_cover_the_source(bytes: Seq<u8>, ts: Seq<Placed>)
    ensures
        lexed(bytes, 0) == Ok::<Seq<Placed>, (FaultKind, int)>(ts) <==> covers(ts, bytes, 0),
{
    lemma_covered(bytes, 0);
    if covers(ts, bytes, 0) {
        lemma_found(ts, bytes, 0);
    }
}

/// From byte `i` to byte `to` there are these tokens of the source, and nothing
/// but blanks besides.
pub open spec fn covers_to(ts: Seq<Placed>, bytes: Seq<u8>, i: int, to: int) -> bool
    decreases ts.len(),
{
    if ts.len() == 0 {
        i <= to && forall|k: int| i <= k < to ==> gap(#[trigger] bytes[k])
    } else {
        &&& i <= ts[0].1
        &&& forall|k: int| i <= k < ts[0].1 ==> gap(#[trigger] bytes[k])
        &&& exists|end: int| #[trigger]
            stands(ts[0].0, bytes, ts[0].1, end) && covers_to(ts.drop_first(), bytes, end, to)
    }
}

/// Whether a symbol starts at byte `i`.
pub open spec fn starts(s: Symbol, bytes: Seq<u8>, i: int) -> bool {
    i + symbol_bytes(s).len() <= bytes.len() && bytes.subrange(i, i + symbol_bytes(s).len()) == symbol_bytes(s)
}

/// Whether what starts at byte `i` is no token, as `kind` says: digits with two
/// dots among them, or a character that starts no token.
pub open spec fn no_token(kind: FaultKind, bytes: Seq<u8>, i: int) -> bool {
    match kind {
        FaultKind::InvalidNumber => numeral(bytes[i]) && exists|a: int, b: int|
            i < a < b < bytes.len() && #[trigger] bytes[a] == 0x2E && #[trigger] bytes[b] == 0x2E && forall|k: int|
                i <= k <= b ==> numeral(#[trigger] bytes[k]) || bytes[k] == 0x2E,
        FaultKind::UnexpectedChar(_) => !gap(bytes[i]) && !numeral(bytes[i]) && !letter(bytes[i]) && forall|s: Symbol|
            !#[trigger] starts(s, bytes, i),
        _ => false,
    }
}

proof fn lemma_no_token(bytes: Seq<u8>, i: int)
    requires
        0 <= i < bytes.len(),
        !blank(bytes[i]),
    ensures
        token_at(bytes, i) matches Err(kind) ==> no_token(kind, bytes, i),
{
    if digit(bytes[i]) {
        lemma_numbers_run(bytes, i);
        let end = number_end(bytes, i);
        if two_dots(bytes, i, end) {
            let (a, b) = choose|a: int, b: int|
                i <= a < b < end && #[trigger] bytes[a] == 0x2E && #[trigger] bytes[b] == 0x2E;
            assert(i < a < b < bytes.len() && bytes[a] == 0x2E && bytes[b] == 0x2E);
            assert forall|k: int| i <= k <= b implies numeral(#[trigger] bytes[k]) || bytes[k] == 0x2E by {
                assert(number_part(bytes[k]));
            }
        }
    } else if !name_start(bytes[i]) && symbol_at(bytes, i) is None {
        assert forall|s: Symbol| !#[trigger] starts(s, bytes, i) by {
            if starts(s, bytes, i) {
                let own = symbol_bytes(s);
                let here = bytes.subrange(i, i + own.len());
                assert(here[0] == bytes[i] && here[0] == own[0]);
                if own.len() == 2 {
                    assert(here[1] == bytes[i + 1] && here[1] == own[1]);
                }
            }
        }
    }
}

proof fn lemma_covered_to(bytes: Seq<u8>, i: int) -> (ts: Seq<Placed>)
    requires
        0 <= i <= bytes.len(),
    ensures
        lexed(bytes, i) matches Err((kind, offset)) ==> i <= offset < bytes.len() && covers_to(ts, bytes, i, offset)
            && no_token(kind, bytes, offset),
    decreases bytes.len() - i,
{
    if i < bytes.len() {
        if blank(bytes[i]) {
            let ts = lemma_covered_to(bytes, i + 1);
            if let Err((_, offset)) = lexed(bytes, i + 1) {
                assert(covers_to(ts, bytes, i, offset)) by {
                    if ts.len() > 0 {
                        let end = choose|end: int| #[trigger]
                            stands(ts[0].0, bytes, ts[0].1, end) && covers_to(ts.drop_first(), bytes, end, offset);
                        assert(stands(ts[0].0, bytes, ts[0].1, end));
                    }
                }
            }
            ts
        } else {
            lemma_token_end(bytes, i);
            lemma_token_found(bytes, i);
            lemma_no_token(bytes, i);
            if let Ok((t, end)) = token_at(bytes, i) {
                let rest = lemma_covered_to(bytes, end);
                let ts = seq![(t, i)] + rest;
                assert(ts.drop_first() =~= rest);
                assert(stands(ts[0].0, bytes, ts[0].1, end));
                ts
            } else {
                Seq::empty()
            }
        }
    } else {
        Seq::empty()
    }
}

/// A source that is not made of tokens is at fault where its first tokens end
/// and none starts.
pub proof fn law_faults_stand_where_no_token_starts(bytes: Seq<u8>, kind: FaultKind, offset: int)
    requires
        lexed(bytes, 0) == Err::<Seq<Placed>, (FaultKind, int)>((kind, offset)),
    ensures
        0 <= offset < bytes.len(),
        exists|ts: Seq<Placed>| #[trigger] covers_to(ts, bytes, 0, offset),
        no_token(kind, bytes, offset),
{
    let ts = lemma_covered_to(bytes, 0);
    assert(covers_to(ts, bytes, 0, offset));
}

/// A name is shown as it is, and a symbol by its characters.
pub proof fn law_tokens_are_shown_as_they_stand(t: Token)
    ensures
        t matches Token::Ident(name) ==> token_text(t) == name,
        t matches Token::Sym(s) ==> token_text(t).len() == symbol_bytes(s).len() && forall|i: int|
            0 <= i < symbol_bytes(s).len() ==> #[trigger] token_text(t)[i] as int == symbol_bytes(s)[i],
{
    reveal_strlit("+");
    reveal_strlit("-");
    reveal_strlit("*");
    reveal_strlit("/");
    reveal_strlit("%");
    reveal_strlit("^");
    reveal_strlit("(");
    reveal_strlit(")");
    reveal_strlit("{");
    reveal_strlit("}");
    reveal_strlit(",");
    reveal_strlit(".");
    reveal_strlit("@");
    reveal_strlit("!");
    reveal_strlit("<");
    reveal_strlit("<=");
    reveal_strlit(">");
    reveal_strlit(">=");
    reveal_strlit("==");
    reveal_strlit("!=");
    reveal_strlit("&&");
    reveal_strlit("||");
    reveal_strlit("|");
}

/// Characters `a..b` of a number whose dot is at `d` are all of it but for zeros
/// that add nothing, and for a fraction that is nothing.
pub open spec fn significant(text: Seq<char>, d: int, a: int, b: int) -> bool {
    &&& 0 <= a < d <= b <= text.len()
    &&& forall|k: int| 0 <= k < a ==> #[trigger] text[k] == '0'
    &&& text[a] != '0' || a + 1 == d
    &&& forall|k: int| b <= k < text.len() && k > d ==> #[trigger] text[k] == '0'
    &&& b == d || b > d + 1 && text[b - 1] != '0'
}

proof fn lemma_dot_place(text: Seq<char>, i: int, d: int)
    requires
        0 <= i <= d <= text.len(),
        d < text.len() ==> text[d] == '.',
        forall|k: int| i <= k < d ==> #[trigger] text[k] != '.',
    ensures
        dot_place(text, i) == d,
    decreases d - i,
{
    if i < d {
        lemma_dot_place(text, i + 1, d);
    }
}

proof fn lemma_leading(text: Seq<char>, i: int, end: int)
    requires
        0 <= i < end <= text.len(),
    ensures
        i <= without_leading(text, i, end) < end,
        forall|k: int| i <= k < without_leading(text, i, end) ==> #[trigger] text[k] == '0',
        text[without_leading(text, i, end)] != '0' || without_leading(text, i, end) + 1 == end,
    decreases end - i,
{
    if i + 1 < end && text[i] == '0' {
        lemma_leading(text, i + 1, end);
    }
}

proof fn lemma_trailing(text: Seq<char>, i: int, end: int)
    requires
        0 <= i <= end <= text.len(),
    ensures
        i <= without_trailing(text, i, end) <= end,
        forall|k: int| without_trailing(text, i, end) <= k < end ==> #[trigger] text[k] == '0',
        without_trailing(text, i, end) > i ==> text[without_trailing(text, i, end) - 1] != '0',
    decreases end - i,
{
    if i < end && text[end - 1] == '0' {
        lemma_trailing(text, i, end - 1);
    }
}

/// A number is shown without the zeros in front of it and at the end of its
/// fraction that add nothing, and without a fraction that is nothing.
pub proof fn law_numbers_are_shown_plainly(text: Seq<char>, d: int)
    requires
        0 < d <= text.len(),
        d < text.len() ==> text[d] == '.',
        forall|k: int| 0 <= k < d ==> #[trigger] text[k] != '.',
    ensures
        exists|a: int, b: int| #[trigger]
            significant(text, d, a, b) && token_text(Token::Num(text)) == text.subrange(a, b),
{
    lemma_dot_place(text, 0, d);
    lemma_leading(text, 0, d);
    let a = without_leading(text, 0, d);
    let n = text.len() as int;
    let end = without_trailing(text, d + 1, n);
    if d < n {
        lemma_trailing(text, d + 1, n);
    }
    let b = if end <= d + 1 {
        d
    } else {
        end
    };
    assert(significant(text, d, a, b));
}

} // verus!
