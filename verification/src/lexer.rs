//! Splitting source text into tokens.

use crate::error::{FaultKind, ParseError, ParseErrorKind};
use crate::text::{chars_of, latin, latin_text, text_of};
use vstd::prelude::*;
use vstd::utf8::{
    char_u32_cast, decode_first_scalar, decode_utf8, decode_utf8_encode_utf8, decode_utf8_split, encode_utf8, encode_utf8_decode_utf8,
    encode_utf8_first_scalar, encode_utf8_valid_utf8, is_char_boundary, is_char_boundary_iff_not_is_continuation_byte,
    is_char_boundary_start_end_of_seq, pop_first_scalar, valid_first_scalar, valid_utf8, valid_utf8_split,
};

verus! {

/// A token without text of its own.
#[derive(Clone, Copy, Debug, PartialEq, Eq, Structural)]
pub enum Symbol {
    Plus,
    Minus,
    Star,
    Slash,
    Percent,
    Caret,
    LParen,
    RParen,
    LBrace,
    RBrace,
    Comma,
    Dot,
    At,
    Bang,
    Lt,
    Le,
    Gt,
    Ge,
    EqEq,
    Ne,
    AndAnd,
    OrOr,
    Pipe,
}

/// A token of the expression language.
#[derive(Clone, Debug, PartialEq)]
pub enum Tok {
    /// A numeric literal, as written.
    Num(String),
    /// A name.
    Ident(String),
    /// Anything else.
    Sym(Symbol),
}

/// What a [`Tok`] says.
pub enum Token {
    Num(Seq<char>),
    Ident(Seq<char>),
    Sym(Symbol),
}

impl View for Tok {
    type V = Token;

    open spec fn view(&self) -> Token {
        match self {
            Tok::Num(text) => Token::Num(text@),
            Tok::Ident(name) => Token::Ident(name@),
            Tok::Sym(s) => Token::Sym(*s),
        }
    }
}

/// The text of a symbol.
pub open spec fn symbol_text(s: Symbol) -> Seq<char> {
    match s {
        Symbol::Plus => "+"@,
        Symbol::Minus => "-"@,
        Symbol::Star => "*"@,
        Symbol::Slash => "/"@,
        Symbol::Percent => "%"@,
        Symbol::Caret => "^"@,
        Symbol::LParen => "("@,
        Symbol::RParen => ")"@,
        Symbol::LBrace => "{"@,
        Symbol::RBrace => "}"@,
        Symbol::Comma => ","@,
        Symbol::Dot => "."@,
        Symbol::At => "@"@,
        Symbol::Bang => "!"@,
        Symbol::Lt => "<"@,
        Symbol::Le => "<="@,
        Symbol::Gt => ">"@,
        Symbol::Ge => ">="@,
        Symbol::EqEq => "=="@,
        Symbol::Ne => "!="@,
        Symbol::AndAnd => "&&"@,
        Symbol::OrOr => "||"@,
        Symbol::Pipe => "|"@,
    }
}

/// The place of the first dot from `i` on, or the end.
pub open spec fn dot_place(text: Seq<char>, i: int) -> int
    decreases text.len() - i,
{
    if i >= text.len() || text[i] == '.' {
        i
    } else {
        dot_place(text, i + 1)
    }
}

/// Where the digits `i..end` start without leading zeros; the last digit stays.
pub open spec fn without_leading(text: Seq<char>, i: int, end: int) -> int
    decreases end - i,
{
    if i + 1 < end && text[i] == '0' {
        without_leading(text, i + 1, end)
    } else {
        i
    }
}

/// Where the digits `i..end` end without trailing zeros.
pub open spec fn without_trailing(text: Seq<char>, i: int, end: int) -> int
    decreases end - i,
{
    if i < end && text[end - 1] == '0' {
        without_trailing(text, i, end - 1)
    } else {
        end
    }
}

/// A numeric literal as its value is written: without zeros that add nothing,
/// and without a fraction if that is nothing.
pub open spec fn plain_number(text: Seq<char>) -> Seq<char> {
    let dot = dot_place(text, 0);
    let start = without_leading(text, 0, dot);
    let end = without_trailing(text, dot + 1, text.len() as int);
    text.subrange(start, if end <= dot + 1 { dot } else { end })
}

/// How a token is shown: a number as its value is written, anything else as
/// it stands in the source.
pub open spec fn token_text(t: Token) -> Seq<char> {
    match t {
        Token::Num(text) => plain_number(text),
        Token::Ident(name) => name,
        Token::Sym(s) => symbol_text(s),
    }
}

impl Symbol {
    /// The symbol as written.
    pub fn text(self) -> (text: &'static str)
        ensures
            text@ == symbol_text(self),
    {
        match self {
            Symbol::Plus => "+",
            Symbol::Minus => "-",
            Symbol::Star => "*",
            Symbol::Slash => "/",
            Symbol::Percent => "%",
            Symbol::Caret => "^",
            Symbol::LParen => "(",
            Symbol::RParen => ")",
            Symbol::LBrace => "{",
            Symbol::RBrace => "}",
            Symbol::Comma => ",",
            Symbol::Dot => ".",
            Symbol::At => "@",
            Symbol::Bang => "!",
            Symbol::Lt => "<",
            Symbol::Le => "<=",
            Symbol::Gt => ">",
            Symbol::Ge => ">=",
            Symbol::EqEq => "==",
            Symbol::Ne => "!=",
            Symbol::AndAnd => "&&",
            Symbol::OrOr => "||",
            Symbol::Pipe => "|",
        }
    }
}

fn show_number(text: &str) -> (shown: String)
    ensures
        shown@ == plain_number(text@),
{
    let chars = chars_of(text);
    let n: usize = chars.len();
    let mut dot: usize = 0;
    while dot < n && chars[dot] != '.'
        invariant
            n == chars@.len(),
            chars@ == text@,
            dot <= n,
            dot_place(text@, 0) == dot_place(text@, dot as int),
        decreases n - dot,
    {
        dot = dot + 1;
    }
    let mut start: usize = 0;
    while start < dot && dot - start > 1 && chars[start] == '0'
        invariant
            n == chars@.len(),
            chars@ == text@,
            start <= dot <= n,
            without_leading(text@, 0, dot as int) == without_leading(text@, start as int, dot as int),
        decreases dot - start,
    {
        start = start + 1;
    }
    if dot == n {
        return text_of(&chars, start, dot);
    }
    let mut end: usize = n;
    while end > dot + 1 && chars[end - 1] == '0'
        invariant
            n == chars@.len(),
            chars@ == text@,
            dot + 1 <= end <= n,
            without_trailing(text@, dot + 1, n as int) == without_trailing(text@, dot + 1, end as int),
        decreases end,
    {
        end = end - 1;
    }
    if end == dot + 1 {
        text_of(&chars, start, dot)
    } else {
        text_of(&chars, start, end)
    }
}

impl Tok {
    /// How the token is shown. A number that has more digits than single
    /// precision holds is shown with all of them.
    pub fn describe(&self) -> (text: String)
        ensures
            text@ == token_text(self@),
    {
        match self {
            Tok::Num(text) => show_number(text.as_str()),
            Tok::Ident(name) => name.clone(),
            Tok::Sym(s) => s.text().to_owned(),
        }
    }

    /// Whether this is the symbol `s`.
    pub fn is(&self, s: Symbol) -> (r: bool)
        ensures
            r == (self@ == Token::Sym(s)),
    {
        match self {
            Tok::Sym(t) => *t == s,
            _ => false,
        }
    }
}

/// Space, tab, line feed or carriage return.
pub open spec fn blank(b: u8) -> bool {
    b == 0x20 || b == 0x09 || b == 0x0A || b == 0x0D
}

/// `0` to `9`.
pub open spec fn digit(b: u8) -> bool {
    0x30 <= b <= 0x39
}

/// A letter or an underscore.
pub open spec fn name_start(b: u8) -> bool {
    0x41 <= b <= 0x5A || 0x61 <= b <= 0x7A || b == 0x5F
}

/// A byte that a name may go on with.
pub open spec fn name_part(b: u8) -> bool {
    name_start(b) || digit(b)
}

/// A byte that a numeric literal may go on with: a digit or a dot.
pub open spec fn number_part(b: u8) -> bool {
    digit(b) || b == 0x2E
}

/// Whether the byte at `i` is `b`.
pub open spec fn byte_at(bytes: Seq<u8>, i: int, b: u8) -> bool {
    i < bytes.len() && bytes[i] == b
}

/// The end of the longest run of name bytes from `i`.
pub open spec fn name_end(bytes: Seq<u8>, i: int) -> int
    decreases bytes.len() - i,
{
    if 0 <= i < bytes.len() && name_part(bytes[i]) {
        name_end(bytes, i + 1)
    } else {
        i
    }
}

/// The end of the longest run of number bytes from `i`.
pub open spec fn number_end(bytes: Seq<u8>, i: int) -> int
    decreases bytes.len() - i,
{
    if 0 <= i < bytes.len() && number_part(bytes[i]) {
        number_end(bytes, i + 1)
    } else {
        i
    }
}

/// Whether bytes `from..to` hold two dots.
pub open spec fn two_dots(bytes: Seq<u8>, from: int, to: int) -> bool {
    exists|a: int, b: int|
        from <= a < b < to && #[trigger] bytes[a] == 0x2E && #[trigger] bytes[b] == 0x2E
}

/// The symbol that starts at `i` and its length, the longer where two start
/// there.
pub open spec fn symbol_at(bytes: Seq<u8>, i: int) -> Option<(Symbol, int)> {
    let c = bytes[i];
    let eq = byte_at(bytes, i + 1, 0x3D);
    if c == 0x2B {
        Some((Symbol::Plus, 1))
    } else if c == 0x2D {
        Some((Symbol::Minus, 1))
    } else if c == 0x2A {
        Some((Symbol::Star, 1))
    } else if c == 0x2F {
        Some((Symbol::Slash, 1))
    } else if c == 0x25 {
        Some((Symbol::Percent, 1))
    } else if c == 0x5E {
        Some((Symbol::Caret, 1))
    } else if c == 0x28 {
        Some((Symbol::LParen, 1))
    } else if c == 0x29 {
        Some((Symbol::RParen, 1))
    } else if c == 0x7B {
        Some((Symbol::LBrace, 1))
    } else if c == 0x7D {
        Some((Symbol::RBrace, 1))
    } else if c == 0x2C {
        Some((Symbol::Comma, 1))
    } else if c == 0x2E {
        Some((Symbol::Dot, 1))
    } else if c == 0x40 {
        Some((Symbol::At, 1))
    } else if c == 0x21 {
        Some(if eq { (Symbol::Ne, 2) } else { (Symbol::Bang, 1) })
    } else if c == 0x3C {
        Some(if eq { (Symbol::Le, 2) } else { (Symbol::Lt, 1) })
    } else if c == 0x3E {
        Some(if eq { (Symbol::Ge, 2) } else { (Symbol::Gt, 1) })
    } else if c == 0x3D && eq {
        Some((Symbol::EqEq, 2))
    } else if c == 0x26 && byte_at(bytes, i + 1, 0x26) {
        Some((Symbol::AndAnd, 2))
    } else if c == 0x7C {
        Some(if byte_at(bytes, i + 1, 0x7C) { (Symbol::OrOr, 2) } else { (Symbol::Pipe, 1) })
    } else {
        None
    }
}

/// The token that starts at `i`, where no blank stands, and the position
/// after it.
pub open spec fn token_at(bytes: Seq<u8>, i: int) -> Result<(Token, int), FaultKind> {
    if digit(bytes[i]) {
        let end = number_end(bytes, i);
        if two_dots(bytes, i, end) {
            Err(FaultKind::InvalidNumber)
        } else {
            Ok((Token::Num(latin(bytes, i, end)), end))
        }
    } else if name_start(bytes[i]) {
        let end = name_end(bytes, i);
        Ok((Token::Ident(latin(bytes, i, end)), end))
    } else {
        match symbol_at(bytes, i) {
            Some((s, n)) => Ok((Token::Sym(s), i + n)),
            None => Err(FaultKind::UnexpectedChar(char_at(bytes, i))),
        }
    }
}

/// The character that starts at byte `i`.
pub open spec fn char_at(bytes: Seq<u8>, i: int) -> char {
    decode_first_scalar(bytes.subrange(i, bytes.len() as int)) as char
}

/// A token and the offset of its first byte.
pub type Placed = (Token, int);

/// The tokens of the source from byte `i` on, or the first fault met and its
/// offset.
pub open spec fn lexed(bytes: Seq<u8>, i: int) -> Result<Seq<Placed>, (FaultKind, int)>
    decreases bytes.len() - i,
{
    if !(0 <= i < bytes.len()) {
        Ok(Seq::empty())
    } else if blank(bytes[i]) {
        lexed(bytes, i + 1)
    } else {
        proof {
            lemma_token_end(bytes, i);
        }
        match token_at(bytes, i) {
            Err(kind) => Err((kind, i)),
            Ok((token, end)) => match lexed(bytes, end) {
                Err(fault) => Err(fault),
                Ok(rest) => Ok(seq![(token, i)] + rest),
            },
        }
    }
}

/// The placed tokens that a token list stands for.
pub open spec fn placed(tokens: Seq<(Tok, usize)>) -> Seq<Placed> {
    tokens.map_values(|t: (Tok, usize)| (t.0@, t.1 as int))
}

/// `before` put in front of what lexing the rest gives.
pub open spec fn after(
    before: Seq<Placed>,
    rest: Result<Seq<Placed>, (FaultKind, int)>,
) -> Result<Seq<Placed>, (FaultKind, int)> {
    match rest {
        Ok(tokens) => Ok(before + tokens),
        Err(fault) => Err(fault),
    }
}

proof fn lemma_name_end(bytes: Seq<u8>, i: int)
    requires
        0 <= i <= bytes.len(),
    ensures
        i <= name_end(bytes, i) <= bytes.len(),
        i < bytes.len() && name_part(bytes[i]) ==> i < name_end(bytes, i),
        i < name_end(bytes, i) ==> name_part(bytes[name_end(bytes, i) - 1]),
    decreases bytes.len() - i,
{
    if i < bytes.len() && name_part(bytes[i]) {
        lemma_name_end(bytes, i + 1);
    }
}

proof fn lemma_number_end(bytes: Seq<u8>, i: int)
    requires
        0 <= i <= bytes.len(),
    ensures
        i <= number_end(bytes, i) <= bytes.len(),
        i < bytes.len() && number_part(bytes[i]) ==> i < number_end(bytes, i),
        i < number_end(bytes, i) ==> number_part(bytes[number_end(bytes, i) - 1]),
    decreases bytes.len() - i,
{
    if i < bytes.len() && number_part(bytes[i]) {
        lemma_number_end(bytes, i + 1);
    }
}

/// A token ends after its start and within the source, with an ASCII byte.
pub proof fn lemma_token_end(bytes: Seq<u8>, i: int)
    requires
        0 <= i < bytes.len(),
    ensures
        token_at(bytes, i) matches Ok((token, end)) ==> i < end <= bytes.len() && bytes[end - 1] < 0x80,
{
    lemma_name_end(bytes, i);
    lemma_number_end(bytes, i);
}

/// A character starts after an ASCII byte.
proof fn lemma_after_ascii(bytes: Seq<u8>, i: int)
    requires
        valid_utf8(bytes),
        0 <= i < bytes.len(),
        bytes[i] < 0x80,
    ensures
        is_char_boundary(bytes, i + 1),
{
    is_char_boundary_iff_not_is_continuation_byte(bytes, i);
    let rest = bytes.subrange(i, bytes.len() as int);
    valid_utf8_split(bytes, i);
    assert(rest[0] == bytes[i]);
    if i + 1 == bytes.len() {
        is_char_boundary_start_end_of_seq(bytes);
    } else {
        let next = pop_first_scalar(rest);
        assert(next[0] == bytes[i + 1]);
        reveal_with_fuel(valid_utf8, 3);
        assert(valid_first_scalar(next));
        is_char_boundary_iff_not_is_continuation_byte(bytes, i + 1);
    }
}

/// The character that starts at byte `i` of a text.
fn scan_char(src: &str, i: usize) -> (c: char)
    requires
        is_char_boundary(encode_utf8(src@), i as int),
        i < encode_utf8(src@).len(),
    ensures
        c == char_at(encode_utf8(src@), i as int),
{
    let (_, rest) = src.split_at(i);
    let chars = chars_of(rest);
    proof {
        encode_utf8_first_scalar(rest@);
        char_u32_cast(rest@[0], decode_first_scalar(encode_utf8(rest@)));
    }
    chars[0]
}

fn scan_name(bytes: &[u8], from: usize) -> (end: usize)
    requires
        from <= bytes@.len(),
    ensures
        end == name_end(bytes@, from as int),
        from <= end <= bytes@.len(),
{
    let mut i: usize = from;
    while i < bytes.len() && (bytes[i] >= 0x41 && bytes[i] <= 0x5A || bytes[i] >= 0x61 && bytes[i]
        <= 0x7A || bytes[i] == 0x5F || bytes[i] >= 0x30 && bytes[i] <= 0x39)
        invariant
            from <= i <= bytes@.len(),
            name_end(bytes@, from as int) == name_end(bytes@, i as int),
        decreases bytes@.len() - i,
    {
        i = i + 1;
    }
    i
}

fn scan_number(bytes: &[u8], from: usize) -> (r: (usize, bool))
    requires
        from <= bytes@.len(),
    ensures
        r.0 == number_end(bytes@, from as int),
        from <= r.0 <= bytes@.len(),
        r.1 == two_dots(bytes@, from as int, r.0 as int),
{
    let mut i: usize = from;
    let mut one = false;
    let mut two = false;
    let ghost mut at: int = 0;
    while i < bytes.len() && (bytes[i] >= 0x30 && bytes[i] <= 0x39 || bytes[i] == 0x2E)
        invariant
            from <= i <= bytes@.len(),
            number_end(bytes@, from as int) == number_end(bytes@, i as int),
            one ==> from <= at < i && bytes@[at] == 0x2E,
            !one ==> forall|a: int| from <= a < i ==> #[trigger] bytes@[a] != 0x2E,
            !two ==> forall|a: int| from <= a < i && #[trigger] bytes@[a] == 0x2E ==> a == at,
            two ==> two_dots(bytes@, from as int, i as int),
        decreases bytes@.len() - i,
    {
        if bytes[i] == 0x2E {
            if one {
                two = true;
                assert(from <= at < i < i + 1 && bytes@[at] == 0x2E && bytes@[i as int] == 0x2E);
            } else {
                proof {
                    at = i as int;
                }
            }
            one = true;
        }
        i = i + 1;
    }
    (i, two)
}

fn has_byte(bytes: &[u8], i: usize, b: u8) -> (r: bool)
    requires
        i <= bytes@.len(),
    ensures
        r == byte_at(bytes@, i as int, b),
{
    i < bytes.len() && bytes[i] == b
}

fn scan_symbol(bytes: &[u8], i: usize) -> (r: Option<(Symbol, usize)>)
    requires
        i < bytes@.len(),
    ensures
        match r {
            Some((s, n)) => symbol_at(bytes@, i as int) == Some((s, n as int)) && 1 <= n <= bytes@.len() - i,
            None => symbol_at(bytes@, i as int) is None,
        },
{
    let c = bytes[i];
    let eq = has_byte(bytes, i + 1, 0x3D);
    if c == 0x2B {
        Some((Symbol::Plus, 1))
    } else if c == 0x2D {
        Some((Symbol::Minus, 1))
    } else if c == 0x2A {
        Some((Symbol::Star, 1))
    } else if c == 0x2F {
        Some((Symbol::Slash, 1))
    } else if c == 0x25 {
        Some((Symbol::Percent, 1))
    } else if c == 0x5E {
        Some((Symbol::Caret, 1))
    } else if c == 0x28 {
        Some((Symbol::LParen, 1))
    } else if c == 0x29 {
        Some((Symbol::RParen, 1))
    } else if c == 0x7B {
        Some((Symbol::LBrace, 1))
    } else if c == 0x7D {
        Some((Symbol::RBrace, 1))
    } else if c == 0x2C {
        Some((Symbol::Comma, 1))
    } else if c == 0x2E {
        Some((Symbol::Dot, 1))
    } else if c == 0x40 {
        Some((Symbol::At, 1))
    } else if c == 0x21 {
        if eq {
            Some((Symbol::Ne, 2))
        } else {
            Some((Symbol::Bang, 1))
        }
    } else if c == 0x3C {
        if eq {
            Some((Symbol::Le, 2))
        } else {
            Some((Symbol::Lt, 1))
        }
    } else if c == 0x3E {
        if eq {
            Some((Symbol::Ge, 2))
        } else {
            Some((Symbol::Gt, 1))
        }
    } else if c == 0x3D && eq {
        Some((Symbol::EqEq, 2))
    } else if c == 0x26 && has_byte(bytes, i + 1, 0x26) {
        Some((Symbol::AndAnd, 2))
    } else if c == 0x7C {
        if has_byte(bytes, i + 1, 0x7C) {
            Some((Symbol::OrOr, 2))
        } else {
            Some((Symbol::Pipe, 1))
        }
    } else {
        None
    }
}

/// The token at `i`, where no blank stands, and the position after it.
fn scan_token(src: &str, bytes: &[u8], i: usize) -> (r: Result<(Tok, usize), ParseErrorKind>)
    requires
        bytes@ == encode_utf8(src@),
        is_char_boundary(bytes@, i as int),
        i < bytes@.len(),
        !blank(bytes@[i as int]),
    ensures
        match r {
            Ok((tok, end)) => token_at(bytes@, i as int) == Ok::<(Token, int), FaultKind>((tok@, end as int)) && i < end
                <= bytes@.len(),
            Err(kind) => token_at(bytes@, i as int) == Err::<(Token, int), FaultKind>(kind@),
        },
{
    proof {
        lemma_token_end(bytes@, i as int);
    }
    let c = bytes[i];
    if c >= 0x30 && c <= 0x39 {
        let (end, two) = scan_number(bytes, i);
        if two {
            Err(ParseErrorKind::InvalidNumber)
        } else {
            Ok((Tok::Num(latin_text(bytes, i, end)), end))
        }
    } else if c >= 0x41 && c <= 0x5A || c >= 0x61 && c <= 0x7A || c == 0x5F {
        let end = scan_name(bytes, i);
        Ok((Tok::Ident(latin_text(bytes, i, end)), end))
    } else {
        match scan_symbol(bytes, i) {
            Some((s, n)) => Ok((Tok::Sym(s), i + n)),
            None => Err(ParseErrorKind::UnexpectedChar(scan_char(src, i))),
        }
    }
}

/// Splits a source text into tokens, each with its byte offset.
pub fn lex(src: &str) -> (r: Result<Vec<(Tok, usize)>, ParseError>)
    ensures
        match r {
            Ok(tokens) => lexed(encode_utf8(src@), 0) == Ok::<Seq<Placed>, (FaultKind, int)>(placed(tokens@)),
            Err(e) => lexed(encode_utf8(src@), 0) == Err::<Seq<Placed>, (FaultKind, int)>((e@.kind, e@.offset))
                && e@.src == src@,
        },
{
    let bytes = src.as_bytes();
    let mut out: Vec<(Tok, usize)> = Vec::new();
    let mut i: usize = 0;
    proof {
        encode_utf8_valid_utf8(src@);
        is_char_boundary_start_end_of_seq(bytes@);
        assert(placed(out@) =~= Seq::empty());
        assert(after(placed(out@), lexed(bytes@, 0)) == lexed(bytes@, 0)) by {
            match lexed(bytes@, 0) {
                Ok(tokens) => {
                    assert(Seq::<Placed>::empty() + tokens =~= tokens);
                },
                Err(_) => {},
            }
        }
    }
    while i < bytes.len()
        invariant
            i <= bytes@.len(),
            bytes@ == encode_utf8(src@),
            valid_utf8(bytes@),
            is_char_boundary(bytes@, i as int),
            lexed(bytes@, 0) == after(placed(out@), lexed(bytes@, i as int)),
        decreases bytes@.len() - i,
    {
        let c = bytes[i];
        if c == 0x20 || c == 0x09 || c == 0x0A || c == 0x0D {
            proof {
                lemma_after_ascii(bytes@, i as int);
            }
            i = i + 1;
        } else {
            match scan_token(src, bytes, i) {
                Err(kind) => {
                    return Err(ParseError { kind, offset: i, src: src.to_owned() });
                },
                Ok((tok, end)) => {
                    let ghost before = out@;
                    out.push((tok, i));
                    proof {
                        lemma_token_end(bytes@, i as int);
                        lemma_after_ascii(bytes@, end - 1);
                        assert(placed(out@) =~= placed(before).push((tok@, i as int)));
                        match lexed(bytes@, end as int) {
                            Ok(rest) => {
                                assert(placed(before) + (seq![(tok@, i as int)] + rest) =~= placed(out@) + rest);
                            },
                            Err(_) => {},
                        }
                    }
                    i = end;
                },
            }
        }
    }
    assert(placed(out@) + Seq::<Placed>::empty() =~= placed(out@));
    Ok(out)
}

/// Tokens and faults are placed within the source.
pub proof fn lemma_lexed_places(bytes: Seq<u8>, i: int)
    requires
        0 <= i <= bytes.len(),
    ensures
        match lexed(bytes, i) {
            Ok(tokens) => forall|k: int| 0 <= k < tokens.len() ==> i <= (#[trigger] tokens[k]).1 < bytes.len(),
            Err((_, offset)) => i <= offset < bytes.len(),
        },
    decreases bytes.len() - i,
{
    if i < bytes.len() {
        if blank(bytes[i]) {
            lemma_lexed_places(bytes, i + 1);
        } else {
            lemma_token_end(bytes, i);
            if let Ok((token, end)) = token_at(bytes, i) {
                lemma_lexed_places(bytes, end);
                if let Ok(rest) = lexed(bytes, end) {
                    let tokens = seq![(token, i)] + rest;
                    assert forall|k: int| 0 <= k < tokens.len() implies i <= (#[trigger] tokens[k]).1 < bytes.len() by {
                        if k > 0 {
                            assert(tokens[k] == rest[k - 1]);
                        }
                    }
                }
            }
        }
    }
}

/// Where lexing stops, a character starts.
proof fn lemma_stops_on_boundary(bytes: Seq<u8>, i: int)
    requires
        valid_utf8(bytes),
        is_char_boundary(bytes, i),
        0 <= i <= bytes.len(),
    ensures
        lexed(bytes, i) matches Err((kind, offset)) ==> {
            &&& 0 <= offset < bytes.len()
            &&& is_char_boundary(bytes, offset)
            &&& kind is UnexpectedChar ==> kind == FaultKind::UnexpectedChar(char_at(bytes, offset))
        },
    decreases bytes.len() - i,
{
    if i < bytes.len() {
        if blank(bytes[i]) {
            lemma_after_ascii(bytes, i);
            lemma_stops_on_boundary(bytes, i + 1);
        } else {
            lemma_token_end(bytes, i);
            if let Ok((_, end)) = token_at(bytes, i) {
                lemma_after_ascii(bytes, end - 1);
                lemma_stops_on_boundary(bytes, end);
            }
        }
    }
}

/// A character that is reported as unexpected stands in the source, at the
/// offset that is reported with it.
pub proof fn law_unexpected_characters_stand_in_the_source(src: Seq<char>, c: char, offset: int)
    requires
        lexed(encode_utf8(src), 0) == Err::<Seq<Placed>, (FaultKind, int)>((FaultKind::UnexpectedChar(c), offset)),
    ensures
        exists|k: int| 0 <= k < src.len() && #[trigger] src[k] == c && encode_utf8(src.take(k)).len() == offset,
{
    let bytes = encode_utf8(src);
    encode_utf8_valid_utf8(src);
    is_char_boundary_start_end_of_seq(bytes);
    lemma_stops_on_boundary(bytes, 0);
    let front = bytes.subrange(0, offset);
    let rest = bytes.subrange(offset, bytes.len() as int);
    valid_utf8_split(bytes, offset);
    decode_utf8_split(bytes, offset);
    encode_utf8_decode_utf8(src);
    decode_utf8_encode_utf8(front);
    let k = decode_utf8(front).len() as int;
    assert(decode_utf8(rest)[0] == c);
    assert(src =~= decode_utf8(front) + decode_utf8(rest));
    assert(src.take(k) =~= decode_utf8(front));
    assert(src[k] == c);
}

} // verus!
