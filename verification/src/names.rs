//! Stat names.
//!
//! A stat path reads as a stat name and a tag filter; the name alone, read
//! again, is the same name, and so are name and tags written out again.

use crate::error::{Fault, FaultKind, SyntaxFault};
use crate::lexer::{blank, lemma_token_end, lexed, name_end, name_part, name_start, token_at, Placed, Symbol, Token};
use crate::modifier::{set_entry, Amount};
use crate::parser::{dotted, path_parsed, stat_path, sym, tag_list, tok, Parse};
use crate::state::modifier_fault;
use crate::text::latin;
use vstd::prelude::*;
use vstd::utf8::{encode_utf8, is_ascii_chars, is_ascii_chars_encode_utf8};

verus! {

/// A name without dots: a letter or an underscore, and then letters, digits
/// and underscores.
pub open spec fn segment(s: Seq<char>) -> bool {
    &&& s.len() > 0
    &&& forall|i: int| 0 <= i < s.len() ==> '\0' <= #[trigger] s[i] <= '\u{7f}' && name_part(s[i] as u8)
    &&& name_start(s[0] as u8)
}

/// Names without dots.
pub open spec fn segments(list: Seq<Seq<char>>) -> bool {
    &&& list.len() > 0
    &&& forall|i: int| 0 <= i < list.len() ==> segment(#[trigger] list[i])
}

/// Names with dots between them.
pub open spec fn joined(list: Seq<Seq<char>>) -> Seq<char>
    decreases list.len(),
{
    if list.len() == 0 {
        Seq::empty()
    } else if list.len() == 1 {
        list[0]
    } else {
        joined(list.drop_last()).push('.') + list.last()
    }
}

/// Whether a text is a stat name.
pub open spec fn stat_name(s: Seq<char>) -> bool {
    exists|list: Seq<Seq<char>>| #[trigger] segments(list) && s == joined(list)
}

proof fn lemma_name_run(bytes: Seq<u8>, i: int)
    requires
        0 <= i <= bytes.len(),
    ensures
        i <= name_end(bytes, i) <= bytes.len(),
        forall|j: int| i <= j < name_end(bytes, i) ==> name_part(#[trigger] bytes[j]),
    decreases bytes.len() - i,
{
    if i < bytes.len() && name_part(bytes[i]) {
        lemma_name_run(bytes, i + 1);
    }
}

/// Name tokens are names without dots.
proof fn lemma_lexed_names(bytes: Seq<u8>, i: int)
    requires
        0 <= i <= bytes.len(),
    ensures
        lexed(bytes, i) matches Ok(tokens) ==> forall|k: int|
            0 <= k < tokens.len() ==> ((#[trigger] tokens[k]).0 matches Token::Ident(name) ==> segment(name)),
    decreases bytes.len() - i,
{
    if i < bytes.len() {
        if blank(bytes[i]) {
            lemma_lexed_names(bytes, i + 1);
        } else {
            lemma_token_end(bytes, i);
            if let Ok((token, end)) = token_at(bytes, i) {
                lemma_lexed_names(bytes, end);
                if let Ok(rest) = lexed(bytes, end) {
                    let tokens = seq![(token, i)] + rest;
                    if let Token::Ident(name) = token {
                        lemma_name_run(bytes, i);
                        let stop = name_end(bytes, i);
                        assert(name == latin(bytes, i, stop));
                        assert forall|j: int| 0 <= j < name.len() implies '\0' <= #[trigger] name[j] <= '\u{7f}'
                            && name_part(name[j] as u8) by {
                            assert(name_part(bytes[i + j]));
                            assert(name[j] == bytes[i + j] as char);
                        }
                        assert(name[0] == bytes[i] as char);
                    }
                    assert forall|k: int| 0 <= k < tokens.len() implies ((#[trigger] tokens[k]).0 matches Token::Ident(
                        name,
                    ) ==> segment(name)) by {
                        if k > 0 {
                            assert(tokens[k] == rest[k - 1]);
                        }
                    }
                }
            }
        }
    }
}

proof fn lemma_dotted_name(ts: Seq<Placed>, p: int, list: Seq<Seq<char>>) -> (longer: Seq<Seq<char>>)
    requires
        segments(list),
        forall|k: int| 0 <= k < ts.len() ==> ((#[trigger] ts[k]).0 matches Token::Ident(name) ==> segment(name)),
    ensures
        dotted(ts, p, joined(list)) matches Parse::Done(name, _) ==> segments(longer) && name == joined(longer),
    decreases ts.len() - p,
{
    if sym(ts, p, Symbol::Dot) {
        if let Some(Token::Ident(next)) = tok(ts, p + 1) {
            assert(ts[p + 1].0 == Token::Ident(next));
            let more = list.push(next);
            assert(more.drop_last() =~= list);
            assert(joined(more) == joined(list).push('.') + next);
            assert forall|i: int| 0 <= i < more.len() implies segment(#[trigger] more[i]) by {
                if i < list.len() {
                    assert(more[i] == list[i]);
                }
            }
            lemma_dotted_name(ts, p + 2, more)
        } else {
            list
        }
    } else {
        list
    }
}

proof fn lemma_tag_names(ts: Seq<Placed>, p: int, tags: Seq<Seq<char>>)
    requires
        forall|i: int| 0 <= i < tags.len() ==> segment(#[trigger] tags[i]),
        forall|k: int| 0 <= k < ts.len() ==> ((#[trigger] ts[k]).0 matches Token::Ident(name) ==> segment(name)),
    ensures
        tag_list(ts, p, tags) matches Parse::Done(list, _) ==> segments(list),
    decreases ts.len() - p,
{
    if let Some(Token::Ident(tag)) = tok(ts, p) {
        assert(ts[p].0 == Token::Ident(tag));
        let more = tags.push(tag);
        assert forall|i: int| 0 <= i < more.len() implies segment(#[trigger] more[i]) by {
            if i < tags.len() {
                assert(more[i] == tags[i]);
            }
        }
        if sym(ts, p + 1, Symbol::Comma) || sym(ts, p + 1, Symbol::Pipe) {
            lemma_tag_names(ts, p + 2, more);
        }
    }
}

/// The name that a stat path gives is a stat name, and its tags are names
/// without dots: none of them is empty or holds white space.
pub proof fn law_paths_give_names(path: Seq<char>)
    ensures
        path_parsed(path) matches Ok((stat, tags)) ==> stat_name(stat) && forall|i: int|
            0 <= i < tags.len() ==> segment(#[trigger] tags[i]),
{
    let bytes = encode_utf8(path);
    lemma_lexed_names(bytes, 0);
    if let Ok(ts) = lexed(bytes, 0) {
        if let Some(Token::Ident(first)) = tok(ts, 0) {
            assert(ts[0].0 == Token::Ident(first));
            let list = seq![first];
            assert(joined(list) == first);
            assert(segments(list));
            lemma_dotted_name(ts, 1, list);
            if let Parse::Done(_, p) = dotted(ts, 1, first) {
                lemma_tag_names(ts, p + 1, Seq::empty());
            }
        }
    }
}

/// The character of a mark that stands in stat paths.
spec fn mark(s: Symbol) -> Option<char> {
    match s {
        Symbol::Dot => Some('.'),
        Symbol::LBrace => Some('{'),
        Symbol::RBrace => Some('}'),
        Symbol::Comma => Some(','),
        Symbol::Pipe => Some('|'),
        _ => None,
    }
}

/// The text of a token that stands in stat paths.
spec fn piece(t: Token) -> Seq<char> {
    match t {
        Token::Ident(name) => name,
        Token::Sym(s) => match mark(s) {
            Some(c) => seq![c],
            None => Seq::empty(),
        },
        Token::Num(_) => Seq::empty(),
    }
}

/// Names and marks that lex as themselves when they are written one after the
/// other: no two names adjoin, nor two bars.
spec fn plain(ts: Seq<Token>) -> bool {
    &&& forall|i: int|
        0 <= i < ts.len() ==> match #[trigger] ts[i] {
            Token::Ident(name) => segment(name),
            Token::Sym(s) => mark(s) is Some,
            Token::Num(_) => false,
        }
    &&& forall|i: int, j: int|
        #![trigger ts[i], ts[j]]
        0 <= i && j == i + 1 && j < ts.len() ==> !(ts[i] is Ident && ts[j] is Ident) && !(ts[i] == Token::Sym(
            Symbol::Pipe,
        ) && ts[j] == Token::Sym(Symbol::Pipe))
}

/// The text of tokens written one after the other.
spec fn written(ts: Seq<Token>) -> Seq<char>
    decreases ts.len(),
{
    if ts.len() == 0 {
        Seq::empty()
    } else {
        written(ts.drop_last()) + piece(ts.last())
    }
}

/// The place of the first character of a token.
spec fn place(ts: Seq<Token>, k: int) -> int {
    written(ts.take(k)).len() as int
}

proof fn lemma_written_prefix(ts: Seq<Token>, k: int)
    requires
        0 <= k <= ts.len(),
    ensures
        place(ts, k) <= written(ts).len(),
        written(ts).take(place(ts, k)) == written(ts.take(k)),
    decreases ts.len(),
{
    if k == ts.len() {
        assert(ts.take(k) =~= ts);
        assert(written(ts).take(written(ts).len() as int) =~= written(ts));
    } else {
        let rest = ts.drop_last();
        lemma_written_prefix(rest, k);
        assert(rest.take(k) =~= ts.take(k));
        let n = place(ts, k);
        assert(written(ts).take(n) =~= written(rest).take(n));
    }
}

/// Where a token stands.
proof fn lemma_piece_at(ts: Seq<Token>, k: int)
    requires
        0 <= k < ts.len(),
    ensures
        0 <= place(ts, k) <= place(ts, k + 1) <= written(ts).len(),
        place(ts, k + 1) == place(ts, k) + piece(ts[k]).len(),
        written(ts).subrange(place(ts, k), place(ts, k + 1)) == piece(ts[k]),
{
    lemma_written_prefix(ts, k);
    lemma_written_prefix(ts, k + 1);
    assert(ts.take(k + 1).drop_last() =~= ts.take(k));
    let front = written(ts.take(k + 1));
    assert(front == written(ts.take(k)) + piece(ts[k]));
    assert(written(ts).subrange(place(ts, k), place(ts, k + 1)) =~= front.subrange(
        place(ts, k),
        place(ts, k + 1),
    ));
    assert(front.subrange(place(ts, k), place(ts, k + 1)) =~= piece(ts[k]));
}

/// The tokens from `k` on, each with its place.
spec fn placed_from(ts: Seq<Token>, k: int) -> Seq<Placed> {
    Seq::new((ts.len() - k) as nat, |i: int| (ts[k + i], place(ts, k + i)))
}

/// A run of name bytes that ends at `stop` has its end there.
proof fn lemma_run_end(bytes: Seq<u8>, i: int, stop: int)
    requires
        0 <= i <= stop <= bytes.len(),
        forall|j: int| i <= j < stop ==> name_part(#[trigger] bytes[j]),
        stop < bytes.len() ==> !name_part(bytes[stop]),
    ensures
        name_end(bytes, i) == stop,
    decreases stop - i,
{
    if i < stop {
        lemma_run_end(bytes, i + 1, stop);
    }
}

/// The first byte of a token.
proof fn lemma_first_byte(ts: Seq<Token>, bytes: Seq<u8>, k: int)
    requires
        plain(ts),
        bytes.len() == written(ts).len(),
        forall|i: int| 0 <= i < bytes.len() ==> #[trigger] bytes[i] == written(ts)[i] as u8,
        0 <= k < ts.len(),
    ensures
        0 <= place(ts, k) < bytes.len(),
        piece(ts[k]).len() > 0,
        bytes[place(ts, k)] == piece(ts[k])[0] as u8,
        ts[k] is Ident ==> name_start(bytes[place(ts, k)]),
{
    lemma_piece_at(ts, k);
    let i = place(ts, k);
    assert(match ts[k] {
        Token::Ident(name) => segment(name),
        Token::Sym(s) => mark(s) is Some,
        Token::Num(_) => false,
    });
    assert(written(ts).subrange(i, place(ts, k + 1))[0] == written(ts)[i]);
}

/// Plain tokens lex as themselves.
proof fn lemma_lex_plain(ts: Seq<Token>, bytes: Seq<u8>, k: int)
    requires
        plain(ts),
        bytes.len() == written(ts).len(),
        forall|i: int| 0 <= i < bytes.len() ==> #[trigger] bytes[i] == written(ts)[i] as u8,
        0 <= k <= ts.len(),
    ensures
        lexed(bytes, place(ts, k)) == Ok::<Seq<Placed>, (FaultKind, int)>(placed_from(ts, k)),
    decreases ts.len() - k,
{
    let i = place(ts, k);
    if k == ts.len() {
        assert(ts.take(k) =~= ts);
        assert(placed_from(ts, k) =~= Seq::empty());
    } else {
        lemma_piece_at(ts, k);
        lemma_first_byte(ts, bytes, k);
        lemma_lex_plain(ts, bytes, k + 1);
        let stop = place(ts, k + 1);
        let text = piece(ts[k]);
        if k + 1 < ts.len() {
            lemma_first_byte(ts, bytes, k + 1);
        } else {
            assert(ts.take(k + 1) =~= ts);
        }
        match ts[k] {
            Token::Ident(name) => {
                assert(segment(name));
                assert forall|j: int| i <= j < stop implies name_part(#[trigger] bytes[j]) && bytes[j] as char == name[j
                    - i] by {
                    assert(written(ts).subrange(i, stop)[j - i] == written(ts)[j]);
                    assert('\0' <= name[j - i] <= '\u{7f}' && name_part(name[j - i] as u8));
                }
                if k + 1 < ts.len() {
                    assert(!(ts[k] is Ident && ts[k + 1] is Ident));
                }
                lemma_run_end(bytes, i, stop);
                assert(latin(bytes, i, stop) =~= name);
            },
            Token::Sym(s) => {
                if k + 1 < ts.len() {
                    assert(!(ts[k] == Token::Sym(Symbol::Pipe) && ts[k + 1] == Token::Sym(Symbol::Pipe)));
                    assert(match ts[k + 1] {
                        Token::Ident(name) => segment(name),
                        Token::Sym(s) => mark(s) is Some,
                        Token::Num(_) => false,
                    });
                }
            },
            Token::Num(_) => {},
        }
        assert(token_at(bytes, i) == Ok::<(Token, int), FaultKind>((ts[k], stop)));
        assert(seq![(ts[k], i)] + placed_from(ts, k + 1) =~= placed_from(ts, k));
    }
}

proof fn lemma_written_ascii(ts: Seq<Token>)
    requires
        forall|i: int|
            0 <= i < ts.len() ==> match #[trigger] ts[i] {
                Token::Ident(name) => segment(name),
                Token::Sym(s) => mark(s) is Some,
                Token::Num(_) => false,
            },
    ensures
        is_ascii_chars(written(ts)),
    decreases ts.len(),
{
    if ts.len() > 0 {
        let rest = ts.drop_last();
        assert forall|i: int| 0 <= i < rest.len() implies match #[trigger] rest[i] {
            Token::Ident(name) => segment(name),
            Token::Sym(s) => mark(s) is Some,
            Token::Num(_) => false,
        } by {
            assert(rest[i] == ts[i]);
        }
        lemma_written_ascii(rest);
        assert(ts[ts.len() - 1] == ts.last());
        assert forall|i: int| 0 <= i < written(ts).len() implies '\0' <= #[trigger] written(ts)[i] <= '\u{7f}' by {
            let n = written(rest).len();
            if i < n {
                assert(written(ts)[i] == written(rest)[i]);
            } else {
                assert(written(ts)[i] == piece(ts.last())[i - n]);
            }
        }
    }
}

/// The tokens of a text made of plain tokens are these.
proof fn lemma_lex_written(ts: Seq<Token>)
    requires
        plain(ts),
    ensures
        lexed(encode_utf8(written(ts)), 0) == Ok::<Seq<Placed>, (FaultKind, int)>(placed_from(ts, 0)),
{
    lemma_written_ascii(ts);
    is_ascii_chars_encode_utf8(written(ts));
    assert(ts.take(0) =~= Seq::empty());
    lemma_lex_plain(ts, encode_utf8(written(ts)), 0);
}

/// The tag names of a filter, each but the first after its separator.
pub open spec fn separated(tags: Seq<Seq<char>>, marks: Seq<char>) -> Seq<char>
    decreases tags.len(),
{
    if tags.len() == 0 {
        Seq::empty()
    } else if tags.len() == 1 {
        tags[0]
    } else {
        separated(tags.drop_last(), marks.drop_last()).push(marks.last()) + tags.last()
    }
}

/// A stat name with a tag filter.
pub open spec fn tagged(name: Seq<char>, tags: Seq<Seq<char>>, marks: Seq<char>) -> Seq<char> {
    (name.push('{') + separated(tags, marks)).push('}')
}

/// The symbol of a separator.
spec fn separator(c: char) -> Symbol {
    if c == ',' {
        Symbol::Comma
    } else {
        Symbol::Pipe
    }
}

/// The tokens of a dotted name and, if there are tags, of a tag filter.
spec fn path_tokens(list: Seq<Seq<char>>, tags: Seq<Seq<char>>, marks: Seq<char>) -> Seq<Token> {
    let n = 2 * list.len() - 1;
    let len = if tags.len() == 0 {
        n
    } else {
        n + 2 * tags.len() + 1
    };
    Seq::new(
        len as nat,
        |i: int|
            if i < n {
                if i % 2 == 0 {
                    Token::Ident(list[i / 2])
                } else {
                    Token::Sym(Symbol::Dot)
                }
            } else if i == n {
                Token::Sym(Symbol::LBrace)
            } else if i < len - 1 {
                let j = i - n - 1;
                if j % 2 == 0 {
                    Token::Ident(tags[j / 2])
                } else {
                    Token::Sym(separator(marks[j / 2]))
                }
            } else {
                Token::Sym(Symbol::RBrace)
            },
    )
}

/// Whether tags and separators make a tag filter.
pub open spec fn filter_parts(tags: Seq<Seq<char>>, marks: Seq<char>) -> bool {
    &&& segments(tags)
    &&& marks.len() == tags.len() - 1
    &&& forall|i: int| 0 <= i < marks.len() ==> #[trigger] marks[i] == ',' || marks[i] == '|'
}

proof fn lemma_path_plain(list: Seq<Seq<char>>, tags: Seq<Seq<char>>, marks: Seq<char>)
    requires
        segments(list),
        tags.len() == 0 || filter_parts(tags, marks),
    ensures
        plain(path_tokens(list, tags, marks)),
{
    let ts = path_tokens(list, tags, marks);
    let n = 2 * list.len() - 1;
    assert forall|i: int| 0 <= i < ts.len() implies match #[trigger] ts[i] {
        Token::Ident(name) => segment(name),
        Token::Sym(s) => mark(s) is Some,
        Token::Num(_) => false,
    } by {
        if i < n {
            assert(segment(list[i / 2]));
        } else if n < i < ts.len() - 1 {
            let j = i - n - 1;
            if j % 2 == 0 {
                assert(segment(tags[j / 2]));
            }
        }
    }
}

proof fn lemma_written_name(list: Seq<Seq<char>>, tags: Seq<Seq<char>>, marks: Seq<char>, k: int)
    requires
        segments(list),
        0 <= k < list.len(),
    ensures
        written(path_tokens(list, tags, marks).take(2 * k + 1)) == joined(list.take(k + 1)),
    decreases k,
{
    let ts = path_tokens(list, tags, marks);
    let now = ts.take(2 * k + 1);
    assert(ts[2 * k] == Token::Ident(list[k]));
    if k == 0 {
        assert(now.drop_last() =~= Seq::empty());
        assert(written(now.drop_last()) =~= Seq::empty());
        assert(now.last() == ts[0]);
        assert(written(now) =~= list[0]);
        assert(list.take(1) =~= seq![list[0]]);
    } else {
        lemma_written_name(list, tags, marks, k - 1);
        let mid = ts.take(2 * k);
        assert(now.drop_last() =~= mid);
        assert(mid.drop_last() =~= ts.take(2 * (k - 1) + 1));
        assert(mid.last() == Token::Sym(Symbol::Dot));
        assert(written(mid) =~= joined(list.take(k)).push('.'));
        assert(list.take(k + 1).drop_last() =~= list.take(k));
    }
}

proof fn lemma_written_tags(list: Seq<Seq<char>>, tags: Seq<Seq<char>>, marks: Seq<char>, k: int)
    requires
        segments(list),
        filter_parts(tags, marks),
        0 <= k < tags.len(),
    ensures
        written(path_tokens(list, tags, marks).take(2 * list.len() + 2 * k + 1)) == joined(list).push('{') + separated(
            tags.take(k + 1),
            marks.take(k),
        ),
    decreases k,
{
    let ts = path_tokens(list, tags, marks);
    let n = 2 * list.len() as int;
    let now = ts.take(n + 2 * k + 1);
    assert(ts[n + 2 * k] == Token::Ident(tags[k]));
    let mid = ts.take(n + 2 * k);
    assert(now.drop_last() =~= mid);
    if k == 0 {
        lemma_written_name(list, tags, marks, list.len() - 1);
        assert(list.take(list.len() as int) =~= list);
        assert(mid.drop_last() =~= ts.take(2 * (list.len() - 1) + 1));
        assert(mid.last() == Token::Sym(Symbol::LBrace));
        assert(written(mid) =~= joined(list).push('{'));
        assert(tags.take(1) =~= seq![tags[0]]);
    } else {
        lemma_written_tags(list, tags, marks, k - 1);
        assert(mid.drop_last() =~= ts.take(n + 2 * (k - 1) + 1));
        assert(ts[n + 2 * k - 1] == Token::Sym(separator(marks[k - 1])));
        assert(marks[k - 1] == ',' || marks[k - 1] == '|');
        let before = joined(list).push('{') + separated(tags.take(k), marks.take(k - 1));
        assert(written(mid) =~= before.push(marks[k - 1]));
        assert(tags.take(k + 1).drop_last() =~= tags.take(k));
        assert(marks.take(k).drop_last() =~= marks.take(k - 1));
        assert(written(now) =~= joined(list).push('{') + separated(tags.take(k + 1), marks.take(k)));
    }
}

proof fn lemma_dotted_tokens(ts: Seq<Placed>, list: Seq<Seq<char>>, tags: Seq<Seq<char>>, marks: Seq<char>, k: int)
    requires
        list.len() > 0,
        ts == placed_from(path_tokens(list, tags, marks), 0),
        0 <= k < list.len(),
    ensures
        dotted(ts, 2 * k + 1, joined(list.take(k + 1))) == Parse::Done(joined(list), 2 * list.len() - 1),
    decreases list.len() - k,
{
    let all = path_tokens(list, tags, marks);
    if k == list.len() - 1 {
        assert(list.take(k + 1) =~= list);
        assert(2 * k + 1 < all.len() ==> all[2 * k + 1] == Token::Sym(Symbol::LBrace));
    } else {
        assert(all[2 * k + 1] == Token::Sym(Symbol::Dot));
        assert(all[2 * k + 2] == Token::Ident(list[k + 1]));
        assert(ts[2 * k + 1].0 == all[2 * k + 1]);
        assert(ts[2 * k + 2].0 == all[2 * k + 2]);
        assert(list.take(k + 2).drop_last() =~= list.take(k + 1));
        assert(joined(list.take(k + 2)) == joined(list.take(k + 1)).push('.') + list[k + 1]);
        lemma_dotted_tokens(ts, list, tags, marks, k + 1);
    }
}

proof fn lemma_tag_tokens(ts: Seq<Placed>, list: Seq<Seq<char>>, tags: Seq<Seq<char>>, marks: Seq<char>, k: int)
    requires
        list.len() > 0,
        filter_parts(tags, marks),
        ts == placed_from(path_tokens(list, tags, marks), 0),
        0 <= k < tags.len(),
    ensures
        tag_list(ts, 2 * list.len() + 2 * k, tags.take(k)) == Parse::Done(
            tags,
            (2 * list.len() + 2 * tags.len()) as int,
        ),
    decreases tags.len() - k,
{
    let all = path_tokens(list, tags, marks);
    let p = 2 * list.len() + 2 * k;
    assert(all[p] == Token::Ident(tags[k]));
    assert(ts[p].0 == all[p]);
    assert(ts[p + 1].0 == all[p + 1]);
    assert(tags.take(k).push(tags[k]) =~= tags.take(k + 1));
    if k == tags.len() - 1 {
        assert(all[p + 1] == Token::Sym(Symbol::RBrace));
        assert(tags.take(k + 1) =~= tags);
    } else {
        assert(all[p + 1] == Token::Sym(separator(marks[k])));
        assert(marks[k] == ',' || marks[k] == '|');
        lemma_tag_tokens(ts, list, tags, marks, k + 1);
    }
}

/// A stat name reads as itself, without tags.
pub proof fn law_stat_names_read_as_themselves(name: Seq<char>)
    requires
        stat_name(name),
    ensures
        path_parsed(name) == Ok::<(Seq<char>, Seq<Seq<char>>), SyntaxFault>((name, Seq::empty())),
{
    let list = choose|list: Seq<Seq<char>>| #[trigger] segments(list) && name == joined(list);
    let none = Seq::<Seq<char>>::empty();
    let marks = Seq::<char>::empty();
    let all = path_tokens(list, none, marks);
    let ts = placed_from(all, 0);
    lemma_path_plain(list, none, marks);
    lemma_written_name(list, none, marks, list.len() - 1);
    assert(list.take(list.len() as int) =~= list);
    assert(all.take(2 * (list.len() - 1) + 1) =~= all);
    lemma_lex_written(all);
    assert(all[0] == Token::Ident(list[0]));
    assert(ts[0].0 == all[0]);
    lemma_dotted_tokens(ts, list, none, marks, 0);
    assert(list.take(1) =~= seq![list[0]]);
}

proof fn lemma_written_path(list: Seq<Seq<char>>, tags: Seq<Seq<char>>, marks: Seq<char>)
    requires
        segments(list),
        filter_parts(tags, marks),
    ensures
        written(path_tokens(list, tags, marks)) == tagged(joined(list), tags, marks),
{
    let all = path_tokens(list, tags, marks);
    lemma_written_tags(list, tags, marks, tags.len() - 1);
    assert(tags.take(tags.len() as int) =~= tags);
    assert(marks.take(tags.len() - 1) =~= marks);
    assert(all.drop_last() =~= all.take(2 * list.len() + 2 * (tags.len() - 1) + 1));
    assert(all.last() == Token::Sym(Symbol::RBrace));
    assert(written(all) =~= tagged(joined(list), tags, marks));
}

proof fn lemma_path_of_tokens(ts: Seq<Placed>, list: Seq<Seq<char>>, tags: Seq<Seq<char>>, marks: Seq<char>)
    requires
        segments(list),
        filter_parts(tags, marks),
        ts == placed_from(path_tokens(list, tags, marks), 0),
    ensures
        stat_path(ts) == Parse::Done((joined(list), tags), ts.len() as int),
{
    let all = path_tokens(list, tags, marks);
    assert(all[0] == Token::Ident(list[0]));
    assert(ts[0].0 == all[0]);
    lemma_dotted_tokens(ts, list, tags, marks, 0);
    assert(list.take(1) =~= seq![list[0]]);
    let p = 2 * list.len() - 1;
    assert(all[p] == Token::Sym(Symbol::LBrace));
    assert(ts[p].0 == all[p]);
    lemma_tag_tokens(ts, list, tags, marks, 0);
    assert(tags.take(0) =~= Seq::empty());
}

/// A stat name with a tag filter reads as the name and the tags, whichever of
/// commas and bars separate them.
pub proof fn law_tagged_names_read_as_themselves(name: Seq<char>, tags: Seq<Seq<char>>, marks: Seq<char>)
    requires
        stat_name(name),
        filter_parts(tags, marks),
    ensures
        path_parsed(tagged(name, tags, marks)) == Ok::<(Seq<char>, Seq<Seq<char>>), SyntaxFault>((name, tags)),
{
    let list = choose|list: Seq<Seq<char>>| #[trigger] segments(list) && name == joined(list);
    let all = path_tokens(list, tags, marks);
    lemma_path_plain(list, tags, marks);
    lemma_written_path(list, tags, marks);
    lemma_lex_written(all);
    lemma_path_of_tokens(placed_from(all, 0), list, tags, marks);
}

/// What a path says, written again with any separators, says the same.
pub proof fn law_parsed_paths_parse_again(path: Seq<char>, marks: Seq<char>)
    requires
        path_parsed(path) matches Ok((_, tags)) ==> marks.len() == tags.len() - 1,
        forall|i: int| 0 <= i < marks.len() ==> #[trigger] marks[i] == ',' || marks[i] == '|',
    ensures
        path_parsed(path) matches Ok((stat, tags)) ==> path_parsed(tagged(stat, tags, marks)) == Ok::<
            (Seq<char>, Seq<Seq<char>>),
            SyntaxFault,
        >((stat, tags)),
{
    law_paths_give_names(path);
    if let Ok((stat, tags)) = path_parsed(path) {
        law_tagged_names_read_as_themselves(stat, tags, marks);
    }
}

/// The stat name that a path gives, read again, is the same name.
pub proof fn law_parsed_names_parse_again(path: Seq<char>)
    ensures
        path_parsed(path) matches Ok((stat, _)) ==> path_parsed(stat) == Ok::<
            (Seq<char>, Seq<Seq<char>>),
            SyntaxFault,
        >((stat, Seq::empty())),
{
    law_paths_give_names(path);
    if let Ok((stat, _)) = path_parsed(path) {
        law_stat_names_read_as_themselves(stat);
    }
}

/// An entry that could be added to a modifier set has no syntax errors left
/// when the set is applied: all that can be wrong with it is a tag that is not
/// registered.
pub proof fn law_built_entries_have_no_syntax_errors(
    path: Seq<char>,
    amount: Result<Amount, Fault>,
    tags: Map<Seq<char>, u64>,
)
    ensures
        set_entry(path, amount) matches Ok((stat, m)) ==> (modifier_fault(tags, stat, m) matches Some(fault) ==> fault
            is UnknownTag),
{
    law_parsed_names_parse_again(path);
}

} // verus!
