//! How tokens are spelled, and that what is spelled is read as the tokens.

use super::ast::FileModel;
use super::grammar::file_of;
use super::lexer::{
    byte_at, comment_end, digits_end, ident_end, is_float, is_ident_char, is_number_char, lexeme, number_end,
    number_token, string_body, tokens_from, tokens_of, unescape, Lexeme,
};
use super::print::{file_ok, file_tokens, files_are_read_back, holds};
use super::token::{ErrorModel, TokenModel};
use crate::text::{dec, digit_value, digits, find_from, is_white, lemma_find_from, number_round_trip, parse_number_spec};
use vstd::prelude::*;
use vstd::utf8::encode_utf8;

verus! {

/// A part of a source text.
pub enum Piece {
    /// A token in its usual spelling.
    Token(TokenModel),
    /// A number in hexadecimal digits.
    Hex(nat),
    /// A number in binary digits.
    Binary(nat),
    /// A space, a tab or the end of a line.
    White(char),
    /// A comment up to the end of its line.
    Line(Seq<char>),
    /// A comment between marks.
    Block(Seq<char>),
}

/// How a character of a string is written.
pub open spec fn escape_char(c: char) -> Seq<char> {
    if c == '"' || c == '\\' {
        seq!['\\', c]
    } else if c == '\n' {
        seq!['\\', 'n']
    } else if c == '\r' {
        seq!['\\', 'r']
    } else if c == '\t' {
        seq!['\\', 't']
    } else if c == '\0' {
        seq!['\\', '0']
    } else {
        seq![c]
    }
}

/// How the contents of a string are written.
pub open spec fn escaped(s: Seq<char>) -> Seq<char>
    decreases s.len(),
{
    if s.len() == 0 {
        Seq::empty()
    } else {
        escape_char(s[0]) + escaped(s.skip(1))
    }
}

/// How a token is written.
pub open spec fn token_text(x: TokenModel) -> Seq<char> {
    match x {
        TokenModel::Ident(s) => s,
        TokenModel::IntLit(n) => dec(n as nat),
        TokenModel::FloatLit(s) => s,
        TokenModel::StringLit(s) => seq!['"'] + (escaped(s) + seq!['"']),
        TokenModel::At => seq!['@'],
        TokenModel::Semi => seq![';'],
        TokenModel::Comma => seq![','],
        TokenModel::Dot => seq!['.'],
        TokenModel::Colon => seq![':'],
        TokenModel::Equals => seq!['='],
        TokenModel::LBrace => seq!['{'],
        TokenModel::RBrace => seq!['}'],
        TokenModel::LParen => seq!['('],
        TokenModel::RParen => seq![')'],
        TokenModel::LBracket => seq!['['],
        TokenModel::RBracket => seq![']'],
        TokenModel::LAngle => seq!['<'],
        TokenModel::RAngle => seq!['>'],
        TokenModel::Plus => seq!['+'],
        TokenModel::Minus => seq!['-'],
        TokenModel::Eof => Seq::empty(),
    }
}

/// A letter or an underscore.
pub open spec fn is_letter(c: char) -> bool {
    'a' <= c <= 'z' || 'A' <= c <= 'Z' || c == '_'
}

/// A decimal digit.
pub open spec fn is_digit(c: char) -> bool {
    '0' <= c <= '9'
}

/// Digits around a point at `a`, and from `f` on nothing more or an exponent.
pub open spec fn float_parts(s: Seq<char>, a: int, f: int) -> bool {
    &&& 0 < a < f <= s.len()
    &&& s[a] == '.'
    &&& forall|i: int| 0 <= i < f && i != a ==> is_digit(#[trigger] s[i])
    &&& f < s.len() ==> (s[f] == 'e' || s[f] == 'E') && f + 1 < s.len()
    &&& forall|i: int| f < i < s.len() ==> is_digit(#[trigger] s[i])
}

/// A token that can be written: a word begins with a letter and goes on with letters and digits,
/// a number has no sign and fits, a fraction has digits before its point.
pub open spec fn token_ok(x: TokenModel) -> bool {
    match x {
        TokenModel::Ident(s) => s.len() > 0 && is_letter(s[0]) && forall|i: int|
            0 <= i < s.len() ==> is_letter(#[trigger] s[i]) || is_digit(s[i]),
        TokenModel::IntLit(n) => 0 <= n <= i64::MAX,
        TokenModel::FloatLit(s) => exists|a: int, f: int| float_parts(s, a, f),
        TokenModel::Eof => false,
        _ => true,
    }
}

/// How a part is written.
pub open spec fn piece_text(p: Piece) -> Seq<char> {
    match p {
        Piece::Token(x) => token_text(x),
        Piece::Hex(n) => seq!['0', 'x'] + digits(n, 16),
        Piece::Binary(n) => seq!['0', 'b'] + digits(n, 2),
        Piece::White(c) => seq![c],
        Piece::Line(s) => seq!['/', '/'] + (s + seq!['\n']),
        Piece::Block(s) => seq!['/', '*'] + (s + seq!['*', '/']),
    }
}

/// The token that a part is, if it is one.
pub open spec fn piece_token(p: Piece) -> Option<TokenModel> {
    match p {
        Piece::Token(x) => Some(x),
        Piece::Hex(n) => Some(TokenModel::IntLit(n as int)),
        Piece::Binary(n) => Some(TokenModel::IntLit(n as int)),
        _ => None,
    }
}

/// A part that can be written.
pub open spec fn piece_ok(p: Piece) -> bool {
    match p {
        Piece::Token(x) => token_ok(x),
        Piece::Hex(n) => n <= i64::MAX,
        Piece::Binary(n) => n <= i64::MAX,
        Piece::White(c) => c == ' ' || c == '\t' || c == '\n' || c == '\r',
        Piece::Line(s) => forall|i: int| 0 <= i < s.len() ==> #[trigger] s[i] != '\n',
        Piece::Block(s) => forall|i: int|
            0 <= i < s.len() - 1 ==> !(#[trigger] s[i] == '*' && s[i + 1] == '/'),
    }
}

/// A part that is a number.
pub open spec fn is_numeral(p: Piece) -> bool {
    match p {
        Piece::Token(TokenModel::IntLit(_)) => true,
        Piece::Token(TokenModel::FloatLit(_)) => true,
        Piece::Hex(_) => true,
        Piece::Binary(_) => true,
        _ => false,
    }
}

/// A part that is a word.
pub open spec fn is_word(p: Piece) -> bool {
    p matches Piece::Token(TokenModel::Ident(_))
}

/// One part may stand right behind another: two words or numbers need something between them,
/// and so do a number and a point.
pub open spec fn may_touch(p: Piece, q: Piece) -> bool {
    &&& is_word(p) || is_numeral(p) ==> !is_word(q) && !is_numeral(q)
    &&& is_numeral(p) ==> q != Piece::Token(TokenModel::Dot)
}

/// Parts that can be written one behind the other.
pub open spec fn pieces_ok(ps: Seq<Piece>) -> bool {
    &&& forall|i: int| 0 <= i < ps.len() ==> piece_ok(#[trigger] ps[i])
    &&& forall|i: int| 0 <= i < ps.len() - 1 ==> may_touch(#[trigger] ps[i], ps[i + 1])
}

/// The text of parts.
pub open spec fn pieces_text(ps: Seq<Piece>) -> Seq<char>
    decreases ps.len(),
{
    if ps.len() == 0 {
        Seq::empty()
    } else {
        piece_text(ps[0]) + pieces_text(ps.skip(1))
    }
}

/// The tokens among parts.
pub open spec fn pieces_tokens(ps: Seq<Piece>) -> Seq<TokenModel>
    decreases ps.len(),
{
    if ps.len() == 0 {
        Seq::empty()
    } else {
        (match piece_token(ps[0]) {
            Some(x) => seq![x],
            None => Seq::empty(),
        }) + pieces_tokens(ps.skip(1))
    }
}

/// From an index on stands this text.
pub open spec fn stands(s: Seq<char>, i: int, w: Seq<char>) -> bool {
    &&& 0 <= i
    &&& i + w.len() <= s.len()
    &&& s.subrange(i, i + w.len()) =~= w
}

proof fn lemma_stands_parts(s: Seq<char>, i: int, a: Seq<char>, b: Seq<char>)
    requires
        stands(s, i, a + b),
    ensures
        stands(s, i, a),
        stands(s, i + a.len(), b),
{
    let w = s.subrange(i, i + (a + b).len());
    assert forall|k: int| 0 <= k < a.len() implies s[i + k] == a[k] by {
        assert(w[k] == (a + b)[k]);
    }
    assert forall|k: int| 0 <= k < b.len() implies s[i + a.len() + k] == b[k] by {
        assert(w[a.len() + k] == (a + b)[a.len() + k]);
    }
    assert(s.subrange(i, i + a.len()) =~= a);
    assert(s.subrange(i + a.len(), i + a.len() + b.len()) =~= b);
}

proof fn lemma_stands_at(s: Seq<char>, i: int, w: Seq<char>, k: int)
    requires
        stands(s, i, w),
        0 <= k < w.len(),
    ensures
        s[i + k] == w[k],
{
    assert(s.subrange(i, i + w.len())[k] == s[i + k]);
}

proof fn lemma_ident_run(s: Seq<char>, i: int, e: int)
    requires
        0 <= i <= e <= s.len(),
        forall|k: int| i <= k < e ==> is_letter(#[trigger] s[k]) || is_digit(s[k]),
        e < s.len() ==> !is_letter(s[e]) && !is_digit(s[e]),
    ensures
        ident_end(s, i) == e,
    decreases e - i,
{
    if i < e {
        assert(is_ident_char(s[i]));
        lemma_ident_run(s, i + 1, e);
    }
}

proof fn lemma_number_run(s: Seq<char>, i: int, e: int)
    requires
        0 <= i <= e <= s.len(),
        forall|k: int| i <= k < e ==> is_number_char(#[trigger] s[k]),
        e < s.len() ==> !is_number_char(s[e]),
    ensures
        number_end(s, i) == e,
    decreases e - i,
{
    if i < e {
        lemma_number_run(s, i + 1, e);
    }
}

proof fn lemma_digit_run(s: Seq<char>, i: int, e: int)
    requires
        0 <= i <= e <= s.len(),
        forall|k: int| i <= k < e ==> is_digit(#[trigger] s[k]),
        e < s.len() ==> !is_digit(s[e]),
    ensures
        digits_end(s, i) == e,
    decreases e - i,
{
    if i < e {
        lemma_digit_run(s, i + 1, e);
    }
}

proof fn lemma_comment_run(s: Seq<char>, i: int, e: int)
    requires
        0 <= i <= e,
        e + 1 < s.len(),
        s[e] == '*',
        s[e + 1] == '/',
        forall|k: int| i <= k < e ==> !(#[trigger] s[k] == '*' && s[k + 1] == '/'),
    ensures
        comment_end(s, i) == e,
    decreases e - i,
{
    if i < e {
        lemma_comment_run(s, i + 1, e);
    }
}

/// The contents of a string come back from how they are written.
proof fn lemma_string(s: Seq<char>, i: int, body: Seq<char>, acc: Seq<char>)
    requires
        stands(s, i, escaped(body) + seq!['"']),
    ensures
        string_body(s, i, acc) == (Some(acc + body), i + escaped(body).len() + 1),
    decreases body.len(),
{
    let quote = seq!['"'];
    if body.len() == 0 {
        assert(escaped(body) + quote =~= quote);
        lemma_stands_at(s, i, quote, 0);
        assert(acc + body =~= acc);
    } else {
        let c = body[0];
        let w = escape_char(c);
        let left = body.skip(1);
        assert(escaped(body) + quote =~= w + (escaped(left) + quote));
        lemma_stands_parts(s, i, w, escaped(left) + quote);
        lemma_stands_at(s, i, w, 0);
        if w.len() == 2 {
            lemma_stands_at(s, i, w, 1);
            assert(s[i] == '\\');
            assert(unescape(s[i + 1]) == c);
        } else {
            assert(s[i] == c);
        }
        lemma_string(s, i + w.len(), left, acc.push(c));
        assert(acc.push(c) + left =~= acc + body);
    }
}

proof fn lemma_digits_are_digits(n: nat, base: nat)
    requires
        2 <= base <= 16,
    ensures
        digits(n, base).len() > 0,
        forall|i: int|
            0 <= i < digits(n, base).len() ==> is_number_char(#[trigger] digits(n, base)[i]),
        base == 10 ==> forall|i: int|
            0 <= i < digits(n, base).len() ==> is_digit(#[trigger] digits(n, base)[i]),
        parse_number_spec(digits(n, base), base, i64::MAX as nat) == if n <= i64::MAX {
            Some(n)
        } else {
            None
        },
{
    number_round_trip(n, base);
    let d = digits(n, base);
    assert forall|i: int| 0 <= i < d.len() implies is_number_char(#[trigger] d[i]) && (base == 10
        ==> is_digit(d[i])) by {
        assert(digit_value(d[i]) < base);
    }
}

proof fn lemma_float(s: Seq<char>, a: int, f: int)
    requires
        float_parts(s, a, f),
    ensures
        is_float(s),
        number_token(s) == Some(TokenModel::FloatLit(s)),
        forall|i: int| 0 <= i < s.len() ==> is_number_char(#[trigger] s[i]),
        is_digit(s[0]),
{
    lemma_digit_run(s, 0, a);
    lemma_digit_run(s, a + 1, f);
    if f < s.len() {
        lemma_digit_run(s, f + 1, s.len() as int);
    }
    assert forall|i: int| 0 <= i < s.len() implies is_number_char(#[trigger] s[i]) by {
        if i != a && i != f {
            assert(is_digit(s[i]));
        }
    }
    assert(is_digit(s[0]));
    lemma_find_from(s, '.', 0);
    assert(s[1] == '.' || is_digit(s[1])) by {
        if a != 1 {
            assert(is_digit(s[1]));
        }
    }
}

proof fn lemma_int(n: nat)
    requires
        n <= i64::MAX,
    ensures
        number_token(dec(n)) == Some(TokenModel::IntLit(n as int)),
        number_token(seq!['0', 'x'] + digits(n, 16)) == Some(TokenModel::IntLit(n as int)),
        number_token(seq!['0', 'b'] + digits(n, 2)) == Some(TokenModel::IntLit(n as int)),
{
    lemma_digits_are_digits(n, 10);
    lemma_digits_are_digits(n, 16);
    lemma_digits_are_digits(n, 2);
    let d = dec(n);
    lemma_find_from(d, '.', 0);
    if find_from(d, '.', 0) < d.len() {
        assert(is_digit(d[find_from(d, '.', 0)]));
    }
    if d.len() >= 2 {
        assert(is_digit(d[1]));
    }
    let x = seq!['0', 'x'] + digits(n, 16);
    assert(x.subrange(2, x.len() as int) =~= digits(n, 16));
    let b = seq!['0', 'b'] + digits(n, 2);
    assert(b.subrange(2, b.len() as int) =~= digits(n, 2));
}

/// The characters of a number in any of its spellings.
proof fn lemma_numeral(p: Piece)
    requires
        piece_ok(p),
        is_numeral(p),
    ensures
        piece_text(p).len() > 0,
        is_digit(piece_text(p)[0]),
        forall|i: int|
            0 <= i < piece_text(p).len() ==> is_number_char(#[trigger] piece_text(p)[i]),
        number_token(piece_text(p)) == piece_token(p),
{
    let w = piece_text(p);
    match p {
        Piece::Token(TokenModel::FloatLit(s)) => {
            let (a, f) = choose|a: int, f: int| float_parts(s, a, f);
            lemma_float(s, a, f);
        },
        Piece::Token(TokenModel::IntLit(n)) => {
            lemma_digits_are_digits(n as nat, 10);
            lemma_int(n as nat);
        },
        Piece::Hex(n) => {
            lemma_digits_are_digits(n, 16);
            lemma_int(n);
            assert forall|i: int| 0 <= i < w.len() implies is_number_char(#[trigger] w[i]) by {
                if i >= 2 {
                    assert(w[i] == digits(n, 16)[i - 2]);
                }
            }
        },
        Piece::Binary(n) => {
            lemma_digits_are_digits(n, 2);
            lemma_int(n);
            assert forall|i: int| 0 <= i < w.len() implies is_number_char(#[trigger] w[i]) by {
                if i >= 2 {
                    assert(w[i] == digits(n, 2)[i - 2]);
                }
            }
        },
        _ => {},
    }
}

/// A part is not empty, and how it begins keeps it apart from what it may touch.
proof fn lemma_piece_starts(q: Piece)
    requires
        piece_ok(q),
    ensures
        piece_text(q).len() > 0,
        !is_word(q) && !is_numeral(q) ==> !is_letter(piece_text(q)[0]) && !is_digit(
            piece_text(q)[0],
        ),
        !is_word(q) && !is_numeral(q) && q != Piece::Token(TokenModel::Dot) ==> !is_number_char(
            piece_text(q)[0],
        ),
{
    if is_numeral(q) {
        lemma_numeral(q);
    }
}

/// A part stands at an index, with something behind it that ends it.
pub open spec fn reads(s: Seq<char>, i: int, p: Piece) -> bool {
    &&& stands(s, i, piece_text(p))
    &&& i + piece_text(p).len() < s.len() && (is_word(p) || is_numeral(p)) ==> {
        let c = s[i + piece_text(p).len()];
        !is_letter(c) && !is_digit(c) && (is_numeral(p) ==> !is_number_char(c))
    }
}

/// What a part is read as.
pub open spec fn read_as(p: Piece, i: int) -> Lexeme {
    match piece_token(p) {
        Some(x) => Lexeme::Tok(x, i + piece_text(p).len()),
        None => Lexeme::Skip(i + piece_text(p).len()),
    }
}

proof fn lemma_numeral_piece(s: Seq<char>, i: int, p: Piece)
    requires
        piece_ok(p),
        is_numeral(p),
        reads(s, i, p),
    ensures
        piece_text(p).len() > 0,
        lexeme(s, i) == read_as(p, i),
{
    let w = piece_text(p);
    let e = i + w.len();
    lemma_piece_starts(p);
    lemma_stands_at(s, i, w, 0);
    lemma_numeral(p);
    assert forall|k: int| i <= k < e implies is_number_char(#[trigger] s[k]) by {
        lemma_stands_at(s, i, w, k - i);
        assert(is_number_char(w[k - i]));
    }
    lemma_number_run(s, i, e);
}

proof fn lemma_word_piece(s: Seq<char>, i: int, p: Piece)
    requires
        piece_ok(p),
        is_word(p),
        reads(s, i, p),
    ensures
        piece_text(p).len() > 0,
        lexeme(s, i) == read_as(p, i),
{
    let w = piece_text(p);
    let e = i + w.len();
    lemma_piece_starts(p);
    lemma_stands_at(s, i, w, 0);
    assert forall|k: int| i <= k < e implies is_letter(#[trigger] s[k]) || is_digit(s[k]) by {
        lemma_stands_at(s, i, w, k - i);
        assert(is_letter(w[k - i]) || is_digit(w[k - i]));
    }
    lemma_ident_run(s, i, e);
}

proof fn lemma_string_piece(s: Seq<char>, i: int, p: Piece)
    requires
        piece_ok(p),
        p matches Piece::Token(TokenModel::StringLit(_)),
        reads(s, i, p),
    ensures
        piece_text(p).len() > 0,
        lexeme(s, i) == read_as(p, i),
{
    let w = piece_text(p);
    let e = i + w.len();
    lemma_piece_starts(p);
    lemma_stands_at(s, i, w, 0);
    let body = p->Token_0->StringLit_0;
    lemma_stands_parts(s, i, seq!['"'], escaped(body) + seq!['"']);
    lemma_string(s, i + 1, body, seq![]);
    assert(seq![] + body =~= body);
}

proof fn lemma_line_piece(s: Seq<char>, i: int, p: Piece)
    requires
        piece_ok(p),
        p is Line,
        reads(s, i, p),
    ensures
        piece_text(p).len() > 0,
        lexeme(s, i) == read_as(p, i),
{
    let w = piece_text(p);
    let e = i + w.len();
    lemma_piece_starts(p);
    lemma_stands_at(s, i, w, 0);
    let text = p->Line_0;
    lemma_stands_at(s, i, w, 1);
    lemma_stands_at(s, i, w, w.len() - 1);
    lemma_find_from(s, '\n', i + 2);
    let found = find_from(s, '\n', i + 2);
    if found < e - 1 {
        lemma_stands_at(s, i, w, found - i);
        assert(w[found - i] == text[found - i - 2]);
    }
}

proof fn lemma_block_piece(s: Seq<char>, i: int, p: Piece)
    requires
        piece_ok(p),
        p is Block,
        reads(s, i, p),
    ensures
        piece_text(p).len() > 0,
        lexeme(s, i) == read_as(p, i),
{
    let w = piece_text(p);
    let e = i + w.len();
    lemma_piece_starts(p);
    lemma_stands_at(s, i, w, 0);
    let text = p->Block_0;
    lemma_stands_at(s, i, w, 1);
    lemma_stands_at(s, i, w, w.len() - 1);
    lemma_stands_at(s, i, w, w.len() - 2);
    assert forall|k: int| i + 2 <= k < e - 2 implies !(#[trigger] s[k] == '*' && s[k + 1]
        == '/') by {
        lemma_stands_at(s, i, w, k - i);
        lemma_stands_at(s, i, w, k + 1 - i);
        assert(w[k - i] == text[k - i - 2]);
        if k + 1 < e - 2 {
            assert(w[k + 1 - i] == text[k - i - 1]);
        }
    }
    lemma_comment_run(s, i + 2, e - 2);
}

/// A part is read as the token that it is, or passed over.
proof fn lemma_piece(s: Seq<char>, i: int, p: Piece)
    requires
        piece_ok(p),
        reads(s, i, p),
    ensures
        piece_text(p).len() > 0,
        lexeme(s, i) == read_as(p, i),
{
    let w = piece_text(p);
    let e = i + w.len();
    lemma_piece_starts(p);
    lemma_stands_at(s, i, w, 0);
    if is_numeral(p) {
        lemma_numeral_piece(s, i, p);
    } else {
        match p {
            Piece::Token(TokenModel::Ident(_)) => lemma_word_piece(s, i, p),
            Piece::Token(TokenModel::StringLit(_)) => lemma_string_piece(s, i, p),
            Piece::Line(_) => lemma_line_piece(s, i, p),
            Piece::Block(_) => lemma_block_piece(s, i, p),
            _ => {},
        }
    }
}

/// The tokens of a list of tokens with their places.
pub open spec fn models(ts: Seq<(TokenModel, int)>) -> Seq<TokenModel> {
    ts.map_values(|t: (TokenModel, int)| t.0)
}

proof fn lemma_pieces(s: Seq<char>, i: int, ps: Seq<Piece>, acc: Seq<(TokenModel, int)>)
    requires
        pieces_ok(ps),
        stands(s, i, pieces_text(ps)),
        i + pieces_text(ps).len() == s.len(),
    ensures
        tokens_from(s, i, acc).0 matches Ok(ts) && models(ts) == models(acc) + pieces_tokens(ps)
            + seq![TokenModel::Eof],
    decreases ps.len(),
{
    if ps.len() == 0 {
        let last = (TokenModel::Eof, byte_at(s, s.len() as int));
        assert(models(acc.push(last)) =~= models(acc) + pieces_tokens(ps) + seq![TokenModel::Eof]);
    } else {
        let p = ps[0];
        let w = piece_text(p);
        let left = ps.skip(1);
        assert(piece_ok(ps[0]));
        lemma_stands_parts(s, i, w, pieces_text(left));
        assert(forall|k: int| 0 <= k < left.len() ==> left[k] == ps[k + 1]);
        assert(pieces_ok(left)) by {
            assert forall|k: int| 0 <= k < left.len() implies piece_ok(#[trigger] left[k]) by {
                assert(left[k] == ps[k + 1]);
            }
            assert forall|k: int| 0 <= k < left.len() - 1 implies may_touch(
                #[trigger] left[k],
                left[k + 1],
            ) by {
                assert(left[k] == ps[k + 1]);
                assert(may_touch(ps[k + 1], ps[k + 2]));
            }
        }
        if left.len() > 0 {
            let q = left[0];
            assert(piece_ok(q));
            assert(may_touch(ps[0], ps[1]));
            assert(pieces_text(left) == piece_text(q) + pieces_text(left.skip(1)));
            lemma_piece_starts(q);
            lemma_stands_parts(s, i + w.len(), piece_text(q), pieces_text(left.skip(1)));
            lemma_stands_at(s, i + w.len(), piece_text(q), 0);
        } else {
            assert(pieces_text(left).len() == 0);
        }
        lemma_piece(s, i, p);
        match piece_token(p) {
            Some(x) => {
                let next = acc.push((x, byte_at(s, i)));
                lemma_pieces(s, i + w.len(), left, next);
                assert(models(next) + pieces_tokens(left) + seq![TokenModel::Eof] =~= models(acc)
                    + pieces_tokens(ps) + seq![TokenModel::Eof]);
            },
            None => {
                lemma_pieces(s, i + w.len(), left, acc);
                assert(models(acc) + pieces_tokens(left) + seq![TokenModel::Eof] =~= models(acc)
                    + pieces_tokens(ps) + seq![TokenModel::Eof]);
            },
        }
    }
}

/// A text made up of words, numbers in any base, strings, marks, spaces and comments is read as
/// its words, numbers, strings and marks, in their order, and the end.
pub proof fn spelled_tokens_are_read(ps: Seq<Piece>)
    requires
        pieces_ok(ps),
    ensures
        tokens_of(pieces_text(ps)) matches Ok(ts) && models(ts) == pieces_tokens(ps)
            + seq![TokenModel::Eof],
{
    let s = pieces_text(ps);
    assert(s.subrange(0, s.len() as int) =~= s);
    lemma_pieces(s, 0, ps, seq![]);
    assert(models(Seq::<(TokenModel, int)>::empty()) + pieces_tokens(ps) + seq![TokenModel::Eof]
        =~= pieces_tokens(ps) + seq![TokenModel::Eof]);
}

/// A file comes back from its source: however the tokens of the file are laid out with spaces and
/// comments between them, the text is read as the file.
pub proof fn sources_are_read_back(f: FileModel, ps: Seq<Piece>)
    requires
        file_ok(f),
        pieces_ok(ps),
        pieces_tokens(ps) == file_tokens(f),
    ensures
        file_of(pieces_text(ps)) == Ok::<FileModel, ErrorModel>(f),
{
    spelled_tokens_are_read(ps);
    if let Ok(ts) = tokens_of(pieces_text(ps)) {
        let w = file_tokens(f);
        assert(models(ts).len() == w.len() + 1);
        assert(holds(ts, 0, w)) by {
            reveal(holds);
            assert forall|i: int| 0 <= i < w.len() implies ts[0 + i].0 == #[trigger] w[i] by {
                assert(models(ts)[i] == w[i]);
            }
        }
        assert(models(ts)[w.len() as int] == TokenModel::Eof);
        files_are_read_back(ts, f);
    }
}

/// Nothing that a part goes on with.
pub open spec fn ends_pieces(ps: Seq<Piece>, s: Seq<char>, j: int) -> bool {
    ps.len() > 0 && j < s.len() && (is_word(ps.last()) || is_numeral(ps.last())) ==> !is_letter(s[j])
        && !is_digit(s[j]) && (is_numeral(ps.last()) ==> !is_number_char(s[j]))
}

proof fn lemma_pieces_in_front(
    s: Seq<char>,
    i: int,
    ps: Seq<Piece>,
    acc: Seq<(TokenModel, int)>,
) -> (next: Seq<(TokenModel, int)>)
    requires
        pieces_ok(ps),
        stands(s, i, pieces_text(ps)),
        ends_pieces(ps, s, i + pieces_text(ps).len()),
    ensures
        tokens_from(s, i, acc) == tokens_from(s, i + pieces_text(ps).len(), next),
        models(next) == models(acc) + pieces_tokens(ps),
    decreases ps.len(),
{
    if ps.len() == 0 {
        assert(models(acc) + pieces_tokens(ps) =~= models(acc));
        acc
    } else {
        let p = ps[0];
        let w = piece_text(p);
        let left = ps.skip(1);
        assert(piece_ok(ps[0]));
        lemma_stands_parts(s, i, w, pieces_text(left));
        assert(pieces_ok(left)) by {
            assert forall|k: int| 0 <= k < left.len() implies piece_ok(#[trigger] left[k]) by {
                assert(left[k] == ps[k + 1]);
            }
            assert forall|k: int| 0 <= k < left.len() - 1 implies may_touch(
                #[trigger] left[k],
                left[k + 1],
            ) by {
                assert(left[k] == ps[k + 1]);
                assert(may_touch(ps[k + 1], ps[k + 2]));
            }
        }
        if left.len() > 0 {
            let q = left[0];
            assert(piece_ok(q));
            assert(may_touch(ps[0], ps[1]));
            assert(pieces_text(left) == piece_text(q) + pieces_text(left.skip(1)));
            lemma_piece_starts(q);
            lemma_stands_parts(s, i + w.len(), piece_text(q), pieces_text(left.skip(1)));
            lemma_stands_at(s, i + w.len(), piece_text(q), 0);
            assert(left.last() == ps.last());
        } else {
            assert(pieces_text(left).len() == 0);
            assert(ps.last() == p);
        }
        lemma_piece(s, i, p);
        match piece_token(p) {
            Some(x) => {
                let pushed = acc.push((x, byte_at(s, i)));
                let next = lemma_pieces_in_front(s, i + w.len(), left, pushed);
                assert(models(pushed) + pieces_tokens(left) =~= models(acc) + pieces_tokens(ps));
                next
            },
            None => {
                let next = lemma_pieces_in_front(s, i + w.len(), left, acc);
                assert(models(acc) + pieces_tokens(left) =~= models(acc) + pieces_tokens(ps));
                next
            },
        }
    }
}

/// A character that begins no token, or a slash that begins no comment, ends the reading where it
/// stands, counted in bytes; so does a string or a comment that does not end.
pub proof fn what_is_no_token_is_refused(ps: Seq<Piece>, c: char, rest: Seq<char>, open: Seq<char>)
    requires
        pieces_ok(ps),
        ps.len() > 0 ==> !is_word(ps.last()) && !is_numeral(ps.last()),
        !is_letter(c) && !is_digit(c) && !is_white(c),
        c != '/' && c != '"' && c != '@' && c != ';' && c != ',' && c != '.' && c != ':' && c != '='
            && c != '{' && c != '}' && c != '(' && c != ')' && c != '[' && c != ']' && c != '<' && c
            != '>' && c != '+' && c != '-',
        forall|i: int| 0 <= i < open.len() ==> #[trigger] open[i] != '"' && open[i] != '\\'
            && open[i] != '*',
    ensures
        tokens_of(pieces_text(ps) + seq![c] + rest) == Err::<Seq<(TokenModel, int)>, ErrorModel>(
            ErrorModel::UnexpectedChar(c, encode_utf8(pieces_text(ps)).len() as int),
        ),
        tokens_of(pieces_text(ps) + seq!['/']) == Err::<Seq<(TokenModel, int)>, ErrorModel>(
            ErrorModel::UnexpectedChar('/', encode_utf8(pieces_text(ps)).len() as int),
        ),
        tokens_of(pieces_text(ps) + (seq!['"'] + open)) == Err::<
            Seq<(TokenModel, int)>,
            ErrorModel,
        >(ErrorModel::UnterminatedString(encode_utf8(pieces_text(ps)).len() as int)),
        tokens_of(pieces_text(ps) + (seq!['/', '*'] + open)) == Err::<
            Seq<(TokenModel, int)>,
            ErrorModel,
        >(ErrorModel::UnterminatedComment(encode_utf8(pieces_text(ps)).len() as int)),
{
    let w = pieces_text(ps);
    let n = w.len() as int;
    let none = Seq::<(TokenModel, int)>::empty();
    let a = w + seq![c] + rest;
    assert(a.subrange(0, n) =~= w);
    assert(a.take(n) =~= w);
    assert(a[n] == c);
    let x = lemma_pieces_in_front(a, 0, ps, none);
    let b = w + seq!['/'];
    assert(b.subrange(0, n) =~= w);
    assert(b.take(n) =~= w);
    assert(b[n] == '/');
    let y = lemma_pieces_in_front(b, 0, ps, none);
    let d = w + (seq!['"'] + open);
    assert(d.subrange(0, n) =~= w);
    assert(d.take(n) =~= w);
    assert(d[n] == '"');
    let z = lemma_pieces_in_front(d, 0, ps, none);
    assert forall|k: int| n + 1 <= k < d.len() implies #[trigger] d[k] != '"' && d[k] != '\\' by {
        assert(d[k] == open[k - n - 1]);
    }
    lemma_open_string(d, n + 1, seq![]);
    let e = w + (seq!['/', '*'] + open);
    assert(e.subrange(0, n) =~= w);
    assert(e.take(n) =~= w);
    assert(e[n] == '/' && e[n + 1] == '*');
    let u = lemma_pieces_in_front(e, 0, ps, none);
    assert forall|k: int| n + 2 <= k < e.len() implies #[trigger] e[k] != '*' by {
        assert(e[k] == open[k - n - 2]);
    }
    lemma_open_comment(e, n + 2);
}

proof fn lemma_open_string(s: Seq<char>, i: int, acc: Seq<char>)
    requires
        0 <= i <= s.len(),
        forall|k: int| i <= k < s.len() ==> #[trigger] s[k] != '"' && s[k] != '\\',
    ensures
        string_body(s, i, acc) == (None::<Seq<char>>, s.len() as int),
    decreases s.len() - i,
{
    if i < s.len() {
        lemma_open_string(s, i + 1, acc.push(s[i]));
    }
}

proof fn lemma_open_comment(s: Seq<char>, i: int)
    requires
        0 <= i <= s.len(),
        forall|k: int| i <= k < s.len() ==> #[trigger] s[k] != '*',
    ensures
        comment_end(s, i) == s.len(),
    decreases s.len() - i,
{
    if i < s.len() {
        lemma_open_comment(s, i + 1);
    }
}

} // verus!
