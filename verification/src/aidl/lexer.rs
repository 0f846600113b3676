//! From the text of an AIDL file to its tokens.

use super::token::{token_models, ErrorModel, ParseError, Token, TokenModel};
use crate::text::{chars_of, find_char, find_from, is_white, parse_number, parse_number_spec, string_of, white};
use vstd::prelude::*;
use vstd::utf8::{encode_scalar, encode_utf8};

verus! {

/// The byte index in UTF-8 of the character at index `i`.
pub open spec fn byte_at(s: Seq<char>, i: int) -> int {
    encode_utf8(s.take(i)).len() as int
}

/// A character of an identifier.
pub open spec fn is_ident_char(c: char) -> bool {
    is_ident_start(c) || '0' <= c <= '9'
}

/// The first character of an identifier.
pub open spec fn is_ident_start(c: char) -> bool {
    'a' <= c <= 'z' || 'A' <= c <= 'Z' || c == '_'
}

/// A character of a number.
pub open spec fn is_number_char(c: char) -> bool {
    '0' <= c <= '9' || 'a' <= c <= 'f' || 'A' <= c <= 'F' || c == 'x' || c == 'X' || c == '.'
}

/// The end of the run of identifier characters from `i`.
pub open spec fn ident_end(s: Seq<char>, i: int) -> int
    decreases s.len() - i,
{
    if 0 <= i < s.len() && is_ident_char(s[i]) {
        ident_end(s, i + 1)
    } else {
        i
    }
}

/// The end of the run of number characters from `i`.
pub open spec fn number_end(s: Seq<char>, i: int) -> int
    decreases s.len() - i,
{
    if 0 <= i < s.len() && is_number_char(s[i]) {
        number_end(s, i + 1)
    } else {
        i
    }
}

/// The end of the run of decimal digits from `i`.
pub open spec fn digits_end(s: Seq<char>, i: int) -> int
    decreases s.len() - i,
{
    if 0 <= i < s.len() && '0' <= s[i] <= '9' {
        digits_end(s, i + 1)
    } else {
        i
    }
}

/// The first `*/` at or after `i`, or the length of `s`.
pub open spec fn comment_end(s: Seq<char>, i: int) -> int
    decreases s.len() - i,
{
    if i < 0 || i >= s.len() {
        s.len() as int
    } else if s[i] == '*' && i + 1 < s.len() && s[i + 1] == '/' {
        i
    } else {
        comment_end(s, i + 1)
    }
}

/// What a character stands for behind a backslash.
pub open spec fn unescape(c: char) -> char {
    match c {
        'n' => '\n',
        'r' => '\r',
        't' => '\t',
        '0' => '\0',
        other => other,
    }
}

/// The contents of a string whose body starts at `i`, and the index behind it;
/// `None` where no closing quote comes.
pub open spec fn string_body(s: Seq<char>, i: int, acc: Seq<char>) -> (Option<Seq<char>>, int)
    decreases s.len() - i,
{
    if i < 0 || i >= s.len() {
        (None, s.len() as int)
    } else if s[i] == '"' {
        (Some(acc), i + 1)
    } else if s[i] == '\\' {
        if i + 1 < s.len() {
            string_body(s, i + 2, acc.push(unescape(s[i + 1])))
        } else {
            (None, s.len() as int)
        }
    } else {
        string_body(s, i + 1, acc.push(s[i]))
    }
}

/// Digits, a dot, perhaps digits, and perhaps an exponent.
pub open spec fn is_float(s: Seq<char>) -> bool {
    let d = digits_end(s, 0);
    &&& 0 < d < s.len()
    &&& s[d] == '.'
    &&& {
        let f = digits_end(s, d + 1);
        ||| f == s.len()
        ||| (s[f] == 'e' || s[f] == 'E') && f + 1 < s.len() && digits_end(s, f + 1) == s.len()
    }
}

/// The token of a number's text.
pub open spec fn number_token(s: Seq<char>) -> Option<TokenModel> {
    let int_token = |v: Option<nat>|
        match v {
            Some(n) => Some(TokenModel::IntLit(n as int)),
            None => None,
        };
    if s.len() >= 2 && s[0] == '0' && (s[1] == 'x' || s[1] == 'X') {
        int_token(parse_number_spec(s.subrange(2, s.len() as int), 16, i64::MAX as nat))
    } else if s.len() >= 2 && s[0] == '0' && (s[1] == 'b' || s[1] == 'B') {
        int_token(parse_number_spec(s.subrange(2, s.len() as int), 2, i64::MAX as nat))
    } else if find_from(s, '.', 0) < s.len() {
        if is_float(s) {
            Some(TokenModel::FloatLit(s))
        } else {
            None
        }
    } else {
        int_token(parse_number_spec(s, 10, i64::MAX as nat))
    }
}

/// The token of a punctuation character.
pub open spec fn punctuation(c: char) -> Option<TokenModel> {
    match c {
        '@' => Some(TokenModel::At),
        ';' => Some(TokenModel::Semi),
        ',' => Some(TokenModel::Comma),
        '.' => Some(TokenModel::Dot),
        ':' => Some(TokenModel::Colon),
        '=' => Some(TokenModel::Equals),
        '{' => Some(TokenModel::LBrace),
        '}' => Some(TokenModel::RBrace),
        '(' => Some(TokenModel::LParen),
        ')' => Some(TokenModel::RParen),
        '[' => Some(TokenModel::LBracket),
        ']' => Some(TokenModel::RBracket),
        '<' => Some(TokenModel::LAngle),
        '>' => Some(TokenModel::RAngle),
        '+' => Some(TokenModel::Plus),
        '-' => Some(TokenModel::Minus),
        _ => None,
    }
}

/// What stands at an index: something to skip, a token or an error, each with the index
/// at which reading goes on.
pub enum Lexeme {
    Skip(int),
    Tok(TokenModel, int),
    Fail(ErrorModel, int),
}

/// What stands at index `i` of `s`.
pub open spec fn lexeme(s: Seq<char>, i: int) -> Lexeme {
    let c = s[i];
    let at = byte_at(s, i);
    if is_white(c) {
        Lexeme::Skip(i + 1)
    } else if c == '/' {
        if i + 1 < s.len() && s[i + 1] == '/' {
            let e = find_from(s, '\n', i + 2);
            Lexeme::Skip(
                if e < s.len() {
                    e + 1
                } else {
                    s.len() as int
                },
            )
        } else if i + 1 < s.len() && s[i + 1] == '*' {
            let e = comment_end(s, i + 2);
            if e < s.len() {
                Lexeme::Skip(e + 2)
            } else {
                Lexeme::Fail(ErrorModel::UnterminatedComment(at), s.len() as int)
            }
        } else {
            Lexeme::Fail(ErrorModel::UnexpectedChar('/', at), i + 1)
        }
    } else if punctuation(c) is Some {
        Lexeme::Tok(punctuation(c)->0, i + 1)
    } else if c == '"' {
        match string_body(s, i + 1, seq![]) {
            (Some(body), e) => Lexeme::Tok(TokenModel::StringLit(body), e),
            (None, e) => Lexeme::Fail(ErrorModel::UnterminatedString(at), e),
        }
    } else if '0' <= c <= '9' {
        let e = number_end(s, i);
        match number_token(s.subrange(i, e)) {
            Some(t) => Lexeme::Tok(t, e),
            None => Lexeme::Fail(ErrorModel::InvalidNumber(s.subrange(i, e), at), e),
        }
    } else if is_ident_start(c) {
        let e = ident_end(s, i);
        Lexeme::Tok(TokenModel::Ident(s.subrange(i, e)), e)
    } else {
        Lexeme::Fail(ErrorModel::UnexpectedChar(c, at), i)
    }
}

/// The tokens from index `i` on, behind those of `acc`, or the first error; and the index
/// at which reading stopped.
pub open spec fn tokens_from(s: Seq<char>, i: int, acc: Seq<(TokenModel, int)>) -> (
    Result<Seq<(TokenModel, int)>, ErrorModel>,
    int,
)
    decreases s.len() - i,
{
    if i < 0 || i >= s.len() {
        (Ok(acc.push((TokenModel::Eof, byte_at(s, s.len() as int)))), i)
    } else {
        match lexeme(s, i) {
            Lexeme::Skip(n) => if i < n <= s.len() {
                tokens_from(s, n, acc)
            } else {
                (Ok(acc), i)
            },
            Lexeme::Tok(t, n) => if i < n <= s.len() {
                tokens_from(s, n, acc.push((t, byte_at(s, i))))
            } else {
                (Ok(acc), i)
            },
            Lexeme::Fail(e, n) => (Err(e), n),
        }
    }
}

/// The tokens of a whole text, or the first error.
pub open spec fn tokens_of(s: Seq<char>) -> Result<Seq<(TokenModel, int)>, ErrorModel> {
    tokens_from(s, 0, seq![]).0
}

proof fn lemma_encode_push(a: Seq<char>, c: char)
    ensures
        encode_utf8(a.push(c)) == encode_utf8(a) + encode_scalar(c as u32),
    decreases a.len(),
{
    if a.len() == 0 {
        assert(a.push(c).drop_first() =~= a);
        assert(encode_utf8(a.push(c)) =~= encode_utf8(a) + encode_scalar(c as u32));
    } else {
        assert(a.push(c).drop_first() =~= a.drop_first().push(c));
        lemma_encode_push(a.drop_first(), c);
        assert(encode_utf8(a.push(c)) =~= encode_utf8(a) + encode_scalar(c as u32));
    }
}

proof fn lemma_byte_step(s: Seq<char>, i: int)
    requires
        0 <= i < s.len(),
    ensures
        byte_at(s, i + 1) == byte_at(s, i) + encode_scalar(s[i] as u32).len(),
        byte_at(s, 0) == 0,
{
    assert(s.take(i + 1) =~= s.take(i).push(s[i]));
    lemma_encode_push(s.take(i), s[i]);
}

proof fn lemma_byte_monotone(s: Seq<char>, i: int, j: int)
    requires
        0 <= i <= j <= s.len(),
    ensures
        byte_at(s, i) + (j - i) <= byte_at(s, j),
    decreases j - i,
{
    if i < j {
        lemma_byte_monotone(s, i, j - 1);
        lemma_byte_step(s, j - 1);
    }
}

proof fn lemma_ident_end(s: Seq<char>, i: int)
    requires
        0 <= i <= s.len(),
    ensures
        i <= ident_end(s, i) <= s.len(),
    decreases s.len() - i,
{
    if i < s.len() && is_ident_char(s[i]) {
        lemma_ident_end(s, i + 1);
    }
}

proof fn lemma_number_end(s: Seq<char>, i: int)
    requires
        0 <= i <= s.len(),
    ensures
        i <= number_end(s, i) <= s.len(),
    decreases s.len() - i,
{
    if i < s.len() && is_number_char(s[i]) {
        lemma_number_end(s, i + 1);
    }
}

proof fn lemma_digits_end(s: Seq<char>, i: int)
    requires
        0 <= i <= s.len(),
    ensures
        i <= digits_end(s, i) <= s.len(),
    decreases s.len() - i,
{
    if i < s.len() && '0' <= s[i] <= '9' {
        lemma_digits_end(s, i + 1);
    }
}

proof fn lemma_comment_end(s: Seq<char>, i: int)
    requires
        0 <= i <= s.len(),
    ensures
        i <= comment_end(s, i) <= s.len(),
        comment_end(s, i) < s.len() ==> comment_end(s, i) + 2 <= s.len(),
    decreases s.len() - i,
{
    if i < s.len() && !(s[i] == '*' && i + 1 < s.len() && s[i + 1] == '/') {
        lemma_comment_end(s, i + 1);
    }
}

proof fn lemma_string_body(s: Seq<char>, i: int, acc: Seq<char>)
    requires
        0 <= i <= s.len(),
    ensures
        i <= string_body(s, i, acc).1 <= s.len(),
        string_body(s, i, acc).0 is Some ==> i < string_body(s, i, acc).1,
    decreases s.len() - i,
{
    if i < s.len() && s[i] != '"' {
        if s[i] == '\\' {
            if i + 1 < s.len() {
                lemma_string_body(s, i + 2, acc.push(unescape(s[i + 1])));
            }
        } else {
            lemma_string_body(s, i + 1, acc.push(s[i]));
        }
    }
}

/// What is read at an index ends inside the text, and behind the index unless it is an error.
pub proof fn lemma_lexeme_progress(s: Seq<char>, i: int)
    requires
        0 <= i < s.len(),
    ensures
        match lexeme(s, i) {
            Lexeme::Skip(n) => i < n <= s.len(),
            Lexeme::Tok(t, n) => i < n <= s.len() && t != TokenModel::Eof,
            Lexeme::Fail(e, n) => i <= n <= s.len(),
        },
{
    if i + 2 <= s.len() {
        crate::text::lemma_find_from(s, '\n', i + 2);
        lemma_comment_end(s, i + 2);
    }
    lemma_string_body(s, i + 1, seq![]);
    lemma_ident_end(s, i + 1);
    lemma_number_end(s, i + 1);
}

/// A token list as the lexer hands it out: the byte indices rise strictly inside the text,
/// and the last token, and no other, is the end of the file, at the text's length in bytes.
pub open spec fn well_ordered(s: Seq<char>, toks: Seq<(TokenModel, int)>) -> bool {
    &&& toks.len() > 0
    &&& toks.last() == (TokenModel::Eof, encode_utf8(s).len() as int)
    &&& forall|k: int|
        0 <= k < toks.len() - 1 ==> (#[trigger] toks[k]).0 != TokenModel::Eof && 0 <= toks[k].1
            < encode_utf8(s).len()
    &&& forall|k: int, l: int|
        0 <= k < l < toks.len() ==> (#[trigger] toks[k]).1 < (#[trigger] toks[l]).1
}

proof fn lemma_tokens_from_ordered(s: Seq<char>, i: int, acc: Seq<(TokenModel, int)>)
    requires
        0 <= i <= s.len(),
        forall|k: int|
            0 <= k < acc.len() ==> (#[trigger] acc[k]).0 != TokenModel::Eof && 0 <= acc[k].1
                < byte_at(s, i),
        forall|k: int, l: int|
            0 <= k < l < acc.len() ==> (#[trigger] acc[k]).1 < (#[trigger] acc[l]).1,
    ensures
        tokens_from(s, i, acc).0 matches Ok(toks) ==> well_ordered(s, toks),
    decreases s.len() - i,
{
    assert(s.take(s.len() as int) =~= s);
    if i < s.len() {
        lemma_lexeme_progress(s, i);
        match lexeme(s, i) {
            Lexeme::Skip(n) => {
                lemma_byte_monotone(s, i, n);
                lemma_tokens_from_ordered(s, n, acc);
            },
            Lexeme::Tok(t, n) => {
                lemma_byte_monotone(s, i, n);
                lemma_tokens_from_ordered(s, n, acc.push((t, byte_at(s, i))));
            },
            Lexeme::Fail(e, n) => {},
        }
    }
}

/// Wherever lexing succeeds, the tokens stand in the order of the text and end with the
/// end-of-file token.
pub proof fn lexing_is_ordered(s: Seq<char>)
    ensures
        tokens_of(s) matches Ok(toks) ==> well_ordered(s, toks),
{
    lemma_tokens_from_ordered(s, 0, seq![]);
}

fn char_width(c: char) -> (w: usize)
    ensures
        w == encode_scalar(c as u32).len(),
{
    let v: u32 = c as u32;
    if v < 0x80 {
        1
    } else if v < 0x800 {
        2
    } else if v < 0x10000 {
        3
    } else {
        4
    }
}

fn ident_char(c: char) -> (r: bool)
    ensures
        r == is_ident_char(c),
{
    ident_start(c) || ('0' <= c && c <= '9')
}

fn ident_start(c: char) -> (r: bool)
    ensures
        r == is_ident_start(c),
{
    ('a' <= c && c <= 'z') || ('A' <= c && c <= 'Z') || c == '_'
}

fn number_char(c: char) -> (r: bool)
    ensures
        r == is_number_char(c),
{
    ('0' <= c && c <= '9') || ('a' <= c && c <= 'f') || ('A' <= c && c <= 'F') || c == 'x' || c
        == 'X' || c == '.'
}

fn skip_digits(s: &[char], start: usize) -> (e: usize)
    requires
        start <= s@.len(),
    ensures
        e == digits_end(s@, start as int),
        start <= e <= s@.len(),
{
    let mut i: usize = start;
    while i < s.len() && '0' <= s[i] && s[i] <= '9'
        invariant
            start <= i <= s@.len(),
            digits_end(s@, start as int) == digits_end(s@, i as int),
        decreases s@.len() - i,
    {
        i = i + 1;
    }
    i
}

fn float_text(s: &[char]) -> (r: bool)
    ensures
        r == is_float(s@),
{
    let d: usize = skip_digits(s, 0);
    if d == 0 || d >= s.len() || s[d] != '.' {
        return false;
    }
    let f: usize = skip_digits(s, d + 1);
    if f == s.len() {
        return true;
    }
    (s[f] == 'e' || s[f] == 'E') && f + 1 < s.len() && skip_digits(s, f + 1) == s.len()
}

fn int_literal(v: Option<u64>) -> (t: Option<Token>)
    requires
        v matches Some(n) ==> n <= i64::MAX,
    ensures
        match v {
            Some(n) => t matches Some(k) && k@ == TokenModel::IntLit(n as int),
            None => t is None,
        },
{
    match v {
        Some(n) => Some(Token::IntLit(n as i64)),
        None => None,
    }
}

fn number_literal(s: &[char]) -> (t: Option<Token>)
    ensures
        match t {
            Some(k) => number_token(s@) == Some(k@),
            None => number_token(s@) is None,
        },
{
    let max: u64 = i64::MAX as u64;
    if s.len() >= 2 && s[0] == '0' && (s[1] == 'x' || s[1] == 'X') {
        int_literal(parse_number(vstd::slice::slice_subrange(s, 2, s.len()), 16, max))
    } else if s.len() >= 2 && s[0] == '0' && (s[1] == 'b' || s[1] == 'B') {
        int_literal(parse_number(vstd::slice::slice_subrange(s, 2, s.len()), 2, max))
    } else if find_char(s, '.', 0).is_some() {
        if float_text(s) {
            Some(Token::FloatLit(string_of(s)))
        } else {
            None
        }
    } else {
        int_literal(parse_number(s, 10, max))
    }
}

fn punctuation_token(c: char) -> (t: Option<Token>)
    ensures
        match t {
            Some(k) => punctuation(c) == Some(k@),
            None => punctuation(c) is None,
        },
{
    match c {
        '@' => Some(Token::At),
        ';' => Some(Token::Semi),
        ',' => Some(Token::Comma),
        '.' => Some(Token::Dot),
        ':' => Some(Token::Colon),
        '=' => Some(Token::Equals),
        '{' => Some(Token::LBrace),
        '}' => Some(Token::RBrace),
        '(' => Some(Token::LParen),
        ')' => Some(Token::RParen),
        '[' => Some(Token::LBracket),
        ']' => Some(Token::RBracket),
        '<' => Some(Token::LAngle),
        '>' => Some(Token::RAngle),
        '+' => Some(Token::Plus),
        '-' => Some(Token::Minus),
        _ => None,
    }
}

/// Reads the characters of a text from left to right.
pub struct Lexer<'a> {
    input: &'a str,
    chars: Vec<char>,
    offsets: Vec<usize>,
    pos: usize,
}

impl<'a> Lexer<'a> {
    /// The text that is read.
    pub closed spec fn text(&self) -> Seq<char> {
        self.chars@
    }

    /// The index of the character that is read next.
    pub closed spec fn position(&self) -> int {
        self.pos as int
    }

    /// The lexer holds the byte index of every character and stands inside the text.
    pub closed spec fn wf(&self) -> bool {
        &&& self.chars@ == self.input@
        &&& self.pos <= self.chars@.len()
        &&& self.offsets@.len() == self.chars@.len() + 1
        &&& forall|i: int|
            0 <= i <= self.chars@.len() ==> #[trigger] self.offsets@[i] == byte_at(self.chars@, i)
    }

    /// A lexer at the start of a text.
    pub fn new(input: &'a str) -> (r: Lexer<'a>)
        ensures
            r.wf(),
            r.text() == input@,
            r.position() == 0,
    {
        let chars = chars_of(input);
        let total: usize = input.as_bytes().len();
        assert(chars@.take(chars@.len() as int) =~= chars@);
        assert(total == byte_at(chars@, chars@.len() as int));
        let mut offsets: Vec<usize> = Vec::new();
        let mut off: usize = 0;
        offsets.push(0);
        let mut i: usize = 0;
        assert(byte_at(chars@, 0) == 0) by {
            assert(chars@.take(0) =~= seq![]);
        }
        while i < chars.len()
            invariant
                i <= chars@.len(),
                total == byte_at(chars@, chars@.len() as int),
                off == byte_at(chars@, i as int),
                offsets@.len() == i + 1,
                forall|k: int| 0 <= k <= i ==> #[trigger] offsets@[k] == byte_at(chars@, k),
            decreases chars@.len() - i,
        {
            proof {
                lemma_byte_step(chars@, i as int);
                lemma_byte_monotone(chars@, i + 1, chars@.len() as int);
            }
            off = off + char_width(chars[i]);
            offsets.push(off);
            i = i + 1;
        }
        Lexer { input, chars, offsets, pos: 0 }
    }

    /// Reads the rest of the text into tokens with their byte indices, the last of them the
    /// end of the file; or reports the first error.
    pub fn tokenize(&mut self) -> (r: Result<Vec<(Token, usize)>, ParseError>)
        requires
            old(self).wf(),
        ensures
            final(self).wf(),
            final(self).text() == old(self).text(),
            ({
                let (res, end) = tokens_from(old(self).text(), old(self).position(), seq![]);
                &&& final(self).position() == end
                &&& match r {
                    Ok(v) => res == Ok::<Seq<(TokenModel, int)>, ErrorModel>(token_models(v@)),
                    Err(e) => res == Err::<Seq<(TokenModel, int)>, ErrorModel>(e@),
                }
            }),
    {
        let mut tokens: Vec<(Token, usize)> = Vec::new();
        let ghost goal = tokens_from(old(self).chars@, old(self).pos as int, seq![]);
        assert(token_models(tokens@) =~= seq![]);
        while self.pos < self.chars.len()
            invariant
                self.wf(),
                self.chars@ == old(self).chars@,
                tokens_from(self.chars@, self.pos as int, token_models(tokens@)) == goal,
                goal == tokens_from(old(self).chars@, old(self).pos as int, seq![]),
            decreases self.chars@.len() - self.pos,
        {
            let ch: char = self.chars[self.pos];
            let idx: usize = self.offsets[self.pos];
            let ghost at = self.pos as int;
            let ghost before = tokens@;
            proof {
                lemma_lexeme_progress(self.chars@, at);
            }
            if white(ch) {
                self.pos = self.pos + 1;
                continue ;
            }
            if ch == '/' {
                if self.pos + 1 < self.chars.len() && self.chars[self.pos + 1] == '/' {
                    match find_char(self.chars.as_slice(), '\n', self.pos + 2) {
                        Some(e) => {
                            self.pos = e + 1;
                        },
                        None => {
                            self.pos = self.chars.len();
                        },
                    }
                    continue ;
                } else if self.pos + 1 < self.chars.len() && self.chars[self.pos + 1] == '*' {
                    match self.close_comment() {
                        true => {
                            continue ;
                        },
                        false => {
                            return Err(ParseError::UnterminatedComment(idx));
                        },
                    }
                } else {
                    self.pos = self.pos + 1;
                    return Err(ParseError::UnexpectedChar('/', idx));
                }
            }
            match punctuation_token(ch) {
                Some(t) => {
                    self.pos = self.pos + 1;
                    tokens.push((t, idx));
                    assert(token_models(tokens@) =~= token_models(before).push(
                        (t@, byte_at(self.chars@, at)),
                    ));
                    continue ;
                },
                None => {},
            }
            if ch == '"' {
                match self.read_string() {
                    Some(s) => {
                        tokens.push((Token::StringLit(s), idx));
                        assert(token_models(tokens@) =~= token_models(before).push(
                            (TokenModel::StringLit(s@), byte_at(self.chars@, at)),
                        ));
                        continue ;
                    },
                    None => {
                        return Err(ParseError::UnterminatedString(idx));
                    },
                }
            }
            if '0' <= ch && ch <= '9' {
                match self.read_number() {
                    Ok(t) => {
                        tokens.push((t, idx));
                        assert(token_models(tokens@) =~= token_models(before).push(
                            (t@, byte_at(self.chars@, at)),
                        ));
                        continue ;
                    },
                    Err(text) => {
                        return Err(ParseError::InvalidNumber(text, idx));
                    },
                }
            }
            if ident_start(ch) {
                let name = self.read_ident();
                tokens.push((Token::Ident(name), idx));
                assert(token_models(tokens@) =~= token_models(before).push(
                    (TokenModel::Ident(name@), byte_at(self.chars@, at)),
                ));
                continue ;
            }
            return Err(ParseError::UnexpectedChar(ch, idx));
        }
        let ghost before = tokens@;
        let end: usize = self.offsets[self.chars.len()];
        tokens.push((Token::Eof, end));
        assert(token_models(tokens@) =~= token_models(before).push(
            (TokenModel::Eof, byte_at(self.chars@, self.chars@.len() as int)),
        ));
        Ok(tokens)
    }

    /// Moves behind the end of the block comment that starts here; to the end of the text,
    /// with `false`, where it has none.
    fn close_comment(&mut self) -> (closed: bool)
        requires
            old(self).wf(),
            old(self).pos + 2 <= old(self).chars@.len(),
        ensures
            final(self).wf(),
            final(self).chars@ == old(self).chars@,
            ({
                let e = comment_end(old(self).chars@, old(self).pos + 2);
                &&& closed == (e < old(self).chars@.len())
                &&& final(self).pos == if closed {
                    e + 2
                } else {
                    old(self).chars@.len() as int
                }
            }),
    {
        let n: usize = self.chars.len();
        let mut i: usize = self.pos + 2;
        proof {
            lemma_comment_end(self.chars@, i as int);
        }
        while i < n
            invariant
                self.wf(),
                *self == *old(self),
                n == self.chars@.len(),
                i <= n,
                comment_end(self.chars@, old(self).pos + 2) == comment_end(self.chars@, i as int),
            decreases n - i,
        {
            if self.chars[i] == '*' && i + 1 < n && self.chars[i + 1] == '/' {
                self.pos = i + 2;
                return true;
            }
            i = i + 1;
        }
        self.pos = n;
        false
    }

    /// Reads the string whose opening quote stands here; `None` where it has no end.
    fn read_string(&mut self) -> (r: Option<String>)
        requires
            old(self).wf(),
            old(self).pos < old(self).chars@.len(),
        ensures
            final(self).wf(),
            final(self).chars@ == old(self).chars@,
            ({
                let (body, end) = string_body(old(self).chars@, old(self).pos + 1, seq![]);
                &&& final(self).pos == end
                &&& match r {
                    Some(s) => body == Some(s@),
                    None => body is None,
                }
            }),
    {
        let n: usize = self.chars.len();
        let mut s = String::new();
        let mut i: usize = self.pos + 1;
        let ghost goal = string_body(self.chars@, self.pos + 1, seq![]);
        assert(s@ =~= seq![]);
        while i < n
            invariant
                self.wf(),
                *self == *old(self),
                n == self.chars@.len(),
                i <= n,
                string_body(self.chars@, i as int, s@) == goal,
                goal == string_body(old(self).chars@, old(self).pos + 1, seq![]),
            decreases n - i,
        {
            let ch: char = self.chars[i];
            if ch == '"' {
                self.pos = i + 1;
                return Some(s);
            }
            if ch == '\\' {
                if i + 1 < n {
                    let escaped: char = self.chars[i + 1];
                    match escaped {
                        'n' => s.push('\n'),
                        'r' => s.push('\r'),
                        't' => s.push('\t'),
                        '0' => s.push('\0'),
                        other => s.push(other),
                    }
                    i = i + 2;
                } else {
                    self.pos = n;
                    return None;
                }
            } else {
                s.push(ch);
                i = i + 1;
            }
        }
        self.pos = n;
        None
    }

    /// Reads the identifier that starts here.
    fn read_ident(&mut self) -> (s: String)
        requires
            old(self).wf(),
        ensures
            final(self).wf(),
            final(self).chars@ == old(self).chars@,
            final(self).pos == ident_end(old(self).chars@, old(self).pos as int),
            s@ == old(self).chars@.subrange(old(self).pos as int, final(self).pos as int),
    {
        let start: usize = self.pos;
        while self.pos < self.chars.len() && ident_char(self.chars[self.pos])
            invariant
                self.wf(),
                self.chars@ == old(self).chars@,
                old(self).pos == start,
                start <= self.pos,
                ident_end(self.chars@, start as int) == ident_end(self.chars@, self.pos as int),
            decreases self.chars@.len() - self.pos,
        {
            self.pos = self.pos + 1;
        }
        string_of(vstd::slice::slice_subrange(self.chars.as_slice(), start, self.pos))
    }

    /// Reads the number that starts here; its text where that denotes none.
    fn read_number(&mut self) -> (r: Result<Token, String>)
        requires
            old(self).wf(),
        ensures
            final(self).wf(),
            final(self).chars@ == old(self).chars@,
            final(self).pos == number_end(old(self).chars@, old(self).pos as int),
            ({
                let text = old(self).chars@.subrange(
                    old(self).pos as int,
                    final(self).pos as int,
                );
                match r {
                    Ok(t) => number_token(text) == Some(t@),
                    Err(s) => number_token(text) is None && s@ == text,
                }
            }),
    {
        let start: usize = self.pos;
        while self.pos < self.chars.len() && number_char(self.chars[self.pos])
            invariant
                self.wf(),
                self.chars@ == old(self).chars@,
                old(self).pos == start,
                start <= self.pos,
                number_end(self.chars@, start as int) == number_end(self.chars@, self.pos as int),
            decreases self.chars@.len() - self.pos,
        {
            self.pos = self.pos + 1;
        }
        let text = vstd::slice::slice_subrange(self.chars.as_slice(), start, self.pos);
        match number_literal(text) {
            Some(t) => Ok(t),
            None => Err(string_of(text)),
        }
    }
}

} // verus!
