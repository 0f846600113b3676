//! The tokens of an AIDL file and the errors of lexing and parsing.

use crate::text::{decimal, dec, signed_dec, signed_decimal, str_eq};
use vstd::prelude::*;

verus! {

/// Why an AIDL file was refused.
#[derive(Debug, PartialEq, Eq)]
pub enum ParseError {
    /// The input ended too early.
    UnexpectedEof,
    /// A character that starts no token, with its byte index.
    UnexpectedChar(char, usize),
    /// A block comment without an end, with the byte index of its start.
    UnterminatedComment(usize),
    /// A string without an end, with the byte index of its start.
    UnterminatedString(usize),
    /// A literal that denotes no number, with its byte index.
    InvalidNumber(String, usize),
    /// Another token was called for.
    ExpectedToken { expected: String, found: String, location: usize },
    /// Any other refusal.
    Custom { message: String, location: usize },
}

/// A token. A floating-point literal keeps the text that it was written with.
#[derive(Debug, Clone, PartialEq)]
pub enum Token {
    Ident(String),
    StringLit(String),
    IntLit(i64),
    FloatLit(String),
    At,
    Semi,
    Comma,
    Dot,
    Colon,
    Equals,
    LBrace,
    RBrace,
    LParen,
    RParen,
    LBracket,
    RBracket,
    LAngle,
    RAngle,
    Plus,
    Minus,
    Eof,
}

/// What a token is.
pub enum TokenModel {
    Ident(Seq<char>),
    StringLit(Seq<char>),
    IntLit(int),
    FloatLit(Seq<char>),
    At,
    Semi,
    Comma,
    Dot,
    Colon,
    Equals,
    LBrace,
    RBrace,
    LParen,
    RParen,
    LBracket,
    RBracket,
    LAngle,
    RAngle,
    Plus,
    Minus,
    Eof,
}

/// What an error says.
pub enum ErrorModel {
    UnexpectedEof,
    UnexpectedChar(char, int),
    UnterminatedComment(int),
    UnterminatedString(int),
    InvalidNumber(Seq<char>, int),
    ExpectedToken { expected: Seq<char>, found: Seq<char>, location: int },
    Custom { message: Seq<char>, location: int },
}

impl View for Token {
    type V = TokenModel;

    open spec fn view(&self) -> TokenModel {
        match *self {
            Token::Ident(s) => TokenModel::Ident(s@),
            Token::StringLit(s) => TokenModel::StringLit(s@),
            Token::IntLit(n) => TokenModel::IntLit(n as int),
            Token::FloatLit(s) => TokenModel::FloatLit(s@),
            Token::At => TokenModel::At,
            Token::Semi => TokenModel::Semi,
            Token::Comma => TokenModel::Comma,
            Token::Dot => TokenModel::Dot,
            Token::Colon => TokenModel::Colon,
            Token::Equals => TokenModel::Equals,
            Token::LBrace => TokenModel::LBrace,
            Token::RBrace => TokenModel::RBrace,
            Token::LParen => TokenModel::LParen,
            Token::RParen => TokenModel::RParen,
            Token::LBracket => TokenModel::LBracket,
            Token::RBracket => TokenModel::RBracket,
            Token::LAngle => TokenModel::LAngle,
            Token::RAngle => TokenModel::RAngle,
            Token::Plus => TokenModel::Plus,
            Token::Minus => TokenModel::Minus,
            Token::Eof => TokenModel::Eof,
        }
    }
}

impl View for ParseError {
    type V = ErrorModel;

    open spec fn view(&self) -> ErrorModel {
        match *self {
            ParseError::UnexpectedEof => ErrorModel::UnexpectedEof,
            ParseError::UnexpectedChar(c, i) => ErrorModel::UnexpectedChar(c, i as int),
            ParseError::UnterminatedComment(i) => ErrorModel::UnterminatedComment(i as int),
            ParseError::UnterminatedString(i) => ErrorModel::UnterminatedString(i as int),
            ParseError::InvalidNumber(s, i) => ErrorModel::InvalidNumber(s@, i as int),
            ParseError::ExpectedToken { expected, found, location } => ErrorModel::ExpectedToken {
                expected: expected@,
                found: found@,
                location: location as int,
            },
            ParseError::Custom { message, location } => ErrorModel::Custom {
                message: message@,
                location: location as int,
            },
        }
    }
}

/// Tokens with their byte indices.
pub open spec fn token_models(v: Seq<(Token, usize)>) -> Seq<(TokenModel, int)> {
    Seq::new(v.len(), |i: int| (v[i].0@, v[i].1 as int))
}

/// How a token is named in an error.
pub open spec fn describe(t: TokenModel) -> Seq<char> {
    match t {
        TokenModel::Ident(s) => "identifier '"@ + s + "'"@,
        TokenModel::StringLit(s) => "string \""@ + s + "\""@,
        TokenModel::IntLit(n) => "integer '"@ + signed_dec(n) + "'"@,
        TokenModel::FloatLit(s) => "float '"@ + s + "'"@,
        TokenModel::At => "'@'"@,
        TokenModel::Semi => "';'"@,
        TokenModel::Comma => "','"@,
        TokenModel::Dot => "'.'"@,
        TokenModel::Colon => "':'"@,
        TokenModel::Equals => "'='"@,
        TokenModel::LBrace => "'{'"@,
        TokenModel::RBrace => "'}'"@,
        TokenModel::LParen => "'('"@,
        TokenModel::RParen => "')'"@,
        TokenModel::LBracket => "'['"@,
        TokenModel::RBracket => "']'"@,
        TokenModel::LAngle => "'<'"@,
        TokenModel::RAngle => "'>'"@,
        TokenModel::Plus => "'+'"@,
        TokenModel::Minus => "'-'"@,
        TokenModel::Eof => "EOF"@,
    }
}

/// What an error prints as.
pub open spec fn error_text(e: ErrorModel) -> Seq<char> {
    match e {
        ErrorModel::UnexpectedEof => "Unexpected end of file"@,
        ErrorModel::UnexpectedChar(c, i) => "Unexpected character '"@ + seq![c] + "' at index "@
            + dec(i as nat),
        ErrorModel::UnterminatedComment(i) => "Unterminated comment starting at index "@ + dec(
            i as nat,
        ),
        ErrorModel::UnterminatedString(i) => "Unterminated string starting at index "@ + dec(
            i as nat,
        ),
        ErrorModel::InvalidNumber(s, i) => "Invalid number '"@ + s + "' at index "@ + dec(i as nat),
        ErrorModel::ExpectedToken { expected, found, location } => "Expected token '"@ + expected
            + "', found '"@ + found + "' at index "@ + dec(location as nat),
        ErrorModel::Custom { message, location } => "Parse error at index "@ + dec(location as nat)
            + ": "@ + message,
    }
}

impl ParseError {
    /// The text of the error.
    pub fn message(&self) -> (s: String)
        ensures
            s@ == error_text(self@),
    {
        let mut s = String::new();
        match self {
            ParseError::UnexpectedEof => {
                s.append("Unexpected end of file");
            },
            ParseError::UnexpectedChar(c, i) => {
                s.append("Unexpected character '");
                s.push(*c);
                s.append("' at index ");
                s.append(decimal(*i as u64).as_str());
            },
            ParseError::UnterminatedComment(i) => {
                s.append("Unterminated comment starting at index ");
                s.append(decimal(*i as u64).as_str());
            },
            ParseError::UnterminatedString(i) => {
                s.append("Unterminated string starting at index ");
                s.append(decimal(*i as u64).as_str());
            },
            ParseError::InvalidNumber(t, i) => {
                s.append("Invalid number '");
                s.append(t.as_str());
                s.append("' at index ");
                s.append(decimal(*i as u64).as_str());
            },
            ParseError::ExpectedToken { expected, found, location } => {
                s.append("Expected token '");
                s.append(expected.as_str());
                s.append("', found '");
                s.append(found.as_str());
                s.append("' at index ");
                s.append(decimal(*location as u64).as_str());
            },
            ParseError::Custom { message, location } => {
                s.append("Parse error at index ");
                s.append(decimal(*location as u64).as_str());
                s.append(": ");
                s.append(message.as_str());
            },
        }
        assert(s@ =~= error_text(self@));
        s
    }
}

impl Token {
    /// A copy of the token.
    pub fn duplicate(&self) -> (t: Token)
        ensures
            t@ == self@,
    {
        match self {
            Token::Ident(s) => Token::Ident(s.clone()),
            Token::StringLit(s) => Token::StringLit(s.clone()),
            Token::IntLit(n) => Token::IntLit(*n),
            Token::FloatLit(s) => Token::FloatLit(s.clone()),
            Token::At => Token::At,
            Token::Semi => Token::Semi,
            Token::Comma => Token::Comma,
            Token::Dot => Token::Dot,
            Token::Colon => Token::Colon,
            Token::Equals => Token::Equals,
            Token::LBrace => Token::LBrace,
            Token::RBrace => Token::RBrace,
            Token::LParen => Token::LParen,
            Token::RParen => Token::RParen,
            Token::LBracket => Token::LBracket,
            Token::RBracket => Token::RBracket,
            Token::LAngle => Token::LAngle,
            Token::RAngle => Token::RAngle,
            Token::Plus => Token::Plus,
            Token::Minus => Token::Minus,
            Token::Eof => Token::Eof,
        }
    }

    /// Whether two tokens are the same.
    pub fn same(&self, other: &Token) -> (r: bool)
        ensures
            r == (self@ == other@),
    {
        match (self, other) {
            (Token::Ident(a), Token::Ident(b)) => str_eq(a.as_str(), b.as_str()),
            (Token::StringLit(a), Token::StringLit(b)) => str_eq(a.as_str(), b.as_str()),
            (Token::IntLit(a), Token::IntLit(b)) => *a == *b,
            (Token::FloatLit(a), Token::FloatLit(b)) => str_eq(a.as_str(), b.as_str()),
            (Token::At, Token::At) => true,
            (Token::Semi, Token::Semi) => true,
            (Token::Comma, Token::Comma) => true,
            (Token::Dot, Token::Dot) => true,
            (Token::Colon, Token::Colon) => true,
            (Token::Equals, Token::Equals) => true,
            (Token::LBrace, Token::LBrace) => true,
            (Token::RBrace, Token::RBrace) => true,
            (Token::LParen, Token::LParen) => true,
            (Token::RParen, Token::RParen) => true,
            (Token::LBracket, Token::LBracket) => true,
            (Token::RBracket, Token::RBracket) => true,
            (Token::LAngle, Token::LAngle) => true,
            (Token::RAngle, Token::RAngle) => true,
            (Token::Plus, Token::Plus) => true,
            (Token::Minus, Token::Minus) => true,
            (Token::Eof, Token::Eof) => true,
            _ => false,
        }
    }

    /// How the token is named in an error.
    pub fn description(&self) -> (s: String)
        ensures
            s@ == describe(self@),
    {
        let mut s = String::new();
        match self {
            Token::Ident(t) => {
                s.append("identifier '");
                s.append(t.as_str());
                s.append("'");
            },
            Token::StringLit(t) => {
                s.append("string \"");
                s.append(t.as_str());
                s.append("\"");
            },
            Token::IntLit(n) => {
                s.append("integer '");
                s.append(signed_decimal(*n).as_str());
                s.append("'");
            },
            Token::FloatLit(t) => {
                s.append("float '");
                s.append(t.as_str());
                s.append("'");
            },
            Token::At => s.append("'@'"),
            Token::Semi => s.append("';'"),
            Token::Comma => s.append("','"),
            Token::Dot => s.append("'.'"),
            Token::Colon => s.append("':'"),
            Token::Equals => s.append("'='"),
            Token::LBrace => s.append("'{'"),
            Token::RBrace => s.append("'}'"),
            Token::LParen => s.append("'('"),
            Token::RParen => s.append("')'"),
            Token::LBracket => s.append("'['"),
            Token::RBracket => s.append("']'"),
            Token::LAngle => s.append("'<'"),
            Token::RAngle => s.append("'>'"),
            Token::Plus => s.append("'+'"),
            Token::Minus => s.append("'-'"),
            Token::Eof => s.append("EOF"),
        }
        assert(s@ =~= describe(self@));
        s
    }
}

} // verus!
