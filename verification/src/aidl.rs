//! Parsing of AIDL interface files.

use vstd::prelude::*;

pub mod ast;
pub mod grammar;
pub mod lexer;
pub mod parser;
pub mod print;
pub mod spelling;
pub mod token;

verus! {

/// Parses the text of an AIDL file into its syntax tree.
pub fn parse_aidl(input: &str) -> (r: Result<ast::AidlFile, token::ParseError>)
    ensures
        parser::file_result(r) == grammar::file_of(input@),
{
    parser::Parser::parse_str(input)
}

} // verus!
