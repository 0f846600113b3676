//! From the tokens of an AIDL file to its syntax tree.

use super::ast::{
    anno_arg_models, annotation_models, arg_model, arg_models, constant_model, constant_models,
    decl_model, decl_models, field_model, field_models, file_model, method_model, method_models,
    type_model, type_models, variant_models, AidlArg, AidlConstant, AidlDecl, AidlEnum, AidlField,
    AidlFile, AidlInterface, AidlMethod, AidlParcelable, AidlType, AidlUnion, Annotation,
    AnnotationModel, ArgModel, ConstantModel, DeclModel, Direction, EnumVariant, FieldModel,
    FileModel, MethodModel, TypeModel, VariantModel,
};
use super::grammar::{
    adv, anno_arg_list, anno_args, anno_key, annotations, arg_at, arg_list, at_word, constant_at, cur, decl_at,
    decl_body, dimensions, direction_at, empty_file, enum_at, exactly, expression, extends_at, field_at, field_block,
    field_list, file_from, file_of, has_nullable, header_at, ident, interface_at, member_at, member_list, method_at,
    method_id, more_parts, name_line, onward, parcelable_at, qualified, signature_at, type_args, type_at, type_list,
    union_at, value_at, variant_list, with_nullable, MemberModel, Parsed,
};
use super::lexer::{lexing_is_ordered, Lexer};
use super::token::{token_models, ErrorModel, ParseError, Token, TokenModel};
use crate::text::{opt_view, owned, signed_decimal, str_eq, string_views};
use vstd::prelude::*;

verus! {

/// Reads tokens from left to right.
pub struct Parser {
    tokens: Vec<(Token, usize)>,
    pos: usize,
}

/// A list of tokens that can be parsed: it is not empty, and it does not end with a sign,
/// behind which an expression would have no end.
pub open spec fn parseable(t: Seq<(TokenModel, int)>) -> bool {
    &&& t.len() > 0
    &&& t[t.len() - 1].0 != TokenModel::Plus
    &&& t[t.len() - 1].0 != TokenModel::Minus
}

/// A result and the position behind it are what the grammar says.
pub open spec fn agrees<T>(r: Result<T, ErrorModel>, p: int, s: Parsed<T>) -> bool {
    match r {
        Ok(m) => s == Ok::<(T, int), (ErrorModel, int)>((m, p)),
        Err(e) => s == Err::<(T, int), (ErrorModel, int)>((e, p)),
    }
}

spec fn string_result(r: Result<String, ParseError>) -> Result<Seq<char>, ErrorModel> {
    match r {
        Ok(s) => Ok(s@),
        Err(e) => Err(e@),
    }
}

spec fn opt_result(r: Result<Option<String>, ParseError>) -> Result<Option<Seq<char>>, ErrorModel> {
    match r {
        Ok(s) => Ok(opt_view(s)),
        Err(e) => Err(e@),
    }
}

spec fn annos_result(r: Result<Vec<Annotation>, ParseError>) -> Result<
    Seq<AnnotationModel>,
    ErrorModel,
> {
    match r {
        Ok(v) => Ok(annotation_models(v@)),
        Err(e) => Err(e@),
    }
}

spec fn anno_args_result(r: Result<Vec<(Option<String>, String)>, ParseError>) -> Result<
    Seq<(Option<Seq<char>>, Seq<char>)>,
    ErrorModel,
> {
    match r {
        Ok(v) => Ok(anno_arg_models(v@)),
        Err(e) => Err(e@),
    }
}

spec fn type_result(r: Result<AidlType, ParseError>) -> Result<TypeModel, ErrorModel> {
    match r {
        Ok(v) => Ok(type_model(v)),
        Err(e) => Err(e@),
    }
}

spec fn types_result(r: Result<Vec<AidlType>, ParseError>) -> Result<Seq<TypeModel>, ErrorModel> {
    match r {
        Ok(v) => Ok(type_models(v@)),
        Err(e) => Err(e@),
    }
}

spec fn decl_result(r: Result<AidlDecl, ParseError>) -> Result<DeclModel, ErrorModel> {
    match r {
        Ok(v) => Ok(decl_model(v)),
        Err(e) => Err(e@),
    }
}

spec fn fields_result(r: Result<Vec<AidlField>, ParseError>) -> Result<
    Seq<FieldModel>,
    ErrorModel,
> {
    match r {
        Ok(v) => Ok(field_models(v@)),
        Err(e) => Err(e@),
    }
}

/// What a result of parsing a file says.
pub open spec fn file_result(r: Result<AidlFile, ParseError>) -> Result<FileModel, ErrorModel> {
    match r {
        Ok(v) => Ok(file_model(v)),
        Err(e) => Err(e@),
    }
}

proof fn lemma_type_model(t: AidlType)
    ensures
        type_model(t).generic_args == type_models(t.generic_args@),
{
    assert(type_model(t).generic_args =~= type_models(t.generic_args@));
}

fn any_nullable(annos: &Vec<Annotation>) -> (r: bool)
    ensures
        r == has_nullable(annotation_models(annos@)),
{
    let ghost models = annotation_models(annos@);
    let mut i: usize = 0;
    while i < annos.len()
        invariant
            i <= annos@.len(),
            models == annotation_models(annos@),
            forall|k: int| 0 <= k < i ==> (#[trigger] models[k]).name != "nullable"@,
        decreases annos@.len() - i,
    {
        if str_eq(annos[i].name.as_str(), "nullable") {
            assert(models[i as int].name == "nullable"@);
            return true;
        }
        i = i + 1;
    }
    false
}

impl Parser {
    /// The tokens.
    pub closed spec fn toks(&self) -> Seq<(TokenModel, int)> {
        token_models(self.tokens@)
    }

    /// The position of the token that is read next.
    pub closed spec fn position(&self) -> int {
        self.pos as int
    }

    /// The tokens can be parsed, and the parser stands among them or at their end.
    pub open spec fn wf(&self) -> bool {
        &&& parseable(self.toks())
        &&& 0 <= self.position() <= self.toks().len()
    }

    spec fn follows(&self, before: &Parser) -> bool {
        &&& self.wf()
        &&& self.tokens@ == before.tokens@
        &&& before.pos <= self.pos
    }

    /// A parser at the first token.
    pub fn new(tokens: Vec<(Token, usize)>) -> (r: Parser)
        ensures
            r.toks() == token_models(tokens@),
            r.position() == 0,
    {
        Parser { tokens, pos: 0 }
    }

    /// Parses the text of a file.
    pub fn parse_str(input: &str) -> (r: Result<AidlFile, ParseError>)
        ensures
            file_result(r) == file_of(input@),
    {
        let mut lexer = Lexer::new(input);
        let tokens = lexer.tokenize()?;
        proof {
            lexing_is_ordered(input@);
        }
        let mut parser = Parser::new(tokens);
        parser.parse_file()
    }

    fn peek(&self) -> (r: &(Token, usize))
        requires
            self.wf(),
        ensures
            (r.0@, r.1 as int) == cur(self.toks(), self.position()),
    {
        if self.pos < self.tokens.len() {
            &self.tokens[self.pos]
        } else {
            &self.tokens[self.tokens.len() - 1]
        }
    }

    fn at(&self, token: &Token) -> (r: bool)
        requires
            self.wf(),
        ensures
            r == (cur(self.toks(), self.position()).0 == token@),
    {
        self.peek().0.same(token)
    }

    fn at_ident(&self, word: &str) -> (r: bool)
        requires
            self.wf(),
        ensures
            r == at_word(self.toks(), self.position(), word@),
    {
        match &self.peek().0 {
            Token::Ident(s) => str_eq(s.as_str(), word),
            _ => false,
        }
    }

    fn advance(&mut self) -> (r: (Token, usize))
        requires
            old(self).wf(),
        ensures
            final(self).follows(old(self)),
            (r.0@, r.1 as int) == cur(old(self).toks(), old(self).position()),
            final(self).pos == adv(old(self).toks(), old(self).pos as int),
    {
        let (token, idx) = {
            let p = self.peek();
            (p.0.duplicate(), p.1)
        };
        if self.pos < self.tokens.len() {
            self.pos = self.pos + 1;
        }
        (token, idx)
    }

    fn match_ident(&mut self, expected: &str) -> (r: bool)
        requires
            old(self).wf(),
        ensures
            final(self).follows(old(self)),
            r == at_word(old(self).toks(), old(self).pos as int, expected@),
            final(self).pos == if r {
                adv(old(self).toks(), old(self).pos as int)
            } else {
                old(self).pos as int
            },
    {
        if self.at_ident(expected) {
            self.advance();
            return true;
        }
        false
    }

    fn match_token(&mut self, expected: &Token) -> (r: bool)
        requires
            old(self).wf(),
        ensures
            final(self).follows(old(self)),
            r == (cur(old(self).toks(), old(self).pos as int).0 == expected@),
            final(self).pos == if r {
                adv(old(self).toks(), old(self).pos as int)
            } else {
                old(self).pos as int
            },
    {
        if self.at(expected) {
            self.advance();
            return true;
        }
        false
    }

    fn expect_ident(&mut self) -> (r: Result<(String, usize), ParseError>)
        requires
            old(self).wf(),
        ensures
            final(self).follows(old(self)),
            match r {
                Ok((s, idx)) => ident(old(self).toks(), old(self).pos as int) == Ok::<
                    (Seq<char>, int),
                    (ErrorModel, int),
                >((s@, final(self).pos as int)) && idx == cur(
                    old(self).toks(),
                    old(self).pos as int,
                ).1,
                Err(e) => ident(old(self).toks(), old(self).pos as int) == Err::<
                    (Seq<char>, int),
                    (ErrorModel, int),
                >((e@, final(self).pos as int)),
            },
    {
        let (tok, idx) = self.advance();
        match tok {
            Token::Ident(s) => Ok((s, idx)),
            other => Err(
                ParseError::ExpectedToken {
                    expected: owned("identifier"),
                    found: other.description(),
                    location: idx,
                },
            ),
        }
    }

    fn expect_token(&mut self, expected_tok: Token) -> (r: Result<usize, ParseError>)
        requires
            old(self).wf(),
        ensures
            final(self).follows(old(self)),
            match r {
                Ok(idx) => exactly(old(self).toks(), old(self).pos as int, expected_tok@) == Ok::<
                    ((), int),
                    (ErrorModel, int),
                >(((), final(self).pos as int)) && idx == cur(
                    old(self).toks(),
                    old(self).pos as int,
                ).1,
                Err(e) => exactly(old(self).toks(), old(self).pos as int, expected_tok@) == Err::<
                    ((), int),
                    (ErrorModel, int),
                >((e@, final(self).pos as int)),
            },
    {
        let (tok, idx) = self.advance();
        if tok.same(&expected_tok) {
            Ok(idx)
        } else {
            Err(
                ParseError::ExpectedToken {
                    expected: expected_tok.description(),
                    found: tok.description(),
                    location: idx,
                },
            )
        }
    }

    fn parse_qualified_ident(&mut self) -> (r: Result<String, ParseError>)
        requires
            old(self).wf(),
        ensures
            final(self).follows(old(self)),
            agrees(
                string_result(r),
                final(self).pos as int,
                qualified(old(self).toks(), old(self).pos as int),
            ),
            r is Ok ==> cur(old(self).toks(), old(self).pos as int).0 is Ident,
            r is Ok && old(self).pos < old(self).toks().len() ==> final(self).pos > old(self).pos,
    {
        let (mut name, _) = self.expect_ident()?;
        let ghost start = *self;
        let ghost goal = more_parts(self.toks(), self.pos as int, name@);
        while self.at(&Token::Dot)
            invariant
                self.follows(&start),
                more_parts(self.toks(), self.pos as int, name@) == goal,
                start.tokens@ == old(self).tokens@,
                goal == qualified(old(self).toks(), old(self).pos as int),
                start.pos == adv(old(self).toks(), old(self).pos as int),
            decreases self.tokens@.len() - self.pos,
        {
            self.advance();
            let (part, _) = self.expect_ident()?;
            name.push('.');
            name.append(part.as_str());
        }
        Ok(name)
    }

    fn parse_expression_as_string(&mut self) -> (r: Result<String, ParseError>)
        requires
            old(self).wf(),
        ensures
            final(self).follows(old(self)),
            agrees(
                string_result(r),
                final(self).pos as int,
                expression(old(self).toks(), old(self).pos as int),
            ),
            r is Ok ==> cur(old(self).toks(), old(self).pos as int).0 != TokenModel::Comma,
            r is Ok ==> cur(old(self).toks(), old(self).pos as int).0 != TokenModel::Semi,
            r is Ok && old(self).pos < old(self).toks().len() ==> final(self).pos > old(self).pos,
        decreases old(self).tokens@.len() - old(self).pos,
    {
        let (tok, idx) = self.advance();
        match tok {
            Token::StringLit(s) => {
                let mut out = String::new();
                out.push('"');
                out.append(s.as_str());
                out.push('"');
                assert(out@ =~= seq!['"'] + s@ + seq!['"']);
                Ok(out)
            },
            Token::IntLit(n) => Ok(signed_decimal(n)),
            Token::FloatLit(s) => Ok(s),
            Token::Ident(s) => Ok(s),
            Token::Minus => {
                let sub = self.parse_expression_as_string()?;
                let mut out = String::new();
                out.push('-');
                out.append(sub.as_str());
                assert(out@ =~= seq!['-'] + sub@);
                Ok(out)
            },
            Token::Plus => {
                let sub = self.parse_expression_as_string()?;
                let mut out = String::new();
                out.push('+');
                out.append(sub.as_str());
                assert(out@ =~= seq!['+'] + sub@);
                Ok(out)
            },
            other => Err(
                ParseError::ExpectedToken {
                    expected: owned("literal or identifier"),
                    found: other.description(),
                    location: idx,
                },
            ),
        }
    }

    fn parse_annotation_key(&mut self) -> (r: Option<String>)
        requires
            old(self).wf(),
        ensures
            final(self).follows(old(self)),
            (opt_view(r), final(self).pos as int) == anno_key(
                old(self).toks(),
                old(self).pos as int,
            ),
    {
        let key = match &self.peek().0 {
            Token::Ident(k) => Some(k.clone()),
            _ => None,
        };
        match key {
            Some(k) => {
                if self.pos < self.tokens.len() - 1 && self.tokens[self.pos + 1].0.same(
                    &Token::Equals,
                ) {
                    self.advance();
                    self.advance();
                    Some(k)
                } else {
                    None
                }
            },
            None => None,
        }
    }

    fn parse_annotation_args(&mut self) -> (r: Result<Vec<(Option<String>, String)>, ParseError>)
        requires
            old(self).wf(),
        ensures
            final(self).follows(old(self)),
            agrees(
                anno_args_result(r),
                final(self).pos as int,
                anno_arg_list(old(self).toks(), old(self).pos as int),
            ),
    {
        let mut args: Vec<(Option<String>, String)> = Vec::new();
        assert(anno_arg_models(args@) =~= seq![]);
        if !self.match_token(&Token::LParen) {
            return Ok(args);
        }
        let ghost start = *self;
        let ghost goal = anno_args(self.toks(), self.pos as int, seq![]);
        while !self.at(&Token::RParen)
            invariant_except_break
                self.follows(&start),
                anno_args(self.toks(), self.pos as int, anno_arg_models(args@)) == goal,
            invariant
                start.tokens@ == old(self).tokens@,
                old(self).pos <= start.pos,
                cur(old(self).toks(), old(self).pos as int).0 == TokenModel::LParen,
                start.pos == adv(old(self).toks(), old(self).pos as int),
                goal == anno_args(start.toks(), start.pos as int, seq![]),
            ensures
                self.follows(&start),
                goal == Ok::<
                    (Seq<(Option<Seq<char>>, Seq<char>)>, int),
                    (ErrorModel, int),
                >((anno_arg_models(args@), self.pos as int)),
            decreases self.tokens@.len() - self.pos,
        {
            let ghost before = args@;
            let ghost here = *self;
            let key = self.parse_annotation_key();
            let val = self.parse_expression_as_string()?;
            args.push((key, val));
            assert(anno_arg_models(args@) =~= anno_arg_models(before).push(
                (opt_view(key), val@),
            ));
            if !self.match_token(&Token::Comma) {
                break ;
            }
            assert(onward(self.toks(), here.pos as int, self.pos as int));
        }
        self.expect_token(Token::RParen)?;
        Ok(args)
    }

    fn parse_annotations(&mut self) -> (r: Result<Vec<Annotation>, ParseError>)
        requires
            old(self).wf(),
        ensures
            final(self).follows(old(self)),
            agrees(
                annos_result(r),
                final(self).pos as int,
                annotations(old(self).toks(), old(self).pos as int, seq![]),
            ),
            r is Ok ==> (final(self).pos > old(self).pos || cur(
                old(self).toks(),
                old(self).pos as int,
            ).0 != TokenModel::At),
    {
        let mut annos: Vec<Annotation> = Vec::new();
        let ghost goal = annotations(self.toks(), self.pos as int, seq![]);
        assert(annotation_models(annos@) =~= seq![]);
        while self.at(&Token::At)
            invariant
                self.follows(old(self)),
                annotations(self.toks(), self.pos as int, annotation_models(annos@)) == goal,
                goal == annotations(old(self).toks(), old(self).pos as int, seq![]),
            decreases self.tokens@.len() - self.pos,
        {
            let ghost before = annos@;
            self.advance();
            let (name, _) = self.expect_ident()?;
            let args = self.parse_annotation_args()?;
            annos.push(Annotation { name, args });
            assert(annotation_models(annos@) =~= annotation_models(before).push(
                AnnotationModel { name: name@, args: anno_arg_models(args@) },
            ));
        }
        Ok(annos)
    }

    fn parse_dimensions(&mut self) -> (r: Result<usize, ParseError>)
        requires
            old(self).wf(),
        ensures
            final(self).follows(old(self)),
            match r {
                Ok(n) => dimensions(old(self).toks(), old(self).pos as int, 0) == Ok::<
                    (nat, int),
                    (ErrorModel, int),
                >((n as nat, final(self).pos as int)),
                Err(e) => dimensions(old(self).toks(), old(self).pos as int, 0) == Err::<
                    (nat, int),
                    (ErrorModel, int),
                >((e@, final(self).pos as int)),
            },
    {
        let mut n: usize = 0;
        while self.at(&Token::LBracket)
            invariant
                self.follows(old(self)),
                n <= self.pos,
                dimensions(self.toks(), self.pos as int, n as nat) == dimensions(
                    old(self).toks(),
                    old(self).pos as int,
                    0,
                ),
            decreases self.tokens@.len() - self.pos,
        {
            self.advance();
            self.expect_token(Token::RBracket)?;
            n = n + 1;
        }
        Ok(n)
    }

    fn parse_type_args(&mut self, Ghost(start): Ghost<int>) -> (r: Result<
        Vec<AidlType>,
        ParseError,
    >)
        requires
            old(self).wf(),
            0 <= start <= old(self).pos,
            start < old(self).tokens@.len() ==> start < old(self).pos,
            start == old(self).tokens@.len() ==> cur(old(self).toks(), start).0
                != TokenModel::LAngle,
        ensures
            final(self).follows(old(self)),
            agrees(
                types_result(r),
                final(self).pos as int,
                type_args(old(self).toks(), start, old(self).pos as int),
            ),
        decreases old(self).tokens@.len() - start, 0int,
    {
        let mut args: Vec<AidlType> = Vec::new();
        assert(type_models(args@) =~= seq![]);
        if !self.match_token(&Token::LAngle) {
            return Ok(args);
        }
        let ghost first = *self;
        let ghost goal = type_list(self.toks(), self.pos as int, seq![]);
        while !self.at(&Token::RAngle)
            invariant_except_break
                self.follows(&first),
                type_list(self.toks(), self.pos as int, type_models(args@)) == goal,
            invariant
                first.tokens@ == old(self).tokens@,
                old(self).pos <= first.pos,
                start < first.pos <= first.tokens@.len(),
                first.pos == adv(old(self).toks(), old(self).pos as int),
                cur(old(self).toks(), old(self).pos as int).0 == TokenModel::LAngle,
                goal == type_list(first.toks(), first.pos as int, seq![]),
            ensures
                self.follows(&first),
                goal == Ok::<(Seq<TypeModel>, int), (ErrorModel, int)>(
                    (type_models(args@), self.pos as int),
                ),
            decreases self.tokens@.len() - self.pos,
        {
            let ghost before = args@;
            let ghost here = *self;
            let gty = self.parse_type()?;
            args.push(gty);
            assert(type_models(args@) =~= type_models(before).push(type_model(gty)));
            if !self.match_token(&Token::Comma) {
                break ;
            }
            assert(onward(self.toks(), here.pos as int, self.pos as int));
        }
        self.expect_token(Token::RAngle)?;
        Ok(args)
    }

    fn parse_type(&mut self) -> (r: Result<AidlType, ParseError>)
        requires
            old(self).wf(),
        ensures
            final(self).follows(old(self)),
            agrees(
                type_result(r),
                final(self).pos as int,
                type_at(old(self).toks(), old(self).pos as int),
            ),
            r is Ok ==> (cur(old(self).toks(), old(self).pos as int).0 is Ident || cur(
                old(self).toks(),
                old(self).pos as int,
            ).0 is At),
            r is Ok && old(self).pos < old(self).toks().len() ==> final(self).pos > old(self).pos,
        decreases old(self).tokens@.len() - old(self).pos, 1int,
    {
        let ghost start = self.pos as int;
        let annos = self.parse_annotations()?;
        let is_nullable = any_nullable(&annos);
        let name = self.parse_qualified_ident()?;
        let generic_args = self.parse_type_args(Ghost(start))?;
        let array_dimensions: usize = self.parse_dimensions()?;
        let ty = AidlType { name, generic_args, array_dimensions, is_nullable };
        proof {
            lemma_type_model(ty);
        }
        Ok(ty)
    }

    fn parse_nullable_type(&mut self, annos: &Vec<Annotation>) -> (r: Result<AidlType, ParseError>)
        requires
            old(self).wf(),
        ensures
            final(self).follows(old(self)),
            match (r, type_at(old(self).toks(), old(self).pos as int)) {
                (Ok(ty), Ok((m, p))) => type_model(ty) == with_nullable(
                    m,
                    annotation_models(annos@),
                ) && p == final(self).pos,
                (Err(e), Err(f)) => f == (e@, final(self).pos as int),
                _ => false,
            },
            r is Ok ==> (cur(old(self).toks(), old(self).pos as int).0 is Ident || cur(
                old(self).toks(),
                old(self).pos as int,
            ).0 is At),
            r is Ok && old(self).pos < old(self).toks().len() ==> final(self).pos > old(self).pos,
    {
        let ty = self.parse_type()?;
        let marked = any_nullable(annos);
        let out = AidlType {
            name: ty.name,
            generic_args: ty.generic_args,
            array_dimensions: ty.array_dimensions,
            is_nullable: ty.is_nullable || marked,
        };
        proof {
            lemma_type_model(ty);
            lemma_type_model(out);
        }
        Ok(out)
    }

    fn parse_direction(&mut self) -> (r: Option<Direction>)
        requires
            old(self).wf(),
        ensures
            final(self).follows(old(self)),
            (r, final(self).pos as int) == direction_at(old(self).toks(), old(self).pos as int),
    {
        if self.match_ident("in") {
            Some(Direction::In)
        } else if self.match_ident("out") {
            Some(Direction::Out)
        } else if self.match_ident("inout") {
            Some(Direction::InOut)
        } else {
            None
        }
    }

    fn parse_arg(&mut self) -> (r: Result<AidlArg, ParseError>)
        requires
            old(self).wf(),
        ensures
            final(self).follows(old(self)),
            match r {
                Ok(a) => arg_at(old(self).toks(), old(self).pos as int) == Ok::<
                    (ArgModel, int),
                    (ErrorModel, int),
                >((arg_model(a), final(self).pos as int)),
                Err(e) => arg_at(old(self).toks(), old(self).pos as int) == Err::<
                    (ArgModel, int),
                    (ErrorModel, int),
                >((e@, final(self).pos as int)),
            },
            r is Ok ==> (cur(old(self).toks(), old(self).pos as int).0 is Ident || cur(
                old(self).toks(),
                old(self).pos as int,
            ).0 is At),
            r is Ok && old(self).pos < old(self).toks().len() ==> final(self).pos > old(self).pos,
    {
        proof {
            reveal(arg_at);
        }
        let annotations = self.parse_annotations()?;
        let direction = self.parse_direction();
        let ty = self.parse_type()?;
        let (name, _) = self.expect_ident()?;
        Ok(AidlArg { annotations, direction, ty, name })
    }

    fn parse_args(&mut self) -> (r: Result<Vec<AidlArg>, ParseError>)
        requires
            old(self).wf(),
        ensures
            final(self).follows(old(self)),
            match r {
                Ok(a) => arg_list(old(self).toks(), old(self).pos as int, seq![]) == Ok::<
                    (Seq<ArgModel>, int),
                    (ErrorModel, int),
                >((arg_models(a@), final(self).pos as int)),
                Err(e) => arg_list(old(self).toks(), old(self).pos as int, seq![]) == Err::<
                    (Seq<ArgModel>, int),
                    (ErrorModel, int),
                >((e@, final(self).pos as int)),
            },
    {
        let mut args: Vec<AidlArg> = Vec::new();
        let ghost goal = arg_list(self.toks(), self.pos as int, seq![]);
        assert(arg_models(args@) =~= seq![]);
        while !self.at(&Token::RParen)
            invariant
                self.follows(old(self)),
                arg_list(self.toks(), self.pos as int, arg_models(args@)) == goal,
                goal == arg_list(old(self).toks(), old(self).pos as int, seq![]),
            decreases self.tokens@.len() - self.pos,
        {
            let ghost before = args@;
            let ghost here = *self;
            let arg = self.parse_arg()?;
            args.push(arg);
            assert(arg_models(args@) =~= arg_models(before).push(arg_model(arg)));
            if !self.match_token(&Token::Comma) {
                return Ok(args);
            }
            assert(onward(self.toks(), here.pos as int, self.pos as int));
        }
        Ok(args)
    }

    fn parse_method_id(&mut self) -> (r: Result<Option<u32>, ParseError>)
        requires
            old(self).wf(),
        ensures
            final(self).follows(old(self)),
            match r {
                Ok(id) => method_id(old(self).toks(), old(self).pos as int) == Ok::<
                    (Option<u32>, int),
                    (ErrorModel, int),
                >((id, final(self).pos as int)),
                Err(e) => method_id(old(self).toks(), old(self).pos as int) == Err::<
                    (Option<u32>, int),
                    (ErrorModel, int),
                >((e@, final(self).pos as int)),
            },
    {
        if !self.match_token(&Token::Equals) {
            return Ok(None);
        }
        let (id_tok, id_idx) = self.advance();
        match id_tok {
            Token::IntLit(n) => {
                assert((n & 0xffff_ffffi64) == n % 0x1_0000_0000i64) by (bit_vector);
                Ok(Some((n & 0xffff_ffffi64) as u32))
            },
            other => Err(
                ParseError::ExpectedToken {
                    expected: owned("integer transaction ID"),
                    found: other.description(),
                    location: id_idx,
                },
            ),
        }
    }

    fn parse_constant(&mut self) -> (r: Result<AidlConstant, ParseError>)
        requires
            old(self).wf(),
        ensures
            final(self).follows(old(self)),
            match r {
                Ok(c) => constant_at(old(self).toks(), old(self).pos as int) == Ok::<
                    (ConstantModel, int),
                    (ErrorModel, int),
                >((constant_model(c), final(self).pos as int)),
                Err(e) => constant_at(old(self).toks(), old(self).pos as int) == Err::<
                    (ConstantModel, int),
                    (ErrorModel, int),
                >((e@, final(self).pos as int)),
            },
            r is Ok ==> final(self).pos > old(self).pos,
    {
        proof {
            reveal(constant_at);
        }
        let ty = self.parse_type()?;
        let (name, _) = self.expect_ident()?;
        self.expect_token(Token::Equals)?;
        let value = self.parse_expression_as_string()?;
        self.expect_token(Token::Semi)?;
        Ok(AidlConstant { ty, name, value })
    }

    fn parse_signature(&mut self) -> (r: Result<(Vec<AidlArg>, Option<u32>), ParseError>)
        requires
            old(self).wf(),
        ensures
            final(self).follows(old(self)),
            match r {
                Ok((args, id)) => signature_at(old(self).toks(), old(self).pos as int) == Ok::<
                    ((Seq<ArgModel>, Option<u32>), int),
                    (ErrorModel, int),
                >(((arg_models(args@), id), final(self).pos as int)),
                Err(e) => signature_at(old(self).toks(), old(self).pos as int) == Err::<
                    ((Seq<ArgModel>, Option<u32>), int),
                    (ErrorModel, int),
                >((e@, final(self).pos as int)),
            },
            r is Ok ==> final(self).pos > old(self).pos,
    {
        proof {
            reveal(signature_at);
        }
        self.expect_token(Token::LParen)?;
        let args = self.parse_args()?;
        self.expect_token(Token::RParen)?;
        let id = self.parse_method_id()?;
        self.expect_token(Token::Semi)?;
        Ok((args, id))
    }

    fn parse_method(&mut self, annotations: Vec<Annotation>, is_oneway: bool) -> (r: Result<
        AidlMethod,
        ParseError,
    >)
        requires
            old(self).wf(),
        ensures
            final(self).follows(old(self)),
            match r {
                Ok(m) => method_at(
                    old(self).toks(),
                    old(self).pos as int,
                    annotation_models(annotations@),
                    is_oneway,
                ) == Ok::<(MethodModel, int), (ErrorModel, int)>(
                    (method_model(m), final(self).pos as int),
                ),
                Err(e) => method_at(
                    old(self).toks(),
                    old(self).pos as int,
                    annotation_models(annotations@),
                    is_oneway,
                ) == Err::<(MethodModel, int), (ErrorModel, int)>((e@, final(self).pos as int)),
            },
            r is Ok ==> final(self).pos > old(self).pos,
    {
        proof {
            reveal(method_at);
        }
        let m_oneway = self.match_ident("oneway");
        let return_type = self.parse_nullable_type(&annotations)?;
        let (name, _) = self.expect_ident()?;
        let (args, id) = self.parse_signature()?;
        Ok(
            AidlMethod {
                annotations,
                is_oneway: is_oneway || m_oneway,
                return_type,
                name,
                args,
                id,
            },
        )
    }

    fn parse_members(&mut self, is_oneway: bool) -> (r: Result<
        (Vec<AidlMethod>, Vec<AidlConstant>),
        ParseError,
    >)
        requires
            old(self).wf(),
        ensures
            final(self).follows(old(self)),
            match r {
                Ok((m, c)) => member_list(
                    old(self).toks(),
                    old(self).pos as int,
                    is_oneway,
                    seq![],
                    seq![],
                ) == Ok::<((Seq<MethodModel>, Seq<ConstantModel>), int), (ErrorModel, int)>(
                    ((method_models(m@), constant_models(c@)), final(self).pos as int),
                ),
                Err(e) => member_list(
                    old(self).toks(),
                    old(self).pos as int,
                    is_oneway,
                    seq![],
                    seq![],
                ) == Err::<((Seq<MethodModel>, Seq<ConstantModel>), int), (ErrorModel, int)>(
                    (e@, final(self).pos as int),
                ),
            },
    {
        let mut methods: Vec<AidlMethod> = Vec::new();
        let mut constants: Vec<AidlConstant> = Vec::new();
        let ghost goal = member_list(self.toks(), self.pos as int, is_oneway, seq![], seq![]);
        assert(method_models(methods@) =~= seq![]);
        assert(constant_models(constants@) =~= seq![]);
        while !self.at(&Token::RBrace)
            invariant
                self.follows(old(self)),
                member_list(
                    self.toks(),
                    self.pos as int,
                    is_oneway,
                    method_models(methods@),
                    constant_models(constants@),
                ) == goal,
                goal == member_list(
                    old(self).toks(),
                    old(self).pos as int,
                    is_oneway,
                    seq![],
                    seq![],
                ),
            decreases self.tokens@.len() - self.pos,
        {
            let ghost methods_before = methods@;
            let ghost constants_before = constants@;
            let ghost here = *self;
            proof {
                reveal(member_at);
            }
            let member_annos = self.parse_annotations()?;
            if self.match_ident("const") {
                let c = self.parse_constant()?;
                constants.push(c);
                assert(constant_models(constants@) =~= constant_models(constants_before).push(
                    constant_model(c),
                ));
                assert(member_at(here.toks(), here.pos as int, is_oneway) == Ok::<
                    (MemberModel, int),
                    (ErrorModel, int),
                >((MemberModel::Constant(constant_model(c)), self.pos as int)));
            } else {
                let m = self.parse_method(member_annos, is_oneway)?;
                methods.push(m);
                assert(method_models(methods@) =~= method_models(methods_before).push(
                    method_model(m),
                ));
                assert(member_at(here.toks(), here.pos as int, is_oneway) == Ok::<
                    (MemberModel, int),
                    (ErrorModel, int),
                >((MemberModel::Method(method_model(m)), self.pos as int)));
            }
        }
        Ok((methods, constants))
    }

    fn parse_extends(&mut self) -> (r: Result<Option<String>, ParseError>)
        requires
            old(self).wf(),
        ensures
            final(self).follows(old(self)),
            agrees(
                opt_result(r),
                final(self).pos as int,
                extends_at(old(self).toks(), old(self).pos as int),
            ),
    {
        if self.match_ident("extends") {
            let name = self.parse_qualified_ident()?;
            Ok(Some(name))
        } else {
            Ok(None)
        }
    }

    fn parse_interface(&mut self, annotations: Vec<Annotation>, is_oneway: bool) -> (r: Result<
        AidlDecl,
        ParseError,
    >)
        requires
            old(self).wf(),
        ensures
            final(self).follows(old(self)),
            agrees(
                decl_result(r),
                final(self).pos as int,
                interface_at(
                    old(self).toks(),
                    old(self).pos as int,
                    annotation_models(annotations@),
                    is_oneway,
                ),
            ),
            r is Ok ==> final(self).pos > old(self).pos,
    {
        proof {
            reveal(interface_at);
        }
        let (name, _) = self.expect_ident()?;
        let extends = self.parse_extends()?;
        self.expect_token(Token::LBrace)?;
        let (methods, constants) = self.parse_members(is_oneway)?;
        self.expect_token(Token::RBrace)?;
        Ok(
            AidlDecl::Interface(
                AidlInterface { annotations, is_oneway, name, extends, methods, constants },
            ),
        )
    }

    fn parse_value(&mut self) -> (r: Result<Option<String>, ParseError>)
        requires
            old(self).wf(),
        ensures
            final(self).follows(old(self)),
            agrees(
                opt_result(r),
                final(self).pos as int,
                value_at(old(self).toks(), old(self).pos as int),
            ),
    {
        if self.match_token(&Token::Equals) {
            let value = self.parse_expression_as_string()?;
            Ok(Some(value))
        } else {
            Ok(None)
        }
    }

    fn parse_field(&mut self, of_parcelable: bool) -> (r: Result<AidlField, ParseError>)
        requires
            old(self).wf(),
        ensures
            final(self).follows(old(self)),
            match r {
                Ok(f) => field_at(old(self).toks(), old(self).pos as int, of_parcelable) == Ok::<
                    (FieldModel, int),
                    (ErrorModel, int),
                >((field_model(f), final(self).pos as int)),
                Err(e) => field_at(old(self).toks(), old(self).pos as int, of_parcelable) == Err::<
                    (FieldModel, int),
                    (ErrorModel, int),
                >((e@, final(self).pos as int)),
            },
            r is Ok ==> final(self).pos > old(self).pos,
    {
        proof {
            reveal(field_at);
        }
        let annotations = self.parse_annotations()?;
        let ty = if of_parcelable {
            self.parse_nullable_type(&annotations)?
        } else {
            self.parse_type()?
        };
        let (name, _) = self.expect_ident()?;
        let default_value = if of_parcelable {
            self.parse_value()?
        } else {
            None
        };
        self.expect_token(Token::Semi)?;
        Ok(AidlField { annotations, ty, name, default_value })
    }

    fn parse_fields(&mut self, of_parcelable: bool) -> (r: Result<Vec<AidlField>, ParseError>)
        requires
            old(self).wf(),
        ensures
            final(self).follows(old(self)),
            agrees(
                fields_result(r),
                final(self).pos as int,
                field_block(old(self).toks(), old(self).pos as int, of_parcelable),
            ),
    {
        self.expect_token(Token::LBrace)?;
        let ghost start = *self;
        let mut fields: Vec<AidlField> = Vec::new();
        let ghost goal = field_list(self.toks(), self.pos as int, of_parcelable, seq![]);
        assert(field_models(fields@) =~= seq![]);
        while !self.at(&Token::RBrace)
            invariant
                self.follows(&start),
                start.follows(old(self)),
                exactly(old(self).toks(), old(self).pos as int, TokenModel::LBrace) == Ok::<
                    ((), int),
                    (ErrorModel, int),
                >(((), start.pos as int)),
                field_list(self.toks(), self.pos as int, of_parcelable, field_models(fields@))
                    == goal,
                goal == field_list(start.toks(), start.pos as int, of_parcelable, seq![]),
            decreases self.tokens@.len() - self.pos,
        {
            let ghost before = fields@;
            let f = self.parse_field(of_parcelable)?;
            fields.push(f);
            assert(field_models(fields@) =~= field_models(before).push(field_model(f)));
        }
        self.expect_token(Token::RBrace)?;
        Ok(fields)
    }

    fn parse_header(&mut self) -> (r: Result<Option<String>, ParseError>)
        requires
            old(self).wf(),
        ensures
            final(self).follows(old(self)),
            agrees(
                opt_result(r),
                final(self).pos as int,
                header_at(old(self).toks(), old(self).pos as int),
            ),
    {
        if !self.match_ident("cpp_header") {
            return Ok(None);
        }
        let (tok, idx) = self.advance();
        match tok {
            Token::StringLit(h) => Ok(Some(h)),
            other => Err(
                ParseError::ExpectedToken {
                    expected: owned("string header path"),
                    found: other.description(),
                    location: idx,
                },
            ),
        }
    }

    fn parse_parcelable(&mut self, annotations: Vec<Annotation>) -> (r: Result<
        AidlDecl,
        ParseError,
    >)
        requires
            old(self).wf(),
        ensures
            final(self).follows(old(self)),
            agrees(
                decl_result(r),
                final(self).pos as int,
                parcelable_at(
                    old(self).toks(),
                    old(self).pos as int,
                    annotation_models(annotations@),
                ),
            ),
            r is Ok ==> final(self).pos > old(self).pos,
    {
        proof {
            reveal(parcelable_at);
        }
        let (name, _) = self.expect_ident()?;
        let cpp_header = self.parse_header()?;
        if self.match_token(&Token::Semi) {
            let fields: Vec<AidlField> = Vec::new();
            assert(field_models(fields@) =~= seq![]);
            return Ok(
                AidlDecl::Parcelable(AidlParcelable { annotations, name, cpp_header, fields }),
            );
        }
        let fields = self.parse_fields(true)?;
        Ok(AidlDecl::Parcelable(AidlParcelable { annotations, name, cpp_header, fields }))
    }

    fn parse_variants(&mut self) -> (r: Result<Vec<EnumVariant>, ParseError>)
        requires
            old(self).wf(),
        ensures
            final(self).follows(old(self)),
            match r {
                Ok(v) => variant_list(old(self).toks(), old(self).pos as int, seq![]) == Ok::<
                    (Seq<VariantModel>, int),
                    (ErrorModel, int),
                >((variant_models(v@), final(self).pos as int)),
                Err(e) => variant_list(old(self).toks(), old(self).pos as int, seq![]) == Err::<
                    (Seq<VariantModel>, int),
                    (ErrorModel, int),
                >((e@, final(self).pos as int)),
            },
    {
        let mut variants: Vec<EnumVariant> = Vec::new();
        let ghost goal = variant_list(self.toks(), self.pos as int, seq![]);
        assert(variant_models(variants@) =~= seq![]);
        while !self.at(&Token::RBrace)
            invariant
                self.follows(old(self)),
                variant_list(self.toks(), self.pos as int, variant_models(variants@)) == goal,
                goal == variant_list(old(self).toks(), old(self).pos as int, seq![]),
            decreases self.tokens@.len() - self.pos,
        {
            let ghost before = variants@;
            let ghost here = *self;
            let (name, _) = self.expect_ident()?;
            let value = self.parse_value()?;
            variants.push(EnumVariant { name, value });
            assert(variant_models(variants@) =~= variant_models(before).push(
                VariantModel { name: name@, value: opt_view(value) },
            ));
            if !self.match_token(&Token::Comma) {
                return Ok(variants);
            }
            assert(onward(self.toks(), here.pos as int, self.pos as int));
        }
        Ok(variants)
    }

    fn parse_enum(&mut self, annotations: Vec<Annotation>) -> (r: Result<AidlDecl, ParseError>)
        requires
            old(self).wf(),
        ensures
            final(self).follows(old(self)),
            agrees(
                decl_result(r),
                final(self).pos as int,
                enum_at(old(self).toks(), old(self).pos as int, annotation_models(annotations@)),
            ),
            r is Ok ==> final(self).pos > old(self).pos,
    {
        proof {
            reveal(enum_at);
        }
        let (name, _) = self.expect_ident()?;
        self.expect_token(Token::LBrace)?;
        let variants = self.parse_variants()?;
        self.expect_token(Token::RBrace)?;
        Ok(AidlDecl::Enum(AidlEnum { annotations, name, backing_type: None, variants }))
    }

    fn parse_union(&mut self, annotations: Vec<Annotation>) -> (r: Result<AidlDecl, ParseError>)
        requires
            old(self).wf(),
        ensures
            final(self).follows(old(self)),
            agrees(
                decl_result(r),
                final(self).pos as int,
                union_at(old(self).toks(), old(self).pos as int, annotation_models(annotations@)),
            ),
            r is Ok ==> final(self).pos > old(self).pos,
    {
        proof {
            reveal(union_at);
        }
        let (name, _) = self.expect_ident()?;
        let fields = self.parse_fields(false)?;
        Ok(AidlDecl::Union(AidlUnion { annotations, name, fields }))
    }

    fn parse_decl(&mut self) -> (r: Result<AidlDecl, ParseError>)
        requires
            old(self).wf(),
        ensures
            final(self).follows(old(self)),
            agrees(
                decl_result(r),
                final(self).pos as int,
                decl_at(old(self).toks(), old(self).pos as int),
            ),
            r is Ok ==> final(self).pos > old(self).pos,
    {
        proof {
            reveal(decl_at);
            reveal(decl_body);
        }
        let annotations = self.parse_annotations()?;
        let is_oneway = self.match_ident("oneway");
        let ghost body = decl_body(
            self.toks(),
            self.pos as int,
            annotation_models(annotations@),
            is_oneway,
        );
        assert(body == decl_at(old(self).toks(), old(self).pos as int));
        let (kind, idx) = self.expect_ident()?;
        let kind_str = kind.as_str();
        if str_eq(kind_str, "interface") {
            self.parse_interface(annotations, is_oneway)
        } else if str_eq(kind_str, "parcelable") {
            self.parse_parcelable(annotations)
        } else if str_eq(kind_str, "enum") {
            self.parse_enum(annotations)
        } else if str_eq(kind_str, "union") {
            self.parse_union(annotations)
        } else {
            let mut message = String::new();
            message.append("Unknown declaration type '");
            message.append(kind_str);
            message.append("'");
            assert(message@ =~= "Unknown declaration type '"@ + kind@ + "'"@);
            Err(ParseError::Custom { message, location: idx })
        }
    }

    fn parse_name_line(&mut self) -> (r: Result<String, ParseError>)
        requires
            old(self).wf(),
        ensures
            final(self).follows(old(self)),
            agrees(
                string_result(r),
                final(self).pos as int,
                name_line(old(self).toks(), old(self).pos as int),
            ),
            r is Ok ==> final(self).pos > old(self).pos,
    {
        let name = self.parse_qualified_ident()?;
        self.expect_token(Token::Semi)?;
        Ok(name)
    }

    /// Parses what is left of the tokens up to the end of the file.
    pub fn parse_file(&mut self) -> (r: Result<AidlFile, ParseError>)
        requires
            old(self).wf(),
        ensures
            final(self).wf(),
            final(self).toks() == old(self).toks(),
            agrees(
                file_result(r),
                final(self).position(),
                file_from(old(self).toks(), old(self).position(), empty_file()),
            ),
    {
        let mut file = AidlFile { package: None, imports: Vec::new(), decls: Vec::new() };
        let ghost goal = file_from(self.toks(), self.pos as int, empty_file());
        assert(string_views(file.imports@) =~= seq![]);
        assert(decl_models(file.decls@) =~= seq![]);
        assert(file_model(file) == empty_file());
        while !self.at(&Token::Eof)
            invariant
                self.follows(old(self)),
                file_from(self.toks(), self.pos as int, file_model(file)) == goal,
                goal == file_from(old(self).toks(), old(self).pos as int, empty_file()),
            decreases self.tokens@.len() - self.pos,
        {
            let ghost before = file;
            if self.match_ident("package") {
                let pkg = self.parse_name_line()?;
                file.package = Some(pkg);
                assert(file_model(file) == (FileModel {
                    package: Some(pkg@),
                    ..file_model(before)
                }));
                continue ;
            } else if self.match_ident("import") {
                let imp = self.parse_name_line()?;
                file.imports.push(imp);
                assert(string_views(file.imports@) =~= string_views(before.imports@).push(imp@));
                continue ;
            }
            let decl = self.parse_decl()?;
            file.decls.push(decl);
            assert(decl_models(file.decls@) =~= decl_models(before.decls@).push(
                decl_model(decl),
            ));
        }
        Ok(file)
    }
}

} // verus!
