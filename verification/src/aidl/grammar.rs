//! What a list of tokens means: the grammar of AIDL as functions from a position in the
//! tokens to the tree that stands there and the position behind it, or to the error and the
//! position at which it was found.

use super::ast::{
    AnnotationModel, ArgModel, ConstantModel, DeclModel, Direction, FieldModel, FileModel, MethodModel, TypeModel,
    VariantModel,
};
use super::token::{describe, ErrorModel, TokenModel};
use crate::text::signed_dec;
use vstd::prelude::*;

verus! {

/// What is read at a position, or why nothing is, each with the position behind it.
pub type Parsed<T> = Result<(T, int), (ErrorModel, int)>;

/// The token at a position; behind the end, the last one.
pub open spec fn cur(t: Seq<(TokenModel, int)>, p: int) -> (TokenModel, int) {
    if 0 <= p < t.len() {
        t[p]
    } else {
        t[t.len() - 1]
    }
}

/// The next position.
pub open spec fn adv(t: Seq<(TokenModel, int)>, p: int) -> int {
    if p < t.len() {
        p + 1
    } else {
        p
    }
}

/// A position behind `p` that is still a position.
pub open spec fn onward(t: Seq<(TokenModel, int)>, p: int, q: int) -> bool {
    p < q <= t.len()
}

/// What stands where reading makes no headway. No list of tokens that ends otherwise than
/// with a sign leads there.
pub open spec fn stuck<T>(p: int) -> Parsed<T> {
    Err((ErrorModel::UnexpectedEof, p))
}

/// The refusal of the token at `p`.
pub open spec fn refuse<T>(t: Seq<(TokenModel, int)>, p: int, expected: Seq<char>) -> Parsed<T> {
    Err(
        (
            ErrorModel::ExpectedToken {
                expected,
                found: describe(cur(t, p).0),
                location: cur(t, p).1,
            },
            adv(t, p),
        ),
    )
}

/// The identifier `word` stands at `p`.
pub open spec fn at_word(t: Seq<(TokenModel, int)>, p: int, word: Seq<char>) -> bool {
    cur(t, p).0 == TokenModel::Ident(word)
}

/// An identifier.
pub open spec fn ident(t: Seq<(TokenModel, int)>, p: int) -> Parsed<Seq<char>> {
    match cur(t, p).0 {
        TokenModel::Ident(s) => Ok((s, adv(t, p))),
        _ => refuse(t, p, "identifier"@),
    }
}

/// The token `want`.
pub open spec fn exactly(t: Seq<(TokenModel, int)>, p: int, want: TokenModel) -> Parsed<()> {
    if cur(t, p).0 == want {
        Ok(((), adv(t, p)))
    } else {
        refuse(t, p, describe(want))
    }
}

/// `.part` any number of times, behind `acc`.
pub open spec fn more_parts(t: Seq<(TokenModel, int)>, p: int, acc: Seq<char>) -> Parsed<Seq<char>>
    decreases t.len() - p,
{
    if cur(t, p).0 == TokenModel::Dot {
        match ident(t, adv(t, p)) {
            Ok((part, q)) => if onward(t, p, q) {
                more_parts(t, q, acc.push('.') + part)
            } else {
                stuck(q)
            },
            Err(e) => Err(e),
        }
    } else {
        Ok((acc, p))
    }
}

/// Identifiers with dots between them.
pub open spec fn qualified(t: Seq<(TokenModel, int)>, p: int) -> Parsed<Seq<char>> {
    match ident(t, p) {
        Ok((name, q)) => more_parts(t, q, name),
        Err(e) => Err(e),
    }
}

/// A literal or an identifier, with any number of signs before it, as text.
pub open spec fn expression(t: Seq<(TokenModel, int)>, p: int) -> Parsed<Seq<char>>
    decreases t.len() - p,
{
    let q = adv(t, p);
    match cur(t, p).0 {
        TokenModel::StringLit(s) => Ok((seq!['"'] + s + seq!['"'], q)),
        TokenModel::IntLit(n) => Ok((signed_dec(n), q)),
        TokenModel::FloatLit(s) => Ok((s, q)),
        TokenModel::Ident(s) => Ok((s, q)),
        TokenModel::Minus => if onward(t, p, q) {
            match expression(t, q) {
                Ok((sub, r)) => Ok((seq!['-'] + sub, r)),
                Err(e) => Err(e),
            }
        } else {
            stuck(q)
        },
        TokenModel::Plus => if onward(t, p, q) {
            match expression(t, q) {
                Ok((sub, r)) => Ok((seq!['+'] + sub, r)),
                Err(e) => Err(e),
            }
        } else {
            stuck(q)
        },
        _ => refuse(t, p, "literal or identifier"@),
    }
}

/// The key of an annotation argument: an identifier before an equals sign.
pub open spec fn anno_key(t: Seq<(TokenModel, int)>, p: int) -> (Option<Seq<char>>, int) {
    match cur(t, p).0 {
        TokenModel::Ident(k) => if 0 <= p && p + 1 < t.len() && t[p + 1].0 == TokenModel::Equals {
            (Some(k), p + 2)
        } else {
            (None, p)
        },
        _ => (None, p),
    }
}

/// The arguments of an annotation up to the closing bracket.
pub open spec fn anno_args(
    t: Seq<(TokenModel, int)>,
    p: int,
    acc: Seq<(Option<Seq<char>>, Seq<char>)>,
) -> Parsed<Seq<(Option<Seq<char>>, Seq<char>)>>
    decreases t.len() - p,
{
    if cur(t, p).0 == TokenModel::RParen {
        Ok((acc, p))
    } else {
        let (key, q) = anno_key(t, p);
        match expression(t, q) {
            Ok((val, r)) => if cur(t, r).0 == TokenModel::Comma {
                if onward(t, p, adv(t, r)) {
                    anno_args(t, adv(t, r), acc.push((key, val)))
                } else {
                    stuck(r)
                }
            } else {
                Ok((acc.push((key, val)), r))
            },
            Err(e) => Err(e),
        }
    }
}

/// The bracketed arguments of an annotation, where there are any.
pub open spec fn anno_arg_list(t: Seq<(TokenModel, int)>, p: int) -> Parsed<
    Seq<(Option<Seq<char>>, Seq<char>)>,
> {
    if cur(t, p).0 == TokenModel::LParen {
        match anno_args(t, adv(t, p), seq![]) {
            Ok((args, q)) => match exactly(t, q, TokenModel::RParen) {
                Ok((_, r)) => Ok((args, r)),
                Err(e) => Err(e),
            },
            Err(e) => Err(e),
        }
    } else {
        Ok((seq![], p))
    }
}

/// Annotations, any number of them, behind `acc`.
pub open spec fn annotations(
    t: Seq<(TokenModel, int)>,
    p: int,
    acc: Seq<AnnotationModel>,
) -> Parsed<Seq<AnnotationModel>>
    decreases t.len() - p,
{
    if cur(t, p).0 == TokenModel::At {
        match ident(t, adv(t, p)) {
            Ok((name, q)) => match anno_arg_list(t, q) {
                Ok((args, r)) => if onward(t, p, r) {
                    annotations(t, r, acc.push(AnnotationModel { name, args }))
                } else {
                    stuck(r)
                },
                Err(e) => Err(e),
            },
            Err(e) => Err(e),
        }
    } else {
        Ok((acc, p))
    }
}

/// One of the annotations is `nullable`.
pub open spec fn has_nullable(a: Seq<AnnotationModel>) -> bool {
    exists|i: int| 0 <= i < a.len() && (#[trigger] a[i]).name == "nullable"@
}

/// Pairs of square brackets, any number of them, beyond `n`.
pub open spec fn dimensions(t: Seq<(TokenModel, int)>, p: int, n: nat) -> Parsed<nat>
    decreases t.len() - p,
{
    if cur(t, p).0 == TokenModel::LBracket {
        match exactly(t, adv(t, p), TokenModel::RBracket) {
            Ok((_, q)) => if onward(t, p, q) {
                dimensions(t, q, n + 1)
            } else {
                stuck(q)
            },
            Err(e) => Err(e),
        }
    } else {
        Ok((n, p))
    }
}

/// Types with commas between them, up to the closing bracket.
pub open spec fn type_list(t: Seq<(TokenModel, int)>, p: int, acc: Seq<TypeModel>) -> Parsed<
    Seq<TypeModel>,
>
    decreases t.len() - p, 2int,
{
    if cur(t, p).0 == TokenModel::RAngle {
        Ok((acc, p))
    } else {
        match type_at(t, p) {
            Ok((ty, q)) => if cur(t, q).0 == TokenModel::Comma {
                if onward(t, p, adv(t, q)) {
                    type_list(t, adv(t, q), acc.push(ty))
                } else {
                    stuck(q)
                }
            } else {
                Ok((acc.push(ty), q))
            },
            Err(e) => Err(e),
        }
    }
}

/// The type arguments in angle brackets, where there are any, of a type that starts at `p`.
pub open spec fn type_args(t: Seq<(TokenModel, int)>, p: int, q: int) -> Parsed<Seq<TypeModel>>
    decreases t.len() - p, 0int,
{
    if cur(t, q).0 == TokenModel::LAngle {
        if onward(t, p, adv(t, q)) {
            match type_list(t, adv(t, q), seq![]) {
                Ok((args, r)) => match exactly(t, r, TokenModel::RAngle) {
                    Ok((_, s)) => Ok((args, s)),
                    Err(e) => Err(e),
                },
                Err(e) => Err(e),
            }
        } else {
            stuck(q)
        }
    } else {
        Ok((seq![], q))
    }
}

/// A type.
pub open spec fn type_at(t: Seq<(TokenModel, int)>, p: int) -> Parsed<TypeModel>
    decreases t.len() - p, 1int,
{
    match annotations(t, p, seq![]) {
        Ok((annos, q)) => match qualified(t, q) {
            Ok((name, r)) => match type_args(t, p, r) {
                Ok((generic_args, s)) => match dimensions(t, s, 0) {
                    Ok((array_dimensions, u)) => Ok(
                        (
                            TypeModel {
                                name,
                                generic_args,
                                array_dimensions,
                                is_nullable: has_nullable(annos),
                            },
                            u,
                        ),
                    ),
                    Err(e) => Err(e),
                },
                Err(e) => Err(e),
            },
            Err(e) => Err(e),
        },
        Err(e) => Err(e),
    }
}

/// `ty`, nullable if it was or if the annotations say so.
pub open spec fn with_nullable(ty: TypeModel, annos: Seq<AnnotationModel>) -> TypeModel {
    TypeModel { is_nullable: ty.is_nullable || has_nullable(annos), ..ty }
}

/// The direction of a parameter, where one stands at `p`.
pub open spec fn direction_at(t: Seq<(TokenModel, int)>, p: int) -> (Option<Direction>, int) {
    if at_word(t, p, "in"@) {
        (Some(Direction::In), adv(t, p))
    } else if at_word(t, p, "out"@) {
        (Some(Direction::Out), adv(t, p))
    } else if at_word(t, p, "inout"@) {
        (Some(Direction::InOut), adv(t, p))
    } else {
        (None, p)
    }
}

/// A parameter.
#[verifier::opaque]
pub open spec fn arg_at(t: Seq<(TokenModel, int)>, p: int) -> Parsed<ArgModel> {
    match annotations(t, p, seq![]) {
        Ok((annotations, q)) => {
            let (direction, r) = direction_at(t, q);
            match type_at(t, r) {
                Ok((ty, s)) => match ident(t, s) {
                    Ok((name, u)) => Ok((ArgModel { annotations, direction, ty, name }, u)),
                    Err(e) => Err(e),
                },
                Err(e) => Err(e),
            }
        },
        Err(e) => Err(e),
    }
}

/// Parameters with commas between them, up to the closing bracket.
pub open spec fn arg_list(t: Seq<(TokenModel, int)>, p: int, acc: Seq<ArgModel>) -> Parsed<
    Seq<ArgModel>,
>
    decreases t.len() - p,
{
    if cur(t, p).0 == TokenModel::RParen {
        Ok((acc, p))
    } else {
        match arg_at(t, p) {
            Ok((arg, q)) => if cur(t, q).0 == TokenModel::Comma {
                if onward(t, p, adv(t, q)) {
                    arg_list(t, adv(t, q), acc.push(arg))
                } else {
                    stuck(q)
                }
            } else {
                Ok((acc.push(arg), q))
            },
            Err(e) => Err(e),
        }
    }
}

/// The transaction number of a method, modulo the range of its type, where one is given.
pub open spec fn method_id(t: Seq<(TokenModel, int)>, p: int) -> Parsed<Option<u32>> {
    if cur(t, p).0 == TokenModel::Equals {
        let q = adv(t, p);
        match cur(t, q).0 {
            TokenModel::IntLit(n) => Ok((Some((n % 0x1_0000_0000) as u32), adv(t, q))),
            _ => refuse(t, q, "integer transaction ID"@),
        }
    } else {
        Ok((None, p))
    }
}

/// A member of an interface.
pub enum MemberModel {
    Constant(ConstantModel),
    Method(MethodModel),
}

/// A constant behind its keyword.
#[verifier::opaque]
pub open spec fn constant_at(t: Seq<(TokenModel, int)>, p: int) -> Parsed<ConstantModel> {
    match type_at(t, p) {
        Ok((ty, q)) => match ident(t, q) {
            Ok((name, r)) => match exactly(t, r, TokenModel::Equals) {
                Ok((_, s)) => match expression(t, s) {
                    Ok((value, u)) => match exactly(t, u, TokenModel::Semi) {
                        Ok((_, v)) => Ok((ConstantModel { ty, name, value }, v)),
                        Err(e) => Err(e),
                    },
                    Err(e) => Err(e),
                },
                Err(e) => Err(e),
            },
            Err(e) => Err(e),
        },
        Err(e) => Err(e),
    }
}

/// The part of a method behind its name: parameters, number and semicolon.
#[verifier::opaque]
pub open spec fn signature_at(t: Seq<(TokenModel, int)>, p: int) -> Parsed<
    (Seq<ArgModel>, Option<u32>),
> {
    match exactly(t, p, TokenModel::LParen) {
        Ok((_, q)) => match arg_list(t, q, seq![]) {
            Ok((args, r)) => match exactly(t, r, TokenModel::RParen) {
                Ok((_, s)) => match method_id(t, s) {
                    Ok((id, u)) => match exactly(t, u, TokenModel::Semi) {
                        Ok((_, v)) => Ok(((args, id), v)),
                        Err(e) => Err(e),
                    },
                    Err(e) => Err(e),
                },
                Err(e) => Err(e),
            },
            Err(e) => Err(e),
        },
        Err(e) => Err(e),
    }
}

/// A method behind its annotations. In a `oneway` interface every method is `oneway`.
#[verifier::opaque]
pub open spec fn method_at(
    t: Seq<(TokenModel, int)>,
    p: int,
    annotations: Seq<AnnotationModel>,
    is_oneway: bool,
) -> Parsed<MethodModel> {
    let own = at_word(t, p, "oneway"@);
    let q = if own {
        adv(t, p)
    } else {
        p
    };
    match type_at(t, q) {
        Ok((ty, r)) => match ident(t, r) {
            Ok((name, s)) => match signature_at(t, s) {
                Ok(((args, id), u)) => Ok(
                    (
                        MethodModel {
                            annotations,
                            is_oneway: is_oneway || own,
                            return_type: with_nullable(ty, annotations),
                            name,
                            args,
                            id,
                        },
                        u,
                    ),
                ),
                Err(e) => Err(e),
            },
            Err(e) => Err(e),
        },
        Err(e) => Err(e),
    }
}

/// A member of an interface.
#[verifier::opaque]
pub open spec fn member_at(t: Seq<(TokenModel, int)>, p: int, is_oneway: bool) -> Parsed<
    MemberModel,
> {
    match annotations(t, p, seq![]) {
        Ok((annos, q)) => if at_word(t, q, "const"@) {
            match constant_at(t, adv(t, q)) {
                Ok((c, r)) => Ok((MemberModel::Constant(c), r)),
                Err(e) => Err(e),
            }
        } else {
            match method_at(t, q, annos, is_oneway) {
                Ok((m, r)) => Ok((MemberModel::Method(m), r)),
                Err(e) => Err(e),
            }
        },
        Err(e) => Err(e),
    }
}

/// The members of an interface up to the closing brace.
pub open spec fn member_list(
    t: Seq<(TokenModel, int)>,
    p: int,
    is_oneway: bool,
    methods: Seq<MethodModel>,
    constants: Seq<ConstantModel>,
) -> Parsed<(Seq<MethodModel>, Seq<ConstantModel>)>
    decreases t.len() - p,
{
    if cur(t, p).0 == TokenModel::RBrace {
        Ok(((methods, constants), p))
    } else {
        match member_at(t, p, is_oneway) {
            Ok((m, q)) => if onward(t, p, q) {
                match m {
                    MemberModel::Constant(c) => member_list(
                        t,
                        q,
                        is_oneway,
                        methods,
                        constants.push(c),
                    ),
                    MemberModel::Method(f) => member_list(
                        t,
                        q,
                        is_oneway,
                        methods.push(f),
                        constants,
                    ),
                }
            } else {
                stuck(q)
            },
            Err(e) => Err(e),
        }
    }
}

/// The base of an interface, where it has one.
pub open spec fn extends_at(t: Seq<(TokenModel, int)>, p: int) -> Parsed<Option<Seq<char>>> {
    if at_word(t, p, "extends"@) {
        match qualified(t, adv(t, p)) {
            Ok((name, q)) => Ok((Some(name), q)),
            Err(e) => Err(e),
        }
    } else {
        Ok((None, p))
    }
}

/// An interface behind its keyword.
#[verifier::opaque]
pub open spec fn interface_at(
    t: Seq<(TokenModel, int)>,
    p: int,
    annotations: Seq<AnnotationModel>,
    is_oneway: bool,
) -> Parsed<DeclModel> {
    match ident(t, p) {
        Ok((name, q)) => match extends_at(t, q) {
            Ok((extends, r)) => match exactly(t, r, TokenModel::LBrace) {
                Ok((_, s)) => match member_list(t, s, is_oneway, seq![], seq![]) {
                    Ok(((methods, constants), u)) => match exactly(t, u, TokenModel::RBrace) {
                        Ok((_, v)) => Ok(
                            (
                                DeclModel::Interface {
                                    annotations,
                                    is_oneway,
                                    name,
                                    extends,
                                    methods,
                                    constants,
                                },
                                v,
                            ),
                        ),
                        Err(e) => Err(e),
                    },
                    Err(e) => Err(e),
                },
                Err(e) => Err(e),
            },
            Err(e) => Err(e),
        },
        Err(e) => Err(e),
    }
}

/// The value behind an equals sign, where there is one.
pub open spec fn value_at(t: Seq<(TokenModel, int)>, p: int) -> Parsed<Option<Seq<char>>> {
    if cur(t, p).0 == TokenModel::Equals {
        match expression(t, adv(t, p)) {
            Ok((v, q)) => Ok((Some(v), q)),
            Err(e) => Err(e),
        }
    } else {
        Ok((None, p))
    }
}

/// A field. One of a parcelable may have a default value, and takes `nullable` from its
/// annotations.
#[verifier::opaque]
pub open spec fn field_at(t: Seq<(TokenModel, int)>, p: int, of_parcelable: bool) -> Parsed<
    FieldModel,
> {
    match annotations(t, p, seq![]) {
        Ok((annotations, q)) => match type_at(t, q) {
            Ok((ty, r)) => match ident(t, r) {
                Ok((name, s)) => match if of_parcelable {
                    value_at(t, s)
                } else {
                    Ok((None, s))
                } {
                    Ok((default_value, u)) => match exactly(t, u, TokenModel::Semi) {
                        Ok((_, v)) => Ok(
                            (
                                FieldModel {
                                    annotations,
                                    ty: if of_parcelable {
                                        with_nullable(ty, annotations)
                                    } else {
                                        ty
                                    },
                                    name,
                                    default_value,
                                },
                                v,
                            ),
                        ),
                        Err(e) => Err(e),
                    },
                    Err(e) => Err(e),
                },
                Err(e) => Err(e),
            },
            Err(e) => Err(e),
        },
        Err(e) => Err(e),
    }
}

/// Fields up to the closing brace.
pub open spec fn field_list(
    t: Seq<(TokenModel, int)>,
    p: int,
    of_parcelable: bool,
    acc: Seq<FieldModel>,
) -> Parsed<Seq<FieldModel>>
    decreases t.len() - p,
{
    if cur(t, p).0 == TokenModel::RBrace {
        Ok((acc, p))
    } else {
        match field_at(t, p, of_parcelable) {
            Ok((f, q)) => if onward(t, p, q) {
                field_list(t, q, of_parcelable, acc.push(f))
            } else {
                stuck(q)
            },
            Err(e) => Err(e),
        }
    }
}

/// Fields between braces.
pub open spec fn field_block(t: Seq<(TokenModel, int)>, p: int, of_parcelable: bool) -> Parsed<
    Seq<FieldModel>,
> {
    match exactly(t, p, TokenModel::LBrace) {
        Ok((_, q)) => match field_list(t, q, of_parcelable, seq![]) {
            Ok((fields, r)) => match exactly(t, r, TokenModel::RBrace) {
                Ok((_, s)) => Ok((fields, s)),
                Err(e) => Err(e),
            },
            Err(e) => Err(e),
        },
        Err(e) => Err(e),
    }
}

/// The header file of a parcelable, where it has one.
pub open spec fn header_at(t: Seq<(TokenModel, int)>, p: int) -> Parsed<Option<Seq<char>>> {
    if at_word(t, p, "cpp_header"@) {
        let q = adv(t, p);
        match cur(t, q).0 {
            TokenModel::StringLit(h) => Ok((Some(h), adv(t, q))),
            _ => refuse(t, q, "string header path"@),
        }
    } else {
        Ok((None, p))
    }
}

/// A parcelable behind its keyword: declared only, or with its fields.
#[verifier::opaque]
pub open spec fn parcelable_at(
    t: Seq<(TokenModel, int)>,
    p: int,
    annotations: Seq<AnnotationModel>,
) -> Parsed<DeclModel> {
    match ident(t, p) {
        Ok((name, q)) => match header_at(t, q) {
            Ok((cpp_header, r)) => if cur(t, r).0 == TokenModel::Semi {
                Ok(
                    (
                        DeclModel::Parcelable { annotations, name, cpp_header, fields: seq![] },
                        adv(t, r),
                    ),
                )
            } else {
                match field_block(t, r, true) {
                    Ok((fields, s)) => Ok(
                        (DeclModel::Parcelable { annotations, name, cpp_header, fields }, s),
                    ),
                    Err(e) => Err(e),
                }
            },
            Err(e) => Err(e),
        },
        Err(e) => Err(e),
    }
}

/// Enum variants with commas between them, up to the closing brace.
pub open spec fn variant_list(t: Seq<(TokenModel, int)>, p: int, acc: Seq<VariantModel>) -> Parsed<
    Seq<VariantModel>,
>
    decreases t.len() - p,
{
    if cur(t, p).0 == TokenModel::RBrace {
        Ok((acc, p))
    } else {
        match ident(t, p) {
            Ok((name, q)) => match value_at(t, q) {
                Ok((value, r)) => if cur(t, r).0 == TokenModel::Comma {
                    if onward(t, p, adv(t, r)) {
                        variant_list(t, adv(t, r), acc.push(VariantModel { name, value }))
                    } else {
                        stuck(r)
                    }
                } else {
                    Ok((acc.push(VariantModel { name, value }), r))
                },
                Err(e) => Err(e),
            },
            Err(e) => Err(e),
        }
    }
}

/// An enum behind its keyword.
#[verifier::opaque]
pub open spec fn enum_at(
    t: Seq<(TokenModel, int)>,
    p: int,
    annotations: Seq<AnnotationModel>,
) -> Parsed<DeclModel> {
    match ident(t, p) {
        Ok((name, q)) => match exactly(t, q, TokenModel::LBrace) {
            Ok((_, r)) => match variant_list(t, r, seq![]) {
                Ok((variants, s)) => match exactly(t, s, TokenModel::RBrace) {
                    Ok((_, u)) => Ok(
                        (DeclModel::Enum { annotations, name, backing_type: None, variants }, u),
                    ),
                    Err(e) => Err(e),
                },
                Err(e) => Err(e),
            },
            Err(e) => Err(e),
        },
        Err(e) => Err(e),
    }
}

/// A union behind its keyword.
#[verifier::opaque]
pub open spec fn union_at(
    t: Seq<(TokenModel, int)>,
    p: int,
    annotations: Seq<AnnotationModel>,
) -> Parsed<DeclModel> {
    match ident(t, p) {
        Ok((name, q)) => match field_block(t, q, false) {
            Ok((fields, r)) => Ok((DeclModel::Union { annotations, name, fields }, r)),
            Err(e) => Err(e),
        },
        Err(e) => Err(e),
    }
}

/// A declaration behind its annotations and its `oneway`.
#[verifier::opaque]
pub open spec fn decl_body(
    t: Seq<(TokenModel, int)>,
    p: int,
    annotations: Seq<AnnotationModel>,
    is_oneway: bool,
) -> Parsed<DeclModel> {
    match ident(t, p) {
        Ok((kind, q)) => if kind == "interface"@ {
            interface_at(t, q, annotations, is_oneway)
        } else if kind == "parcelable"@ {
            parcelable_at(t, q, annotations)
        } else if kind == "enum"@ {
            enum_at(t, q, annotations)
        } else if kind == "union"@ {
            union_at(t, q, annotations)
        } else {
            Err(
                (
                    ErrorModel::Custom {
                        message: "Unknown declaration type '"@ + kind + "'"@,
                        location: cur(t, p).1,
                    },
                    q,
                ),
            )
        },
        Err(e) => Err(e),
    }
}

/// A declaration.
#[verifier::opaque]
pub open spec fn decl_at(t: Seq<(TokenModel, int)>, p: int) -> Parsed<DeclModel> {
    match annotations(t, p, seq![]) {
        Ok((annos, q)) => if at_word(t, q, "oneway"@) {
            decl_body(t, adv(t, q), annos, true)
        } else {
            decl_body(t, q, annos, false)
        },
        Err(e) => Err(e),
    }
}

/// A dotted name and a semicolon.
pub open spec fn name_line(t: Seq<(TokenModel, int)>, p: int) -> Parsed<Seq<char>> {
    match qualified(t, p) {
        Ok((name, q)) => match exactly(t, q, TokenModel::Semi) {
            Ok((_, r)) => Ok((name, r)),
            Err(e) => Err(e),
        },
        Err(e) => Err(e),
    }
}

/// The rest of a file from `p` on, behind `acc`.
pub open spec fn file_from(t: Seq<(TokenModel, int)>, p: int, acc: FileModel) -> Parsed<FileModel>
    decreases t.len() - p,
{
    if cur(t, p).0 == TokenModel::Eof {
        Ok((acc, p))
    } else if at_word(t, p, "package"@) {
        match name_line(t, adv(t, p)) {
            Ok((name, q)) => if onward(t, p, q) {
                file_from(t, q, FileModel { package: Some(name), ..acc })
            } else {
                stuck(q)
            },
            Err(e) => Err(e),
        }
    } else if at_word(t, p, "import"@) {
        match name_line(t, adv(t, p)) {
            Ok((name, q)) => if onward(t, p, q) {
                file_from(t, q, FileModel { imports: acc.imports.push(name), ..acc })
            } else {
                stuck(q)
            },
            Err(e) => Err(e),
        }
    } else {
        match decl_at(t, p) {
            Ok((d, q)) => if onward(t, p, q) {
                file_from(t, q, FileModel { decls: acc.decls.push(d), ..acc })
            } else {
                stuck(q)
            },
            Err(e) => Err(e),
        }
    }
}

/// A file without contents.
pub open spec fn empty_file() -> FileModel {
    FileModel { package: None, imports: seq![], decls: seq![] }
}

/// The file that a text holds, or the first error in it.
pub open spec fn file_of(text: Seq<char>) -> Result<FileModel, ErrorModel> {
    match super::lexer::tokens_of(text) {
        Ok(toks) => match file_from(toks, 0, empty_file()) {
            Ok((f, _)) => Ok(f),
            Err((e, _)) => Err(e),
        },
        Err(e) => Err(e),
    }
}

proof fn lemma_members_oneway(
    t: Seq<(TokenModel, int)>,
    p: int,
    methods: Seq<MethodModel>,
    constants: Seq<ConstantModel>,
)
    requires
        forall|i: int| 0 <= i < methods.len() ==> (#[trigger] methods[i]).is_oneway,
    ensures
        member_list(t, p, true, methods, constants) matches Ok(((ms, _), _)) ==> forall|i: int|
            0 <= i < ms.len() ==> (#[trigger] ms[i]).is_oneway,
    decreases t.len() - p,
{
    reveal(member_at);
    reveal(method_at);
    if cur(t, p).0 != TokenModel::RBrace {
        match member_at(t, p, true) {
            Ok((m, q)) => if onward(t, p, q) {
                match m {
                    MemberModel::Constant(c) => {
                        lemma_members_oneway(t, q, methods, constants.push(c));
                    },
                    MemberModel::Method(f) => {
                        lemma_members_oneway(t, q, methods.push(f), constants);
                    },
                }
            },
            Err(e) => {},
        }
    }
}

/// Every method of a `oneway` interface is `oneway`.
pub proof fn oneway_interface_has_oneway_methods(t: Seq<(TokenModel, int)>, p: int)
    ensures
        decl_at(t, p) matches Ok((DeclModel::Interface { is_oneway, methods, .. }, _)) ==> (
        is_oneway ==> forall|i: int| 0 <= i < methods.len() ==> (#[trigger] methods[i]).is_oneway),
{
    reveal(decl_at);
    reveal(decl_body);
    reveal(interface_at);
    reveal(parcelable_at);
    reveal(enum_at);
    reveal(union_at);
    match annotations(t, p, seq![]) {
        Ok((annos, q)) => {
            let start = if at_word(t, q, "oneway"@) {
                adv(t, q)
            } else {
                q
            };
            match ident(t, start) {
                Ok((kind, k)) => match ident(t, k) {
                    Ok((name, r)) => match extends_at(t, r) {
                        Ok((extends, s)) => match exactly(t, s, TokenModel::LBrace) {
                            Ok((_, u)) => {
                                lemma_members_oneway(t, u, seq![], seq![]);
                            },
                            Err(e) => {},
                        },
                        Err(e) => {},
                    },
                    Err(e) => {},
                },
                Err(e) => {},
            }
        },
        Err(e) => {},
    }
}

} // verus!
