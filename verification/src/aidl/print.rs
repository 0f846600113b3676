//! How syntax trees are written down, and that what is written down is read as the tree.

use super::ast::{
    AnnotationModel, ArgModel, ConstantModel, DeclModel, Direction, FieldModel, FileModel, MethodModel, TypeModel,
    VariantModel,
};
use super::grammar::{
    adv, anno_args, annotations, arg_at, arg_list, constant_at, cur, decl_at, decl_body, dimensions, empty_file,
    enum_at, expression, extends_at, field_at, field_block, field_list, file_from, has_nullable, header_at,
    interface_at, member_at, member_list, method_at, more_parts, name_line, parcelable_at, qualified, signature_at,
    type_args, type_at, type_list, union_at, value_at, variant_list, with_nullable, MemberModel,
};
use super::token::{ErrorModel, TokenModel};
use crate::text::{find_from, lemma_find_from, signed_dec};
use vstd::prelude::*;

verus! {

/// From a position on stand these tokens, and at least one more behind them.
#[verifier::opaque]
pub open spec fn holds(t: Seq<(TokenModel, int)>, p: int, w: Seq<TokenModel>) -> bool {
    &&& 0 <= p
    &&& p + w.len() < t.len()
    &&& forall|i: int| 0 <= i < w.len() ==> t[p + i].0 == #[trigger] w[i]
}

proof fn lemma_within(t: Seq<(TokenModel, int)>, p: int, w: Seq<TokenModel>)
    requires
        holds(t, p, w),
    ensures
        0 <= p,
        p + w.len() < t.len(),
        w.len() > 0 ==> t[p].0 == w[0],
{
    reveal(holds);
    if w.len() > 0 {
        assert(t[p + 0].0 == w[0]);
    }
}

proof fn lemma_parts(t: Seq<(TokenModel, int)>, p: int, a: Seq<TokenModel>, b: Seq<TokenModel>)
    requires
        holds(t, p, a + b),
    ensures
        holds(t, p, a),
        holds(t, p + a.len(), b),
        b.len() > 0 ==> t[p + a.len()].0 == b[0],
        0 <= p,
        p + a.len() + b.len() < t.len(),
{
    reveal(holds);
    assert forall|i: int| 0 <= i < a.len() implies t[p + i].0 == #[trigger] a[i] by {
        assert((a + b)[i] == a[i]);
    }
    assert forall|i: int| 0 <= i < b.len() implies t[p + a.len() + i].0 == #[trigger] b[i] by {
        assert((a + b)[a.len() + i] == b[i]);
    }
    if b.len() > 0 {
        assert((a + b)[a.len() as int] == b[0]);
    }
}

proof fn lemma_first(t: Seq<(TokenModel, int)>, p: int, x: TokenModel, w: Seq<TokenModel>)
    requires
        holds(t, p, seq![x] + w),
    ensures
        cur(t, p).0 == x,
        t[p].0 == x,
        adv(t, p) == p + 1,
        holds(t, p + 1, w),
        w.len() > 0 ==> t[p + 1].0 == w[0],
        0 <= p,
        p + 1 + w.len() < t.len(),
{
    lemma_parts(t, p, seq![x], w);
    lemma_within(t, p, seq![x] + w);
    assert((seq![x] + w)[0] == x);
}

/// A name with dots in it as tokens: its parts, and the dots between them.
pub open spec fn name_tokens(s: Seq<char>) -> Seq<TokenModel>
    decreases s.len(),
{
    let i = find_from(s, '.', 0);
    if 0 <= i < s.len() {
        seq![TokenModel::Ident(s.take(i))] + (seq![TokenModel::Dot] + name_tokens(s.skip(i + 1)))
    } else {
        seq![TokenModel::Ident(s)]
    }
}

/// The part of a name before its first dot.
pub open spec fn first_part(s: Seq<char>) -> Seq<char> {
    let i = find_from(s, '.', 0);
    if 0 <= i < s.len() {
        s.take(i)
    } else {
        s
    }
}

proof fn lemma_name_starts(s: Seq<char>)
    ensures
        name_tokens(s).len() > 0,
        name_tokens(s)[0] == TokenModel::Ident(first_part(s)),
{
}

proof fn lemma_more_parts(t: Seq<(TokenModel, int)>, q: int, acc: Seq<char>, s: Seq<char>)
    requires
        holds(t, q, seq![TokenModel::Dot] + name_tokens(s)),
        t[q + 1 + name_tokens(s).len()].0 != TokenModel::Dot,
    ensures
        more_parts(t, q, acc) == Ok::<(Seq<char>, int), (ErrorModel, int)>(
            (acc.push('.') + s, q + 1 + name_tokens(s).len()),
        ),
    decreases s.len(),
{
    lemma_within(t, q, seq![TokenModel::Dot] + name_tokens(s));
    let i = find_from(s, '.', 0);
    lemma_find_from(s, '.', 0);
    lemma_first(t, q, TokenModel::Dot, name_tokens(s));
    if i < s.len() {
        let rest = s.skip(i + 1);
        let later = seq![TokenModel::Dot] + name_tokens(rest);
        lemma_first(t, q + 1, TokenModel::Ident(s.take(i)), later);
        lemma_more_parts(t, q + 2, acc.push('.') + s.take(i), rest);
        assert((acc.push('.') + s.take(i)).push('.') + rest =~= acc.push('.') + s);
    } else {
        assert(name_tokens(s) + Seq::<TokenModel>::empty() =~= name_tokens(s));
        lemma_first(t, q + 1, TokenModel::Ident(s), Seq::empty());
        assert(more_parts(t, q + 2, acc.push('.') + s) == Ok::<(Seq<char>, int), (ErrorModel, int)>(
            (acc.push('.') + s, q + 2),
        ));
    }
}

proof fn lemma_name(t: Seq<(TokenModel, int)>, p: int, s: Seq<char>)
    requires
        holds(t, p, name_tokens(s)),
        t[p + name_tokens(s).len()].0 != TokenModel::Dot,
    ensures
        qualified(t, p) == Ok::<(Seq<char>, int), (ErrorModel, int)>((s, p + name_tokens(s).len())),
{
    lemma_within(t, p, name_tokens(s));
    let i = find_from(s, '.', 0);
    lemma_find_from(s, '.', 0);
    if i < s.len() {
        let rest = s.skip(i + 1);
        lemma_first(t, p, TokenModel::Ident(s.take(i)), seq![TokenModel::Dot] + name_tokens(rest));
        lemma_more_parts(t, p + 1, s.take(i), rest);
        assert(s.take(i).push('.') + rest =~= s);
    } else {
        assert(name_tokens(s) + Seq::<TokenModel>::empty() =~= name_tokens(s));
        lemma_first(t, p, TokenModel::Ident(s), Seq::empty());
    }
}

/// How a token of a value is spelled in the tree.
pub open spec fn spelling(x: TokenModel) -> Seq<char> {
    match x {
        TokenModel::StringLit(s) => seq!['"'] + s + seq!['"'],
        TokenModel::IntLit(n) => signed_dec(n),
        TokenModel::FloatLit(s) => s,
        TokenModel::Ident(s) => s,
        TokenModel::Minus => seq!['-'],
        TokenModel::Plus => seq!['+'],
        _ => Seq::empty(),
    }
}

/// Tokens that make up a value: signs, and then a literal or a name.
pub open spec fn is_value(w: Seq<TokenModel>) -> bool {
    &&& w.len() > 0
    &&& forall|i: int|
        0 <= i < w.len() - 1 ==> #[trigger] w[i] == TokenModel::Minus || w[i] == TokenModel::Plus
    &&& match w.last() {
        TokenModel::StringLit(_) => true,
        TokenModel::IntLit(_) => true,
        TokenModel::FloatLit(_) => true,
        TokenModel::Ident(_) => true,
        _ => false,
    }
}

/// The text of tokens, one behind the other.
pub open spec fn value_text(w: Seq<TokenModel>) -> Seq<char>
    decreases w.len(),
{
    if w.len() == 0 {
        Seq::empty()
    } else {
        spelling(w[0]) + value_text(w.skip(1))
    }
}

proof fn lemma_value_rest(w: Seq<TokenModel>)
    requires
        is_value(w),
        w.len() > 1,
    ensures
        w[0] == TokenModel::Minus || w[0] == TokenModel::Plus,
        is_value(w.skip(1)),
        w =~= seq![w[0]] + w.skip(1),
{
    let r = w.skip(1);
    assert forall|i: int| 0 <= i < r.len() - 1 implies #[trigger] r[i] == TokenModel::Minus || r[i]
        == TokenModel::Plus by {
        assert(r[i] == w[i + 1]);
    }
    assert(r.last() == w.last());
}

proof fn lemma_single_value(w: Seq<TokenModel>)
    requires
        w.len() == 1,
    ensures
        value_text(w) == spelling(w[0]),
        w =~= seq![w[0]] + Seq::<TokenModel>::empty(),
{
    assert(w.skip(1) =~= Seq::<TokenModel>::empty());
    assert(value_text(w.skip(1)) =~= Seq::<char>::empty());
    assert(spelling(w[0]) + Seq::<char>::empty() =~= spelling(w[0]));
}

/// The value of a constant, a default or a variant is the text of the tokens that make it up, signs
/// and all, and behind it reading goes on.
pub proof fn values_are_spelled_out(t: Seq<(TokenModel, int)>, p: int, w: Seq<TokenModel>)
    requires
        holds(t, p, w),
        is_value(w),
    ensures
        expression(t, p) == Ok::<(Seq<char>, int), (ErrorModel, int)>(
            (value_text(w), p + w.len()),
        ),
    decreases w.len(),
{
    lemma_within(t, p, w);
    if w.len() == 1 {
        lemma_single_value(w);
        lemma_first(t, p, w[0], Seq::empty());
    } else {
        lemma_value_rest(w);
        lemma_first(t, p, w[0], w.skip(1));
        values_are_spelled_out(t, p + 1, w.skip(1));
    }
}

/// The tokens between two positions.
pub open spec fn models_between(t: Seq<(TokenModel, int)>, p: int, q: int) -> Seq<TokenModel> {
    Seq::new((q - p) as nat, |i: int| t[p + i].0)
}

/// Whatever is read as a value is made up of the tokens of one, and is their text.
pub proof fn only_values_are_read(t: Seq<(TokenModel, int)>, p: int)
    requires
        0 <= p < t.len(),
        t.last().0 == TokenModel::Eof,
    ensures
        expression(t, p) matches Ok((v, q)) ==> p < q < t.len() && is_value(models_between(t, p, q))
            && v == value_text(models_between(t, p, q)),
    decreases t.len() - p,
{
    if let Ok((v, q)) = expression(t, p) {
        let x = t[p].0;
        let w = models_between(t, p, q);
        if x == TokenModel::Minus || x == TokenModel::Plus {
            assert(p + 1 < t.len());
            only_values_are_read(t, p + 1);
            let r = models_between(t, p + 1, q);
            assert(w.skip(1) =~= r);
            assert(w[0] == x);
            assert forall|i: int| 0 <= i < w.len() - 1 implies #[trigger] w[i] == TokenModel::Minus
                || w[i] == TokenModel::Plus by {
                if i > 0 {
                    assert(w[i] == r[i - 1]);
                }
            }
            assert(w.last() == r.last());
        } else {
            assert(q == p + 1);
            assert(w =~= seq![x]);
            lemma_single_value(w);
        }
    }
}

/// A text is the text of a value.
pub open spec fn has_value(v: Seq<char>) -> bool {
    exists|w: Seq<TokenModel>| is_value(w) && #[trigger] value_text(w) == v
}

/// The tokens of a value.
pub open spec fn value_tokens(v: Seq<char>) -> Seq<TokenModel> {
    choose|w: Seq<TokenModel>| is_value(w) && #[trigger] value_text(w) == v
}

proof fn lemma_value(t: Seq<(TokenModel, int)>, p: int, v: Seq<char>)
    requires
        has_value(v),
        holds(t, p, value_tokens(v)),
    ensures
        expression(t, p) == Ok::<(Seq<char>, int), (ErrorModel, int)>(
            (v, p + value_tokens(v).len()),
        ),
        is_value(value_tokens(v)),
{
    lemma_within(t, p, value_tokens(v));
    values_are_spelled_out(t, p, value_tokens(v));
}

/// An argument of an annotation as tokens.
pub open spec fn anno_arg_tokens(a: (Option<Seq<char>>, Seq<char>)) -> Seq<TokenModel> {
    match a.0 {
        Some(k) => seq![TokenModel::Ident(k)] + (seq![TokenModel::Equals] + value_tokens(a.1)),
        None => value_tokens(a.1),
    }
}

/// The arguments of an annotation as tokens.
pub open spec fn anno_args_tokens(args: Seq<(Option<Seq<char>>, Seq<char>)>) -> Seq<TokenModel>
    decreases args.len(),
{
    if args.len() == 0 {
        Seq::empty()
    } else if args.len() == 1 {
        anno_arg_tokens(args[0])
    } else {
        anno_arg_tokens(args[0]) + (seq![TokenModel::Comma] + anno_args_tokens(args.skip(1)))
    }
}

/// Every argument has a value.
#[verifier::opaque]
pub open spec fn anno_args_ok(args: Seq<(Option<Seq<char>>, Seq<char>)>) -> bool {
    forall|i: int| 0 <= i < args.len() ==> has_value((#[trigger] args[i]).1)
}

proof fn lemma_anno_args(
    t: Seq<(TokenModel, int)>,
    p: int,
    args: Seq<(Option<Seq<char>>, Seq<char>)>,
    acc: Seq<(Option<Seq<char>>, Seq<char>)>,
)
    requires
        args.len() > 0,
        anno_args_ok(args),
        holds(t, p, anno_args_tokens(args)),
        t[p + anno_args_tokens(args).len()].0 == TokenModel::RParen,
    ensures
        anno_args(t, p, acc) == Ok::<
            (Seq<(Option<Seq<char>>, Seq<char>)>, int),
            (ErrorModel, int),
        >((acc + args, p + anno_args_tokens(args).len())),
    decreases args.len(),
{
    reveal(anno_args_ok);
    lemma_within(t, p, anno_args_tokens(args));
    let a = args[0];
    let w = anno_arg_tokens(a);
    let v = value_tokens(a.1);
    assert(has_value(a.1));
    let later = seq![TokenModel::Comma] + anno_args_tokens(args.skip(1));
    if args.len() == 1 {
        assert(w + Seq::<TokenModel>::empty() =~= w);
        assert(acc.push(a) =~= acc + args);
    } else {
        lemma_parts(t, p, w, later);
        lemma_first(t, p + w.len(), TokenModel::Comma, anno_args_tokens(args.skip(1)));
        assert(acc.push(a) + args.skip(1) =~= acc + args);
    }
    assert(holds(t, p, w));
    assert(is_value(v));
    match a.0 {
        Some(k) => {
            lemma_first(t, p, TokenModel::Ident(k), seq![TokenModel::Equals] + v);
            lemma_first(t, p + 1, TokenModel::Equals, v);
            lemma_value(t, p + 2, a.1);
        },
        None => {
            lemma_value(t, p, a.1);
            lemma_within(t, p, v);
            if v.len() > 1 {
                lemma_value_rest(v);
            }
        },
    }
    if args.len() > 1 {
        let left = args.skip(1);
        assert forall|i: int| 0 <= i < left.len() implies has_value((#[trigger] left[i]).1) by {
            assert(left[i] == args[i + 1]);
        }
        lemma_anno_args(t, p + w.len() + 1, left, acc.push(a));
    }
}

/// An annotation as tokens.
#[verifier::opaque]
pub open spec fn annotation_tokens(a: AnnotationModel) -> Seq<TokenModel> {
    seq![TokenModel::At] + (seq![TokenModel::Ident(a.name)] + if a.args.len() > 0 {
        seq![TokenModel::LParen] + (anno_args_tokens(a.args) + seq![TokenModel::RParen])
    } else {
        Seq::empty()
    })
}

/// Annotations as tokens.
pub open spec fn annotations_tokens(a: Seq<AnnotationModel>) -> Seq<TokenModel>
    decreases a.len(),
{
    if a.len() == 0 {
        Seq::empty()
    } else {
        annotation_tokens(a[0]) + annotations_tokens(a.skip(1))
    }
}

/// The values in annotations are values.
#[verifier::opaque]
pub open spec fn annotations_ok(a: Seq<AnnotationModel>) -> bool {
    forall|i: int| 0 <= i < a.len() ==> anno_args_ok((#[trigger] a[i]).args)
}

proof fn lemma_annotations(
    t: Seq<(TokenModel, int)>,
    p: int,
    a: Seq<AnnotationModel>,
    acc: Seq<AnnotationModel>,
)
    requires
        annotations_ok(a),
        holds(t, p, annotations_tokens(a)),
        t[p + annotations_tokens(a).len()].0 is Ident,
    ensures
        annotations(t, p, acc) == Ok::<(Seq<AnnotationModel>, int), (ErrorModel, int)>(
            (acc + a, p + annotations_tokens(a).len()),
        ),
    decreases a.len(),
{
    reveal(annotations_ok);
    reveal(annotation_tokens);
    lemma_within(t, p, annotations_tokens(a));
    if a.len() == 0 {
        assert(acc + a =~= acc);
    } else {
        let x = a[0];
        let left = a.skip(1);
        let w = annotation_tokens(x);
        lemma_parts(t, p, w, annotations_tokens(left));
        assert(anno_args_ok(x.args));
        let tail = if x.args.len() > 0 {
            seq![TokenModel::LParen] + (anno_args_tokens(x.args) + seq![TokenModel::RParen])
        } else {
            Seq::empty()
        };
        lemma_first(t, p, TokenModel::At, seq![TokenModel::Ident(x.name)] + tail);
        lemma_first(t, p + 1, TokenModel::Ident(x.name), tail);
        if x.args.len() > 0 {
            let inner = anno_args_tokens(x.args);
            lemma_first(t, p + 2, TokenModel::LParen, inner + seq![TokenModel::RParen]);
            lemma_parts(t, p + 3, inner, seq![TokenModel::RParen]);
            lemma_anno_args(t, p + 3, x.args, seq![]);
            assert(seq![] + x.args =~= x.args);
        } else {
            assert(x.args =~= seq![]);
            if left.len() > 0 {
                assert(annotations_tokens(left)[0] == TokenModel::At);
            }
        }
        assert forall|i: int| 0 <= i < left.len() implies anno_args_ok((#[trigger] left[i]).args) by {
            assert(left[i] == a[i + 1]);
        }
        lemma_annotations(t, p + w.len(), left, acc.push(x));
        assert(acc.push(AnnotationModel { name: x.name, args: x.args }) + left =~= acc + a);
    }
}

/// The brackets of an array as tokens.
pub open spec fn dimension_tokens(n: nat) -> Seq<TokenModel>
    decreases n,
{
    if n == 0 {
        Seq::empty()
    } else {
        seq![TokenModel::LBracket] + (seq![TokenModel::RBracket] + dimension_tokens(
            (n - 1) as nat,
        ))
    }
}

proof fn lemma_dimensions(t: Seq<(TokenModel, int)>, p: int, n: nat, from: nat)
    requires
        holds(t, p, dimension_tokens(n)),
        t[p + dimension_tokens(n).len()].0 != TokenModel::LBracket,
    ensures
        dimensions(t, p, from) == Ok::<(nat, int), (ErrorModel, int)>(
            (from + n, p + dimension_tokens(n).len()),
        ),
    decreases n,
{
    lemma_within(t, p, dimension_tokens(n));
    if n > 0 {
        let later = dimension_tokens((n - 1) as nat);
        lemma_first(t, p, TokenModel::LBracket, seq![TokenModel::RBracket] + later);
        lemma_first(t, p + 1, TokenModel::RBracket, later);
        lemma_dimensions(t, p + 2, (n - 1) as nat, from + 1);
    }
}

/// What makes a type nullable, as tokens.
pub open spec fn nullable_tokens(nullable: bool) -> Seq<TokenModel> {
    if nullable {
        seq![TokenModel::At] + seq![TokenModel::Ident("nullable"@)]
    } else {
        Seq::empty()
    }
}

/// A type as tokens.
pub open spec fn type_tokens(ty: TypeModel) -> Seq<TokenModel>
    decreases ty, 0int,
{
    nullable_tokens(ty.is_nullable) + (name_tokens(ty.name) + ((if ty.generic_args.len() > 0 {
        seq![TokenModel::LAngle] + (types_tokens(ty.generic_args) + seq![TokenModel::RAngle])
    } else {
        Seq::empty()
    }) + dimension_tokens(ty.array_dimensions)))
}

/// Types with commas between them as tokens.
pub open spec fn types_tokens(tys: Seq<TypeModel>) -> Seq<TokenModel>
    decreases tys, tys.len(),
{
    if tys.len() == 0 {
        Seq::empty()
    } else if tys.len() == 1 {
        type_tokens(tys[0])
    } else {
        type_tokens(tys[0]) + (seq![TokenModel::Comma] + types_tokens(
            tys.subrange(1, tys.len() as int),
        ))
    }
}

proof fn lemma_type_starts(ty: TypeModel)
    ensures
        type_tokens(ty).len() > 0,
        type_tokens(ty)[0] == if ty.is_nullable {
            TokenModel::At
        } else {
            TokenModel::Ident(first_part(ty.name))
        },
{
    lemma_name_starts(ty.name);
}

/// No token that a type goes on with.
pub open spec fn ends_type(x: TokenModel) -> bool {
    x != TokenModel::Dot && x != TokenModel::LAngle && x != TokenModel::LBracket
}

proof fn lemma_type(t: Seq<(TokenModel, int)>, p: int, ty: TypeModel)
    requires
        holds(t, p, type_tokens(ty)),
        ends_type(t[p + type_tokens(ty).len()].0),
    ensures
        type_at(t, p) == Ok::<(TypeModel, int), (ErrorModel, int)>(
            (ty, p + type_tokens(ty).len()),
        ),
    decreases ty, 0int,
{
    reveal(annotations_ok);
    reveal(annotation_tokens);
    lemma_within(t, p, type_tokens(ty));
    let null = nullable_tokens(ty.is_nullable);
    let name = name_tokens(ty.name);
    let args = if ty.generic_args.len() > 0 {
        seq![TokenModel::LAngle] + (types_tokens(ty.generic_args) + seq![TokenModel::RAngle])
    } else {
        Seq::empty()
    };
    let dims = dimension_tokens(ty.array_dimensions);
    lemma_parts(t, p, null, name + (args + dims));
    let q = p + null.len();
    lemma_parts(t, q, name, args + dims);
    let r = q + name.len();
    lemma_parts(t, r, args, dims);
    let s = r + args.len();
    let nullable = AnnotationModel { name: "nullable"@, args: seq![] };
    let annos = if ty.is_nullable {
        seq![nullable]
    } else {
        Seq::<AnnotationModel>::empty()
    };
    lemma_name_starts(ty.name);
    lemma_within(t, q, name);
    assert(annotations_tokens(annos) =~= null) by {
        if ty.is_nullable {
            assert(annos.skip(1) =~= Seq::<AnnotationModel>::empty());
            assert(annotations_tokens(annos.skip(1)) =~= Seq::<TokenModel>::empty());
            assert(annotation_tokens(nullable) =~= null);
            assert(annotations_tokens(annos) == annotation_tokens(annos[0]) + annotations_tokens(
                annos.skip(1),
            ));
        }
    }
    reveal(anno_args_ok);
    assert(annotations_ok(annos));
    lemma_annotations(t, p, annos, seq![]);
    assert(seq![] + annos =~= annos);
    assert(has_nullable(annos) == ty.is_nullable) by {
        if ty.is_nullable {
            assert(annos[0].name == "nullable"@);
        }
    }
    lemma_name(t, q, ty.name);
    if ty.generic_args.len() > 0 {
        let inner = types_tokens(ty.generic_args);
        lemma_first(t, r, TokenModel::LAngle, inner + seq![TokenModel::RAngle]);
        lemma_parts(t, r + 1, inner, seq![TokenModel::RAngle]);
        lemma_first(t, r + 1 + inner.len(), TokenModel::RAngle, Seq::empty());
        lemma_types(t, r + 1, ty.generic_args, seq![]);
        assert(seq![] + ty.generic_args =~= ty.generic_args);
    } else {
        assert(ty.generic_args =~= seq![]);
    }
    assert(type_args(t, p, r) == Ok::<(Seq<TypeModel>, int), (ErrorModel, int)>(
        (ty.generic_args, s),
    ));
    lemma_dimensions(t, s, ty.array_dimensions, 0);
}

proof fn lemma_types(
    t: Seq<(TokenModel, int)>,
    p: int,
    tys: Seq<TypeModel>,
    acc: Seq<TypeModel>,
)
    requires
        tys.len() > 0,
        holds(t, p, types_tokens(tys)),
        t[p + types_tokens(tys).len()].0 == TokenModel::RAngle,
    ensures
        type_list(t, p, acc) == Ok::<(Seq<TypeModel>, int), (ErrorModel, int)>(
            (acc + tys, p + types_tokens(tys).len()),
        ),
    decreases tys, tys.len(),
{
    lemma_within(t, p, types_tokens(tys));
    let ty = tys[0];
    let w = type_tokens(ty);
    lemma_type_starts(ty);
    if tys.len() == 1 {
        lemma_within(t, p, w);
        lemma_type(t, p, ty);
        assert(acc.push(ty) =~= acc + tys);
    } else {
        let left = tys.subrange(1, tys.len() as int);
        lemma_parts(t, p, w, seq![TokenModel::Comma] + types_tokens(left));
        lemma_within(t, p, w);
        lemma_first(t, p + w.len(), TokenModel::Comma, types_tokens(left));
        lemma_type(t, p, ty);
        lemma_types(t, p + w.len() + 1, left, acc.push(ty));
        assert(acc.push(ty) + left =~= acc + tys);
    }
}

/// The word of a direction as tokens.
pub open spec fn direction_tokens(d: Option<Direction>) -> Seq<TokenModel> {
    match d {
        Some(Direction::In) => seq![TokenModel::Ident("in"@)],
        Some(Direction::Out) => seq![TokenModel::Ident("out"@)],
        Some(Direction::InOut) => seq![TokenModel::Ident("inout"@)],
        None => Seq::empty(),
    }
}

/// A parameter as tokens.
#[verifier::opaque]
pub open spec fn arg_tokens(a: ArgModel) -> Seq<TokenModel> {
    annotations_tokens(a.annotations) + (direction_tokens(a.direction) + (type_tokens(a.ty)
        + seq![TokenModel::Ident(a.name)]))
}

/// A parameter that can be written down: without a direction its type does not begin with a
/// mark of its own or with the word of a direction.
#[verifier::opaque]
pub open spec fn arg_ok(a: ArgModel) -> bool {
    &&& annotations_ok(a.annotations)
    &&& a.direction is None ==> !a.ty.is_nullable && first_part(a.ty.name) != "in"@ && first_part(
        a.ty.name,
    ) != "out"@ && first_part(a.ty.name) != "inout"@
}

proof fn lemma_directions()
    ensures
        "in"@ != "out"@,
        "in"@ != "inout"@,
        "out"@ != "inout"@,
{
    reveal_strlit("in");
    reveal_strlit("out");
    reveal_strlit("inout");
    assert("in"@.len() != "out"@.len());
    assert("in"@.len() != "inout"@.len());
    assert("out"@.len() != "inout"@.len());
}

proof fn lemma_arg(t: Seq<(TokenModel, int)>, p: int, a: ArgModel)
    requires
        arg_ok(a),
        holds(t, p, arg_tokens(a)),
    ensures
        arg_at(t, p) == Ok::<(ArgModel, int), (ErrorModel, int)>((a, p + arg_tokens(a).len())),
        t[p].0 is Ident || t[p].0 is At,
{
    reveal(arg_at);
    reveal(arg_ok);
    reveal(arg_tokens);
    lemma_within(t, p, arg_tokens(a));
    let annos = annotations_tokens(a.annotations);
    let dir = direction_tokens(a.direction);
    let ty = type_tokens(a.ty);
    let name = seq![TokenModel::Ident(a.name)];
    lemma_parts(t, p, annos, dir + (ty + name));
    let q = p + annos.len();
    lemma_parts(t, q, dir, ty + name);
    let r = q + dir.len();
    lemma_parts(t, r, ty, name);
    lemma_type_starts(a.ty);
    lemma_within(t, r, ty);
    lemma_directions();
    match a.direction {
        Some(d) => {
            lemma_within(t, q, dir);
        },
        None => {},
    }
    lemma_annotations(t, p, a.annotations, seq![]);
    assert(seq![] + a.annotations =~= a.annotations);
    lemma_type(t, r, a.ty);
    assert(name + Seq::<TokenModel>::empty() =~= name);
    lemma_first(t, r + ty.len(), TokenModel::Ident(a.name), Seq::empty());
    if a.annotations.len() > 0 {
        assert(annos[0] == TokenModel::At);
        lemma_within(t, p, annos);
    }
}

/// Parameters with commas between them as tokens.
pub open spec fn args_tokens(args: Seq<ArgModel>) -> Seq<TokenModel>
    decreases args.len(),
{
    if args.len() == 0 {
        Seq::empty()
    } else if args.len() == 1 {
        arg_tokens(args[0])
    } else {
        arg_tokens(args[0]) + (seq![TokenModel::Comma] + args_tokens(args.skip(1)))
    }
}

proof fn lemma_args(t: Seq<(TokenModel, int)>, p: int, args: Seq<ArgModel>, acc: Seq<ArgModel>)
    requires
        forall|i: int| 0 <= i < args.len() ==> arg_ok(#[trigger] args[i]),
        holds(t, p, args_tokens(args)),
        t[p + args_tokens(args).len()].0 == TokenModel::RParen,
    ensures
        arg_list(t, p, acc) == Ok::<(Seq<ArgModel>, int), (ErrorModel, int)>(
            (acc + args, p + args_tokens(args).len()),
        ),
    decreases args.len(),
{
    lemma_within(t, p, args_tokens(args));
    if args.len() == 0 {
        assert(acc + args =~= acc);
    } else {
        let a = args[0];
        let w = arg_tokens(a);
        let left = args.skip(1);
        if args.len() > 1 {
            lemma_parts(t, p, w, seq![TokenModel::Comma] + args_tokens(left));
            lemma_first(t, p + w.len(), TokenModel::Comma, args_tokens(left));
            lemma_arg(t, p, a);
            assert forall|i: int| 0 <= i < left.len() implies arg_ok(#[trigger] left[i]) by {
                assert(left[i] == args[i + 1]);
            }
            lemma_args(t, p + w.len() + 1, left, acc.push(a));
            assert(acc.push(a) + left =~= acc + args);
        } else {
            lemma_arg(t, p, a);
            assert(acc.push(a) =~= acc + args);
        }
    }
}

/// The number of a method as tokens.
pub open spec fn id_tokens(id: Option<u32>) -> Seq<TokenModel> {
    match id {
        Some(n) => seq![TokenModel::Equals] + seq![TokenModel::IntLit(n as int)],
        None => Seq::empty(),
    }
}

/// The type of a method as it is written: nullable by an annotation, it has no mark of its own.
pub open spec fn written_type(ty: TypeModel, annos: Seq<AnnotationModel>) -> TypeModel {
    TypeModel { is_nullable: ty.is_nullable && !has_nullable(annos), ..ty }
}

/// What stands behind the name of a method as tokens.
#[verifier::opaque]
pub open spec fn signature_tokens(args: Seq<ArgModel>, id: Option<u32>) -> Seq<TokenModel> {
    seq![TokenModel::LParen] + (args_tokens(args) + (seq![TokenModel::RParen] + (id_tokens(id)
        + seq![TokenModel::Semi])))
}

proof fn lemma_signature(t: Seq<(TokenModel, int)>, p: int, args: Seq<ArgModel>, id: Option<u32>)
    requires
        forall|i: int| 0 <= i < args.len() ==> arg_ok(#[trigger] args[i]),
        holds(t, p, signature_tokens(args, id)),
    ensures
        signature_at(t, p) == Ok::<((Seq<ArgModel>, Option<u32>), int), (ErrorModel, int)>(
            ((args, id), p + signature_tokens(args, id).len()),
        ),
{
    reveal(signature_at);
    reveal(signature_tokens);
    lemma_within(t, p, signature_tokens(args, id));
    let list = args_tokens(args);
    let tail = id_tokens(id) + seq![TokenModel::Semi];
    lemma_first(t, p, TokenModel::LParen, list + (seq![TokenModel::RParen] + tail));
    lemma_parts(t, p + 1, list, seq![TokenModel::RParen] + tail);
    let q = p + 1 + list.len();
    lemma_first(t, q, TokenModel::RParen, tail);
    lemma_parts(t, q + 1, id_tokens(id), seq![TokenModel::Semi]);
    lemma_args(t, p + 1, args, seq![]);
    assert(seq![] + args =~= args);
    match id {
        Some(n) => {
            lemma_first(t, q + 1, TokenModel::Equals, seq![TokenModel::IntLit(n as int)]);
            assert(t[q + 2].0 == TokenModel::IntLit(n as int));
            assert(n as int % 0x1_0000_0000 == n);
        },
        None => {},
    }
    assert(seq![TokenModel::Semi] + Seq::<TokenModel>::empty() =~= seq![TokenModel::Semi]);
    lemma_first(t, q + 1 + id_tokens(id).len(), TokenModel::Semi, Seq::empty());
}

/// A method of an interface as tokens.
#[verifier::opaque]
pub open spec fn method_tokens(m: MethodModel, of_oneway: bool) -> Seq<TokenModel> {
    annotations_tokens(m.annotations) + ((if m.is_oneway && !of_oneway {
        seq![TokenModel::Ident("oneway"@)]
    } else {
        Seq::empty()
    }) + (type_tokens(written_type(m.return_type, m.annotations)) + (seq![TokenModel::Ident(m.name)]
        + signature_tokens(m.args, m.id))))
}

/// A method that can be written down: in an interface that is one-way it is one-way; annotations
/// that make its type nullable are heeded; and its type begins neither with a word of the
/// grammar nor, right behind the annotations, with a mark of its own.
#[verifier::opaque]
pub open spec fn method_ok(m: MethodModel, of_oneway: bool) -> bool {
    &&& annotations_ok(m.annotations)
    &&& of_oneway ==> m.is_oneway
    &&& has_nullable(m.annotations) ==> m.return_type.is_nullable
    &&& m.return_type.is_nullable ==> has_nullable(m.annotations) || (m.is_oneway && !of_oneway)
    &&& first_part(m.return_type.name) != "const"@
    &&& first_part(m.return_type.name) != "oneway"@
    &&& forall|i: int| 0 <= i < m.args.len() ==> arg_ok(#[trigger] m.args[i])
}

proof fn lemma_member_words()
    ensures
        "oneway"@ != "const"@,
{
    reveal_strlit("oneway");
    reveal_strlit("const");
    assert("oneway"@.len() != "const"@.len());
}

proof fn lemma_method(t: Seq<(TokenModel, int)>, p: int, m: MethodModel, of_oneway: bool)
    requires
        method_ok(m, of_oneway),
        holds(t, p, method_tokens(m, of_oneway)),
    ensures
        member_at(t, p, of_oneway) == Ok::<(MemberModel, int), (ErrorModel, int)>(
            (MemberModel::Method(m), p + method_tokens(m, of_oneway).len()),
        ),
        t[p].0 is Ident || t[p].0 is At,
        method_tokens(m, of_oneway).len() > 0,
{
    reveal(member_at);
    reveal(method_at);
    reveal(method_ok);
    reveal(method_tokens);
    lemma_within(t, p, method_tokens(m, of_oneway));
    let annos = annotations_tokens(m.annotations);
    let own = m.is_oneway && !of_oneway;
    let word = if own {
        seq![TokenModel::Ident("oneway"@)]
    } else {
        Seq::empty()
    };
    let written = written_type(m.return_type, m.annotations);
    let ty = type_tokens(written);
    let sig = signature_tokens(m.args, m.id);
    let tail = seq![TokenModel::Ident(m.name)] + sig;
    lemma_parts(t, p, annos, word + (ty + tail));
    let q = p + annos.len();
    lemma_parts(t, q, word, ty + tail);
    let r = q + word.len();
    lemma_parts(t, r, ty, tail);
    lemma_type_starts(written);
    lemma_member_words();
    lemma_within(t, r, ty);
    if own {
        lemma_within(t, q, word);
    }
    lemma_annotations(t, p, m.annotations, seq![]);
    assert(seq![] + m.annotations =~= m.annotations);
    lemma_type(t, r, written);
    let s = r + ty.len();
    lemma_first(t, s, TokenModel::Ident(m.name), sig);
    lemma_signature(t, s + 1, m.args, m.id);
    assert(with_nullable(written, m.annotations) == m.return_type);
    if m.annotations.len() > 0 {
        assert(annos[0] == TokenModel::At);
        lemma_within(t, p, annos);
    }
    assert(method_at(t, q, m.annotations, of_oneway) == Ok::<
        (MethodModel, int),
        (ErrorModel, int),
    >((m, s + 1 + sig.len())));
}

/// A constant as tokens.
#[verifier::opaque]
pub open spec fn constant_tokens(c: ConstantModel) -> Seq<TokenModel> {
    seq![TokenModel::Ident("const"@)] + (type_tokens(c.ty) + (seq![TokenModel::Ident(c.name)] + (
    seq![TokenModel::Equals] + (value_tokens(c.value) + seq![TokenModel::Semi]))))
}

proof fn lemma_constant(t: Seq<(TokenModel, int)>, p: int, c: ConstantModel, of_oneway: bool)
    requires
        has_value(c.value),
        holds(t, p, constant_tokens(c)),
    ensures
        member_at(t, p, of_oneway) == Ok::<(MemberModel, int), (ErrorModel, int)>(
            (MemberModel::Constant(c), p + constant_tokens(c).len()),
        ),
        t[p].0 is Ident,
{
    reveal(member_at);
    reveal(constant_at);
    reveal(constant_tokens);
    lemma_within(t, p, constant_tokens(c));
    let ty = type_tokens(c.ty);
    let v = value_tokens(c.value);
    let semi = seq![TokenModel::Semi];
    let rest = seq![TokenModel::Ident(c.name)] + (seq![TokenModel::Equals] + (v + semi));
    lemma_first(t, p, TokenModel::Ident("const"@), ty + rest);
    lemma_parts(t, p + 1, ty, rest);
    lemma_type(t, p + 1, c.ty);
    let q = p + 1 + ty.len();
    lemma_first(t, q, TokenModel::Ident(c.name), seq![TokenModel::Equals] + (v + semi));
    lemma_first(t, q + 1, TokenModel::Equals, v + semi);
    lemma_parts(t, q + 2, v, semi);
    lemma_value(t, q + 2, c.value);
    assert(semi + Seq::<TokenModel>::empty() =~= semi);
    lemma_first(t, q + 2 + v.len(), TokenModel::Semi, Seq::empty());
    assert(annotations(t, p, seq![]) == Ok::<(Seq<AnnotationModel>, int), (ErrorModel, int)>(
        (seq![], p),
    ));
}

/// The members of an interface as tokens: its methods, and then its constants.
pub open spec fn members_tokens(
    methods: Seq<MethodModel>,
    constants: Seq<ConstantModel>,
    of_oneway: bool,
) -> Seq<TokenModel>
    decreases methods.len() + constants.len(),
{
    if methods.len() > 0 {
        method_tokens(methods[0], of_oneway) + members_tokens(methods.skip(1), constants, of_oneway)
    } else if constants.len() > 0 {
        constant_tokens(constants[0]) + members_tokens(methods, constants.skip(1), of_oneway)
    } else {
        Seq::empty()
    }
}

proof fn lemma_members(
    t: Seq<(TokenModel, int)>,
    p: int,
    methods: Seq<MethodModel>,
    constants: Seq<ConstantModel>,
    of_oneway: bool,
    acc: Seq<MethodModel>,
    accs: Seq<ConstantModel>,
)
    requires
        forall|i: int| 0 <= i < methods.len() ==> method_ok(#[trigger] methods[i], of_oneway),
        forall|i: int| 0 <= i < constants.len() ==> has_value((#[trigger] constants[i]).value),
        holds(t, p, members_tokens(methods, constants, of_oneway)),
        t[p + members_tokens(methods, constants, of_oneway).len()].0 == TokenModel::RBrace,
    ensures
        member_list(t, p, of_oneway, acc, accs) == Ok::<
            ((Seq<MethodModel>, Seq<ConstantModel>), int),
            (ErrorModel, int),
        >(
            (
                (acc + methods, accs + constants),
                p + members_tokens(methods, constants, of_oneway).len(),
            ),
        ),
    decreases methods.len() + constants.len(),
{
    lemma_within(t, p, members_tokens(methods, constants, of_oneway));
    if methods.len() > 0 {
        let m = methods[0];
        let left = methods.skip(1);
        let w = method_tokens(m, of_oneway);
        lemma_parts(t, p, w, members_tokens(left, constants, of_oneway));
        lemma_method(t, p, m, of_oneway);
        assert forall|i: int| 0 <= i < left.len() implies method_ok(#[trigger] left[i], of_oneway) by {
            assert(left[i] == methods[i + 1]);
        }
        lemma_members(t, p + w.len(), left, constants, of_oneway, acc.push(m), accs);
        assert(acc.push(m) + left =~= acc + methods);
    } else if constants.len() > 0 {
        let c = constants[0];
        let left = constants.skip(1);
        let w = constant_tokens(c);
        lemma_parts(t, p, w, members_tokens(methods, left, of_oneway));
        lemma_constant(t, p, c, of_oneway);
        assert forall|i: int| 0 <= i < left.len() implies has_value((#[trigger] left[i]).value) by {
            assert(left[i] == constants[i + 1]);
        }
        lemma_members(t, p + w.len(), methods, left, of_oneway, acc, accs.push(c));
        assert(accs.push(c) + left =~= accs + constants);
    } else {
        assert(acc + methods =~= acc);
        assert(accs + constants =~= accs);
    }
}

/// What an interface extends as tokens.
pub open spec fn extends_tokens(extends: Option<Seq<char>>) -> Seq<TokenModel> {
    match extends {
        Some(name) => seq![TokenModel::Ident("extends"@)] + name_tokens(name),
        None => Seq::empty(),
    }
}

/// The value behind a name as tokens.
pub open spec fn default_tokens(v: Option<Seq<char>>) -> Seq<TokenModel> {
    match v {
        Some(v) => seq![TokenModel::Equals] + value_tokens(v),
        None => Seq::empty(),
    }
}

proof fn lemma_default(t: Seq<(TokenModel, int)>, p: int, v: Option<Seq<char>>)
    requires
        v matches Some(x) ==> has_value(x),
        holds(t, p, default_tokens(v)),
        t[p + default_tokens(v).len()].0 != TokenModel::Equals,
    ensures
        value_at(t, p) == Ok::<(Option<Seq<char>>, int), (ErrorModel, int)>(
            (v, p + default_tokens(v).len()),
        ),
{
    lemma_within(t, p, default_tokens(v));
    match v {
        Some(x) => {
            lemma_first(t, p, TokenModel::Equals, value_tokens(x));
            lemma_value(t, p + 1, x);
        },
        None => {},
    }
}

/// A field as tokens.
#[verifier::opaque]
pub open spec fn field_tokens(f: FieldModel) -> Seq<TokenModel> {
    annotations_tokens(f.annotations) + (type_tokens(TypeModel { is_nullable: false, ..f.ty }) + (
    seq![TokenModel::Ident(f.name)] + (default_tokens(f.default_value) + seq![TokenModel::Semi])))
}

/// A field that can be written down: one of a parcelable is nullable as its annotations say, one
/// of a union is not nullable and has no value.
#[verifier::opaque]
pub open spec fn field_ok(f: FieldModel, of_parcelable: bool) -> bool {
    &&& annotations_ok(f.annotations)
    &&& if of_parcelable {
        &&& f.ty.is_nullable == has_nullable(f.annotations)
        &&& f.default_value matches Some(x) ==> has_value(x)
    } else {
        !f.ty.is_nullable && f.default_value is None
    }
}

proof fn lemma_field(t: Seq<(TokenModel, int)>, p: int, f: FieldModel, of_parcelable: bool)
    requires
        field_ok(f, of_parcelable),
        holds(t, p, field_tokens(f)),
    ensures
        field_at(t, p, of_parcelable) == Ok::<(FieldModel, int), (ErrorModel, int)>(
            (f, p + field_tokens(f).len()),
        ),
        t[p].0 is Ident || t[p].0 is At,
        field_tokens(f).len() > 0,
{
    reveal(field_at);
    reveal(field_ok);
    reveal(field_tokens);
    lemma_within(t, p, field_tokens(f));
    let annos = annotations_tokens(f.annotations);
    let written = TypeModel { is_nullable: false, ..f.ty };
    let ty = type_tokens(written);
    let semi = seq![TokenModel::Semi];
    let value = default_tokens(f.default_value);
    let tail = seq![TokenModel::Ident(f.name)] + (value + semi);
    lemma_parts(t, p, annos, ty + tail);
    let q = p + annos.len();
    lemma_parts(t, q, ty, tail);
    lemma_type_starts(written);
    lemma_within(t, q, ty);
    lemma_annotations(t, p, f.annotations, seq![]);
    assert(seq![] + f.annotations =~= f.annotations);
    lemma_type(t, q, written);
    let r = q + ty.len();
    lemma_first(t, r, TokenModel::Ident(f.name), value + semi);
    lemma_parts(t, r + 1, value, semi);
    assert(semi + Seq::<TokenModel>::empty() =~= semi);
    lemma_first(t, r + 1 + value.len(), TokenModel::Semi, Seq::empty());
    lemma_default(t, r + 1, f.default_value);
    if f.annotations.len() > 0 {
        assert(annos[0] == TokenModel::At);
        lemma_within(t, p, annos);
    }
    if of_parcelable {
        assert(with_nullable(written, f.annotations) == f.ty);
    } else {
        assert(written == f.ty);
    }
}

/// Fields as tokens.
pub open spec fn fields_tokens(fields: Seq<FieldModel>) -> Seq<TokenModel>
    decreases fields.len(),
{
    if fields.len() == 0 {
        Seq::empty()
    } else {
        field_tokens(fields[0]) + fields_tokens(fields.skip(1))
    }
}

proof fn lemma_fields(
    t: Seq<(TokenModel, int)>,
    p: int,
    fields: Seq<FieldModel>,
    of_parcelable: bool,
    acc: Seq<FieldModel>,
)
    requires
        forall|i: int| 0 <= i < fields.len() ==> field_ok(#[trigger] fields[i], of_parcelable),
        holds(t, p, fields_tokens(fields)),
        t[p + fields_tokens(fields).len()].0 == TokenModel::RBrace,
    ensures
        field_list(t, p, of_parcelable, acc) == Ok::<(Seq<FieldModel>, int), (ErrorModel, int)>(
            (acc + fields, p + fields_tokens(fields).len()),
        ),
    decreases fields.len(),
{
    lemma_within(t, p, fields_tokens(fields));
    if fields.len() == 0 {
        assert(acc + fields =~= acc);
    } else {
        let f = fields[0];
        let left = fields.skip(1);
        let w = field_tokens(f);
        lemma_parts(t, p, w, fields_tokens(left));
        lemma_field(t, p, f, of_parcelable);
        assert forall|i: int| 0 <= i < left.len() implies field_ok(#[trigger] left[i], of_parcelable) by {
            assert(left[i] == fields[i + 1]);
        }
        lemma_fields(t, p + w.len(), left, of_parcelable, acc.push(f));
        assert(acc.push(f) + left =~= acc + fields);
    }
}

/// Fields in braces as tokens.
#[verifier::opaque]
pub open spec fn block_tokens(fields: Seq<FieldModel>) -> Seq<TokenModel> {
    seq![TokenModel::LBrace] + (fields_tokens(fields) + seq![TokenModel::RBrace])
}

proof fn lemma_block(
    t: Seq<(TokenModel, int)>,
    p: int,
    fields: Seq<FieldModel>,
    of_parcelable: bool,
)
    requires
        forall|i: int| 0 <= i < fields.len() ==> field_ok(#[trigger] fields[i], of_parcelable),
        holds(t, p, block_tokens(fields)),
    ensures
        field_block(t, p, of_parcelable) == Ok::<(Seq<FieldModel>, int), (ErrorModel, int)>(
            (fields, p + block_tokens(fields).len()),
        ),
{
    reveal(block_tokens);
    lemma_within(t, p, block_tokens(fields));
    let w = fields_tokens(fields);
    let close = seq![TokenModel::RBrace];
    lemma_first(t, p, TokenModel::LBrace, w + close);
    lemma_parts(t, p + 1, w, close);
    lemma_fields(t, p + 1, fields, of_parcelable, seq![]);
    assert(seq![] + fields =~= fields);
    assert(close + Seq::<TokenModel>::empty() =~= close);
    lemma_first(t, p + 1 + w.len(), TokenModel::RBrace, Seq::empty());
}

/// The variants of an enum with commas between them as tokens.
pub open spec fn variants_tokens(vs: Seq<VariantModel>) -> Seq<TokenModel>
    decreases vs.len(),
{
    if vs.len() == 0 {
        Seq::empty()
    } else if vs.len() == 1 {
        seq![TokenModel::Ident(vs[0].name)] + default_tokens(vs[0].value)
    } else {
        seq![TokenModel::Ident(vs[0].name)] + (default_tokens(vs[0].value) + (
        seq![TokenModel::Comma] + variants_tokens(vs.skip(1))))
    }
}

/// A variant whose value is a value.
#[verifier::opaque]
pub open spec fn variant_ok(v: VariantModel) -> bool {
    v.value matches Some(x) ==> has_value(x)
}

proof fn lemma_variants(
    t: Seq<(TokenModel, int)>,
    p: int,
    vs: Seq<VariantModel>,
    acc: Seq<VariantModel>,
)
    requires
        forall|i: int| 0 <= i < vs.len() ==> variant_ok(#[trigger] vs[i]),
        holds(t, p, variants_tokens(vs)),
        t[p + variants_tokens(vs).len()].0 == TokenModel::RBrace,
    ensures
        variant_list(t, p, acc) == Ok::<(Seq<VariantModel>, int), (ErrorModel, int)>(
            (acc + vs, p + variants_tokens(vs).len()),
        ),
    decreases vs.len(),
{
    reveal(variant_ok);
    lemma_within(t, p, variants_tokens(vs));
    if vs.len() == 0 {
        assert(acc + vs =~= acc);
    } else {
        let v = vs[0];
        assert(variant_ok(v));
        let left = vs.skip(1);
        let value = default_tokens(v.value);
        if vs.len() == 1 {
            lemma_first(t, p, TokenModel::Ident(v.name), value);
            lemma_default(t, p + 1, v.value);
            assert(acc.push(v) =~= acc + vs);
        } else {
            let later = seq![TokenModel::Comma] + variants_tokens(left);
            lemma_first(t, p, TokenModel::Ident(v.name), value + later);
            lemma_parts(t, p + 1, value, later);
            lemma_first(t, p + 1 + value.len(), TokenModel::Comma, variants_tokens(left));
            lemma_default(t, p + 1, v.value);
            assert forall|i: int| 0 <= i < left.len() implies variant_ok(#[trigger] left[i]) by {
                assert(left[i] == vs[i + 1]);
            }
            lemma_variants(t, p + 2 + value.len(), left, acc.push(v));
            assert(acc.push(v) + left =~= acc + vs);
        }
    }
}

/// What a declaration says of a header as tokens.
pub open spec fn header_tokens(h: Option<Seq<char>>) -> Seq<TokenModel> {
    match h {
        Some(h) => seq![TokenModel::Ident("cpp_header"@)] + seq![TokenModel::StringLit(h)],
        None => Seq::empty(),
    }
}

/// A declaration behind its annotations as tokens.
#[verifier::opaque]
pub open spec fn body_tokens(d: DeclModel) -> Seq<TokenModel> {
    match d {
        DeclModel::Interface { annotations: _, is_oneway, name, extends, methods, constants } =>
        seq![TokenModel::Ident("interface"@)] + (seq![TokenModel::Ident(name)] + (extends_tokens(
            extends,
        ) + (seq![TokenModel::LBrace] + (members_tokens(methods, constants, is_oneway)
            + seq![TokenModel::RBrace])))),
        DeclModel::Parcelable { annotations: _, name, cpp_header, fields } => seq![
            TokenModel::Ident("parcelable"@),
        ] + (seq![TokenModel::Ident(name)] + (header_tokens(cpp_header) + if fields.len() == 0 {
            seq![TokenModel::Semi]
        } else {
            block_tokens(fields)
        })),
        DeclModel::Enum { annotations: _, name, backing_type: _, variants } => seq![
            TokenModel::Ident("enum"@),
        ] + (seq![TokenModel::Ident(name)] + (seq![TokenModel::LBrace] + (variants_tokens(variants)
            + seq![TokenModel::RBrace]))),
        DeclModel::Union { annotations: _, name, fields } => seq![TokenModel::Ident("union"@)] + (
        seq![TokenModel::Ident(name)] + block_tokens(fields)),
    }
}

/// The annotations of a declaration.
pub open spec fn annotations_of(d: DeclModel) -> Seq<AnnotationModel> {
    match d {
        DeclModel::Interface { annotations, .. } => annotations,
        DeclModel::Parcelable { annotations, .. } => annotations,
        DeclModel::Enum { annotations, .. } => annotations,
        DeclModel::Union { annotations, .. } => annotations,
    }
}

/// A declaration as tokens.
#[verifier::opaque]
pub open spec fn decl_tokens(d: DeclModel) -> Seq<TokenModel> {
    annotations_tokens(annotations_of(d)) + ((if d matches DeclModel::Interface {
        is_oneway: true,
        ..
    } {
        seq![TokenModel::Ident("oneway"@)]
    } else {
        Seq::empty()
    }) + body_tokens(d))
}

/// A declaration that can be written down.
#[verifier::opaque]
pub open spec fn decl_ok(d: DeclModel) -> bool {
    &&& annotations_ok(annotations_of(d))
    &&& match d {
        DeclModel::Interface { annotations: _, is_oneway, name: _, extends: _, methods, constants } => {
            &&& forall|i: int| 0 <= i < methods.len() ==> method_ok(#[trigger] methods[i], is_oneway)
            &&& forall|i: int|
                0 <= i < constants.len() ==> has_value((#[trigger] constants[i]).value)
        },
        DeclModel::Parcelable { annotations: _, name: _, cpp_header: _, fields } => {
            forall|i: int| 0 <= i < fields.len() ==> field_ok(#[trigger] fields[i], true)
        },
        DeclModel::Enum { annotations: _, name: _, backing_type, variants } => {
            &&& backing_type is None
            &&& forall|i: int| 0 <= i < variants.len() ==> variant_ok(#[trigger] variants[i])
        },
        DeclModel::Union { annotations: _, name: _, fields } => {
            forall|i: int| 0 <= i < fields.len() ==> field_ok(#[trigger] fields[i], false)
        },
    }
}

proof fn lemma_decl_words()
    ensures
        "interface"@ != "parcelable"@,
        "interface"@ != "enum"@,
        "interface"@ != "union"@,
        "parcelable"@ != "enum"@,
        "parcelable"@ != "union"@,
        "enum"@ != "union"@,
        "interface"@ != "oneway"@,
        "parcelable"@ != "oneway"@,
        "enum"@ != "oneway"@,
        "union"@ != "oneway"@,
        "package"@ != "import"@,
        "interface"@ != "package"@,
        "interface"@ != "import"@,
        "parcelable"@ != "package"@,
        "parcelable"@ != "import"@,
        "enum"@ != "package"@,
        "enum"@ != "import"@,
        "union"@ != "package"@,
        "union"@ != "import"@,
        "oneway"@ != "package"@,
        "oneway"@ != "import"@,
{
    reveal_strlit("interface");
    reveal_strlit("parcelable");
    reveal_strlit("enum");
    reveal_strlit("union");
    reveal_strlit("oneway");
    reveal_strlit("package");
    reveal_strlit("import");
    assert("interface"@.len() == 9 && "parcelable"@.len() == 10 && "enum"@.len() == 4
        && "union"@.len() == 5 && "oneway"@.len() == 6 && "package"@.len() == 7 && "import"@.len()
        == 6);
    assert("oneway"@[0] != "import"@[0]);
}

proof fn lemma_interface(t: Seq<(TokenModel, int)>, p: int, d: DeclModel)
    requires
        d is Interface,
        decl_ok(d),
        holds(t, p, body_tokens(d)),
    ensures
        decl_body(t, p, annotations_of(d), d->is_oneway) == Ok::<
            (DeclModel, int),
            (ErrorModel, int),
        >((d, p + body_tokens(d).len())),
{
    reveal(decl_body);
    reveal(interface_at);
    reveal(decl_ok);
    reveal(body_tokens);
    lemma_within(t, p, body_tokens(d));
    if let DeclModel::Interface { annotations, is_oneway, name, extends, methods, constants } = d {
        let ext = extends_tokens(extends);
        let members = members_tokens(methods, constants, is_oneway);
        let close = seq![TokenModel::RBrace];
        let inner = seq![TokenModel::LBrace] + (members + close);
        lemma_first(
            t,
            p,
            TokenModel::Ident("interface"@),
            seq![TokenModel::Ident(name)] + (ext + inner),
        );
        lemma_first(t, p + 1, TokenModel::Ident(name), ext + inner);
        lemma_parts(t, p + 2, ext, inner);
        match extends {
            Some(base) => {
                lemma_first(t, p + 2, TokenModel::Ident("extends"@), name_tokens(base));
                lemma_name(t, p + 3, base);
            },
            None => {},
        }
        let q = p + 2 + ext.len();
        assert(extends_at(t, p + 2) == Ok::<(Option<Seq<char>>, int), (ErrorModel, int)>(
            (extends, q),
        ));
        lemma_first(t, q, TokenModel::LBrace, members + close);
        lemma_parts(t, q + 1, members, close);
        lemma_members(t, q + 1, methods, constants, is_oneway, seq![], seq![]);
        assert(seq![] + methods =~= methods);
        assert(seq![] + constants =~= constants);
        assert(close + Seq::<TokenModel>::empty() =~= close);
        lemma_first(t, q + 1 + members.len(), TokenModel::RBrace, Seq::empty());
        assert(interface_at(t, p + 1, annotations, is_oneway) == Ok::<
            (DeclModel, int),
            (ErrorModel, int),
        >((d, q + 2 + members.len())));
    }
}

proof fn lemma_parcelable(t: Seq<(TokenModel, int)>, p: int, d: DeclModel)
    requires
        d is Parcelable,
        decl_ok(d),
        holds(t, p, body_tokens(d)),
    ensures
        decl_body(t, p, annotations_of(d), false) == Ok::<(DeclModel, int), (ErrorModel, int)>(
            (d, p + body_tokens(d).len()),
        ),
{
    reveal(block_tokens);
    reveal(decl_body);
    reveal(parcelable_at);
    reveal(decl_ok);
    reveal(body_tokens);
    lemma_within(t, p, body_tokens(d));
    if let DeclModel::Parcelable { annotations, name, cpp_header, fields } = d {
        let head = header_tokens(cpp_header);
        let tail = if fields.len() == 0 {
            seq![TokenModel::Semi]
        } else {
            block_tokens(fields)
        };
        lemma_decl_words();
        lemma_first(
            t,
            p,
            TokenModel::Ident("parcelable"@),
            seq![TokenModel::Ident(name)] + (head + tail),
        );
        lemma_first(t, p + 1, TokenModel::Ident(name), head + tail);
        lemma_parts(t, p + 2, head, tail);
        match cpp_header {
            Some(h) => {
                lemma_first(
                    t,
                    p + 2,
                    TokenModel::Ident("cpp_header"@),
                    seq![TokenModel::StringLit(h)],
                );
                assert(t[p + 3].0 == TokenModel::StringLit(h));
            },
            None => {},
        }
        let q = p + 2 + head.len();
        assert(header_at(t, p + 2) == Ok::<(Option<Seq<char>>, int), (ErrorModel, int)>(
            (cpp_header, q),
        ));
        if fields.len() == 0 {
            assert(fields =~= seq![]);
        } else {
            lemma_block(t, q, fields, true);
        }
        assert(parcelable_at(t, p + 1, annotations) == Ok::<(DeclModel, int), (ErrorModel, int)>(
            (d, q + tail.len()),
        ));
    }
}

proof fn lemma_enum(t: Seq<(TokenModel, int)>, p: int, d: DeclModel)
    requires
        d is Enum,
        decl_ok(d),
        holds(t, p, body_tokens(d)),
    ensures
        decl_body(t, p, annotations_of(d), false) == Ok::<(DeclModel, int), (ErrorModel, int)>(
            (d, p + body_tokens(d).len()),
        ),
{
    reveal(decl_body);
    reveal(enum_at);
    reveal(decl_ok);
    reveal(body_tokens);
    lemma_within(t, p, body_tokens(d));
    if let DeclModel::Enum { annotations, name, backing_type, variants } = d {
        let list = variants_tokens(variants);
        let close = seq![TokenModel::RBrace];
        lemma_decl_words();
        lemma_first(
            t,
            p,
            TokenModel::Ident("enum"@),
            seq![TokenModel::Ident(name)] + (seq![TokenModel::LBrace] + (list + close)),
        );
        lemma_first(t, p + 1, TokenModel::Ident(name), seq![TokenModel::LBrace] + (list + close));
        lemma_first(t, p + 2, TokenModel::LBrace, list + close);
        lemma_parts(t, p + 3, list, close);
        lemma_variants(t, p + 3, variants, seq![]);
        assert(seq![] + variants =~= variants);
        assert(close + Seq::<TokenModel>::empty() =~= close);
        lemma_first(t, p + 3 + list.len(), TokenModel::RBrace, Seq::empty());
        assert(enum_at(t, p + 1, annotations) == Ok::<(DeclModel, int), (ErrorModel, int)>(
            (d, p + 4 + list.len()),
        ));
    }
}

proof fn lemma_union(t: Seq<(TokenModel, int)>, p: int, d: DeclModel)
    requires
        d is Union,
        decl_ok(d),
        holds(t, p, body_tokens(d)),
    ensures
        decl_body(t, p, annotations_of(d), false) == Ok::<(DeclModel, int), (ErrorModel, int)>(
            (d, p + body_tokens(d).len()),
        ),
{
    reveal(decl_body);
    reveal(union_at);
    reveal(decl_ok);
    reveal(body_tokens);
    lemma_within(t, p, body_tokens(d));
    if let DeclModel::Union { annotations, name, fields } = d {
        let block = block_tokens(fields);
        lemma_decl_words();
        lemma_first(t, p, TokenModel::Ident("union"@), seq![TokenModel::Ident(name)] + block);
        lemma_first(t, p + 1, TokenModel::Ident(name), block);
        lemma_block(t, p + 2, fields, false);
        assert(union_at(t, p + 1, annotations) == Ok::<(DeclModel, int), (ErrorModel, int)>(
            (d, p + 2 + block.len()),
        ));
    }
}

proof fn lemma_body_starts(d: DeclModel)
    ensures
        body_tokens(d).len() > 0,
        body_tokens(d)[0] == TokenModel::Ident(
            match d {
                DeclModel::Interface { .. } => "interface"@,
                DeclModel::Parcelable { .. } => "parcelable"@,
                DeclModel::Enum { .. } => "enum"@,
                DeclModel::Union { .. } => "union"@,
            },
        ),
{
    reveal(body_tokens);
}

/// A declaration that is written down is read as the declaration.
pub proof fn declarations_are_read_back(t: Seq<(TokenModel, int)>, p: int, d: DeclModel)
    requires
        decl_ok(d),
        holds(t, p, decl_tokens(d)),
    ensures
        decl_at(t, p) == Ok::<(DeclModel, int), (ErrorModel, int)>((d, p + decl_tokens(d).len())),
        decl_tokens(d).len() > 0,
        t[p].0 != TokenModel::Eof,
        t[p].0 != TokenModel::Ident("package"@),
        t[p].0 != TokenModel::Ident("import"@),
{
    reveal(decl_ok);
    reveal(annotation_tokens);
    reveal(decl_at);
    reveal(decl_tokens);
    lemma_within(t, p, decl_tokens(d));
    let annos = annotations_tokens(annotations_of(d));
    let oneway = d matches DeclModel::Interface { is_oneway: true, .. };
    let word = if oneway {
        seq![TokenModel::Ident("oneway"@)]
    } else {
        Seq::empty()
    };
    let body = body_tokens(d);
    lemma_decl_words();
    lemma_parts(t, p, annos, word + body);
    let q = p + annos.len();
    lemma_parts(t, q, word, body);
    lemma_body_starts(d);
    if oneway {
        lemma_within(t, q, word);
    }
    lemma_annotations(t, p, annotations_of(d), seq![]);
    assert(seq![] + annotations_of(d) =~= annotations_of(d));
    match d {
        DeclModel::Interface { .. } => lemma_interface(t, q + word.len(), d),
        DeclModel::Parcelable { .. } => lemma_parcelable(t, q, d),
        DeclModel::Enum { .. } => lemma_enum(t, q, d),
        DeclModel::Union { .. } => lemma_union(t, q, d),
    }
    if annotations_of(d).len() > 0 {
        assert(annos[0] == TokenModel::At);
        lemma_within(t, p, annos);
    }
}

/// A line of a word and a name as tokens.
#[verifier::opaque]
pub open spec fn line_tokens(word: Seq<char>, name: Seq<char>) -> Seq<TokenModel> {
    seq![TokenModel::Ident(word)] + (name_tokens(name) + seq![TokenModel::Semi])
}

proof fn lemma_line(t: Seq<(TokenModel, int)>, p: int, word: Seq<char>, name: Seq<char>)
    requires
        holds(t, p, line_tokens(word, name)),
    ensures
        t[p].0 == TokenModel::Ident(word),
        name_line(t, p + 1) == Ok::<(Seq<char>, int), (ErrorModel, int)>(
            (name, p + line_tokens(word, name).len()),
        ),
{
    reveal(line_tokens);
    lemma_within(t, p, line_tokens(word, name));
    let w = name_tokens(name);
    let semi = seq![TokenModel::Semi];
    lemma_first(t, p, TokenModel::Ident(word), w + semi);
    lemma_parts(t, p + 1, w, semi);
    lemma_name(t, p + 1, name);
    assert(semi + Seq::<TokenModel>::empty() =~= semi);
    lemma_first(t, p + 1 + w.len(), TokenModel::Semi, Seq::empty());
}

/// The imports and the declarations of a file as tokens.
pub open spec fn rest_tokens(imports: Seq<Seq<char>>, decls: Seq<DeclModel>) -> Seq<TokenModel>
    decreases imports.len() + decls.len(),
{
    if imports.len() > 0 {
        line_tokens("import"@, imports[0]) + rest_tokens(imports.skip(1), decls)
    } else if decls.len() > 0 {
        decl_tokens(decls[0]) + rest_tokens(imports, decls.skip(1))
    } else {
        Seq::empty()
    }
}

/// A file as tokens.
pub open spec fn file_tokens(f: FileModel) -> Seq<TokenModel> {
    (match f.package {
        Some(name) => line_tokens("package"@, name),
        None => Seq::empty(),
    }) + rest_tokens(f.imports, f.decls)
}

/// A file that can be written down.
pub open spec fn file_ok(f: FileModel) -> bool {
    forall|i: int| 0 <= i < f.decls.len() ==> decl_ok(#[trigger] f.decls[i])
}

proof fn lemma_rest(
    t: Seq<(TokenModel, int)>,
    p: int,
    imports: Seq<Seq<char>>,
    decls: Seq<DeclModel>,
    acc: FileModel,
)
    requires
        forall|i: int| 0 <= i < decls.len() ==> decl_ok(#[trigger] decls[i]),
        holds(t, p, rest_tokens(imports, decls)),
        t[p + rest_tokens(imports, decls).len()].0 == TokenModel::Eof,
    ensures
        file_from(t, p, acc) == Ok::<(FileModel, int), (ErrorModel, int)>(
            (
                FileModel {
                    package: acc.package,
                    imports: acc.imports + imports,
                    decls: acc.decls + decls,
                },
                p + rest_tokens(imports, decls).len(),
            ),
        ),
    decreases imports.len() + decls.len(),
{
    lemma_within(t, p, rest_tokens(imports, decls));
    lemma_decl_words();
    if imports.len() > 0 {
        let left = imports.skip(1);
        let w = line_tokens("import"@, imports[0]);
        lemma_parts(t, p, w, rest_tokens(left, decls));
        lemma_line(t, p, "import"@, imports[0]);
        let next = FileModel { imports: acc.imports.push(imports[0]), ..acc };
        lemma_rest(t, p + w.len(), left, decls, next);
        assert(acc.imports.push(imports[0]) + left =~= acc.imports + imports);
    } else if decls.len() > 0 {
        let left = decls.skip(1);
        let w = decl_tokens(decls[0]);
        lemma_parts(t, p, w, rest_tokens(imports, left));
        declarations_are_read_back(t, p, decls[0]);
        assert forall|i: int| 0 <= i < left.len() implies decl_ok(#[trigger] left[i]) by {
            assert(left[i] == decls[i + 1]);
        }
        let next = FileModel { decls: acc.decls.push(decls[0]), ..acc };
        lemma_rest(t, p + w.len(), imports, left, next);
        assert(acc.decls.push(decls[0]) + left =~= acc.decls + decls);
    } else {
        assert(acc.imports + imports =~= acc.imports);
        assert(acc.decls + decls =~= acc.decls);
    }
}

/// A file that is written down, with the end behind it, is read as the file: every name, type,
/// annotation, number and value comes back.
pub proof fn files_are_read_back(t: Seq<(TokenModel, int)>, f: FileModel)
    requires
        file_ok(f),
        holds(t, 0, file_tokens(f)),
        t[file_tokens(f).len() as int].0 == TokenModel::Eof,
    ensures
        file_from(t, 0, empty_file()) == Ok::<(FileModel, int), (ErrorModel, int)>(
            (f, file_tokens(f).len() as int),
        ),
{
    lemma_within(t, 0, file_tokens(f));
    let rest = rest_tokens(f.imports, f.decls);
    lemma_decl_words();
    assert(seq![] + f.imports =~= f.imports);
    assert(seq![] + f.decls =~= f.decls);
    match f.package {
        Some(name) => {
            let w = line_tokens("package"@, name);
            lemma_parts(t, 0, w, rest);
            lemma_line(t, 0, "package"@, name);
            let next = FileModel { package: Some(name), ..empty_file() };
            lemma_rest(t, w.len() as int, f.imports, f.decls, next);
        },
        None => {
            lemma_parts(t, 0, Seq::empty(), rest);
            assert(Seq::<TokenModel>::empty() + rest =~= rest);
            lemma_rest(t, 0, f.imports, f.decls, empty_file());
        },
    }
}

/// A comma behind the last variant of an enum, and braces with nothing between them behind a
/// parcelable, are read as if they were not there.
pub proof fn empty_ends_are_passed_over(
    t: Seq<(TokenModel, int)>,
    p: int,
    vs: Seq<VariantModel>,
    annos: Seq<AnnotationModel>,
    name: Seq<char>,
)
    requires
        forall|i: int| 0 <= i < vs.len() ==> variant_ok(#[trigger] vs[i]),
    ensures
        vs.len() > 0 && holds(t, p, variants_tokens(vs) + seq![TokenModel::Comma]) && t[p
            + variants_tokens(vs).len() + 1].0 == TokenModel::RBrace ==> variant_list(t, p, seq![])
            == Ok::<(Seq<VariantModel>, int), (ErrorModel, int)>(
            (vs, p + variants_tokens(vs).len() + 1),
        ),
        holds(
            t,
            p,
            seq![TokenModel::Ident(name)] + (seq![TokenModel::LBrace] + seq![TokenModel::RBrace]),
        ) ==> parcelable_at(t, p, annos) == Ok::<(DeclModel, int), (ErrorModel, int)>(
            (
                DeclModel::Parcelable {
                    annotations: annos,
                    name,
                    cpp_header: None,
                    fields: seq![],
                },
                p + 3,
            ),
        ),
{
    reveal(parcelable_at);
    if vs.len() > 0 && holds(t, p, variants_tokens(vs) + seq![TokenModel::Comma]) && t[p
        + variants_tokens(vs).len() + 1].0 == TokenModel::RBrace {
        lemma_trailing_comma(t, p, vs, seq![]);
        assert(seq![] + vs =~= vs);
    }
    let block = seq![TokenModel::LBrace] + seq![TokenModel::RBrace];
    if holds(t, p, seq![TokenModel::Ident(name)] + block) {
        lemma_first(t, p, TokenModel::Ident(name), block);
        lemma_first(t, p + 1, TokenModel::LBrace, seq![TokenModel::RBrace]);
        assert(seq![TokenModel::RBrace] + Seq::<TokenModel>::empty() =~= seq![TokenModel::RBrace]);
        lemma_first(t, p + 2, TokenModel::RBrace, Seq::empty());
    }
}

proof fn lemma_trailing_comma(
    t: Seq<(TokenModel, int)>,
    p: int,
    vs: Seq<VariantModel>,
    acc: Seq<VariantModel>,
)
    requires
        vs.len() > 0,
        forall|i: int| 0 <= i < vs.len() ==> variant_ok(#[trigger] vs[i]),
        holds(t, p, variants_tokens(vs) + seq![TokenModel::Comma]),
        t[p + variants_tokens(vs).len() + 1].0 == TokenModel::RBrace,
    ensures
        variant_list(t, p, acc) == Ok::<(Seq<VariantModel>, int), (ErrorModel, int)>(
            (acc + vs, p + variants_tokens(vs).len() + 1),
        ),
    decreases vs.len(),
{
    reveal(variant_ok);
    let v = vs[0];
    let left = vs.skip(1);
    let value = default_tokens(v.value);
    let comma = seq![TokenModel::Comma];
    assert(variant_ok(v));
    lemma_within(t, p, variants_tokens(vs) + comma);
    if vs.len() == 1 {
        assert(variants_tokens(vs) + comma =~= seq![TokenModel::Ident(v.name)] + (value + comma));
        lemma_first(t, p, TokenModel::Ident(v.name), value + comma);
        lemma_parts(t, p + 1, value, comma);
        lemma_default(t, p + 1, v.value);
        let r = p + 1 + value.len();
        assert(comma + Seq::<TokenModel>::empty() =~= comma);
        lemma_first(t, r, TokenModel::Comma, Seq::empty());
        assert(acc.push(v) =~= acc + vs);
        assert(variant_list(t, r + 1, acc.push(v)) == Ok::<
            (Seq<VariantModel>, int),
            (ErrorModel, int),
        >((acc.push(v), r + 1)));
    } else {
        let later = variants_tokens(left) + comma;
        assert(variants_tokens(vs) + comma =~= seq![TokenModel::Ident(v.name)] + (value + (comma
            + later)));
        lemma_first(t, p, TokenModel::Ident(v.name), value + (comma + later));
        lemma_parts(t, p + 1, value, comma + later);
        lemma_first(t, p + 1 + value.len(), TokenModel::Comma, later);
        lemma_default(t, p + 1, v.value);
        assert forall|i: int| 0 <= i < left.len() implies variant_ok(#[trigger] left[i]) by {
            assert(left[i] == vs[i + 1]);
        }
        lemma_trailing_comma(t, p + 2 + value.len(), left, acc.push(v));
        assert(acc.push(v) + left =~= acc + vs);
    }
}

/// Whatever is read is closed: a constant, a field, the signature of a method and a line end with
/// a semicolon, and an interface, an enum and a union with a brace.
pub proof fn what_is_read_is_closed(
    t: Seq<(TokenModel, int)>,
    p: int,
    of_parcelable: bool,
    annos: Seq<AnnotationModel>,
    oneway: bool,
)
    requires
        t.len() > 0,
        t.last().0 == TokenModel::Eof,
    ensures
        constant_at(t, p) matches Ok((_, q)) ==> cur(t, q - 1).0 == TokenModel::Semi,
        field_at(t, p, of_parcelable) matches Ok((_, q)) ==> cur(t, q - 1).0 == TokenModel::Semi,
        signature_at(t, p) matches Ok((_, q)) ==> cur(t, q - 1).0 == TokenModel::Semi && cur(t, p).0
            == TokenModel::LParen,
        name_line(t, p) matches Ok((_, q)) ==> cur(t, q - 1).0 == TokenModel::Semi,
        interface_at(t, p, annos, oneway) matches Ok((_, q)) ==> cur(t, q - 1).0
            == TokenModel::RBrace,
        enum_at(t, p, annos) matches Ok((_, q)) ==> cur(t, q - 1).0 == TokenModel::RBrace,
        union_at(t, p, annos) matches Ok((_, q)) ==> cur(t, q - 1).0 == TokenModel::RBrace,
        parcelable_at(t, p, annos) matches Ok((_, q)) ==> cur(t, q - 1).0 == TokenModel::RBrace
            || cur(t, q - 1).0 == TokenModel::Semi,
{
    reveal(constant_at);
    reveal(field_at);
    reveal(signature_at);
    reveal(interface_at);
    reveal(enum_at);
    reveal(union_at);
    reveal(parcelable_at);
}

} // verus!
