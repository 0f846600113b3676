//! The syntax tree of an AIDL file, and the mathematical tree that it stands for.

use crate::text::{opt_view, owned, str_eq};
use vstd::prelude::*;

verus! {

/// Represents a parsed AIDL file containing package, imports, and declarations.
#[derive(Debug, Clone, PartialEq, Eq, Default)]
pub struct AidlFile {
    pub package: Option<String>,
    pub imports: Vec<String>,
    pub decls: Vec<AidlDecl>,
}

/// Top-level definition inside an AIDL file.
#[derive(Debug, Clone, PartialEq, Eq)]
pub enum AidlDecl {
    Interface(AidlInterface),
    Parcelable(AidlParcelable),
    Enum(AidlEnum),
    Union(AidlUnion),
}

/// AIDL Interface definition (`interface IService { ... }`).
#[derive(Debug, Clone, PartialEq, Eq, Default)]
pub struct AidlInterface {
    pub annotations: Vec<Annotation>,
    pub is_oneway: bool,
    pub name: String,
    pub extends: Option<String>,
    pub methods: Vec<AidlMethod>,
    pub constants: Vec<AidlConstant>,
}

/// AIDL Parcelable definition (`parcelable Foo { ... }`).
#[derive(Debug, Clone, PartialEq, Eq, Default)]
pub struct AidlParcelable {
    pub annotations: Vec<Annotation>,
    pub name: String,
    pub cpp_header: Option<String>,
    pub fields: Vec<AidlField>,
}

/// AIDL Enum definition (`enum Status { OK = 0, ERROR = 1 }`).
#[derive(Debug, Clone, PartialEq, Eq, Default)]
pub struct AidlEnum {
    pub annotations: Vec<Annotation>,
    pub name: String,
    pub backing_type: Option<AidlType>,
    pub variants: Vec<EnumVariant>,
}

/// AIDL Union definition (`union Data { int num; String text; }`).
#[derive(Debug, Clone, PartialEq, Eq, Default)]
pub struct AidlUnion {
    pub annotations: Vec<Annotation>,
    pub name: String,
    pub fields: Vec<AidlField>,
}

/// Enum variant (`VARIANT_NAME = value`).
#[derive(Debug, Clone, PartialEq, Eq)]
pub struct EnumVariant {
    pub name: String,
    pub value: Option<String>,
}

/// Method in an interface.
#[derive(Debug, Clone, PartialEq, Eq)]
pub struct AidlMethod {
    pub annotations: Vec<Annotation>,
    pub is_oneway: bool,
    pub return_type: AidlType,
    pub name: String,
    pub args: Vec<AidlArg>,
    pub id: Option<u32>,
}

/// Parameter in a method signature.
#[derive(Debug, Clone, PartialEq, Eq)]
pub struct AidlArg {
    pub annotations: Vec<Annotation>,
    pub direction: Option<Direction>,
    pub ty: AidlType,
    pub name: String,
}

/// Direction tags for method parameters.
#[derive(Debug, Clone, Copy, PartialEq, Eq, Structural)]
pub enum Direction {
    In,
    Out,
    InOut,
}

impl Direction {
    /// The keyword of a direction.
    pub open spec fn keyword_spec(self) -> Seq<char> {
        match self {
            Direction::In => "in"@,
            Direction::Out => "out"@,
            Direction::InOut => "inout"@,
        }
    }

    /// The keyword of a direction.
    pub fn keyword(&self) -> (s: &'static str)
        ensures
            s@ == self.keyword_spec(),
    {
        match self {
            Direction::In => "in",
            Direction::Out => "out",
            Direction::InOut => "inout",
        }
    }
}

/// Type representation in AIDL.
#[derive(Debug, PartialEq, Eq)]
pub struct AidlType {
    pub name: String,
    pub generic_args: Vec<AidlType>,
    pub array_dimensions: usize,
    pub is_nullable: bool,
}

/// Field in a parcelable or union.
#[derive(Debug, Clone, PartialEq, Eq)]
pub struct AidlField {
    pub annotations: Vec<Annotation>,
    pub ty: AidlType,
    pub name: String,
    pub default_value: Option<String>,
}

/// Constant inside interface or parcelable.
#[derive(Debug, Clone, PartialEq, Eq)]
pub struct AidlConstant {
    pub ty: AidlType,
    pub name: String,
    pub value: String,
}

/// Annotation attached to declarations, types, or fields.
#[derive(Debug, Clone, PartialEq, Eq)]
pub struct Annotation {
    pub name: String,
    pub args: Vec<(Option<String>, String)>,
}

/// The mathematical tree of a type.
pub struct TypeModel {
    pub name: Seq<char>,
    pub generic_args: Seq<TypeModel>,
    pub array_dimensions: nat,
    pub is_nullable: bool,
}

/// The mathematical tree of an annotation.
pub struct AnnotationModel {
    pub name: Seq<char>,
    pub args: Seq<(Option<Seq<char>>, Seq<char>)>,
}

/// The mathematical tree of a field.
pub struct FieldModel {
    pub annotations: Seq<AnnotationModel>,
    pub ty: TypeModel,
    pub name: Seq<char>,
    pub default_value: Option<Seq<char>>,
}

/// The mathematical tree of a constant.
pub struct ConstantModel {
    pub ty: TypeModel,
    pub name: Seq<char>,
    pub value: Seq<char>,
}

/// The mathematical tree of a parameter.
pub struct ArgModel {
    pub annotations: Seq<AnnotationModel>,
    pub direction: Option<Direction>,
    pub ty: TypeModel,
    pub name: Seq<char>,
}

/// The mathematical tree of a method.
pub struct MethodModel {
    pub annotations: Seq<AnnotationModel>,
    pub is_oneway: bool,
    pub return_type: TypeModel,
    pub name: Seq<char>,
    pub args: Seq<ArgModel>,
    pub id: Option<u32>,
}

/// The mathematical tree of an enum variant.
pub struct VariantModel {
    pub name: Seq<char>,
    pub value: Option<Seq<char>>,
}

/// The mathematical tree of a declaration.
pub enum DeclModel {
    Interface {
        annotations: Seq<AnnotationModel>,
        is_oneway: bool,
        name: Seq<char>,
        extends: Option<Seq<char>>,
        methods: Seq<MethodModel>,
        constants: Seq<ConstantModel>,
    },
    Parcelable {
        annotations: Seq<AnnotationModel>,
        name: Seq<char>,
        cpp_header: Option<Seq<char>>,
        fields: Seq<FieldModel>,
    },
    Enum {
        annotations: Seq<AnnotationModel>,
        name: Seq<char>,
        backing_type: Option<TypeModel>,
        variants: Seq<VariantModel>,
    },
    Union { annotations: Seq<AnnotationModel>, name: Seq<char>, fields: Seq<FieldModel> },
}

/// The mathematical tree of a file.
pub struct FileModel {
    pub package: Option<Seq<char>>,
    pub imports: Seq<Seq<char>>,
    pub decls: Seq<DeclModel>,
}

/// The tree of a type.
pub open spec fn type_model(t: AidlType) -> TypeModel
    decreases t,
{
    TypeModel {
        name: t.name@,
        generic_args: Seq::new(
            t.generic_args@.len(),
            |i: int|
                if 0 <= i < t.generic_args@.len() {
                    type_model(t.generic_args@[i])
                } else {
                    arbitrary()
                },
        ),
        array_dimensions: t.array_dimensions as nat,
        is_nullable: t.is_nullable,
    }
}

/// The trees of a list of types.
pub open spec fn type_models(v: Seq<AidlType>) -> Seq<TypeModel> {
    Seq::new(v.len(), |i: int| type_model(v[i]))
}

/// The tree of an annotation argument.
pub open spec fn anno_arg_model(a: (Option<String>, String)) -> (Option<Seq<char>>, Seq<char>) {
    (opt_view(a.0), a.1@)
}

/// The trees of annotation arguments.
pub open spec fn anno_arg_models(v: Seq<(Option<String>, String)>) -> Seq<
    (Option<Seq<char>>, Seq<char>),
> {
    Seq::new(v.len(), |i: int| anno_arg_model(v[i]))
}

/// The tree of an annotation.
pub open spec fn annotation_model(a: Annotation) -> AnnotationModel {
    AnnotationModel { name: a.name@, args: anno_arg_models(a.args@) }
}

/// The trees of a list of annotations.
pub open spec fn annotation_models(v: Seq<Annotation>) -> Seq<AnnotationModel> {
    Seq::new(v.len(), |i: int| annotation_model(v[i]))
}

/// The tree of a field.
pub open spec fn field_model(f: AidlField) -> FieldModel {
    FieldModel {
        annotations: annotation_models(f.annotations@),
        ty: type_model(f.ty),
        name: f.name@,
        default_value: opt_view(f.default_value),
    }
}

/// The trees of a list of fields.
pub open spec fn field_models(v: Seq<AidlField>) -> Seq<FieldModel> {
    Seq::new(v.len(), |i: int| field_model(v[i]))
}

/// The tree of a constant.
pub open spec fn constant_model(c: AidlConstant) -> ConstantModel {
    ConstantModel { ty: type_model(c.ty), name: c.name@, value: c.value@ }
}

/// The trees of a list of constants.
pub open spec fn constant_models(v: Seq<AidlConstant>) -> Seq<ConstantModel> {
    Seq::new(v.len(), |i: int| constant_model(v[i]))
}

/// The tree of a parameter.
pub open spec fn arg_model(a: AidlArg) -> ArgModel {
    ArgModel {
        annotations: annotation_models(a.annotations@),
        direction: a.direction,
        ty: type_model(a.ty),
        name: a.name@,
    }
}

/// The trees of a list of parameters.
pub open spec fn arg_models(v: Seq<AidlArg>) -> Seq<ArgModel> {
    Seq::new(v.len(), |i: int| arg_model(v[i]))
}

/// The tree of a method.
pub open spec fn method_model(m: AidlMethod) -> MethodModel {
    MethodModel {
        annotations: annotation_models(m.annotations@),
        is_oneway: m.is_oneway,
        return_type: type_model(m.return_type),
        name: m.name@,
        args: arg_models(m.args@),
        id: m.id,
    }
}

/// The trees of a list of methods.
pub open spec fn method_models(v: Seq<AidlMethod>) -> Seq<MethodModel> {
    Seq::new(v.len(), |i: int| method_model(v[i]))
}

/// The tree of an enum variant.
pub open spec fn variant_model(v: EnumVariant) -> VariantModel {
    VariantModel { name: v.name@, value: opt_view(v.value) }
}

/// The trees of a list of enum variants.
pub open spec fn variant_models(v: Seq<EnumVariant>) -> Seq<VariantModel> {
    Seq::new(v.len(), |i: int| variant_model(v[i]))
}

/// The tree of a declaration.
pub open spec fn decl_model(d: AidlDecl) -> DeclModel {
    match d {
        AidlDecl::Interface(i) => DeclModel::Interface {
            annotations: annotation_models(i.annotations@),
            is_oneway: i.is_oneway,
            name: i.name@,
            extends: opt_view(i.extends),
            methods: method_models(i.methods@),
            constants: constant_models(i.constants@),
        },
        AidlDecl::Parcelable(p) => DeclModel::Parcelable {
            annotations: annotation_models(p.annotations@),
            name: p.name@,
            cpp_header: opt_view(p.cpp_header),
            fields: field_models(p.fields@),
        },
        AidlDecl::Enum(e) => DeclModel::Enum {
            annotations: annotation_models(e.annotations@),
            name: e.name@,
            backing_type: match e.backing_type {
                Some(t) => Some(type_model(t)),
                None => None,
            },
            variants: variant_models(e.variants@),
        },
        AidlDecl::Union(u) => DeclModel::Union {
            annotations: annotation_models(u.annotations@),
            name: u.name@,
            fields: field_models(u.fields@),
        },
    }
}

/// The trees of a list of declarations.
pub open spec fn decl_models(v: Seq<AidlDecl>) -> Seq<DeclModel> {
    Seq::new(v.len(), |i: int| decl_model(v[i]))
}

/// The tree of a file.
pub open spec fn file_model(f: AidlFile) -> FileModel {
    FileModel {
        package: opt_view(f.package),
        imports: crate::text::string_views(f.imports@),
        decls: decl_models(f.decls@),
    }
}

/// The names of the built-in types.
pub open spec fn is_primitive_name(name: Seq<char>) -> bool {
    ||| name == "void"@
    ||| name == "boolean"@
    ||| name == "byte"@
    ||| name == "char"@
    ||| name == "int"@
    ||| name == "long"@
    ||| name == "float"@
    ||| name == "double"@
}

/// A type that is only a name.
pub open spec fn plain_type(name: Seq<char>) -> TypeModel {
    TypeModel { name, generic_args: seq![], array_dimensions: 0, is_nullable: false }
}

impl Clone for AidlType {
    /// A copy of the whole tree.
    fn clone(&self) -> (r: Self)
        ensures
            type_model(r) == type_model(*self),
        decreases self,
    {
        let mut args: Vec<AidlType> = Vec::new();
        let mut i: usize = 0;
        while i < self.generic_args.len()
            invariant
                i <= self.generic_args@.len(),
                args@.len() == i,
                forall|k: int|
                    0 <= k < i ==> type_model(#[trigger] args@[k]) == type_model(
                        self.generic_args@[k],
                    ),
            decreases self.generic_args@.len() - i,
        {
            let copy = self.generic_args[i].clone();
            args.push(copy);
            i = i + 1;
        }
        let r = AidlType {
            name: self.name.clone(),
            generic_args: args,
            array_dimensions: self.array_dimensions,
            is_nullable: self.is_nullable,
        };
        assert(type_model(r).generic_args =~= type_model(*self).generic_args);
        r
    }
}

impl AidlType {
    /// A type that is only a name: no arguments, no dimensions, not nullable.
    pub fn new(name: &str) -> (t: AidlType)
        ensures
            type_model(t) == plain_type(name@),
    {
        let t = AidlType {
            name: owned(name),
            generic_args: Vec::new(),
            array_dimensions: 0,
            is_nullable: false,
        };
        assert(type_model(t).generic_args =~= seq![]);
        t
    }

    /// The type of a built-in name.
    pub fn primitive(name: &str) -> (t: AidlType)
        ensures
            type_model(t) == plain_type(name@),
    {
        AidlType::new(name)
    }

    /// Whether the name is that of a built-in type.
    pub fn is_primitive(&self) -> (r: bool)
        ensures
            r == is_primitive_name(self.name@),
    {
        let n = self.name.as_str();
        str_eq(n, "void") || str_eq(n, "boolean") || str_eq(n, "byte") || str_eq(n, "char")
            || str_eq(n, "int") || str_eq(n, "long") || str_eq(n, "float") || str_eq(n, "double")
    }
}

} // verus!
