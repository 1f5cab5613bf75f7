//! Type declarations as resolution receives them, and the padding counts
//! annotated on them.

use crate::annotation::{get_padding, padding_lookup, Annotation, AnnotationView};
use crate::error::ResolveError;
use crate::primitive::IntType;
use vstd::prelude::*;

verus! {

/// A field of a struct or of a variant, in declaration order.
#[derive(Debug, Clone, PartialEq, Eq)]
pub struct FieldDeclaration {
    pub name: String,
    pub ty: IntType,
    pub annotations: Vec<Annotation>,
}

/// The mathematical value of a [`FieldDeclaration`].
pub struct FieldDeclarationView {
    pub name: Seq<char>,
    pub ty: IntType,
    pub annotations: Seq<AnnotationView>,
}

impl View for FieldDeclaration {
    type V = FieldDeclarationView;

    open spec fn view(&self) -> FieldDeclarationView {
        FieldDeclarationView {
            name: self.name@,
            ty: self.ty,
            annotations: self.annotations.deep_view(),
        }
    }
}

impl DeepView for FieldDeclaration {
    type V = FieldDeclarationView;

    open spec fn deep_view(&self) -> FieldDeclarationView {
        self@
    }
}

/// A variant of a tagged union: the tag that stands for it, if one is
/// declared, and its fields.
#[derive(Debug, Clone, PartialEq, Eq)]
pub struct VariantDeclaration {
    pub name: String,
    pub tag: Option<i128>,
    pub fields: Vec<FieldDeclaration>,
}

/// The mathematical value of a [`VariantDeclaration`].
pub struct VariantDeclarationView {
    pub name: Seq<char>,
    pub tag: Option<int>,
    pub fields: Seq<FieldDeclarationView>,
}

impl View for VariantDeclaration {
    type V = VariantDeclarationView;

    open spec fn view(&self) -> VariantDeclarationView {
        VariantDeclarationView {
            name: self.name@,
            tag: match self.tag {
                Some(tag) => Some(tag as int),
                None => None,
            },
            fields: self.fields.deep_view(),
        }
    }
}

impl DeepView for VariantDeclaration {
    type V = VariantDeclarationView;

    open spec fn deep_view(&self) -> VariantDeclarationView {
        self@
    }
}

/// What a declared type consists of.
#[derive(Debug, Clone, PartialEq, Eq)]
pub enum TypeBody {
    /// A struct: its fields.
    Struct(Vec<FieldDeclaration>),
    /// A tagged union: its variants.
    TaggedUnion(Vec<VariantDeclaration>),
}

/// The mathematical value of a [`TypeBody`].
pub enum TypeBodyView {
    Struct(Seq<FieldDeclarationView>),
    TaggedUnion(Seq<VariantDeclarationView>),
}

impl View for TypeBody {
    type V = TypeBodyView;

    open spec fn view(&self) -> TypeBodyView {
        match self {
            TypeBody::Struct(fields) => TypeBodyView::Struct(fields.deep_view()),
            TypeBody::TaggedUnion(variants) => TypeBodyView::TaggedUnion(variants.deep_view()),
        }
    }
}

/// A type as declared: its name, the annotations on the type itself, and
/// its body.
#[derive(Debug, Clone, PartialEq, Eq)]
pub struct TypeDeclaration {
    pub name: String,
    pub annotations: Vec<Annotation>,
    pub body: TypeBody,
}

/// The mathematical value of a [`TypeDeclaration`].
pub struct TypeDeclarationView {
    pub name: Seq<char>,
    pub annotations: Seq<AnnotationView>,
    pub body: TypeBodyView,
}

impl View for TypeDeclaration {
    type V = TypeDeclarationView;

    open spec fn view(&self) -> TypeDeclarationView {
        TypeDeclarationView {
            name: self.name@,
            annotations: self.annotations.deep_view(),
            body: self.body@,
        }
    }
}

/// The name of the annotation that pads a field.
pub open spec fn field_padding_key() -> Seq<char> {
    "padding"@
}

/// The name of the annotation that pads before the discriminant.
pub open spec fn pre_disc_padding_key() -> Seq<char> {
    "pre_disc_padding"@
}

/// The name of the annotation that pads after the discriminant.
pub open spec fn post_disc_padding_key() -> Seq<char> {
    "post_disc_padding"@
}

/// The name of the annotation that pads the end of a type.
pub open spec fn trailing_padding_key() -> Seq<char> {
    "trailing_padding"@
}

/// The padding annotated after a field.
pub fn get_field_padding(input: &FieldDeclaration) -> (r: Result<Option<usize>, ResolveError>)
    ensures
        r == padding_lookup(input@.annotations, field_padding_key()),
{
    get_padding(&input.annotations, "padding")
}

/// The padding annotated before the discriminant.
pub fn get_pre_disc_padding(input: &TypeDeclaration) -> (r: Result<Option<usize>, ResolveError>)
    ensures
        r == padding_lookup(input@.annotations, pre_disc_padding_key()),
{
    get_padding(&input.annotations, "pre_disc_padding")
}

/// The padding annotated after the discriminant.
pub fn get_post_disc_padding(input: &TypeDeclaration) -> (r: Result<Option<usize>, ResolveError>)
    ensures
        r == padding_lookup(input@.annotations, post_disc_padding_key()),
{
    get_padding(&input.annotations, "post_disc_padding")
}

/// The padding annotated at the end of the type.
pub fn get_trailing_padding(input: &TypeDeclaration) -> (r: Result<Option<usize>, ResolveError>)
    ensures
        r == padding_lookup(input@.annotations, trailing_padding_key()),
{
    get_padding(&input.annotations, "trailing_padding")
}

} // verus!
