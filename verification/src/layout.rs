//! Resolved layouts, and the resolution of a declaration into one.

use crate::annotation::padding_lookup;
use crate::declaration::{
    field_padding_key, get_field_padding, get_post_disc_padding, get_pre_disc_padding,
    get_trailing_padding, post_disc_padding_key, pre_disc_padding_key, trailing_padding_key,
    FieldDeclaration, FieldDeclarationView, TypeBody, TypeBodyView, TypeDeclaration,
    TypeDeclarationView, VariantDeclaration, VariantDeclarationView,
};
use crate::directive::{discriminant_type_of, get_enum_type};
use crate::error::ResolveError;
use crate::primitive::{type_named, IntType};
use vstd::prelude::*;

verus! {

/// A field with the number of filler bytes that follow it.
#[derive(Debug, Clone, PartialEq, Eq)]
pub struct FieldLayout {
    pub name: String,
    pub ty: IntType,
    pub padding: usize,
}

/// The mathematical value of a [`FieldLayout`].
pub struct FieldLayoutView {
    pub name: Seq<char>,
    pub ty: IntType,
    pub padding: usize,
}

impl View for FieldLayout {
    type V = FieldLayoutView;

    open spec fn view(&self) -> FieldLayoutView {
        FieldLayoutView { name: self.name@, ty: self.ty, padding: self.padding }
    }
}

impl DeepView for FieldLayout {
    type V = FieldLayoutView;

    open spec fn deep_view(&self) -> FieldLayoutView {
        self@
    }
}

/// A variant of a tagged union with its tag and the layout of its fields.
#[derive(Debug, Clone, PartialEq, Eq)]
pub struct VariantLayout {
    pub name: String,
    pub tag: i128,
    pub fields: Vec<FieldLayout>,
}

/// The mathematical value of a [`VariantLayout`].
pub struct VariantLayoutView {
    pub name: Seq<char>,
    pub tag: int,
    pub fields: Seq<FieldLayoutView>,
}

impl View for VariantLayout {
    type V = VariantLayoutView;

    open spec fn view(&self) -> VariantLayoutView {
        VariantLayoutView {
            name: self.name@,
            tag: self.tag as int,
            fields: self.fields.deep_view(),
        }
    }
}

impl DeepView for VariantLayout {
    type V = VariantLayoutView;

    open spec fn deep_view(&self) -> VariantLayoutView {
        self@
    }
}

/// The integer type in which the tag of a tagged union is written.
#[derive(Debug, Clone, Copy, PartialEq, Eq, Structural)]
pub struct DiscriminantSpec {
    pub ty: IntType,
}

/// The resolved layout of one type.
#[derive(Debug, Clone, PartialEq, Eq)]
pub enum TypeLayout {
    /// A struct: its fields in declaration order, then the trailing padding.
    Struct { fields: Vec<FieldLayout>, trailing_padding: usize },
    /// A tagged union: padding, the discriminant, padding, the fields of the
    /// variant that the discriminant announces, then the trailing padding.
    TaggedUnion {
        discriminant: DiscriminantSpec,
        pre_disc_padding: usize,
        post_disc_padding: usize,
        variants: Vec<VariantLayout>,
        trailing_padding: usize,
    },
}

/// The mathematical value of a [`TypeLayout`].
pub enum TypeLayoutView {
    Struct { fields: Seq<FieldLayoutView>, trailing_padding: usize },
    TaggedUnion {
        discriminant: DiscriminantSpec,
        pre_disc_padding: usize,
        post_disc_padding: usize,
        variants: Seq<VariantLayoutView>,
        trailing_padding: usize,
    },
}

impl View for TypeLayout {
    type V = TypeLayoutView;

    open spec fn view(&self) -> TypeLayoutView {
        match self {
            TypeLayout::Struct { fields, trailing_padding } => TypeLayoutView::Struct {
                fields: fields.deep_view(),
                trailing_padding: *trailing_padding,
            },
            TypeLayout::TaggedUnion {
                discriminant,
                pre_disc_padding,
                post_disc_padding,
                variants,
                trailing_padding,
            } => TypeLayoutView::TaggedUnion {
                discriminant: *discriminant,
                pre_disc_padding: *pre_disc_padding,
                post_disc_padding: *post_disc_padding,
                variants: variants.deep_view(),
                trailing_padding: *trailing_padding,
            },
        }
    }
}

/// Every tag among `tags` is a value of `ty`.
pub open spec fn tags_fit(ty: IntType, tags: Seq<int>) -> bool {
    forall|i: int| 0 <= i < tags.len() ==> ty.admits(#[trigger] tags[i])
}

/// No tag occurs twice among `tags`.
pub open spec fn tags_distinct(tags: Seq<int>) -> bool {
    forall|i: int, j: int| 0 <= i < j < tags.len() ==> #[trigger] tags[i] != #[trigger] tags[j]
}

/// The tags of the variants of a layout, in declaration order.
pub open spec fn layout_tags(variants: Seq<VariantLayoutView>) -> Seq<int> {
    Seq::new(variants.len(), |i: int| variants[i].tag)
}

impl TypeLayoutView {
    /// The layout can be decoded without ambiguity: in a tagged union every
    /// tag is a value of the discriminant type, and no two variants share a
    /// tag.
    pub open spec fn wf(self) -> bool {
        match self {
            TypeLayoutView::Struct { .. } => true,
            TypeLayoutView::TaggedUnion { discriminant, variants, .. } => {
                &&& tags_fit(discriminant.ty, layout_tags(variants))
                &&& tags_distinct(layout_tags(variants))
            },
        }
    }
}

/// The count that a lookup gives: zero where nothing is annotated.
pub open spec fn count_or_zero(found: Result<Option<usize>, ResolveError>) -> Result<
    usize,
    ResolveError,
> {
    match found {
        Ok(Some(count)) => Ok(count),
        Ok(None) => Ok(0),
        Err(fault) => Err(fault),
    }
}

/// The padding after a field as its annotations give it.
pub open spec fn field_padding(field: FieldDeclarationView) -> Result<usize, ResolveError> {
    count_or_zero(padding_lookup(field.annotations, field_padding_key()))
}

/// The padding of every field can be resolved.
pub open spec fn fields_resolve(fields: Seq<FieldDeclarationView>) -> bool {
    forall|i: int| 0 <= i < fields.len() ==> (#[trigger] field_padding(fields[i])) is Ok
}

/// The layout of a field whose padding can be resolved.
pub open spec fn resolved_field(field: FieldDeclarationView) -> FieldLayoutView {
    FieldLayoutView { name: field.name, ty: field.ty, padding: field_padding(field)->Ok_0 }
}

/// The layouts of fields, in declaration order.
pub open spec fn resolved_fields(fields: Seq<FieldDeclarationView>) -> Seq<FieldLayoutView> {
    Seq::new(fields.len(), |i: int| resolved_field(fields[i]))
}

/// The padding of every field of every variant can be resolved.
pub open spec fn variants_resolve(variants: Seq<VariantDeclarationView>) -> bool {
    forall|i: int| 0 <= i < variants.len() ==> fields_resolve(#[trigger] variants[i].fields)
}

/// The tag of the variant at `i`: the declared one; where none is declared,
/// one more than the tag of the variant before it, and 0 for the first
/// variant.
pub open spec fn assigned_tag(variants: Seq<VariantDeclarationView>, i: int) -> int
    decreases i,
{
    if i < 0 || i >= variants.len() {
        0
    } else {
        match variants[i].tag {
            Some(tag) => tag,
            None => if i == 0 {
                0
            } else {
                assigned_tag(variants, i - 1) + 1
            },
        }
    }
}

/// The layout of the variant at `i`, whose fields can be resolved.
pub open spec fn resolved_variant(
    variants: Seq<VariantDeclarationView>,
    i: int,
) -> VariantLayoutView {
    VariantLayoutView {
        name: variants[i].name,
        tag: assigned_tag(variants, i),
        fields: resolved_fields(variants[i].fields),
    }
}

/// The layouts of variants, in declaration order.
pub open spec fn resolved_variants(variants: Seq<VariantDeclarationView>) -> Seq<
    VariantLayoutView,
> {
    Seq::new(variants.len(), |i: int| resolved_variant(variants, i))
}

/// The tags of declared variants, in declaration order.
pub open spec fn declared_tags(variants: Seq<VariantDeclarationView>) -> Seq<int> {
    Seq::new(variants.len(), |i: int| assigned_tag(variants, i))
}

/// Every tag can be held in the 128 bits in which a layout keeps it.
pub open spec fn tags_representable(variants: Seq<VariantDeclarationView>) -> bool {
    forall|i: int| 0 <= i < variants.len() ==> #[trigger] assigned_tag(variants, i) <= i128::MAX
}

/// The discriminant type that the annotations of a type give: the one type
/// that its layout directives name, which must be an integer type of fixed
/// width.
pub open spec fn discriminant_of(attrs: Seq<crate::annotation::AnnotationView>) -> Result<
    DiscriminantSpec,
    ResolveError,
> {
    match discriminant_type_of(attrs) {
        Err(fault) => Err(fault),
        Ok(name) => match type_named(name) {
            Some(ty) => Ok(DiscriminantSpec { ty }),
            None => Err(ResolveError::UnsupportedDiscriminantType),
        },
    }
}

/// The layout that a declaration resolves into, or why it has none.
///
/// For a struct only padding can fail.  For a tagged union the discriminant
/// type is settled first; then all padding; then the tags, declared or
/// counted on from the variant before, must be values of the discriminant
/// type; then they must differ from each other.
pub open spec fn resolve(decl: TypeDeclarationView) -> Result<TypeLayoutView, ResolveError> {
    let trailing = count_or_zero(padding_lookup(decl.annotations, trailing_padding_key()));
    match decl.body {
        TypeBodyView::Struct(fields) => if !fields_resolve(fields) || trailing is Err {
            Err(ResolveError::MalformedPadding)
        } else {
            Ok(
                TypeLayoutView::Struct {
                    fields: resolved_fields(fields),
                    trailing_padding: trailing->Ok_0,
                },
            )
        },
        TypeBodyView::TaggedUnion(variants) => {
            let pre = count_or_zero(padding_lookup(decl.annotations, pre_disc_padding_key()));
            let post = count_or_zero(padding_lookup(decl.annotations, post_disc_padding_key()));
            match discriminant_of(decl.annotations) {
                Err(fault) => Err(fault),
                Ok(discriminant) => if pre is Err || post is Err || trailing is Err
                    || !variants_resolve(variants) {
                    Err(ResolveError::MalformedPadding)
                } else if !tags_fit(discriminant.ty, declared_tags(variants)) {
                    Err(ResolveError::VariantTagOutOfRange)
                } else if !tags_distinct(declared_tags(variants)) {
                    Err(ResolveError::DuplicateVariantTag)
                } else {
                    Ok(
                        TypeLayoutView::TaggedUnion {
                            discriminant,
                            pre_disc_padding: pre->Ok_0,
                            post_disc_padding: post->Ok_0,
                            variants: resolved_variants(variants),
                            trailing_padding: trailing->Ok_0,
                        },
                    )
                },
            }
        },
    }
}

/// Gives the count that a lookup found, and zero where it found nothing.
pub fn padding_count(found: Result<Option<usize>, ResolveError>) -> (r: Result<
    usize,
    ResolveError,
>)
    ensures
        r == count_or_zero(found),
{
    match found {
        Ok(Some(count)) => Ok(count),
        Ok(None) => Ok(0),
        Err(fault) => Err(fault),
    }
}

/// Resolves the layout of each field, in declaration order.
pub fn resolve_fields(fields: &Vec<FieldDeclaration>) -> (r: Result<Vec<FieldLayout>, ResolveError>)
    ensures
        match r {
            Ok(layouts) => fields_resolve(fields.deep_view()) && layouts.deep_view()
                == resolved_fields(fields.deep_view()),
            Err(fault) => !fields_resolve(fields.deep_view()) && fault
                == ResolveError::MalformedPadding,
        },
{
    let ghost views = fields.deep_view();
    let mut layouts: Vec<FieldLayout> = Vec::new();
    let mut i: usize = 0;
    while i < fields.len()
        invariant
            i <= fields.len(),
            views == fields.deep_view(),
            layouts@.len() == i,
            forall|j: int| 0 <= j < i ==> (#[trigger] field_padding(views[j])) is Ok,
            forall|j: int| 0 <= j < i ==> (#[trigger] layouts@[j])@ == resolved_field(views[j]),
        decreases fields.len() - i,
    {
        let field = &fields[i];
        proof {
            assert(views[i as int] == field@);
        }
        match padding_count(get_field_padding(field)) {
            Ok(padding) => {
                layouts.push(FieldLayout { name: field.name.clone(), ty: field.ty, padding });
            },
            Err(_) => {
                proof {
                    assert(!(field_padding(views[i as int]) is Ok));
                }
                return Err(ResolveError::MalformedPadding);
            },
        }
        i += 1;
    }
    proof {
        assert(layouts.deep_view() =~= resolved_fields(views));
    }
    Ok(layouts)
}

/// Resolves the layout of each variant, in declaration order, and gives
/// each variant its tag.
///
/// Padding is looked at first, in every variant.  A tag that 128 bits
/// cannot hold is no value of any discriminant type.
pub fn resolve_variants(variants: &Vec<VariantDeclaration>) -> (r: Result<
    Vec<VariantLayout>,
    ResolveError,
>)
    ensures
        match r {
            Ok(layouts) => {
                &&& variants_resolve(variants.deep_view())
                &&& tags_representable(variants.deep_view())
                &&& layouts.deep_view() == resolved_variants(variants.deep_view())
            },
            Err(fault) => if variants_resolve(variants.deep_view()) {
                !tags_representable(variants.deep_view()) && fault
                    == ResolveError::VariantTagOutOfRange
            } else {
                fault == ResolveError::MalformedPadding
            },
        },
{
    let ghost views = variants.deep_view();
    let mut layouts: Vec<VariantLayout> = Vec::new();
    let mut next: Option<i128> = Some(0);
    let mut representable = true;
    let mut i: usize = 0;
    while i < variants.len()
        invariant
            i <= variants.len(),
            views == variants.deep_view(),
            layouts@.len() == i,
            forall|j: int| 0 <= j < i ==> fields_resolve(#[trigger] views[j].fields),
            representable ==> forall|j: int|
                0 <= j < i ==> (#[trigger] layouts@[j])@ == resolved_variant(views, j),
            representable ==> forall|j: int|
                0 <= j < i ==> #[trigger] assigned_tag(views, j) <= i128::MAX,
            !representable ==> exists|j: int|
                0 <= j < i && #[trigger] assigned_tag(views, j) > i128::MAX,
            i == 0 ==> next == Some(0i128),
            i > 0 ==> match next {
                Some(tag) => tag == assigned_tag(views, i - 1) + 1,
                None => assigned_tag(views, i - 1) + 1 > i128::MAX,
            },
        decreases variants.len() - i,
    {
        let variant = &variants[i];
        proof {
            assert(views[i as int] == variant@);
        }
        let fields = match resolve_fields(&variant.fields) {
            Ok(fields) => fields,
            Err(fault) => {
                proof {
                    assert(!fields_resolve(views[i as int].fields));
                }
                return Err(fault);
            },
        };
        let assigned = match variant.tag {
            Some(tag) => Some(tag),
            None => next,
        };
        let tag = match assigned {
            Some(tag) => tag,
            None => {
                representable = false;
                0
            },
        };
        proof {
            match assigned {
                Some(_) => {
                    assert(assigned_tag(views, i as int) == tag);
                },
                None => {
                    assert(assigned_tag(views, i as int) > i128::MAX);
                },
            }
        }
        next = match assigned {
            Some(tag) => tag.checked_add(1),
            None => None,
        };
        layouts.push(VariantLayout { name: variant.name.clone(), tag, fields });
        i += 1;
    }
    if !representable {
        return Err(ResolveError::VariantTagOutOfRange);
    }
    proof {
        assert(layouts.deep_view() =~= resolved_variants(views));
    }
    Ok(layouts)
}

/// Tells whether every tag is a value of `ty`.
pub fn check_tags_fit(ty: IntType, variants: &Vec<VariantLayout>) -> (r: bool)
    ensures
        r == tags_fit(ty, layout_tags(variants.deep_view())),
{
    let ghost tags = layout_tags(variants.deep_view());
    let mut i: usize = 0;
    while i < variants.len()
        invariant
            i <= variants.len(),
            tags == layout_tags(variants.deep_view()),
            forall|j: int| 0 <= j < i ==> ty.admits(#[trigger] tags[j]),
        decreases variants.len() - i,
    {
        if !ty.holds(variants[i].tag) {
            proof {
                assert(tags[i as int] == variants[i as int].tag);
            }
            return false;
        }
        proof {
            assert(tags[i as int] == variants[i as int].tag);
        }
        i += 1;
    }
    true
}

/// Tells whether the tags differ from each other.
pub fn check_tags_distinct(variants: &Vec<VariantLayout>) -> (r: bool)
    ensures
        r == tags_distinct(layout_tags(variants.deep_view())),
{
    let ghost tags = layout_tags(variants.deep_view());
    let mut j: usize = 0;
    while j < variants.len()
        invariant
            j <= variants.len(),
            tags == layout_tags(variants.deep_view()),
            forall|a: int, b: int| 0 <= a < b < j ==> #[trigger] tags[a] != #[trigger] tags[b],
        decreases variants.len() - j,
    {
        let mut i: usize = 0;
        while i < j
            invariant
                i <= j < variants.len(),
                tags == layout_tags(variants.deep_view()),
                forall|a: int| 0 <= a < i ==> #[trigger] tags[a] != tags[j as int],
            decreases j - i,
        {
            proof {
                assert(tags[i as int] == variants[i as int].tag);
                assert(tags[j as int] == variants[j as int].tag);
            }
            if variants[i].tag == variants[j].tag {
                return false;
            }
            i += 1;
        }
        j += 1;
    }
    true
}

/// Settles the discriminant type of a tagged union.
pub fn resolve_discriminant(input: &TypeDeclaration) -> (r: Result<DiscriminantSpec, ResolveError>)
    ensures
        r == discriminant_of(input@.annotations),
{
    match get_enum_type(input) {
        Err(fault) => Err(fault),
        Ok(name) => match IntType::from_name(name.as_str()) {
            Some(ty) => Ok(DiscriminantSpec { ty }),
            None => Err(ResolveError::UnsupportedDiscriminantType),
        },
    }
}

/// Resolves a declaration into its layout.
pub fn resolve_layout(input: &TypeDeclaration) -> (r: Result<TypeLayout, ResolveError>)
    ensures
        match r {
            Ok(layout) => resolve(input@) == Ok::<TypeLayoutView, ResolveError>(layout@)
                && layout@.wf(),
            Err(fault) => resolve(input@) == Err::<TypeLayoutView, ResolveError>(fault),
        },
{
    match &input.body {
        TypeBody::Struct(fields) => {
            let fields = match resolve_fields(fields) {
                Ok(fields) => fields,
                Err(fault) => {
                    return Err(fault);
                },
            };
            let trailing_padding = match padding_count(get_trailing_padding(input)) {
                Ok(count) => count,
                Err(fault) => {
                    return Err(fault);
                },
            };
            Ok(TypeLayout::Struct { fields, trailing_padding })
        },
        TypeBody::TaggedUnion(variants) => {
            let discriminant = match resolve_discriminant(input) {
                Ok(discriminant) => discriminant,
                Err(fault) => {
                    return Err(fault);
                },
            };
            let pre_disc_padding = match padding_count(get_pre_disc_padding(input)) {
                Ok(count) => count,
                Err(fault) => {
                    return Err(fault);
                },
            };
            let post_disc_padding = match padding_count(get_post_disc_padding(input)) {
                Ok(count) => count,
                Err(fault) => {
                    return Err(fault);
                },
            };
            let trailing_padding = match padding_count(get_trailing_padding(input)) {
                Ok(count) => count,
                Err(fault) => {
                    return Err(fault);
                },
            };
            let resolved = match resolve_variants(variants) {
                Ok(resolved) => resolved,
                Err(fault) => {
                    proof {
                        let declared = variants.deep_view();
                        if variants_resolve(declared) {
                            let i = choose|i: int|
                                0 <= i < declared.len() && #[trigger] assigned_tag(declared, i)
                                    > i128::MAX;
                            assert(declared_tags(declared)[i] == assigned_tag(declared, i));
                            assert(!tags_fit(discriminant.ty, declared_tags(declared)));
                        }
                    }
                    return Err(fault);
                },
            };
            proof {
                assert(layout_tags(resolved.deep_view()) =~= declared_tags(variants.deep_view()));
            }
            if !check_tags_fit(discriminant.ty, &resolved) {
                return Err(ResolveError::VariantTagOutOfRange);
            }
            if !check_tags_distinct(&resolved) {
                return Err(ResolveError::DuplicateVariantTag);
            }
            Ok(
                TypeLayout::TaggedUnion {
                    discriminant,
                    pre_disc_padding,
                    post_disc_padding,
                    variants: resolved,
                    trailing_padding,
                },
            )
        },
    }
}

} // verus!
