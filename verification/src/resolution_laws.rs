//! What resolution promises about padding and about the discriminant type.

use crate::annotation::{
    is_first_with_key, padding_lookup, AnnotationValueView, AnnotationView,
};
use crate::declaration::{
    field_padding_key, post_disc_padding_key, pre_disc_padding_key, trailing_padding_key,
    FieldDeclarationView, TypeBodyView, TypeDeclaration, TypeDeclarationView,
};
use crate::directive::{
    all_named_types, directive_arguments, directive_fault, directive_names, discriminant_type_of,
    is_first_fault, is_marker_name, layout_directive_key, named_types, DirectiveArgView,
};
use crate::error::ResolveError;
use crate::layout::{
    count_or_zero, declared_tags, field_padding, fields_resolve, layout_tags, resolve,
    resolved_fields, resolved_variant, resolved_variants, FieldLayoutView, TypeLayout,
    TypeLayoutView,
};
use crate::plan::{field_steps, plan_of};
use vstd::prelude::*;

verus! {

/// `key` is one of the four names under which padding is annotated.
pub open spec fn is_padding_key(key: Seq<char>) -> bool {
    ||| key == field_padding_key()
    ||| key == pre_disc_padding_key()
    ||| key == post_disc_padding_key()
    ||| key == trailing_padding_key()
}

/// None of the annotations asks for padding.
pub open spec fn no_padding_annotation(attrs: Seq<AnnotationView>) -> bool {
    forall|i: int| 0 <= i < attrs.len() ==> !is_padding_key((#[trigger] attrs[i]).key)
}

/// No field carries an annotation that asks for padding.
pub open spec fn fields_unannotated(fields: Seq<FieldDeclarationView>) -> bool {
    forall|i: int|
        0 <= i < fields.len() ==> no_padding_annotation((#[trigger] fields[i]).annotations)
}

/// Neither the type nor any of its fields carries an annotation that asks
/// for padding.
pub open spec fn declares_no_padding(decl: TypeDeclarationView) -> bool {
    &&& no_padding_annotation(decl.annotations)
    &&& match decl.body {
        TypeBodyView::Struct(fields) => fields_unannotated(fields),
        TypeBodyView::TaggedUnion(variants) => forall|i: int|
            0 <= i < variants.len() ==> fields_unannotated((#[trigger] variants[i]).fields),
    }
}

/// No field is followed by padding.
pub open spec fn fields_unpadded(fields: Seq<FieldLayoutView>) -> bool {
    forall|i: int| 0 <= i < fields.len() ==> (#[trigger] fields[i]).padding == 0
}

/// Every padding count of the layout is zero.
pub open spec fn has_no_padding(layout: TypeLayoutView) -> bool {
    match layout {
        TypeLayoutView::Struct { fields, trailing_padding } => trailing_padding == 0
            && fields_unpadded(fields),
        TypeLayoutView::TaggedUnion {
            pre_disc_padding,
            post_disc_padding,
            variants,
            trailing_padding,
            ..
        } => {
            &&& pre_disc_padding == 0
            &&& post_disc_padding == 0
            &&& trailing_padding == 0
            &&& forall|i: int|
                0 <= i < variants.len() ==> fields_unpadded((#[trigger] variants[i]).fields)
        },
    }
}

proof fn lemma_unannotated_lookup(attrs: Seq<AnnotationView>, name: Seq<char>)
    requires
        no_padding_annotation(attrs),
        is_padding_key(name),
    ensures
        padding_lookup(attrs, name) == Ok::<Option<usize>, ResolveError>(None),
{
    assert forall|i: int| !is_first_with_key(attrs, name, i) by {
        if 0 <= i < attrs.len() {
            assert(!is_padding_key(attrs[i].key));
        }
    }
}

proof fn lemma_unannotated_fields(fields: Seq<FieldDeclarationView>)
    requires
        fields_unannotated(fields),
    ensures
        fields_resolve(fields),
        fields_unpadded(resolved_fields(fields)),
{
    assert forall|i: int| 0 <= i < fields.len() implies (#[trigger] field_padding(fields[i]))
        == Ok::<usize, ResolveError>(0) by {
        assert(no_padding_annotation(fields[i].annotations));
        lemma_unannotated_lookup(fields[i].annotations, field_padding_key());
    }
    assert forall|i: int| 0 <= i < fields.len() implies (#[trigger] resolved_fields(
        fields,
    )[i]).padding == 0 by {
        assert(field_padding(fields[i]) == Ok::<usize, ResolveError>(0));
    }
}

proof fn lemma_unpadded_field_steps(fields: Seq<FieldLayoutView>)
    requires
        fields_unpadded(fields),
    ensures
        forall|k: int| 0 <= k < field_steps(fields).len() ==> !(field_steps(fields)[k] is Padding),
    decreases fields.len(),
{
    if fields.len() > 0 {
        let init = fields.drop_last();
        assert(fields_unpadded(init)) by {
            assert forall|i: int| 0 <= i < init.len() implies (#[trigger] init[i]).padding == 0 by {
                assert(init[i] == fields[i]);
            }
        }
        lemma_unpadded_field_steps(init);
        assert(fields[fields.len() - 1].padding == 0);
    }
}

/// Where nothing asks for padding, resolution does not fail on padding,
/// every padding count of the layout is zero, and no plan of the layout
/// holds a padding step.
pub proof fn law_no_annotation_no_padding(decl: TypeDeclaration)
    requires
        declares_no_padding(decl@),
    ensures
        resolve(decl@) != Err::<TypeLayoutView, ResolveError>(ResolveError::MalformedPadding),
        resolve(decl@) matches Ok(layout) ==> has_no_padding(layout) && forall|
            variant: int,
            k: int,
        |
            0 <= variant < layout.variant_count() && 0 <= k < plan_of(layout, variant).len()
                ==> !(#[trigger] plan_of(layout, variant)[k] is Padding),
{
    let d = decl@;
    lemma_unannotated_lookup(d.annotations, trailing_padding_key());
    lemma_unannotated_lookup(d.annotations, pre_disc_padding_key());
    lemma_unannotated_lookup(d.annotations, post_disc_padding_key());
    match d.body {
        TypeBodyView::Struct(fields) => {
            lemma_unannotated_fields(fields);
            lemma_unpadded_field_steps(resolved_fields(fields));
        },
        TypeBodyView::TaggedUnion(variants) => {
            assert forall|i: int| 0 <= i < variants.len() implies fields_resolve(
                #[trigger] variants[i].fields,
            ) && fields_unpadded(resolved_fields(variants[i].fields)) by {
                assert(fields_unannotated(variants[i].fields));
                lemma_unannotated_fields(variants[i].fields);
            }
            if resolve(d) is Ok {
                let layout = resolve(d)->Ok_0;
                assert forall|variant: int, k: int|
                    0 <= variant < layout.variant_count() && 0 <= k < plan_of(
                        layout,
                        variant,
                    ).len() implies !(#[trigger] plan_of(layout, variant)[k] is Padding) by {
                    let fields = resolved_fields(variants[variant].fields);
                    assert(resolved_variants(variants)[variant].fields == fields);
                    lemma_unpadded_field_steps(fields);
                }
                assert(has_no_padding(layout)) by {
                    assert forall|i: int| 0 <= i < variants.len() implies fields_unpadded(
                        (#[trigger] resolved_variants(variants)[i]).fields,
                    ) by {
                        assert(fields_unpadded(resolved_fields(variants[i].fields)));
                    }
                }
            }
        },
    }
}

/// The count under a name is the integer of the first annotation with that
/// name, whatever that integer is, zero included.
pub proof fn law_lookup_gives_annotated_count(
    attrs: Seq<AnnotationView>,
    name: Seq<char>,
    i: int,
    count: usize,
)
    requires
        is_first_with_key(attrs, name, i),
        attrs[i].value == AnnotationValueView::Integer(count),
    ensures
        padding_lookup(attrs, name) == Ok::<Option<usize>, ResolveError>(Some(count)),
        count_or_zero(padding_lookup(attrs, name)) == Ok::<usize, ResolveError>(count),
{
    let found = choose|k: int| is_first_with_key(attrs, name, k);
    assert(found == i);
}

/// The declared fields of the variant at `variant`; those of a struct at 0.
pub open spec fn declared_fields(decl: TypeDeclarationView, variant: int) -> Seq<
    FieldDeclarationView,
> {
    match decl.body {
        TypeBodyView::Struct(fields) => fields,
        TypeBodyView::TaggedUnion(variants) => variants[variant].fields,
    }
}

/// The number of declared variants; a struct counts as one.
pub open spec fn declared_variant_count(decl: TypeDeclarationView) -> nat {
    match decl.body {
        TypeBodyView::Struct(_) => 1,
        TypeBodyView::TaggedUnion(variants) => variants.len(),
    }
}

/// In a resolved layout the fields stand in declaration order with their
/// declared types, and a field whose first `padding` annotation holds the
/// integer `count` is followed by exactly `count` filler bytes.
pub proof fn law_field_padding_is_annotated_count(
    decl: TypeDeclaration,
    layout: TypeLayout,
    variant: int,
    field: int,
    i: int,
    count: usize,
)
    requires
        resolve(decl@) == Ok::<TypeLayoutView, ResolveError>(layout@),
        0 <= variant < declared_variant_count(decl@),
        0 <= field < declared_fields(decl@, variant).len(),
        is_first_with_key(
            declared_fields(decl@, variant)[field].annotations,
            field_padding_key(),
            i,
        ),
        declared_fields(decl@, variant)[field].annotations[i].value
            == AnnotationValueView::Integer(count),
    ensures
        layout@.variant_count() == declared_variant_count(decl@),
        layout@.fields_of(variant).len() == declared_fields(decl@, variant).len(),
        layout@.fields_of(variant)[field].name == declared_fields(decl@, variant)[field].name,
        layout@.fields_of(variant)[field].ty == declared_fields(decl@, variant)[field].ty,
        layout@.fields_of(variant)[field].padding == count,
{
    let declared = declared_fields(decl@, variant)[field];
    law_lookup_gives_annotated_count(declared.annotations, field_padding_key(), i, count);
    match decl@.body {
        TypeBodyView::Struct(fields) => {},
        TypeBodyView::TaggedUnion(variants) => {
            assert(resolved_variants(variants)[variant] == resolved_variant(variants, variant));
        },
    }
}

/// In a resolved layout the padding at the end of the type, and in a tagged
/// union the padding before and after the discriminant, is the integer of
/// the first annotation under the name in question.
pub proof fn law_type_padding_is_annotated_count(
    decl: TypeDeclaration,
    layout: TypeLayout,
    name: Seq<char>,
    i: int,
    count: usize,
)
    requires
        resolve(decl@) == Ok::<TypeLayoutView, ResolveError>(layout@),
        is_first_with_key(decl@.annotations, name, i),
        decl@.annotations[i].value == AnnotationValueView::Integer(count),
    ensures
        name == trailing_padding_key() ==> layout@.trailing() == count,
        name == pre_disc_padding_key() ==> (layout@ matches TypeLayoutView::TaggedUnion {
            pre_disc_padding,
            ..
        } ==> pre_disc_padding == count),
        name == post_disc_padding_key() ==> (layout@ matches TypeLayoutView::TaggedUnion {
            post_disc_padding,
            ..
        } ==> post_disc_padding == count),
{
    law_lookup_gives_annotated_count(decl@.annotations, name, i, count);
}

/// The annotation is a layout directive: `repr` with an argument list.
pub open spec fn is_layout_directive(a: AnnotationView) -> bool {
    a.key == layout_directive_key() && a.value is Arguments
}

/// The arguments that `syn` reads in a layout directive.
pub open spec fn arguments_of(a: AnnotationView) -> Option<Seq<DirectiveArgView>> {
    directive_arguments(a.value->Arguments_0)
}

/// The arguments are markers, at least one, and nothing else.
pub open spec fn only_markers(args: Seq<DirectiveArgView>) -> bool {
    &&& args.len() > 0
    &&& forall|j: int|
        0 <= j < args.len() ==> (#[trigger] args[j] matches DirectiveArgView::Name(marker)
            && is_marker_name(marker))
}

/// The arguments are markers but for the one at `k`, which is `name` and is
/// no marker.
pub open spec fn markers_and_one_type(
    args: Seq<DirectiveArgView>,
    k: int,
    name: Seq<char>,
) -> bool {
    &&& 0 <= k < args.len()
    &&& args[k] == DirectiveArgView::Name(name)
    &&& !is_marker_name(name)
    &&& forall|j: int|
        0 <= j < args.len() && j != k ==> (#[trigger] args[j] matches DirectiveArgView::Name(marker)
            && is_marker_name(marker))
}

proof fn lemma_markers_name_nothing(args: Seq<DirectiveArgView>)
    requires
        forall|j: int|
            0 <= j < args.len() ==> (#[trigger] args[j] matches DirectiveArgView::Name(marker)
                && is_marker_name(marker)),
    ensures
        named_types(args) == Seq::<Seq<char>>::empty(),
    decreases args.len(),
{
    if args.len() > 0 {
        let init = args.drop_last();
        assert forall|j: int| 0 <= j < init.len() implies (#[trigger] init[j]
            matches DirectiveArgView::Name(marker) && is_marker_name(marker)) by {
            assert(init[j] == args[j]);
        }
        lemma_markers_name_nothing(init);
        assert(args.last() == args[args.len() - 1]);
    }
}

proof fn lemma_one_type_is_named(args: Seq<DirectiveArgView>, k: int, name: Seq<char>)
    requires
        markers_and_one_type(args, k, name),
    ensures
        named_types(args) == seq![name],
    decreases args.len(),
{
    let init = args.drop_last();
    assert(args.last() == args[args.len() - 1]);
    if k == args.len() - 1 {
        assert forall|j: int| 0 <= j < init.len() implies (#[trigger] init[j]
            matches DirectiveArgView::Name(marker) && is_marker_name(marker)) by {
            assert(init[j] == args[j]);
        }
        lemma_markers_name_nothing(init);
        assert(Seq::<Seq<char>>::empty().push(name) == seq![name]);
    } else {
        assert(markers_and_one_type(init, k, name)) by {
            assert(init[k] == args[k]);
            assert forall|j: int| 0 <= j < init.len() && j != k implies (#[trigger] init[j]
                matches DirectiveArgView::Name(marker) && is_marker_name(marker)) by {
                assert(init[j] == args[j]);
            }
        }
        lemma_one_type_is_named(init, k, name);
    }
}

proof fn lemma_names_of_one_directive(attrs: Seq<AnnotationView>, d: int)
    requires
        forall|i: int| 0 <= i < attrs.len() && i != d ==> directive_names(#[trigger] attrs[i])
            == Seq::<Seq<char>>::empty(),
    ensures
        all_named_types(attrs) == if 0 <= d < attrs.len() {
            directive_names(attrs[d])
        } else {
            Seq::<Seq<char>>::empty()
        },
    decreases attrs.len(),
{
    if attrs.len() > 0 {
        let init = attrs.drop_last();
        assert forall|i: int| 0 <= i < init.len() && i != d implies directive_names(
            #[trigger] init[i],
        ) == Seq::<Seq<char>>::empty() by {
            assert(init[i] == attrs[i]);
        }
        lemma_names_of_one_directive(init, d);
        assert(attrs.last() == attrs[attrs.len() - 1]);
        if 0 <= d < init.len() {
            assert(init[d] == attrs[d]);
            assert(directive_names(attrs[d]) + Seq::<Seq<char>>::empty() == directive_names(
                attrs[d],
            ));
        } else {
            assert(Seq::<Seq<char>>::empty() + directive_names(attrs.last()) == directive_names(
                attrs.last(),
            ));
        }
    }
}

/// Markers and exactly one name that is no marker give that name as the
/// discriminant type, wherever among the markers it stands.  Other layout
/// directives may stand beside the one that holds the name, as long as
/// they hold markers only.
pub proof fn law_one_named_type_is_found(
    attrs: Seq<AnnotationView>,
    d: int,
    k: int,
    name: Seq<char>,
)
    requires
        0 <= d < attrs.len(),
        is_layout_directive(attrs[d]),
        arguments_of(attrs[d]) matches Some(args) && markers_and_one_type(args, k, name),
        forall|i: int|
            0 <= i < attrs.len() && i != d && is_layout_directive(#[trigger] attrs[i]) ==> (
            arguments_of(attrs[i]) matches Some(args) && only_markers(args)),
    ensures
        discriminant_type_of(attrs) == Ok::<Seq<char>, ResolveError>(name),
{
    let args = arguments_of(attrs[d])->0;
    lemma_one_type_is_named(args, k, name);
    assert forall|j: int| 0 <= j < args.len() implies !(#[trigger] args[j] is Path) by {
        if j != k {
            assert(args[j] is Name);
        }
    }
    assert(directive_fault(attrs[d]) is None);
    assert forall|i: int| 0 <= i < attrs.len() && i != d implies directive_names(
        #[trigger] attrs[i],
    ) == Seq::<Seq<char>>::empty() && directive_fault(attrs[i]) is None by {
        if is_layout_directive(attrs[i]) {
            let others = arguments_of(attrs[i])->0;
            lemma_markers_name_nothing(others);
            assert forall|j: int| 0 <= j < others.len() implies !(#[trigger] others[j] is Path) by {
                assert(others[j] is Name);
            }
        }
    }
    lemma_names_of_one_directive(attrs, d);
    assert forall|i: int| !is_first_fault(attrs, i) by {
        if 0 <= i < attrs.len() {
            assert(directive_fault(attrs[i]) is None);
        }
    }
}

/// Where every layout directive holds markers only, and also where there
/// is no layout directive at all, the discriminant type is missing; and a
/// tagged union so annotated does not resolve.
pub proof fn law_only_markers_is_missing(decl: TypeDeclaration)
    requires
        forall|i: int|
            0 <= i < decl@.annotations.len() && is_layout_directive(
                #[trigger] decl@.annotations[i],
            ) ==> (arguments_of(decl@.annotations[i]) matches Some(args) && only_markers(args)),
    ensures
        discriminant_type_of(decl@.annotations) == Err::<Seq<char>, ResolveError>(
            ResolveError::MissingDiscriminantType,
        ),
        decl@.body is TaggedUnion ==> resolve(decl@) == Err::<TypeLayoutView, ResolveError>(
            ResolveError::MissingDiscriminantType,
        ),
{
    let attrs = decl@.annotations;
    assert forall|i: int| 0 <= i < attrs.len() implies directive_names(#[trigger] attrs[i])
        == Seq::<Seq<char>>::empty() && directive_fault(attrs[i]) is None by {
        if is_layout_directive(attrs[i]) {
            let args = arguments_of(attrs[i])->0;
            lemma_markers_name_nothing(args);
            assert forall|j: int| 0 <= j < args.len() implies !(#[trigger] args[j] is Path) by {
                assert(args[j] is Name);
            }
        }
    }
    lemma_names_of_one_directive(attrs, -1);
    assert forall|i: int| !is_first_fault(attrs, i) by {
        if 0 <= i < attrs.len() {
            assert(directive_fault(attrs[i]) is None);
        }
    }
}

/// Every layout that resolution gives is well formed: in a tagged union
/// the tags are values of the discriminant type and differ from each other.
pub proof fn law_resolved_layout_is_well_formed(decl: TypeDeclaration)
    ensures
        resolve(decl@) matches Ok(layout) ==> layout.wf(),
{
    match decl@.body {
        TypeBodyView::Struct(_) => {},
        TypeBodyView::TaggedUnion(variants) => {
            assert(layout_tags(resolved_variants(variants)) =~= declared_tags(variants));
        },
    }
}

} // verus!
