//! The plan of a layout: the ordered steps that an encoder writes and a
//! decoder reads.

use crate::layout::{FieldLayout, FieldLayoutView, TypeLayout, TypeLayoutView};
use crate::primitive::IntType;
use vstd::prelude::*;

verus! {

/// One step of a plan.
#[derive(Debug, Clone, Copy, PartialEq, Eq, Structural)]
pub enum Step {
    /// That many filler bytes.
    Padding { count: usize },
    /// The tag of the active variant, as a value of this type.
    Discriminant { ty: IntType },
    /// The field at this position among the fields, as a value of this type.
    Field { index: usize, ty: IntType },
}

impl TypeLayoutView {
    /// The number of variants; a struct counts as one.
    pub open spec fn variant_count(self) -> nat {
        match self {
            TypeLayoutView::Struct { .. } => 1,
            TypeLayoutView::TaggedUnion { variants, .. } => variants.len(),
        }
    }

    /// The fields of the variant at `variant`; those of a struct at 0.
    pub open spec fn fields_of(self, variant: int) -> Seq<FieldLayoutView> {
        match self {
            TypeLayoutView::Struct { fields, .. } => fields,
            TypeLayoutView::TaggedUnion { variants, .. } => variants[variant].fields,
        }
    }

    /// The padding at the end of the type.
    pub open spec fn trailing(self) -> usize {
        match self {
            TypeLayoutView::Struct { trailing_padding, .. } => trailing_padding,
            TypeLayoutView::TaggedUnion { trailing_padding, .. } => trailing_padding,
        }
    }
}

/// The step that stands for `count` filler bytes: none where `count` is 0.
pub open spec fn padding_steps(count: usize) -> Seq<Step> {
    if count == 0 {
        Seq::empty()
    } else {
        seq![Step::Padding { count }]
    }
}

/// The steps of one field: the field, then its padding.
pub open spec fn one_field_steps(index: int, field: FieldLayoutView) -> Seq<Step> {
    seq![Step::Field { index: index as usize, ty: field.ty }] + padding_steps(field.padding)
}

/// The steps of fields in declaration order, each followed by its padding.
pub open spec fn field_steps(fields: Seq<FieldLayoutView>) -> Seq<Step>
    decreases fields.len(),
{
    if fields.len() == 0 {
        Seq::empty()
    } else {
        field_steps(fields.drop_last()) + one_field_steps(fields.len() - 1, fields.last())
    }
}

/// The steps up to and including the discriminant.  A struct has none.
pub open spec fn header_steps(layout: TypeLayoutView) -> Seq<Step> {
    match layout {
        TypeLayoutView::Struct { .. } => Seq::empty(),
        TypeLayoutView::TaggedUnion { discriminant, pre_disc_padding, .. } => padding_steps(
            pre_disc_padding,
        ) + seq![Step::Discriminant { ty: discriminant.ty }],
    }
}

/// The steps after the discriminant for the variant at `variant`.
pub open spec fn body_steps(layout: TypeLayoutView, variant: int) -> Seq<Step> {
    match layout {
        TypeLayoutView::Struct { fields, trailing_padding } => field_steps(fields)
            + padding_steps(trailing_padding),
        TypeLayoutView::TaggedUnion { post_disc_padding, variants, trailing_padding, .. } =>
            padding_steps(post_disc_padding) + field_steps(variants[variant].fields)
                + padding_steps(trailing_padding),
    }
}

/// The whole plan for the variant at `variant`.
pub open spec fn plan_of(layout: TypeLayoutView, variant: int) -> Seq<Step> {
    header_steps(layout) + body_steps(layout, variant)
}

fn push_padding(steps: &mut Vec<Step>, count: usize)
    ensures
        final(steps)@ == old(steps)@ + padding_steps(count),
{
    if count != 0 {
        steps.push(Step::Padding { count });
        proof {
            assert(steps@ == old(steps)@ + padding_steps(count));
        }
    } else {
        proof {
            assert(steps@ == old(steps)@ + padding_steps(count));
        }
    }
}

fn push_fields(steps: &mut Vec<Step>, fields: &Vec<FieldLayout>)
    ensures
        final(steps)@ == old(steps)@ + field_steps(fields.deep_view()),
{
    let ghost start = steps@;
    let ghost views = fields.deep_view();
    let mut i: usize = 0;
    proof {
        assert(steps@ == start + field_steps(views.take(0)));
    }
    while i < fields.len()
        invariant
            i <= fields.len(),
            views == fields.deep_view(),
            steps@ == start + field_steps(views.take(i as int)),
        decreases fields.len() - i,
    {
        let ghost before = steps@;
        steps.push(Step::Field { index: i, ty: fields[i].ty });
        push_padding(steps, fields[i].padding);
        proof {
            let next = views.take(i as int + 1);
            assert(next.drop_last() == views.take(i as int));
            assert(next.last() == fields[i as int]@);
            assert(steps@ == before + one_field_steps(i as int, next.last()));
            assert(steps@ == start + field_steps(next));
        }
        i += 1;
    }
    proof {
        assert(views.take(i as int) == views);
    }
}

impl TypeLayout {
    /// The number of variants; a struct counts as one.
    pub fn variant_count(&self) -> (n: usize)
        ensures
            n == self@.variant_count(),
    {
        match self {
            TypeLayout::Struct { .. } => 1,
            TypeLayout::TaggedUnion { variants, .. } => variants.len(),
        }
    }

    /// The plan for the variant at `variant` (for a struct: at 0), and
    /// `None` where there is no such variant.
    pub fn plan(&self, variant: usize) -> (r: Option<Vec<Step>>)
        ensures
            variant < self@.variant_count() ==> r is Some && r->0@ == plan_of(
                self@,
                variant as int,
            ),
            variant >= self@.variant_count() ==> r is None,
    {
        let mut steps: Vec<Step> = Vec::new();
        match self {
            TypeLayout::Struct { fields, trailing_padding } => {
                if variant != 0 {
                    return None;
                }
                push_fields(&mut steps, fields);
                push_padding(&mut steps, *trailing_padding);
            },
            TypeLayout::TaggedUnion {
                discriminant,
                pre_disc_padding,
                post_disc_padding,
                variants,
                trailing_padding,
            } => {
                if variant >= variants.len() {
                    return None;
                }
                push_padding(&mut steps, *pre_disc_padding);
                steps.push(Step::Discriminant { ty: discriminant.ty });
                push_padding(&mut steps, *post_disc_padding);
                push_fields(&mut steps, &variants[variant].fields);
                push_padding(&mut steps, *trailing_padding);
                proof {
                    assert(variants.deep_view()[variant as int] == variants[variant as int]@);
                }
            },
        }
        proof {
            assert(steps@ =~= plan_of(self@, variant as int));
        }
        Some(steps)
    }
}

} // verus!
