//! Encoding and decoding of values against the plan of a layout.

use crate::error::{DecodeError, EncodeError};
use crate::layout::{
    layout_tags, FieldLayout, FieldLayoutView, TypeLayout, TypeLayoutView, VariantLayout,
};
use crate::plan::{
    body_steps, field_steps, header_steps, one_field_steps, padding_steps, plan_of, Step,
};
use crate::primitive::{bytes_int, int_bytes, read_int, write_int, ByteOrder};
use vstd::prelude::*;

verus! {

/// A value of a laid-out type: the position of its variant (0 for a struct)
/// and its fields in declaration order.
#[derive(Debug, Clone, PartialEq, Eq)]
pub struct Value {
    pub variant: usize,
    pub fields: Vec<i128>,
}

/// The mathematical value of a [`Value`].
pub struct ValueView {
    pub variant: int,
    pub fields: Seq<int>,
}

/// Machine integers as mathematical ones.
pub open spec fn as_ints(values: Seq<i128>) -> Seq<int> {
    Seq::new(values.len(), |i: int| values[i] as int)
}

impl View for Value {
    type V = ValueView;

    open spec fn view(&self) -> ValueView {
        ValueView { variant: self.variant as int, fields: as_ints(self.fields@) }
    }
}

impl TypeLayoutView {
    /// The tag of the variant at `variant`; 0 for a struct, which writes none.
    pub open spec fn tag_of(self, variant: int) -> int {
        match self {
            TypeLayoutView::Struct { .. } => 0,
            TypeLayoutView::TaggedUnion { variants, .. } => variants[variant].tag,
        }
    }

    /// The tag of the variant at `variant` is a value of the discriminant
    /// type.
    pub open spec fn tag_fits(self, variant: int) -> bool {
        match self {
            TypeLayoutView::Struct { .. } => true,
            TypeLayoutView::TaggedUnion { discriminant, variants, .. } => discriminant.ty.admits(
                variants[variant].tag,
            ),
        }
    }
}

/// `count` filler bytes.
pub open spec fn zeros(count: nat) -> Seq<u8> {
    Seq::new(count, |i: int| 0u8)
}

/// The number of bytes that a step covers.
pub open spec fn step_width(step: Step) -> nat {
    match step {
        Step::Padding { count } => count as nat,
        Step::Discriminant { ty } => ty.spec_width(),
        Step::Field { ty, .. } => ty.spec_width(),
    }
}

/// The number of bytes that steps cover together.
pub open spec fn steps_width(steps: Seq<Step>) -> nat
    decreases steps.len(),
{
    if steps.len() == 0 {
        0
    } else {
        steps_width(steps.drop_last()) + step_width(steps.last())
    }
}

/// The bytes that one step writes.
pub open spec fn step_bytes(step: Step, tag: int, fields: Seq<int>, order: ByteOrder) -> Seq<u8> {
    match step {
        Step::Padding { count } => zeros(count as nat),
        Step::Discriminant { ty } => int_bytes(ty, tag, order),
        Step::Field { index, ty } => int_bytes(ty, fields[index as int], order),
    }
}

/// The bytes that steps write, one after the other.
pub open spec fn steps_bytes(steps: Seq<Step>, tag: int, fields: Seq<int>, order: ByteOrder) -> Seq<
    u8,
>
    decreases steps.len(),
{
    if steps.len() == 0 {
        Seq::empty()
    } else {
        steps_bytes(steps.drop_last(), tag, fields, order) + step_bytes(
            steps.last(),
            tag,
            fields,
            order,
        )
    }
}

/// The values that the field steps among `steps` read, in the order of the
/// steps, when the first step starts at `start`.
pub open spec fn read_fields(steps: Seq<Step>, bytes: Seq<u8>, start: int, order: ByteOrder) -> Seq<
    int,
>
    decreases steps.len(),
{
    if steps.len() == 0 {
        Seq::empty()
    } else {
        let before = read_fields(steps.drop_last(), bytes, start, order);
        let at = start + steps_width(steps.drop_last());
        match steps.last() {
            Step::Field { ty, .. } => before.push(
                bytes_int(ty, bytes.subrange(at, at + ty.spec_width()), order),
            ),
            _ => before,
        }
    }
}

/// Every field of `values` is a value of the type of its field.
pub open spec fn fields_fit(fields: Seq<FieldLayoutView>, values: Seq<int>) -> bool {
    forall|i: int| 0 <= i < fields.len() ==> (#[trigger] fields[i]).ty.admits(values[i])
}

/// Why `value` cannot be encoded under `layout`, if it cannot.
pub open spec fn encode_fault(layout: TypeLayoutView, value: ValueView) -> Option<EncodeError> {
    if value.variant >= layout.variant_count() {
        Some(EncodeError::NoSuchVariant)
    } else if value.fields.len() != layout.fields_of(value.variant).len() {
        Some(EncodeError::FieldCountMismatch)
    } else if !layout.tag_fits(value.variant) || !fields_fit(
        layout.fields_of(value.variant),
        value.fields,
    ) {
        Some(EncodeError::ValueOutOfRange)
    } else {
        None
    }
}

/// The bytes of `value` under `layout`: what the steps of its plan write.
pub open spec fn encoding(layout: TypeLayoutView, value: ValueView, order: ByteOrder) -> Seq<u8> {
    steps_bytes(plan_of(layout, value.variant), layout.tag_of(value.variant), value.fields, order)
}

pub(crate) proof fn lemma_steps_width_concat(a: Seq<Step>, b: Seq<Step>)
    ensures
        steps_width(a + b) == steps_width(a) + steps_width(b),
    decreases b.len(),
{
    if b.len() == 0 {
        assert(a + b == a);
    } else {
        assert((a + b).drop_last() == a + b.drop_last());
        lemma_steps_width_concat(a, b.drop_last());
    }
}

pub(crate) proof fn lemma_steps_bytes_concat(
    a: Seq<Step>,
    b: Seq<Step>,
    tag: int,
    fields: Seq<int>,
    order: ByteOrder,
)
    ensures
        steps_bytes(a + b, tag, fields, order) == steps_bytes(a, tag, fields, order) + steps_bytes(
            b,
            tag,
            fields,
            order,
        ),
    decreases b.len(),
{
    if b.len() == 0 {
        assert(a + b == a);
        assert(steps_bytes(a, tag, fields, order) + Seq::<u8>::empty() == steps_bytes(
            a,
            tag,
            fields,
            order,
        ));
    } else {
        assert((a + b).drop_last() == a + b.drop_last());
        lemma_steps_bytes_concat(a, b.drop_last(), tag, fields, order);
        assert(steps_bytes(a + b, tag, fields, order) == steps_bytes(a, tag, fields, order)
            + steps_bytes(b, tag, fields, order));
    }
}

pub(crate) proof fn lemma_read_fields_concat(
    a: Seq<Step>,
    b: Seq<Step>,
    bytes: Seq<u8>,
    start: int,
    order: ByteOrder,
)
    ensures
        read_fields(a + b, bytes, start, order) == read_fields(a, bytes, start, order)
            + read_fields(b, bytes, start + steps_width(a), order),
    decreases b.len(),
{
    if b.len() == 0 {
        assert(a + b == a);
        assert(read_fields(a, bytes, start, order) + Seq::<int>::empty() == read_fields(
            a,
            bytes,
            start,
            order,
        ));
    } else {
        assert((a + b).drop_last() == a + b.drop_last());
        lemma_read_fields_concat(a, b.drop_last(), bytes, start, order);
        lemma_steps_width_concat(a, b.drop_last());
        assert(read_fields(a + b, bytes, start, order) == read_fields(a, bytes, start, order)
            + read_fields(b, bytes, start + steps_width(a), order));
    }
}

pub(crate) proof fn lemma_single_step(
    step: Step,
    tag: int,
    fields: Seq<int>,
    order: ByteOrder,
)
    ensures
        steps_width(seq![step]) == step_width(step),
        steps_bytes(seq![step], tag, fields, order) == step_bytes(step, tag, fields, order),
{
    let one = seq![step];
    assert(one.drop_last() == Seq::<Step>::empty());
    assert(one.last() == step);
    assert(steps_width(Seq::<Step>::empty()) == 0);
    assert(steps_bytes(Seq::<Step>::empty(), tag, fields, order) == Seq::<u8>::empty());
    assert(Seq::<u8>::empty() + step_bytes(step, tag, fields, order) == step_bytes(
        step,
        tag,
        fields,
        order,
    ));
}

pub(crate) proof fn lemma_padding_steps(
    count: usize,
    tag: int,
    fields: Seq<int>,
    order: ByteOrder,
)
    ensures
        steps_width(padding_steps(count)) == count,
        steps_bytes(padding_steps(count), tag, fields, order) == zeros(count as nat),
{
    if count != 0 {
        lemma_single_step(Step::Padding { count }, tag, fields, order);
    } else {
        assert(zeros(0) == Seq::<u8>::empty());
    }
}

pub(crate) proof fn lemma_one_field_steps(
    index: int,
    field: FieldLayoutView,
    tag: int,
    fields: Seq<int>,
    order: ByteOrder,
)
    requires
        0 <= index <= usize::MAX,
    ensures
        steps_width(one_field_steps(index, field)) == field.ty.spec_width() + field.padding,
        steps_bytes(one_field_steps(index, field), tag, fields, order) == int_bytes(
            field.ty,
            fields[index],
            order,
        ) + zeros(field.padding as nat),
{
    let step = Step::Field { index: index as usize, ty: field.ty };
    lemma_single_step(step, tag, fields, order);
    lemma_padding_steps(field.padding, tag, fields, order);
    lemma_steps_width_concat(seq![step], padding_steps(field.padding));
    lemma_steps_bytes_concat(seq![step], padding_steps(field.padding), tag, fields, order);
}

proof fn lemma_field_steps_next(fields: Seq<FieldLayoutView>, i: int)
    requires
        0 <= i < fields.len(),
    ensures
        field_steps(fields.take(i + 1)) == field_steps(fields.take(i)) + one_field_steps(
            i,
            fields[i],
        ),
{
    let next = fields.take(i + 1);
    assert(next.drop_last() == fields.take(i));
    assert(next.last() == fields[i]);
}

fn write_padding(out: &mut Vec<u8>, count: usize)
    ensures
        final(out)@ == old(out)@ + zeros(count as nat),
{
    let ghost start = out@;
    let mut i: usize = 0;
    proof {
        assert(out@ == start + zeros(0));
    }
    while i < count
        invariant
            i <= count,
            out@ == start + zeros(i as nat),
        decreases count - i,
    {
        out.push(0u8);
        proof {
            assert(zeros(i as nat).push(0u8) == zeros((i + 1) as nat));
            assert(out@ == start + zeros((i + 1) as nat));
        }
        i += 1;
    }
}

fn write_fields(
    fields: &Vec<FieldLayout>,
    values: &Vec<i128>,
    order: ByteOrder,
    out: &mut Vec<u8>,
    Ghost(tag): Ghost<int>,
) -> (ok: bool)
    requires
        fields.len() == values.len(),
    ensures
        ok == fields_fit(fields.deep_view(), as_ints(values@)),
        ok ==> final(out)@ == old(out)@ + steps_bytes(
            field_steps(fields.deep_view()),
            tag,
            as_ints(values@),
            order,
        ),
{
    let ghost start = out@;
    let ghost views = fields.deep_view();
    let ghost ints = as_ints(values@);
    let mut i: usize = 0;
    proof {
        assert(out@ == start + steps_bytes(field_steps(views.take(0)), tag, ints, order));
    }
    while i < fields.len()
        invariant
            i <= fields.len() == values.len(),
            views == fields.deep_view(),
            ints == as_ints(values@),
            forall|j: int| 0 <= j < i ==> (#[trigger] views[j]).ty.admits(ints[j]),
            out@ == start + steps_bytes(field_steps(views.take(i as int)), tag, ints, order),
        decreases fields.len() - i,
    {
        let field = &fields[i];
        proof {
            assert(views[i as int] == field@);
            assert(ints[i as int] == values[i as int]);
        }
        if !field.ty.holds(values[i]) {
            return false;
        }
        let ghost before = out@;
        write_int(field.ty, values[i], order, out);
        write_padding(out, field.padding);
        proof {
            lemma_field_steps_next(views, i as int);
            lemma_one_field_steps(i as int, views[i as int], tag, ints, order);
            lemma_steps_bytes_concat(
                field_steps(views.take(i as int)),
                one_field_steps(i as int, views[i as int]),
                tag,
                ints,
                order,
            );
            assert(out@ == before + (int_bytes(field.ty, ints[i as int], order) + zeros(
                field.padding as nat,
            )));
            assert(out@ == start + steps_bytes(
                field_steps(views.take(i as int + 1)),
                tag,
                ints,
                order,
            ));
        }
        i += 1;
    }
    proof {
        assert(views.take(i as int) == views);
    }
    true
}

/// Encodes `value` under `layout`: the steps of the plan are written in
/// order, integers in `order`, filler bytes as zero.
pub fn encode(layout: &TypeLayout, value: &Value, order: ByteOrder) -> (r: Result<
    Vec<u8>,
    EncodeError,
>)
    ensures
        match r {
            Ok(bytes) => encode_fault(layout@, value@) is None && bytes@ == encoding(
                layout@,
                value@,
                order,
            ),
            Err(fault) => encode_fault(layout@, value@) == Some(fault),
        },
{
    let mut out: Vec<u8> = Vec::new();
    let ghost ints = as_ints(value.fields@);
    match layout {
        TypeLayout::Struct { fields, trailing_padding } => {
            if value.variant != 0 {
                return Err(EncodeError::NoSuchVariant);
            }
            if value.fields.len() != fields.len() {
                return Err(EncodeError::FieldCountMismatch);
            }
            if !write_fields(fields, &value.fields, order, &mut out, Ghost(0)) {
                return Err(EncodeError::ValueOutOfRange);
            }
            write_padding(&mut out, *trailing_padding);
            proof {
                let steps = field_steps(fields.deep_view());
                lemma_padding_steps(*trailing_padding, 0, ints, order);
                lemma_steps_bytes_concat(steps, padding_steps(*trailing_padding), 0, ints, order);
                assert(plan_of(layout@, 0) == steps + padding_steps(*trailing_padding));
            }
            Ok(out)
        },
        TypeLayout::TaggedUnion {
            discriminant,
            pre_disc_padding,
            post_disc_padding,
            variants,
            trailing_padding,
        } => {
            if value.variant >= variants.len() {
                return Err(EncodeError::NoSuchVariant);
            }
            let variant = &variants[value.variant];
            proof {
                assert(variants.deep_view()[value.variant as int] == variant@);
            }
            if value.fields.len() != variant.fields.len() {
                return Err(EncodeError::FieldCountMismatch);
            }
            if !discriminant.ty.holds(variant.tag) {
                return Err(EncodeError::ValueOutOfRange);
            }
            let ghost tag = variant.tag as int;
            write_padding(&mut out, *pre_disc_padding);
            write_int(discriminant.ty, variant.tag, order, &mut out);
            write_padding(&mut out, *post_disc_padding);
            if !write_fields(&variant.fields, &value.fields, order, &mut out, Ghost(tag)) {
                return Err(EncodeError::ValueOutOfRange);
            }
            write_padding(&mut out, *trailing_padding);
            proof {
                let pre = padding_steps(*pre_disc_padding);
                let disc = seq![Step::Discriminant { ty: discriminant.ty }];
                let post = padding_steps(*post_disc_padding);
                let steps = field_steps(variant.fields.deep_view());
                let trail = padding_steps(*trailing_padding);
                lemma_padding_steps(*pre_disc_padding, tag, ints, order);
                lemma_padding_steps(*post_disc_padding, tag, ints, order);
                lemma_padding_steps(*trailing_padding, tag, ints, order);
                lemma_single_step(Step::Discriminant { ty: discriminant.ty }, tag, ints, order);
                lemma_steps_bytes_concat(pre, disc, tag, ints, order);
                lemma_steps_bytes_concat(post, steps, tag, ints, order);
                lemma_steps_bytes_concat(post + steps, trail, tag, ints, order);
                lemma_steps_bytes_concat(pre + disc, post + steps + trail, tag, ints, order);
                assert(plan_of(layout@, value.variant as int) == (pre + disc) + (post + steps
                    + trail));
                assert(out@ == encoding(layout@, value@, order));
            }
            Ok(out)
        },
    }
}

/// `i` is the position of the first tag among `tags` that equals `tag`.
pub open spec fn is_first_with_tag(tags: Seq<int>, tag: int, i: int) -> bool {
    &&& 0 <= i < tags.len()
    &&& tags[i] == tag
    &&& forall|j: int| 0 <= j < i ==> tags[j] != tag
}

/// The position of the first variant whose tag is `tag`.
pub open spec fn variant_with_tag(tags: Seq<int>, tag: int) -> Option<int> {
    if exists|i: int| is_first_with_tag(tags, tag, i) {
        Some(choose|i: int| is_first_with_tag(tags, tag, i))
    } else {
        None
    }
}

/// What reading the steps after the discriminant gives for the variant at
/// `variant`, when they start at `start`.
pub open spec fn decoded_body(
    layout: TypeLayoutView,
    variant: int,
    bytes: Seq<u8>,
    start: nat,
    order: ByteOrder,
) -> Result<(ValueView, nat), DecodeError> {
    let body = body_steps(layout, variant);
    if bytes.len() < start + steps_width(body) {
        Err(DecodeError::UnexpectedEnd)
    } else {
        Ok(
            (
                ValueView { variant, fields: read_fields(body, bytes, start as int, order) },
                start + steps_width(body),
            ),
        )
    }
}

/// The value that `bytes` hold under `layout`, with the number of bytes
/// that it takes up; or why they hold none.
///
/// The steps are read in order.  The tag is looked up as soon as the
/// discriminant is read: where no variant has it, nothing after the
/// discriminant is read.  Filler bytes are passed over, whatever they hold.
pub open spec fn decoding(layout: TypeLayoutView, bytes: Seq<u8>, order: ByteOrder) -> Result<
    (ValueView, nat),
    DecodeError,
> {
    match layout {
        TypeLayoutView::Struct { .. } => decoded_body(layout, 0, bytes, 0, order),
        TypeLayoutView::TaggedUnion { discriminant, pre_disc_padding, variants, .. } => {
            let head = steps_width(header_steps(layout));
            if bytes.len() < head {
                Err(DecodeError::UnexpectedEnd)
            } else {
                let tag = bytes_int(
                    discriminant.ty,
                    bytes.subrange(pre_disc_padding as int, head as int),
                    order,
                );
                match variant_with_tag(layout_tags(variants), tag) {
                    None => Err(DecodeError::UnknownDiscriminantTag),
                    Some(variant) => decoded_body(layout, variant, bytes, head, order),
                }
            }
        },
    }
}

proof fn lemma_read_single_step(step: Step, bytes: Seq<u8>, start: int, order: ByteOrder)
    ensures
        read_fields(seq![step], bytes, start, order) == match step {
            Step::Field { ty, .. } => seq![
                bytes_int(ty, bytes.subrange(start, start + ty.spec_width()), order),
            ],
            _ => Seq::<int>::empty(),
        },
{
    let one = seq![step];
    assert(one.drop_last() == Seq::<Step>::empty());
    assert(one.last() == step);
    assert(steps_width(Seq::<Step>::empty()) == 0);
    assert(read_fields(Seq::<Step>::empty(), bytes, start, order) == Seq::<int>::empty());
    assert(Seq::<int>::empty().push(0int) == seq![0int]);
    match step {
        Step::Field { ty, .. } => {
            let x = bytes_int(ty, bytes.subrange(start, start + ty.spec_width()), order);
            assert(Seq::<int>::empty().push(x) == seq![x]);
        },
        _ => {},
    }
}

pub(crate) proof fn lemma_read_padding_steps(
    count: usize,
    bytes: Seq<u8>,
    start: int,
    order: ByteOrder,
)
    ensures
        read_fields(padding_steps(count), bytes, start, order) == Seq::<int>::empty(),
{
    if count != 0 {
        lemma_read_single_step(Step::Padding { count }, bytes, start, order);
    }
}

pub(crate) proof fn lemma_read_one_field(
    index: int,
    field: FieldLayoutView,
    bytes: Seq<u8>,
    start: int,
    order: ByteOrder,
)
    ensures
        read_fields(one_field_steps(index, field), bytes, start, order) == seq![
            bytes_int(field.ty, bytes.subrange(start, start + field.ty.spec_width()), order),
        ],
{
    let step = Step::Field { index: index as usize, ty: field.ty };
    lemma_read_single_step(step, bytes, start, order);
    lemma_read_padding_steps(field.padding, bytes, start + steps_width(seq![step]), order);
    lemma_read_fields_concat(seq![step], padding_steps(field.padding), bytes, start, order);
    let x = bytes_int(field.ty, bytes.subrange(start, start + field.ty.spec_width()), order);
    assert(seq![x] + Seq::<int>::empty() == seq![x]);
}

proof fn lemma_field_steps_width_grows(fields: Seq<FieldLayoutView>, i: int, j: int)
    requires
        0 <= i <= j <= fields.len(),
    ensures
        steps_width(field_steps(fields.take(i))) <= steps_width(field_steps(fields.take(j))),
    decreases j - i,
{
    if i < j {
        lemma_field_steps_width_grows(fields, i, j - 1);
        lemma_field_steps_next(fields, j - 1);
        lemma_steps_width_concat(
            field_steps(fields.take(j - 1)),
            one_field_steps(j - 1, fields[j - 1]),
        );
    }
}

pub(crate) proof fn lemma_header_width(layout: TypeLayoutView)
    ensures
        steps_width(header_steps(layout)) == match layout {
            TypeLayoutView::Struct { .. } => 0nat,
            TypeLayoutView::TaggedUnion { discriminant, pre_disc_padding, .. } => (pre_disc_padding
                + discriminant.ty.spec_width()) as nat,
        },
{
    match layout {
        TypeLayoutView::Struct { .. } => {},
        TypeLayoutView::TaggedUnion { discriminant, pre_disc_padding, .. } => {
            let disc = Step::Discriminant { ty: discriminant.ty };
            lemma_padding_steps(pre_disc_padding, 0, Seq::empty(), ByteOrder::LittleEndian);
            lemma_single_step(disc, 0, Seq::empty(), ByteOrder::LittleEndian);
            lemma_steps_width_concat(padding_steps(pre_disc_padding), seq![disc]);
        },
    }
}

fn find_variant(variants: &Vec<VariantLayout>, tag: i128) -> (r: Option<usize>)
    ensures
        match r {
            Some(i) => variant_with_tag(layout_tags(variants.deep_view()), tag as int) == Some(
                i as int,
            ) && i < variants.len(),
            None => variant_with_tag(layout_tags(variants.deep_view()), tag as int) is None,
        },
{
    let ghost tags = layout_tags(variants.deep_view());
    let mut i: usize = 0;
    while i < variants.len()
        invariant
            i <= variants.len(),
            tags == layout_tags(variants.deep_view()),
            forall|j: int| 0 <= j < i ==> tags[j] != tag as int,
        decreases variants.len() - i,
    {
        proof {
            assert(tags[i as int] == variants[i as int].tag);
        }
        if variants[i].tag == tag {
            proof {
                assert(is_first_with_tag(tags, tag as int, i as int));
                let w = choose|k: int| is_first_with_tag(tags, tag as int, k);
                assert(w == i);
            }
            return Some(i);
        }
        i += 1;
    }
    None
}

fn skip_padding(len: usize, pos: usize, count: usize) -> (r: Option<usize>)
    requires
        pos <= len,
    ensures
        match r {
            Some(end) => end == pos + count && end <= len,
            None => pos + count > len,
        },
{
    if count > len - pos {
        None
    } else {
        Some(pos + count)
    }
}

fn read_field_values(fields: &Vec<FieldLayout>, bytes: &[u8], pos: usize, order: ByteOrder) -> (r:
    Option<(Vec<i128>, usize)>)
    requires
        pos <= bytes@.len(),
    ensures
        match r {
            Some((values, end)) => {
                &&& end == pos + steps_width(field_steps(fields.deep_view()))
                &&& end <= bytes@.len()
                &&& as_ints(values@) == read_fields(
                    field_steps(fields.deep_view()),
                    bytes@,
                    pos as int,
                    order,
                )
            },
            None => pos + steps_width(field_steps(fields.deep_view())) > bytes@.len(),
        },
{
    let len = bytes.len();
    let ghost views = fields.deep_view();
    let mut values: Vec<i128> = Vec::new();
    let mut at: usize = pos;
    let mut i: usize = 0;
    proof {
        assert(as_ints(values@) == read_fields(
            field_steps(views.take(0)),
            bytes@,
            pos as int,
            order,
        ));
    }
    while i < fields.len()
        invariant
            i <= fields.len(),
            views == fields.deep_view(),
            len == bytes@.len(),
            at == pos + steps_width(field_steps(views.take(i as int))),
            at <= len,
            as_ints(values@) == read_fields(
                field_steps(views.take(i as int)),
                bytes@,
                pos as int,
                order,
            ),
        decreases fields.len() - i,
    {
        let field = &fields[i];
        let width = field.ty.width();
        proof {
            assert(views[i as int] == field@);
            let done = field_steps(views.take(i as int));
            let one = one_field_steps(i as int, views[i as int]);
            lemma_field_steps_next(views, i as int);
            lemma_steps_width_concat(done, one);
            lemma_one_field_steps(i as int, views[i as int], 0, Seq::empty(), order);
            lemma_read_fields_concat(done, one, bytes@, pos as int, order);
            lemma_read_one_field(i as int, views[i as int], bytes@, at as int, order);
            lemma_field_steps_width_grows(views, i as int + 1, views.len() as int);
            assert(views.take(views.len() as int) == views);
        }
        if width > len - at {
            return None;
        }
        let value = read_int(field.ty, bytes, at, order);
        let after = match skip_padding(len, at + width, field.padding) {
            Some(after) => after,
            None => {
                return None;
            },
        };
        let ghost before = values@;
        values.push(value);
        proof {
            assert(as_ints(values@) == as_ints(before).push(value as int));
            assert(as_ints(before) + seq![value as int] == as_ints(before).push(value as int));
        }
        at = after;
        i += 1;
    }
    proof {
        assert(views.take(i as int) == views);
    }
    Some((values, at))
}

fn read_body(
    post_padding: usize,
    fields: &Vec<FieldLayout>,
    trailing_padding: usize,
    bytes: &[u8],
    start: usize,
    order: ByteOrder,
) -> (r: Option<(Vec<i128>, usize)>)
    requires
        start <= bytes@.len(),
    ensures
        ({
            let body = padding_steps(post_padding) + field_steps(fields.deep_view())
                + padding_steps(trailing_padding);
            match r {
                Some((values, end)) => {
                    &&& end == start + steps_width(body)
                    &&& end <= bytes@.len()
                    &&& as_ints(values@) == read_fields(body, bytes@, start as int, order)
                },
                None => start + steps_width(body) > bytes@.len(),
            }
        }),
{
    let len = bytes.len();
    proof {
        let post = padding_steps(post_padding);
        let steps = field_steps(fields.deep_view());
        let trail = padding_steps(trailing_padding);
        lemma_padding_steps(post_padding, 0, Seq::empty(), order);
        lemma_padding_steps(trailing_padding, 0, Seq::empty(), order);
        lemma_steps_width_concat(post, steps);
        lemma_steps_width_concat(post + steps, trail);
        lemma_read_padding_steps(post_padding, bytes@, start as int, order);
        lemma_read_padding_steps(
            trailing_padding,
            bytes@,
            start + steps_width(post + steps),
            order,
        );
        lemma_read_fields_concat(post, steps, bytes@, start as int, order);
        lemma_read_fields_concat(post + steps, trail, bytes@, start as int, order);
        let read = read_fields(steps, bytes@, start + post_padding, order);
        assert(Seq::<int>::empty() + read == read);
        assert(read + Seq::<int>::empty() == read);
    }
    let at = match skip_padding(len, start, post_padding) {
        Some(at) => at,
        None => {
            return None;
        },
    };
    let (values, at) = match read_field_values(fields, bytes, at, order) {
        Some(found) => found,
        None => {
            return None;
        },
    };
    match skip_padding(len, at, trailing_padding) {
        Some(end) => Some((values, end)),
        None => None,
    }
}

/// Decodes the value that stands at the start of `bytes` under `layout`,
/// and tells how many bytes it takes up.
pub fn decode(layout: &TypeLayout, bytes: &[u8], order: ByteOrder) -> (r: Result<
    (Value, usize),
    DecodeError,
>)
    ensures
        match r {
            Ok((value, used)) => decoding(layout@, bytes@, order) == Ok::<
                (ValueView, nat),
                DecodeError,
            >((value@, used as nat)),
            Err(fault) => decoding(layout@, bytes@, order) == Err::<(ValueView, nat), DecodeError>(
                fault,
            ),
        },
{
    let len = bytes.len();
    match layout {
        TypeLayout::Struct { fields, trailing_padding } => {
            proof {
                assert(padding_steps(0) + field_steps(fields.deep_view()) == field_steps(
                    fields.deep_view(),
                ));
            }
            match read_body(0, fields, *trailing_padding, bytes, 0, order) {
                Some((values, end)) => Ok((Value { variant: 0, fields: values }, end)),
                None => Err(DecodeError::UnexpectedEnd),
            }
        },
        TypeLayout::TaggedUnion {
            discriminant,
            pre_disc_padding,
            post_disc_padding,
            variants,
            trailing_padding,
        } => {
            proof {
                lemma_header_width(layout@);
            }
            let at = match skip_padding(len, 0, *pre_disc_padding) {
                Some(at) => at,
                None => {
                    return Err(DecodeError::UnexpectedEnd);
                },
            };
            let width = discriminant.ty.width();
            if width > len - at {
                return Err(DecodeError::UnexpectedEnd);
            }
            let tag = read_int(discriminant.ty, bytes, at, order);
            let variant = match find_variant(variants, tag) {
                Some(variant) => variant,
                None => {
                    return Err(DecodeError::UnknownDiscriminantTag);
                },
            };
            proof {
                assert(variants.deep_view()[variant as int] == variants[variant as int]@);
            }
            match read_body(
                *post_disc_padding,
                &variants[variant].fields,
                *trailing_padding,
                bytes,
                at + width,
                order,
            ) {
                Some((values, end)) => Ok((Value { variant, fields: values }, end)),
                None => Err(DecodeError::UnexpectedEnd),
            }
        },
    }
}

} // verus!
