//! What encoding and decoding owe each other, and where in the bytes the
//! parts of a value stand.

use crate::codec::{
    decoded_body, decoding, encode_fault, encoding, fields_fit, is_first_with_tag,
    lemma_header_width, lemma_one_field_steps, lemma_padding_steps, lemma_read_fields_concat,
    lemma_read_one_field, lemma_read_padding_steps, lemma_single_step, lemma_steps_bytes_concat,
    lemma_steps_width_concat, read_fields, steps_bytes, steps_width, variant_with_tag, zeros,
    Value, ValueView,
};
use crate::error::DecodeError;
use crate::layout::{layout_tags, FieldLayoutView, TypeLayout, TypeLayoutView};
use crate::plan::{
    body_steps, field_steps, header_steps, one_field_steps, padding_steps, plan_of, Step,
};
use crate::primitive::{
    bytes_int, int_bytes, law_int_round_trip, lemma_int_bytes_len, ByteOrder,
};
use vstd::prelude::*;

verus! {

/// The bytes of fields in declaration order: each field in its type, then
/// as many zero bytes as its padding asks for.
pub open spec fn fields_bytes(
    fields: Seq<FieldLayoutView>,
    values: Seq<int>,
    order: ByteOrder,
) -> Seq<u8>
    decreases fields.len(),
{
    if fields.len() == 0 {
        Seq::empty()
    } else {
        let last = fields.last();
        fields_bytes(fields.drop_last(), values, order) + int_bytes(
            last.ty,
            values[fields.len() - 1],
            order,
        ) + zeros(last.padding as nat)
    }
}

proof fn lemma_steps_bytes_len(steps: Seq<Step>, tag: int, fields: Seq<int>, order: ByteOrder)
    ensures
        steps_bytes(steps, tag, fields, order).len() == steps_width(steps),
    decreases steps.len(),
{
    if steps.len() > 0 {
        lemma_steps_bytes_len(steps.drop_last(), tag, fields, order);
        match steps.last() {
            Step::Padding { .. } => {},
            Step::Discriminant { ty } => {
                lemma_int_bytes_len(ty, tag, order);
            },
            Step::Field { index, ty } => {
                lemma_int_bytes_len(ty, fields[index as int], order);
            },
        }
    }
}

/// What the steps of fields write is the bytes of the fields.
proof fn lemma_field_steps_bytes(
    fields: Seq<FieldLayoutView>,
    tag: int,
    values: Seq<int>,
    order: ByteOrder,
)
    requires
        fields.len() <= usize::MAX,
    ensures
        steps_bytes(field_steps(fields), tag, values, order) == fields_bytes(fields, values, order),
    decreases fields.len(),
{
    if fields.len() > 0 {
        let init = fields.drop_last();
        let index = fields.len() - 1;
        lemma_field_steps_bytes(init, tag, values, order);
        lemma_one_field_steps(index, fields.last(), tag, values, order);
        lemma_steps_bytes_concat(
            field_steps(init),
            one_field_steps(index, fields.last()),
            tag,
            values,
            order,
        );
        assert(steps_bytes(field_steps(fields), tag, values, order) =~= fields_bytes(
            fields,
            values,
            order,
        ));
    }
}

/// Field steps read back, out of any surrounding bytes, the values whose
/// bytes they wrote.
proof fn lemma_fields_read_back(
    fields: Seq<FieldLayoutView>,
    tag: int,
    values: Seq<int>,
    order: ByteOrder,
    before: Seq<u8>,
    after: Seq<u8>,
)
    requires
        fields.len() <= values.len(),
        fields.len() <= usize::MAX,
        fields_fit(fields, values),
    ensures
        read_fields(
            field_steps(fields),
            before + steps_bytes(field_steps(fields), tag, values, order) + after,
            before.len() as int,
            order,
        ) == values.take(fields.len() as int),
    decreases fields.len(),
{
    let steps = field_steps(fields);
    let written = steps_bytes(steps, tag, values, order);
    let all = before + written + after;
    if fields.len() == 0 {
        assert(values.take(0) == Seq::<int>::empty());
    } else {
        let init = fields.drop_last();
        let last = fields.last();
        let index = fields.len() - 1;
        let init_steps = field_steps(init);
        let one = one_field_steps(index, last);
        let init_written = steps_bytes(init_steps, tag, values, order);
        let value_bytes = int_bytes(last.ty, values[index], order);
        let filler = zeros(last.padding as nat);
        lemma_one_field_steps(index, last, tag, values, order);
        lemma_steps_bytes_concat(init_steps, one, tag, values, order);
        lemma_steps_bytes_len(init_steps, tag, values, order);
        assert(fields_fit(init, values)) by {
            assert forall|i: int| 0 <= i < init.len() implies (#[trigger] init[i]).ty.admits(
                values[i],
            ) by {
                assert(init[i] == fields[i]);
            }
        }
        lemma_fields_read_back(init, tag, values, order, before, value_bytes + filler + after);
        assert(all =~= before + init_written + (value_bytes + filler + after));
        lemma_read_fields_concat(init_steps, one, all, before.len() as int, order);
        let at = (before.len() + steps_width(init_steps)) as int;
        lemma_read_one_field(index, last, all, at, order);
        assert(last.ty.admits(values[index])) by {
            assert(fields[index] == last);
        }
        law_int_round_trip(last.ty, values[index], order);
        assert(all.subrange(at, at + last.ty.spec_width()) =~= value_bytes);
        assert(values.take(index) + seq![values[index]] =~= values.take(index + 1));
    }
}

/// The bytes of an encodable value, written out: filler before the tag, the
/// tag, filler after it, the fields each with its filler, and the trailing
/// filler.  A struct has only the last two.
pub open spec fn laid_out_bytes(layout: TypeLayoutView, value: ValueView, order: ByteOrder) -> Seq<
    u8,
> {
    let fields = fields_bytes(layout.fields_of(value.variant), value.fields, order);
    match layout {
        TypeLayoutView::Struct { trailing_padding, .. } => fields + zeros(trailing_padding as nat),
        TypeLayoutView::TaggedUnion {
            discriminant,
            pre_disc_padding,
            post_disc_padding,
            trailing_padding,
            ..
        } => zeros(pre_disc_padding as nat) + int_bytes(
            discriminant.ty,
            layout.tag_of(value.variant),
            order,
        ) + zeros(post_disc_padding as nat) + fields + zeros(trailing_padding as nat),
    }
}

/// An encoding holds exactly the annotated number of zero bytes at each
/// place where padding was asked for, and nothing else but the tag and the
/// fields: the encoding is [`laid_out_bytes`].
pub proof fn law_encoding_is_laid_out(layout: TypeLayout, value: Value, order: ByteOrder)
    requires
        value@.variant < layout@.variant_count(),
    ensures
        encoding(layout@, value@, order) == laid_out_bytes(layout@, value@, order),
{
    let l = layout@;
    let v = value@;
    let tag = l.tag_of(v.variant);
    let fields = l.fields_of(v.variant);
    assert(fields.len() <= usize::MAX) by {
        match layout {
            TypeLayout::Struct { fields, .. } => {
                assert(fields.deep_view().len() == fields.len());
            },
            TypeLayout::TaggedUnion { variants, .. } => {
                assert(variants.deep_view()[v.variant] == variants[v.variant]@);
                assert(variants[v.variant].fields.deep_view().len()
                    == variants[v.variant].fields.len());
            },
        }
    }
    lemma_field_steps_bytes(fields, tag, v.fields, order);
    match l {
        TypeLayoutView::Struct { trailing_padding, .. } => {
            lemma_padding_steps(trailing_padding, tag, v.fields, order);
            lemma_steps_bytes_concat(
                field_steps(fields),
                padding_steps(trailing_padding),
                tag,
                v.fields,
                order,
            );
            assert(plan_of(l, v.variant) == field_steps(fields) + padding_steps(trailing_padding));
        },
        TypeLayoutView::TaggedUnion {
            discriminant,
            pre_disc_padding,
            post_disc_padding,
            trailing_padding,
            ..
        } => {
            let pre = padding_steps(pre_disc_padding);
            let disc = seq![Step::Discriminant { ty: discriminant.ty }];
            let post = padding_steps(post_disc_padding);
            let steps = field_steps(fields);
            let trail = padding_steps(trailing_padding);
            lemma_padding_steps(pre_disc_padding, tag, v.fields, order);
            lemma_padding_steps(post_disc_padding, tag, v.fields, order);
            lemma_padding_steps(trailing_padding, tag, v.fields, order);
            lemma_single_step(Step::Discriminant { ty: discriminant.ty }, tag, v.fields, order);
            lemma_steps_bytes_concat(pre, disc, tag, v.fields, order);
            lemma_steps_bytes_concat(post, steps, tag, v.fields, order);
            lemma_steps_bytes_concat(post + steps, trail, tag, v.fields, order);
            lemma_steps_bytes_concat(pre + disc, post + steps + trail, tag, v.fields, order);
            assert(plan_of(l, v.variant) == (pre + disc) + (post + steps + trail));
            assert(encoding(l, v, order) =~= laid_out_bytes(l, v, order));
        },
    }
}

proof fn lemma_body_reads_back(
    layout: TypeLayout,
    value: Value,
    order: ByteOrder,
    before: Seq<u8>,
    rest: Seq<u8>,
)
    requires
        encode_fault(layout@, value@) is None,
        before.len() == steps_width(header_steps(layout@)),
        before == steps_bytes(
            header_steps(layout@),
            layout@.tag_of(value@.variant),
            value@.fields,
            order,
        ),
    ensures
        encoding(layout@, value@, order) == before + steps_bytes(
            body_steps(layout@, value@.variant),
            layout@.tag_of(value@.variant),
            value@.fields,
            order,
        ),
        decoded_body(
            layout@,
            value@.variant,
            encoding(layout@, value@, order) + rest,
            before.len(),
            order,
        ) == Ok::<(ValueView, nat), DecodeError>(
            (value@, encoding(layout@, value@, order).len()),
        ),
{
    let l = layout@;
    let v = value@;
    let tag = l.tag_of(v.variant);
    let fields = l.fields_of(v.variant);
    let body = body_steps(l, v.variant);
    let enc = encoding(l, v, order);
    let all = enc + rest;
    assert(fields.len() <= usize::MAX) by {
        match layout {
            TypeLayout::Struct { fields, .. } => {
                assert(fields.deep_view().len() == fields.len());
            },
            TypeLayout::TaggedUnion { variants, .. } => {
                assert(variants.deep_view()[v.variant] == variants[v.variant]@);
                assert(variants[v.variant].fields.deep_view().len()
                    == variants[v.variant].fields.len());
            },
        }
    }
    let post = match l {
        TypeLayoutView::Struct { .. } => 0usize,
        TypeLayoutView::TaggedUnion { post_disc_padding, .. } => post_disc_padding,
    };
    let lead = padding_steps(post);
    let steps = field_steps(fields);
    let trail = padding_steps(l.trailing());
    assert(body == lead + steps + trail) by {
        assert(padding_steps(0) + steps == steps);
    }
    lemma_steps_bytes_concat(header_steps(l), body, tag, v.fields, order);
    lemma_steps_bytes_len(body, tag, v.fields, order);
    lemma_steps_bytes_concat(lead, steps, tag, v.fields, order);
    lemma_steps_bytes_concat(lead + steps, trail, tag, v.fields, order);
    lemma_steps_width_concat(lead, steps);
    lemma_steps_width_concat(lead + steps, trail);
    lemma_padding_steps(post, tag, v.fields, order);
    lemma_padding_steps(l.trailing(), tag, v.fields, order);
    let front = before + zeros(post as nat);
    let back = zeros(l.trailing() as nat) + rest;
    let written = steps_bytes(steps, tag, v.fields, order);
    assert(all =~= front + written + back);
    lemma_fields_read_back(fields, tag, v.fields, order, front, back);
    lemma_read_fields_concat(lead, steps, all, before.len() as int, order);
    lemma_read_fields_concat(lead + steps, trail, all, before.len() as int, order);
    lemma_read_padding_steps(post, all, before.len() as int, order);
    lemma_read_padding_steps(
        l.trailing(),
        all,
        (before.len() + steps_width(lead + steps)) as int,
        order,
    );
    let read = read_fields(steps, all, front.len() as int, order);
    assert(read == v.fields) by {
        assert(v.fields.take(fields.len() as int) == v.fields);
    }
    assert(Seq::<int>::empty() + read == read);
    assert(read + Seq::<int>::empty() == read);
    assert(read_fields(body, all, before.len() as int, order) == v.fields);
}

/// Decoding the bytes of an encoded value gives the value back, field for
/// field, and tells how many bytes it took; whatever follows those bytes is
/// left unread.  This holds for every layout that resolution gives, whatever
/// its padding.
pub proof fn law_round_trip(layout: TypeLayout, value: Value, order: ByteOrder, rest: Seq<u8>)
    requires
        layout@.wf(),
        encode_fault(layout@, value@) is None,
    ensures
        decoding(layout@, encoding(layout@, value@, order) + rest, order) == Ok::<
            (ValueView, nat),
            DecodeError,
        >((value@, encoding(layout@, value@, order).len())),
{
    let l = layout@;
    let v = value@;
    let tag = l.tag_of(v.variant);
    let enc = encoding(l, v, order);
    let all = enc + rest;
    let head = steps_bytes(header_steps(l), tag, v.fields, order);
    lemma_steps_bytes_len(header_steps(l), tag, v.fields, order);
    lemma_body_reads_back(layout, value, order, head, rest);
    match l {
        TypeLayoutView::Struct { .. } => {
            assert(head.len() == 0);
        },
        TypeLayoutView::TaggedUnion { discriminant, pre_disc_padding, variants, .. } => {
            let tags = layout_tags(variants);
            let disc = Step::Discriminant { ty: discriminant.ty };
            lemma_header_width(l);
            lemma_padding_steps(pre_disc_padding, tag, v.fields, order);
            lemma_single_step(disc, tag, v.fields, order);
            lemma_steps_bytes_concat(
                padding_steps(pre_disc_padding),
                seq![disc],
                tag,
                v.fields,
                order,
            );
            let tag_bytes = int_bytes(discriminant.ty, tag, order);
            assert(head == zeros(pre_disc_padding as nat) + tag_bytes);
            assert(all.subrange(pre_disc_padding as int, head.len() as int) =~= tag_bytes);
            law_int_round_trip(discriminant.ty, tag, order);
            assert(tags[v.variant] == tag);
            assert(is_first_with_tag(tags, tag, v.variant)) by {
                assert forall|j: int| 0 <= j < v.variant implies tags[j] != tag by {
                    assert(tags[j] != tags[v.variant]);
                }
            }
            let found = choose|i: int| is_first_with_tag(tags, tag, i);
            assert(found == v.variant) by {
                if found > v.variant {
                    assert(tags[v.variant] != tag);
                }
                if found < v.variant {
                    assert(tags[found] != tags[v.variant]);
                }
            }
            assert(variant_with_tag(tags, tag) == Some(v.variant));
        },
    }
}

/// A tag that no variant has ends decoding at the discriminant: the failure
/// is the same whatever follows the discriminant, also where nothing does,
/// so no field of any variant has been read.
pub proof fn law_unknown_tag_ends_decoding(
    layout: TypeLayout,
    bytes: Seq<u8>,
    other: Seq<u8>,
    order: ByteOrder,
)
    requires
        layout@ is TaggedUnion,
        bytes.len() >= steps_width(header_steps(layout@)),
        variant_with_tag(
            layout_tags(layout@->TaggedUnion_variants),
            bytes_int(
                layout@->TaggedUnion_discriminant.ty,
                bytes.subrange(
                    layout@->TaggedUnion_pre_disc_padding as int,
                    steps_width(header_steps(layout@)) as int,
                ),
                order,
            ),
        ) is None,
        other.len() >= steps_width(header_steps(layout@)),
        other.take(steps_width(header_steps(layout@)) as int) == bytes.take(
            steps_width(header_steps(layout@)) as int,
        ),
    ensures
        decoding(layout@, bytes, order) == Err::<(ValueView, nat), DecodeError>(
            DecodeError::UnknownDiscriminantTag,
        ),
        decoding(layout@, other, order) == Err::<(ValueView, nat), DecodeError>(
            DecodeError::UnknownDiscriminantTag,
        ),
{
    let head = steps_width(header_steps(layout@)) as int;
    let pre = layout@->TaggedUnion_pre_disc_padding as int;
    lemma_header_width(layout@);
    assert(other.subrange(pre, head) =~= other.take(head).subrange(pre, head));
    assert(bytes.subrange(pre, head) =~= bytes.take(head).subrange(pre, head));
}

/// The padding that a layout puts between the discriminant and the fields.
pub open spec fn post_padding(layout: TypeLayoutView) -> nat {
    match layout {
        TypeLayoutView::Struct { .. } => 0,
        TypeLayoutView::TaggedUnion { post_disc_padding, .. } => post_disc_padding as nat,
    }
}

/// The position of the first byte of the field at `i` of the variant at
/// `variant`: behind the discriminant and its padding, and behind every
/// earlier field and its padding.
pub open spec fn field_offset(layout: TypeLayoutView, variant: int, i: int) -> nat {
    steps_width(header_steps(layout)) + post_padding(layout) + steps_width(
        field_steps(layout.fields_of(variant).take(i)),
    )
}

proof fn lemma_field_read_in_place(
    fields: Seq<FieldLayoutView>,
    bytes: Seq<u8>,
    start: int,
    order: ByteOrder,
    i: int,
)
    requires
        0 <= i < fields.len(),
    ensures
        read_fields(field_steps(fields), bytes, start, order).len() == fields.len(),
        read_fields(field_steps(fields), bytes, start, order)[i] == bytes_int(
            fields[i].ty,
            bytes.subrange(
                start + steps_width(field_steps(fields.take(i))),
                start + steps_width(field_steps(fields.take(i))) + fields[i].ty.spec_width(),
            ),
            order,
        ),
    decreases fields.len(),
{
    let init = fields.drop_last();
    let last = fields.last();
    let index = fields.len() - 1;
    let one = one_field_steps(index, last);
    lemma_read_fields_concat(field_steps(init), one, bytes, start, order);
    lemma_read_one_field(index, last, bytes, start + steps_width(field_steps(init)), order);
    lemma_read_count(init, bytes, start, order);
    assert(fields.take(index) == init);
    if i < index {
        lemma_field_read_in_place(init, bytes, start, order, i);
        assert(init[i] == fields[i]);
        assert(init.take(i) == fields.take(i));
    }
}

proof fn lemma_read_count(
    fields: Seq<FieldLayoutView>,
    bytes: Seq<u8>,
    start: int,
    order: ByteOrder,
)
    ensures
        read_fields(field_steps(fields), bytes, start, order).len() == fields.len(),
    decreases fields.len(),
{
    if fields.len() > 0 {
        let init = fields.drop_last();
        let index = fields.len() - 1;
        lemma_read_count(init, bytes, start, order);
        lemma_read_fields_concat(
            field_steps(init),
            one_field_steps(index, fields.last()),
            bytes,
            start,
            order,
        );
        lemma_read_one_field(
            index,
            fields.last(),
            bytes,
            start + steps_width(field_steps(init)),
            order,
        );
    }
}

/// A decoded field is what the bytes at the offset of the field spell, and
/// the next field starts behind this one and its padding.  So each field
/// is followed by exactly as many bytes as its padding counts, and what
/// those bytes hold is never read.
pub proof fn law_fields_are_read_at_their_offsets(
    layout: TypeLayout,
    bytes: Seq<u8>,
    order: ByteOrder,
    i: int,
)
    requires
        decoding(layout@, bytes, order) is Ok,
        0 <= i < layout@.fields_of(decoding(layout@, bytes, order)->Ok_0.0.variant).len(),
    ensures
        ({
            let (value, used) = decoding(layout@, bytes, order)->Ok_0;
            let fields = layout@.fields_of(value.variant);
            let at = field_offset(layout@, value.variant, i);
            &&& 0 <= value.variant < layout@.variant_count()
            &&& value.fields.len() == fields.len()
            &&& value.fields[i] == bytes_int(
                fields[i].ty,
                bytes.subrange(at as int, (at + fields[i].ty.spec_width()) as int),
                order,
            )
            &&& field_offset(layout@, value.variant, i + 1) == at + fields[i].ty.spec_width()
                + fields[i].padding
            &&& field_offset(layout@, value.variant, fields.len() as int)
                + layout@.trailing() == used
            &&& used <= bytes.len()
        }),
{
    let l = layout@;
    let (value, used) = decoding(l, bytes, order)->Ok_0;
    let fields = l.fields_of(value.variant);
    let head = steps_width(header_steps(l));
    let lead = padding_steps(post_padding(l) as usize);
    let steps = field_steps(fields);
    let trail = padding_steps(l.trailing());
    assert(body_steps(l, value.variant) == lead + steps + trail) by {
        assert(padding_steps(0) + steps == steps);
    }
    match l {
        TypeLayoutView::Struct { .. } => {},
        TypeLayoutView::TaggedUnion { variants, .. } => {
            let tags = layout_tags(variants);
            let tag = choose|t: int| variant_with_tag(tags, t) == Some(value.variant);
            assert(exists|k: int| is_first_with_tag(tags, tag, k));
        },
    }
    lemma_padding_steps(post_padding(l) as usize, 0, Seq::empty(), order);
    lemma_padding_steps(l.trailing(), 0, Seq::empty(), order);
    lemma_steps_width_concat(lead, steps);
    lemma_steps_width_concat(lead + steps, trail);
    lemma_read_padding_steps(post_padding(l) as usize, bytes, head as int, order);
    lemma_read_padding_steps(
        l.trailing(),
        bytes,
        (head + steps_width(lead + steps)) as int,
        order,
    );
    lemma_read_fields_concat(lead, steps, bytes, head as int, order);
    lemma_read_fields_concat(lead + steps, trail, bytes, head as int, order);
    let start = (head + post_padding(l)) as int;
    let read = read_fields(steps, bytes, start, order);
    assert(Seq::<int>::empty() + read == read);
    assert(read + Seq::<int>::empty() == read);
    lemma_field_read_in_place(fields, bytes, start, order, i);
    assert(fields.take(fields.len() as int) == fields);
    assert(fields.take(i + 1).drop_last() == fields.take(i));
    assert(fields.take(i + 1).last() == fields[i]);
    lemma_steps_width_concat(field_steps(fields.take(i)), one_field_steps(i, fields[i]));
    assert(i <= usize::MAX) by {
        match layout {
            TypeLayout::Struct { fields, .. } => {
                assert(fields.deep_view().len() == fields.len());
            },
            TypeLayout::TaggedUnion { variants, .. } => {
                assert(variants.deep_view()[value.variant] == variants[value.variant]@);
                assert(variants[value.variant].fields.deep_view().len()
                    == variants[value.variant].fields.len());
            },
        }
    }
    lemma_one_field_steps(i, fields[i], 0, Seq::empty(), order);
}

} // verus!
