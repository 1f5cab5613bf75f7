use endio_layout::annotation::{Annotation, AnnotationValue};
use endio_layout::declaration::{FieldDeclaration, TypeBody, TypeDeclaration, VariantDeclaration};
use endio_layout::error::ResolveError;
use endio_layout::layout::{
    check_tags_distinct, check_tags_fit, padding_count, resolve_discriminant, resolve_fields,
    resolve_layout, resolve_variants, DiscriminantSpec, FieldLayout, TypeLayout, VariantLayout,
};
use endio_layout::plan::Step;
use endio_layout::primitive::IntType;

fn integer(key: &str, count: usize) -> Annotation {
    Annotation { key: key.to_string(), value: AnnotationValue::Integer(count) }
}

fn arguments(key: &str, tokens: &str) -> Annotation {
    Annotation { key: key.to_string(), value: AnnotationValue::Arguments(tokens.to_string()) }
}

fn flag(key: &str) -> Annotation {
    Annotation { key: key.to_string(), value: AnnotationValue::Flag }
}

fn field(name: &str, ty: IntType, annotations: Vec<Annotation>) -> FieldDeclaration {
    FieldDeclaration { name: name.to_string(), ty, annotations }
}

fn variant(name: &str, tag: i128, fields: Vec<FieldDeclaration>) -> VariantDeclaration {
    VariantDeclaration { name: name.to_string(), tag: Some(tag), fields }
}

fn counted(name: &str) -> VariantDeclaration {
    VariantDeclaration { name: name.to_string(), tag: None, fields: vec![] }
}

fn tags_of(layout: &TypeLayout) -> Vec<i128> {
    match layout {
        TypeLayout::Struct { .. } => vec![],
        TypeLayout::TaggedUnion { variants, .. } => variants.iter().map(|v| v.tag).collect(),
    }
}

fn structure(annotations: Vec<Annotation>, fields: Vec<FieldDeclaration>) -> TypeDeclaration {
    TypeDeclaration { name: "Record".to_string(), annotations, body: TypeBody::Struct(fields) }
}

fn union(annotations: Vec<Annotation>, variants: Vec<VariantDeclaration>) -> TypeDeclaration {
    TypeDeclaration {
        name: "Colour".to_string(),
        annotations,
        body: TypeBody::TaggedUnion(variants),
    }
}

fn laid(name: &str, ty: IntType, padding: usize) -> FieldLayout {
    FieldLayout { name: name.to_string(), ty, padding }
}

#[test]
fn padding_count_defaults_to_zero() {
    assert_eq!(padding_count(Ok(None)), Ok(0));
    assert_eq!(padding_count(Ok(Some(0))), Ok(0));
    assert_eq!(padding_count(Ok(Some(12))), Ok(12));
    assert_eq!(
        padding_count(Err(ResolveError::MalformedPadding)),
        Err(ResolveError::MalformedPadding)
    );
}

#[test]
fn struct_without_annotations_has_no_padding() {
    let decl = structure(
        vec![],
        vec![field("a", IntType::U8, vec![]), field("b", IntType::U16, vec![])],
    );
    let layout = resolve_layout(&decl).unwrap();
    assert_eq!(
        layout,
        TypeLayout::Struct {
            fields: vec![laid("a", IntType::U8, 0), laid("b", IntType::U16, 0)],
            trailing_padding: 0,
        }
    );
    assert_eq!(
        layout.plan(0),
        Some(vec![
            Step::Field { index: 0, ty: IntType::U8 },
            Step::Field { index: 1, ty: IntType::U16 },
        ])
    );
}

#[test]
fn union_without_padding_annotations_has_no_padding_steps() {
    let decl = union(
        vec![arguments("repr", "u8")],
        vec![
            variant("Red", 0, vec![]),
            variant("Blue", 1, vec![field("shade", IntType::I32, vec![flag("doc")])]),
        ],
    );
    let layout = resolve_layout(&decl).unwrap();
    assert_eq!(layout.variant_count(), 2);
    assert_eq!(layout.plan(0), Some(vec![Step::Discriminant { ty: IntType::U8 }]));
    assert_eq!(
        layout.plan(1),
        Some(vec![
            Step::Discriminant { ty: IntType::U8 },
            Step::Field { index: 0, ty: IntType::I32 },
        ])
    );
    assert_eq!(layout.plan(2), None);
}

#[test]
fn struct_with_field_and_trailing_padding() {
    let decl = structure(
        vec![integer("trailing_padding", 5)],
        vec![
            field("a", IntType::U8, vec![integer("padding", 3)]),
            field("b", IntType::U16, vec![]),
            field("c", IntType::I64, vec![integer("padding", 0)]),
        ],
    );
    let layout = resolve_layout(&decl).unwrap();
    assert_eq!(
        layout,
        TypeLayout::Struct {
            fields: vec![
                laid("a", IntType::U8, 3),
                laid("b", IntType::U16, 0),
                laid("c", IntType::I64, 0),
            ],
            trailing_padding: 5,
        }
    );
    assert_eq!(layout.variant_count(), 1);
    assert_eq!(
        layout.plan(0),
        Some(vec![
            Step::Field { index: 0, ty: IntType::U8 },
            Step::Padding { count: 3 },
            Step::Field { index: 1, ty: IntType::U16 },
            Step::Field { index: 2, ty: IntType::I64 },
            Step::Padding { count: 5 },
        ])
    );
    assert_eq!(layout.plan(1), None);
}

#[test]
fn struct_does_not_read_the_annotations_of_a_union() {
    let decl = structure(
        vec![flag("pre_disc_padding"), flag("post_disc_padding"), arguments("repr", "")],
        vec![field("a", IntType::U8, vec![])],
    );
    assert_eq!(
        resolve_layout(&decl),
        Ok(TypeLayout::Struct { fields: vec![laid("a", IntType::U8, 0)], trailing_padding: 0 })
    );
}

#[test]
fn struct_with_malformed_field_padding() {
    let decl = structure(
        vec![],
        vec![field("a", IntType::U8, vec![]), field("b", IntType::U8, vec![flag("padding")])],
    );
    assert_eq!(resolve_layout(&decl), Err(ResolveError::MalformedPadding));
}

#[test]
fn struct_with_malformed_trailing_padding() {
    let decl = structure(vec![arguments("trailing_padding", "4")], vec![]);
    assert_eq!(resolve_layout(&decl), Err(ResolveError::MalformedPadding));
}

#[test]
fn union_with_all_paddings() {
    let decl = union(
        vec![
            integer("post_disc_padding", 1),
            arguments("repr", "C, u16"),
            integer("trailing_padding", 4),
            integer("pre_disc_padding", 2),
        ],
        vec![
            variant("Red", 0, vec![]),
            variant("Blue", 513, vec![field("shade", IntType::U8, vec![integer("padding", 6)])]),
        ],
    );
    let layout = resolve_layout(&decl).unwrap();
    assert_eq!(
        layout,
        TypeLayout::TaggedUnion {
            discriminant: DiscriminantSpec { ty: IntType::U16 },
            pre_disc_padding: 2,
            post_disc_padding: 1,
            variants: vec![
                VariantLayout { name: "Red".to_string(), tag: 0, fields: vec![] },
                VariantLayout {
                    name: "Blue".to_string(),
                    tag: 513,
                    fields: vec![laid("shade", IntType::U8, 6)],
                },
            ],
            trailing_padding: 4,
        }
    );
    assert_eq!(
        layout.plan(0),
        Some(vec![
            Step::Padding { count: 2 },
            Step::Discriminant { ty: IntType::U16 },
            Step::Padding { count: 1 },
            Step::Padding { count: 4 },
        ])
    );
    assert_eq!(
        layout.plan(1),
        Some(vec![
            Step::Padding { count: 2 },
            Step::Discriminant { ty: IntType::U16 },
            Step::Padding { count: 1 },
            Step::Field { index: 0, ty: IntType::U8 },
            Step::Padding { count: 6 },
            Step::Padding { count: 4 },
        ])
    );
}

#[test]
fn union_without_directive_is_missing_discriminant() {
    let decl = union(vec![integer("pre_disc_padding", 2)], vec![variant("Red", 0, vec![])]);
    assert_eq!(resolve_layout(&decl), Err(ResolveError::MissingDiscriminantType));
    assert_eq!(resolve_discriminant(&decl), Err(ResolveError::MissingDiscriminantType));
}

#[test]
fn union_with_markers_only_is_missing_discriminant() {
    let decl = union(vec![arguments("repr", "C")], vec![variant("Red", 0, vec![])]);
    assert_eq!(resolve_layout(&decl), Err(ResolveError::MissingDiscriminantType));
}

#[test]
fn union_with_empty_directive() {
    let decl = union(vec![arguments("repr", "")], vec![variant("Red", 0, vec![])]);
    assert_eq!(resolve_layout(&decl), Err(ResolveError::EmptyLayoutDirective));
}

#[test]
fn union_with_malformed_directive() {
    let decl = union(vec![arguments("repr", "u8 u8")], vec![]);
    assert_eq!(resolve_layout(&decl), Err(ResolveError::MalformedLayoutDirective));
}

#[test]
fn union_with_two_types() {
    let decl = union(vec![arguments("repr", "u8, i8")], vec![]);
    assert_eq!(resolve_layout(&decl), Err(ResolveError::AmbiguousDiscriminantType));
}

#[test]
fn union_with_type_of_no_fixed_width() {
    for name in ["usize", "isize", "u128", "packed", "U8"] {
        let decl = union(vec![arguments("repr", name)], vec![]);
        assert_eq!(
            resolve_layout(&decl),
            Err(ResolveError::UnsupportedDiscriminantType),
            "name: {name}"
        );
    }
}

#[test]
fn discriminant_of_every_integer_type() {
    let cases = [
        ("u8", IntType::U8),
        ("u16", IntType::U16),
        ("u32", IntType::U32),
        ("u64", IntType::U64),
        ("i8", IntType::I8),
        ("i16", IntType::I16),
        ("i32", IntType::I32),
        ("i64", IntType::I64),
    ];
    for (name, ty) in cases {
        let decl = union(vec![arguments("repr", name)], vec![]);
        assert_eq!(resolve_discriminant(&decl), Ok(DiscriminantSpec { ty }));
        assert_eq!(IntType::from_name(name), Some(ty));
    }
    assert_eq!(IntType::from_name(""), None);
    assert_eq!(IntType::from_name("u8 "), None);
}

#[test]
fn discriminant_fault_comes_before_malformed_padding() {
    let decl = union(
        vec![flag("pre_disc_padding")],
        vec![variant("Red", 0, vec![field("a", IntType::U8, vec![flag("padding")])])],
    );
    assert_eq!(resolve_layout(&decl), Err(ResolveError::MissingDiscriminantType));
}

#[test]
fn union_with_malformed_paddings() {
    for key in ["pre_disc_padding", "post_disc_padding", "trailing_padding"] {
        let decl = union(vec![arguments("repr", "u8"), flag(key)], vec![]);
        assert_eq!(resolve_layout(&decl), Err(ResolveError::MalformedPadding), "key: {key}");
    }
    let decl = union(
        vec![arguments("repr", "u8")],
        vec![
            variant("Red", 0, vec![]),
            variant("Blue", 1, vec![field("a", IntType::U8, vec![flag("padding")])]),
        ],
    );
    assert_eq!(resolve_layout(&decl), Err(ResolveError::MalformedPadding));
}

#[test]
fn malformed_padding_comes_before_tag_faults() {
    let decl = union(
        vec![arguments("repr", "u8"), flag("trailing_padding")],
        vec![variant("Red", 256, vec![]), variant("Blue", 256, vec![])],
    );
    assert_eq!(resolve_layout(&decl), Err(ResolveError::MalformedPadding));
}

#[test]
fn union_with_tag_out_of_range() {
    let decl = union(vec![arguments("repr", "u8")], vec![variant("Red", 256, vec![])]);
    assert_eq!(resolve_layout(&decl), Err(ResolveError::VariantTagOutOfRange));
    let decl = union(vec![arguments("repr", "u8")], vec![variant("Red", -1, vec![])]);
    assert_eq!(resolve_layout(&decl), Err(ResolveError::VariantTagOutOfRange));
    let decl = union(vec![arguments("repr", "i8")], vec![variant("Red", -128, vec![])]);
    assert!(resolve_layout(&decl).is_ok());
    let decl = union(vec![arguments("repr", "i8")], vec![variant("Red", 128, vec![])]);
    assert_eq!(resolve_layout(&decl), Err(ResolveError::VariantTagOutOfRange));
}

#[test]
fn tag_out_of_range_comes_before_duplicate() {
    let decl = union(
        vec![arguments("repr", "u8")],
        vec![variant("Red", 1, vec![]), variant("Blue", 1, vec![]), variant("Green", 300, vec![])],
    );
    assert_eq!(resolve_layout(&decl), Err(ResolveError::VariantTagOutOfRange));
}

#[test]
fn union_with_duplicate_tags() {
    let decl = union(
        vec![arguments("repr", "u8")],
        vec![variant("Red", 0, vec![]), variant("Blue", 1, vec![]), variant("Green", 0, vec![])],
    );
    assert_eq!(resolve_layout(&decl), Err(ResolveError::DuplicateVariantTag));
}

#[test]
fn resolve_fields_keeps_declaration_order() {
    let fields = vec![
        field("z", IntType::U32, vec![integer("padding", 1)]),
        field("a", IntType::U8, vec![]),
        field("m", IntType::I16, vec![integer("padding", 2), integer("padding", 7)]),
    ];
    assert_eq!(
        resolve_fields(&fields),
        Ok(vec![laid("z", IntType::U32, 1), laid("a", IntType::U8, 0), laid("m", IntType::I16, 2)])
    );
    assert_eq!(resolve_fields(&vec![]), Ok(vec![]));
}

#[test]
fn resolve_variants_keeps_tags_and_order() {
    let variants = vec![
        variant("B", 7, vec![field("x", IntType::U8, vec![integer("padding", 1)])]),
        variant("A", -3, vec![]),
    ];
    assert_eq!(
        resolve_variants(&variants),
        Ok(vec![
            VariantLayout { name: "B".to_string(), tag: 7, fields: vec![laid("x", IntType::U8, 1)] },
            VariantLayout { name: "A".to_string(), tag: -3, fields: vec![] },
        ])
    );
}

#[test]
fn tag_checks() {
    let variants = vec![
        VariantLayout { name: "A".to_string(), tag: 0, fields: vec![] },
        VariantLayout { name: "B".to_string(), tag: 255, fields: vec![] },
        VariantLayout { name: "C".to_string(), tag: 1, fields: vec![] },
    ];
    assert!(check_tags_fit(IntType::U8, &variants));
    assert!(!check_tags_fit(IntType::I8, &variants));
    assert!(check_tags_distinct(&variants));
    let mut twice = variants.clone();
    twice.push(VariantLayout { name: "D".to_string(), tag: 255, fields: vec![] });
    assert!(!check_tags_distinct(&twice));
    assert!(check_tags_distinct(&vec![]));
    assert!(check_tags_fit(IntType::U8, &vec![]));
}

#[test]
fn int_type_widths_and_ranges() {
    let cases: [(IntType, usize, bool, i128, i128); 8] = [
        (IntType::U8, 1, false, 0, 255),
        (IntType::U16, 2, false, 0, 65535),
        (IntType::U32, 4, false, 0, 4294967295),
        (IntType::U64, 8, false, 0, 18446744073709551615),
        (IntType::I8, 1, true, -128, 127),
        (IntType::I16, 2, true, -32768, 32767),
        (IntType::I32, 4, true, -2147483648, 2147483647),
        (IntType::I64, 8, true, -9223372036854775808, 9223372036854775807),
    ];
    for (ty, width, signed, min, max) in cases {
        assert_eq!(ty.width(), width);
        assert_eq!(ty.is_signed(), signed);
        assert!(ty.holds(min));
        assert!(ty.holds(max));
        assert!(!ty.holds(min - 1));
        assert!(!ty.holds(max + 1));
    }
}

#[test]
fn undeclared_tags_count_from_zero() {
    let decl = union(
        vec![arguments("repr", "u8")],
        vec![counted("Red"), counted("Green"), counted("Blue")],
    );
    assert_eq!(tags_of(&resolve_layout(&decl).unwrap()), vec![0, 1, 2]);
}

#[test]
fn undeclared_tags_count_on_from_the_tag_before() {
    let decl = union(
        vec![arguments("repr", "i16")],
        vec![
            variant("A", 5, vec![]),
            counted("B"),
            counted("C"),
            variant("D", -3, vec![]),
            counted("E"),
            counted("F"),
        ],
    );
    assert_eq!(tags_of(&resolve_layout(&decl).unwrap()), vec![5, 6, 7, -3, -2, -1]);
}

#[test]
fn counted_tag_may_repeat_a_declared_one() {
    let decl = union(
        vec![arguments("repr", "u8")],
        vec![variant("A", 1, vec![]), variant("B", 0, vec![]), counted("C")],
    );
    assert_eq!(resolve_layout(&decl), Err(ResolveError::DuplicateVariantTag));
}

#[test]
fn counted_tag_may_leave_the_discriminant_type() {
    let decl = union(vec![arguments("repr", "u8")], vec![variant("A", 255, vec![]), counted("B")]);
    assert_eq!(resolve_layout(&decl), Err(ResolveError::VariantTagOutOfRange));
    let decl = union(vec![arguments("repr", "i8")], vec![variant("A", 127, vec![]), counted("B")]);
    assert_eq!(resolve_layout(&decl), Err(ResolveError::VariantTagOutOfRange));
}

#[test]
fn counted_tag_beyond_128_bits() {
    let variants = vec![variant("A", i128::MAX, vec![]), counted("B"), counted("C")];
    assert_eq!(resolve_variants(&variants), Err(ResolveError::VariantTagOutOfRange));
    let decl = union(vec![arguments("repr", "u64")], variants);
    assert_eq!(resolve_layout(&decl), Err(ResolveError::VariantTagOutOfRange));
}

#[test]
fn malformed_padding_comes_before_a_tag_beyond_128_bits() {
    let variants = vec![
        variant("A", i128::MAX, vec![]),
        counted("B"),
        variant("C", 0, vec![field("x", IntType::U8, vec![flag("padding")])]),
    ];
    assert_eq!(resolve_variants(&variants), Err(ResolveError::MalformedPadding));
}
