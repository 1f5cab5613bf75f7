use endio_layout::annotation::{get_padding, Annotation, AnnotationValue};
use endio_layout::declaration::{
    get_field_padding, get_post_disc_padding, get_pre_disc_padding, get_trailing_padding,
    FieldDeclaration, TypeBody, TypeDeclaration,
};
use endio_layout::directive::{
    directive_type_names, get_enum_type, is_marker, single_type_name, DirectiveArg,
};
use endio_layout::error::ResolveError;
use endio_layout::primitive::IntType;

fn integer(key: &str, count: usize) -> Annotation {
    Annotation { key: key.to_string(), value: AnnotationValue::Integer(count) }
}

fn arguments(key: &str, tokens: &str) -> Annotation {
    Annotation { key: key.to_string(), value: AnnotationValue::Arguments(tokens.to_string()) }
}

fn with(key: &str, value: AnnotationValue) -> Annotation {
    Annotation { key: key.to_string(), value }
}

fn union_with(annotations: Vec<Annotation>) -> TypeDeclaration {
    TypeDeclaration {
        name: "Colour".to_string(),
        annotations,
        body: TypeBody::TaggedUnion(vec![]),
    }
}

#[test]
fn padding_absent_is_none() {
    assert_eq!(get_padding(&vec![], "padding"), Ok(None));
    let attrs = vec![integer("trailing_padding", 4), arguments("repr", "u8")];
    assert_eq!(get_padding(&attrs, "padding"), Ok(None));
}

#[test]
fn padding_value_is_returned() {
    let attrs = vec![arguments("repr", "u8"), integer("padding", 3)];
    assert_eq!(get_padding(&attrs, "padding"), Ok(Some(3)));
}

#[test]
fn padding_of_zero_is_some_zero() {
    let attrs = vec![integer("padding", 0)];
    assert_eq!(get_padding(&attrs, "padding"), Ok(Some(0)));
}

#[test]
fn padding_first_match_wins() {
    let attrs = vec![integer("padding", 3), integer("padding", 9)];
    assert_eq!(get_padding(&attrs, "padding"), Ok(Some(3)));
}

#[test]
fn padding_later_duplicate_is_not_read() {
    let attrs = vec![integer("padding", 3), with("padding", AnnotationValue::Flag)];
    assert_eq!(get_padding(&attrs, "padding"), Ok(Some(3)));
}

#[test]
fn padding_first_match_decides_failure() {
    let attrs = vec![with("padding", AnnotationValue::Literal), integer("padding", 3)];
    assert_eq!(get_padding(&attrs, "padding"), Err(ResolveError::MalformedPadding));
}

#[test]
fn padding_without_value_is_malformed() {
    let attrs = vec![with("padding", AnnotationValue::Flag)];
    assert_eq!(get_padding(&attrs, "padding"), Err(ResolveError::MalformedPadding));
}

#[test]
fn padding_with_arguments_is_malformed() {
    let attrs = vec![arguments("padding", "3")];
    assert_eq!(get_padding(&attrs, "padding"), Err(ResolveError::MalformedPadding));
}

#[test]
fn padding_with_other_literal_is_malformed() {
    let attrs = vec![with("padding", AnnotationValue::Literal)];
    assert_eq!(get_padding(&attrs, "padding"), Err(ResolveError::MalformedPadding));
}

#[test]
fn padding_with_expression_is_malformed() {
    let attrs = vec![with("padding", AnnotationValue::Expression)];
    assert_eq!(get_padding(&attrs, "padding"), Err(ResolveError::MalformedPadding));
}

#[test]
fn padding_key_must_match_exactly() {
    let attrs = vec![integer("pre_disc_padding", 2), integer("Padding", 1)];
    assert_eq!(get_padding(&attrs, "padding"), Ok(None));
    assert_eq!(get_padding(&attrs, "pre_disc_padding"), Ok(Some(2)));
}

#[test]
fn field_and_type_getters_use_their_own_keys() {
    let field = FieldDeclaration {
        name: "a".to_string(),
        ty: IntType::U8,
        annotations: vec![integer("trailing_padding", 9), integer("padding", 3)],
    };
    assert_eq!(get_field_padding(&field), Ok(Some(3)));
    let decl = union_with(vec![
        integer("padding", 1),
        integer("pre_disc_padding", 2),
        integer("post_disc_padding", 5),
        integer("trailing_padding", 7),
    ]);
    assert_eq!(get_pre_disc_padding(&decl), Ok(Some(2)));
    assert_eq!(get_post_disc_padding(&decl), Ok(Some(5)));
    assert_eq!(get_trailing_padding(&decl), Ok(Some(7)));
    let bare = union_with(vec![]);
    assert_eq!(get_pre_disc_padding(&bare), Ok(None));
    assert_eq!(get_post_disc_padding(&bare), Ok(None));
    assert_eq!(get_trailing_padding(&bare), Ok(None));
}

#[test]
fn markers_are_c_and_transparent() {
    assert!(is_marker(&"C".to_string()));
    assert!(is_marker(&"transparent".to_string()));
    assert!(!is_marker(&"u8".to_string()));
    assert!(!is_marker(&"c".to_string()));
    assert!(!is_marker(&"packed".to_string()));
}

#[test]
fn enum_type_from_single_name() {
    let decl = union_with(vec![arguments("repr", "u16")]);
    assert_eq!(get_enum_type(&decl), Ok("u16".to_string()));
}

#[test]
fn enum_type_marker_first() {
    let decl = union_with(vec![arguments("repr", "C, u8")]);
    assert_eq!(get_enum_type(&decl), Ok("u8".to_string()));
}

#[test]
fn enum_type_marker_last() {
    let decl = union_with(vec![arguments("repr", "u8, C")]);
    assert_eq!(get_enum_type(&decl), Ok("u8".to_string()));
}

#[test]
fn enum_type_between_markers_with_trailing_comma() {
    let decl = union_with(vec![arguments("repr", "transparent, i32, C,")]);
    assert_eq!(get_enum_type(&decl), Ok("i32".to_string()));
}

#[test]
fn enum_type_across_directives() {
    let decl = union_with(vec![
        arguments("repr", "C"),
        integer("pre_disc_padding", 1),
        arguments("repr", "u32"),
    ]);
    assert_eq!(get_enum_type(&decl), Ok("u32".to_string()));
}

#[test]
fn enum_type_passes_over_arguments_that_are_no_names() {
    let decl = union_with(vec![arguments("repr", "align(8), u64")]);
    assert_eq!(get_enum_type(&decl), Ok("u64".to_string()));
}

#[test]
fn enum_type_is_any_name_that_is_no_marker() {
    let decl = union_with(vec![arguments("repr", "Tag")]);
    assert_eq!(get_enum_type(&decl), Ok("Tag".to_string()));
}

#[test]
fn enum_type_missing_without_directive() {
    assert_eq!(get_enum_type(&union_with(vec![])), Err(ResolveError::MissingDiscriminantType));
    let decl = union_with(vec![integer("pre_disc_padding", 2), arguments("derive", "Debug")]);
    assert_eq!(get_enum_type(&decl), Err(ResolveError::MissingDiscriminantType));
}

#[test]
fn enum_type_missing_with_markers_only() {
    let decl = union_with(vec![arguments("repr", "C")]);
    assert_eq!(get_enum_type(&decl), Err(ResolveError::MissingDiscriminantType));
    let decl = union_with(vec![arguments("repr", "C, transparent"), arguments("repr", "C")]);
    assert_eq!(get_enum_type(&decl), Err(ResolveError::MissingDiscriminantType));
}

#[test]
fn enum_type_ignores_repr_in_other_forms() {
    let decl = union_with(vec![with("repr", AnnotationValue::Flag), integer("repr", 8)]);
    assert_eq!(get_enum_type(&decl), Err(ResolveError::MissingDiscriminantType));
}

#[test]
fn enum_type_empty_directive() {
    let decl = union_with(vec![arguments("repr", "")]);
    assert_eq!(get_enum_type(&decl), Err(ResolveError::EmptyLayoutDirective));
    let decl = union_with(vec![arguments("repr", "  ")]);
    assert_eq!(get_enum_type(&decl), Err(ResolveError::EmptyLayoutDirective));
}

#[test]
fn enum_type_empty_directive_after_a_good_one() {
    let decl = union_with(vec![arguments("repr", "u8"), arguments("repr", "")]);
    assert_eq!(get_enum_type(&decl), Err(ResolveError::EmptyLayoutDirective));
}

#[test]
fn enum_type_malformed_directive() {
    for tokens in ["u8 u16", "8", ",", "u8,, C", "(", "u8 +"] {
        let decl = union_with(vec![arguments("repr", tokens)]);
        assert_eq!(
            get_enum_type(&decl),
            Err(ResolveError::MalformedLayoutDirective),
            "tokens: {tokens}"
        );
    }
}

#[test]
fn enum_type_qualified_path_is_malformed() {
    let decl = union_with(vec![arguments("repr", "core::u8")]);
    assert_eq!(get_enum_type(&decl), Err(ResolveError::MalformedLayoutDirective));
    let decl = union_with(vec![arguments("repr", "C, ::u8")]);
    assert_eq!(get_enum_type(&decl), Err(ResolveError::MalformedLayoutDirective));
}

#[test]
fn enum_type_ambiguous() {
    let decl = union_with(vec![arguments("repr", "u8, u16")]);
    assert_eq!(get_enum_type(&decl), Err(ResolveError::AmbiguousDiscriminantType));
    let decl = union_with(vec![arguments("repr", "u8"), arguments("repr", "C, u8")]);
    assert_eq!(get_enum_type(&decl), Err(ResolveError::AmbiguousDiscriminantType));
}

#[test]
fn enum_type_first_faulty_directive_decides() {
    let decl = union_with(vec![
        arguments("repr", "u8, u16"),
        arguments("repr", ""),
        arguments("repr", "u8 u8"),
    ]);
    assert_eq!(get_enum_type(&decl), Err(ResolveError::EmptyLayoutDirective));
    let decl = union_with(vec![arguments("repr", "u8 u8"), arguments("repr", "")]);
    assert_eq!(get_enum_type(&decl), Err(ResolveError::MalformedLayoutDirective));
}

#[test]
fn enum_type_other_attributes_with_odd_arguments_are_not_read() {
    let decl = union_with(vec![arguments("doc", "1 + + 2 ("), arguments("repr", "u8")]);
    assert_eq!(get_enum_type(&decl), Ok("u8".to_string()));
}

#[test]
fn directive_names_in_order_without_markers() {
    let args = vec![
        DirectiveArg::Name("C".to_string()),
        DirectiveArg::Name("u8".to_string()),
        DirectiveArg::Other,
        DirectiveArg::Name("i16".to_string()),
        DirectiveArg::Name("transparent".to_string()),
    ];
    assert_eq!(directive_type_names(&args), Ok(vec!["u8".to_string(), "i16".to_string()]));
}

#[test]
fn directive_names_faults() {
    assert_eq!(directive_type_names(&vec![]), Err(ResolveError::EmptyLayoutDirective));
    let args = vec![DirectiveArg::Name("u8".to_string()), DirectiveArg::Path];
    assert_eq!(directive_type_names(&args), Err(ResolveError::MalformedLayoutDirective));
    assert_eq!(directive_type_names(&vec![DirectiveArg::Other]), Ok(vec![]));
}

#[test]
fn single_type_name_needs_exactly_one() {
    assert_eq!(single_type_name(&vec![]), Err(ResolveError::MissingDiscriminantType));
    assert_eq!(single_type_name(&vec!["u8".to_string()]), Ok("u8".to_string()));
    assert_eq!(
        single_type_name(&vec!["u8".to_string(), "u8".to_string()]),
        Err(ResolveError::AmbiguousDiscriminantType)
    );
}
