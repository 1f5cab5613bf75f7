//! Failures of schema resolution and of the codec.

use vstd::prelude::*;

verus! {

/// Why a declaration could not be resolved into a layout.
#[derive(Debug, Clone, Copy, PartialEq, Eq, Structural)]
pub enum ResolveError {
    /// A tagged union has no layout directive, or its directives name only
    /// compatibility markers.
    MissingDiscriminantType,
    /// A layout directive is present but carries no arguments.
    EmptyLayoutDirective,
    /// A layout directive does not read as a comma-separated list of
    /// arguments, or one of its arguments is a path of several segments.
    MalformedLayoutDirective,
    /// The layout directives name more than one type that is no marker.
    AmbiguousDiscriminantType,
    /// The layout directives name a type that is no integer type of fixed
    /// width.
    UnsupportedDiscriminantType,
    /// A padding annotation is not of the form `name = integer-literal`.
    MalformedPadding,
    /// The tag of a variant is no value of the discriminant type.
    VariantTagOutOfRange,
    /// Two variants have the same tag.
    DuplicateVariantTag,
}

/// Why a value cannot be encoded under a layout.
#[derive(Debug, Clone, Copy, PartialEq, Eq, Structural)]
pub enum EncodeError {
    /// The value names a variant that the layout does not have.
    NoSuchVariant,
    /// The value has more or fewer fields than its variant.
    FieldCountMismatch,
    /// A field, or the tag of the variant, is no value of its type.
    ValueOutOfRange,
}

/// Why bytes cannot be decoded under a layout.  These are failures of the
/// data, not of the schema.
#[derive(Debug, Clone, Copy, PartialEq, Eq, Structural)]
pub enum DecodeError {
    /// The bytes end before the plan does.
    UnexpectedEnd,
    /// The tag that was read is the tag of no variant.
    UnknownDiscriminantTag,
}

} // verus!
