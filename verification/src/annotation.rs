//! Annotations and the lookup of padding counts among them.

use crate::error::ResolveError;
use vstd::prelude::*;

verus! {

/// What stands behind the name of an annotation.
#[derive(Debug, Clone, PartialEq, Eq)]
pub enum AnnotationValue {
    /// Nothing: the bare name, as in `#[name]`.
    Flag,
    /// A parenthesised argument list, kept as written: `#[name(arguments)]`.
    Arguments(String),
    /// An integer literal that counts something: `#[name = 3]`.
    Integer(usize),
    /// Any other literal, such as `#[name = "text"]` or `#[name = -3]`.
    Literal,
    /// Any other expression: `#[name = a + b]`.
    Expression,
}

/// The mathematical value of an [`AnnotationValue`].
pub enum AnnotationValueView {
    Flag,
    Arguments(Seq<char>),
    Integer(usize),
    Literal,
    Expression,
}

impl View for AnnotationValue {
    type V = AnnotationValueView;

    open spec fn view(&self) -> AnnotationValueView {
        match self {
            AnnotationValue::Flag => AnnotationValueView::Flag,
            AnnotationValue::Arguments(text) => AnnotationValueView::Arguments(text@),
            AnnotationValue::Integer(count) => AnnotationValueView::Integer(*count),
            AnnotationValue::Literal => AnnotationValueView::Literal,
            AnnotationValue::Expression => AnnotationValueView::Expression,
        }
    }
}

/// One annotation of a type or of a field: a name and what follows it.
#[derive(Debug, Clone, PartialEq, Eq)]
pub struct Annotation {
    pub key: String,
    pub value: AnnotationValue,
}

/// The mathematical value of an [`Annotation`].
pub struct AnnotationView {
    pub key: Seq<char>,
    pub value: AnnotationValueView,
}

impl View for Annotation {
    type V = AnnotationView;

    open spec fn view(&self) -> AnnotationView {
        AnnotationView { key: self.key@, value: self.value@ }
    }
}

impl DeepView for Annotation {
    type V = AnnotationView;

    open spec fn deep_view(&self) -> AnnotationView {
        self@
    }
}

/// `i` is the position of the first annotation named `name`.
pub open spec fn is_first_with_key(attrs: Seq<AnnotationView>, name: Seq<char>, i: int) -> bool {
    &&& 0 <= i < attrs.len()
    &&& attrs[i].key == name
    &&& forall|j: int| 0 <= j < i ==> attrs[j].key != name
}

/// What a selected annotation gives as a padding count: its integer, and a
/// failure for every other form.
pub open spec fn padding_of_value(value: AnnotationValueView) -> Result<
    Option<usize>,
    ResolveError,
> {
    match value {
        AnnotationValueView::Integer(count) => Ok(Some(count)),
        _ => Err(ResolveError::MalformedPadding),
    }
}

/// The padding count that the annotations give under `name`: that of the
/// first annotation so named, and `None` where there is none.
pub open spec fn padding_lookup(attrs: Seq<AnnotationView>, name: Seq<char>) -> Result<
    Option<usize>,
    ResolveError,
> {
    if exists|i: int| is_first_with_key(attrs, name, i) {
        padding_of_value(attrs[choose|i: int| is_first_with_key(attrs, name, i)].value)
    } else {
        Ok(None)
    }
}

/// Looks up the padding count annotated under `attr_name`.
///
/// The first annotation with that name decides; later ones are not read.
pub fn get_padding(attrs: &Vec<Annotation>, attr_name: &str) -> (r: Result<
    Option<usize>,
    ResolveError,
>)
    ensures
        r == padding_lookup(attrs.deep_view(), attr_name@),
{
    let name = attr_name.to_owned();
    let mut i: usize = 0;
    while i < attrs.len()
        invariant
            i <= attrs.len(),
            name@ == attr_name@,
            forall|j: int| 0 <= j < i ==> attrs.deep_view()[j].key != attr_name@,
        decreases attrs.len() - i,
    {
        if attrs[i].key == name {
            proof {
                let views = attrs.deep_view();
                assert(is_first_with_key(views, attr_name@, i as int));
                let w = choose|k: int| is_first_with_key(views, attr_name@, k);
                assert(w == i);
            }
            return match &attrs[i].value {
                AnnotationValue::Integer(count) => Ok(Some(*count)),
                _ => Err(ResolveError::MalformedPadding),
            };
        }
        i += 1;
    }
    Ok(None)
}

} // verus!
