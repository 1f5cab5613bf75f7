//! The layout directive and the discriminant type that it names.
//!
//! A layout directive is an annotation `repr(...)`.  Its arguments are
//! compatibility markers, which say nothing about widths, and the name of the
//! integer type in which the discriminant of a tagged union is written.

use crate::annotation::{AnnotationValue, AnnotationValueView, AnnotationView};
use crate::declaration::TypeDeclaration;
use crate::error::ResolveError;
use syn::parse::Parser;
use syn::punctuated::Punctuated;
use syn::token::Comma;
use syn::Meta;
use vstd::prelude::*;

verus! {

/// One argument of a layout directive, as far as resolution reads it.
#[derive(Debug, Clone, PartialEq, Eq)]
pub enum DirectiveArg {
    /// A single identifier, such as `C` or `u16`.
    Name(String),
    /// A path that is not a single identifier, such as `core::u16`.
    Path,
    /// Anything that is not a bare path, such as `align(8)`.
    Other,
}

/// The mathematical value of a [`DirectiveArg`].
pub enum DirectiveArgView {
    Name(Seq<char>),
    Path,
    Other,
}

impl View for DirectiveArg {
    type V = DirectiveArgView;

    open spec fn view(&self) -> DirectiveArgView {
        match self {
            DirectiveArg::Name(name) => DirectiveArgView::Name(name@),
            DirectiveArg::Path => DirectiveArgView::Path,
            DirectiveArg::Other => DirectiveArgView::Other,
        }
    }
}

impl DeepView for DirectiveArg {
    type V = DirectiveArgView;

    open spec fn deep_view(&self) -> DirectiveArgView {
        self@
    }
}

/// The error with which `syn` refuses a text.
#[verifier::external_type_specification]
#[verifier::external_body]
pub struct ExSynError(syn::Error);

/// The arguments that `syn` reads in the text of an argument list, and
/// `None` where it refuses the text.
pub uninterp spec fn directive_arguments(tokens: Seq<char>) -> Option<Seq<DirectiveArgView>>;

/// Reads the text of an argument list with
/// `Punctuated::<Meta, Comma>::parse_terminated`, run by `Parser::parse_str`.
///
/// The contract claims only that the outcome is a function of the text: the
/// same text is always refused, or always gives the same arguments.  Each
/// `Meta` is handed on as a [`DirectiveArg`]: a path for which
/// `Path::get_ident` finds a single identifier by that identifier's text, any
/// other path as `Path`, a list or a name-value pair as `Other`.
#[verifier::external_body]
fn parse_directive_arguments(tokens: &str) -> (r: Result<Vec<DirectiveArg>, syn::Error>)
    ensures
        r matches Ok(args) ==> directive_arguments(tokens@) == Some(args.deep_view()),
        r is Err ==> directive_arguments(tokens@) is None,
{
    let metas = Punctuated::<Meta, Comma>::parse_terminated.parse_str(tokens)?;
    Ok(
        metas.into_iter().map(
            |meta| match meta {
                Meta::Path(path) => match path.get_ident() {
                    Some(ident) => DirectiveArg::Name(ident.to_string()),
                    None => DirectiveArg::Path,
                },
                Meta::List(_) => DirectiveArg::Other,
                Meta::NameValue(_) => DirectiveArg::Other,
            },
        ).collect(),
    )
}

/// The name under which a layout directive stands.
pub open spec fn layout_directive_key() -> Seq<char> {
    "repr"@
}

/// A name that marks compatibility of the layout and names no type.
pub open spec fn is_marker_name(name: Seq<char>) -> bool {
    name == "C"@ || name == "transparent"@
}

/// Tells whether `name` is a compatibility marker.
pub fn is_marker(name: &String) -> (r: bool)
    ensures
        r == is_marker_name(name@),
{
    let c = "C".to_owned();
    let transparent = "transparent".to_owned();
    *name == c || *name == transparent
}

/// The names among `args` that are no markers, in the order of `args`.
pub open spec fn named_types(args: Seq<DirectiveArgView>) -> Seq<Seq<char>>
    decreases args.len(),
{
    if args.len() == 0 {
        Seq::empty()
    } else {
        let before = named_types(args.drop_last());
        match args.last() {
            DirectiveArgView::Name(name) => if is_marker_name(name) {
                before
            } else {
                before.push(name)
            },
            _ => before,
        }
    }
}

/// Why an argument list cannot stand, if it cannot: it was refused, it is
/// empty, or it holds a path of several segments.
pub open spec fn arguments_fault(parsed: Option<Seq<DirectiveArgView>>) -> Option<ResolveError> {
    match parsed {
        None => Some(ResolveError::MalformedLayoutDirective),
        Some(args) => if args.len() == 0 {
            Some(ResolveError::EmptyLayoutDirective)
        } else if exists|i: int| 0 <= i < args.len() && args[i] is Path {
            Some(ResolveError::MalformedLayoutDirective)
        } else {
            None
        },
    }
}

/// What one argument list contributes: its fault, or the types it names.
pub open spec fn directive_type_names_spec(args: Seq<DirectiveArgView>) -> Result<
    Seq<Seq<char>>,
    ResolveError,
> {
    match arguments_fault(Some(args)) {
        Some(fault) => Err(fault),
        None => Ok(named_types(args)),
    }
}

/// The views of a vector of strings.
pub open spec fn string_views(names: Seq<String>) -> Seq<Seq<char>> {
    names.map_values(|name: String| name@)
}

/// Checks the arguments of one layout directive and lists the types that
/// they name, markers left out.
pub fn directive_type_names(args: &Vec<DirectiveArg>) -> (r: Result<Vec<String>, ResolveError>)
    ensures
        match r {
            Ok(names) => directive_type_names_spec(args.deep_view()) == Ok::<
                Seq<Seq<char>>,
                ResolveError,
            >(string_views(names@)),
            Err(fault) => directive_type_names_spec(args.deep_view()) == Err::<
                Seq<Seq<char>>,
                ResolveError,
            >(fault),
        },
{
    if args.len() == 0 {
        return Err(ResolveError::EmptyLayoutDirective);
    }
    let ghost views = args.deep_view();
    let mut names: Vec<String> = Vec::new();
    let mut i: usize = 0;
    while i < args.len()
        invariant
            i <= args.len(),
            views == args.deep_view(),
            forall|j: int| 0 <= j < i ==> !(views[j] is Path),
            string_views(names@) == named_types(views.take(i as int)),
        decreases args.len() - i,
    {
        proof {
            assert(views.take(i as int + 1).drop_last() == views.take(i as int));
            assert(views.take(i as int + 1).last() == views[i as int]);
        }
        match &args[i] {
            DirectiveArg::Name(name) => {
                if !is_marker(name) {
                    let ghost before = names@;
                    names.push(name.clone());
                    proof {
                        assert(string_views(names@) == string_views(before).push(name@));
                    }
                }
            },
            DirectiveArg::Path => {
                return Err(ResolveError::MalformedLayoutDirective);
            },
            DirectiveArg::Other => {},
        }
        i += 1;
    }
    proof {
        assert(views.take(i as int) == views);
    }
    Ok(names)
}

/// Why the annotation `a` cannot stand as a layout directive, if it is one
/// and cannot.  Only the form `repr(...)` counts as a layout directive.
pub open spec fn directive_fault(a: AnnotationView) -> Option<ResolveError> {
    match a.value {
        AnnotationValueView::Arguments(tokens) => if a.key == layout_directive_key() {
            arguments_fault(directive_arguments(tokens))
        } else {
            None
        },
        _ => None,
    }
}

/// The types that the annotation `a` names, if it is a layout directive.
pub open spec fn directive_names(a: AnnotationView) -> Seq<Seq<char>> {
    match a.value {
        AnnotationValueView::Arguments(tokens) => if a.key == layout_directive_key() {
            match directive_arguments(tokens) {
                Some(args) => named_types(args),
                None => Seq::empty(),
            }
        } else {
            Seq::empty()
        },
        _ => Seq::empty(),
    }
}

/// The types that all the layout directives among `attrs` name, in order.
pub open spec fn all_named_types(attrs: Seq<AnnotationView>) -> Seq<Seq<char>>
    decreases attrs.len(),
{
    if attrs.len() == 0 {
        Seq::empty()
    } else {
        all_named_types(attrs.drop_last()) + directive_names(attrs.last())
    }
}

/// `i` is the position of the first annotation that is a faulty layout
/// directive.
pub open spec fn is_first_fault(attrs: Seq<AnnotationView>, i: int) -> bool {
    &&& 0 <= i < attrs.len()
    &&& directive_fault(attrs[i]) is Some
    &&& forall|j: int| 0 <= j < i ==> directive_fault(attrs[j]) is None
}

/// The one type among `names`: none is missing, several are ambiguous.
pub open spec fn single_named_type(names: Seq<Seq<char>>) -> Result<Seq<char>, ResolveError> {
    if names.len() == 0 {
        Err(ResolveError::MissingDiscriminantType)
    } else if names.len() == 1 {
        Ok(names[0])
    } else {
        Err(ResolveError::AmbiguousDiscriminantType)
    }
}

/// The name of the discriminant type that the annotations `attrs` give.
///
/// The first faulty layout directive decides, if there is one.  Otherwise
/// all layout directives together must name exactly one type.
pub open spec fn discriminant_type_of(attrs: Seq<AnnotationView>) -> Result<
    Seq<char>,
    ResolveError,
> {
    if exists|i: int| is_first_fault(attrs, i) {
        Err(directive_fault(attrs[choose|i: int| is_first_fault(attrs, i)])->0)
    } else {
        single_named_type(all_named_types(attrs))
    }
}

/// Picks the discriminant type among the names that the layout directives
/// gave.
pub fn single_type_name(names: &Vec<String>) -> (r: Result<String, ResolveError>)
    ensures
        match r {
            Ok(name) => single_named_type(string_views(names@)) == Ok::<Seq<char>, ResolveError>(
                name@,
            ),
            Err(fault) => single_named_type(string_views(names@)) == Err::<
                Seq<char>,
                ResolveError,
            >(fault),
        },
{
    if names.len() == 0 {
        Err(ResolveError::MissingDiscriminantType)
    } else if names.len() == 1 {
        Ok(names[0].clone())
    } else {
        Err(ResolveError::AmbiguousDiscriminantType)
    }
}

/// Finds the name of the integer type in which the discriminant of `input`
/// is written.
///
/// Every layout directive `repr(...)` among the annotations of the type is
/// read.  One that is empty, that does not read as an argument list or that
/// holds a path of several segments is a failure.  Markers (`C`,
/// `transparent`) and arguments that are no bare name are passed over.  What
/// is left must be exactly one name.
pub fn get_enum_type(input: &TypeDeclaration) -> (r: Result<String, ResolveError>)
    ensures
        match r {
            Ok(name) => discriminant_type_of(input@.annotations) == Ok::<Seq<char>, ResolveError>(
                name@,
            ),
            Err(fault) => discriminant_type_of(input@.annotations) == Err::<
                Seq<char>,
                ResolveError,
            >(fault),
        },
{
    let attrs = &input.annotations;
    let ghost views = input@.annotations;
    proof {
        assert(views =~= attrs.deep_view());
    }
    let key = "repr".to_owned();
    let mut names: Vec<String> = Vec::new();
    let mut i: usize = 0;
    while i < attrs.len()
        invariant
            i <= attrs.len(),
            views == input@.annotations,
            views == attrs.deep_view(),
            key@ == layout_directive_key(),
            forall|j: int| 0 <= j < i ==> directive_fault(views[j]) is None,
            string_views(names@) == all_named_types(views.take(i as int)),
        decreases attrs.len() - i,
    {
        proof {
            assert(views.take(i as int + 1).drop_last() == views.take(i as int));
            assert(views.take(i as int + 1).last() == views[i as int]);
        }
        if attrs[i].key == key {
            if let AnnotationValue::Arguments(tokens) = &attrs[i].value {
                let found = match parse_directive_arguments(tokens.as_str()) {
                    Ok(args) => directive_type_names(&args),
                    Err(_) => Err(ResolveError::MalformedLayoutDirective),
                };
                match found {
                    Ok(mut found) => {
                        let ghost before = names@;
                        let ghost added = found@;
                        names.append(&mut found);
                        proof {
                            assert(string_views(before + added) == string_views(before)
                                + string_views(added));
                        }
                    },
                    Err(fault) => {
                        proof {
                            assert(is_first_fault(views, i as int));
                            let w = choose|k: int| is_first_fault(views, k);
                            assert(w == i);
                        }
                        return Err(fault);
                    },
                }
            }
        }
        i += 1;
    }
    proof {
        assert(views.take(i as int) == views);
    }
    single_type_name(&names)
}

} // verus!
