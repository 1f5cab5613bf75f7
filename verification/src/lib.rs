//! Byte-exact layout plans for annotated type declarations.
//!
//! A declaration lists fields (or, for a tagged union, variants) together with
//! annotations that ask for filler bytes and name the integer type of the
//! discriminant.  The crate resolves such a declaration into a layout, turns
//! the layout into an ordered plan of steps, and encodes and decodes values
//! against that plan.

pub mod annotation;
pub mod codec;
pub mod codec_laws;
pub mod declaration;
pub mod directive;
pub mod error;
pub mod layout;
pub mod plan;
pub mod primitive;
pub mod resolution_laws;
