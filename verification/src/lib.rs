//! Plane curves over small finite fields.
//!
//! The crate counts the smooth ternary forms of a degree over the field of
//! two or of three elements. It holds the arithmetic of the extension fields
//! of these two fields, with their elements packed into machine words; the
//! forms of a degree as vectors of coefficients, packed into words too; the
//! sweep that sorts all forms into classes under the linear changes of the
//! variables; and the search for singular points, over the prime field and
//! its extensions in turn, that tells the classes with smooth curves from the
//! others and counts the points of the smooth ones.
pub mod gf2;
pub mod gf3;
pub mod text;
pub mod field_extensions;
pub mod polynomials;
pub mod algebraic_types;
pub mod matrices;
pub mod action;
pub mod orbits;
pub mod smoothness;
pub mod records;
pub mod round_trip;
