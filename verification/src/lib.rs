//! Conversion-and-verification core of a unit-aware calculator.
//!
//! Physical quantities (an exact rational magnitude paired with a dimension
//! vector over base units) are tied together by named conversion ratios, the
//! properties of a substance.  The library resolves property lookups with
//! dimensional-conformance checking and builds ordered reply structures, all
//! with fallible arithmetic and without panicking.

pub mod quantity;
pub mod substance;
pub mod laws;

pub use quantity::Quantity;
pub use substance::{
    Property, PropertyReply, Renderer, Substance, SubstanceGetError, SubstanceReply,
};
