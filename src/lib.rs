//! Generalized Clifford algebras over a signature of positive, negative and null generators.
//!
//! A blade is a product of distinct generators, written as the bitmask of those
//! generators. Multivectors store one coefficient per blade, in grade-major slot order:
//! by number of generators first, then by the value of the mask.
pub mod grading;
pub mod laws;
pub mod mask;
pub mod multivector;
pub mod signature;

pub use multivector::Multivector;
pub use signature::{cga, pga, sta, vga, Clifford};
