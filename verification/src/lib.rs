//! Exact rational arithmetic for a calculator core.

pub mod fraction;
pub mod gcd;
pub mod laws;
pub mod scv;
pub mod ssv;

pub use fraction::FracError;
pub use fraction::Fraction;
