//! A small function-composition library.
//!
//! An [`Arrow`] wraps one unary transformation (its *essence*) together with
//! an ordered list of follow-on [`Arrow`]s (its *symbiotes*).  Shooting the
//! arrow applies the essence and then every symbiote in order, threading the
//! value through the whole pipeline.

pub mod arrow;
pub mod laws;

pub use arrow::Arrow;
pub use arrow::OutOfRange;
pub use arrow::nop;
