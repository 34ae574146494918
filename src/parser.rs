//! The reading side: a position-addressed byte source.
pub use crate::io::Reader;
