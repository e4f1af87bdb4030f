//! Parsing and formatting of human-readable byte sizes.
//!
//! A size string such as `"15.2KB"` is split into a decimal magnitude and a
//! trailing unit symbol, the symbol is resolved against a fixed table of
//! decimal (powers of 1000) and binary (powers of 1024) units, and the two are
//! combined into an exact byte count by multiplying and truncating toward
//! zero.  Magnitudes are kept as exact decimal digit sequences, so the byte
//! count is computed and specified with exact integer arithmetic.

pub mod digits;
pub mod error;
pub mod laws;
pub mod size;
pub mod unit;

pub use error::ParseSizeError;
pub use error::SizeErrorKind;
pub use size::AutoSize;
pub use size::Size;
pub use unit::Unit;
