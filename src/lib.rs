//! Reading the kernel's table of active swap areas.
//!
//! The table is a header line followed by one line per swap area, each with
//! five whitespace-separated fields. Bytes that would break the tokenizing
//! (whitespace, the backslash itself) are written as a backslash and three
//! octal digits.
pub mod escape;
pub mod swaps;
