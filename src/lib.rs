//! Expansion encoding: every bit of a file becomes one decimal token whose
//! parity carries the bit, with the file's extension carried in a trailer.

pub mod bits;
pub mod tokens;
pub mod partition;
pub mod merge;
pub mod trailer;
pub mod codec;
pub mod naming;
