//! Glob-style pattern matching on byte strings.
//!
//! A pattern always has to match the whole subject, from its first byte to its
//! last. The wildcards work on single bytes, not on Unicode scalar values.
//!
//! | Token     | Accepts                                              |
//! | --------- | ---------------------------------------------------- |
//! | `*`       | any run of bytes, the empty one included             |
//! | `?`       | any single byte                                      |
//! | `[abc]`   | one byte that is listed in the class                 |
//! | `[a-z]`   | one byte from the inclusive range                    |
//! | `[^abc]`  | one byte that is not listed in the class             |
//! | `[^a-z]`  | one byte outside the inclusive range                 |
//! | `\c`      | the byte `c`, with any wildcard meaning taken away   |
//!
//! A class without members accepts nothing, negated or not. A class that is
//! not closed runs to the end of the pattern, and an `\` at the end of the
//! pattern stands for itself: every pattern is a valid one.
//!
//! ```
//! use moenster::{stringmatch, stringmatch_bytes, Case};
//!
//! assert!(stringmatch("m*nster", "mønster"));
//! assert!(!stringmatch("m?nster", "mønster"));
//! assert!(stringmatch_bytes(b"M[a-z]*", b"moenster", Case::Insensitive));
//! ```
//!
//! [`model`] holds the meaning of a pattern, [`matcher`] the functions that
//! are proved to compute it, and [`laws`] what follows from it for every
//! pattern and subject.

pub mod laws;
pub mod matcher;
pub mod model;

pub use matcher::{stringmatch, stringmatch_bytes};
pub use model::Case;
