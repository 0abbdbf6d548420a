//! Building an inverted index from documents in stages, and the bit-level
//! helpers and Bloom filters that go with index segments.

pub mod aliasing;
pub mod bits;
pub mod codec;
pub mod bloom;
pub mod copying;
pub mod index;
pub mod stages;
pub mod tokenize;
