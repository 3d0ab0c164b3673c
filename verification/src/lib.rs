//! A layered byte-pair compression codec.
//!
//! The codec replaces frequent two-byte values with one-byte dictionary
//! indices, chunk by chunk, and applies itself in layers until a pass no
//! longer shrinks the data. Everything operates on in-memory byte vectors;
//! a thin command-line front end supplies the file bytes.

pub mod compress;
pub mod dict_elem;
pub mod dictionary;
pub mod index_value_pair;
pub mod roundtrip;
pub mod uncompress;
pub mod utility;
