//! Codec for the `application/x-www-form-urlencoded` format.
//!
//! Decoding turns the flat sequence of key/value pairs into a structure
//! grouped by key and sorted by the bytes of the keys; a target then asks
//! that structure for a map, a sequence or nothing, and each entry for a
//! scalar or a sequence. Encoding is the structural inverse.

pub mod de;
pub mod form;
pub mod grouping;
pub mod laws;
pub mod scalar;
pub mod ser;
pub mod val_or_vec;
pub mod value;
