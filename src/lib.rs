//! Arsenal of encosure schemes: reversible byte-to-text codecs.

pub mod anyway;
pub mod indexed_str;
pub mod laws;
pub mod to_bytes;
