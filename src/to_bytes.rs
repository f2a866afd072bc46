//! # To Bytes
//!
//! The [`ToBytes`] trait: a read-only byte view of the inputs that the schemes accept.
use vstd::prelude::*;

verus! {

/// A value that can be seen as a slice of bytes without copying.
pub trait ToBytes {
    /// The bytes that `to_bytes` hands out.
    spec fn byte_view(&self) -> Seq<u8>;

    /// Turns `&self` into `&[u8]` (a slice of bytes).
    fn to_bytes(&self) -> (r: &[u8])
        ensures
            r@ == self.byte_view(),
    ;
}

impl<'a> ToBytes for &'a str {
    /// The UTF-8 encoding of the text.
    open spec fn byte_view(&self) -> Seq<u8> {
        vstd::utf8::encode_utf8((**self)@)
    }

    fn to_bytes(&self) -> (r: &[u8]) {
        (**self).as_bytes()
    }
}

impl ToBytes for String {
    /// The UTF-8 encoding of the text.
    open spec fn byte_view(&self) -> Seq<u8> {
        vstd::utf8::encode_utf8(self@)
    }

    fn to_bytes(&self) -> (r: &[u8]) {
        self.as_str().as_bytes()
    }
}

impl<const N: usize> ToBytes for [u8; N] {
    open spec fn byte_view(&self) -> Seq<u8> {
        self@
    }

    fn to_bytes(&self) -> (r: &[u8]) {
        self.as_slice()
    }
}

impl<'a, const N: usize> ToBytes for &'a [u8; N] {
    open spec fn byte_view(&self) -> Seq<u8> {
        (**self)@
    }

    fn to_bytes(&self) -> (r: &[u8]) {
        (**self).as_slice()
    }
}

impl<'a> ToBytes for &'a [u8] {
    open spec fn byte_view(&self) -> Seq<u8> {
        (**self)@
    }

    fn to_bytes(&self) -> (r: &[u8]) {
        *self
    }
}

impl ToBytes for Vec<u8> {
    open spec fn byte_view(&self) -> Seq<u8> {
        self@
    }

    fn to_bytes(&self) -> (r: &[u8]) {
        self.as_slice()
    }
}

} // verus!
