//! The codec as methods on `&str` and `String`.

use crate::codec::{decode_utf16, decoded, encode_utf16, encoded, outcome};
use crate::error::{DecodeUtf16Error, ErrorKind};
use crate::variant::Utf16;
use vstd::prelude::*;

verus! {

/// Encoding of the receiver's text, and decoding of a buffer, in each of the
/// four wire forms. The decoding methods read only `input`.
pub trait Utf16Ext {
    /// How decoding fails.
    type Error;

    /// The text that the receiver holds.
    spec fn text(&self) -> Seq<char>;

    /// The text as little-endian UTF-16 without a mark.
    fn encode_utf16_le(&self) -> (out: Vec<u8>)
        ensures
            out@ == encoded(Utf16::Le, self.text()),
    ;

    /// The text as little-endian UTF-16 behind the mark `FF FE`.
    fn encode_utf16_le_bom(&self) -> (out: Vec<u8>)
        ensures
            out@ == encoded(Utf16::LeBom, self.text()),
    ;

    /// The text as big-endian UTF-16 without a mark.
    fn encode_utf16_be(&self) -> (out: Vec<u8>)
        ensures
            out@ == encoded(Utf16::Be, self.text()),
    ;

    /// The text as big-endian UTF-16 behind the mark `FE FF`.
    fn encode_utf16_be_bom(&self) -> (out: Vec<u8>)
        ensures
            out@ == encoded(Utf16::BeBom, self.text()),
    ;

    /// Decodes little-endian UTF-16 without a mark.
    fn decode_utf16_le(&self, input: &[u8]) -> (r: Result<String, Self::Error>)
        ensures
            r is Ok <==> decoded(Utf16::Le, input@) is Ok,
            r matches Ok(text) ==> decoded(Utf16::Le, input@) == Ok::<Seq<char>, ErrorKind>(text@),
    ;

    /// Decodes little-endian UTF-16 that begins with the mark `FF FE`.
    fn decode_utf16_le_bom(&self, input: &[u8]) -> (r: Result<String, Self::Error>)
        ensures
            r is Ok <==> decoded(Utf16::LeBom, input@) is Ok,
            r matches Ok(text) ==> decoded(Utf16::LeBom, input@) == Ok::<Seq<char>, ErrorKind>(
                text@,
            ),
    ;

    /// Decodes big-endian UTF-16 without a mark.
    fn decode_utf16_be(&self, input: &[u8]) -> (r: Result<String, Self::Error>)
        ensures
            r is Ok <==> decoded(Utf16::Be, input@) is Ok,
            r matches Ok(text) ==> decoded(Utf16::Be, input@) == Ok::<Seq<char>, ErrorKind>(text@),
    ;

    /// Decodes big-endian UTF-16 that begins with the mark `FE FF`.
    fn decode_utf16_be_bom(&self, input: &[u8]) -> (r: Result<String, Self::Error>)
        ensures
            r is Ok <==> decoded(Utf16::BeBom, input@) is Ok,
            r matches Ok(text) ==> decoded(Utf16::BeBom, input@) == Ok::<Seq<char>, ErrorKind>(
                text@,
            ),
    ;
}

impl<'a> Utf16Ext for &'a str {
    type Error = DecodeUtf16Error;

    open spec fn text(&self) -> Seq<char> {
        (*self)@
    }

    fn encode_utf16_le(&self) -> (out: Vec<u8>) {
        encode_utf16(Utf16::Le, *self)
    }

    fn encode_utf16_le_bom(&self) -> (out: Vec<u8>) {
        encode_utf16(Utf16::LeBom, *self)
    }

    fn encode_utf16_be(&self) -> (out: Vec<u8>) {
        encode_utf16(Utf16::Be, *self)
    }

    fn encode_utf16_be_bom(&self) -> (out: Vec<u8>) {
        encode_utf16(Utf16::BeBom, *self)
    }

    fn decode_utf16_le(&self, input: &[u8]) -> (r: Result<String, DecodeUtf16Error>)
        ensures
            outcome(r) == decoded(Utf16::Le, input@),
    {
        decode_utf16(Utf16::Le, input)
    }

    fn decode_utf16_le_bom(&self, input: &[u8]) -> (r: Result<String, DecodeUtf16Error>)
        ensures
            outcome(r) == decoded(Utf16::LeBom, input@),
    {
        decode_utf16(Utf16::LeBom, input)
    }

    fn decode_utf16_be(&self, input: &[u8]) -> (r: Result<String, DecodeUtf16Error>)
        ensures
            outcome(r) == decoded(Utf16::Be, input@),
    {
        decode_utf16(Utf16::Be, input)
    }

    fn decode_utf16_be_bom(&self, input: &[u8]) -> (r: Result<String, DecodeUtf16Error>)
        ensures
            outcome(r) == decoded(Utf16::BeBom, input@),
    {
        decode_utf16(Utf16::BeBom, input)
    }
}

impl Utf16Ext for String {
    type Error = DecodeUtf16Error;

    open spec fn text(&self) -> Seq<char> {
        self@
    }

    fn encode_utf16_le(&self) -> (out: Vec<u8>) {
        encode_utf16(Utf16::Le, self.as_str())
    }

    fn encode_utf16_le_bom(&self) -> (out: Vec<u8>) {
        encode_utf16(Utf16::LeBom, self.as_str())
    }

    fn encode_utf16_be(&self) -> (out: Vec<u8>) {
        encode_utf16(Utf16::Be, self.as_str())
    }

    fn encode_utf16_be_bom(&self) -> (out: Vec<u8>) {
        encode_utf16(Utf16::BeBom, self.as_str())
    }

    fn decode_utf16_le(&self, input: &[u8]) -> (r: Result<String, DecodeUtf16Error>)
        ensures
            outcome(r) == decoded(Utf16::Le, input@),
    {
        decode_utf16(Utf16::Le, input)
    }

    fn decode_utf16_le_bom(&self, input: &[u8]) -> (r: Result<String, DecodeUtf16Error>)
        ensures
            outcome(r) == decoded(Utf16::LeBom, input@),
    {
        decode_utf16(Utf16::LeBom, input)
    }

    fn decode_utf16_be(&self, input: &[u8]) -> (r: Result<String, DecodeUtf16Error>)
        ensures
            outcome(r) == decoded(Utf16::Be, input@),
    {
        decode_utf16(Utf16::Be, input)
    }

    fn decode_utf16_be_bom(&self, input: &[u8]) -> (r: Result<String, DecodeUtf16Error>)
        ensures
            outcome(r) == decoded(Utf16::BeBom, input@),
    {
        decode_utf16(Utf16::BeBom, input)
    }
}

} // verus!
