//! Whole texts to whole buffers and back, in each of the four wire forms.

use crate::bytes::{
    bytes_units, lemma_bytes_units_bytes, lemma_unit_round_trip, lemma_units_bytes_index,
    lemma_units_bytes_units, push_bytes_units, push_units, unit_bytes, units_bytes,
};
use crate::error::{DecodeUtf16Error, ErrorKind};
use crate::units::{
    char_units, is_high_surrogate, is_low_surrogate, lemma_char_units, lemma_chars_units,
    lemma_units_valid, lemma_valid_pairs, str_units, utf16_chars, utf16_units, valid_utf16,
};
use crate::variant::Utf16;
use vstd::prelude::*;
use vstd::slice::slice_subrange;

verus! {

/// Whether `bytes` begins with `prefix`.
pub open spec fn opens_with(bytes: Seq<u8>, prefix: Seq<u8>) -> bool {
    prefix.len() <= bytes.len() && bytes.take(prefix.len() as int) == prefix
}

/// A text on the wire: the mark where the form has one, then the code units
/// of the text in the form's byte order.
pub open spec fn encoded(variant: Utf16, text: Seq<char>) -> Seq<u8> {
    variant.prefix() + units_bytes(variant.big_endian(), utf16_units(text))
}

/// The code units behind the place where the form's mark stands.
pub open spec fn payload_units(variant: Utf16, bytes: Seq<u8>) -> Seq<u16> {
    bytes_units(variant.big_endian(), bytes.skip(variant.prefix().len() as int))
}

/// What a buffer decodes to. An odd number of bytes is refused first, then a
/// missing or wrong mark, then code units that are not well formed.
pub open spec fn decoded(variant: Utf16, bytes: Seq<u8>) -> Result<Seq<char>, ErrorKind> {
    if bytes.len() % 2 != 0 {
        Err(ErrorKind::BadLength)
    } else if !opens_with(bytes, variant.prefix()) {
        Err(ErrorKind::BomMismatch)
    } else if !valid_utf16(payload_units(variant, bytes)) {
        Err(ErrorKind::Decode)
    } else {
        Ok(utf16_chars(payload_units(variant, bytes)))
    }
}

/// A result of decoding, as the text and the kind of failure.
pub open spec fn outcome(r: Result<String, DecodeUtf16Error>) -> Result<Seq<char>, ErrorKind> {
    match r {
        Ok(text) => Ok(text@),
        Err(e) => Err(e.kind_of()),
    }
}

/// Encodes `text` in the given wire form.
pub fn encode_utf16(variant: Utf16, text: &str) -> (out: Vec<u8>)
    ensures
        out@ == encoded(variant, text@),
{
    let units = str_units(text);
    let room: usize = if units.len() <= (usize::MAX - 2) / 2 {
        2 * units.len() + 2
    } else {
        units.len()
    };
    let mut out: Vec<u8> = Vec::with_capacity(room);
    if variant.carries_bom() {
        let mark = variant.bom_bytes();
        out.push(mark[0]);
        out.push(mark[1]);
    }
    assert(out@ =~= variant.prefix());
    push_units(variant.is_big_endian(), units.as_slice(), &mut out);
    out
}

/// Decodes `bytes`, which are held to be in the given wire form.
pub fn decode_utf16(variant: Utf16, bytes: &[u8]) -> (r: Result<String, DecodeUtf16Error>)
    ensures
        outcome(r) == decoded(variant, bytes@),
{
    if bytes.len() % 2 != 0 {
        return Err(DecodeUtf16Error::BadLength);
    }
    let mut start: usize = 0;
    if variant.carries_bom() {
        let mark = variant.bom_bytes();
        if bytes.len() < 2 || bytes[0] != mark[0] || bytes[1] != mark[1] {
            assert(!opens_with(bytes@, variant.prefix())) by {
                if opens_with(bytes@, variant.prefix()) {
                    assert(bytes@.take(2)[0] == variant.mark()[0]);
                    assert(bytes@.take(2)[1] == variant.mark()[1]);
                }
            }
            return Err(DecodeUtf16Error::BomMismatch);
        }
        start = 2;
    }
    assert(bytes@.take(start as int) =~= variant.prefix());
    let payload = slice_subrange(bytes, start, bytes.len());
    let mut units: Vec<u16> = Vec::new();
    push_bytes_units(variant.is_big_endian(), payload, &mut units);
    assert(units@ =~= payload_units(variant, bytes@));
    match String::from_utf16(units.as_slice()) {
        Ok(text) => {
            proof {
                lemma_units_valid(text@);
            }
            Ok(text)
        },
        Err(e) => Err(DecodeUtf16Error::Decode(e)),
    }
}

/// Round trip: what was encoded in a wire form decodes, in that form, to the
/// text that was encoded.
pub proof fn law_round_trip(variant: Utf16, text: Seq<char>)
    ensures
        decoded(variant, encoded(variant, text)) == Ok::<Seq<char>, ErrorKind>(text),
{
    let units = utf16_units(text);
    let body = units_bytes(variant.big_endian(), units);
    let bytes = encoded(variant, text);
    lemma_units_bytes_units(variant.big_endian(), units);
    lemma_units_valid(text);
    assert(bytes.take(variant.prefix().len() as int) =~= variant.prefix());
    assert(bytes.skip(variant.prefix().len() as int) =~= body);
}

/// A buffer decodes to a text only if it is the encoding of that text: no two
/// buffers decode to the same text in one wire form.
pub proof fn law_decoded_is_encoded(variant: Utf16, bytes: Seq<u8>)
    ensures
        decoded(variant, bytes) matches Ok(text) ==> encoded(variant, text) == bytes,
{
    if decoded(variant, bytes) is Ok {
        let n = variant.prefix().len() as int;
        let units = payload_units(variant, bytes);
        lemma_chars_units(units);
        lemma_bytes_units_bytes(variant.big_endian(), bytes.skip(n));
        assert(bytes.take(n) + bytes.skip(n) =~= bytes);
    }
}

/// Mark presence: with a mark in the wire form, the encoding of any text
/// begins with the mark of the form's byte order, `FF FE` for little endian
/// and `FE FF` for big endian.
pub proof fn law_mark_opens(variant: Utf16, text: Seq<char>)
    requires
        variant.has_bom(),
    ensures
        opens_with(encoded(variant, text), variant.mark()),
        variant == Utf16::LeBom ==> opens_with(encoded(variant, text), seq![0xFFu8, 0xFEu8]),
        variant == Utf16::BeBom ==> opens_with(encoded(variant, text), seq![0xFEu8, 0xFFu8]),
{
    assert(encoded(variant, text).take(2) =~= variant.mark());
    assert(variant.mark() =~= if variant == Utf16::LeBom {
        seq![0xFFu8, 0xFEu8]
    } else {
        seq![0xFEu8, 0xFFu8]
    });
}

/// Mark absence: without a mark in the wire form, the encoding holds the code
/// units of the text and nothing else. It begins with the bytes of a mark
/// only where the text itself begins with the scalar value whose code unit
/// has those bytes in the form's byte order.
pub proof fn law_no_mark_added(variant: Utf16, text: Seq<char>)
    requires
        !variant.has_bom(),
    ensures
        encoded(variant, text) == units_bytes(variant.big_endian(), utf16_units(text)),
        opens_with(encoded(variant, text), variant.mark()) ==> text.len() > 0 && text[0]
            == '\u{FEFF}',
        opens_with(encoded(variant, text), seq![variant.mark()[1], variant.mark()[0]])
            ==> text.len() > 0 && text[0] == '\u{FFFE}',
{
    let units = utf16_units(text);
    let bytes = encoded(variant, text);
    assert(bytes =~= units_bytes(variant.big_endian(), units));
    let swapped = seq![variant.mark()[1], variant.mark()[0]];
    if opens_with(bytes, variant.mark()) || opens_with(bytes, swapped) {
        lemma_units_bytes_index(variant.big_endian(), units);
        assert(bytes.len() >= 2);
        assert(text.len() > 0);
        lemma_char_units(text[0]);
        assert(units[0] == char_units(text[0])[0]);
        lemma_unit_round_trip(variant.big_endian(), units[0]);
        assert(bytes[0] == unit_bytes(variant.big_endian(), units[0])[0]);
        assert(bytes[1] == unit_bytes(variant.big_endian(), units[0])[1]);
        if opens_with(bytes, variant.mark()) {
            assert(bytes.take(2)[0] == variant.mark()[0]);
            assert(bytes.take(2)[1] == variant.mark()[1]);
            assert(units[0] == 0xFEFF);
        }
        if opens_with(bytes, swapped) {
            assert(bytes.take(2)[0] == swapped[0]);
            assert(bytes.take(2)[1] == swapped[1]);
            assert(units[0] == 0xFFFE);
        }
    }
}

/// Odd lengths: a buffer whose bytes behind the place of the mark are odd in
/// number is refused for its length, in every wire form.
pub proof fn law_odd_length(variant: Utf16, bytes: Seq<u8>)
    requires
        (bytes.len() - variant.prefix().len()) % 2 != 0,
    ensures
        decoded(variant, bytes) == Err::<Seq<char>, ErrorKind>(ErrorKind::BadLength),
{
}

/// Surrogates: a buffer of sound length and mark is refused as not well
/// formed as soon as one high surrogate in it has no low surrogate right
/// after it, or one low surrogate no high surrogate right before it.
pub proof fn law_lone_surrogate(variant: Utf16, bytes: Seq<u8>, i: int)
    requires
        bytes.len() % 2 == 0,
        opens_with(bytes, variant.prefix()),
        0 <= i < payload_units(variant, bytes).len(),
        ({
            let units = payload_units(variant, bytes);
            ||| is_high_surrogate(units[i]) && !(i + 1 < units.len() && is_low_surrogate(
                units[i + 1],
            ))
            ||| is_low_surrogate(units[i]) && !(i >= 1 && is_high_surrogate(units[i - 1]))
        }),
    ensures
        decoded(variant, bytes) == Err::<Seq<char>, ErrorKind>(ErrorKind::Decode),
{
    let units = payload_units(variant, bytes);
    if valid_utf16(units) {
        lemma_valid_pairs(units, i);
    }
}

/// Wrong mark: with a mark in the wire form, a buffer that begins with the
/// mark of the other byte order is refused, for its length where that is odd
/// and for its mark otherwise.
pub proof fn law_wrong_mark(variant: Utf16, bytes: Seq<u8>)
    requires
        variant.has_bom(),
        opens_with(bytes, seq![variant.mark()[1], variant.mark()[0]]),
    ensures
        decoded(variant, bytes) is Err,
        bytes.len() % 2 == 0 ==> decoded(variant, bytes) == Err::<Seq<char>, ErrorKind>(
            ErrorKind::BomMismatch,
        ),
{
    let swapped = seq![variant.mark()[1], variant.mark()[0]];
    assert(bytes.take(2)[0] == swapped[0]);
    if opens_with(bytes, variant.prefix()) {
        assert(bytes.take(2)[0] == variant.mark()[0]);
    }
}

} // verus!
