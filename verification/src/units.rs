//! UTF-16 as a sequence of 16-bit code units.
//!
//! A scalar value below `0x10000` is one code unit. Any other is a pair: a
//! high surrogate that carries the upper ten bits of the value less
//! `0x10000`, then a low surrogate that carries the lower ten. A sequence of
//! code units is well formed when every surrogate in it belongs to such a
//! pair.

use std::string::FromUtf16Error;
use vstd::prelude::*;

verus! {

/// The first half of a surrogate pair.
pub open spec fn is_high_surrogate(u: u16) -> bool {
    0xD800 <= u <= 0xDBFF
}

/// The second half of a surrogate pair.
pub open spec fn is_low_surrogate(u: u16) -> bool {
    0xDC00 <= u <= 0xDFFF
}

/// The code units of one scalar value.
pub open spec fn char_units(c: char) -> Seq<u16> {
    let x = c as u32;
    if x < 0x10000 {
        seq![x as u16]
    } else {
        seq![(0xD800 + (x - 0x10000) / 0x400) as u16, (0xDC00 + (x - 0x10000) % 0x400) as u16]
    }
}

/// The code units of a text: those of its scalar values, in order.
pub open spec fn utf16_units(text: Seq<char>) -> Seq<u16>
    decreases text.len(),
{
    if text.len() == 0 {
        Seq::<u16>::empty()
    } else {
        char_units(text[0]) + utf16_units(text.drop_first())
    }
}

/// Well-formedness: read from the front, every high surrogate is followed at
/// once by a low one, and no low surrogate stands anywhere else.
pub open spec fn valid_utf16(units: Seq<u16>) -> bool
    decreases units.len(),
{
    if units.len() == 0 {
        true
    } else if is_high_surrogate(units[0]) {
        units.len() >= 2 && is_low_surrogate(units[1]) && valid_utf16(units.skip(2))
    } else if is_low_surrogate(units[0]) {
        false
    } else {
        valid_utf16(units.skip(1))
    }
}

/// The scalar value that a surrogate pair stands for.
pub open spec fn pair_char(high: u16, low: u16) -> char {
    (0x10000 + (high - 0xD800) * 0x400 + (low - 0xDC00)) as char
}

/// The text that well-formed code units stand for.
pub open spec fn utf16_chars(units: Seq<u16>) -> Seq<char>
    decreases units.len(),
{
    if units.len() == 0 {
        Seq::<char>::empty()
    } else if is_high_surrogate(units[0]) && units.len() >= 2 {
        seq![pair_char(units[0], units[1])] + utf16_chars(units.skip(2))
    } else {
        seq![units[0] as char] + utf16_chars(units.skip(1))
    }
}

/// One scalar value gives either a single unit that is no surrogate, or a
/// high surrogate and a low one, and can be read back from them.
pub proof fn lemma_char_units(c: char)
    ensures
        ({
            let u = char_units(c);
            if (c as u32) < 0x10000 {
                &&& u.len() == 1
                &&& !is_high_surrogate(u[0])
                &&& !is_low_surrogate(u[0])
                &&& u[0] as char == c
            } else {
                &&& u.len() == 2
                &&& is_high_surrogate(u[0])
                &&& is_low_surrogate(u[1])
                &&& pair_char(u[0], u[1]) == c
            }
        }),
{
    let x = c as u32;
    if x >= 0x10000 {
        let d = (x - 0x10000) as int;
        assert(0 <= d <= 0xFFFFF);
        assert(0 <= d / 0x400 <= 0x3FF);
        assert(0 <= d % 0x400 <= 0x3FF);
        assert(d == (d / 0x400) * 0x400 + d % 0x400);
    }
}

/// The code units of a text joined from two parts are those of the parts,
/// joined.
pub proof fn lemma_units_concat(a: Seq<char>, b: Seq<char>)
    ensures
        utf16_units(a + b) == utf16_units(a) + utf16_units(b),
    decreases a.len(),
{
    if a.len() == 0 {
        assert(a + b =~= b);
    } else {
        assert((a + b).drop_first() =~= a.drop_first() + b);
        lemma_units_concat(a.drop_first(), b);
        assert(utf16_units(a + b) =~= utf16_units(a) + utf16_units(b));
    }
}

/// The code units of any text are well formed, and stand for that text.
pub proof fn lemma_units_valid(text: Seq<char>)
    ensures
        valid_utf16(utf16_units(text)),
        utf16_chars(utf16_units(text)) == text,
    decreases text.len(),
{
    if text.len() > 0 {
        let head = char_units(text[0]);
        let rest = utf16_units(text.drop_first());
        let all = utf16_units(text);
        lemma_char_units(text[0]);
        lemma_units_valid(text.drop_first());
        if head.len() == 1 {
            assert(all.skip(1) =~= rest);
        } else {
            assert(all.skip(2) =~= rest);
        }
        assert(utf16_chars(all) =~= text);
    }
}

/// Well-formed code units are the code units of the text they stand for.
pub proof fn lemma_chars_units(units: Seq<u16>)
    requires
        valid_utf16(units),
    ensures
        utf16_units(utf16_chars(units)) == units,
    decreases units.len(),
{
    if units.len() > 0 {
        if is_high_surrogate(units[0]) {
            let c = pair_char(units[0], units[1]);
            let h = (units[0] - 0xD800) as int;
            let l = (units[1] - 0xDC00) as int;
            let x = 0x10000 + h * 0x400 + l;
            assert(0x10000 <= x <= 0x10FFFF);
            assert(c as u32 == x);
            assert((x - 0x10000) / 0x400 == h);
            assert((x - 0x10000) % 0x400 == l);
            lemma_chars_units(units.skip(2));
            assert(utf16_chars(units).drop_first() =~= utf16_chars(units.skip(2)));
            assert(char_units(c) =~= seq![units[0], units[1]]);
            assert(utf16_units(utf16_chars(units)) =~= units);
        } else {
            let c = units[0] as char;
            assert(c as u32 == units[0]);
            lemma_chars_units(units.skip(1));
            assert(utf16_chars(units).drop_first() =~= utf16_chars(units.skip(1)));
            assert(char_units(c) =~= seq![units[0]]);
            assert(utf16_units(utf16_chars(units)) =~= units);
        }
    }
}

/// Well-formed code units do not end in a high surrogate.
pub proof fn lemma_valid_last(units: Seq<u16>)
    requires
        valid_utf16(units),
        units.len() > 0,
    ensures
        !is_high_surrogate(units.last()),
    decreases units.len(),
{
    if is_high_surrogate(units[0]) {
        if units.len() > 2 {
            lemma_valid_last(units.skip(2));
        }
    } else {
        if units.len() > 1 {
            lemma_valid_last(units.skip(1));
        }
    }
}

/// Two well-formed sequences stay well formed when joined, and stand for the
/// two texts joined.
pub proof fn lemma_valid_concat(a: Seq<u16>, b: Seq<u16>)
    requires
        valid_utf16(a),
        valid_utf16(b),
    ensures
        valid_utf16(a + b),
        utf16_chars(a + b) == utf16_chars(a) + utf16_chars(b),
    decreases a.len(),
{
    if a.len() == 0 {
        assert(a + b =~= b);
        assert(utf16_chars(a) + utf16_chars(b) =~= utf16_chars(b));
    } else if is_high_surrogate(a[0]) {
        lemma_valid_concat(a.skip(2), b);
        assert((a + b).skip(2) =~= a.skip(2) + b);
        assert(utf16_chars(a + b) =~= utf16_chars(a) + utf16_chars(b));
    } else {
        lemma_valid_concat(a.skip(1), b);
        assert((a + b).skip(1) =~= a.skip(1) + b);
        assert(utf16_chars(a + b) =~= utf16_chars(a) + utf16_chars(b));
    }
}

/// A well-formed sequence cut at a place that does not part a surrogate pair
/// gives two well-formed sequences.
pub proof fn lemma_valid_split(a: Seq<u16>, b: Seq<u16>)
    requires
        valid_utf16(a + b),
        a.len() == 0 || !is_high_surrogate(a.last()),
    ensures
        valid_utf16(a),
        valid_utf16(b),
    decreases a.len(),
{
    if a.len() == 0 {
        assert(a + b =~= b);
    } else if is_high_surrogate(a[0]) {
        assert((a + b)[0] == a[0]);
        assert(a.len() >= 2);
        assert((a + b)[1] == a[1]);
        assert((a + b).skip(2) =~= a.skip(2) + b);
        if a.len() > 2 {
            assert(a.skip(2).last() == a.last());
        }
        lemma_valid_split(a.skip(2), b);
    } else {
        assert((a + b)[0] == a[0]);
        assert((a + b).skip(1) =~= a.skip(1) + b);
        if a.len() > 1 {
            assert(a.skip(1).last() == a.last());
        }
        lemma_valid_split(a.skip(1), b);
    }
}

/// In well-formed code units every high surrogate has a low one right after
/// it, and every low surrogate a high one right before it.
pub proof fn lemma_valid_pairs(units: Seq<u16>, i: int)
    requires
        valid_utf16(units),
        0 <= i < units.len(),
    ensures
        is_high_surrogate(units[i]) ==> i + 1 < units.len() && is_low_surrogate(units[i + 1]),
        is_low_surrogate(units[i]) ==> i >= 1 && is_high_surrogate(units[i - 1]),
    decreases units.len(),
{
    if is_high_surrogate(units[0]) {
        if i >= 2 {
            lemma_valid_pairs(units.skip(2), i - 2);
        }
    } else {
        if i >= 1 {
            lemma_valid_pairs(units.skip(1), i - 1);
        }
    }
}

/// What `str::encode_utf16` yields, gathered into a vector: the code units of
/// the text, in the machine's own integers, without a byte-order mark.
#[verifier::external_body]
pub(crate) fn str_units(text: &str) -> (units: Vec<u16>)
    ensures
        units@ == utf16_units(text@),
{
    text.encode_utf16().collect()
}

/// `std::string::FromUtf16Error`, what `String::from_utf16` reports. Nothing
/// is known of what it holds.
#[verifier::external_type_specification]
#[verifier::external_body]
pub struct ExFromUtf16Error(FromUtf16Error);

/// `String::from_utf16` succeeds on exactly the well-formed sequences of code
/// units, and then gives the text whose code units they are.
pub assume_specification[ String::from_utf16 ](v: &[u16]) -> (r: Result<String, FromUtf16Error>)
    ensures
        r is Ok <==> valid_utf16(v@),
        r matches Ok(s) ==> utf16_units(s@) == v@,
;

} // verus!
