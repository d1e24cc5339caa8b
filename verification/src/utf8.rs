//! UTF-8 as far as the streaming adapters need it: where a buffer of UTF-8
//! bytes ends inside a sequence, and how the bytes of a text join.

use core::str::Utf8Error;
use vstd::prelude::*;
use vstd::utf8::{
    encode_utf8, is_char_boundary, is_continuation_byte, is_leading_byte_width_1,
    is_leading_byte_width_2, is_leading_byte_width_3, is_leading_byte_width_4,
    length_of_first_scalar, pop_first_scalar, valid_first_scalar, valid_utf8,
};

verus! {

/// The length of the sequence that `byte` opens, or 0 where it opens none.
pub open spec fn sequence_length(byte: u8) -> int {
    if is_leading_byte_width_1(byte) {
        1
    } else if is_leading_byte_width_2(byte) {
        2
    } else if is_leading_byte_width_3(byte) {
        3
    } else if is_leading_byte_width_4(byte) {
        4
    } else {
        0
    }
}

/// How many bytes at the end of `bytes` open a sequence and leave it
/// unfinished: the last byte that is no continuation byte, where it stands
/// among the last three and opens a sequence longer than what is there of
/// it. Where there is no such byte, 0.
pub open spec fn unfinished(bytes: Seq<u8>) -> int {
    let n = bytes.len() as int;
    if n >= 1 && !is_continuation_byte(bytes[n - 1]) {
        if sequence_length(bytes[n - 1]) > 1 {
            1
        } else {
            0
        }
    } else if n >= 2 && !is_continuation_byte(bytes[n - 2]) {
        if sequence_length(bytes[n - 2]) > 2 {
            2
        } else {
            0
        }
    } else if n >= 3 && !is_continuation_byte(bytes[n - 3]) {
        if sequence_length(bytes[n - 3]) > 3 {
            3
        } else {
            0
        }
    } else {
        0
    }
}

/// The UTF-8 bytes of a text joined from two parts are those of the parts,
/// joined.
pub proof fn lemma_encode_utf8_concat(a: Seq<char>, b: Seq<char>)
    ensures
        encode_utf8(a + b) == encode_utf8(a) + encode_utf8(b),
    decreases a.len(),
{
    if a.len() == 0 {
        assert(a + b =~= b);
        assert(encode_utf8(a) + encode_utf8(b) =~= encode_utf8(b));
    } else {
        assert((a + b).drop_first() =~= a.drop_first() + b);
        lemma_encode_utf8_concat(a.drop_first(), b);
        assert(encode_utf8(a + b) =~= encode_utf8(a) + encode_utf8(b));
    }
}

/// The unfinished end is at most three bytes long, and is all that is
/// unfinished in itself.
pub proof fn lemma_unfinished(bytes: Seq<u8>)
    ensures
        0 <= unfinished(bytes) <= 3,
        unfinished(bytes) <= bytes.len(),
        unfinished(bytes.skip(bytes.len() - unfinished(bytes))) == unfinished(bytes),
{
    let j = unfinished(bytes);
    let n = bytes.len() as int;
    let tail = bytes.skip(n - j);
    if j > 0 {
        assert(forall|i: int| 0 <= i < j ==> tail[i] == bytes[n - j + i]);
    }
}

/// A buffer that is unfinished from its first byte on is no UTF-8.
pub proof fn lemma_unfinished_invalid(bytes: Seq<u8>)
    requires
        bytes.len() > 0,
        unfinished(bytes) == bytes.len(),
    ensures
        !valid_utf8(bytes),
{
}

/// How valid UTF-8 that is not empty begins: with a byte that opens a
/// sequence, as many continuation bytes as that sequence asks for, and then
/// valid UTF-8 again.
pub proof fn lemma_first_sequence(bytes: Seq<u8>)
    requires
        valid_utf8(bytes),
        bytes.len() > 0,
    ensures
        ({
            let w = length_of_first_scalar(bytes);
            &&& 1 <= w <= 4
            &&& w <= bytes.len()
            &&& !is_continuation_byte(bytes[0])
            &&& sequence_length(bytes[0]) == w
            &&& forall|i: int| 1 <= i < w ==> is_continuation_byte(#[trigger] bytes[i])
            &&& pop_first_scalar(bytes) == bytes.skip(w)
            &&& bytes.skip(w).len() == bytes.len() - w
            &&& valid_utf8(bytes.skip(w))
        }),
{
    assert(valid_first_scalar(bytes));
}

/// What is there of a sequence that is cut short is all unfinished.
proof fn lemma_unfinished_start(front: Seq<u8>, w: int)
    requires
        0 < front.len() < w <= 4,
        !is_continuation_byte(front[0]),
        sequence_length(front[0]) == w,
        forall|i: int| 1 <= i < front.len() ==> is_continuation_byte(#[trigger] front[i]),
    ensures
        unfinished(front) == front.len(),
{
    let n = front.len() as int;
    if n >= 2 {
        assert(is_continuation_byte(front[n - 1]));
    }
    if n >= 3 {
        assert(is_continuation_byte(front[n - 2]));
    }
}

/// A whole sequence leaves nothing unfinished.
proof fn lemma_unfinished_whole(front: Seq<u8>)
    requires
        0 < front.len() <= 4,
        !is_continuation_byte(front[0]),
        sequence_length(front[0]) == front.len(),
        forall|i: int| 1 <= i < front.len() ==> is_continuation_byte(#[trigger] front[i]),
    ensures
        unfinished(front) == 0,
{
    let n = front.len() as int;
    if n >= 2 {
        assert(is_continuation_byte(front[n - 1]));
    }
    if n >= 3 {
        assert(is_continuation_byte(front[n - 2]));
    }
    if n >= 4 {
        assert(is_continuation_byte(front[n - 3]));
    }
}

/// Bytes in front of a buffer that begins with no continuation byte do not
/// change what the buffer leaves unfinished.
proof fn lemma_unfinished_behind(head: Seq<u8>, back: Seq<u8>)
    requires
        back.len() > 0,
        !is_continuation_byte(back[0]),
    ensures
        unfinished(head + back) == unfinished(back),
{
    let all = head + back;
    let n = all.len() as int;
    let m = back.len() as int;
    assert(forall|i: int| 0 <= i < m ==> all[n - m + i] == back[i]);
    assert(all[n - 1] == back[m - 1]);
    if m >= 2 {
        assert(all[n - 2] == back[m - 2]);
    }
    if m >= 3 {
        assert(all[n - 3] == back[m - 3]);
    }
}

/// In valid UTF-8, leaving out the unfinished end of the first `end` bytes
/// leads to the boundary of a character.
pub proof fn lemma_unfinished_boundary(bytes: Seq<u8>, end: int)
    requires
        valid_utf8(bytes),
        0 <= end <= bytes.len(),
    ensures
        is_char_boundary(bytes, end - unfinished(bytes.take(end))),
    decreases bytes.len(),
{
    let front = bytes.take(end);
    if end > 0 {
        let w = length_of_first_scalar(bytes);
        lemma_first_sequence(bytes);
        if end < w {
            lemma_unfinished_start(front, w);
        } else {
            let rest = bytes.skip(w);
            let back = rest.take(end - w);
            lemma_unfinished_boundary(rest, end - w);
            lemma_unfinished(back);
            assert(front =~= bytes.take(w) + back);
            if end - w > 0 {
                lemma_first_sequence(rest);
                lemma_unfinished_behind(bytes.take(w), back);
            } else {
                assert(front =~= bytes.take(w));
                lemma_unfinished_whole(front);
            }
            let at = end - unfinished(front);
            assert(at >= w);
            assert(is_char_boundary(bytes, at) == is_char_boundary(
                pop_first_scalar(bytes),
                at - w,
            ));
        }
    }
}

/// In valid UTF-8, the character that begins at a boundary before the end
/// ends at the next boundary: its length leads from one to the other.
pub proof fn lemma_next_boundary(bytes: Seq<u8>, at: int)
    requires
        valid_utf8(bytes),
        is_char_boundary(bytes, at),
        0 <= at < bytes.len(),
    ensures
        valid_utf8(bytes.skip(at)),
        1 <= length_of_first_scalar(bytes.skip(at)) <= 4,
        at + length_of_first_scalar(bytes.skip(at)) <= bytes.len(),
        is_char_boundary(bytes, at + length_of_first_scalar(bytes.skip(at))),
        forall|i: int|
            at < i < at + length_of_first_scalar(bytes.skip(at)) ==> !is_char_boundary(bytes, i),
    decreases bytes.len(),
{
    let w = length_of_first_scalar(bytes);
    lemma_first_sequence(bytes);
    let rest = bytes.skip(w);
    if at == 0 {
        assert(bytes.skip(0) =~= bytes);
        assert(is_char_boundary(bytes, w) == is_char_boundary(pop_first_scalar(bytes), 0));
        assert forall|i: int| 0 < i < w implies !is_char_boundary(bytes, i) by {
            assert(is_char_boundary(bytes, i) == is_char_boundary(pop_first_scalar(bytes), i - w));
        }
    } else {
        assert(is_char_boundary(bytes, at) == is_char_boundary(pop_first_scalar(bytes), at - w));
        assert(at - w >= 0);
        lemma_next_boundary(rest, at - w);
        assert(rest.skip(at - w) =~= bytes.skip(at));
        let next = at + length_of_first_scalar(bytes.skip(at));
        assert(is_char_boundary(bytes, next) == is_char_boundary(
            pop_first_scalar(bytes),
            next - w,
        ));
        assert forall|i: int| at < i < next implies !is_char_boundary(bytes, i) by {
            assert(is_char_boundary(bytes, i) == is_char_boundary(pop_first_scalar(bytes), i - w));
        }
    }
}

/// `core::str::Utf8Error`, what `core::str::from_utf8` reports. Nothing is
/// known of what it holds.
#[verifier::external_type_specification]
#[verifier::external_body]
pub struct ExUtf8Error(Utf8Error);

/// `core::str::from_utf8` succeeds on exactly the valid UTF-8, and then gives
/// the text with those bytes.
pub assume_specification[ core::str::from_utf8 ](v: &[u8]) -> (r: Result<&str, Utf8Error>)
    ensures
        r is Ok <==> valid_utf8(v@),
        r matches Ok(text) ==> encode_utf8(text@) == v@,
;

/// The length of the sequence that `byte` opens, or 0 where it opens none.
pub fn opened_length(byte: u8) -> (n: usize)
    ensures
        n == sequence_length(byte),
{
    if byte <= 0x7F {
        1
    } else if 0xC0 <= byte && byte <= 0xDF {
        2
    } else if 0xE0 <= byte && byte <= 0xEF {
        3
    } else if 0xF0 <= byte && byte <= 0xF7 {
        4
    } else {
        0
    }
}

/// Whether `byte` continues a sequence.
pub fn continues(byte: u8) -> (b: bool)
    ensures
        b == is_continuation_byte(byte),
{
    0x80 <= byte && byte <= 0xBF
}

/// How many bytes at the end of `bytes` open a sequence and leave it
/// unfinished.
pub fn unfinished_len(bytes: &[u8]) -> (n: usize)
    ensures
        n == unfinished(bytes@),
{
    let n = bytes.len();
    if n >= 1 && !continues(bytes[n - 1]) {
        if opened_length(bytes[n - 1]) > 1 {
            1
        } else {
            0
        }
    } else if n >= 2 && !continues(bytes[n - 2]) {
        if opened_length(bytes[n - 2]) > 2 {
            2
        } else {
            0
        }
    } else if n >= 3 && !continues(bytes[n - 3]) {
        if opened_length(bytes[n - 3]) > 3 {
            3
        } else {
            0
        }
    } else {
        0
    }
}

} // verus!
